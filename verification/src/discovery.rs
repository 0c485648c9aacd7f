//! Finding matches on the local network.
//!
//! A host broadcasts a small announcement a few times a second; clients
//! listen and keep a list. A host that quits stops announcing, and it does
//! not get to send a farewell, since the packet carrying it might be the one
//! that gets lost. So entries age out.
//!
//! The list is kept in address order, so it does not reshuffle under the
//! pointer, and keyed by address, so a host re-announcing updates its entry
//! rather than appearing twice. Time is handed in as milliseconds on the
//! caller's clock.

use vstd::prelude::*;
use crate::lobby::{elapsed, Address};
use crate::protocol::{announce_view, Announce, AnnounceView, Packet, DISCOVERY_PORT, PROTOCOL_VERSION};
use crate::text::copy_text;

verus! {

/// How often a host announces itself: twice a second.
pub const ANNOUNCE_INTERVAL_MS: u64 = 500;

/// How long an entry survives without being heard from again: four missed
/// announcements.
pub const ENTRY_TIMEOUT_MS: u64 = 2_000;

/// A match seen on the network.
#[derive(Clone, PartialEq, Eq, Debug)]
pub struct DiscoveredMatch {
    pub address: Address,
    pub announce: Announce,
    /// When the most recent announcement arrived, on the caller's clock.
    pub last_seen_ms: u64,
}

/// Whether an announced match can be joined: same protocol, not started,
/// and room for one more.
pub open spec fn joinable_spec(a: AnnounceView) -> bool {
    a.protocol == PROTOCOL_VERSION && !a.in_progress && a.players < a.max_players
}

/// Why an announced match cannot be joined, if it cannot.
pub open spec fn unjoinable_text(a: AnnounceView) -> Option<Seq<char>> {
    if a.protocol != PROTOCOL_VERSION {
        Some("different game version"@)
    } else if a.in_progress {
        Some("already started"@)
    } else if a.players >= a.max_players {
        Some("full"@)
    } else {
        None
    }
}

impl DiscoveredMatch {
    pub fn is_joinable(&self) -> (r: bool)
        ensures
            r == joinable_spec(announce_view(self.announce)),
    {
        self.announce.protocol == PROTOCOL_VERSION && !self.announce.in_progress
            && self.announce.players < self.announce.max_players
    }

    /// Why this match cannot be joined, if it cannot. Showing a full or
    /// mismatched match with a reason is better than hiding it.
    pub fn unjoinable_reason(&self) -> (r: Option<&'static str>)
        ensures
            match r {
                Some(t) => unjoinable_text(announce_view(self.announce)) == Some(t@),
                None => unjoinable_text(announce_view(self.announce)) is None,
            },
    {
        if self.announce.protocol != PROTOCOL_VERSION {
            Some("different game version")
        } else if self.announce.in_progress {
            Some("already started")
        } else if self.announce.players >= self.announce.max_players {
            Some("full")
        } else {
            None
        }
    }
}

/// A match is listed with a reason exactly when it cannot be joined.
pub proof fn lemma_unjoinable_explained(a: AnnounceView)
    ensures
        joinable_spec(a) <==> unjoinable_text(a) is None,
{
}

/// Paces announcements: decides when the next one is due and counts those
/// that went out.
pub struct Announcer {
    target: Address,
    last_sent_ms: Option<u64>,
    sent: u64,
}

/// Whether an announcement is due at `now`, the last having gone at `last`.
pub open spec fn announce_due(last: Option<u64>, now: u64) -> bool {
    match last {
        Some(l) => elapsed(l, now) >= ANNOUNCE_INTERVAL_MS,
        None => true,
    }
}

/// The local network's broadcast address on the discovery port.
pub open spec fn broadcast_target() -> Address {
    Address { v6: false, ip: 0xFFFF_FFFF, port: DISCOVERY_PORT, flowinfo: 0, scope_id: 0 }
}

impl Announcer {
    /// An announcer broadcasting to the local network.
    pub fn new() -> (r: Announcer)
        ensures
            r.target_spec() == broadcast_target(),
            r.last_sent() is None,
            r.sent_count() == 0,
    {
        Announcer::with_target(Address { v6: false, ip: 0xFFFF_FFFF, port: DISCOVERY_PORT, flowinfo: 0, scope_id: 0 })
    }

    /// An announcer aimed at a specific address: loopback in tests, or a
    /// host that broadcast cannot reach.
    pub fn with_target(target: Address) -> (r: Announcer)
        ensures
            r.target_spec() == target,
            r.last_sent() is None,
            r.sent_count() == 0,
    {
        Announcer { target, last_sent_ms: None, sent: 0 }
    }

    pub closed spec fn target_spec(&self) -> Address {
        self.target
    }

    /// How many announcements went out.
    pub closed spec fn sent_count(&self) -> u64 {
        self.sent
    }

    /// How many announcements went out.
    pub fn announcements_sent(&self) -> (r: u64)
        ensures
            r == self.sent_count(),
    {
        self.sent
    }

    /// When the last announcement was due.
    pub closed spec fn last_sent(&self) -> Option<u64> {
        self.last_sent_ms
    }

    /// Where announcements go.
    pub fn target(&self) -> (r: Address)
        ensures
            r == self.target_spec(),
    {
        self.target
    }

    /// Whether an announcement is due now. When it is, the time is taken as
    /// the moment it went, whether or not the send succeeds, so the rate
    /// cannot drift with the frame rate.
    pub fn due(&mut self, now_ms: u64) -> (r: bool)
        ensures
            r == announce_due(old(self).last_sent(), now_ms),
            final(self).last_sent() == if r {
                Some(now_ms)
            } else {
                old(self).last_sent()
            },
            final(self).target_spec() == old(self).target_spec(),
            final(self).sent_count() == old(self).sent_count(),
    {
        match self.last_sent_ms {
            Some(last) => {
                if now_ms.saturating_sub(last) < ANNOUNCE_INTERVAL_MS {
                    return false;
                }
            },
            None => {},
        }
        self.last_sent_ms = Some(now_ms);
        true
    }

    /// Counts an announcement that went out.
    pub fn record_sent(&mut self)
        requires
            old(self).sent_count() < u64::MAX,
        ensures
            final(self).sent_count() == old(self).sent_count() + 1,
            final(self).last_sent() == old(self).last_sent(),
            final(self).target_spec() == old(self).target_spec(),
    {
        self.sent = self.sent + 1;
    }
}

/// Announcements are rate limited: once one is due at `first`, none is due
/// again before the interval has passed.
pub proof fn lemma_announcements_rate_limited(last: Option<u64>, first: u64, later: u64)
    requires
        announce_due(last, first),
        first <= later,
        later - first < ANNOUNCE_INTERVAL_MS,
    ensures
        !announce_due(Some(first), later),
{
}

/// What a listed match holds.
pub struct MatchView {
    pub address: Address,
    pub announce: AnnounceView,
    pub last_seen: u64,
}

pub open spec fn match_view(m: DiscoveredMatch) -> MatchView {
    MatchView { address: m.address, announce: announce_view(m.announce), last_seen: m.last_seen_ms }
}

pub open spec fn match_views(s: Seq<DiscoveredMatch>) -> Seq<MatchView> {
    s.map_values(|m: DiscoveredMatch| match_view(m))
}

/// The address a host listens on, given the one its announcement came from
/// and the port it names: the sender's IP and that port, with no IPv6 flow
/// information or scope id.
pub open spec fn on_port(from: Address, port: u16) -> Address {
    Address { v6: from.v6, ip: from.ip, port, flowinfo: 0, scope_id: 0 }
}

/// An address's family as a number: 0 for IPv4, 1 for IPv6.
pub open spec fn family(a: Address) -> int {
    if a.v6 {
        1
    } else {
        0
    }
}

/// Where an address sorts: IPv4 before IPv6, then by IP, port, flow
/// information and scope id, each field a digit of one number.
pub open spec fn address_key(a: Address) -> int {
    (((family(a) * 0x1_0000_0000_0000_0000_0000_0000_0000_0000int + a.ip as int) * 0x1_0000int
        + a.port as int) * 0x1_0000_0000int + a.flowinfo as int) * 0x1_0000_0000int
        + a.scope_id as int
}

/// Two numbers written with a high part and a low digit below `b` compare
/// as their parts do, the high part first.
proof fn lemma_digits(h1: int, l1: int, h2: int, l2: int, b: int)
    requires
        0 <= l1 < b,
        0 <= l2 < b,
    ensures
        h1 * b + l1 < h2 * b + l2 <==> (h1 < h2 || (h1 == h2 && l1 < l2)),
        h1 * b + l1 == h2 * b + l2 <==> (h1 == h2 && l1 == l2),
{
    if h1 < h2 {
        assert(h1 * b + b <= h2 * b) by (nonlinear_arith)
            requires
                h1 < h2,
                b > 0,
        ;
    }
    if h2 < h1 {
        assert(h2 * b + b <= h1 * b) by (nonlinear_arith)
            requires
                h2 < h1,
                b > 0,
        ;
    }
}

/// Keys order lexicographically by family, IP, port, flow information and
/// scope id, and equal keys belong to equal addresses.
proof fn lemma_address_key_order(a: Address, b: Address)
    ensures
        address_key(a) == address_key(b) <==> a == b,
        address_key(a) < address_key(b) <==> (family(a) < family(b) || (family(a) == family(b) && (a.ip
            < b.ip || (a.ip == b.ip && (a.port < b.port || (a.port == b.port && (a.flowinfo < b.flowinfo
            || (a.flowinfo == b.flowinfo && a.scope_id < b.scope_id)))))))),
{
    let a1 = family(a) * 0x1_0000_0000_0000_0000_0000_0000_0000_0000int + a.ip as int;
    let b1 = family(b) * 0x1_0000_0000_0000_0000_0000_0000_0000_0000int + b.ip as int;
    let a2 = a1 * 0x1_0000int + a.port as int;
    let b2 = b1 * 0x1_0000int + b.port as int;
    let a3 = a2 * 0x1_0000_0000int + a.flowinfo as int;
    let b3 = b2 * 0x1_0000_0000int + b.flowinfo as int;
    lemma_digits(family(a), a.ip as int, family(b), b.ip as int, 0x1_0000_0000_0000_0000_0000_0000_0000_0000int);
    lemma_digits(a1, a.port as int, b1, b.port as int, 0x1_0000int);
    lemma_digits(a2, a.flowinfo as int, b2, b.flowinfo as int, 0x1_0000_0000int);
    lemma_digits(a3, a.scope_id as int, b3, b.scope_id as int, 0x1_0000_0000int);
    assert(address_key(a) == a3 * 0x1_0000_0000int + a.scope_id as int);
    assert(address_key(b) == b3 * 0x1_0000_0000int + b.scope_id as int);
    assert(family(a) == family(b) <==> a.v6 == b.v6);
}

/// Distinct addresses sort apart.
proof fn lemma_address_key(a: Address, b: Address)
    ensures
        address_key(a) == address_key(b) <==> a == b,
{
    lemma_address_key_order(a, b);
}

/// Whether `a` sorts strictly before `b`.
fn key_less(a: Address, b: Address) -> (r: bool)
    ensures
        r == (address_key(a) < address_key(b)),
{
    proof {
        lemma_address_key_order(a, b);
    }
    if a.v6 != b.v6 {
        !a.v6
    } else if a.ip != b.ip {
        a.ip < b.ip
    } else if a.port != b.port {
        a.port < b.port
    } else if a.flowinfo != b.flowinfo {
        a.flowinfo < b.flowinfo
    } else {
        a.scope_id < b.scope_id
    }
}

/// Keys strictly increase along the list, so no address appears twice.
pub open spec fn sorted_by_address(s: Seq<MatchView>) -> bool {
    forall|i: int, j: int|
        0 <= i < j < s.len() ==> address_key((#[trigger] s[i]).address) < address_key(
            (#[trigger] s[j]).address,
        )
}

/// The list with `e` in its place: replacing the entry at the same address,
/// or inserted where its address sorts.
pub open spec fn upsert(s: Seq<MatchView>, e: MatchView) -> Seq<MatchView>
    decreases s.len(),
{
    if s.len() == 0 {
        seq![e]
    } else if address_key(e.address) < address_key(s[0].address) {
        seq![e] + s
    } else if address_key(e.address) == address_key(s[0].address) {
        s.update(0, e)
    } else {
        seq![s[0]] + upsert(s.drop_first(), e)
    }
}

/// Whether some entry is at this address.
pub open spec fn listed(s: Seq<MatchView>, a: Address) -> bool {
    exists|i: int| 0 <= i < s.len() && (#[trigger] s[i]).address == a
}

/// The entries heard from within the timeout at `now`.
pub open spec fn fresh(s: Seq<MatchView>, now: u64) -> Seq<MatchView>
    decreases s.len(),
{
    if s.len() == 0 {
        s
    } else if elapsed(s.last().last_seen, now) < ENTRY_TIMEOUT_MS {
        fresh(s.drop_last(), now).push(s.last())
    } else {
        fresh(s.drop_last(), now)
    }
}

/// The entries that can be joined, in list order.
pub open spec fn joinable_entries(s: Seq<MatchView>) -> Seq<MatchView>
    decreases s.len(),
{
    if s.len() == 0 {
        s
    } else if joinable_spec(s.last().announce) {
        joinable_entries(s.drop_last()).push(s.last())
    } else {
        joinable_entries(s.drop_last())
    }
}

/// Taking in what was received: each announcement listed under the address
/// it came from, on the port the host says it is listening on; anything
/// else ignored.
pub open spec fn absorb_all(s: Seq<MatchView>, received: Seq<(Address, Packet)>, now: u64) -> Seq<MatchView>
    decreases received.len(),
{
    if received.len() == 0 {
        s
    } else {
        let rest = absorb_all(s, received.drop_last(), now);
        let (from, p) = received.last();
        match p {
            Packet::Announce(a) => upsert(
                rest,
                MatchView {
                    address: on_port(from, a.game_port),
                    announce: announce_view(a),
                    last_seen: now,
                },
            ),
            _ => rest,
        }
    }
}

/// How many of the received announcements named an address not yet
/// listed.
pub open spec fn newly_listed(s: Seq<MatchView>, received: Seq<(Address, Packet)>, now: u64) -> nat
    decreases received.len(),
{
    if received.len() == 0 {
        0
    } else {
        let before = absorb_all(s, received.drop_last(), now);
        let (from, p) = received.last();
        newly_listed(s, received.drop_last(), now) + match p {
            Packet::Announce(a) => if listed(before, on_port(from, a.game_port)) {
                0nat
            } else {
                1nat
            },
            _ => 0nat,
        }
    }
}

/// Listens for announcements and keeps a live list.
pub struct Discovery {
    seen: Vec<DiscoveredMatch>,
}

impl View for Discovery {
    type V = Seq<MatchView>;

    closed spec fn view(&self) -> Seq<MatchView> {
        match_views(self.seen@)
    }
}

/// A copy of a listed match.
fn copy_match(m: &DiscoveredMatch) -> (r: DiscoveredMatch)
    ensures
        match_view(r) == match_view(*m),
{
    DiscoveredMatch {
        address: m.address,
        announce: copy_announce(&m.announce),
        last_seen_ms: m.last_seen_ms,
    }
}

/// A copy of an announcement.
pub fn copy_announce(a: &Announce) -> (r: Announce)
    ensures
        announce_view(r) == announce_view(*a),
{
    Announce {
        protocol: a.protocol,
        match_name: copy_text(&a.match_name),
        map_name: copy_text(&a.map_name),
        players: a.players,
        max_players: a.max_players,
        game_port: a.game_port,
        in_progress: a.in_progress,
    }
}

/// Every key in an upserted list stays above a bound that held before.
proof fn lemma_upsert_bound(s: Seq<MatchView>, e: MatchView, lo: int)
    requires
        forall|j: int| 0 <= j < s.len() ==> lo < address_key((#[trigger] s[j]).address),
        lo < address_key(e.address),
    ensures
        forall|i: int| 0 <= i < upsert(s, e).len() ==> lo < address_key((#[trigger] upsert(s, e)[i]).address),
    decreases s.len(),
{
    let u = upsert(s, e);
    if s.len() == 0 {
        assert(u[0] == e);
    } else if address_key(e.address) < address_key(s[0].address) {
        assert forall|i: int| 0 <= i < u.len() implies lo < address_key((#[trigger] u[i]).address) by {
            if i > 0 {
                assert(u[i] == s[i - 1]);
            }
        }
    } else if address_key(e.address) == address_key(s[0].address) {
        assert forall|i: int| 0 <= i < u.len() implies lo < address_key((#[trigger] u[i]).address) by {
            if i > 0 {
                assert(u[i] == s[i]);
            }
        }
    } else {
        let t = s.drop_first();
        assert forall|j: int| 0 <= j < t.len() implies lo < address_key((#[trigger] t[j]).address) by {
            assert(t[j] == s[j + 1]);
        }
        lemma_upsert_bound(t, e, lo);
        let ut = upsert(t, e);
        assert(u =~= seq![s[0]] + ut);
        assert forall|i: int| 0 <= i < u.len() implies lo < address_key((#[trigger] u[i]).address) by {
            if i > 0 {
                assert(u[i] == ut[i - 1]);
            }
        }
    }
}

/// Upserting into a sorted list keeps it sorted, lists the new entry, and
/// grows the list only for an address not yet listed.
#[verifier::rlimit(30)]
proof fn lemma_upsert(s: Seq<MatchView>, e: MatchView)
    requires
        sorted_by_address(s),
    ensures
        sorted_by_address(upsert(s, e)),
        listed(upsert(s, e), e.address),
        upsert(s, e).len() == if listed(s, e.address) {
            s.len()
        } else {
            s.len() + 1
        },
    decreases s.len(), 1int,
{
    let u = upsert(s, e);
    if s.len() == 0 {
        assert(u[0] == e);
    } else if address_key(e.address) < address_key(s[0].address) {
        assert(u[0] == e);
        assert forall|i: int, j: int| 0 <= i < j < u.len() implies address_key((#[trigger] u[i]).address) < address_key((#[trigger] u[j]).address) by {
            if i == 0 {
                assert(u[j] == s[j - 1]);
                if j > 1 {
                    assert(address_key(s[0].address) < address_key(s[j - 1].address));
                }
            } else {
                assert(u[i] == s[i - 1] && u[j] == s[j - 1]);
            }
        }
        assert(!listed(s, e.address)) by {
            if listed(s, e.address) {
                let i = choose|i: int| 0 <= i < s.len() && (#[trigger] s[i]).address == e.address;
                if i > 0 {
                    assert(address_key(s[0].address) < address_key(s[i].address));
                }
            }
        }
    } else if address_key(e.address) == address_key(s[0].address) {
        lemma_address_key(e.address, s[0].address);
        assert(u[0] == e);
        assert forall|i: int, j: int| 0 <= i < j < u.len() implies address_key((#[trigger] u[i]).address) < address_key((#[trigger] u[j]).address) by {
            assert(u[j] == s[j]);
            if i > 0 {
                assert(u[i] == s[i]);
            }
        }
        assert(s[0].address == e.address);
    } else {
        lemma_upsert_step(s, e);
    }
}

/// The step of `lemma_upsert` where the entry goes after the head.
#[verifier::rlimit(30)]
proof fn lemma_upsert_step(s: Seq<MatchView>, e: MatchView)
    requires
        sorted_by_address(s),
        s.len() > 0,
        address_key(e.address) > address_key(s[0].address),
    ensures
        sorted_by_address(upsert(s, e)),
        listed(upsert(s, e), e.address),
        upsert(s, e).len() == if listed(s, e.address) {
            s.len()
        } else {
            s.len() + 1
        },
    decreases s.len(), 0int,
{
    let u = upsert(s, e);
    let t = s.drop_first();
    assert forall|i: int, j: int| 0 <= i < j < t.len() implies address_key((#[trigger] t[i]).address) < address_key((#[trigger] t[j]).address) by {
        assert(t[i] == s[i + 1] && t[j] == s[j + 1]);
    }
    lemma_upsert(t, e);
    assert forall|j: int| 0 <= j < t.len() implies address_key(s[0].address) < address_key((#[trigger] t[j]).address) by {
        assert(t[j] == s[j + 1]);
    }
    lemma_upsert_bound(t, e, address_key(s[0].address));
    let ut = upsert(t, e);
    assert(u =~= seq![s[0]] + ut);
    assert forall|i: int, j: int| 0 <= i < j < u.len() implies address_key((#[trigger] u[i]).address) < address_key((#[trigger] u[j]).address) by {
        if i == 0 {
            assert(u[j] == ut[j - 1]);
        } else {
            assert(u[i] == ut[i - 1] && u[j] == ut[j - 1]);
        }
    }
    let w = choose|i: int| 0 <= i < ut.len() && (#[trigger] ut[i]).address == e.address;
    assert(u[w + 1] == ut[w]);
    assert(listed(s, e.address) == listed(t, e.address)) by {
        if listed(s, e.address) {
            let i = choose|i: int| 0 <= i < s.len() && (#[trigger] s[i]).address == e.address;
            assert(i != 0);
            assert(t[i - 1] == s[i]);
        }
        if listed(t, e.address) {
            let i = choose|i: int| 0 <= i < t.len() && (#[trigger] t[i]).address == e.address;
            assert(s[i + 1] == t[i]);
        }
    }
}

/// Expiry keeps a sorted list sorted.
proof fn lemma_fresh(s: Seq<MatchView>, now: u64)
    requires
        sorted_by_address(s),
    ensures
        sorted_by_address(fresh(s, now)),
        forall|i: int|
            #![trigger fresh(s, now)[i]]
            0 <= i < fresh(s, now).len() ==> exists|j: int| 0 <= j < s.len() && #[trigger] s[j] == fresh(s, now)[i],
        forall|i: int| 0 <= i < fresh(s, now).len() ==> elapsed((#[trigger] fresh(s, now)[i]).last_seen, now) < ENTRY_TIMEOUT_MS,
    decreases s.len(),
{
    if s.len() > 0 {
        let init = s.drop_last();
        assert forall|i: int, j: int| 0 <= i < j < init.len() implies address_key((#[trigger] init[i]).address) < address_key((#[trigger] init[j]).address) by {
            assert(init[i] == s[i] && init[j] == s[j]);
        }
        lemma_fresh(init, now);
        let f0 = fresh(init, now);
        let f = fresh(s, now);
        assert forall|i: int| #![trigger f0[i]] 0 <= i < f0.len() implies exists|j: int| 0 <= j < s.len() && #[trigger] s[j] == f0[i] by {
            let j = choose|j: int| 0 <= j < init.len() && #[trigger] init[j] == f0[i];
            assert(s[j] == init[j]);
        }
        if elapsed(s.last().last_seen, now) < ENTRY_TIMEOUT_MS {
            assert forall|i: int, j: int| 0 <= i < j < f.len() implies address_key((#[trigger] f[i]).address) < address_key((#[trigger] f[j]).address) by {
                if j == f.len() - 1 {
                    assert(f[i] == f0[i]);
                    let k = choose|k: int| 0 <= k < init.len() && #[trigger] init[k] == f0[i];
                    assert(s[k] == init[k]);
                    assert(f[j] == s[s.len() - 1]);
                } else {
                    assert(f[i] == f0[i] && f[j] == f0[j]);
                }
            }
            assert forall|i: int| #![trigger f[i]] 0 <= i < f.len() implies exists|j: int| 0 <= j < s.len() && #[trigger] s[j] == f[i] by {
                if i < f.len() - 1 {
                    assert(f[i] == f0[i]);
                    let j = choose|j: int| 0 <= j < s.len() && #[trigger] s[j] == f0[i];
                } else {
                    assert(f[i] == s[s.len() - 1]);
                }
            }
            assert forall|i: int| 0 <= i < f.len() implies elapsed((#[trigger] f[i]).last_seen, now) < ENTRY_TIMEOUT_MS by {
                if i < f.len() - 1 {
                    assert(f[i] == f0[i]);
                }
            }
        }
    }
}

impl Discovery {
    #[verifier::type_invariant]
    spec fn well_formed(&self) -> bool {
        sorted_by_address(self@)
    }

    /// An empty list.
    pub fn new() -> (r: Discovery)
        ensures
            r@ == Seq::<MatchView>::empty(),
    {
        let r = Discovery { seen: Vec::new() };
        assert(r@ =~= Seq::<MatchView>::empty());
        r
    }

    /// Lists an announcement heard from `from`, replacing any entry at the
    /// same address. Answers whether the address is new to the list.
    fn absorb(&mut self, from: Address, announce: Announce, now_ms: u64) -> (r: bool)
        ensures
            ({
                let e = MatchView {
                    address: on_port(from, announce.game_port),
                    announce: announce_view(announce),
                    last_seen: now_ms,
                };
                &&& final(self)@ == upsert(old(self)@, e)
                &&& r == !listed(old(self)@, e.address)
            }),
    {
        proof {
            use_type_invariant(&*self);
        }
        let address = Address { v6: from.v6, ip: from.ip, port: announce.game_port, flowinfo: 0, scope_id: 0 };
        let entry = DiscoveredMatch { address, announce, last_seen_ms: now_ms };
        let ghost e = match_view(entry);
        let ghost s = self@;
        let mut seen = copy_matches(&self.seen);
        let mut i: usize = 0;
        assert(s.skip(0) =~= s);
        assert(s.take(0) + upsert(s.skip(0), e) =~= upsert(s, e));
        while i < seen.len()
            invariant
                i <= seen@.len(),
                s == match_views(seen@),
                sorted_by_address(s),
                e == match_view(entry),
                e.address == address,
                entry.address == address,
                e == (MatchView {
                    address: on_port(from, announce.game_port),
                    announce: announce_view(announce),
                    last_seen: now_ms,
                }),
                s == old(self)@,
                upsert(s, e) == s.take(i as int) + upsert(s.skip(i as int), e),
                forall|k: int| 0 <= k < i ==> address_key((#[trigger] s[k]).address) < address_key(e.address),
            decreases seen@.len() - i,
        {
            let here = seen[i].address;
            assert(s.skip(i as int)[0] == s[i as int]);
            assert(s[i as int] == match_view(seen@[i as int]));
            if key_less(address, here) {
                proof {
                    lemma_upsert(s, e);
                    assert(e.address == address);
                    assert(here == s[i as int].address);
                    assert(!listed(s, address)) by {
                        if listed(s, address) {
                            let k = choose|k: int| 0 <= k < s.len() && (#[trigger] s[k]).address == address;
                            if k > i {
                                assert(address_key(s[i as int].address) < address_key(s[k].address));
                            } else if k < i {
                                assert(address_key(s[k].address) < address_key(e.address));
                            } else {
                                assert(address_key(address) < address_key(here));
                            }
                        }
                    }
                    assert(s.skip(i as int).len() > 0);
                    assert(address_key(e.address) < address_key(s.skip(i as int)[0].address));
                }
                seen.insert(i, entry);
                proof {
                    assert(match_views(seen@) =~= s.take(i as int) + (seq![e] + s.skip(i as int)));
                    assert(upsert(s.skip(i as int), e) == seq![e] + s.skip(i as int));
                }
                self.seen = seen;
                return true;
            }
            if here == address {
                proof {
                    lemma_upsert(s, e);
                    assert(listed(s, address)) by {
                        assert(s[i as int].address == address);
                    }
                }
                seen.set(i, entry);
                proof {
                    lemma_address_key(address, here);
                    assert(match_views(seen@) =~= s.take(i as int) + s.skip(i as int).update(0, e));
                    assert(upsert(s.skip(i as int), e) == s.skip(i as int).update(0, e));
                }
                self.seen = seen;
                return false;
            }
            proof {
                lemma_address_key(address, here);
                assert(s.skip(i as int).drop_first() =~= s.skip(i + 1));
                assert(s.take(i as int) + (seq![s[i as int]] + upsert(s.skip(i + 1), e)) =~= s.take(i + 1) + upsert(s.skip(i + 1), e));
            }
            i = i + 1;
        }
        proof {
            lemma_upsert(s, e);
            assert(!listed(s, address)) by {
                if listed(s, address) {
                    let k = choose|k: int| 0 <= k < s.len() && (#[trigger] s[k]).address == address;
                }
            }
            assert(s.skip(i as int) =~= Seq::<MatchView>::empty());
        }
        seen.push(entry);
        proof {
            assert(match_views(seen@) =~= s.take(i as int) + seq![e]);
            assert(s.take(i as int) =~= s);
        }
        self.seen = seen;
        true
    }

    /// Drops entries not heard from within the timeout.
    fn expire(&mut self, now_ms: u64)
        ensures
            final(self)@ == fresh(old(self)@, now_ms),
    {
        proof {
            use_type_invariant(&*self);
            lemma_fresh(self@, now_ms);
        }
        let ghost s = self@;
        let mut kept: Vec<DiscoveredMatch> = Vec::new();
        let mut i: usize = 0;
        assert(s.take(0) =~= Seq::<MatchView>::empty());
        while i < self.seen.len()
            invariant
                i <= self.seen@.len(),
                s == match_views(self.seen@),
                match_views(kept@) == fresh(s.take(i as int), now_ms),
            decreases self.seen@.len() - i,
        {
            assert(s.take(i + 1).drop_last() =~= s.take(i as int));
            assert(s.take(i + 1).last() == s[i as int]);
            if now_ms.saturating_sub(self.seen[i].last_seen_ms) < ENTRY_TIMEOUT_MS {
                let ghost before = kept@;
                let c = copy_match(&self.seen[i]);
                kept.push(c);
                assert(match_views(kept@) =~= match_views(before).push(match_view(c)));
            }
            i = i + 1;
        }
        assert(s.take(s.len() as int) =~= s);
        self.seen = kept;
    }

    /// Takes in what arrived since the last call and drops stale entries.
    ///
    /// Only announcements are listed; any other packet is ignored, so
    /// stray traffic never becomes a listing. Answers how many matches
    /// appeared, so the caller can draw attention to the list.
    pub fn tick(&mut self, received: Vec<(Address, Packet)>, now_ms: u64) -> (r: usize)
        ensures
            final(self)@ == fresh(absorb_all(old(self)@, received@, now_ms), now_ms),
            r == newly_listed(old(self)@, received@, now_ms),
    {
        let ghost s0 = self@;
        let mut appeared: usize = 0;
        let mut rest = received;
        let ghost all = rest@;
        let total = rest.len();
        let mut i: usize = 0;
        assert(all.take(0) =~= Seq::<(Address, Packet)>::empty());
        while rest.len() > 0
            invariant
                i <= all.len(),
                i + rest@.len() == all.len(),
                all.len() == total,
                rest@ == all.skip(i as int),
                self@ == absorb_all(s0, all.take(i as int), now_ms),
                appeared == newly_listed(s0, all.take(i as int), now_ms),
                appeared <= i,
            decreases rest@.len(),
        {
            let (from, packet) = rest.remove(0);
            proof {
                assert(all.skip(i as int)[0] == all[i as int]);
                assert(all.skip(i as int).drop_first() =~= all.skip(i + 1));
                assert(all.take(i + 1).drop_last() =~= all.take(i as int));
                assert(all.take(i + 1).last() == all[i as int]);
            }
            match packet {
                Packet::Announce(a) => {
                    if self.absorb(from, a, now_ms) {
                        appeared = appeared + 1;
                    }
                },
                _ => {},
            }
            i = i + 1;
        }
        assert(all.take(i as int) =~= all);
        self.expire(now_ms);
        appeared
    }

    /// Matches currently visible, in address order.
    pub fn matches(&self) -> (r: &Vec<DiscoveredMatch>)
        ensures
            match_views(r@) == self@,
    {
        &self.seen
    }

    /// Only the matches that can actually be joined, in address order.
    pub fn joinable(&self) -> (r: Vec<DiscoveredMatch>)
        ensures
            match_views(r@) == joinable_entries(self@),
    {
        let ghost s = self@;
        let mut out: Vec<DiscoveredMatch> = Vec::new();
        let mut i: usize = 0;
        assert(s.take(0) =~= Seq::<MatchView>::empty());
        while i < self.seen.len()
            invariant
                i <= self.seen@.len(),
                s == match_views(self.seen@),
                match_views(out@) == joinable_entries(s.take(i as int)),
            decreases self.seen@.len() - i,
        {
            assert(s.take(i + 1).drop_last() =~= s.take(i as int));
            assert(s.take(i + 1).last() == s[i as int]);
            if self.seen[i].is_joinable() {
                let ghost before = out@;
                let c = copy_match(&self.seen[i]);
                out.push(c);
                assert(match_views(out@) =~= match_views(before).push(match_view(c)));
            }
            i = i + 1;
        }
        assert(s.take(s.len() as int) =~= s);
        out
    }

    pub fn is_empty(&self) -> (r: bool)
        ensures
            r == (self@.len() == 0),
    {
        self.seen.len() == 0
    }

    /// Removes every entry. Used when leaving the browser.
    pub fn clear(&mut self)
        ensures
            final(self)@ == Seq::<MatchView>::empty(),
    {
        self.seen = Vec::new();
        assert(self@ =~= Seq::<MatchView>::empty());
    }
}

/// A copy of a list of listed matches.
fn copy_matches(v: &Vec<DiscoveredMatch>) -> (r: Vec<DiscoveredMatch>)
    ensures
        match_views(r@) == match_views(v@),
{
    let mut out: Vec<DiscoveredMatch> = Vec::new();
    let mut i: usize = 0;
    while i < v.len()
        invariant
            i <= v@.len(),
            match_views(out@) == match_views(v@.take(i as int)),
        decreases v@.len() - i,
    {
        let ghost before = out@;
        let c = copy_match(&v[i]);
        out.push(c);
        assert(v@.take(i + 1) =~= v@.take(i as int).push(v@[i as int]));
        assert(match_views(out@) =~= match_views(before).push(match_view(c)));
        assert(match_views(v@.take(i + 1)) =~= match_views(v@.take(i as int)).push(match_view(v@[i as int])));
        i = i + 1;
    }
    assert(v@.take(v@.len() as int) =~= v@);
    out
}

/// Re-announcing updates rather than duplicates: an announcement from a
/// host already listed leaves the list as long as it was, with that host
/// listed once, under its new announcement.
pub proof fn lemma_reannouncing_updates(s: Seq<MatchView>, e: MatchView)
    requires
        sorted_by_address(s),
        listed(s, e.address),
    ensures
        upsert(s, e).len() == s.len(),
        sorted_by_address(upsert(s, e)),
        exists|i: int| 0 <= i < upsert(s, e).len() && #[trigger] upsert(s, e)[i] == e,
{
    lemma_upsert(s, e);
    lemma_upsert_places(s, e);
}

/// Upserting puts the entry itself in the list.
proof fn lemma_upsert_places(s: Seq<MatchView>, e: MatchView)
    ensures
        exists|i: int| 0 <= i < upsert(s, e).len() && #[trigger] upsert(s, e)[i] == e,
    decreases s.len(),
{
    let u = upsert(s, e);
    if s.len() == 0 || address_key(e.address) <= address_key(s[0].address) {
        assert(u[0] == e);
    } else {
        lemma_upsert_places(s.drop_first(), e);
        let ut = upsert(s.drop_first(), e);
        let w = choose|i: int| 0 <= i < ut.len() && #[trigger] ut[i] == e;
        assert(u[w + 1] == ut[w]);
    }
}

/// A host that stops announcing disappears: once the timeout has passed
/// since it was last heard, its entry is gone.
pub proof fn lemma_silent_hosts_disappear(s: Seq<MatchView>, now: u64, a: Address)
    requires
        sorted_by_address(s),
        forall|i: int| 0 <= i < s.len() && (#[trigger] s[i]).address == a ==> elapsed(s[i].last_seen, now)
            >= ENTRY_TIMEOUT_MS,
    ensures
        !listed(fresh(s, now), a),
{
    lemma_fresh(s, now);
    let f = fresh(s, now);
    if listed(f, a) {
        let i = choose|i: int| 0 <= i < f.len() && (#[trigger] f[i]).address == a;
        let j = choose|j: int| 0 <= j < s.len() && #[trigger] s[j] == f[i];
    }
}

/// Foreign traffic does not appear as a match: packets other than
/// announcements leave the list as it was.
pub proof fn lemma_only_announcements_listed(s: Seq<MatchView>, received: Seq<(Address, Packet)>, now: u64)
    requires
        forall|i: int| 0 <= i < received.len() ==> !((#[trigger] received[i]).1 is Announce),
    ensures
        absorb_all(s, received, now) == s,
        newly_listed(s, received, now) == 0,
    decreases received.len(),
{
    if received.len() > 0 {
        assert forall|i: int| 0 <= i < received.drop_last().len() implies !((#[trigger] received.drop_last()[i]).1 is Announce) by {
            assert(received.drop_last()[i] == received[i]);
        }
        lemma_only_announcements_listed(s, received.drop_last(), now);
        assert(!(received[received.len() - 1].1 is Announce));
    }
}

} // verus!
