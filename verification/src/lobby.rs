//! The lobby: getting from "two machines on a network" to "a match everyone
//! can simulate identically".
//!
//! The handshake exists to refuse mismatches before they become desyncs.
//! Every join is checked on three things, in this order: the protocol
//! version (the wire format and simulation behaviour), the rules hash (the
//! unit data both sides loaded), and room (a free slot in a match that has
//! not started). Version comes before capacity: a player on the wrong build
//! should be told that, not told the match is full.
//!
//! Time is handed in as milliseconds on the caller's clock, and addresses
//! as plain values, so the whole handshake is decided here without a socket.

use vstd::prelude::*;
use crate::command::PlayerId;
use crate::lockstep::{delay_for_rtt, input_delay_for_rtt, MIN_INPUT_DELAY};
use crate::protocol::{
    slot_view, Announce, AnnounceView, Packet, PacketView, PlayerSlot, RejectReason, SlotView,
    packet_view, announce_view, PROTOCOL_VERSION,
};
use crate::text::copy_text;
use crate::value::TICK_MS;

verus! {

/// How long a peer may go unheard from before it is considered gone, in
/// milliseconds. Peers send a packet every tick, so silence this long means
/// a great many consecutive losses or a real disconnection.
pub const PEER_TIMEOUT_MS: u64 = 10_000;

/// A network address: an IP (an IPv4 address held in the low 32 bits when
/// `v6` is false) and a port; for IPv6 also the flow information and the
/// scope id, which tell apart, say, the same link-local address on two
/// interfaces. Both are zero for IPv4.
#[derive(Clone, Copy, PartialEq, Eq, Debug, Structural)]
pub struct Address {
    pub v6: bool,
    pub ip: u128,
    pub port: u16,
    pub flowinfo: u32,
    pub scope_id: u32,
}

/// The address the host's own entry carries: unspecified, port zero.
pub open spec fn unspecified() -> Address {
    Address { v6: false, ip: 0, port: 0, flowinfo: 0, scope_id: 0 }
}

/// A connected peer.
#[derive(Clone, Debug)]
pub struct Peer {
    pub id: PlayerId,
    pub name: String,
    pub address: Address,
    pub ready: bool,
    /// When it was last heard from, on the caller's clock.
    pub last_heard_ms: u64,
    /// Most recent round-trip measurement, if one has completed.
    pub rtt_ms: Option<u32>,
}

/// `later - earlier`, or zero when the clock reads earlier.
pub open spec fn elapsed(earlier: u64, later: u64) -> int {
    if later >= earlier {
        later - earlier
    } else {
        0
    }
}

impl Peer {
    /// Whether it has been silent for longer than the timeout at `now_ms`.
    pub fn is_timed_out(&self, now_ms: u64) -> (r: bool)
        ensures
            r == (elapsed(self.last_heard_ms, now_ms) > PEER_TIMEOUT_MS),
    {
        now_ms.saturating_sub(self.last_heard_ms) > PEER_TIMEOUT_MS
    }
}

/// Why a player left.
#[derive(Clone, Copy, PartialEq, Eq, Debug, Structural)]
pub enum LeaveReason {
    Quit,
    TimedOut,
}

/// What a lobby event asks the caller to do.
#[derive(Clone, PartialEq, Debug)]
pub enum LobbyEvent {
    PlayerJoined { id: PlayerId, name: String },
    PlayerLeft { id: PlayerId, reason: LeaveReason },
    PlayerReady { id: PlayerId, ready: bool },
    /// Everyone is ready. Start the match with these parameters.
    Starting { seed: u64, input_delay: u32, players: Vec<PlayerId> },
    /// A join was refused, worth surfacing on the host's screen too.
    JoinRefused { address: Address, reason: RejectReason },
}

/// What a peer holds.
pub struct PeerView {
    pub id: u8,
    pub name: Seq<char>,
    pub address: Address,
    pub ready: bool,
    pub last_heard: u64,
    pub rtt: Option<u32>,
}

pub open spec fn peer_view(p: Peer) -> PeerView {
    PeerView {
        id: p.id.0,
        name: p.name@,
        address: p.address,
        ready: p.ready,
        last_heard: p.last_heard_ms,
        rtt: p.rtt_ms,
    }
}

pub open spec fn peer_views(s: Seq<Peer>) -> Seq<PeerView> {
    s.map_values(|p: Peer| peer_view(p))
}

/// What an event holds.
pub enum EventView {
    PlayerJoined { id: u8, name: Seq<char> },
    PlayerLeft { id: u8, reason: LeaveReason },
    PlayerReady { id: u8, ready: bool },
    Starting { seed: u64, input_delay: u32, players: Seq<u8> },
    JoinRefused { address: Address, reason: RejectReason },
}

pub open spec fn event_view(e: LobbyEvent) -> EventView {
    match e {
        LobbyEvent::PlayerJoined { id, name } => EventView::PlayerJoined { id: id.0, name: name@ },
        LobbyEvent::PlayerLeft { id, reason } => EventView::PlayerLeft { id: id.0, reason },
        LobbyEvent::PlayerReady { id, ready } => EventView::PlayerReady { id: id.0, ready },
        LobbyEvent::Starting { seed, input_delay, players } => EventView::Starting {
            seed,
            input_delay,
            players: players@.map_values(|p: PlayerId| p.0),
        },
        LobbyEvent::JoinRefused { address, reason } => EventView::JoinRefused { address, reason },
    }
}

pub open spec fn event_views(s: Seq<LobbyEvent>) -> Seq<EventView> {
    s.map_values(|e: LobbyEvent| event_view(e))
}

/// What a lobby holds.
pub struct LobbyModel {
    /// The host first, then everyone who joined, in the order they joined.
    pub peers: Seq<PeerView>,
    pub match_name: Seq<char>,
    pub map_name: Seq<char>,
    pub max_players: u8,
    pub rules_hash: u64,
    pub seed: u64,
    pub game_port: u16,
    pub started: bool,
    /// The slot the next admitted player gets.
    pub next_slot: u8,
}

/// Where the first peer at this address is, or the number of peers when
/// there is none.
pub open spec fn address_index(s: Seq<PeerView>, a: Address) -> int
    decreases s.len(),
{
    if s.len() == 0 {
        0
    } else if s[0].address == a {
        0
    } else {
        1 + address_index(s.drop_first(), a)
    }
}

/// Where the first peer with this id is, or the number of peers when there
/// is none.
pub open spec fn id_index(s: Seq<PeerView>, id: u8) -> int
    decreases s.len(),
{
    if s.len() == 0 {
        0
    } else if s[0].id == id {
        0
    } else {
        1 + id_index(s.drop_first(), id)
    }
}

/// The worst round trip measured among the peers, zero when none is.
pub open spec fn worst_rtt(s: Seq<PeerView>) -> u32
    decreases s.len(),
{
    if s.len() == 0 {
        0
    } else {
        let w = worst_rtt(s.drop_last());
        match s.last().rtt {
            Some(r) => if r > w {
                r
            } else {
                w
            },
            None => w,
        }
    }
}

/// The measured round trips leave room for the delay arithmetic.
pub open spec fn rtts_fit(m: LobbyModel) -> bool {
    worst_rtt(m.peers) + worst_rtt(m.peers) / 2 <= u32::MAX
}

/// The input delay that suits the slowest peer.
pub open spec fn negotiated_delay(m: LobbyModel) -> u32 {
    delay_for_rtt(worst_rtt(m.peers) as int, TICK_MS as int) as u32
}

/// The lobby as a slot list.
pub open spec fn slots(s: Seq<PeerView>) -> Seq<SlotView> {
    s.map_values(|p: PeerView| SlotView { id: p.id, name: p.name, ready: p.ready })
}

/// The acceptance a player with `id` is sent.
pub open spec fn acceptance(m: LobbyModel, id: u8) -> PacketView {
    PacketView::JoinAccepted {
        player: id,
        seed: m.seed,
        input_delay: negotiated_delay(m),
        players: slots(m.peers),
    }
}

/// Why a join would be refused, checked in order: version, rules, whether
/// the match has started, room.
pub open spec fn refusal(m: LobbyModel, protocol: u32, rules_hash: u64) -> Option<RejectReason> {
    if protocol != PROTOCOL_VERSION {
        Some(RejectReason::ProtocolMismatch { host_protocol: PROTOCOL_VERSION })
    } else if rules_hash != m.rules_hash {
        Some(RejectReason::RulesMismatch { host_rules_hash: m.rules_hash })
    } else if m.started {
        Some(RejectReason::AlreadyStarted)
    } else if m.peers.len() >= m.max_players {
        Some(RejectReason::MatchFull)
    } else {
        None
    }
}

/// Whether a join from `from` would admit a new player.
pub open spec fn admits(m: LobbyModel, from: Address, protocol: u32, rules_hash: u64) -> bool {
    address_index(m.peers, from) >= m.peers.len() && refusal(m, protocol, rules_hash) is None
}

/// A join request: what the lobby becomes, what it answers, and what it
/// reports. Rejoining from the same address is idempotent: the acceptance
/// may simply have been lost, and the client asks again.
pub open spec fn join_spec(
    m: LobbyModel,
    from: Address,
    protocol: u32,
    rules_hash: u64,
    name: Seq<char>,
    now: u64,
) -> (LobbyModel, PacketView, Seq<EventView>) {
    let i = address_index(m.peers, from);
    if i < m.peers.len() {
        (m, acceptance(m, m.peers[i].id), Seq::empty())
    } else {
        match refusal(m, protocol, rules_hash) {
            Some(reason) => (
                m,
                PacketView::JoinRejected { reason },
                seq![EventView::JoinRefused { address: from, reason }],
            ),
            None => {
                let id = m.next_slot;
                let joined = PeerView {
                    id,
                    name,
                    address: from,
                    ready: false,
                    last_heard: now,
                    rtt: None,
                };
                let m2 = LobbyModel {
                    peers: m.peers.push(joined),
                    next_slot: (m.next_slot + 1) as u8,
                    ..m
                };
                (m2, acceptance(m2, id), seq![EventView::PlayerJoined { id, name }])
            },
        }
    }
}

/// Any packet is evidence its sender is alive.
pub open spec fn heard(m: LobbyModel, from: Address, now: u64) -> LobbyModel {
    let i = address_index(m.peers, from);
    if i < m.peers.len() {
        LobbyModel { peers: m.peers.update(i, PeerView { last_heard: now, ..m.peers[i] }), ..m }
    } else {
        m
    }
}

/// Removing a player. The host cannot leave its own lobby.
pub open spec fn remove_spec(m: LobbyModel, id: u8, reason: LeaveReason) -> (LobbyModel, Seq<EventView>) {
    let i = id_index(m.peers, id);
    if id == 0 || i >= m.peers.len() {
        (m, Seq::empty())
    } else {
        (LobbyModel { peers: m.peers.remove(i), ..m }, seq![EventView::PlayerLeft { id, reason }])
    }
}

/// Handling a packet from a client: what the lobby becomes, the reply to
/// send back, and what it reports.
pub open spec fn handle_spec(m: LobbyModel, from: Address, p: PacketView, now: u64) -> (
    LobbyModel,
    Option<PacketView>,
    Seq<EventView>,
) {
    let m1 = heard(m, from, now);
    match p {
        PacketView::JoinRequest { protocol, rules_hash, player_name } => {
            let (m2, reply, events) = join_spec(m1, from, protocol, rules_hash, player_name, now);
            (m2, Some(reply), events)
        },
        PacketView::Leave { player } => {
            let (m2, events) = remove_spec(m1, player, LeaveReason::Quit);
            (m2, None, events)
        },
        PacketView::Ping { nonce } => (m1, Some(PacketView::Pong { nonce }), Seq::empty()),
        _ => (m1, None, Seq::empty()),
    }
}

/// Handling a packet does not overflow: a join works out the input delay,
/// and an admitted player takes the next slot number.
pub open spec fn handle_fits(m: LobbyModel, from: Address, p: PacketView) -> bool {
    p matches PacketView::JoinRequest { protocol, rules_hash, .. } ==> rtts_fit(m) && (admits(
        m,
        from,
        protocol,
        rules_hash,
    ) ==> m.next_slot < 255)
}

/// Whether a peer has gone silent for good at `now`. The host never does.
pub open spec fn silent(p: PeerView, now: u64) -> bool {
    p.id != 0 && elapsed(p.last_heard, now) > PEER_TIMEOUT_MS
}

/// The peers still heard from at `now`.
pub open spec fn still_heard(s: Seq<PeerView>, now: u64) -> Seq<PeerView>
    decreases s.len(),
{
    if s.len() == 0 {
        s
    } else if silent(s.last(), now) {
        still_heard(s.drop_last(), now)
    } else {
        still_heard(s.drop_last(), now).push(s.last())
    }
}

/// A departure for every peer gone silent at `now`, in lobby order.
pub open spec fn timeouts(s: Seq<PeerView>, now: u64) -> Seq<EventView>
    decreases s.len(),
{
    if s.len() == 0 {
        Seq::empty()
    } else if silent(s.last(), now) {
        timeouts(s.drop_last(), now).push(
            EventView::PlayerLeft { id: s.last().id, reason: LeaveReason::TimedOut },
        )
    } else {
        timeouts(s.drop_last(), now)
    }
}

/// Whether everyone in the list is ready.
pub open spec fn all_ready(s: Seq<PeerView>) -> bool {
    forall|i: int| 0 <= i < s.len() ==> (#[trigger] s[i]).ready
}

/// Whether the match can begin: not yet started, at least two players,
/// all of them ready.
pub open spec fn can_start_spec(m: LobbyModel) -> bool {
    !m.started && m.peers.len() >= 2 && all_ready(m.peers)
}

/// The lobby after player `id` is marked ready, as `set_ready` leaves it.
pub open spec fn readied(m: LobbyModel, id: u8) -> LobbyModel {
    let i = id_index(m.peers, id);
    if i < m.peers.len() && !m.peers[i].ready {
        LobbyModel { peers: m.peers.update(i, PeerView { ready: true, ..m.peers[i] }), ..m }
    } else {
        m
    }
}

/// What marking player `id` ready reports: the change, when there is one.
pub open spec fn ready_events(m: LobbyModel, id: u8) -> Seq<EventView> {
    let i = id_index(m.peers, id);
    if i < m.peers.len() && !m.peers[i].ready {
        seq![EventView::PlayerReady { id, ready: true }]
    } else {
        Seq::empty()
    }
}

/// The lobby the command-line host starts from: with two players present,
/// slots 0 and 1 (the host and the player holding slot 1) are marked ready.
pub open spec fn both_readied(m: LobbyModel) -> LobbyModel {
    readied(readied(m, 0), 1)
}

/// Readiness has nothing to do with round trips.
proof fn lemma_worst_rtt_ignores_readiness(s: Seq<PeerView>, i: int, ready: bool)
    requires
        0 <= i < s.len(),
    ensures
        worst_rtt(s.update(i, PeerView { ready, ..s[i] })) == worst_rtt(s),
    decreases s.len(),
{
    let t = s.update(i, PeerView { ready, ..s[i] });
    if i < s.len() - 1 {
        assert(t.drop_last() =~= s.drop_last().update(i, PeerView { ready, ..s[i] }));
        lemma_worst_rtt_ignores_readiness(s.drop_last(), i, ready);
    } else {
        assert(t.drop_last() =~= s.drop_last());
    }
}

/// Marking players ready changes no round trip, so the delay the lobby
/// negotiates stays what it was.
proof fn lemma_readied_keeps_rtts(m: LobbyModel, id: u8)
    ensures
        worst_rtt(readied(m, id).peers) == worst_rtt(m.peers),
{
    let i = id_index(m.peers, id);
    lemma_index_parts(m.peers, unspecified(), id);
    if i < m.peers.len() && !m.peers[i].ready {
        lemma_worst_rtt_ignores_readiness(m.peers, i, true);
    }
}

/// The addresses of everyone but the host, in lobby order.
pub open spec fn guest_addresses(s: Seq<PeerView>) -> Seq<Address>
    decreases s.len(),
{
    if s.len() == 0 {
        Seq::empty()
    } else if s.last().id == 0 {
        guest_addresses(s.drop_last())
    } else {
        guest_addresses(s.drop_last()).push(s.last().address)
    }
}

/// Ids strictly increase along the list.
pub open spec fn increasing_ids(s: Seq<PeerView>) -> bool {
    forall|i: int, j: int| 0 <= i < j < s.len() ==> (#[trigger] s[i]).id < (#[trigger] s[j]).id
}

/// What every lobby keeps true: the host holds slot zero at the head of the
/// list, every player has its own slot, below the next one handed out, and
/// the lobby is never over capacity.
pub open spec fn lobby_invariant(m: LobbyModel) -> bool {
    &&& 1 <= m.peers.len() <= m.max_players
    &&& m.peers[0].id == 0
    &&& increasing_ids(m.peers)
    &&& forall|i: int| 0 <= i < m.peers.len() ==> (#[trigger] m.peers[i]).id < m.next_slot
}

/// The host's view of a forming match.
pub struct HostLobby {
    peers: Vec<Peer>,
    match_name: String,
    map_name: String,
    max_players: u8,
    rules_hash: u64,
    seed: u64,
    game_port: u16,
    started: bool,
    next_slot: u8,
}

impl View for HostLobby {
    type V = LobbyModel;

    closed spec fn view(&self) -> LobbyModel {
        LobbyModel {
            peers: peer_views(self.peers@),
            match_name: self.match_name@,
            map_name: self.map_name@,
            max_players: self.max_players,
            rules_hash: self.rules_hash,
            seed: self.seed,
            game_port: self.game_port,
            started: self.started,
            next_slot: self.next_slot,
        }
    }
}

/// A copy of a peer.
fn copy_peer(p: &Peer) -> (r: Peer)
    ensures
        peer_view(r) == peer_view(*p),
{
    Peer {
        id: p.id,
        name: copy_text(&p.name),
        address: p.address,
        ready: p.ready,
        last_heard_ms: p.last_heard_ms,
        rtt_ms: p.rtt_ms,
    }
}

/// A copy of a list of peers.
fn copy_peers(v: &Vec<Peer>) -> (r: Vec<Peer>)
    ensures
        peer_views(r@) == peer_views(v@),
{
    let mut out: Vec<Peer> = Vec::new();
    let mut i: usize = 0;
    while i < v.len()
        invariant
            i <= v@.len(),
            peer_views(out@) == peer_views(v@.take(i as int)),
        decreases v@.len() - i,
    {
        let ghost before = out@;
        let c = copy_peer(&v[i]);
        out.push(c);
        assert(v@.take(i + 1) =~= v@.take(i as int).push(v@[i as int]));
        assert(peer_views(out@) =~= peer_views(before).push(peer_view(c)));
        assert(peer_views(v@.take(i + 1)) =~= peer_views(v@.take(i as int)).push(peer_view(v@[i as int])));
        i = i + 1;
    }
    assert(v@.take(v@.len() as int) =~= v@);
    out
}

/// The first peer at `a`, by a scan.
fn find_address(peers: &Vec<Peer>, a: Address) -> (r: usize)
    ensures
        r == address_index(peer_views(peers@), a),
        r <= peers@.len(),
{
    let ghost s = peer_views(peers@);
    let mut i: usize = 0;
    assert(s.skip(0) =~= s);
    while i < peers.len()
        invariant
            i <= peers@.len(),
            s == peer_views(peers@),
            address_index(s, a) == i + address_index(s.skip(i as int), a),
        decreases peers@.len() - i,
    {
        assert(s.skip(i as int)[0] == s[i as int]);
        if peers[i].address == a {
            return i;
        }
        assert(s.skip(i as int).drop_first() =~= s.skip(i + 1));
        i = i + 1;
    }
    i
}

/// The first peer with `id`, by a scan.
fn find_id(peers: &Vec<Peer>, id: u8) -> (r: usize)
    ensures
        r == id_index(peer_views(peers@), id),
        r <= peers@.len(),
{
    let ghost s = peer_views(peers@);
    let mut i: usize = 0;
    assert(s.skip(0) =~= s);
    while i < peers.len()
        invariant
            i <= peers@.len(),
            s == peer_views(peers@),
            id_index(s, id) == i + id_index(s.skip(i as int), id),
        decreases peers@.len() - i,
    {
        assert(s.skip(i as int)[0] == s[i as int]);
        if peers[i].id.0 == id {
            return i;
        }
        assert(s.skip(i as int).drop_first() =~= s.skip(i + 1));
        i = i + 1;
    }
    i
}

/// An index below the scan's answer does not match.
proof fn lemma_index_parts(s: Seq<PeerView>, a: Address, id: u8)
    ensures
        0 <= address_index(s, a) <= s.len(),
        address_index(s, a) < s.len() ==> s[address_index(s, a)].address == a,
        forall|j: int| 0 <= j < address_index(s, a) ==> (#[trigger] s[j]).address != a,
        0 <= id_index(s, id) <= s.len(),
        id_index(s, id) < s.len() ==> s[id_index(s, id)].id == id,
        forall|j: int| 0 <= j < id_index(s, id) ==> (#[trigger] s[j]).id != id,
    decreases s.len(),
{
    if s.len() > 0 {
        let t = s.drop_first();
        lemma_index_parts(t, a, id);
        assert forall|j: int| 0 <= j < address_index(s, a) implies (#[trigger] s[j]).address != a by {
            if j > 0 {
                assert(s[j] == t[j - 1]);
            }
        }
        assert forall|j: int| 0 <= j < id_index(s, id) implies (#[trigger] s[j]).id != id by {
            if j > 0 {
                assert(s[j] == t[j - 1]);
            }
        }
        if address_index(s, a) > 0 && address_index(s, a) < s.len() {
            assert(s[address_index(s, a)] == t[address_index(s, a) - 1]);
        }
        if id_index(s, id) > 0 && id_index(s, id) < s.len() {
            assert(s[id_index(s, id)] == t[id_index(s, id) - 1]);
        }
    }
}

/// The worst round trip is at least every measured one.
proof fn lemma_worst_rtt(s: Seq<PeerView>)
    ensures
        forall|i: int| 0 <= i < s.len() && (#[trigger] s[i]).rtt is Some ==> s[i].rtt.unwrap() <= worst_rtt(s),
        worst_rtt(s) == 0 || exists|i: int| 0 <= i < s.len() && (#[trigger] s[i]).rtt == Some(worst_rtt(s)),
    decreases s.len(),
{
    if s.len() > 0 {
        let init = s.drop_last();
        lemma_worst_rtt(init);
        assert forall|i: int| 0 <= i < s.len() && (#[trigger] s[i]).rtt is Some implies s[i].rtt.unwrap() <= worst_rtt(s) by {
            if i < s.len() - 1 {
                assert(init[i] == s[i]);
            }
        }
        if worst_rtt(s) != 0 {
            if worst_rtt(s) == worst_rtt(init) {
                let i = choose|i: int| 0 <= i < init.len() && (#[trigger] init[i]).rtt == Some(worst_rtt(init));
                assert(s[i] == init[i]);
            } else {
                assert(s[s.len() - 1].rtt == Some(worst_rtt(s)));
            }
        }
    }
}

/// Where an address is found depends on the addresses alone.
proof fn lemma_address_index_same(a: Seq<PeerView>, b: Seq<PeerView>, x: Address)
    requires
        a.len() == b.len(),
        forall|i: int| 0 <= i < a.len() ==> (#[trigger] a[i]).address == b[i].address,
    ensures
        address_index(a, x) == address_index(b, x),
    decreases a.len(),
{
    if a.len() > 0 {
        assert forall|i: int| 0 <= i < a.drop_first().len() implies (#[trigger] a.drop_first()[i]).address == b.drop_first()[i].address by {
            assert(a.drop_first()[i] == a[i + 1] && b.drop_first()[i] == b[i + 1]);
        }
        lemma_address_index_same(a.drop_first(), b.drop_first(), x);
        assert(a[0].address == b[0].address);
    }
}

/// The worst round trip depends on the round trips alone.
proof fn lemma_worst_rtt_same(a: Seq<PeerView>, b: Seq<PeerView>)
    requires
        a.len() == b.len(),
        forall|i: int| 0 <= i < a.len() ==> (#[trigger] a[i]).rtt == b[i].rtt,
    ensures
        worst_rtt(a) == worst_rtt(b),
    decreases a.len(),
{
    if a.len() > 0 {
        assert forall|i: int| 0 <= i < a.drop_last().len() implies (#[trigger] a.drop_last()[i]).rtt == b.drop_last()[i].rtt by {
            assert(a.drop_last()[i] == a[i] && b.drop_last()[i] == b[i]);
        }
        lemma_worst_rtt_same(a.drop_last(), b.drop_last());
        assert(a.last().rtt == b.last().rtt);
    }
}

/// The worst round trip among the peers, by a scan.
fn worst_rtt_of(peers: &Vec<Peer>) -> (r: u32)
    ensures
        r == worst_rtt(peer_views(peers@)),
{
    let ghost s = peer_views(peers@);
    let mut worst: u32 = 0;
    let mut i: usize = 0;
    assert(s.take(0) =~= Seq::<PeerView>::empty());
    while i < peers.len()
        invariant
            i <= peers@.len(),
            s == peer_views(peers@),
            worst == worst_rtt(s.take(i as int)),
        decreases peers@.len() - i,
    {
        assert(s.take(i + 1).drop_last() =~= s.take(i as int));
        assert(s.take(i + 1).last() == peer_view(peers@[i as int]));
        match peers[i].rtt_ms {
            Some(r) => {
                if r > worst {
                    worst = r;
                }
            },
            None => {},
        }
        i = i + 1;
    }
    assert(s.take(peers@.len() as int) =~= s);
    worst
}

/// Slots for every peer, in lobby order.
fn slot_list(peers: &Vec<Peer>) -> (r: Vec<PlayerSlot>)
    ensures
        r@.map_values(|s: PlayerSlot| slot_view(s)) == slots(peer_views(peers@)),
{
    let ghost s = peer_views(peers@);
    let mut out: Vec<PlayerSlot> = Vec::new();
    let mut i: usize = 0;
    while i < peers.len()
        invariant
            i <= peers@.len(),
            s == peer_views(peers@),
            out@.map_values(|x: PlayerSlot| slot_view(x)) == slots(s.take(i as int)),
        decreases peers@.len() - i,
    {
        let ghost before = out@;
        let slot = PlayerSlot { id: peers[i].id, name: copy_text(&peers[i].name), ready: peers[i].ready };
        out.push(slot);
        assert(s.take(i + 1) =~= s.take(i as int).push(s[i as int]));
        assert(s[i as int] == peer_view(peers@[i as int]));
        assert(out@.map_values(|x: PlayerSlot| slot_view(x)) =~= before.map_values(|x: PlayerSlot| slot_view(x)).push(slot_view(slot)));
        assert(slots(s.take(i + 1)) =~= slots(s.take(i as int)).push(SlotView { id: s[i as int].id, name: s[i as int].name, ready: s[i as int].ready }));
        assert(out@.map_values(|x: PlayerSlot| slot_view(x)) =~= slots(s.take(i + 1)));
        i = i + 1;
    }
    assert(s.take(peers@.len() as int) =~= s);
    out
}

/// Adds events to a list.
fn push_event(events: &mut Vec<LobbyEvent>, e: LobbyEvent)
    ensures
        event_views(final(events)@) == event_views(old(events)@).push(event_view(e)),
{
    events.push(e);
    assert(event_views(events@) =~= event_views(old(events)@).push(event_view(e)));
}

/// Where an address is found after one more peer joins.
proof fn lemma_address_index_push(s: Seq<PeerView>, x: PeerView, a: Address)
    ensures
        address_index(s, a) < s.len() ==> address_index(s.push(x), a) == address_index(s, a),
        address_index(s, a) >= s.len() && x.address == a ==> address_index(s.push(x), a) == s.len(),
    decreases s.len(),
{
    if s.len() > 0 {
        lemma_address_index_push(s.drop_first(), x, a);
        assert(s.push(x).drop_first() =~= s.drop_first().push(x));
        assert(s.push(x)[0] == s[0]);
    } else {
        assert(s.push(x)[0] == x);
        assert(s.push(x).drop_first() =~= Seq::<PeerView>::empty());
    }
}

/// Rejoining from the same address is idempotent: when a join is accepted
/// and the client asks again (the acceptance may have been lost), it gets
/// the same slot, and no second player appears.
pub proof fn lemma_rejoin_is_idempotent(
    m: LobbyModel,
    from: Address,
    protocol: u32,
    rules_hash: u64,
    name: Seq<char>,
    now: u64,
    later: u64,
)
    requires
        lobby_invariant(m),
    ensures
        ({
            let join = PacketView::JoinRequest { protocol, rules_hash, player_name: name };
            let (m1, first, _) = handle_spec(m, from, join, now);
            let (m2, second, events) = handle_spec(m1, from, join, later);
            first matches Some(PacketView::JoinAccepted { player, .. }) ==> {
                &&& second matches Some(PacketView::JoinAccepted { player: again, .. })
                &&& again == player
                &&& m2.peers.len() == m1.peers.len()
                &&& events.len() == 0
            }
        }),
{
    let h = heard(m, from, now);
    lemma_index_parts(m.peers, from, 0);
    assert forall|k: int| 0 <= k < h.peers.len() implies (#[trigger] h.peers[k]).address == m.peers[k].address by {}
    lemma_address_index_same(h.peers, m.peers, from);
    lemma_index_parts(h.peers, from, 0);
    let (m1, first, _) = join_spec(h, from, protocol, rules_hash, name, now);
    let i = address_index(h.peers, from);
    if i >= h.peers.len() && refusal(h, protocol, rules_hash) is None {
        let joined = m1.peers[m1.peers.len() - 1];
        lemma_address_index_push(h.peers, joined, from);
    }
    let h2 = heard(m1, from, later);
    lemma_index_parts(m1.peers, from, 0);
    assert forall|k: int| 0 <= k < h2.peers.len() implies (#[trigger] h2.peers[k]).address == m1.peers[k].address by {}
    lemma_address_index_same(h2.peers, m1.peers, from);
    lemma_index_parts(m1.peers, from, 0);
}

/// Version is checked before capacity, and a refused join admits nobody:
/// a client on another build is told so whether or not the match is full
/// or started, and the lobby is left as it was.
pub proof fn lemma_version_checked_first(
    m: LobbyModel,
    from: Address,
    protocol: u32,
    rules_hash: u64,
    name: Seq<char>,
    now: u64,
)
    requires
        address_index(m.peers, from) >= m.peers.len(),
        protocol != PROTOCOL_VERSION,
    ensures
        ({
            let (m1, reply, events) = join_spec(m, from, protocol, rules_hash, name, now);
            let reason = RejectReason::ProtocolMismatch { host_protocol: PROTOCOL_VERSION };
            &&& reply == PacketView::JoinRejected { reason }
            &&& events == seq![EventView::JoinRefused { address: from, reason }]
            &&& m1 == m
        }),
{
}

/// A refused join leaves the lobby exactly as it was; a started match
/// refuses newcomers that would otherwise be admitted.
pub proof fn lemma_refusals_admit_nobody(
    m: LobbyModel,
    from: Address,
    protocol: u32,
    rules_hash: u64,
    name: Seq<char>,
    now: u64,
)
    requires
        address_index(m.peers, from) >= m.peers.len(),
    ensures
        ({
            let (m1, reply, _) = join_spec(m, from, protocol, rules_hash, name, now);
            &&& reply is JoinRejected ==> m1 == m
            &&& (m.started && protocol == PROTOCOL_VERSION && rules_hash == m.rules_hash) ==> reply
                == PacketView::JoinRejected { reason: RejectReason::AlreadyStarted }
            &&& (!m.started && protocol == PROTOCOL_VERSION && rules_hash == m.rules_hash
                && m.peers.len() >= m.max_players) ==> reply == PacketView::JoinRejected {
                reason: RejectReason::MatchFull,
            }
        }),
{
}

/// The host cannot be removed from its own lobby: a leave naming slot zero
/// changes nothing and reports nothing, and the host never times out.
pub proof fn lemma_host_stays(m: LobbyModel, reason: LeaveReason, now: u64)
    ensures
        remove_spec(m, 0, reason) == (m, Seq::<EventView>::empty()),
        forall|i: int| 0 <= i < m.peers.len() && (#[trigger] m.peers[i]).id == 0 ==> !silent(m.peers[i], now),
{
}

/// The input delay suits the slowest peer: it is at least the delay any
/// measured round trip in the lobby calls for.
pub proof fn lemma_delay_suits_slowest(m: LobbyModel, i: int)
    requires
        0 <= i < m.peers.len(),
        m.peers[i].rtt is Some,
    ensures
        delay_for_rtt(m.peers[i].rtt.unwrap() as int, TICK_MS as int) <= delay_for_rtt(
            worst_rtt(m.peers) as int,
            TICK_MS as int,
        ),
{
    lemma_worst_rtt(m.peers);
    crate::lockstep::lemma_delay_monotonic(m.peers[i].rtt.unwrap(), worst_rtt(m.peers), TICK_MS);
}

impl HostLobby {
    #[verifier::type_invariant]
    spec fn well_formed(&self) -> bool {
        lobby_invariant(self@)
    }

    /// A lobby for a match, with the host in slot zero.
    ///
    /// The host gets a real peer entry rather than a special case, which
    /// keeps every later loop uniform.
    pub fn new(
        match_name: String,
        map_name: String,
        max_players: u8,
        rules_hash: u64,
        seed: u64,
        game_port: u16,
    ) -> (r: HostLobby)
        requires
            max_players >= 1,
        ensures
            r@ == (LobbyModel {
                peers: seq![
                    PeerView {
                        id: 0,
                        name: "host"@,
                        address: unspecified(),
                        ready: false,
                        last_heard: 0,
                        rtt: Some(0u32),
                    },
                ],
                match_name: match_name@,
                map_name: map_name@,
                max_players,
                rules_hash,
                seed,
                game_port,
                started: false,
                next_slot: 1,
            }),
    {
        let mut peers: Vec<Peer> = Vec::new();
        peers.push(
            Peer {
                id: PlayerId(0),
                name: String::from_str("host"),
                address: Address { v6: false, ip: 0, port: 0, flowinfo: 0, scope_id: 0 },
                ready: false,
                last_heard_ms: 0,
                rtt_ms: Some(0),
            },
        );
        let r = HostLobby {
            peers,
            match_name,
            map_name,
            max_players,
            rules_hash,
            seed,
            game_port,
            started: false,
            next_slot: 1,
        };
        assert(peer_views(r.peers@) =~= seq![peer_view(r.peers@[0])]);
        r
    }

    /// Names the host's own entry.
    pub fn set_host_name(&mut self, name: String)
        ensures
            final(self)@ == (LobbyModel {
                peers: old(self)@.peers.update(0, PeerView { name: name@, ..old(self)@.peers[0] }),
                ..old(self)@
            }),
    {
        proof {
            use_type_invariant(&*self);
        }
        let mut peers = copy_peers(&self.peers);
        let mut host = copy_peer(&peers[0]);
        host.name = name;
        peers.set(0, host);
        proof {
            assert(peer_views(peers@) =~= peer_views(old(self).peers@).update(
                0,
                PeerView { name: name@, ..peer_views(old(self).peers@)[0] },
            ));
        }
        self.peers = peers;
    }

    /// Everyone in the lobby, the host first.
    pub fn peers(&self) -> (r: &Vec<Peer>)
        ensures
            peer_views(r@) == self@.peers,
    {
        &self.peers
    }

    pub fn started(&self) -> (r: bool)
        ensures
            r == self@.started,
    {
        self.started
    }

    /// The slot the next admitted player gets.
    pub fn next_slot(&self) -> (r: u8)
        ensures
            r == self@.next_slot,
    {
        self.next_slot
    }

    pub fn seed(&self) -> (r: u64)
        ensures
            r == self@.seed,
    {
        self.seed
    }

    /// What to broadcast so clients can find this match.
    pub fn announce(&self) -> (r: Announce)
        ensures
            announce_view(r) == (AnnounceView {
                protocol: PROTOCOL_VERSION,
                match_name: self@.match_name,
                map_name: self@.map_name,
                players: self@.peers.len() as u8,
                max_players: self@.max_players,
                game_port: self@.game_port,
                in_progress: self@.started,
            }),
            r.players as int == self@.peers.len(),
    {
        proof {
            use_type_invariant(self);
        }
        Announce {
            protocol: PROTOCOL_VERSION,
            match_name: copy_text(&self.match_name),
            map_name: copy_text(&self.map_name),
            players: self.peers.len() as u8,
            max_players: self.max_players,
            game_port: self.game_port,
            in_progress: self.started,
        }
    }

    /// An input delay that suits the slowest peer.
    ///
    /// One delay applies to the whole match, so it must accommodate the
    /// worst link; sizing it for the average would leave the slowest player
    /// stalling everyone.
    pub fn negotiated_input_delay(&self) -> (r: u32)
        requires
            rtts_fit(self@),
        ensures
            r == negotiated_delay(self@),
    {
        let worst = worst_rtt_of(&self.peers);
        input_delay_for_rtt(worst, TICK_MS)
    }

    fn acceptance_for(&self, id: PlayerId) -> (r: Packet)
        requires
            rtts_fit(self@),
        ensures
            packet_view(r) == acceptance(self@, id.0),
    {
        let players = slot_list(&self.peers);
        Packet::JoinAccepted {
            player: id,
            seed: self.seed,
            input_delay: self.negotiated_input_delay(),
            players,
        }
    }

    /// Handles a packet from a client.
    ///
    /// Returns the reply to send back, if any, and pushes anything the
    /// caller should react to onto `events`.
    pub fn handle(&mut self, from: Address, packet: &Packet, now_ms: u64, events: &mut Vec<LobbyEvent>) -> (r: Option<Packet>)
        requires
            handle_fits(old(self)@, from, packet_view(*packet)),
        ensures
            ({
                let (m, reply, evs) = handle_spec(old(self)@, from, packet_view(*packet), now_ms);
                &&& final(self)@ == m
                &&& match r {
                    Some(p) => reply == Some(packet_view(p)),
                    None => reply is None,
                }
                &&& event_views(final(events)@) == event_views(old(events)@) + evs
            }),
    {
        proof {
            use_type_invariant(&*self);
        }
        let i = find_address(&self.peers, from);
        if i < self.peers.len() {
            let mut peers = copy_peers(&self.peers);
            let mut p = copy_peer(&peers[i]);
            p.last_heard_ms = now_ms;
            peers.set(i, p);
            proof {
                assert(peer_views(peers@) =~= heard(old(self)@, from, now_ms).peers);
            }
            self.peers = peers;
        }
        assert(self@ == heard(old(self)@, from, now_ms));
        proof {
            let h = heard(old(self)@, from, now_ms);
            assert forall|k: int| 0 <= k < h.peers.len() implies (#[trigger] h.peers[k]).rtt == old(self)@.peers[k].rtt by {}
            lemma_worst_rtt_same(h.peers, old(self)@.peers);
            assert forall|k: int| 0 <= k < h.peers.len() implies (#[trigger] h.peers[k]).address == old(self)@.peers[k].address by {}
            lemma_address_index_same(h.peers, old(self)@.peers, from);
        }
        match packet {
            Packet::JoinRequest { protocol, rules_hash, player_name } => {
                let reply = self.handle_join(from, *protocol, *rules_hash, player_name, now_ms, events);
                Some(reply)
            },
            Packet::Leave { player } => {
                self.remove(*player, LeaveReason::Quit, events);
                proof {
                    assert(event_views(events@) =~= event_views(old(events)@) + remove_spec(
                        heard(old(self)@, from, now_ms),
                        player.0,
                        LeaveReason::Quit,
                    ).1);
                }
                None
            },
            Packet::Ping { nonce } => {
                assert(event_views(events@) =~= event_views(old(events)@) + Seq::<EventView>::empty());
                Some(Packet::Pong { nonce: *nonce })
            },
            _ => {
                assert(event_views(events@) =~= event_views(old(events)@) + Seq::<EventView>::empty());
                None
            },
        }
    }

    fn handle_join(
        &mut self,
        from: Address,
        protocol: u32,
        rules_hash: u64,
        name: &String,
        now_ms: u64,
        events: &mut Vec<LobbyEvent>,
    ) -> (r: Packet)
        requires
            rtts_fit(old(self)@),
            admits(old(self)@, from, protocol, rules_hash) ==> old(self)@.next_slot < 255,
        ensures
            ({
                let (m, reply, evs) = join_spec(old(self)@, from, protocol, rules_hash, name@, now_ms);
                &&& final(self)@ == m
                &&& packet_view(r) == reply
                &&& event_views(final(events)@) == event_views(old(events)@) + evs
            }),
    {
        proof {
            use_type_invariant(&*self);
            lemma_index_parts(self@.peers, from, 0);
        }
        let i = find_address(&self.peers, from);
        if i < self.peers.len() {
            assert(event_views(events@) =~= event_views(old(events)@) + Seq::<EventView>::empty());
            return self.acceptance_for(self.peers[i].id);
        }
        let reason: Option<RejectReason> = if protocol != PROTOCOL_VERSION {
            Some(RejectReason::ProtocolMismatch { host_protocol: PROTOCOL_VERSION })
        } else if rules_hash != self.rules_hash {
            Some(RejectReason::RulesMismatch { host_rules_hash: self.rules_hash })
        } else if self.started {
            Some(RejectReason::AlreadyStarted)
        } else if self.peers.len() >= self.max_players as usize {
            Some(RejectReason::MatchFull)
        } else {
            None
        };
        match reason {
            Some(reason) => {
                push_event(events, LobbyEvent::JoinRefused { address: from, reason });
                assert(event_views(events@) =~= event_views(old(events)@) + seq![
                    EventView::JoinRefused { address: from, reason },
                ]);
                return Packet::JoinRejected { reason };
            },
            None => {},
        }
        let id = PlayerId(self.next_slot);
        let mut peers = copy_peers(&self.peers);
        peers.push(
            Peer {
                id,
                name: copy_text(name),
                address: from,
                ready: false,
                last_heard_ms: now_ms,
                rtt_ms: None,
            },
        );
        proof {
            let ps = peer_views(peers@);
            assert(ps =~= old(self)@.peers.push(
                PeerView { id: id.0, name: name@, address: from, ready: false, last_heard: now_ms, rtt: None },
            ));
            assert forall|a: int, b: int| 0 <= a < b < ps.len() implies (#[trigger] ps[a]).id < (
            #[trigger] ps[b]).id by {
                if b == ps.len() - 1 {
                    assert(ps[a] == old(self)@.peers[a]);
                } else {
                    assert(ps[a] == old(self)@.peers[a] && ps[b] == old(self)@.peers[b]);
                }
            }
            assert forall|k: int| 0 <= k < ps.len() implies (#[trigger] ps[k]).id < id.0 + 1 by {
                if k < ps.len() - 1 {
                    assert(ps[k] == old(self)@.peers[k]);
                }
            }
            assert(ps[0] == old(self)@.peers[0]);
        }
        self.next_slot = self.next_slot + 1;
        self.peers = peers;
        push_event(events, LobbyEvent::PlayerJoined { id, name: copy_text(name) });
        assert(event_views(events@) =~= event_views(old(events)@) + seq![
            EventView::PlayerJoined { id: id.0, name: name@ },
        ]);
        proof {
            lemma_worst_rtt(old(self)@.peers);
            lemma_worst_rtt(self@.peers);
            assert(worst_rtt(self@.peers) == worst_rtt(old(self)@.peers)) by {
                assert(self@.peers.drop_last() =~= old(self)@.peers);
            }
        }
        self.acceptance_for(id)
    }

    /// Marks a player ready or not, reporting the change when there is one.
    pub fn set_ready(&mut self, id: PlayerId, ready: bool, events: &mut Vec<LobbyEvent>)
        ensures
            ({
                let m = old(self)@;
                let i = id_index(m.peers, id.0);
                if i < m.peers.len() && m.peers[i].ready != ready {
                    &&& final(self)@ == (LobbyModel {
                        peers: m.peers.update(i, PeerView { ready, ..m.peers[i] }),
                        ..m
                    })
                    &&& event_views(final(events)@) == event_views(old(events)@).push(
                        EventView::PlayerReady { id: id.0, ready },
                    )
                } else {
                    &&& final(self)@ == m
                    &&& final(events)@ == old(events)@
                }
            }),
    {
        proof {
            use_type_invariant(&*self);
            lemma_index_parts(self@.peers, unspecified(), id.0);
        }
        let i = find_id(&self.peers, id.0);
        if i < self.peers.len() && self.peers[i].ready != ready {
            let mut peers = copy_peers(&self.peers);
            let mut p = copy_peer(&peers[i]);
            p.ready = ready;
            peers.set(i, p);
            proof {
                let m = old(self)@;
                assert(peer_views(peers@) =~= m.peers.update(i as int, PeerView { ready, ..m.peers[i as int] }));
            }
            self.peers = peers;
            push_event(events, LobbyEvent::PlayerReady { id, ready });
        }
    }

    /// Records a player's measured round trip.
    pub fn record_rtt(&mut self, id: PlayerId, rtt_ms: u32)
        ensures
            ({
                let m = old(self)@;
                let i = id_index(m.peers, id.0);
                final(self)@ == if i < m.peers.len() {
                    LobbyModel { peers: m.peers.update(i, PeerView { rtt: Some(rtt_ms), ..m.peers[i] }), ..m }
                } else {
                    m
                }
            }),
    {
        proof {
            use_type_invariant(&*self);
            lemma_index_parts(self@.peers, unspecified(), id.0);
        }
        let i = find_id(&self.peers, id.0);
        if i < self.peers.len() {
            let mut peers = copy_peers(&self.peers);
            let mut p = copy_peer(&peers[i]);
            p.rtt_ms = Some(rtt_ms);
            peers.set(i, p);
            proof {
                let m = old(self)@;
                assert(peer_views(peers@) =~= m.peers.update(
                    i as int,
                    PeerView { rtt: Some(rtt_ms), ..m.peers[i as int] },
                ));
            }
            self.peers = peers;
        }
    }

    fn remove(&mut self, id: PlayerId, reason: LeaveReason, events: &mut Vec<LobbyEvent>)
        ensures
            ({
                let (m, evs) = remove_spec(old(self)@, id.0, reason);
                &&& final(self)@ == m
                &&& event_views(final(events)@) == event_views(old(events)@) + evs
            }),
    {
        proof {
            use_type_invariant(&*self);
            lemma_index_parts(self@.peers, unspecified(), id.0);
        }
        if id.0 == 0 {
            assert(event_views(events@) =~= event_views(old(events)@) + Seq::<EventView>::empty());
            return ;
        }
        let i = find_id(&self.peers, id.0);
        if i < self.peers.len() {
            let mut peers = copy_peers(&self.peers);
            peers.remove(i);
            proof {
                let m = old(self)@;
                let ps = peer_views(peers@);
                assert(ps =~= m.peers.remove(i as int));
                assert(i > 0);
                assert forall|a: int, b: int| 0 <= a < b < ps.len() implies (#[trigger] ps[a]).id < (
                #[trigger] ps[b]).id by {
                    let a0 = if a < i { a } else { a + 1 };
                    let b0 = if b < i { b } else { b + 1 };
                    assert(ps[a] == m.peers[a0] && ps[b] == m.peers[b0]);
                }
                assert forall|k: int| 0 <= k < ps.len() implies (#[trigger] ps[k]).id < m.next_slot by {
                    let k0 = if k < i { k } else { k + 1 };
                    assert(ps[k] == m.peers[k0]);
                }
                assert(ps[0] == m.peers[0]);
            }
            self.peers = peers;
            push_event(events, LobbyEvent::PlayerLeft { id, reason });
            assert(event_views(events@) =~= event_views(old(events)@) + seq![
                EventView::PlayerLeft { id: id.0, reason },
            ]);
        } else {
            assert(event_views(events@) =~= event_views(old(events)@) + Seq::<EventView>::empty());
        }
    }

    /// Drops peers that have gone silent by `now_ms`. Call periodically.
    pub fn expire_silent_peers(&mut self, now_ms: u64, events: &mut Vec<LobbyEvent>)
        ensures
            final(self)@ == (LobbyModel { peers: still_heard(old(self)@.peers, now_ms), ..old(self)@ }),
            event_views(final(events)@) == event_views(old(events)@) + timeouts(old(self)@.peers, now_ms),
    {
        proof {
            use_type_invariant(&*self);
        }
        let ghost m = self@;
        let ghost s = m.peers;
        let peers = &self.peers;
        let mut kept: Vec<Peer> = Vec::new();
        let mut i: usize = 0;
        assert(s.take(0) =~= Seq::<PeerView>::empty());
        assert(event_views(events@) =~= event_views(old(events)@) + timeouts(s.take(0), now_ms));
        while i < peers.len()
            invariant
                i <= peers@.len(),
                s == peer_views(peers@),
                lobby_invariant(m),
                s == m.peers,
                peer_views(kept@) == still_heard(s.take(i as int), now_ms),
                event_views(events@) == event_views(old(events)@) + timeouts(s.take(i as int), now_ms),
                i > 0 ==> kept@.len() > 0 && peer_views(kept@)[0] == s[0],
                increasing_ids(peer_views(kept@)),
                forall|k: int| 0 <= k < kept@.len() ==> exists|j: int| 0 <= j < i && #[trigger] peer_views(kept@)[k] == s[j],
            decreases peers@.len() - i,
        {
            assert(s.take(i + 1).drop_last() =~= s.take(i as int));
            assert(s.take(i + 1).last() == s[i as int]);
            let gone = peers[i].id.0 != 0 && peers[i].is_timed_out(now_ms);
            if gone {
                push_event(events, LobbyEvent::PlayerLeft { id: peers[i].id, reason: LeaveReason::TimedOut });
                assert(event_views(events@) =~= event_views(old(events)@) + timeouts(s.take(i + 1), now_ms));
            } else {
                let ghost before = kept@;
                kept.push(copy_peer(&peers[i]));
                proof {
                    let kv = peer_views(kept@);
                    assert(kv =~= peer_views(before).push(s[i as int]));
                    assert forall|a: int, b: int| 0 <= a < b < kv.len() implies (#[trigger] kv[a]).id < (
                    #[trigger] kv[b]).id by {
                        assert(kv[a] == peer_views(before)[a]);
                        if b == kv.len() - 1 {
                            let j = choose|j: int| 0 <= j < i && #[trigger] peer_views(before)[a] == s[j];
                            assert(s[j].id < s[i as int].id);
                        } else {
                            assert(kv[b] == peer_views(before)[b]);
                        }
                    }
                    assert forall|k: int| 0 <= k < kept@.len() implies exists|j: int| 0 <= j < i + 1 && #[trigger] peer_views(kept@)[k] == s[j] by {
                        if k < before.len() {
                            assert(kv[k] == peer_views(before)[k]);
                            let j = choose|j: int| 0 <= j < i && #[trigger] peer_views(before)[k] == s[j];
                            assert(kv[k] == s[j]);
                        } else {
                            assert(kv[k] == s[i as int]);
                        }
                    }
                    if i == 0 {
                        assert(kv[0] == s[0]);
                    } else {
                        assert(kv[0] == peer_views(before)[0]);
                    }
                }
            }
            proof {
                if i == 0 {
                    assert(s[0].id == 0);
                    assert(!silent(s[0], now_ms));
                }
            }
            i = i + 1;
        }
        assert(s.take(peers@.len() as int) =~= s);
        proof {
            let kv = peer_views(kept@);
            assert forall|k: int| 0 <= k < kv.len() implies (#[trigger] kv[k]).id < m.next_slot by {
                let j = choose|j: int| 0 <= j < peers@.len() && #[trigger] peer_views(kept@)[k] == s[j];
            }
            lemma_still_heard_len(s, now_ms);
        }
        self.peers = kept;
    }

    /// Whether the match can begin.
    pub fn can_start(&self) -> (r: bool)
        ensures
            r == can_start_spec(self@),
    {
        if self.started || self.peers.len() < 2 {
            return false;
        }
        let ghost s = self@.peers;
        let mut i: usize = 0;
        while i < self.peers.len()
            invariant
                i <= self.peers@.len(),
                s == peer_views(self.peers@),
                forall|k: int| 0 <= k < i ==> (#[trigger] s[k]).ready,
            decreases self.peers@.len() - i,
        {
            if !self.peers[i].ready {
                assert(!s[i as int].ready);
                return false;
            }
            i = i + 1;
        }
        true
    }

    /// Begins the match, if it can.
    pub fn start(&mut self, events: &mut Vec<LobbyEvent>) -> (r: Option<Packet>)
        requires
            rtts_fit(old(self)@),
        ensures
            ({
                let m = old(self)@;
                if can_start_spec(m) {
                    &&& final(self)@ == (LobbyModel { started: true, ..m })
                    &&& r == Some(Packet::Start)
                    &&& event_views(final(events)@) == event_views(old(events)@).push(
                        EventView::Starting {
                            seed: m.seed,
                            input_delay: negotiated_delay(m),
                            players: m.peers.map_values(|p: PeerView| p.id),
                        },
                    )
                } else {
                    &&& final(self)@ == m
                    &&& r is None
                    &&& final(events)@ == old(events)@
                }
            }),
    {
        proof {
            use_type_invariant(&*self);
        }
        if !self.can_start() {
            return None;
        }
        let delay = self.negotiated_input_delay();
        let mut ids: Vec<PlayerId> = Vec::new();
        let mut i: usize = 0;
        while i < self.peers.len()
            invariant
                i <= self.peers@.len(),
                ids@.map_values(|p: PlayerId| p.0) == self@.peers.take(i as int).map_values(|p: PeerView| p.id),
            decreases self.peers@.len() - i,
        {
            let ghost before = ids@;
            ids.push(self.peers[i].id);
            assert(self@.peers.take(i + 1) =~= self@.peers.take(i as int).push(self@.peers[i as int]));
            assert(self@.peers[i as int] == peer_view(self.peers@[i as int]));
            assert(ids@.map_values(|p: PlayerId| p.0) =~= before.map_values(|p: PlayerId| p.0).push(self.peers@[i as int].id.0));
            assert(self@.peers.take(i + 1).map_values(|p: PeerView| p.id) =~= self@.peers.take(i as int).map_values(|p: PeerView| p.id).push(self@.peers[i as int].id));
            assert(ids@.map_values(|p: PlayerId| p.0) =~= self@.peers.take(i + 1).map_values(|p: PeerView| p.id));
            i = i + 1;
        }
        assert(self@.peers.take(self@.peers.len() as int) =~= self@.peers);
        self.started = true;
        push_event(events, LobbyEvent::Starting { seed: self.seed, input_delay: delay, players: ids });
        Some(Packet::Start)
    }

    /// The command-line host's rule, until a lobby screen makes it the
    /// players' decision: once two players are present, slot 0 (the host)
    /// and slot 1 are marked ready and the match starts, if it can. Gives
    /// the start packet, for every guest, and the input delay to play
    /// with: the negotiated one, never below the minimum.
    pub fn start_when_two_present(&mut self, events: &mut Vec<LobbyEvent>) -> (r: Option<(Packet, u32)>)
        requires
            rtts_fit(old(self)@),
        ensures
            ({
                let m = old(self)@;
                let m2 = both_readied(m);
                if m.peers.len() < 2 {
                    &&& final(self)@ == m
                    &&& r is None
                    &&& final(events)@ == old(events)@
                } else if can_start_spec(m2) {
                    &&& final(self)@ == (LobbyModel { started: true, ..m2 })
                    &&& r == Some((Packet::Start, if negotiated_delay(m) < MIN_INPUT_DELAY {
                        MIN_INPUT_DELAY
                    } else {
                        negotiated_delay(m)
                    }))
                    &&& event_views(final(events)@) == event_views(old(events)@) + ready_events(m, 0)
                        + ready_events(readied(m, 0), 1) + seq![
                        EventView::Starting {
                            seed: m.seed,
                            input_delay: negotiated_delay(m),
                            players: m2.peers.map_values(|p: PeerView| p.id),
                        },
                    ]
                } else {
                    &&& final(self)@ == m2
                    &&& r is None
                    &&& event_views(final(events)@) == event_views(old(events)@) + ready_events(m, 0)
                        + ready_events(readied(m, 0), 1)
                }
            }),
    {
        if self.peers.len() < 2 {
            return None;
        }
        let ghost m = self@;
        let ghost e0 = event_views(events@);
        proof {
            lemma_index_parts(m.peers, unspecified(), 0);
            lemma_readied_keeps_rtts(m, 0);
        }
        self.set_ready(PlayerId(0), true, events);
        assert(self@ == readied(m, 0));
        assert(event_views(events@) =~= e0 + ready_events(m, 0));
        let ghost m1 = self@;
        let ghost e1 = event_views(events@);
        proof {
            lemma_index_parts(m1.peers, unspecified(), 1);
            lemma_readied_keeps_rtts(m1, 1);
        }
        self.set_ready(PlayerId(1), true, events);
        assert(self@ == readied(m1, 1));
        assert(event_views(events@) =~= e1 + ready_events(m1, 1));
        let ghost e2 = event_views(events@);
        match self.start(events) {
            Some(start) => {
                assert(event_views(events@) =~= e2 + seq![
                    EventView::Starting {
                        seed: m.seed,
                        input_delay: negotiated_delay(m),
                        players: self@.peers.map_values(|p: PeerView| p.id),
                    },
                ]);
                let delay = self.negotiated_input_delay();
                let delay = if delay < MIN_INPUT_DELAY {
                    MIN_INPUT_DELAY
                } else {
                    delay
                };
                Some((start, delay))
            },
            None => None,
        }
    }

    /// Addresses to send gameplay traffic to: everyone but the host.
    pub fn peer_addresses(&self) -> (r: Vec<Address>)
        ensures
            r@ == guest_addresses(self@.peers),
    {
        let ghost s = self@.peers;
        let mut out: Vec<Address> = Vec::new();
        let mut i: usize = 0;
        assert(s.take(0) =~= Seq::<PeerView>::empty());
        while i < self.peers.len()
            invariant
                i <= self.peers@.len(),
                s == peer_views(self.peers@),
                out@ == guest_addresses(s.take(i as int)),
            decreases self.peers@.len() - i,
        {
            assert(s.take(i + 1).drop_last() =~= s.take(i as int));
            assert(s.take(i + 1).last() == s[i as int]);
            if self.peers[i].id.0 != 0 {
                out.push(self.peers[i].address);
            }
            i = i + 1;
        }
        assert(s.take(s.len() as int) =~= s);
        out
    }
}

/// Filtering never lengthens the list.
proof fn lemma_still_heard_len(s: Seq<PeerView>, now: u64)
    ensures
        still_heard(s, now).len() <= s.len(),
    decreases s.len(),
{
    if s.len() > 0 {
        lemma_still_heard_len(s.drop_last(), now);
    }
}

} // verus!
