//! The decisions of a running match that do not need the simulation in
//! front of them: what goes into each outgoing turn packet, what an
//! incoming packet does to the scheduler, when the player is told the match
//! is stalled, and where two recordings part ways.
//!
//! Single-player is a match with one peer: the same scheduler, the same
//! command queue, the same replay recording. Only the link differs, by
//! being absent.

use vstd::prelude::*;
use crate::command::{command_views, copy_commands, Command, CommandView, PlayerId, Tick};
use crate::lockstep::{
    accept_spec, check_spec, DesyncReport, SchedulerModel, TurnScheduler, take_fits,
    take_outgoing_spec, outgoing_view,
};
use crate::protocol::{
    turn_view, Packet, PacketView, StateCheck, TurnCommands, TurnView, packet_view,
    DEFAULT_GAME_PORT, DISCOVERY_PORT, REDUNDANT_TICKS,
};
use crate::text::copy_text;

verus! {

/// Ticks the session will run in a single update. Catching up gradually
/// after a long stall is better than catching up all at once.
pub const MAX_TICKS_PER_UPDATE: u32 = 8;

/// How long the match must be stalled before the player is told, in
/// milliseconds. Measured in real time, not in polls, so it means the same
/// on every display.
pub const STALL_NOTICE_DELAY_MS: u64 = 500;

/// What happened during an update.
pub struct SessionUpdate {
    pub ticks_run: u32,
    /// Players whose commands the session is waiting on.
    pub waiting_on: Vec<PlayerId>,
    /// How long the match has been waiting, in milliseconds.
    pub stalled_for_ms: u64,
    /// The most recent tick a peer confirmed, and the hash both sides
    /// agreed on.
    pub last_verified: Option<(Tick, u64)>,
    /// Hash comparisons that agreed, over the match.
    pub comparisons_made: u32,
    pub desync: Option<DesyncReport>,
}

impl Default for SessionUpdate {
    /// Nothing ran, nobody is awaited, nothing was found.
    fn default() -> (r: SessionUpdate)
        ensures
            r.ticks_run == 0,
            r.waiting_on@.len() == 0,
            r.stalled_for_ms == 0,
            r.last_verified is None,
            r.comparisons_made == 0,
            r.desync is None,
    {
        SessionUpdate {
            ticks_run: 0,
            waiting_on: Vec::new(),
            stalled_for_ms: 0,
            last_verified: None,
            comparisons_made: 0,
            desync: None,
        }
    }
}

impl SessionUpdate {
    /// Whether the player should be told the match is stalled: someone is
    /// awaited, and has been for long enough to be a real pause.
    pub fn should_show_stall_notice(&self) -> (r: bool)
        ensures
            r == (self.waiting_on@.len() > 0 && self.stalled_for_ms >= STALL_NOTICE_DELAY_MS),
    {
        self.waiting_on.len() > 0 && self.stalled_for_ms >= STALL_NOTICE_DELAY_MS
    }
}

/// How to reach the network.
pub struct NetOptions {
    pub port: u16,
    pub name: String,
    /// Discovery port. Overridable so two clients can run on one machine.
    pub discovery_port: u16,
}

impl Default for NetOptions {
    /// The well-known ports, and a generic player name.
    fn default() -> (r: NetOptions)
        ensures
            r.port == DEFAULT_GAME_PORT,
            r.name@ == "player"@,
            r.discovery_port == DISCOVERY_PORT,
    {
        NetOptions { port: DEFAULT_GAME_PORT, name: String::from_str("player"), discovery_port: DISCOVERY_PORT }
    }
}

/// A match seed from a reading of the clock, in nanoseconds since the
/// epoch (`None` when the clock reads before it), so consecutive matches on
/// one machine do not replay identically. Always odd.
pub fn seed_from_clock(nanos: Option<u128>) -> (r: u64)
    ensures
        r == (match nanos {
            Some(n) => n as u64,
            None => 0x5EEDu64,
        }) | 1,
        r % 2 == 1,
{
    let base: u64 = match nanos {
        Some(n) => n as u64,
        None => 0x5EED,
    };
    let r = base | 1;
    assert(r % 2 == 1) by (bit_vector)
        requires
            r == base | 1,
    ;
    r
}

/// Whether `i` is where two recordings part ways: they agree before it,
/// and at it they differ, or one of them has ended while the other goes on.
pub open spec fn diverges_at(a: Seq<u64>, b: Seq<u64>, i: int) -> bool {
    let n = if a.len() < b.len() {
        a.len() as int
    } else {
        b.len() as int
    };
    &&& 0 <= i <= n
    &&& forall|j: int| 0 <= j < i ==> a[j] == b[j]
    &&& i < n ==> a[i] != b[i]
    &&& i == n ==> a.len() != b.len()
}

/// The first tick at which two recordings of per-tick hashes diverge, if
/// they do: the offline half of desync diagnosis.
pub fn first_divergence(a: &[u64], b: &[u64]) -> (r: Option<Tick>)
    ensures
        match r {
            Some(t) => exists|i: int| diverges_at(a@, b@, i) && t == i as u32,
            None => a@ == b@,
        },
{
    let n = if a.len() < b.len() {
        a.len()
    } else {
        b.len()
    };
    let mut i: usize = 0;
    while i < n
        invariant
            i <= n,
            n == if a@.len() < b@.len() {
                a@.len()
            } else {
                b@.len()
            },
            forall|j: int| 0 <= j < i ==> a@[j] == b@[j],
        decreases n - i,
    {
        if a[i] != b[i] {
            assert(diverges_at(a@, b@, i as int));
            return Some(i as Tick);
        }
        i = i + 1;
    }
    if a.len() != b.len() {
        assert(diverges_at(a@, b@, n as int));
        Some(n as Tick)
    } else {
        assert(a@ =~= b@);
        None
    }
}

/// The divergence point is unique: two recordings part ways in one place.
pub proof fn lemma_divergence_unique(a: Seq<u64>, b: Seq<u64>, i: int, k: int)
    requires
        diverges_at(a, b, i),
        diverges_at(a, b, k),
    ensures
        i == k,
{
    if i < k {
        assert(a[i] == b[i]);
    } else if k < i {
        assert(a[k] == b[k]);
    }
}

/// The turns a networked session keeps repeating, and the state hash
/// waiting to go out with the next packet.
pub struct NetLink {
    /// Recent turns, oldest first, at most `REDUNDANT_TICKS` of them.
    history: Vec<TurnCommands>,
    /// A hash captured when its tick executed, waiting to be sent. Captured
    /// at execution rather than at send time: a peer can run several ticks
    /// between packets, and a checkpoint never sent is never compared.
    pending_hash: Option<StateCheck>,
}

/// What a link holds.
pub struct LinkModel {
    pub history: Seq<TurnView>,
    pub pending_hash: Option<StateCheck>,
}

/// The turns kept after one more is taken: the newest `REDUNDANT_TICKS`.
pub open spec fn kept_turns(history: Seq<TurnView>, turn: TurnView) -> Seq<TurnView> {
    let h = history.push(turn);
    if h.len() > REDUNDANT_TICKS {
        h.skip(h.len() - REDUNDANT_TICKS)
    } else {
        h
    }
}

impl View for NetLink {
    type V = LinkModel;

    closed spec fn view(&self) -> LinkModel {
        LinkModel {
            history: self.history@.map_values(|t: TurnCommands| turn_view(t)),
            pending_hash: self.pending_hash,
        }
    }
}

/// A copy of a turn.
fn copy_turn(t: &TurnCommands) -> (r: TurnCommands)
    ensures
        turn_view(r) == turn_view(*t),
{
    TurnCommands { tick: t.tick, player: t.player, commands: copy_commands(&t.commands) }
}

/// The packet a link sends: the kept turns, newest first, and the pending
/// hash. Nothing when no turn has been taken yet.
pub open spec fn turn_packet(l: LinkModel, scheduled: Tick) -> Option<PacketView> {
    if l.history.len() == 0 {
        None
    } else {
        Some(PacketView::Turn { tick: scheduled, turns: l.history.reverse(), hash: l.pending_hash })
    }
}

impl NetLink {
    #[verifier::type_invariant]
    spec fn well_formed(&self) -> bool {
        self.history@.len() <= REDUNDANT_TICKS
    }

    /// A link with nothing sent yet.
    pub fn new() -> (r: NetLink)
        ensures
            r@.history == Seq::<TurnView>::empty(),
            r@.pending_hash is None,
    {
        let r = NetLink { history: Vec::new(), pending_hash: None };
        assert(r@.history =~= Seq::<TurnView>::empty());
        r
    }

    /// Remembers a turn for repetition, forgetting the oldest beyond the
    /// redundancy window.
    pub fn record_turn(&mut self, turn: TurnCommands)
        ensures
            final(self)@.history == kept_turns(old(self)@.history, turn_view(turn)),
            final(self)@.pending_hash == old(self)@.pending_hash,
            final(self)@.history.len() <= REDUNDANT_TICKS,
    {
        proof {
            use_type_invariant(&*self);
        }
        let mut h = copy_turns(&self.history);
        let ghost hv = old(self)@.history.push(turn_view(turn));
        h.push(turn);
        assert(h@.map_values(|t: TurnCommands| turn_view(t)) =~= hv);
        if h.len() > REDUNDANT_TICKS {
            h.remove(0);
            assert(h@.map_values(|t: TurnCommands| turn_view(t)) =~= hv.skip(hv.len() - REDUNDANT_TICKS));
        }
        self.history = h;
    }

    /// Keeps a state hash to send with the next packet.
    pub fn capture_hash(&mut self, check: StateCheck)
        ensures
            final(self)@.history == old(self)@.history,
            final(self)@.pending_hash == Some(check),
    {
        proof {
            use_type_invariant(&*self);
        }
        self.pending_hash = Some(check);
    }

    /// The packet to send now, if any turn has been taken; the pending hash
    /// goes with it and is then spent.
    pub fn compose(&mut self, scheduled: Tick) -> (r: Option<Packet>)
        ensures
            match r {
                Some(p) => turn_packet(old(self)@, scheduled) == Some(packet_view(p)),
                None => turn_packet(old(self)@, scheduled) is None,
            },
            final(self)@.history == old(self)@.history,
            final(self)@.pending_hash == if old(self)@.history.len() == 0 {
                old(self)@.pending_hash
            } else {
                None
            },
    {
        proof {
            use_type_invariant(&*self);
        }
        if self.history.len() == 0 {
            return None;
        }
        let ghost hv = self@.history;
        let mut turns: Vec<TurnCommands> = Vec::new();
        let mut k: usize = self.history.len();
        while k > 0
            invariant
                k <= self.history@.len(),
                hv == self.history@.map_values(|t: TurnCommands| turn_view(t)),
                turns@.map_values(|t: TurnCommands| turn_view(t)) == hv.skip(k as int).reverse(),
            decreases k,
        {
            k = k - 1;
            let ghost before = turns@;
            let c = copy_turn(&self.history[k]);
            turns.push(c);
            proof {
                assert(hv.skip(k as int) =~= seq![hv[k as int]] + hv.skip(k + 1));
                assert(hv.skip(k as int).reverse() =~= hv.skip(k + 1).reverse().push(hv[k as int]));
                assert(turns@.map_values(|t: TurnCommands| turn_view(t)) =~= before.map_values(
                    |t: TurnCommands| turn_view(t),
                ).push(turn_view(c)));
            }
        }
        assert(hv.skip(0) =~= hv);
        let hash = self.pending_hash;
        self.pending_hash = None;
        Some(Packet::Turn { tick: scheduled, turns, hash })
    }
}

/// A copy of a list of turns.
fn copy_turns(v: &Vec<TurnCommands>) -> (r: Vec<TurnCommands>)
    ensures
        r@.map_values(|t: TurnCommands| turn_view(t)) == v@.map_values(|t: TurnCommands| turn_view(t)),
{
    let mut out: Vec<TurnCommands> = Vec::new();
    let mut i: usize = 0;
    while i < v.len()
        invariant
            i <= v@.len(),
            out@.map_values(|t: TurnCommands| turn_view(t)) == v@.take(i as int).map_values(
                |t: TurnCommands| turn_view(t),
            ),
        decreases v@.len() - i,
    {
        let ghost before = out@;
        let c = copy_turn(&v[i]);
        out.push(c);
        assert(v@.take(i + 1) =~= v@.take(i as int).push(v@[i as int]));
        assert(out@.map_values(|t: TurnCommands| turn_view(t)) =~= before.map_values(
            |t: TurnCommands| turn_view(t),
        ).push(turn_view(c)));
        assert(v@.take(i + 1).map_values(|t: TurnCommands| turn_view(t)) =~= v@.take(
            i as int,
        ).map_values(|t: TurnCommands| turn_view(t)).push(turn_view(v@[i as int])));
        i = i + 1;
    }
    assert(v@.take(v@.len() as int) =~= v@);
    out
}

/// Sends a turn before each tick is attempted: takes the scheduler's next
/// local turn into the link when it has one, then composes the packet.
/// A packet still goes out when the scheduler is throttled: it repeats
/// recent turns, which is exactly what a peer waiting on us needs.
pub fn send_turn(scheduler: &mut TurnScheduler, link: &mut NetLink) -> (r: Option<Packet>)
    requires
        take_fits(old(scheduler)@),
    ensures
        ({
            let (m, taken) = take_outgoing_spec(old(scheduler)@);
            let l1 = match taken {
                Some((tick, cmds)) => LinkModel {
                    history: kept_turns(
                        old(link)@.history,
                        TurnView { tick, player: old(scheduler)@.local_player, commands: cmds },
                    ),
                    pending_hash: old(link)@.pending_hash,
                },
                None => old(link)@,
            };
            &&& final(scheduler)@ == m
            &&& final(link)@.history == l1.history
            &&& match r {
                Some(p) => turn_packet(l1, m.next_outgoing) == Some(packet_view(p)),
                None => turn_packet(l1, m.next_outgoing) is None,
            }
        }),
{
    let local = scheduler.local_player();
    let outgoing = scheduler.take_outgoing();
    let scheduled = scheduler.scheduled_tick();
    match outgoing {
        Some((tick, commands)) => {
            link.record_turn(TurnCommands { tick, player: local, commands });
        },
        None => {},
    }
    link.compose(scheduled)
}

/// Every turn of a packet delivered to the scheduler, in order.
pub open spec fn accept_turns(m: SchedulerModel, turns: Seq<TurnView>) -> SchedulerModel
    decreases turns.len(),
{
    if turns.len() == 0 {
        m
    } else {
        let t = turns.last();
        accept_spec(accept_turns(m, turns.drop_last()), t.tick, t.player, t.commands)
    }
}

/// The peer a hash report came from. Two-player matches only for now: the
/// sender is whichever player this peer is not.
pub open spec fn other_player(local: u8) -> u8 {
    if local == 0 {
        1
    } else {
        0
    }
}

/// What an incoming packet does: a turn packet delivers its turns and has
/// its hash checked; a halt from a peer that found a divergence first is
/// handed back so the session stops at the same tick as that peer.
pub open spec fn receive_spec(m: SchedulerModel, p: PacketView) -> (SchedulerModel, Option<DesyncReport>) {
    match p {
        PacketView::Turn { turns, hash, .. } => {
            let m1 = accept_turns(m, turns);
            match hash {
                Some(check) => (check_spec(m1, other_player(m.local_player), check.tick, check.hash), None),
                None => (m1, None),
            }
        },
        PacketView::DesyncHalt { tick, sender_hash, expected_hash } => (
            m,
            Some(
                DesyncReport {
                    tick,
                    local_hash: expected_hash,
                    remote_player: PlayerId(0),
                    remote_hash: sender_hash,
                },
            ),
        ),
        _ => (m, None),
    }
}

/// Deliveries leave the hash counters alone.
proof fn lemma_accept_turns_counters(m: SchedulerModel, turns: Seq<TurnView>)
    ensures
        accept_turns(m, turns).comparisons_made == m.comparisons_made,
        accept_turns(m, turns).local_player == m.local_player,
    decreases turns.len(),
{
    if turns.len() > 0 {
        lemma_accept_turns_counters(m, turns.drop_last());
    }
}

/// Hands an incoming packet to the scheduler.
pub fn receive_packet(scheduler: &mut TurnScheduler, packet: Packet) -> (r: Option<DesyncReport>)
    requires
        old(scheduler)@.comparisons_made < u32::MAX,
    ensures
        (final(scheduler)@, r) == receive_spec(old(scheduler)@, packet_view(packet)),
{
    match packet {
        Packet::Turn { turns, hash, .. } => {
            let ghost tv = turns@.map_values(|t: TurnCommands| turn_view(t));
            let ghost m0 = scheduler@;
            let mut rest = turns;
            let ghost all = rest@;
            let total = rest.len();
            let mut i: usize = 0;
            assert(tv.take(0) =~= Seq::<TurnView>::empty());
            while rest.len() > 0
                invariant
                    i <= all.len(),
                    i + rest@.len() == all.len(),
                    all.len() == total,
                    rest@ == all.skip(i as int),
                    tv == all.map_values(|t: TurnCommands| turn_view(t)),
                    scheduler@ == accept_turns(m0, tv.take(i as int)),
                decreases rest@.len(),
            {
                let t = rest.remove(0);
                proof {
                    assert(all.skip(i as int)[0] == all[i as int]);
                    assert(all.skip(i as int).drop_first() =~= all.skip(i + 1));
                    assert(tv.take(i + 1).drop_last() =~= tv.take(i as int));
                    assert(tv.take(i + 1).last() == turn_view(t));
                }
                scheduler.accept(t.tick, t.player, t.commands);
                i = i + 1;
            }
            assert(tv.take(i as int) =~= tv);
            proof {
                lemma_accept_turns_counters(m0, tv);
            }
            match hash {
                Some(check) => {
                    let local = scheduler.local_player();
                    let sender = if local.0 == 0 {
                        PlayerId(1)
                    } else {
                        PlayerId(0)
                    };
                    scheduler.check_remote_hash(sender, check.tick, check.hash);
                },
                None => {},
            }
            None
        },
        Packet::DesyncHalt { tick, sender_hash, expected_hash } => Some(
            DesyncReport {
                tick,
                local_hash: expected_hash,
                remote_player: PlayerId(0),
                remote_hash: sender_hash,
            },
        ),
        _ => None,
    }
}

/// Deliveries keep what was held: no key is lost, and the tick, players
/// and counters are left alone.
proof fn lemma_accept_turns_keeps(m: SchedulerModel, turns: Seq<TurnView>, k: u64)
    ensures
        m.pending.contains_key(k) ==> accept_turns(m, turns).pending.contains_key(k),
        accept_turns(m, turns).next_tick == m.next_tick,
        accept_turns(m, turns).players == m.players,
    decreases turns.len(),
{
    if turns.len() > 0 {
        lemma_accept_turns_keeps(m, turns.drop_last(), k);
    }
}

/// What a peer sends reaches the other: after a turn packet arrives, the
/// receiver holds commands for every turn it carries whose tick it has not
/// yet run and whose player is in its match.
pub proof fn lemma_sent_turns_are_held(m: SchedulerModel, turns: Seq<TurnView>, i: int)
    requires
        0 <= i < turns.len(),
        turns[i].tick >= m.next_tick,
        crate::lockstep::has_player(m.players, turns[i].player),
    ensures
        accept_turns(m, turns).pending.contains_key(
            crate::lockstep::turn_key(turns[i].tick, turns[i].player),
        ),
    decreases turns.len(),
{
    let key = crate::lockstep::turn_key(turns[i].tick, turns[i].player);
    let init = turns.drop_last();
    if i < turns.len() - 1 {
        assert(init[i] == turns[i]);
        lemma_sent_turns_are_held(m, init, i);
    } else {
        lemma_accept_turns_keeps(m, init, key);
    }
    lemma_accept_turns_keeps(m, init, key);
}

/// Whichever way a packet's turns arrive, a repeated turn changes
/// nothing: a packet that only repeats turns already delivered leaves the
/// scheduler as it was.
pub proof fn lemma_repeated_turns_change_nothing(m: SchedulerModel, turns: Seq<TurnView>)
    requires
        forall|i: int|
            0 <= i < turns.len() ==> ((#[trigger] turns[i]).tick < m.next_tick || m.pending.contains_key(
                crate::lockstep::turn_key(turns[i].tick, turns[i].player),
            ) || !crate::lockstep::has_player(m.players, turns[i].player)),
    ensures
        accept_turns(m, turns) == m,
    decreases turns.len(),
{
    if turns.len() > 0 {
        assert forall|i: int| 0 <= i < turns.drop_last().len() implies ((#[trigger] turns.drop_last()[i]).tick < m.next_tick
            || m.pending.contains_key(
            crate::lockstep::turn_key(turns.drop_last()[i].tick, turns.drop_last()[i].player),
        ) || !crate::lockstep::has_player(m.players, turns.drop_last()[i].player)) by {
            assert(turns.drop_last()[i] == turns[i]);
        }
        lemma_repeated_turns_change_nothing(m, turns.drop_last());
        assert(turns[turns.len() - 1] == turns.last());
    }
}

/// What a peer that found a divergence tells the others before it halts:
/// the tick, its own hash as the sender's, and the disagreeing peer's as
/// the one expected.
pub fn halt_packet(report: &DesyncReport) -> (r: Packet)
    ensures
        packet_view(r) == (PacketView::DesyncHalt {
            tick: report.tick,
            sender_hash: report.local_hash,
            expected_hash: report.remote_hash,
        }),
{
    Packet::DesyncHalt {
        tick: report.tick,
        sender_hash: report.local_hash,
        expected_hash: report.remote_hash,
    }
}

} // verus!
