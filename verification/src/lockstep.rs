//! Turn scheduling: the rule that decides when a tick may run.
//!
//! A peer may execute tick `N` only once it holds **every** player's
//! commands for tick `N`. If one is missing, the simulation waits. It never
//! guesses, extrapolates, or runs ahead — a wrong guess is a desync, and a
//! desync ends the match.
//!
//! Commands issued at tick `N` execute at tick `N + D`, where `D` is the
//! input delay: enough ticks for a packet to reach every peer.
//!
//! This module is transport-free. It decides *what may run when*, and is
//! driven by whatever moves bytes.

use vstd::prelude::*;
use std::collections::BTreeMap;
use crate::command::{command_view, command_views, copy_commands, in_total_order, lemma_order_sort_sorted, order_sort, sort_commands,
    Command, CommandView, PlayerId, Tick};

verus! {

/// Input delay bounds, in ticks. At 20 Hz each tick is 50 ms.
pub const MIN_INPUT_DELAY: u32 = 2;

pub const MAX_INPUT_DELAY: u32 = 10;

/// Ticks between state hash comparisons — once per second at 20 Hz.
pub const HASH_INTERVAL: u32 = 20;

/// How many executed ticks' hashes to retain for comparison.
pub const HASH_HISTORY: usize = 64;

/// `v` held within `[lo, hi]`.
pub open spec fn clamp(v: int, lo: int, hi: int) -> int {
    if v < lo {
        lo
    } else if v > hi {
        hi
    } else {
        v
    }
}

/// The input delay a round trip calls for: one and a half round trips,
/// rounded up to whole ticks, within the delay bounds.
pub open spec fn delay_for_rtt(rtt_ms: int, tick_ms: int) -> int {
    let needed = rtt_ms + rtt_ms / 2;
    let t = if tick_ms < 1 {
        1
    } else {
        tick_ms
    };
    clamp((needed + t - 1) / t, MIN_INPUT_DELAY as int, MAX_INPUT_DELAY as int)
}

/// Chooses an input delay from a measured round trip.
///
/// Rounds up: too much delay costs a little responsiveness, too little costs
/// a stall on every packet that arrives late.
pub fn input_delay_for_rtt(rtt_ms: u32, tick_ms: u32) -> (r: u32)
    requires
        rtt_ms + rtt_ms / 2 <= u32::MAX,
    ensures
        r == delay_for_rtt(rtt_ms as int, tick_ms as int),
        MIN_INPUT_DELAY <= r <= MAX_INPUT_DELAY,
{
    // Half the round trip is the one-way time; a full round trip of headroom
    // on top absorbs ordinary jitter.
    let needed = rtt_ms + rtt_ms / 2;
    let t: u32 = if tick_ms < 1 {
        1
    } else {
        tick_ms
    };
    let q: u32 = needed / t;
    let extra: u32 = if needed % t != 0 {
        1u32
    } else {
        0u32
    };
    assert(extra == 1 ==> q < u32::MAX) by (nonlinear_arith)
        requires
            t >= 1,
            q == needed / t,
            extra == 1 ==> needed % t != 0,
            needed <= u32::MAX,
    ;
    let ticks: u32 = q + extra;
    assert(ticks as int == (needed as int + t as int - 1) / (t as int)) by (nonlinear_arith)
        requires
            t >= 1,
            ticks as int == needed / t + if needed % t != 0 {
                1int
            } else {
                0int
            },
    ;
    if ticks < MIN_INPUT_DELAY {
        MIN_INPUT_DELAY
    } else if ticks > MAX_INPUT_DELAY {
        MAX_INPUT_DELAY
    } else {
        ticks
    }
}

/// A longer round trip never gets a shorter delay.
pub proof fn lemma_delay_monotonic(rtt1: u32, rtt2: u32, tick_ms: u32)
    requires
        rtt1 <= rtt2,
    ensures
        delay_for_rtt(rtt1 as int, tick_ms as int) <= delay_for_rtt(rtt2 as int, tick_ms as int),
{
    let t: int = if tick_ms < 1 {
        1
    } else {
        tick_ms as int
    };
    let n1 = rtt1 + rtt1 / 2;
    let n2 = rtt2 + rtt2 / 2;
    assert(rtt1 / 2 <= rtt2 / 2) by (nonlinear_arith)
        requires
            rtt1 <= rtt2,
    ;
    assert((n1 + t - 1) / t <= (n2 + t - 1) / t) by (nonlinear_arith)
        requires
            n1 <= n2,
            t >= 1,
    ;
}

/// The delay covers the time it is meant to: a delay short of one and a
/// half round trips only happens at the ceiling.
pub proof fn lemma_delay_covers_rtt(rtt: u32, tick_ms: u32)
    requires
        tick_ms >= 1,
    ensures
        delay_for_rtt(rtt as int, tick_ms as int) * tick_ms >= if rtt + rtt / 2 <= MAX_INPUT_DELAY
            * tick_ms {
            rtt + rtt / 2
        } else {
            MAX_INPUT_DELAY * tick_ms
        },
{
    let t = tick_ms as int;
    let needed = rtt + rtt / 2;
    let c = (needed + t - 1) / t;
    assert(c * t >= needed) by (nonlinear_arith)
        requires
            t >= 1,
            c == (needed + t - 1) / t,
            needed >= 0,
    ;
    let d = delay_for_rtt(rtt as int, tick_ms as int);
    assert(d >= c || d == MAX_INPUT_DELAY);
    if d >= c {
        assert(d * t >= c * t) by (nonlinear_arith)
            requires
                d >= c,
                t >= 1,
        ;
    }
}

/// Everything known about a divergence at the moment it was detected.
#[derive(Clone, Copy, PartialEq, Eq, Debug, Structural)]
pub struct DesyncReport {
    pub tick: Tick,
    /// This peer's hash.
    pub local_hash: u64,
    /// The peer that disagreed, and what it had.
    pub remote_player: PlayerId,
    pub remote_hash: u64,
}

/// What the scheduler wants the caller to do next.
#[derive(Clone, PartialEq, Eq, Debug)]
pub enum TurnStatus {
    /// Every player's commands are in. Run the tick with these, in this
    /// order.
    Ready(Vec<Command>),
    /// Waiting on the listed players. Do not advance.
    Waiting { tick: Tick, missing: Vec<PlayerId> },
    /// A hash mismatch was found. The match is over; do not continue.
    Desynced(DesyncReport),
}

/// What a poll answers.
pub enum StatusModel {
    Ready(Seq<CommandView>),
    Waiting(Tick, Seq<u8>),
    Desynced(DesyncReport),
}

/// The player numbers in a list of players.
pub open spec fn player_numbers(s: Seq<PlayerId>) -> Seq<u8> {
    s.map_values(|p: PlayerId| p.0)
}

/// What a status holds.
pub open spec fn status_view(s: TurnStatus) -> StatusModel {
    match s {
        TurnStatus::Ready(v) => StatusModel::Ready(command_views(v@)),
        TurnStatus::Waiting { tick, missing } => StatusModel::Waiting(tick, player_numbers(missing@)),
        TurnStatus::Desynced(r) => StatusModel::Desynced(r),
    }
}

/// What a scheduler holds.
pub struct SchedulerModel {
    pub local_player: u8,
    /// Every player in the match, in increasing order, each once.
    pub players: Seq<u8>,
    pub input_delay: u32,
    /// The next tick to execute.
    pub next_tick: Tick,
    /// The tick number the next outgoing turn will carry.
    pub next_outgoing: Tick,
    /// Commands received, keyed by tick and player.
    pub pending: Map<u64, Seq<CommandView>>,
    /// Hashes this peer produced, by tick, in increasing tick order.
    pub local_hashes: Seq<(Tick, u64)>,
    /// Local commands not yet scheduled.
    pub outbox: Seq<CommandView>,
    pub next_sequence: u16,
    pub desync: Option<DesyncReport>,
    /// Consecutive polls spent waiting.
    pub stalled_polls: u32,
    /// The most recent tick at which a peer's hash matched our own.
    pub last_verified: Option<(Tick, u64)>,
    /// Hash comparisons that agreed.
    pub comparisons_made: u32,
}

/// Where a player's commands for a tick are kept.
pub open spec fn turn_key(tick: Tick, player: u8) -> u64 {
    (tick as int * 256 + player as int) as u64
}

/// Different ticks or players never share a key.
pub proof fn lemma_turn_key(t1: Tick, p1: u8, t2: Tick, p2: u8)
    ensures
        turn_key(t1, p1) as int == t1 as int * 256 + p1 as int,
        (turn_key(t1, p1) == turn_key(t2, p2)) <==> (t1 == t2 && p1 == p2),
        turn_key(t1, p1) / 256 == t1,
        turn_key(t1, p1) % 256 == p1,
{
    assert(0 <= t1 as int * 256 + p1 as int <= u64::MAX) by (nonlinear_arith)
        requires
            t1 <= u32::MAX,
            p1 <= 255,
    ;
    assert(0 <= t2 as int * 256 + p2 as int <= u64::MAX) by (nonlinear_arith)
        requires
            t2 <= u32::MAX,
            p2 <= 255,
    ;
    let k1 = t1 as int * 256 + p1 as int;
    let k2 = t2 as int * 256 + p2 as int;
    assert(k1 / 256 == t1 && k1 % 256 == p1) by (nonlinear_arith)
        requires
            k1 == t1 as int * 256 + p1 as int,
            0 <= p1 < 256,
            t1 >= 0,
    ;
    assert(k2 / 256 == t2 && k2 % 256 == p2) by (nonlinear_arith)
        requires
            k2 == t2 as int * 256 + p2 as int,
            0 <= p2 < 256,
            t2 >= 0,
    ;
}

fn turn_key_exec(tick: Tick, player: u8) -> (r: u64)
    ensures
        r == turn_key(tick, player),
{
    proof {
        lemma_turn_key(tick, player, tick, player);
    }
    (tick as u64) * 256 + (player as u64)
}

/// Whether a list of player numbers holds `p`.
pub open spec fn has_player(players: Seq<u8>, p: u8) -> bool {
    exists|i: int| 0 <= i < players.len() && #[trigger] players[i] == p
}

/// The players whose commands for `tick` have not arrived, in order.
pub open spec fn missing_players(pending: Map<u64, Seq<CommandView>>, tick: Tick, ps: Seq<u8>) -> Seq<u8>
    decreases ps.len(),
{
    if ps.len() == 0 {
        Seq::empty()
    } else {
        missing_players(pending, tick, ps.drop_last()) + if pending.contains_key(
            turn_key(tick, ps.last()),
        ) {
            Seq::<u8>::empty()
        } else {
            seq![ps.last()]
        }
    }
}

/// Every player's commands for `tick`, player by player.
pub open spec fn gathered(pending: Map<u64, Seq<CommandView>>, tick: Tick, ps: Seq<u8>) -> Seq<CommandView>
    decreases ps.len(),
{
    if ps.len() == 0 {
        Seq::empty()
    } else {
        gathered(pending, tick, ps.drop_last()) + pending[turn_key(tick, ps.last())]
    }
}

/// `pending` without the commands for `tick` of these players.
pub open spec fn without_tick(pending: Map<u64, Seq<CommandView>>, tick: Tick, ps: Seq<u8>) -> Map<
    u64,
    Seq<CommandView>,
>
    decreases ps.len(),
{
    if ps.len() == 0 {
        pending
    } else {
        without_tick(pending, tick, ps.drop_last()).remove(turn_key(tick, ps.last()))
    }
}

/// Recording a player's commands for a tick. Duplicates are ignored, so the
/// redundant copies every packet carries cost nothing; commands for ticks
/// already executed, and from players not in the match, are dropped.
pub open spec fn accept_spec(m: SchedulerModel, tick: Tick, player: u8, cmds: Seq<CommandView>) -> SchedulerModel {
    if tick < m.next_tick || !has_player(m.players, player) || m.pending.contains_key(
        turn_key(tick, player),
    ) {
        m
    } else {
        SchedulerModel { pending: m.pending.insert(turn_key(tick, player), cmds), ..m }
    }
}

/// Asking whether the next tick may run: what the scheduler becomes, and
/// what it answers.
pub open spec fn poll_spec(m: SchedulerModel) -> (SchedulerModel, StatusModel) {
    match m.desync {
        Some(report) => (m, StatusModel::Desynced(report)),
        None => {
            let missing = missing_players(m.pending, m.next_tick, m.players);
            if missing.len() > 0 {
                (
                    SchedulerModel { stalled_polls: (m.stalled_polls + 1) as u32, ..m },
                    StatusModel::Waiting(m.next_tick, missing),
                )
            } else {
                (
                    SchedulerModel {
                        pending: without_tick(m.pending, m.next_tick, m.players),
                        next_tick: (m.next_tick + 1) as u32,
                        stalled_polls: 0,
                        ..m
                    },
                    StatusModel::Ready(order_sort(gathered(m.pending, m.next_tick, m.players))),
                )
            }
        },
    }
}

/// How far the outgoing turn counter has run ahead of execution.
pub open spec fn in_flight(m: SchedulerModel) -> int {
    if m.next_outgoing >= m.next_tick {
        m.next_outgoing - m.next_tick
    } else {
        0
    }
}

/// Taking the next turn's local commands for transmission, recording them
/// locally at the same time: what the scheduler becomes, and what it hands
/// out. Nothing when the caller is already a full input delay ahead.
pub open spec fn take_outgoing_spec(m: SchedulerModel) -> (SchedulerModel, Option<(Tick, Seq<CommandView>)>) {
    if in_flight(m) > m.input_delay {
        (m, None)
    } else {
        let tick = m.next_outgoing;
        let m1 = SchedulerModel {
            next_outgoing: (m.next_outgoing + 1) as u32,
            outbox: Seq::empty(),
            next_sequence: 0,
            ..m
        };
        (accept_spec(m1, tick, m.local_player, m.outbox), Some((tick, m.outbox)))
    }
}

/// Queuing a command for a player this peer speaks for.
pub open spec fn issue_spec(m: SchedulerModel, player: u8, kind: Seq<u8>) -> SchedulerModel {
    SchedulerModel {
        outbox: m.outbox.push(CommandView { player, sequence: m.next_sequence, kind }),
        next_sequence: m.next_sequence.wrapping_add(1),
        ..m
    }
}

/// How many hashes come before `tick` in an increasing list.
pub open spec fn hash_pos(s: Seq<(Tick, u64)>, tick: Tick) -> int
    decreases s.len(),
{
    if s.len() == 0 {
        0
    } else if tick <= s[0].0 {
        0
    } else {
        1 + hash_pos(s.drop_first(), tick)
    }
}

/// The list with `hash` recorded for `tick`, replacing any hash it had.
pub open spec fn with_hash(s: Seq<(Tick, u64)>, tick: Tick, hash: u64) -> Seq<(Tick, u64)> {
    let p = hash_pos(s, tick);
    if p < s.len() && s[p].0 == tick {
        s.update(p, (tick, hash))
    } else {
        s.insert(p, (tick, hash))
    }
}

/// The list with its oldest entries dropped until it fits the history.
pub open spec fn trimmed(s: Seq<(Tick, u64)>) -> Seq<(Tick, u64)>
    decreases s.len(),
{
    if s.len() > HASH_HISTORY {
        trimmed(s.drop_first())
    } else {
        s
    }
}

/// The hash recorded for `tick`, if one is.
pub open spec fn hash_at(s: Seq<(Tick, u64)>, tick: Tick) -> Option<u64>
    decreases s.len(),
{
    if s.len() == 0 {
        None
    } else if s[0].0 == tick {
        Some(s[0].1)
    } else {
        hash_at(s.drop_first(), tick)
    }
}

/// Ticks strictly increase along the list.
pub open spec fn increasing_ticks(s: Seq<(Tick, u64)>) -> bool {
    forall|i: int, j: int| 0 <= i < j < s.len() ==> (#[trigger] s[i]).0 < (#[trigger] s[j]).0
}

/// Comparing a peer's hash for a tick against our own. A tick we no longer
/// have is not an error; only an actual disagreement counts.
pub open spec fn check_spec(m: SchedulerModel, player: u8, tick: Tick, remote: u64) -> SchedulerModel {
    if m.desync is Some {
        m
    } else {
        match hash_at(m.local_hashes, tick) {
            None => m,
            Some(local) => if local != remote {
                SchedulerModel {
                    desync: Some(
                        DesyncReport {
                            tick,
                            local_hash: local,
                            remote_player: PlayerId(player),
                            remote_hash: remote,
                        },
                    ),
                    ..m
                }
            } else {
                SchedulerModel {
                    comparisons_made: (m.comparisons_made + 1) as u32,
                    last_verified: match m.last_verified {
                        Some((seen, h)) => if tick > seen {
                            Some((tick, local))
                        } else {
                            Some((seen, h))
                        },
                        None => Some((tick, local)),
                    },
                    ..m
                }
            },
        }
    }
}

/// The player numbers `0..n` that occur in `input`, in increasing order.
pub open spec fn present_upto(input: Seq<PlayerId>, n: int) -> Seq<u8>
    decreases n,
{
    if n <= 0 {
        Seq::empty()
    } else {
        present_upto(input, n - 1) + if exists|i: int| 0 <= i < input.len() && #[trigger] input[i].0 == (n - 1) as u8 {
            seq![(n - 1) as u8]
        } else {
            Seq::<u8>::empty()
        }
    }
}

/// The keys the opening ticks are seeded with: every player, every tick
/// before the input delay.
pub open spec fn seeded(delay: u32, players: Seq<u8>) -> Map<u64, Seq<CommandView>> {
    Map::new(
        |k: u64| k / 256 < delay && has_player(players, (k % 256) as u8),
        |k: u64| Seq::<CommandView>::empty(),
    )
}

/// A scheduler as a match begins.
pub open spec fn new_spec(local: u8, input: Seq<PlayerId>, delay: u32) -> SchedulerModel {
    let d = clamp(delay as int, MIN_INPUT_DELAY as int, MAX_INPUT_DELAY as int) as u32;
    let players = present_upto(input, 256);
    SchedulerModel {
        local_player: local,
        players,
        input_delay: d,
        next_tick: 0,
        next_outgoing: d,
        pending: seeded(d, players),
        local_hashes: Seq::empty(),
        outbox: Seq::empty(),
        next_sequence: 0,
        desync: None,
        stalled_polls: 0,
        last_verified: None,
        comparisons_made: 0,
    }
}

/// Collects commands and decides when ticks may run.
#[derive(Debug)]
pub struct TurnScheduler {
    local_player: PlayerId,
    players: Vec<PlayerId>,
    input_delay: u32,
    next_tick: Tick,
    /// Commands received, keyed by tick and player. Walked in key order,
    /// which is identical on every peer.
    pending: BTreeMap<u64, Vec<Command>>,
    local_hashes: Vec<(Tick, u64)>,
    /// Deliberately independent of `next_tick`: a peer runs several ticks in
    /// one poll whenever a backlog clears, so deriving the outgoing number
    /// from execution progress would skip turn numbers — and a turn nobody
    /// ever sends is a tick nobody can ever run.
    next_outgoing: Tick,
    outbox: Vec<Command>,
    next_sequence: u16,
    desync: Option<DesyncReport>,
    stalled_polls: u32,
    last_verified: Option<(Tick, u64)>,
    comparisons_made: u32,
}

impl View for TurnScheduler {
    type V = SchedulerModel;

    closed spec fn view(&self) -> SchedulerModel {
        SchedulerModel {
            local_player: self.local_player.0,
            players: player_numbers(self.players@),
            input_delay: self.input_delay,
            next_tick: self.next_tick,
            next_outgoing: self.next_outgoing,
            pending: pending_view(self.pending@),
            local_hashes: self.local_hashes@,
            outbox: command_views(self.outbox@),
            next_sequence: self.next_sequence,
            desync: self.desync,
            stalled_polls: self.stalled_polls,
            last_verified: self.last_verified,
            comparisons_made: self.comparisons_made,
        }
    }
}

/// Player numbers strictly increase along the list.
pub open spec fn increasing_players(s: Seq<u8>) -> bool {
    forall|i: int, j: int| 0 <= i < j < s.len() ==> s[i] < s[j]
}

/// What every scheduler keeps true.
pub open spec fn scheduler_invariant(m: SchedulerModel) -> bool {
    &&& increasing_players(m.players)
    &&& has_player(m.players, m.local_player)
    &&& MIN_INPUT_DELAY <= m.input_delay <= MAX_INPUT_DELAY
    &&& in_flight(m) <= m.input_delay + 1
    &&& increasing_ticks(m.local_hashes)
    &&& m.local_hashes.len() <= HASH_HISTORY
}


/// A key below the largest tick's range names the tick and player it was
/// made from.
proof fn lemma_key_parts(k: u64)
    requires
        k / 256 <= u32::MAX,
    ensures
        turn_key((k / 256) as u32, (k % 256) as u8) == k,
{
    let t = (k / 256) as u32;
    let p = (k % 256) as u8;
    lemma_turn_key(t, p, t, p);
    assert(k == (k / 256) * 256 + k % 256) by (nonlinear_arith);
}

/// Removing other players' commands leaves a key's entry as it was.
proof fn lemma_without_tick_keeps(
    pending: Map<u64, Seq<CommandView>>,
    tick: Tick,
    ps: Seq<u8>,
    k: u64,
)
    requires
        forall|j: int| 0 <= j < ps.len() ==> turn_key(tick, #[trigger] ps[j]) != k,
    ensures
        without_tick(pending, tick, ps).contains_key(k) == pending.contains_key(k),
        pending.contains_key(k) ==> without_tick(pending, tick, ps)[k] == pending[k],
    decreases ps.len(),
{
    if ps.len() > 0 {
        assert forall|j: int| 0 <= j < ps.drop_last().len() implies turn_key(
            tick,
            #[trigger] ps.drop_last()[j],
        ) != k by {
            assert(ps.drop_last()[j] == ps[j]);
        }
        lemma_without_tick_keeps(pending, tick, ps.drop_last(), k);
        assert(turn_key(tick, ps[ps.len() - 1]) != k);
    }
}

/// With nobody missing, every player's commands are there.
proof fn lemma_none_missing(pending: Map<u64, Seq<CommandView>>, tick: Tick, ps: Seq<u8>)
    requires
        missing_players(pending, tick, ps).len() == 0,
    ensures
        forall|j: int| 0 <= j < ps.len() ==> pending.contains_key(turn_key(tick, #[trigger] ps[j])),
    decreases ps.len(),
{
    if ps.len() > 0 {
        lemma_none_missing(pending, tick, ps.drop_last());
        assert forall|j: int| 0 <= j < ps.len() implies pending.contains_key(
            turn_key(tick, #[trigger] ps[j]),
        ) by {
            if j < ps.len() - 1 {
                assert(ps.drop_last()[j] == ps[j]);
            }
        }
    }
}

/// Whether a list of players holds one with this number.
fn contains_player(players: &Vec<PlayerId>, p: u8) -> (r: bool)
    ensures
        r == has_player(player_numbers(players@), p),
{
    let mut i: usize = 0;
    while i < players.len()
        invariant
            i <= players@.len(),
            forall|j: int| 0 <= j < i ==> players@[j].0 != p,
        decreases players@.len() - i,
    {
        if players[i].0 == p {
            assert(player_numbers(players@)[i as int] == p);
            return true;
        }
        i = i + 1;
    }
    assert forall|j: int| 0 <= j < player_numbers(players@).len() implies player_numbers(players@)[j] != p by {
        assert(player_numbers(players@)[j] == players@[j].0);
    }
    false
}

/// The players of a match, each once, in increasing order.
fn sorted_players(input: &Vec<PlayerId>) -> (r: Vec<PlayerId>)
    ensures
        player_numbers(r@) == present_upto(input@, 256),
        increasing_players(player_numbers(r@)),
        forall|p: u8| has_player(player_numbers(r@), p) <==> exists|i: int|
            0 <= i < input@.len() && #[trigger] input@[i].0 == p,
{
    let mut out: Vec<PlayerId> = Vec::new();
    let mut v: u32 = 0;
    while v < 256
        invariant
            v <= 256,
            player_numbers(out@) == present_upto(input@, v as int),
            forall|j: int| 0 <= j < out@.len() ==> (#[trigger] out@[j]).0 < v,
            increasing_players(player_numbers(out@)),
            forall|p: u8|
                (p as int) < v ==> (has_player(player_numbers(out@), p) <==> exists|i: int|
                    0 <= i < input@.len() && #[trigger] input@[i].0 == p),
            forall|p: u8| (p as int) >= v ==> !has_player(player_numbers(out@), p),
        decreases 256 - v,
    {
        let ghost before = out@;
        if contains_player(input, v as u8) {
            out.push(PlayerId(v as u8));
        }
        proof {
            assert(player_numbers(out@) =~= present_upto(input@, v as int + 1)) by {
                if exists|i: int| 0 <= i < input@.len() && #[trigger] input@[i].0 == v as u8 {
                    let i = choose|i: int| 0 <= i < input@.len() && #[trigger] input@[i].0 == v as u8;
                    assert(player_numbers(input@)[i] == v as u8);
                }
                if has_player(player_numbers(input@), v as u8) {
                    let i = choose|i: int| 0 <= i < player_numbers(input@).len() && #[trigger] player_numbers(input@)[i] == v as u8;
                    assert(input@[i].0 == v as u8);
                }
            }
            assert forall|p: u8| (p as int) < v + 1 implies (has_player(player_numbers(out@), p) <==> exists|i: int|
                0 <= i < input@.len() && #[trigger] input@[i].0 == p) by {
                if has_player(player_numbers(out@), p) {
                    let k = choose|k: int| 0 <= k < player_numbers(out@).len() && #[trigger] player_numbers(out@)[k] == p;
                    if k < before.len() {
                        assert(player_numbers(before)[k] == p);
                    }
                }
                if (p as int) < v && has_player(player_numbers(before), p) {
                    let k = choose|k: int| 0 <= k < player_numbers(before).len() && #[trigger] player_numbers(before)[k] == p;
                    assert(player_numbers(out@)[k] == p);
                }
                if p as int == v {
                    if exists|i: int| 0 <= i < input@.len() && #[trigger] input@[i].0 == p {
                        let i = choose|i: int| 0 <= i < input@.len() && #[trigger] input@[i].0 == p;
                        assert(player_numbers(input@)[i] == p);
                        assert(player_numbers(out@)[out@.len() - 1] == p);
                    }
                    if has_player(player_numbers(out@), p) {
                        let k = choose|k: int| 0 <= k < player_numbers(out@).len() && #[trigger] player_numbers(out@)[k] == p;
                        if k < before.len() {
                            assert(before[k].0 < v);
                        }
                    }
                }
            }
            assert forall|p: u8| (p as int) >= v + 1 implies !has_player(player_numbers(out@), p) by {
                if has_player(player_numbers(out@), p) {
                    let k = choose|k: int| 0 <= k < player_numbers(out@).len() && #[trigger] player_numbers(out@)[k] == p;
                    if k < before.len() {
                        assert(before[k].0 < v);
                    }
                }
            }
        }
        v = v + 1;
    }
    out
}


/// The commands held for each key.
pub open spec fn pending_view(m: Map<u64, Vec<Command>>) -> Map<u64, Seq<CommandView>> {
    m.map_values(|v: Vec<Command>| command_views(v@))
}

/// A poll's counters do not overflow.
pub open spec fn poll_fits(m: SchedulerModel) -> bool {
    m.desync is None ==> if missing_players(m.pending, m.next_tick, m.players).len() > 0 {
        m.stalled_polls < u32::MAX
    } else {
        m.next_tick < u32::MAX
    }
}

/// Taking a turn does not overflow its turn counter.
pub open spec fn take_fits(m: SchedulerModel) -> bool {
    in_flight(m) <= m.input_delay ==> m.next_outgoing < u32::MAX
}

/// A hash check does not overflow its agreement counter.
pub open spec fn check_fits(m: SchedulerModel, tick: Tick, remote: u64) -> bool {
    (m.desync is None && hash_at(m.local_hashes, tick) == Some(remote)) ==> m.comparisons_made
        < u32::MAX
}

/// Recording a hash this peer computed after executing `tick`, keeping the
/// window bounded.
pub open spec fn record_spec(m: SchedulerModel, tick: Tick, hash: u64) -> SchedulerModel {
    SchedulerModel { local_hashes: trimmed(with_hash(m.local_hashes, tick, hash)), ..m }
}

/// What a taken turn holds.
pub open spec fn outgoing_view(r: Option<(Tick, Vec<Command>)>) -> Option<(Tick, Seq<CommandView>)> {
    match r {
        Some((t, v)) => Some((t, command_views(v@))),
        None => None,
    }
}

/// Where `tick` goes in an increasing list: after every earlier tick,
/// before every later one.
proof fn lemma_hash_pos(s: Seq<(Tick, u64)>, tick: Tick)
    requires
        increasing_ticks(s),
    ensures
        0 <= hash_pos(s, tick) <= s.len(),
        forall|i: int| 0 <= i < hash_pos(s, tick) ==> (#[trigger] s[i]).0 < tick,
        forall|i: int| hash_pos(s, tick) <= i < s.len() ==> (#[trigger] s[i]).0 >= tick,
    decreases s.len(),
{
    if s.len() > 0 {
        let t = s.drop_first();
        assert forall|i: int, j: int| 0 <= i < j < t.len() implies (#[trigger] t[i]).0 < (
        #[trigger] t[j]).0 by {
            assert(t[i] == s[i + 1] && t[j] == s[j + 1]);
        }
        lemma_hash_pos(t, tick);
        if tick <= s[0].0 {
            assert forall|i: int| 0 <= i < s.len() implies (#[trigger] s[i]).0 >= tick by {
                if i > 0 {
                    assert(s[0].0 < s[i].0);
                }
            }
        } else {
            assert forall|i: int| 0 <= i < hash_pos(s, tick) implies (#[trigger] s[i]).0 < tick by {
                if i > 0 {
                    assert(s[i] == t[i - 1]);
                }
            }
            assert forall|i: int| hash_pos(s, tick) <= i < s.len() implies (#[trigger] s[i]).0
                >= tick by {
                assert(s[i] == t[i - 1]);
            }
        }
    }
}

/// Recording a hash keeps the ticks increasing.
proof fn lemma_with_hash(s: Seq<(Tick, u64)>, tick: Tick, hash: u64)
    requires
        increasing_ticks(s),
    ensures
        increasing_ticks(with_hash(s, tick, hash)),
        with_hash(s, tick, hash).len() <= s.len() + 1,
        with_hash(s, tick, hash).len() >= 1,
        (forall|i: int| 0 <= i < s.len() ==> (#[trigger] s[i]).0 <= tick) ==> with_hash(
            s,
            tick,
            hash,
        ).last() == (tick, hash),
{
    lemma_hash_pos(s, tick);
    let p = hash_pos(s, tick);
    let r = with_hash(s, tick, hash);
    if p < s.len() && s[p].0 == tick {
        assert forall|i: int, j: int| 0 <= i < j < r.len() implies (#[trigger] r[i]).0 < (
        #[trigger] r[j]).0 by {
            assert(s[i].0 < s[j].0);
        }
        if forall|i: int| 0 <= i < s.len() ==> (#[trigger] s[i]).0 <= tick {
            if p < s.len() - 1 {
                assert(s[p].0 < s[s.len() - 1].0);
                assert(s[s.len() - 1].0 <= tick);
            }
        }
    } else {
        assert forall|i: int, j: int| 0 <= i < j < r.len() implies (#[trigger] r[i]).0 < (
        #[trigger] r[j]).0 by {
            if j < p {
                assert(r[i] == s[i] && r[j] == s[j]);
            } else if j == p {
                assert(r[i] == s[i]);
            } else if i < p {
                assert(r[i] == s[i] && r[j] == s[j - 1]);
            } else if i == p {
                assert(r[j] == s[j - 1]);
            } else {
                assert(r[i] == s[i - 1] && r[j] == s[j - 1]);
            }
        }
        if forall|i: int| 0 <= i < s.len() ==> (#[trigger] s[i]).0 <= tick {
            if p < s.len() {
                assert(s[p].0 <= tick);
            }
        }
    }
}

/// Trimming keeps the newest entries: the list's tail, at most a history
/// long.
pub proof fn lemma_trimmed(s: Seq<(Tick, u64)>)
    ensures
        trimmed(s) == s.skip(
            if s.len() > HASH_HISTORY {
                s.len() - HASH_HISTORY
            } else {
                0
            },
        ),
        trimmed(s).len() <= HASH_HISTORY,
    decreases s.len(),
{
    if s.len() > HASH_HISTORY {
        lemma_trimmed(s.drop_first());
        assert(s.drop_first().skip(
            if s.len() - 1 > HASH_HISTORY {
                s.len() - 1 - HASH_HISTORY
            } else {
                0
            },
        ) =~= s.skip(s.len() - HASH_HISTORY));
    } else {
        assert(s.skip(0) =~= s);
    }
}

/// The hash at `tick` in a list, found by a scan.
proof fn lemma_hash_at_skip(s: Seq<(Tick, u64)>, i: int, tick: Tick)
    requires
        0 <= i < s.len(),
        s[i].0 != tick,
    ensures
        hash_at(s.skip(i), tick) == hash_at(s.skip(i + 1), tick),
{
    assert(s.skip(i)[0] == s[i]);
    assert(s.skip(i).drop_first() =~= s.skip(i + 1));
}

/// The hash recorded for `tick`, if one is.
fn find_hash(v: &Vec<(Tick, u64)>, tick: Tick) -> (r: Option<u64>)
    ensures
        r == hash_at(v@, tick),
{
    let mut i: usize = 0;
    assert(v@.skip(0) =~= v@);
    while i < v.len()
        invariant
            i <= v@.len(),
            hash_at(v@, tick) == hash_at(v@.skip(i as int), tick),
        decreases v@.len() - i,
    {
        if v[i].0 == tick {
            assert(v@.skip(i as int)[0] == v@[i as int]);
            return Some(v[i].1);
        }
        proof {
            lemma_hash_at_skip(v@, i as int, tick);
        }
        i = i + 1;
    }
    None
}

/// How many recorded hashes come before `tick`.
fn hash_position(v: &Vec<(Tick, u64)>, tick: Tick) -> (r: usize)
    ensures
        r == hash_pos(v@, tick),
        r <= v@.len(),
{
    let mut i: usize = 0;
    assert(v@.skip(0) =~= v@);
    while i < v.len()
        invariant
            i <= v@.len(),
            hash_pos(v@, tick) == i + hash_pos(v@.skip(i as int), tick),
        decreases v@.len() - i,
    {
        assert(v@.skip(i as int)[0] == v@[i as int]);
        if tick <= v[i].0 {
            return i;
        }
        assert(v@.skip(i as int).drop_first() =~= v@.skip(i + 1));
        i = i + 1;
    }
    i
}

/// The players among `players` whose commands for `tick` have not arrived.
fn missing_for(pending: &BTreeMap<u64, Vec<Command>>, tick: Tick, players: &Vec<PlayerId>) -> (r:
    Vec<PlayerId>)
    ensures
        player_numbers(r@) == missing_players(pending_view(pending@), tick, player_numbers(players@)),
{
    let ghost ps = player_numbers(players@);
    let ghost pv = pending_view(pending@);
    let mut out: Vec<PlayerId> = Vec::new();
    let mut i: usize = 0;
    assert(ps.take(0) =~= Seq::<u8>::empty());
    while i < players.len()
        invariant
            i <= players@.len(),
            ps == player_numbers(players@),
            pv == pending_view(pending@),
            player_numbers(out@) == missing_players(pv, tick, ps.take(i as int)),
        decreases players@.len() - i,
    {
        let p = players[i];
        let key = turn_key_exec(tick, p.0);
        let ghost before = out@;
        let present = pending.contains_key(&key);
        if !present {
            out.push(p);
        }
        proof {
            assert(ps.take(i + 1).drop_last() =~= ps.take(i as int));
            assert(ps.take(i + 1).last() == p.0);
            if present {
                assert(player_numbers(out@) =~= player_numbers(before));
                assert(player_numbers(before) + Seq::<u8>::empty() =~= player_numbers(before));
            } else {
                assert(player_numbers(out@) =~= player_numbers(before) + seq![p.0]);
            }
        }
        i = i + 1;
    }
    assert(ps.take(players@.len() as int) =~= ps);
    out
}

/// Takes every player's commands for `tick` out of `pending`, player by
/// player.
fn take_tick(pending: &mut BTreeMap<u64, Vec<Command>>, tick: Tick, players: &Vec<PlayerId>) -> (r:
    Vec<Command>)
    requires
        increasing_players(player_numbers(players@)),
        missing_players(pending_view(old(pending)@), tick, player_numbers(players@)).len() == 0,
    ensures
        command_views(r@) == gathered(pending_view(old(pending)@), tick, player_numbers(players@)),
        pending_view(final(pending)@) == without_tick(
            pending_view(old(pending)@),
            tick,
            player_numbers(players@),
        ),
{
    let ghost ps = player_numbers(players@);
    let ghost pv0 = pending_view(pending@);
    proof {
        lemma_none_missing(pv0, tick, ps);
    }
    let mut out: Vec<Command> = Vec::new();
    let mut i: usize = 0;
    assert(ps.take(0) =~= Seq::<u8>::empty());
    assert(command_views(out@) =~= Seq::<CommandView>::empty());
    while i < players.len()
        invariant
            i <= players@.len(),
            ps == player_numbers(players@),
            increasing_players(ps),
            forall|j: int| 0 <= j < ps.len() ==> pv0.contains_key(turn_key(tick, #[trigger] ps[j])),
            pending_view(pending@) == without_tick(pv0, tick, ps.take(i as int)),
            command_views(out@) == gathered(pv0, tick, ps.take(i as int)),
        decreases players@.len() - i,
    {
        let p = players[i].0;
        let key = turn_key_exec(tick, p);
        proof {
            assert(ps[i as int] == p);
            assert forall|j: int| 0 <= j < ps.take(i as int).len() implies turn_key(
                tick,
                #[trigger] ps.take(i as int)[j],
            ) != key by {
                assert(ps.take(i as int)[j] == ps[j]);
                assert(ps[j] < ps[i as int]);
                lemma_turn_key(tick, ps[j], tick, p);
            }
            lemma_without_tick_keeps(pv0, tick, ps.take(i as int), key);
            assert(ps.take(i + 1).drop_last() =~= ps.take(i as int));
            assert(ps.take(i + 1).last() == p);
        }
        let ghost before_out = out@;
        let ghost before_pending = pending@;
        let removed = pending.remove(&key);
        match removed {
            Some(v) => {
                let mut v = v;
                out.append(&mut v);
            },
            None => {},
        }
        proof {
            assert(before_pending.contains_key(key));
            assert(pending_view(pending@) =~= pending_view(before_pending).remove(key));
            assert(command_views(out@) =~= command_views(before_out) + command_views(
                before_pending[key]@,
            ));
        }
        i = i + 1;
    }
    assert(ps.take(players@.len() as int) =~= ps);
    out
}

/// Builds a new hash list with `hash` recorded for `tick`, trimmed to the
/// history.
fn recorded(v: Vec<(Tick, u64)>, tick: Tick, hash: u64) -> (r: Vec<(Tick, u64)>)
    requires
        v@.len() <= HASH_HISTORY,
    ensures
        r@ == trimmed(with_hash(v@, tick, hash)),
{
    let mut out = v;
    let p = hash_position(&out, tick);
    if p < out.len() && out[p].0 == tick {
        out.set(p, (tick, hash));
    } else {
        out.insert(p, (tick, hash));
    }
    let ghost target = out@;
    assert(target =~= with_hash(v@, tick, hash));
    while out.len() > HASH_HISTORY
        invariant
            trimmed(out@) == trimmed(target),
        decreases out@.len(),
    {
        let ghost before = out@;
        out.remove(0);
        assert(out@ =~= before.drop_first());
    }
    out
}

/// A player is missing for a tick exactly when it is in the match and its
/// commands for the tick have not arrived.
pub proof fn lemma_missing_players(pending: Map<u64, Seq<CommandView>>, tick: Tick, ps: Seq<u8>, p: u8)
    ensures
        has_player(missing_players(pending, tick, ps), p) <==> (has_player(ps, p)
            && !pending.contains_key(turn_key(tick, p))),
    decreases ps.len(),
{
    if ps.len() > 0 {
        let init = ps.drop_last();
        lemma_missing_players(pending, tick, init, p);
        let mi = missing_players(pending, tick, init);
        let tail = if pending.contains_key(turn_key(tick, ps.last())) {
            Seq::<u8>::empty()
        } else {
            seq![ps.last()]
        };
        let all = missing_players(pending, tick, ps);
        assert(all == mi + tail);
        if has_player(all, p) {
            let k = choose|k: int| 0 <= k < all.len() && #[trigger] all[k] == p;
            if k < mi.len() {
                assert(mi[k] == p);
                let i = choose|i: int| 0 <= i < init.len() && #[trigger] init[i] == p;
                assert(ps[i] == p);
            } else {
                assert(tail[k - mi.len()] == p);
                assert(ps[ps.len() - 1] == p);
            }
        }
        if has_player(ps, p) && !pending.contains_key(turn_key(tick, p)) {
            let i = choose|i: int| 0 <= i < ps.len() && #[trigger] ps[i] == p;
            if i < ps.len() - 1 {
                assert(init[i] == p);
                let k = choose|k: int| 0 <= k < mi.len() && #[trigger] mi[k] == p;
                assert(all[k] == p);
            } else {
                assert(all[mi.len() as int] == p);
            }
        }
    }
}

proof fn lemma_missing_exactly(m: SchedulerModel)
    ensures
        forall|p: u8|
            #![trigger has_player(missing_players(m.pending, m.next_tick, m.players), p)]
            #![trigger turn_key(m.next_tick, p)]
            has_player(missing_players(m.pending, m.next_tick, m.players), p) <==> (has_player(
                m.players,
                p,
            ) && !m.pending.contains_key(turn_key(m.next_tick, p))),
{
    assert forall|p: u8|
        #![trigger has_player(missing_players(m.pending, m.next_tick, m.players), p)]
        #![trigger turn_key(m.next_tick, p)]
        has_player(missing_players(m.pending, m.next_tick, m.players), p) <==> (has_player(
            m.players,
            p,
        ) && !m.pending.contains_key(turn_key(m.next_tick, p))) by {
        lemma_missing_players(m.pending, m.next_tick, m.players, p);
    }
}

/// A tick runs exactly when every player's commands for it are in: the
/// simulation never runs ahead of a missing peer. While it waits, the
/// players it names are exactly those still missing, and nothing advances.
pub proof fn lemma_a_tick_waits_for_every_player(m: SchedulerModel)
    requires
        m.desync is None,
    ensures
        (poll_spec(m).1 is Ready) <==> (forall|p: u8|
            has_player(m.players, p) ==> #[trigger] m.pending.contains_key(turn_key(m.next_tick, p))),
        !(poll_spec(m).1 is Ready) ==> poll_spec(m).0.next_tick == m.next_tick && poll_spec(
            m,
        ).0.pending == m.pending,
        poll_spec(m).1 is Waiting ==> poll_spec(m).1 == StatusModel::Waiting(
            m.next_tick,
            missing_players(m.pending, m.next_tick, m.players),
        ),
        forall|p: u8|
            #![trigger has_player(missing_players(m.pending, m.next_tick, m.players), p)]
            #![trigger turn_key(m.next_tick, p)]
            has_player(missing_players(m.pending, m.next_tick, m.players), p) <==> (has_player(
                m.players,
                p,
            ) && !m.pending.contains_key(turn_key(m.next_tick, p))),
{
    let missing = missing_players(m.pending, m.next_tick, m.players);
    lemma_missing_exactly(m);
    if missing.len() > 0 {
        let p = missing[0];
        assert(has_player(missing, p));
        assert(poll_spec(m).1 == StatusModel::Waiting(m.next_tick, missing));
        assert(!m.pending.contains_key(turn_key(m.next_tick, p)));
    } else {
        assert forall|p: u8| has_player(m.players, p) implies #[trigger] m.pending.contains_key(
            turn_key(m.next_tick, p),
        ) by {
            if !m.pending.contains_key(turn_key(m.next_tick, p)) {
                lemma_missing_players(m.pending, m.next_tick, m.players, p);
                let k = choose|k: int| 0 <= k < missing.len() && #[trigger] missing[k] == p;
            }
        }
    }
}

/// Whatever a ready tick hands out is in the total order every peer agrees
/// on: by player, then by sequence number.
pub proof fn lemma_ready_commands_in_total_order(m: SchedulerModel)
    ensures
        poll_spec(m).1 matches StatusModel::Ready(c) ==> in_total_order(c),
{
    lemma_order_sort_sorted(gathered(m.pending, m.next_tick, m.players));
}

/// Duplicates are ignored: a second delivery of a player's commands for a
/// tick changes nothing.
pub proof fn lemma_duplicate_deliveries_ignored(
    m: SchedulerModel,
    tick: Tick,
    player: u8,
    first: Seq<CommandView>,
    again: Seq<CommandView>,
)
    ensures
        accept_spec(accept_spec(m, tick, player, first), tick, player, again) == accept_spec(
            m,
            tick,
            player,
            first,
        ),
{
}

/// Arrival order does not matter: two deliveries for different ticks or
/// players leave the scheduler the same whichever comes first.
pub proof fn lemma_arrival_order_irrelevant(
    m: SchedulerModel,
    t1: Tick,
    p1: u8,
    c1: Seq<CommandView>,
    t2: Tick,
    p2: u8,
    c2: Seq<CommandView>,
)
    requires
        t1 != t2 || p1 != p2,
    ensures
        accept_spec(accept_spec(m, t1, p1, c1), t2, p2, c2) == accept_spec(
            accept_spec(m, t2, p2, c2),
            t1,
            p1,
            c1,
        ),
{
    lemma_turn_key(t1, p1, t2, p2);
    let a = accept_spec(accept_spec(m, t1, p1, c1), t2, p2, c2);
    let b = accept_spec(accept_spec(m, t2, p2, c2), t1, p1, c1);
    assert(a.pending =~= b.pending);
}

/// The scheduler after accepting each delivery in turn, each a tick, a
/// player and that player's commands for the tick.
pub open spec fn accept_all(m: SchedulerModel, ds: Seq<(Tick, u8, Seq<CommandView>)>) -> SchedulerModel
    decreases ds.len(),
{
    if ds.len() == 0 {
        m
    } else {
        let d = ds.last();
        accept_spec(accept_all(m, ds.drop_last()), d.0, d.1, d.2)
    }
}

/// Deliveries for the same tick and player carry the same commands, as the
/// redundant copies of one turn do.
pub open spec fn consistent_deliveries(ds: Seq<(Tick, u8, Seq<CommandView>)>) -> bool {
    forall|a: (Tick, u8, Seq<CommandView>), b: (Tick, u8, Seq<CommandView>)|
        #[trigger] ds.contains(a) && #[trigger] ds.contains(b) && a.0 == b.0 && a.1 == b.1 ==> a.2
            == b.2
}

/// A delivery accepted last comes out the same as one accepted earlier,
/// when nothing after it speaks for its tick and player with other
/// commands.
proof fn lemma_move_to_end(
    m: SchedulerModel,
    s: Seq<(Tick, u8, Seq<CommandView>)>,
    x: (Tick, u8, Seq<CommandView>),
    t: Seq<(Tick, u8, Seq<CommandView>)>,
)
    requires
        forall|i: int| 0 <= i < t.len() && (#[trigger] t[i]).0 == x.0 && t[i].1 == x.1 ==> t[i].2 == x.2,
    ensures
        accept_all(m, s.push(x) + t) == accept_all(m, (s + t).push(x)),
    decreases t.len(),
{
    if t.len() == 0 {
        assert(s.push(x) + t =~= s.push(x));
        assert(s + t =~= s);
    } else {
        let t0 = t.drop_last();
        let y = t.last();
        assert(forall|i: int| 0 <= i < t0.len() ==> t0[i] == #[trigger] t[i]);
        lemma_move_to_end(m, s, x, t0);
        assert((s.push(x) + t).drop_last() =~= s.push(x) + t0);
        assert((s + t0).push(x).drop_last() =~= s + t0);
        assert((s + t).drop_last() =~= s + t0);
        assert((s + t).push(x).drop_last() =~= s + t);
        let a = accept_all(m, s + t0);
        assert(t[t.len() - 1] == y);
        assert((s.push(x) + t).last() == y);
        assert((s + t).last() == y);
        assert(accept_all(m, s.push(x) + t) == accept_spec(accept_all(m, s.push(x) + t0), y.0, y.1, y.2));
        assert(accept_all(m, (s + t0).push(x)) == accept_spec(a, x.0, x.1, x.2));
        assert(accept_all(m, s + t) == accept_spec(a, y.0, y.1, y.2));
        assert(accept_all(m, (s + t).push(x)) == accept_spec(accept_all(m, s + t), x.0, x.1, x.2));
        if y.0 != x.0 || y.1 != x.1 {
            lemma_arrival_order_irrelevant(a, x.0, x.1, x.2, y.0, y.1, y.2);
        } else {
            assert(y == x);
        }
    }
}

/// Arrival order does not matter over any number of deliveries: the same
/// deliveries, in any order, with any redundant copies of a turn among
/// them, leave the scheduler the same, so every later poll answers the
/// same.
pub proof fn lemma_deliveries_in_any_order(
    m: SchedulerModel,
    a: Seq<(Tick, u8, Seq<CommandView>)>,
    b: Seq<(Tick, u8, Seq<CommandView>)>,
)
    requires
        a.to_multiset() == b.to_multiset(),
        consistent_deliveries(a),
    ensures
        accept_all(m, a) == accept_all(m, b),
        poll_spec(accept_all(m, a)) == poll_spec(accept_all(m, b)),
    decreases a.len(),
{
    broadcast use vstd::multiset::group_multiset_axioms;

    a.to_multiset_ensures();
    b.to_multiset_ensures();
    if a.len() == 0 {
        assert(b =~= a);
    } else {
        let x = a.last();
        let a0 = a.drop_last();
        assert(a.contains(x)) by {
            assert(a[a.len() - 1] == x);
        }
        assert(a.to_multiset().count(x) > 0);
        assert(b.to_multiset().count(x) > 0);
        assert(b.contains(x));
        let j = choose|j: int| 0 <= j < b.len() && b[j] == x;
        let s = b.take(j);
        let t = b.skip(j + 1);
        assert(b =~= s.push(x) + t);
        let b0 = s + t;
        assert(b0 =~= b.remove(j));
        assert(a0.push(x) =~= a);
        a0.to_multiset_ensures();
        assert(a0.to_multiset() =~= a.to_multiset().remove(x));
        assert(b0.to_multiset() =~= b.to_multiset().remove(x));
        assert forall|d1: (Tick, u8, Seq<CommandView>), d2: (Tick, u8, Seq<CommandView>)|
            #[trigger] a0.contains(d1) && #[trigger] a0.contains(d2) && d1.0 == d2.0 && d1.1 == d2.1 implies d1.2
            == d2.2 by {
            let i1 = choose|i: int| 0 <= i < a0.len() && a0[i] == d1;
            let i2 = choose|i: int| 0 <= i < a0.len() && a0[i] == d2;
            assert(a[i1] == d1 && a[i2] == d2);
            assert(a.contains(d1) && a.contains(d2));
        }
        lemma_deliveries_in_any_order(m, a0, b0);
        assert forall|i: int| 0 <= i < t.len() && (#[trigger] t[i]).0 == x.0 && t[i].1 == x.1 implies t[i].2
            == x.2 by {
            assert(b[j + 1 + i] == t[i]);
            assert(b.contains(t[i]));
            assert(b.to_multiset().count(t[i]) > 0);
            assert(a.to_multiset().count(t[i]) > 0);
            assert(a.contains(t[i]));
        }
        lemma_move_to_end(m, s, x, t);
        assert(b0.push(x).drop_last() =~= b0);
        assert(a.drop_last() =~= a0);
    }
}

/// Once a divergence is found the match is over: every later poll answers
/// with it, and neither hash checks, deliveries nor recorded hashes clear
/// it.
pub proof fn lemma_desync_stands(
    m: SchedulerModel,
    tick: Tick,
    player: u8,
    cmds: Seq<CommandView>,
    hash: u64,
)
    requires
        m.desync is Some,
    ensures
        poll_spec(m) == (m, StatusModel::Desynced(m.desync.unwrap())),
        check_spec(m, player, tick, hash) == m,
        accept_spec(m, tick, player, cmds).desync == m.desync,
        record_spec(m, tick, hash).desync == m.desync,
        take_outgoing_spec(m).0.desync == m.desync,
{
}

/// Whether `tick` appears in a list of hashes.
proof fn lemma_hash_at_found(s: Seq<(Tick, u64)>, i: int, tick: Tick)
    requires
        increasing_ticks(s),
        0 <= i < s.len(),
        s[i].0 == tick,
    ensures
        hash_at(s, tick) == Some(s[i].1),
    decreases s.len(),
{
    if i > 0 {
        assert(s[0].0 < s[i].0);
        let t = s.drop_first();
        assert forall|a: int, b: int| 0 <= a < b < t.len() implies (#[trigger] t[a]).0 < (
        #[trigger] t[b]).0 by {
            assert(t[a] == s[a + 1] && t[b] == s[b + 1]);
        }
        assert(t[i - 1] == s[i]);
        lemma_hash_at_found(t, i - 1, tick);
    }
}

/// A hash recorded for a tick no older than any held is kept, and a
/// peer's report for that tick is compared against it.
pub proof fn lemma_newest_hash_kept(m: SchedulerModel, tick: Tick, hash: u64)
    requires
        increasing_ticks(m.local_hashes),
        forall|i: int| 0 <= i < m.local_hashes.len() ==> (#[trigger] m.local_hashes[i]).0 <= tick,
    ensures
        hash_at(record_spec(m, tick, hash).local_hashes, tick) == Some(hash),
        record_spec(m, tick, hash).local_hashes.len() <= HASH_HISTORY,
{
    let w = with_hash(m.local_hashes, tick, hash);
    lemma_with_hash(m.local_hashes, tick, hash);
    lemma_trimmed(w);
    let r = trimmed(w);
    let k = if w.len() > HASH_HISTORY {
        w.len() - HASH_HISTORY
    } else {
        0
    };
    assert(w.len() > 0);
    assert(r[r.len() - 1] == w[w.len() - 1]);
    assert forall|a: int, b: int| 0 <= a < b < r.len() implies (#[trigger] r[a]).0 < (
    #[trigger] r[b]).0 by {
        assert(r[a] == w[a + k] && r[b] == w[b + k]);
    }
    lemma_hash_at_found(r, r.len() - 1, tick);
}

/// A mismatched hash halts the match: once this peer has recorded its hash
/// for a tick, a peer reporting a different one for that tick produces a
/// report naming both, and the next poll answers with it.
pub proof fn lemma_mismatch_halts(m: SchedulerModel, tick: Tick, local: u64, player: u8, remote: u64)
    requires
        m.desync is None,
        local != remote,
        increasing_ticks(m.local_hashes),
        forall|i: int| 0 <= i < m.local_hashes.len() ==> (#[trigger] m.local_hashes[i]).0 <= tick,
    ensures
        ({
            let report = DesyncReport {
                tick,
                local_hash: local,
                remote_player: PlayerId(player),
                remote_hash: remote,
            };
            let after = check_spec(record_spec(m, tick, local), player, tick, remote);
            &&& after.desync == Some(report)
            &&& poll_spec(after).1 == StatusModel::Desynced(report)
        }),
{
    lemma_newest_hash_kept(m, tick, local);
}

/// Outgoing turn numbers never skip: a turn carries the number after the
/// last one taken, and nothing else moves that number.
pub proof fn lemma_turn_numbers_never_skip(
    m: SchedulerModel,
    tick: Tick,
    player: u8,
    cmds: Seq<CommandView>,
    hash: u64,
)
    requires
        m.next_outgoing < u32::MAX,
    ensures
        take_outgoing_spec(m).1 matches Some((t, _)) ==> t == m.next_outgoing && take_outgoing_spec(
            m,
        ).0.next_outgoing == t + 1,
        take_outgoing_spec(m).1 is None ==> take_outgoing_spec(m).0 == m,
        poll_spec(m).0.next_outgoing == m.next_outgoing,
        accept_spec(m, tick, player, cmds).next_outgoing == m.next_outgoing,
        record_spec(m, tick, hash).next_outgoing == m.next_outgoing,
        check_spec(m, player, tick, hash).next_outgoing == m.next_outgoing,
{
}

/// The opening ticks run without waiting on anyone: nothing anyone does can
/// land before the input delay, so those ticks start out complete; from
/// the input delay on, every player's commands are awaited.
pub proof fn lemma_opening_ticks_complete(local: u8, input: Seq<PlayerId>, delay: u32, tick: Tick)
    ensures
        ({
            let m = new_spec(local, input, delay);
            &&& tick < m.input_delay ==> missing_players(m.pending, tick, m.players).len() == 0
            &&& tick >= m.input_delay ==> missing_players(m.pending, tick, m.players) == m.players
        }),
{
    let m = new_spec(local, input, delay);
    let ps = m.players;
    assert forall|p: u8| #[trigger] m.pending.contains_key(turn_key(tick, p)) <==> (tick
        < m.input_delay && has_player(ps, p)) by {
        lemma_turn_key(tick, p, tick, p);
    }
    lemma_missing_all_or_none(m.pending, tick, ps, tick < m.input_delay);
}

/// The scheduler after `k` polls and nothing else.
pub open spec fn after_polls(m: SchedulerModel, k: nat) -> SchedulerModel
    decreases k,
{
    if k == 0 {
        m
    } else {
        poll_spec(after_polls(m, (k - 1) as nat)).0
    }
}

/// What the `k`th poll answers, counting from zero, with nothing else done
/// in between.
pub open spec fn poll_answer(m: SchedulerModel, k: nat) -> StatusModel {
    poll_spec(after_polls(m, k)).1
}

/// Gathering turns that are all empty gathers nothing.
proof fn lemma_gathered_empty(pending: Map<u64, Seq<CommandView>>, tick: Tick, ps: Seq<u8>)
    requires
        forall|j: int|
            0 <= j < ps.len() ==> pending[turn_key(tick, #[trigger] ps[j])] == Seq::<CommandView>::empty(),
    ensures
        gathered(pending, tick, ps) == Seq::<CommandView>::empty(),
    decreases ps.len(),
{
    if ps.len() > 0 {
        lemma_gathered_empty(pending, tick, ps.drop_last());
        assert(pending[turn_key(tick, ps[ps.len() - 1])] == Seq::<CommandView>::empty());
        assert(Seq::<CommandView>::empty() + Seq::<CommandView>::empty() =~= Seq::<CommandView>::empty());
    }
}

/// A player in the list given to a new scheduler is among its players.
proof fn lemma_present_upto_has(input: Seq<PlayerId>, n: int, p: u8)
    requires
        exists|i: int| 0 <= i < input.len() && #[trigger] input[i].0 == p,
        p < n <= 256,
    ensures
        has_player(present_upto(input, n), p),
    decreases n,
{
    let prev = present_upto(input, n - 1);
    if n - 1 == p as int {
        assert(present_upto(input, n)[prev.len() as int] == p);
    } else {
        lemma_present_upto_has(input, n - 1, p);
        let i = choose|i: int| 0 <= i < prev.len() && #[trigger] prev[i] == p;
        assert(present_upto(input, n)[i] == p);
    }
}

/// How a new scheduler stands after `k` opening polls: at tick `k`, with
/// every player's (empty) commands held for each later opening tick and
/// for nothing after.
proof fn lemma_opening_state(local: u8, input: Seq<PlayerId>, delay: u32, k: nat)
    requires
        k <= new_spec(local, input, delay).input_delay,
    ensures
        ({
            let m0 = new_spec(local, input, delay);
            let m = after_polls(m0, k);
            &&& m.next_tick == k
            &&& m.desync is None
            &&& m.players == m0.players
            &&& m.input_delay == m0.input_delay
            &&& forall|t: Tick, p: u8|
                t >= k ==> (#[trigger] m.pending.contains_key(turn_key(t, p)) <==> (t
                    < m0.input_delay && has_player(m0.players, p)))
            &&& forall|t: Tick, p: u8|
                t >= k && m.pending.contains_key(turn_key(t, p)) ==> #[trigger] m.pending[turn_key(
                    t,
                    p,
                )] == Seq::<CommandView>::empty()
            &&& k > 0 ==> poll_answer(m0, (k - 1) as nat) == StatusModel::Ready(
                Seq::<CommandView>::empty(),
            )
        }),
    decreases k,
{
    let m0 = new_spec(local, input, delay);
    let ps = m0.players;
    if k == 0 {
        assert forall|t: Tick, p: u8| t >= 0 implies (#[trigger] m0.pending.contains_key(
            turn_key(t, p),
        ) <==> (t < m0.input_delay && has_player(ps, p))) by {
            lemma_turn_key(t, p, t, p);
        }
    } else {
        lemma_opening_state(local, input, delay, (k - 1) as nat);
        let m = after_polls(m0, (k - 1) as nat);
        let tick = m.next_tick;
        assert(tick < m0.input_delay);
        lemma_missing_all_or_none(m.pending, tick, ps, true);
        assert forall|j: int| 0 <= j < ps.len() implies m.pending[turn_key(tick, #[trigger] ps[j])]
            == Seq::<CommandView>::empty() by {
            assert(has_player(ps, ps[j]));
            assert(m.pending.contains_key(turn_key(tick, ps[j])));
        }
        lemma_gathered_empty(m.pending, tick, ps);
        assert(order_sort(Seq::<CommandView>::empty()) == Seq::<CommandView>::empty());
        let m2 = after_polls(m0, k);
        assert(m2.pending == without_tick(m.pending, tick, ps));
        assert forall|t: Tick, p: u8| t >= k implies (#[trigger] m2.pending.contains_key(
            turn_key(t, p),
        ) == m.pending.contains_key(turn_key(t, p)) && (m.pending.contains_key(turn_key(t, p))
            ==> m2.pending[turn_key(t, p)] == m.pending[turn_key(t, p)])) by {
            assert forall|j: int| 0 <= j < ps.len() implies turn_key(tick, #[trigger] ps[j])
                != turn_key(t, p) by {
                lemma_turn_key(t, p, tick, ps[j]);
            }
            lemma_without_tick_keeps(m.pending, tick, ps, turn_key(t, p));
        }
    }
}

/// The opening of a match, poll by poll: a new scheduler's first
/// input-delay polls each run a tick with no commands in it, without
/// waiting on anyone; the next poll waits for that tick on every player in
/// the match, in increasing order, each once.
pub proof fn lemma_opening_polls(local: u8, input: Seq<PlayerId>, delay: u32, k: nat)
    requires
        exists|i: int| 0 <= i < input.len() && #[trigger] input[i].0 == local,
    ensures
        ({
            let m0 = new_spec(local, input, delay);
            &&& k < m0.input_delay ==> poll_answer(m0, k) == StatusModel::Ready(
                Seq::<CommandView>::empty(),
            )
            &&& poll_answer(m0, m0.input_delay as nat) == StatusModel::Waiting(
                m0.input_delay,
                m0.players,
            )
            &&& m0.players.len() > 0
        }),
{
    let m0 = new_spec(local, input, delay);
    let d = m0.input_delay;
    lemma_present_upto_has(input, 256, local);
    if k < d {
        lemma_opening_state(local, input, delay, k + 1);
    }
    lemma_opening_state(local, input, delay, d as nat);
    let m = after_polls(m0, d as nat);
    assert forall|j: int| 0 <= j < m.players.len() implies m.pending.contains_key(
        turn_key(d, #[trigger] m.players[j]),
    ) == false by {}
    lemma_missing_all_or_none(m.pending, d, m.players, false);
}

/// One thing done to a scheduler, as its methods do it: queuing a command
/// for a player, accepting a player's commands for a tick, taking the next
/// outgoing turn, polling, recording a local hash, checking a peer's hash.
pub enum SchedulerStep {
    Issue(u8, Seq<u8>),
    Accept(Tick, u8, Seq<CommandView>),
    Take,
    Poll,
    Record(Tick, u64),
    Check(u8, Tick, u64),
}

/// The scheduler after one step.
pub open spec fn step_spec(m: SchedulerModel, s: SchedulerStep) -> SchedulerModel {
    match s {
        SchedulerStep::Issue(player, kind) => issue_spec(m, player, kind),
        SchedulerStep::Accept(tick, player, cmds) => accept_spec(m, tick, player, cmds),
        SchedulerStep::Take => take_outgoing_spec(m).0,
        SchedulerStep::Poll => poll_spec(m).0,
        SchedulerStep::Record(tick, hash) => record_spec(m, tick, hash),
        SchedulerStep::Check(player, tick, hash) => check_spec(m, player, tick, hash),
    }
}

/// Whether the method behind a step accepts the scheduler as it is.
pub open spec fn step_fits(m: SchedulerModel, s: SchedulerStep) -> bool {
    match s {
        SchedulerStep::Take => take_fits(m),
        SchedulerStep::Poll => poll_fits(m),
        SchedulerStep::Check(_, tick, hash) => check_fits(m, tick, hash),
        _ => true,
    }
}

/// The scheduler after a run of steps, in order.
pub open spec fn run_spec(m: SchedulerModel, steps: Seq<SchedulerStep>) -> SchedulerModel
    decreases steps.len(),
{
    if steps.len() == 0 {
        m
    } else {
        step_spec(run_spec(m, steps.drop_last()), steps.last())
    }
}

/// Every step of a run is one its method accepts where it comes.
pub open spec fn run_fits(m: SchedulerModel, steps: Seq<SchedulerStep>) -> bool {
    forall|k: int| 0 <= k < steps.len() ==> step_fits(run_spec(m, steps.take(k)), #[trigger] steps[k])
}

/// The turn numbers a run's takes hand out, in order.
pub open spec fn turns_taken(m: SchedulerModel, steps: Seq<SchedulerStep>) -> Seq<Tick>
    decreases steps.len(),
{
    if steps.len() == 0 {
        Seq::empty()
    } else {
        let before = run_spec(m, steps.drop_last());
        turns_taken(m, steps.drop_last()) + match (steps.last(), take_outgoing_spec(before).1) {
            (SchedulerStep::Take, Some((t, _))) => seq![t],
            _ => Seq::<Tick>::empty(),
        }
    }
}

/// Over a run that starts with the outgoing counter at most one past a full
/// input delay ahead, the turns taken count up from the counter one by one,
/// and the counter stays within that bound.
proof fn lemma_run_counts_up(m: SchedulerModel, steps: Seq<SchedulerStep>)
    requires
        run_fits(m, steps),
        in_flight(m) <= m.input_delay + 1,
    ensures
        ({
            let r = run_spec(m, steps);
            let ts = turns_taken(m, steps);
            &&& r.input_delay == m.input_delay
            &&& r.next_outgoing == m.next_outgoing + ts.len()
            &&& in_flight(r) <= m.input_delay + 1
            &&& forall|i: int| 0 <= i < ts.len() ==> ts[i] == m.next_outgoing + i
        }),
    decreases steps.len(),
{
    if steps.len() > 0 {
        let init = steps.drop_last();
        assert forall|k: int| 0 <= k < init.len() implies step_fits(
            run_spec(m, init.take(k)),
            #[trigger] init[k],
        ) by {
            assert(init.take(k) =~= steps.take(k));
            assert(step_fits(run_spec(m, steps.take(k)), steps[k]));
        }
        lemma_run_counts_up(m, init);
        let before = run_spec(m, init);
        let k = steps.len() - 1;
        assert(steps.take(k) =~= init);
        assert(step_fits(run_spec(m, steps.take(k)), steps[k]));
        let ts = turns_taken(m, steps);
        let ts0 = turns_taken(m, init);
        match steps.last() {
            SchedulerStep::Take => {
                if in_flight(before) <= before.input_delay {
                    assert(ts == ts0.push(before.next_outgoing));
                } else {
                    assert(ts =~= ts0);
                }
            },
            _ => {
                assert(ts =~= ts0);
            },
        }
    }
}

/// Outgoing turn numbers over a whole match: from a new scheduler, through
/// any run of issues, acceptances, takes, polls and hash records and
/// checks, the turns taken carry the numbers input delay, input delay plus
/// one, and so on, with none skipped or repeated; and the scheduler is
/// never more than one past a full input delay ahead of execution.
pub proof fn lemma_outgoing_turns_count_up(
    local: u8,
    input: Seq<PlayerId>,
    delay: u32,
    steps: Seq<SchedulerStep>,
)
    requires
        exists|i: int| 0 <= i < input.len() && #[trigger] input[i].0 == local,
        run_fits(new_spec(local, input, delay), steps),
    ensures
        ({
            let m0 = new_spec(local, input, delay);
            let r = run_spec(m0, steps);
            let ts = turns_taken(m0, steps);
            &&& forall|i: int| 0 <= i < ts.len() ==> ts[i] == m0.input_delay + i
            &&& r.next_outgoing == m0.input_delay + ts.len()
            &&& in_flight(r) <= m0.input_delay + 1
        }),
{
    lemma_run_counts_up(new_spec(local, input, delay), steps);
}

/// With every player present (or every player absent), nobody is (or
/// everybody is) missing.
proof fn lemma_missing_all_or_none(
    pending: Map<u64, Seq<CommandView>>,
    tick: Tick,
    ps: Seq<u8>,
    present: bool,
)
    requires
        forall|j: int| 0 <= j < ps.len() ==> pending.contains_key(turn_key(tick, #[trigger] ps[j]))
            == present,
    ensures
        present ==> missing_players(pending, tick, ps).len() == 0,
        !present ==> missing_players(pending, tick, ps) == ps,
    decreases ps.len(),
{
    if ps.len() > 0 {
        assert forall|j: int| 0 <= j < ps.drop_last().len() implies pending.contains_key(
            turn_key(tick, #[trigger] ps.drop_last()[j]),
        ) == present by {
            assert(ps.drop_last()[j] == ps[j]);
        }
        lemma_missing_all_or_none(pending, tick, ps.drop_last(), present);
        assert(pending.contains_key(turn_key(tick, ps[ps.len() - 1])) == present);
        if !present {
            assert(ps.drop_last() + seq![ps.last()] =~= ps);
        }
    }
}

impl TurnScheduler {
    #[verifier::type_invariant]
    spec fn well_formed(&self) -> bool {
        scheduler_invariant(self@)
    }

    /// A scheduler for a match among `players`, speaking for `local_player`.
    ///
    /// The opening ticks are seeded with empty command sets for everyone.
    /// Commands issued at tick N execute at N + D, so nothing anyone does can
    /// land before tick D; without the seeds the first D ticks would wait on
    /// commands that can never arrive. Every peer seeds identically, so it
    /// costs no agreement.
    pub fn new(local_player: PlayerId, players: Vec<PlayerId>, input_delay: u32) -> (r: TurnScheduler)
        requires
            exists|i: int| 0 <= i < players@.len() && #[trigger] players@[i] == local_player,
        ensures
            r@ == new_spec(local_player.0, players@, input_delay),
    {
        let sorted = sorted_players(&players);
        let delay: u32 = if input_delay < MIN_INPUT_DELAY {
            MIN_INPUT_DELAY
        } else if input_delay > MAX_INPUT_DELAY {
            MAX_INPUT_DELAY
        } else {
            input_delay
        };
        let ghost ps = player_numbers(sorted@);
        let mut pending: BTreeMap<u64, Vec<Command>> = BTreeMap::new();
        let mut tick: u32 = 0;
        while tick < delay
            invariant
                tick <= delay <= MAX_INPUT_DELAY,
                ps == player_numbers(sorted@),
                increasing_players(ps),
                forall|k: u64|
                    pending@.contains_key(k) <==> (k / 256 < tick && has_player(ps, (k % 256) as u8)),
                forall|k: u64| pending@.contains_key(k) ==> pending@[k]@ == Seq::<Command>::empty(),
            decreases delay - tick,
        {
            let mut j: usize = 0;
            while j < sorted.len()
                invariant
                    tick < delay <= MAX_INPUT_DELAY,
                    j <= sorted@.len(),
                    ps == player_numbers(sorted@),
                    increasing_players(ps),
                    forall|k: u64|
                        pending@.contains_key(k) <==> (k / 256 < tick && has_player(ps, (k % 256) as u8))
                            || (k / 256 == tick && has_player(ps.take(j as int), (k % 256) as u8)),
                    forall|k: u64| pending@.contains_key(k) ==> pending@[k]@ == Seq::<Command>::empty(),
                decreases sorted@.len() - j,
            {
                let key = turn_key_exec(tick, sorted[j].0);
                pending.insert(key, Vec::new());
                proof {
                    assert(ps[j as int] == sorted@[j as int].0);
                    lemma_turn_key(tick, ps[j as int], tick, ps[j as int]);
                    assert forall|k: u64| pending@.contains_key(k) <==> (k / 256 < tick && has_player(
                        ps,
                        (k % 256) as u8,
                    )) || (k / 256 == tick && has_player(ps.take(j + 1), (k % 256) as u8)) by {
                        if k == key {
                            assert(ps.take(j + 1)[j as int] == ps[j as int]);
                        } else {
                            if k / 256 == tick && has_player(ps.take(j + 1), (k % 256) as u8) {
                                let i = choose|i: int| 0 <= i < ps.take(j + 1).len() && #[trigger] ps.take(j + 1)[i] == (k % 256) as u8;
                                if i == j {
                                    lemma_key_parts(k);
                                }
                                assert(ps.take(j as int)[i] == ps.take(j + 1)[i]);
                            }
                            if k / 256 == tick && has_player(ps.take(j as int), (k % 256) as u8) {
                                let i = choose|i: int| 0 <= i < ps.take(j as int).len() && #[trigger] ps.take(j as int)[i] == (k % 256) as u8;
                                assert(ps.take(j + 1)[i] == ps.take(j as int)[i]);
                            }
                        }
                    }
                }
                j = j + 1;
            }
            proof {
                assert(ps.take(sorted@.len() as int) =~= ps);
            }
            tick = tick + 1;
        }
        let r = TurnScheduler {
            local_player,
            players: sorted,
            input_delay: delay,
            next_tick: 0,
            pending,
            local_hashes: Vec::new(),
            next_outgoing: delay,
            outbox: Vec::new(),
            next_sequence: 0,
            desync: None,
            stalled_polls: 0,
            last_verified: None,
            comparisons_made: 0,
        };
        proof {
            let pv = pending@.map_values(|v: Vec<Command>| command_views(v@));
            assert(r@.pending == pv);
            assert forall|k: u64| pv.contains_key(k) implies pv[k] == seeded(delay, ps)[k] by {
                assert(command_views(pending@[k]@) =~= Seq::<CommandView>::empty());
            }
            assert(r@.pending =~= seeded(delay, ps));
            let i = choose|i: int| 0 <= i < players@.len() && players@[i] == local_player;
            assert(has_player(ps, local_player.0));
            assert(delay as int == clamp(input_delay as int, MIN_INPUT_DELAY as int, MAX_INPUT_DELAY as int));
            assert(ps == present_upto(players@, 256));
            assert(r@.players == ps);
            assert(r@.input_delay == delay);
            assert(r@.outbox =~= Seq::<CommandView>::empty());
            assert(r@.local_hashes =~= Seq::<(Tick, u64)>::empty());
        }
        r
    }

    pub fn local_player(&self) -> (r: PlayerId)
        ensures
            r.0 == self@.local_player,
    {
        self.local_player
    }

    pub fn input_delay(&self) -> (r: u32)
        ensures
            r == self@.input_delay,
            MIN_INPUT_DELAY <= r <= MAX_INPUT_DELAY,
    {
        proof {
            use_type_invariant(self);
        }
        self.input_delay
    }

    /// The tick that will run next.
    pub fn next_tick(&self) -> (r: Tick)
        ensures
            r == self@.next_tick,
    {
        self.next_tick
    }

    /// The tick that locally-issued commands will execute at.
    pub fn scheduled_tick(&self) -> (r: Tick)
        ensures
            r == self@.next_outgoing,
    {
        self.next_outgoing
    }

    /// How far the outgoing turn counter has run ahead of execution. Never
    /// more than one past the input delay: a peer whose partner has gone
    /// silent does not keep producing turns for ticks that cannot run.
    pub fn turns_in_flight(&self) -> (r: u32)
        ensures
            r == in_flight(self@),
            r <= self@.input_delay + 1,
    {
        proof {
            use_type_invariant(self);
        }
        self.next_outgoing.saturating_sub(self.next_tick)
    }

    /// Consecutive polls spent waiting on a peer.
    pub fn stalled_polls(&self) -> (r: u32)
        ensures
            r == self@.stalled_polls,
    {
        self.stalled_polls
    }

    /// Hash comparisons that agreed.
    pub fn comparisons_made(&self) -> (r: u32)
        ensures
            r == self@.comparisons_made,
    {
        self.comparisons_made
    }

    /// The most recent tick a peer independently confirmed, and the hash
    /// both sides agreed on: the only positive evidence of agreement there
    /// is.
    pub fn last_verified(&self) -> (r: Option<(Tick, u64)>)
        ensures
            r == self@.last_verified,
    {
        self.last_verified
    }

    /// The divergence, if one was found.
    pub fn desync(&self) -> (r: Option<DesyncReport>)
        ensures
            r == self@.desync,
    {
        self.desync
    }

    /// The hashes kept for comparison, in increasing tick order.
    pub fn local_hashes(&self) -> (r: &Vec<(Tick, u64)>)
        ensures
            r@ == self@.local_hashes,
            r@.len() <= HASH_HISTORY,
            increasing_ticks(r@),
    {
        proof {
            use_type_invariant(self);
        }
        &self.local_hashes
    }

    /// Whether this tick should be hash-checked.
    pub fn should_hash(tick: Tick) -> (r: bool)
        ensures
            r == (tick % HASH_INTERVAL == 0),
    {
        tick % HASH_INTERVAL == 0
    }

    /// Queues a local command for its scheduled tick.
    pub fn issue(&mut self, kind: Vec<u8>)
        ensures
            final(self)@ == issue_spec(old(self)@, old(self)@.local_player, kind@),
    {
        let player = self.local_player;
        self.issue_for(player, kind);
    }

    /// Issues a command on behalf of a player this peer speaks for.
    ///
    /// A computer opponent is a player like any other: its commands are
    /// sequenced and scheduled, and reach the simulation through the same
    /// queue a human's do. Sequence numbers are shared across every player
    /// this peer speaks for; one counter that always moves forward is easier
    /// to be sure of than several.
    pub fn issue_for(&mut self, player: PlayerId, kind: Vec<u8>)
        ensures
            final(self)@ == issue_spec(old(self)@, player.0, kind@),
    {
        proof {
            use_type_invariant(&*self);
        }
        let c = Command::new(player, self.next_sequence, kind);
        let mut queued: Vec<Command> = Vec::new();
        std::mem::swap(&mut queued, &mut self.outbox);
        queued.push(c);
        self.outbox = queued;
        self.next_sequence = self.next_sequence.wrapping_add(1);
        proof {
            assert(command_views(self.outbox@) =~= command_views(old(self).outbox@).push(
                command_view(c),
            ));
        }
    }

    /// Records a player's commands for a tick.
    ///
    /// Duplicates are ignored, so the redundant copies every packet carries
    /// cost nothing. Commands for ticks already executed are dropped, and so
    /// are those of players not in the match.
    pub fn accept(&mut self, tick: Tick, player: PlayerId, commands: Vec<Command>)
        ensures
            final(self)@ == accept_spec(old(self)@, tick, player.0, command_views(commands@)),
    {
        proof {
            use_type_invariant(&*self);
        }
        if tick < self.next_tick || !contains_player(&self.players, player.0) {
            return ;
        }
        let key = turn_key_exec(tick, player.0);
        if !self.pending.contains_key(&key) {
            let mut held: BTreeMap<u64, Vec<Command>> = BTreeMap::new();
            std::mem::swap(&mut held, &mut self.pending);
            let ghost before = held@;
            held.insert(key, commands);
            self.pending = held;
            proof {
                assert(pending_view(self.pending@) =~= pending_view(before).insert(
                    key,
                    command_views(commands@),
                ));
            }
        }
    }

    /// Takes the next turn's local commands for transmission, recording them
    /// locally at the same time.
    ///
    /// A peer schedules its own commands through exactly the same path as
    /// everyone else's. Returns `None` when the caller is already a full
    /// input delay ahead of what it has executed: running further ahead
    /// cannot help, and it would grow without bound behind a peer that has
    /// stopped responding.
    pub fn take_outgoing(&mut self) -> (r: Option<(Tick, Vec<Command>)>)
        requires
            take_fits(old(self)@),
        ensures
            (final(self)@, outgoing_view(r)) == take_outgoing_spec(old(self)@),
    {
        proof {
            use_type_invariant(&*self);
        }
        if self.turns_in_flight() > self.input_delay {
            return None;
        }
        let tick = self.next_outgoing;
        self.next_outgoing = tick + 1;
        let mut commands: Vec<Command> = Vec::new();
        std::mem::swap(&mut commands, &mut self.outbox);
        self.next_sequence = 0;
        let local = self.local_player;
        let copy = copy_commands(&commands);
        proof {
            assert(command_views(self.outbox@) =~= Seq::<CommandView>::empty());
        }
        self.accept(tick, local, copy);
        Some((tick, commands))
    }

    /// Records a hash this peer computed after executing `tick`.
    ///
    /// The window stays bounded: a match runs for hours, and the history is
    /// only needed while a peer's report might still be in flight.
    pub fn record_local_hash(&mut self, tick: Tick, hash: u64)
        ensures
            final(self)@ == record_spec(old(self)@, tick, hash),
    {
        proof {
            use_type_invariant(&*self);
        }
        let mut held: Vec<(Tick, u64)> = Vec::new();
        std::mem::swap(&mut held, &mut self.local_hashes);
        let ghost old_hashes = held@;
        let fresh = recorded(held, tick, hash);
        proof {
            lemma_with_hash(old_hashes, tick, hash);
            let w = with_hash(old_hashes, tick, hash);
            lemma_trimmed(w);
            let k = if w.len() > HASH_HISTORY {
                w.len() - HASH_HISTORY
            } else {
                0
            };
            assert forall|i: int, j: int| 0 <= i < j < fresh@.len() implies (
            #[trigger] fresh@[i]).0 < (#[trigger] fresh@[j]).0 by {
                assert(fresh@[i] == w[i + k] && fresh@[j] == w[j + k]);
            }
        }
        self.local_hashes = fresh;
    }

    /// Compares a peer's hash against our own for the same tick.
    ///
    /// A tick we no longer have is not an error: the peer may be far enough
    /// behind that our record has aged out. Only an actual disagreement
    /// counts, and once found it stands.
    pub fn check_remote_hash(&mut self, player: PlayerId, tick: Tick, remote_hash: u64)
        requires
            check_fits(old(self)@, tick, remote_hash),
        ensures
            final(self)@ == check_spec(old(self)@, player.0, tick, remote_hash),
    {
        proof {
            use_type_invariant(&*self);
        }
        if self.desync.is_some() {
            return ;
        }
        let found = find_hash(&self.local_hashes, tick);
        let local_hash = match found {
            Some(h) => h,
            None => {
                return ;
            },
        };
        if local_hash != remote_hash {
            self.desync = Some(
                DesyncReport { tick, local_hash, remote_player: player, remote_hash },
            );
            return ;
        }
        self.comparisons_made = self.comparisons_made + 1;
        let newer = match self.last_verified {
            Some((seen, _)) => tick > seen,
            None => true,
        };
        if newer {
            self.last_verified = Some((tick, local_hash));
        }
    }

    /// Asks whether the next tick may run.
    ///
    /// On `Ready` the scheduler has advanced: the returned commands belong to
    /// the tick the caller must now execute, in the total order every peer
    /// agrees on.
    pub fn poll(&mut self) -> (r: TurnStatus)
        requires
            poll_fits(old(self)@),
        ensures
            (final(self)@, status_view(r)) == poll_spec(old(self)@),
    {
        proof {
            use_type_invariant(&*self);
        }
        match self.desync {
            Some(report) => {
                return TurnStatus::Desynced(report);
            },
            None => {},
        }
        let tick = self.next_tick;
        let missing = missing_for(&self.pending, tick, &self.players);
        if missing.len() > 0 {
            self.stalled_polls = self.stalled_polls + 1;
            return TurnStatus::Waiting { tick, missing };
        }
        self.stalled_polls = 0;
        let mut held: BTreeMap<u64, Vec<Command>> = BTreeMap::new();
        std::mem::swap(&mut held, &mut self.pending);
        let gathered_commands = take_tick(&mut held, tick, &self.players);
        self.pending = held;
        let commands = sort_commands(gathered_commands);
        self.next_tick = tick + 1;
        TurnStatus::Ready(commands)
    }
}

} // verus!
