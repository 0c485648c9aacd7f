//! The decisions a computer opponent makes that do not need the world in
//! front of it: when it thinks, how much of its money it will spend, which of
//! several candidates it picks.
//!
//! Every choice is a deterministic function of what it is shown. Ties break
//! on the earlier candidate, which comes free from walking them in order and
//! has to break somehow: two peers must pick the same one.

use vstd::prelude::*;
use crate::command::{PlayerId, Tick};
use crate::outlook::{decide, decide_orders, lemma_one_decision_at_most, order_views, Order, OrderView, Outlook};
use crate::skill::{think_interval_of, Difficulty};

verus! {

/// How far from its construction yard an opponent considers "its base".
/// Anything of the enemy's inside this is worth shooting; a dummy never
/// goes further.
pub const BASE_RADIUS: i32 = 20;

/// How far out from the yard it looks for somewhere to put a building.
pub const LAYOUT_RADIUS: i32 = 7;

/// `a - b`, or zero when `b` is larger.
pub open spec fn saturating_gap(a: Tick, b: Tick) -> int {
    if a >= b {
        a - b
    } else {
        0
    }
}

/// Whether an opponent that last thought at `last` thinks at `tick`.
pub open spec fn thinks_at(d: Difficulty, last: Tick, tick: Tick) -> bool {
    saturating_gap(tick, last) >= think_interval_of(d)
}

/// One computer opponent.
#[derive(Clone, Copy, Debug)]
pub struct Commander {
    player: PlayerId,
    difficulty: Difficulty,
    /// The last tick it thought on: its whole reaction time lives in this
    /// one number.
    last_thought: Tick,
}

impl Commander {
    /// An opponent for `player`. It counts its first thought from tick
    /// zero, so it does not act before the first frame is drawn.
    pub fn new(player: PlayerId, difficulty: Difficulty) -> (r: Commander)
        ensures
            r.player() == player,
            r.difficulty() == difficulty,
            r.last_thought() == 0,
    {
        Commander { player, difficulty, last_thought: 0 }
    }

    pub closed spec fn player(&self) -> PlayerId {
        self.player
    }

    pub closed spec fn difficulty(&self) -> Difficulty {
        self.difficulty
    }

    /// The last tick it thought on.
    pub closed spec fn last_thought(&self) -> Tick {
        self.last_thought
    }

    #[verifier::when_used_as_spec(player)]
    pub fn player_id(&self) -> (r: PlayerId)
        ensures
            r == self.player(),
    {
        self.player
    }

    #[verifier::when_used_as_spec(difficulty)]
    pub fn skill(&self) -> (r: Difficulty)
        ensures
            r == self.difficulty(),
    {
        self.difficulty
    }

    /// Whether it thinks on this tick. When it does, the tick is remembered
    /// and the next thought waits a full think interval from it.
    pub fn think_due(&mut self, tick: Tick) -> (r: bool)
        ensures
            r == thinks_at(old(self).difficulty(), old(self).last_thought(), tick),
            final(self).last_thought() == if r {
                tick
            } else {
                old(self).last_thought()
            },
            final(self).player() == old(self).player(),
            final(self).difficulty() == old(self).difficulty(),
    {
        let gap = tick.saturating_sub(self.last_thought);
        if gap < self.difficulty.think_interval() {
            return false;
        }
        self.last_thought = tick;
        true
    }

    /// The opponent after being asked to think at `tick`: when it does
    /// think, it remembers the tick; nothing else about it changes.
    pub closed spec fn after_thinking(self, tick: Tick) -> Commander {
        if thinks_at(self.difficulty, self.last_thought, tick) {
            Commander { last_thought: tick, ..self }
        } else {
            self
        }
    }

    /// Decides what to do this tick. Before its think interval has passed
    /// it does nothing at all; otherwise it gives the order `decide` says,
    /// if any (one decision per call at most), and remembers the tick. It returns orders rather than issuing them,
    /// so they go through the same ordered queue a human's go through.
    pub fn think(&mut self, world: &Outlook) -> (r: Vec<Order>)
        requires
            world.wf(),
        ensures
            thinks_at(old(self).difficulty(), old(self).last_thought(), world.tick) ==> {
                &&& final(self).last_thought() == world.tick
                &&& order_views(r@) == decide(old(self).player(), old(self).difficulty(), *world)
            },
            !thinks_at(old(self).difficulty(), old(self).last_thought(), world.tick) ==> {
                &&& r@.len() == 0
                &&& final(self).last_thought() == old(self).last_thought()
            },
            final(self).player() == old(self).player(),
            final(self).difficulty() == old(self).difficulty(),
            *final(self) == old(self).after_thinking(world.tick),
            order_views(r@) == thoughts(*old(self), *world),
            r@.len() <= 1,
    {
        proof {
            lemma_one_decision_at_most(self.player, self.difficulty, *world);
        }
        if !self.think_due(world.tick) {
            return Vec::new();
        }
        decide_orders(self.player, self.difficulty, world)
    }
}

/// The orders an opponent gives when asked to think about `w`: nothing
/// before its think interval has passed, otherwise what `decide` says.
pub open spec fn thoughts(c: Commander, w: Outlook) -> Seq<OrderView> {
    if thinks_at(c.difficulty(), c.last_thought(), w.tick) {
        decide(c.player(), c.difficulty(), w)
    } else {
        Seq::empty()
    }
}

/// Runs the opponents for one frame, each thinking in turn about what it
/// sees (`worlds[i]` is what opponent `i` sees). Nothing is decided while
/// the world is not advancing: thinking during a pause would let an
/// opponent bank decisions and spend them all on the tick play resumes.
/// The orders come back with the player each is for, to go through the
/// same ordered queue a human's go through.
pub fn run_opponents(commanders: &mut Vec<Commander>, ticks_this_frame: u32, worlds: &Vec<Outlook>) -> (r: Vec<(PlayerId, Vec<Order>)>)
    requires
        worlds@.len() == old(commanders)@.len(),
        forall|i: int| 0 <= i < worlds@.len() ==> (#[trigger] worlds@[i]).wf(),
    ensures
        ticks_this_frame == 0 ==> r@.len() == 0 && final(commanders)@ == old(commanders)@,
        ticks_this_frame != 0 ==> {
            &&& r@.len() == old(commanders)@.len()
            &&& final(commanders)@.len() == old(commanders)@.len()
            &&& forall|i: int|
                0 <= i < r@.len() ==> {
                    &&& (#[trigger] r@[i]).0 == old(commanders)@[i].player()
                    &&& order_views(r@[i].1@) == thoughts(old(commanders)@[i], worlds@[i])
                    &&& final(commanders)@[i] == old(commanders)@[i].after_thinking(worlds@[i].tick)
                }
        },
{
    let mut out: Vec<(PlayerId, Vec<Order>)> = Vec::new();
    if ticks_this_frame == 0 {
        return out;
    }
    let ghost before = commanders@;
    let mut i: usize = 0;
    while i < commanders.len()
        invariant
            i <= commanders@.len(),
            commanders@.len() == before.len(),
            worlds@.len() == before.len(),
            forall|k: int| 0 <= k < worlds@.len() ==> (#[trigger] worlds@[k]).wf(),
            out@.len() == i,
            forall|k: int| i <= k < before.len() ==> #[trigger] commanders@[k] == before[k],
            forall|k: int|
                0 <= k < i ==> {
                    &&& (#[trigger] out@[k]).0 == before[k].player()
                    &&& order_views(out@[k].1@) == thoughts(before[k], worlds@[k])
                    &&& commanders@[k] == before[k].after_thinking(worlds@[k].tick)
                },
        decreases before.len() - i,
    {
        let mut c = commanders[i];
        let player = c.player_id();
        let orders = c.think(&worlds[i]);
        commanders.set(i, c);
        out.push((player, orders));
        i = i + 1;
    }
    out
}

/// The opponent after being asked to think about each of `worlds` in turn.
pub open spec fn after_calls(c: Commander, worlds: Seq<Outlook>) -> Commander
    decreases worlds.len(),
{
    if worlds.len() == 0 {
        c
    } else {
        after_calls(c, worlds.drop_last()).after_thinking(worlds.last().tick)
    }
}

/// The orders the `i`th call of a run gives: asked to think about
/// `worlds[i]`, after the calls before it.
pub open spec fn orders_on_call(c: Commander, worlds: Seq<Outlook>, i: int) -> Seq<OrderView> {
    thoughts(after_calls(c, worlds.take(i)), worlds[i])
}

/// Asking an opponent to think changes only when it last thought, and
/// only forwards: to a tick a full interval past the last thought.
proof fn lemma_after_thinking(c: Commander, tick: Tick)
    ensures
        c.after_thinking(tick).player() == c.player(),
        c.after_thinking(tick).difficulty() == c.difficulty(),
        c.after_thinking(tick).last_thought() == if thinks_at(c.difficulty(), c.last_thought(), tick) {
            tick
        } else {
            c.last_thought()
        },
        thinks_at(c.difficulty(), c.last_thought(), tick) ==> tick >= c.last_thought()
            + think_interval_of(c.difficulty()),
{
}

/// Over a run of calls the difficulty stays, and the last thought only
/// moves forwards.
proof fn lemma_last_thought_grows(c: Commander, worlds: Seq<Outlook>, n: int, m: int)
    requires
        0 <= n <= m <= worlds.len(),
    ensures
        after_calls(c, worlds.take(m)).difficulty() == c.difficulty(),
        after_calls(c, worlds.take(n)).last_thought() <= after_calls(c, worlds.take(m)).last_thought(),
    decreases m,
{
    if m == 0 {
        assert(worlds.take(0) =~= Seq::<Outlook>::empty());
        assert(worlds.take(n) =~= Seq::<Outlook>::empty());
    } else {
        assert(worlds.take(m).drop_last() =~= worlds.take(m - 1));
        assert(worlds.take(m).last() == worlds[m - 1]);
        lemma_after_thinking(after_calls(c, worlds.take(m - 1)), worlds[m - 1].tick);
        lemma_last_thought_grows(c, worlds, if n == m {
            m - 1
        } else {
            n
        }, m - 1);
    }
}

/// An opponent thinks at its own pace over any run of calls, whatever the
/// ticks it is asked at: two calls that give orders are at least a full
/// think interval apart, and no call gives orders before a full interval
/// has passed since the last thought before the run (for a new opponent,
/// tick zero). So over a stretch of ticks it acts at most once per
/// interval.
pub proof fn lemma_orders_are_spaced(c: Commander, worlds: Seq<Outlook>, i: int, j: int)
    requires
        0 <= i < j < worlds.len(),
        orders_on_call(c, worlds, i).len() > 0,
        orders_on_call(c, worlds, j).len() > 0,
    ensures
        worlds[i].tick >= c.last_thought() + think_interval_of(c.difficulty()),
        worlds[j].tick >= worlds[i].tick + think_interval_of(c.difficulty()),
{
    let before_i = after_calls(c, worlds.take(i));
    let before_j = after_calls(c, worlds.take(j));
    lemma_last_thought_grows(c, worlds, 0, i);
    assert(worlds.take(0) =~= Seq::<Outlook>::empty());
    lemma_last_thought_grows(c, worlds, i + 1, j);
    lemma_last_thought_grows(c, worlds, 0, j);
    lemma_after_thinking(before_i, worlds[i].tick);
    lemma_after_thinking(before_j, worlds[j].tick);
    assert(worlds.take(i + 1).drop_last() =~= worlds.take(i));
    assert(worlds.take(i + 1).last() == worlds[i]);
    assert(after_calls(c, worlds.take(i + 1)).last_thought() == worlds[i].tick);
}

/// An opponent thinks at its own pace: after it thinks at `first`, it does
/// not think again before a full interval has passed.
pub proof fn lemma_thinks_at_its_own_pace(d: Difficulty, last: Tick, first: Tick, later: Tick)
    requires
        thinks_at(d, last, first),
        first <= later,
        later - first < think_interval_of(d),
    ensures
        !thinks_at(d, first, later),
{
}

/// How far an offset is from its centre: the larger of its two distances.
pub open spec fn ring_of(dx: int, dy: int) -> int {
    let ax = if dx < 0 {
        -dx
    } else {
        dx
    };
    let ay = if dy < 0 {
        -dy
    } else {
        dy
    };
    if ax > ay {
        ax
    } else {
        ay
    }
}

/// Whether an offset from the base is somewhere the opponent considers
/// building: at least two cells out, so the yard keeps room around it, and
/// within the layout radius.
pub open spec fn in_layout(dx: int, dy: int) -> bool {
    2 <= ring_of(dx, dy) <= LAYOUT_RADIUS
}

/// Whether offset `a` is looked at before offset `b`: nearer rings first,
/// then row by row, then left to right.
pub open spec fn scanned_before(a: (int, int), b: (int, int)) -> bool {
    let (ra, rb) = (ring_of(a.0, a.1), ring_of(b.0, b.1));
    ra < rb || (ra == rb && (a.1 < b.1 || (a.1 == b.1 && a.0 < b.0)))
}

/// Whether the scan position `(r, y, x)` comes after offset `o`.
pub open spec fn before_position(o: (int, int), r: int, y: int, x: int) -> bool {
    let ro = ring_of(o.0, o.1);
    ro < r || (ro == r && (o.1 < y || (o.1 == y && o.0 < x)))
}

/// The offset of a cell from the base.
pub open spec fn offset_of(base: (i32, i32), cell: (i32, i32)) -> (int, int) {
    (cell.0 - base.0, cell.1 - base.1)
}

/// Where the opponent looks for somewhere to put a building, in the order it
/// looks: every cell in the layout around the base, the nearer rings first,
/// each ring row by row and left to right. A deterministic scan rather than
/// a random spot: random placement would desync, and would produce bases
/// that look spilled.
pub fn site_candidates(base: (i32, i32)) -> (r: Vec<(i32, i32)>)
    requires
        i32::MIN + LAYOUT_RADIUS <= base.0 <= i32::MAX - LAYOUT_RADIUS,
        i32::MIN + LAYOUT_RADIUS <= base.1 <= i32::MAX - LAYOUT_RADIUS,
    ensures
        forall|i: int| 0 <= i < r@.len() ==> in_layout(#[trigger] offset_of(base, r@[i]).0, offset_of(base, r@[i]).1),
        forall|i: int, j: int|
            0 <= i < j < r@.len() ==> scanned_before(offset_of(base, #[trigger] r@[i]), offset_of(base, #[trigger] r@[j])),
        forall|dx: int, dy: int|
            in_layout(dx, dy) ==> exists|i: int| 0 <= i < r@.len() && #[trigger] offset_of(base, r@[i]) == (dx, dy),
{
    let mut out: Vec<(i32, i32)> = Vec::new();
    let mut ring: i32 = 2;
    while ring <= LAYOUT_RADIUS
        invariant
            2 <= ring <= LAYOUT_RADIUS + 1,
            i32::MIN + LAYOUT_RADIUS <= base.0 <= i32::MAX - LAYOUT_RADIUS,
            i32::MIN + LAYOUT_RADIUS <= base.1 <= i32::MAX - LAYOUT_RADIUS,
            forall|i: int| 0 <= i < out@.len() ==> in_layout(#[trigger] offset_of(base, out@[i]).0, offset_of(base, out@[i]).1),
            forall|i: int| 0 <= i < out@.len() ==> ring_of(#[trigger] offset_of(base, out@[i]).0, offset_of(base, out@[i]).1) < ring,
            forall|i: int, j: int|
                0 <= i < j < out@.len() ==> scanned_before(offset_of(base, #[trigger] out@[i]), offset_of(base, #[trigger] out@[j])),
            forall|dx: int, dy: int|
                in_layout(dx, dy) && ring_of(dx, dy) < ring ==> exists|i: int| 0 <= i < out@.len() && #[trigger] offset_of(base, out@[i]) == (dx, dy),
        decreases LAYOUT_RADIUS + 1 - ring,
    {
        let mut dy: i32 = -ring;
        while dy <= ring
            invariant
                2 <= ring <= LAYOUT_RADIUS,
                -ring <= dy <= ring + 1,
                i32::MIN + LAYOUT_RADIUS <= base.0 <= i32::MAX - LAYOUT_RADIUS,
                i32::MIN + LAYOUT_RADIUS <= base.1 <= i32::MAX - LAYOUT_RADIUS,
                forall|i: int| 0 <= i < out@.len() ==> in_layout(#[trigger] offset_of(base, out@[i]).0, offset_of(base, out@[i]).1),
                forall|i: int| 0 <= i < out@.len() ==> before_position(#[trigger] offset_of(base, out@[i]), ring as int, dy as int, -ring as int),
                forall|i: int, j: int|
                    0 <= i < j < out@.len() ==> scanned_before(offset_of(base, #[trigger] out@[i]), offset_of(base, #[trigger] out@[j])),
                forall|ox: int, oy: int|
                    in_layout(ox, oy) && before_position((ox, oy), ring as int, dy as int, -ring as int) ==> exists|i: int| 0 <= i < out@.len() && #[trigger] offset_of(base, out@[i]) == (ox, oy),
            decreases ring + 1 - dy,
        {
            let mut dx: i32 = -ring;
            while dx <= ring
                invariant
                    2 <= ring <= LAYOUT_RADIUS,
                    -ring <= dy <= ring,
                    -ring <= dx <= ring + 1,
                    i32::MIN + LAYOUT_RADIUS <= base.0 <= i32::MAX - LAYOUT_RADIUS,
                    i32::MIN + LAYOUT_RADIUS <= base.1 <= i32::MAX - LAYOUT_RADIUS,
                    forall|i: int| 0 <= i < out@.len() ==> in_layout(#[trigger] offset_of(base, out@[i]).0, offset_of(base, out@[i]).1),
                    forall|i: int| 0 <= i < out@.len() ==> before_position(#[trigger] offset_of(base, out@[i]), ring as int, dy as int, dx as int),
                    forall|i: int, j: int|
                        0 <= i < j < out@.len() ==> scanned_before(offset_of(base, #[trigger] out@[i]), offset_of(base, #[trigger] out@[j])),
                    forall|ox: int, oy: int|
                        in_layout(ox, oy) && before_position((ox, oy), ring as int, dy as int, dx as int) ==> exists|i: int| 0 <= i < out@.len() && #[trigger] offset_of(base, out@[i]) == (ox, oy),
                decreases ring + 1 - dx,
            {
                let on_edge = dx == ring || dx == -ring || dy == ring || dy == -ring;
                let ghost before = out@;
                if on_edge {
                    let cell = (base.0 + dx, base.1 + dy);
                    out.push(cell);
                    proof {
                        assert(offset_of(base, cell) == (dx as int, dy as int));
                        assert(ring_of(dx as int, dy as int) == ring);
                        assert forall|i: int| 0 <= i < out@.len() implies in_layout(#[trigger] offset_of(base, out@[i]).0, offset_of(base, out@[i]).1) by {
                            if i < before.len() {
                                assert(out@[i] == before[i]);
                            }
                        }
                        assert forall|i: int, j: int| 0 <= i < j < out@.len() implies scanned_before(offset_of(base, #[trigger] out@[i]), offset_of(base, #[trigger] out@[j])) by {
                            assert(out@[i] == before[i]);
                            if j < before.len() {
                                assert(out@[j] == before[j]);
                            }
                        }
                        assert forall|i: int| 0 <= i < out@.len() implies before_position(#[trigger] offset_of(base, out@[i]), ring as int, dy as int, dx + 1) by {
                            if i < before.len() {
                                assert(out@[i] == before[i]);
                            }
                        }
                        assert forall|ox: int, oy: int|
                            in_layout(ox, oy) && before_position((ox, oy), ring as int, dy as int, dx + 1) implies exists|i: int| 0 <= i < out@.len() && #[trigger] offset_of(base, out@[i]) == (ox, oy) by {
                            if before_position((ox, oy), ring as int, dy as int, dx as int) {
                                let i = choose|i: int| 0 <= i < before.len() && #[trigger] offset_of(base, before[i]) == (ox, oy);
                                assert(out@[i] == before[i]);
                            } else {
                                assert(ox == dx && oy == dy);
                                assert(offset_of(base, out@[before.len() as int]) == (ox, oy));
                            }
                        }
                    }
                } else {
                    proof {
                        assert(ring_of(dx as int, dy as int) < ring);
                        assert forall|i: int| 0 <= i < out@.len() implies before_position(#[trigger] offset_of(base, out@[i]), ring as int, dy as int, dx + 1) by {}
                    }
                }
                dx = dx + 1;
            }
            proof {
                assert forall|i: int| 0 <= i < out@.len() implies before_position(#[trigger] offset_of(base, out@[i]), ring as int, dy + 1, -ring as int) by {
                    assert(before_position(offset_of(base, out@[i]), ring as int, dy as int, ring + 1));
                }
                assert forall|ox: int, oy: int|
                    in_layout(ox, oy) && before_position((ox, oy), ring as int, dy + 1, -ring as int) implies exists|i: int| 0 <= i < out@.len() && #[trigger] offset_of(base, out@[i]) == (ox, oy) by {
                    assert(before_position((ox, oy), ring as int, dy as int, ring + 1));
                }
            }
            dy = dy + 1;
        }
        proof {
            assert forall|i: int| 0 <= i < out@.len() implies ring_of(#[trigger] offset_of(base, out@[i]).0, offset_of(base, out@[i]).1) < ring + 1 by {
                assert(before_position(offset_of(base, out@[i]), ring as int, ring + 1, -ring as int));
            }
            assert forall|ox: int, oy: int|
                in_layout(ox, oy) && ring_of(ox, oy) < ring + 1 implies exists|i: int| 0 <= i < out@.len() && #[trigger] offset_of(base, out@[i]) == (ox, oy) by {
                assert(before_position((ox, oy), ring as int, ring + 1, -ring as int));
            }
        }
        ring = ring + 1;
    }
    out
}

/// What a weak opponent will actually spend of `credits`: the rest is the
/// reserve it sits on.
pub open spec fn spendable_of(d: Difficulty, credits: u32) -> int {
    credits * (50 + crate::skill::competence_of(d) / 2) / 100
}

/// What an opponent of this difficulty will spend of `credits`.
pub fn spendable(d: Difficulty, credits: u32) -> (r: u64)
    ensures
        r == spendable_of(d, credits),
        r <= credits,
{
    let share = d.spend_share() as u64;
    assert(credits * share <= credits * 100) by (nonlinear_arith)
        requires
            share <= 100,
    ;
    let r = (credits as u64) * share / 100;
    assert(r <= credits) by (nonlinear_arith)
        requires
            r == (credits as u64) * share / 100,
            share <= 100,
    ;
    r
}

/// Whether it can afford something of this cost now.
pub fn affords(d: Difficulty, credits: u32, cost: u32) -> (r: bool)
    ensures
        r == (cost <= spendable_of(d, credits)),
{
    (cost as u64) <= spendable(d, credits)
}

/// Whether index `i` holds the first least value among the present ones.
pub open spec fn first_least(values: Seq<Option<u32>>, i: int) -> bool {
    &&& 0 <= i < values.len()
    &&& values[i] is Some
    &&& forall|j: int| 0 <= j < values.len() && (#[trigger] values[j]) is Some ==> values[i].unwrap()
        <= values[j].unwrap()
    &&& forall|j: int| 0 <= j < i && (#[trigger] values[j]) is Some ==> values[i].unwrap()
        < values[j].unwrap()
}

/// At most one index holds the first least value.
pub proof fn lemma_first_least_unique(values: Seq<Option<u32>>, i: int, j: int)
    requires
        first_least(values, i),
        first_least(values, j),
    ensures
        i == j,
{
    if i < j {
        assert(values[i] is Some);
    } else if j < i {
        assert(values[j] is Some);
    }
}

/// The first of the least present values, or `None` when none is present.
///
/// Used for the cheapest eligible thing to build (candidates in the order the
/// rules list them, `None` for those that fail the test) and for the nearest
/// intruder (distances in the order the units are walked, `None` for those
/// that do not count).
pub fn first_least_index(values: &Vec<Option<u32>>) -> (r: Option<usize>)
    ensures
        match r {
            Some(i) => first_least(values@, i as int),
            None => forall|j: int| 0 <= j < values@.len() ==> (#[trigger] values@[j]) is None,
        },
{
    let mut best: Option<usize> = None;
    let mut i: usize = 0;
    while i < values.len()
        invariant
            i <= values@.len(),
            match best {
                Some(b) => first_least(values@.take(i as int), b as int),
                None => forall|j: int| 0 <= j < i ==> (#[trigger] values@[j]) is None,
            },
        decreases values@.len() - i,
    {
        let ghost prev = values@.take(i as int);
        let ghost next = values@.take(i + 1);
        assert forall|j: int| 0 <= j < i implies #[trigger] next[j] == prev[j] by {}
        assert(next[i as int] == values@[i as int]);
        match values[i] {
            Some(v) => {
                match best {
                    Some(b) => {
                        if v < values[b].unwrap() {
                            best = Some(i);
                            proof {
                                assert forall|j: int| 0 <= j < next.len() && (#[trigger] next[j]) is Some
                                    implies v <= next[j].unwrap() by {
                                    if j < i {
                                        assert(prev[j] == next[j]);
                                    }
                                }
                                assert forall|j: int| 0 <= j < i && (#[trigger] next[j]) is Some
                                    implies v < next[j].unwrap() by {
                                    assert(prev[j] == next[j]);
                                }
                            }
                        } else {
                            proof {
                                assert(prev[b as int] == values@[b as int]);
                                assert forall|j: int| 0 <= j < next.len() && (#[trigger] next[j]) is Some
                                    implies next[b as int].unwrap() <= next[j].unwrap() by {
                                    if j < i {
                                        assert(prev[j] == next[j]);
                                    }
                                }
                                assert forall|j: int| 0 <= j < b && (#[trigger] next[j]) is Some
                                    implies next[b as int].unwrap() < next[j].unwrap() by {
                                    assert(prev[j] == next[j]);
                                }
                            }
                        }
                    },
                    None => {
                        best = Some(i);
                        proof {
                            assert forall|j: int| 0 <= j < next.len() && (#[trigger] next[j]) is Some
                                implies v <= next[j].unwrap() by {
                                if j < i {
                                    assert(values@[j] is None);
                                }
                            }
                        }
                    },
                }
            },
            None => {
                proof {
                    match best {
                        Some(b) => {
                            assert(prev[b as int] == next[b as int]);
                            assert forall|j: int| 0 <= j < next.len() && (#[trigger] next[j]) is Some
                                implies next[b as int].unwrap() <= next[j].unwrap() by {
                                if j < i {
                                    assert(prev[j] == next[j]);
                                }
                            }
                            assert forall|j: int| 0 <= j < b && (#[trigger] next[j]) is Some
                                implies next[b as int].unwrap() < next[j].unwrap() by {
                                assert(prev[j] == next[j]);
                            }
                        },
                        None => {},
                    }
                }
            },
        }
        i = i + 1;
    }
    assert(values@.take(values@.len() as int) =~= values@);
    best
}

/// How many calls of a run give orders.
pub open spec fn acting_calls(c: Commander, worlds: Seq<Outlook>) -> nat
    decreases worlds.len(),
{
    if worlds.len() == 0 {
        0
    } else {
        acting_calls(c, worlds.drop_last()) + if thoughts(
            after_calls(c, worlds.drop_last()),
            worlds.last(),
        ).len() > 0 {
            1nat
        } else {
            0nat
        }
    }
}

/// Each call that gives orders moves the last thought a full interval on,
/// and once any has, the last thought is the tick of a call of the run.
proof fn lemma_acting_moves_last_thought(c: Commander, worlds: Seq<Outlook>, n: int)
    requires
        forall|i: int| 0 <= i < worlds.len() ==> (#[trigger] worlds[i]).tick < n,
    ensures
        after_calls(c, worlds).difficulty() == c.difficulty(),
        c.last_thought() + acting_calls(c, worlds) * think_interval_of(c.difficulty()) <= after_calls(
            c,
            worlds,
        ).last_thought(),
        acting_calls(c, worlds) > 0 ==> after_calls(c, worlds).last_thought() < n,
    decreases worlds.len(),
{
    if worlds.len() > 0 {
        let w0 = worlds.drop_last();
        assert forall|i: int| 0 <= i < w0.len() implies (#[trigger] w0[i]).tick < n by {
            assert(w0[i] == worlds[i]);
        }
        lemma_acting_moves_last_thought(c, w0, n);
        let before = after_calls(c, w0);
        let t = worlds.last().tick;
        assert(worlds[worlds.len() - 1].tick < n);
        lemma_after_thinking(before, t);
        let k = acting_calls(c, w0) as int;
        let step = think_interval_of(c.difficulty());
        assert((k + 1) * step == k * step + step) by (nonlinear_arith);
        assert(after_calls(c, worlds) == before.after_thinking(t));
        if thoughts(before, worlds.last()).len() > 0 {
            assert(thinks_at(before.difficulty(), before.last_thought(), t));
            assert(acting_calls(c, worlds) == k + 1);
            assert(t >= before.last_thought() + step);
            assert(c.last_thought() + (k + 1) * step <= t);
        } else {
            assert(acting_calls(c, worlds) == k);
            assert(step >= 1);
            assert(before.last_thought() <= after_calls(c, worlds).last_thought());
        }
    } else {
        assert(acting_calls(c, worlds) == 0);
        assert(0 * think_interval_of(c.difficulty()) == 0);
    }
}

/// An opponent acts at most once per think interval over any run of
/// calls: when every call is asked about a tick below `n`, the calls that
/// give orders, counted, times the think interval, still fall short of `n`
/// after the last thought before the run. So a new opponent (last thought
/// at tick zero) asked only about ticks below `n` acts at most `n` divided
/// by its think interval times.
pub proof fn lemma_acts_once_per_interval(c: Commander, worlds: Seq<Outlook>, n: int)
    requires
        forall|i: int| 0 <= i < worlds.len() ==> (#[trigger] worlds[i]).tick < n,
    ensures
        acting_calls(c, worlds) > 0 ==> c.last_thought() + acting_calls(c, worlds) * think_interval_of(
            c.difficulty(),
        ) < n,
{
    lemma_acting_moves_last_thought(c, worlds, n);
}

} // verus!
