//! Building a match from a map file and a ruleset: who starts where, with
//! what.
//!
//! Starting positions are taken in slot order, not in the order the file
//! lists them: two peers reading the same file must build the same match,
//! and "the order they were written in" is a fact about a text file rather
//! than about the map. A map is checked against the rules here rather than
//! when it is loaded, because a map is only wrong against a particular
//! ruleset.

use vstd::prelude::*;
use crate::map::{quote, quoted, shared_slot, MapDef, NeutralUnit, PlacedUnit, StartingPosition};
use crate::rules::{last_index_of, EntityDef, EntityKind, Rules};
use crate::sorting::{has_key, Identified};
use crate::text::{append_decimal, copy_text, decimal};

verus! {

/// Why a match could not be built from a map.
#[derive(Debug)]
pub enum BuildError {
    /// The map names something the rules do not have.
    UnknownEntity { id: String },
    /// More players asked for than the map has room for.
    TooManyPlayers { asked: usize, available: usize },
}

/// How a build error reads.
pub open spec fn build_error_text(e: BuildError) -> Seq<char> {
    match e {
        BuildError::UnknownEntity { id } => "the map places "@ + quoted(id@)
            + ", which the rules do not define"@,
        BuildError::TooManyPlayers { asked, available } => "the match wants "@ + decimal(
            asked as nat,
        ) + " players and the map has "@ + decimal(available as nat) + " starting positions"@,
    }
}

impl BuildError {
    /// The error as a sentence.
    pub fn to_string(&self) -> (r: String)
        ensures
            r@ == build_error_text(*self),
    {
        match self {
            BuildError::UnknownEntity { id } => {
                let mut s = String::from_str("the map places ");
                let q = quote(id.as_str());
                s.append(q.as_str());
                s.append(", which the rules do not define");
                s
            },
            BuildError::TooManyPlayers { asked, available } => {
                let mut s = String::from_str("the match wants ");
                append_decimal(&mut s, *asked as u64);
                s.append(" players and the map has ");
                append_decimal(&mut s, *available as u64);
                s.append(" starting positions");
                s
            },
        }
    }
}

/// Whether index `a` comes before index `b` in slot order: lower slot
/// first, and between equal slots the one listed first.
pub open spec fn slot_before(slots: Seq<u8>, a: int, b: int) -> bool {
    slots[a] < slots[b] || (slots[a] == slots[b] && a < b)
}

/// Whether `order` lists every index of `slots` once, in slot order.
pub open spec fn in_slot_order(slots: Seq<u8>, order: Seq<usize>) -> bool {
    &&& order.len() == slots.len()
    &&& forall|i: int| 0 <= i < order.len() ==> (#[trigger] order[i]) < slots.len()
    &&& forall|i: int, j: int|
        0 <= i < j < order.len() ==> slot_before(slots, #[trigger] order[i] as int, #[trigger] order[j] as int)
}

/// The slots of the starting positions, as listed.
pub open spec fn slots_of(starts: Seq<StartingPosition>) -> Seq<u8> {
    starts.map_values(|s: StartingPosition| s.slot)
}

/// Where index `here` goes among `order`: after every entry whose slot is
/// no later than its own.
pub open spec fn slot_insert_pos(order: Seq<usize>, slots: Seq<u8>, here: u8) -> int
    decreases order.len(),
{
    if order.len() == 0 {
        0
    } else if slots[order[0] as int] <= here {
        1 + slot_insert_pos(order.drop_first(), slots, here)
    } else {
        0
    }
}

/// The first `k` indices in slot order, each inserted after every earlier
/// one whose slot is no later than its own.
pub open spec fn slot_order_of(slots: Seq<u8>, k: nat) -> Seq<usize>
    decreases k,
{
    if k == 0 {
        Seq::empty()
    } else {
        let o = slot_order_of(slots, (k - 1) as nat);
        o.insert(slot_insert_pos(o, slots, slots[k - 1]), (k - 1) as usize)
    }
}

/// The order the starting positions are taken in: by slot, and between
/// equal slots in the order the file lists them.
pub fn start_order(starts: &Vec<StartingPosition>) -> (r: Vec<usize>)
    ensures
        r@ == slot_order_of(slots_of(starts@), starts@.len()),
        in_slot_order(slots_of(starts@), r@),
{
    let ghost slots = slots_of(starts@);
    let mut order: Vec<usize> = Vec::new();
    let mut k: usize = 0;
    while k < starts.len()
        invariant
            k <= starts@.len(),
            slots == slots_of(starts@),
            order@ == slot_order_of(slots, k as nat),
            order@.len() == k,
            forall|i: int| 0 <= i < order@.len() ==> (#[trigger] order@[i]) < k,
            forall|i: int, j: int|
                0 <= i < j < order@.len() ==> slot_before(slots, #[trigger] order@[i] as int, #[trigger] order@[j] as int),
        decreases starts@.len() - k,
    {
        let here = starts[k].slot;
        let mut p: usize = 0;
        assert(order@.skip(0) =~= order@);
        while p < order.len() && starts[order[p]].slot <= here
            invariant
                p <= order@.len(),
                k < starts@.len(),
                slots == slots_of(starts@),
                here == slots[k as int],
                forall|i: int| 0 <= i < order@.len() ==> (#[trigger] order@[i]) < k,
                forall|i: int| 0 <= i < p ==> slots[(#[trigger] order@[i]) as int] <= here,
                slot_insert_pos(order@, slots, here) == p + slot_insert_pos(order@.skip(p as int), slots, here),
            decreases order@.len() - p,
        {
            assert(slots[order@[p as int] as int] == starts@[order@[p as int] as int].slot);
            assert(order@.skip(p as int)[0] == order@[p as int]);
            assert(order@.skip(p as int).drop_first() =~= order@.skip(p + 1));
            p = p + 1;
        }
        proof {
            if p < order@.len() {
                assert(slots[order@[p as int] as int] == starts@[order@[p as int] as int].slot);
                assert(order@.skip(p as int)[0] == order@[p as int]);
                assert forall|i: int| p <= i < order@.len() implies here < slots[(#[trigger] order@[i]) as int] by {
                    if i > p {
                        assert(slot_before(slots, order@[p as int] as int, order@[i] as int));
                    }
                }
            }
        }
        let ghost before = order@;
        order.insert(p, k);
        proof {
            assert forall|i: int| 0 <= i < order@.len() implies (#[trigger] order@[i]) < k + 1 by {
                if i < p {
                    assert(order@[i] == before[i]);
                } else if i > p {
                    assert(order@[i] == before[i - 1]);
                }
            }
            assert forall|i: int, j: int| 0 <= i < j < order@.len() implies slot_before(slots, #[trigger] order@[i] as int, #[trigger] order@[j] as int) by {
                if j < p {
                    assert(order@[i] == before[i] && order@[j] == before[j]);
                } else if j == p {
                    assert(order@[i] == before[i]);
                    assert(slots[before[i] as int] <= here);
                } else if i < p {
                    assert(order@[i] == before[i] && order@[j] == before[j - 1]);
                } else if i == p {
                    assert(order@[j] == before[j - 1]);
                    assert(here < slots[before[j - 1] as int]);
                } else {
                    assert(order@[i] == before[i - 1] && order@[j] == before[j - 1]);
                }
            }
        }
        k = k + 1;
    }
    order
}


/// Where insertion puts an index splits a slot-sorted order: everything
/// before it has a slot no later than `here`, everything after a later one.
proof fn lemma_slot_insert_pos_splits(order: Seq<usize>, slots: Seq<u8>, here: u8)
    requires
        forall|i: int, j: int|
            0 <= i < j < order.len() ==> slots[#[trigger] order[i] as int] <= slots[#[trigger] order[j] as int],
    ensures
        0 <= slot_insert_pos(order, slots, here) <= order.len(),
        forall|i: int| 0 <= i < slot_insert_pos(order, slots, here) ==> slots[#[trigger] order[i] as int] <= here,
        forall|i: int|
            slot_insert_pos(order, slots, here) <= i < order.len() ==> here < slots[#[trigger] order[i] as int],
    decreases order.len(),
{
    if order.len() > 0 {
        let rest = order.drop_first();
        assert forall|i: int, j: int| 0 <= i < j < rest.len() implies slots[#[trigger] rest[i] as int]
            <= slots[#[trigger] rest[j] as int] by {
            assert(rest[i] == order[i + 1] && rest[j] == order[j + 1]);
        }
        lemma_slot_insert_pos_splits(rest, slots, here);
        let p = slot_insert_pos(order, slots, here);
        if slots[order[0] as int] <= here {
            assert forall|i: int| 0 <= i < p implies slots[#[trigger] order[i] as int] <= here by {
                if i > 0 {
                    assert(order[i] == rest[i - 1]);
                }
            }
            assert forall|i: int| p <= i < order.len() implies here < slots[#[trigger] order[i] as int] by {
                assert(order[i] == rest[i - 1]);
            }
        } else {
            assert forall|i: int| 0 <= i < order.len() implies here < slots[#[trigger] order[i] as int] by {
                if i > 0 {
                    assert(slots[order[0] as int] <= slots[order[i] as int]);
                }
            }
        }
    }
}

/// Whether `order` lists index `j` somewhere.
pub open spec fn lists_index(order: Seq<usize>, j: int) -> bool {
    exists|i: int| 0 <= i < order.len() && order[i] as int == j
}

/// The slot order of the first `k` indices lists each of them once, in
/// slot order.
proof fn lemma_slot_order_of(slots: Seq<u8>, k: nat)
    requires
        k <= slots.len() <= usize::MAX,
    ensures
        slot_order_of(slots, k).len() == k,
        forall|i: int| 0 <= i < k ==> (#[trigger] slot_order_of(slots, k)[i]) < k,
        forall|j: int| 0 <= j < k ==> #[trigger] lists_index(slot_order_of(slots, k), j),
        forall|i: int, j: int|
            0 <= i < j < k ==> slot_before(
                slots,
                #[trigger] slot_order_of(slots, k)[i] as int,
                #[trigger] slot_order_of(slots, k)[j] as int,
            ),
    decreases k,
{
    if k > 0 {
        let o = slot_order_of(slots, (k - 1) as nat);
        lemma_slot_order_of(slots, (k - 1) as nat);
        let here = slots[k - 1];
        assert forall|i: int, j: int| 0 <= i < j < o.len() implies slots[#[trigger] o[i] as int]
            <= slots[#[trigger] o[j] as int] by {
            assert(slot_before(slots, o[i] as int, o[j] as int));
        }
        lemma_slot_insert_pos_splits(o, slots, here);
        let p = slot_insert_pos(o, slots, here);
        let o2 = o.insert(p, (k - 1) as usize);
        assert(o2 == slot_order_of(slots, k));
        assert forall|i: int| 0 <= i < k implies (#[trigger] o2[i]) < k by {
            if i < p {
                assert(o2[i] == o[i]);
            } else if i > p {
                assert(o2[i] == o[i - 1]);
            }
        }
        assert(o2[p] == (k - 1) as usize);
        assert forall|j: int| 0 <= j < k implies #[trigger] lists_index(o2, j) by {
            if j == k - 1 {
                assert(o2[p] as int == j);
            } else {
                assert(lists_index(o, j));
                let i = choose|i: int| 0 <= i < o.len() && o[i] as int == j;
                if i < p {
                    assert(o2[i] == o[i]);
                } else {
                    assert(o2[i + 1] == o[i]);
                }
            }
        }
        assert forall|i: int, j: int| 0 <= i < j < k implies slot_before(
            slots,
            #[trigger] o2[i] as int,
            #[trigger] o2[j] as int,
        ) by {
            if j < p {
                assert(o2[i] == o[i] && o2[j] == o[j]);
            } else if j == p {
                assert(o2[i] == o[i]);
                assert(o[i] < k - 1);
                assert(slots[o[i] as int] <= here);
            } else if i < p {
                assert(o2[i] == o[i] && o2[j] == o[j - 1]);
            } else if i == p {
                assert(o2[j] == o[j - 1]);
                assert(here < slots[o[j - 1] as int]);
            } else {
                assert(o2[i] == o[i - 1] && o2[j] == o[j - 1]);
            }
        }
    }
}

/// Two strictly increasing sequences holding the same values are the same.
proof fn lemma_increasing_unique(x: Seq<u8>, y: Seq<u8>)
    requires
        forall|i: int, j: int| 0 <= i < j < x.len() ==> #[trigger] x[i] < #[trigger] x[j],
        forall|i: int, j: int| 0 <= i < j < y.len() ==> #[trigger] y[i] < #[trigger] y[j],
        forall|v: u8| x.contains(v) <==> y.contains(v),
    ensures
        x == y,
    decreases x.len(),
{
    if x.len() == 0 {
        if y.len() > 0 {
            assert(y.contains(y[0]));
        }
        assert(x =~= y);
    } else {
        assert(x.contains(x[0]));
        assert(y.len() > 0);
        assert(y.contains(y[0]));
        let i = choose|i: int| 0 <= i < x.len() && x[i] == y[0];
        let j = choose|j: int| 0 <= j < y.len() && y[j] == x[0];
        if i > 0 {
            assert(x[0] < x[i]);
        }
        if j > 0 {
            assert(y[0] < y[j]);
        }
        assert(x[0] == y[0]);
        let (xs, ys) = (x.drop_first(), y.drop_first());
        assert forall|v: u8| xs.contains(v) <==> ys.contains(v) by {
            if xs.contains(v) {
                let a = choose|a: int| 0 <= a < xs.len() && xs[a] == v;
                assert(x[a + 1] == v);
                assert(x.contains(v));
                let b = choose|b: int| 0 <= b < y.len() && y[b] == v;
                assert(x[0] < x[a + 1]);
                assert(b > 0);
                assert(ys[b - 1] == v);
            }
            if ys.contains(v) {
                let b = choose|b: int| 0 <= b < ys.len() && ys[b] == v;
                assert(y[b + 1] == v);
                assert(y.contains(v));
                let a = choose|a: int| 0 <= a < x.len() && x[a] == v;
                assert(y[0] < y[b + 1]);
                assert(a > 0);
                assert(xs[a - 1] == v);
            }
        }
        assert forall|a: int, b: int| 0 <= a < b < xs.len() implies #[trigger] xs[a] < #[trigger] xs[b] by {
            assert(xs[a] == x[a + 1] && xs[b] == x[b + 1]);
        }
        assert forall|a: int, b: int| 0 <= a < b < ys.len() implies #[trigger] ys[a] < #[trigger] ys[b] by {
            assert(ys[a] == y[a + 1] && ys[b] == y[b + 1]);
        }
        lemma_increasing_unique(xs, ys);
        assert(x =~= seq![x[0]] + xs);
        assert(y =~= seq![y[0]] + ys);
    }
}

/// The slots of the starting positions, in the order they are taken.
pub open spec fn slots_taken(starts: Seq<StartingPosition>) -> Seq<u8> {
    let order = slot_order_of(slots_of(starts), starts.len());
    Seq::new(order.len(), |i: int| starts[order[i] as int].slot)
}

/// With no slot claimed twice, the slots are taken in increasing order,
/// and they are exactly the slots claimed.
proof fn lemma_slots_taken(starts: Seq<StartingPosition>)
    requires
        !shared_slot(starts),
        starts.len() <= usize::MAX,
    ensures
        slots_taken(starts).len() == starts.len(),
        forall|i: int, j: int|
            0 <= i < j < slots_taken(starts).len() ==> #[trigger] slots_taken(starts)[i]
                < #[trigger] slots_taken(starts)[j],
        forall|v: u8| slots_taken(starts).contains(v) <==> exists|k: int| 0 <= k < starts.len() && #[trigger] starts[k].slot == v,
{
    let slots = slots_of(starts);
    let n = starts.len();
    lemma_slot_order_of(slots, n);
    let order = slot_order_of(slots, n);
    let x = slots_taken(starts);
    assert forall|i: int, j: int| 0 <= i < j < x.len() implies #[trigger] x[i] < #[trigger] x[j] by {
        assert(slot_before(slots, order[i] as int, order[j] as int));
        assert(slots[order[i] as int] == starts[order[i] as int].slot);
        assert(slots[order[j] as int] == starts[order[j] as int].slot);
        if order[i] as int > order[j] as int {
            assert(starts[order[j] as int].slot != starts[order[i] as int].slot);
        }
    }
    assert forall|v: u8| x.contains(v) implies exists|k: int| 0 <= k < n && #[trigger] starts[k].slot == v by {
        let i = choose|i: int| 0 <= i < x.len() && x[i] == v;
        assert(starts[order[i] as int].slot == v);
    }
    assert forall|v: u8| (exists|k: int| 0 <= k < n && #[trigger] starts[k].slot == v) implies x.contains(v) by {
        let k = choose|k: int| 0 <= k < n && #[trigger] starts[k].slot == v;
        assert(lists_index(order, k));
        let i = choose|i: int| 0 <= i < order.len() && order[i] as int == k;
        assert(x[i] == v);
    }
}

/// What the first `n` players are given depends only on the starting
/// positions in the order they are taken.
proof fn lemma_starts_wants_agree(
    a: Seq<StartingPosition>,
    oa: Seq<usize>,
    b: Seq<StartingPosition>,
    ob: Seq<usize>,
    n: nat,
)
    requires
        n <= oa.len(),
        n <= ob.len(),
        forall|i: int| 0 <= i < n ==> a[#[trigger] oa[i] as int] == b[ob[i] as int],
    ensures
        starts_wants(a, oa, n) == starts_wants(b, ob, n),
    decreases n,
{
    if n > 0 {
        lemma_starts_wants_agree(a, oa, b, ob, (n - 1) as nat);
        assert(a[oa[n - 1] as int] == b[ob[n - 1] as int]);
    }
}

/// Two peers reading the same map build the same match, whatever order
/// the file lists its starting positions in: two maps listing the same
/// starting positions, no slot claimed twice, with the same neutrals, ask
/// for exactly the same placements for any number of players they can
/// hold. So `spawn_plan` gives both the same plan, or the same error.
pub proof fn lemma_listing_order_is_irrelevant(def: MapDef, other: MapDef, players: nat)
    requires
        !shared_slot(def.starts@),
        !shared_slot(other.starts@),
        def.starts@.len() == other.starts@.len(),
        forall|k: int|
            0 <= k < other.starts@.len() ==> exists|j: int|
                0 <= j < def.starts@.len() && #[trigger] other.starts@[k] == def.starts@[j],
        forall|j: int|
            0 <= j < def.starts@.len() ==> exists|k: int|
                0 <= k < other.starts@.len() && #[trigger] def.starts@[j] == other.starts@[k],
        other.neutrals@ == def.neutrals@,
        players <= def.starts@.len(),
    ensures
        all_wants(def, players) == all_wants(other, players),
{
    let (a, b) = (def.starts@, other.starts@);
    let n = a.len();
    assert(def.starts.len() == n && other.starts.len() == b.len());
    lemma_slots_taken(a);
    lemma_slots_taken(b);
    let (x, y) = (slots_taken(a), slots_taken(b));
    assert forall|v: u8| x.contains(v) <==> y.contains(v) by {
        if x.contains(v) {
            let j = choose|j: int| 0 <= j < n && #[trigger] a[j].slot == v;
            let k = choose|k: int| 0 <= k < b.len() && #[trigger] a[j] == b[k];
            assert(b[k].slot == v);
        }
        if y.contains(v) {
            let k = choose|k: int| 0 <= k < n && #[trigger] b[k].slot == v;
            let j = choose|j: int| 0 <= j < a.len() && #[trigger] b[k] == a[j];
            assert(a[j].slot == v);
        }
    }
    lemma_increasing_unique(x, y);
    let oa = slot_order_of(slots_of(a), n);
    let ob = slot_order_of(slots_of(b), n);
    lemma_slot_order_of(slots_of(a), n);
    lemma_slot_order_of(slots_of(b), n);
    assert forall|i: int| 0 <= i < players implies a[#[trigger] oa[i] as int] == b[ob[i] as int] by {
        let k = ob[i] as int;
        let j = choose|j: int| 0 <= j < a.len() && #[trigger] b[k] == a[j];
        assert(x[i] == y[i]);
        assert(a[j].slot == a[oa[i] as int].slot);
        if j != oa[i] as int {
            if j < oa[i] as int {
                assert(a[j].slot != a[oa[i] as int].slot);
            } else {
                assert(a[oa[i] as int].slot != a[j].slot);
            }
        }
    }
    lemma_starts_wants_agree(a, oa, b, ob, players);
}

/// One thing to place when the match begins: whose it is (`None` for
/// nobody's), what it is, and the cell it starts on.
#[derive(Clone, Copy, PartialEq, Eq, Debug)]
pub struct PlannedSpawn {
    pub owner: Option<u8>,
    pub kind: EntityKind,
    pub cell: (i32, i32),
}

/// Something a map asks to be placed, before it is looked up in the rules.
pub struct Wanted {
    pub owner: Option<u8>,
    pub id: Seq<char>,
    pub cell: (int, int),
}

/// What a starting position asks for, owned by `owner`.
pub open spec fn start_wants(s: StartingPosition, owner: u8) -> Seq<Wanted> {
    s.units@.map_values(
        |u: PlacedUnit|
            Wanted {
                owner: Some(owner),
                id: u.id@,
                cell: (s.at.0 + u.offset.0, s.at.1 + u.offset.1),
            },
    )
}

/// What the first `n` starting positions in `order` ask for, the `i`th
/// owned by player `i`.
pub open spec fn starts_wants(starts: Seq<StartingPosition>, order: Seq<usize>, n: nat) -> Seq<Wanted>
    decreases n,
{
    if n == 0 {
        Seq::empty()
    } else {
        starts_wants(starts, order, (n - 1) as nat) + start_wants(
            starts[order[n - 1] as int],
            (n - 1) as u8,
        )
    }
}

/// What the neutral placements ask for.
pub open spec fn neutral_wants(ns: Seq<NeutralUnit>) -> Seq<Wanted> {
    ns.map_values(|n: NeutralUnit| Wanted { owner: None, id: n.id@, cell: (n.at.0 as int, n.at.1 as int) })
}

/// Everything a map asks to be placed for a match of `players`: the
/// players' starting units in slot order, then the neutrals.
pub open spec fn all_wants(def: MapDef, players: nat) -> Seq<Wanted> {
    starts_wants(
        def.starts@,
        slot_order_of(slots_of(def.starts@), def.starts@.len()),
        players,
    ) + neutral_wants(def.neutrals@)
}

/// The first thing asked for that the rules do not define.
pub open spec fn first_unknown(ws: Seq<Wanted>, entities: Seq<EntityDef>) -> Option<Seq<char>>
    decreases ws.len(),
{
    if ws.len() == 0 {
        None
    } else if !has_key(entities, ws[0].id) {
        Some(ws[0].id)
    } else {
        first_unknown(ws.drop_first(), entities)
    }
}

/// Whether a plan places exactly what was asked, each looked up in the
/// rules.
pub open spec fn plan_matches(plan: Seq<PlannedSpawn>, ws: Seq<Wanted>, entities: Seq<EntityDef>) -> bool {
    &&& plan.len() == ws.len()
    &&& forall|i: int|
        0 <= i < plan.len() ==> {
            &&& (#[trigger] plan[i]).owner == ws[i].owner
            &&& plan[i].cell.0 as int == ws[i].cell.0
            &&& plan[i].cell.1 as int == ws[i].cell.1
            &&& last_index_of(entities, ws[i].id, plan[i].kind.0 as int)
        }
}

/// Every starting unit's cell fits a cell coordinate.
pub open spec fn cells_fit(def: MapDef) -> bool {
    forall|i: int, j: int|
        #![trigger def.starts@[i].units@[j]]
        0 <= i < def.starts@.len() && 0 <= j < def.starts@[i].units@.len() ==> {
            &&& i32::MIN <= def.starts@[i].at.0 + def.starts@[i].units@[j].offset.0 <= i32::MAX
            &&& i32::MIN <= def.starts@[i].at.1 + def.starts@[i].units@[j].offset.1 <= i32::MAX
        }
}

proof fn lemma_first_unknown_concat(a: Seq<Wanted>, b: Seq<Wanted>, entities: Seq<EntityDef>)
    ensures
        first_unknown(a + b, entities) == match first_unknown(a, entities) {
            Some(x) => Some(x),
            None => first_unknown(b, entities),
        },
    decreases a.len(),
{
    if a.len() == 0 {
        assert(a + b =~= b);
    } else {
        assert((a + b).drop_first() =~= a.drop_first() + b);
        assert((a + b)[0] == a[0]);
        lemma_first_unknown_concat(a.drop_first(), b, entities);
    }
}

/// A prefix that names something unknown names the first unknown thing of
/// the whole.
proof fn lemma_first_unknown_prefix(p: Seq<Wanted>, ws: Seq<Wanted>, entities: Seq<EntityDef>)
    requires
        p.len() <= ws.len(),
        ws.take(p.len() as int) == p,
        first_unknown(p, entities) is Some,
    ensures
        first_unknown(ws, entities) == first_unknown(p, entities),
{
    assert(ws =~= p + ws.skip(p.len() as int));
    lemma_first_unknown_concat(p, ws.skip(p.len() as int), entities);
}

/// Fewer starting positions ask for a prefix of what more ask for.
proof fn lemma_starts_wants_prefix(starts: Seq<StartingPosition>, order: Seq<usize>, m: nat, n: nat)
    requires
        m <= n,
    ensures
        starts_wants(starts, order, m).len() <= starts_wants(starts, order, n).len(),
        starts_wants(starts, order, n).take(starts_wants(starts, order, m).len() as int)
            == starts_wants(starts, order, m),
    decreases n,
{
    if m < n {
        lemma_starts_wants_prefix(starts, order, m, (n - 1) as nat);
        let a = starts_wants(starts, order, m);
        let b = starts_wants(starts, order, (n - 1) as nat);
        let c = starts_wants(starts, order, n);
        assert(c.take(a.len() as int) =~= b.take(a.len() as int));
    } else {
        let c = starts_wants(starts, order, n);
        assert(c.take(c.len() as int) =~= c);
    }
}

/// Plans the placements of a match of `players` on this map, with kinds
/// from these rules.
///
/// Refuses a match wanting more players than the map has starting
/// positions, and names the first thing placed, in placement order, that
/// the rules do not define.
pub fn spawn_plan(def: &MapDef, rules: &Rules, players: usize) -> (r: Result<Vec<PlannedSpawn>, BuildError>)
    requires
        cells_fit(*def),
    ensures
        match r {
            Ok(plan) => players <= def.starts@.len() && first_unknown(
                all_wants(*def, players as nat),
                rules@.entities,
            ) is None && plan_matches(plan@, all_wants(*def, players as nat), rules@.entities),
            Err(BuildError::TooManyPlayers { asked, available }) => players > def.starts@.len()
                && asked == players && available == def.starts@.len(),
            Err(BuildError::UnknownEntity { id }) => players <= def.starts@.len() && first_unknown(
                all_wants(*def, players as nat),
                rules@.entities,
            ) == Some(id@),
        },
{
    if players > def.starts.len() {
        return Err(BuildError::TooManyPlayers { asked: players, available: def.starts.len() });
    }
    let order = start_order(&def.starts);
    let ghost ents = rules@.entities;
    let ghost ws = all_wants(*def, players as nat);
    let ghost sw = starts_wants(def.starts@, order@, players as nat);
    assert(ws == sw + neutral_wants(def.neutrals@));
    let mut plan: Vec<PlannedSpawn> = Vec::new();
    let mut i: usize = 0;
    while i < players
        invariant
            i <= players <= def.starts@.len(),
            cells_fit(*def),
            in_slot_order(slots_of(def.starts@), order@),
            order@ == slot_order_of(slots_of(def.starts@), def.starts@.len()),
            ents == rules@.entities,
            ws == all_wants(*def, players as nat),
            sw == starts_wants(def.starts@, order@, players as nat),
            ws == sw + neutral_wants(def.neutrals@),
            first_unknown(starts_wants(def.starts@, order@, i as nat), ents) is None,
            plan_matches(plan@, starts_wants(def.starts@, order@, i as nat), ents),
        decreases players - i,
    {
        let ghost done = starts_wants(def.starts@, order@, i as nat);
        assert(order@[i as int] < def.starts@.len());
        let s = &def.starts[order[i]];
        let ghost here = start_wants(*s, i as u8);
        let mut j: usize = 0;
        assert(here.take(0) =~= Seq::<Wanted>::empty());
        assert(done + here.take(0) =~= done);
        while j < s.units.len()
            invariant
                i < players <= def.starts@.len(),
                j <= s.units@.len(),
                cells_fit(*def),
                *s == def.starts@[order@[i as int] as int],
                order@[i as int] < def.starts@.len(),
                ents == rules@.entities,
                ws == all_wants(*def, players as nat),
                sw == starts_wants(def.starts@, order@, players as nat),
                ws == sw + neutral_wants(def.neutrals@),
                done == starts_wants(def.starts@, order@, i as nat),
                here == start_wants(*s, i as u8),
                first_unknown(done + here.take(j as int), ents) is None,
                plan_matches(plan@, done + here.take(j as int), ents),
            decreases s.units@.len() - j,
        {
            let u = &s.units[j];
            let ghost w = here[j as int];
            assert(w == Wanted { owner: Some(i as u8), id: u.id@, cell: (s.at.0 + u.offset.0, s.at.1 + u.offset.1) });
            let ghost pre = done + here.take(j as int);
            assert(pre + seq![w] =~= done + here.take(j + 1));
            match rules.kind_of(u.id.as_str()) {
                Some(k) => {
                    proof {
                        let ii = order@[i as int] as int;
                        assert(def.starts@[ii].units@[j as int] == *u);
                    }
                    let cell = (s.at.0 + u.offset.0, s.at.1 + u.offset.1);
                    let ghost before = plan@;
                    plan.push(PlannedSpawn { owner: Some(i as u8), kind: k, cell });
                    proof {
                        assert(has_key(ents, w.id)) by {
                            assert(ents[k.0 as int].key() == w.id);
                        }
                        lemma_first_unknown_concat(pre, seq![w], ents);
                        assert(first_unknown(seq![w], ents) is None) by {
                            assert(first_unknown(Seq::<Wanted>::empty(), ents) is None);
                            assert(has_key(ents, w.id));
                            assert(seq![w][0] == w);
                            assert(seq![w].drop_first() =~= Seq::<Wanted>::empty());
                        }
                        let p2 = done + here.take(j + 1);
                        assert forall|x: int| 0 <= x < plan@.len() implies {
                            &&& (#[trigger] plan@[x]).owner == p2[x].owner
                            &&& plan@[x].cell.0 as int == p2[x].cell.0
                            &&& plan@[x].cell.1 as int == p2[x].cell.1
                            &&& last_index_of(ents, p2[x].id, plan@[x].kind.0 as int)
                        } by {
                            if x < before.len() {
                                assert(plan@[x] == before[x]);
                                assert(p2[x] == pre[x]);
                            } else {
                                assert(p2[x] == w);
                            }
                        }
                    }
                },
                None => {
                    proof {
                        lemma_first_unknown_concat(pre, seq![w], ents);
                        assert(seq![w][0] == w);
                        let p2 = pre + seq![w];
                        lemma_starts_wants_prefix(def.starts@, order@, (i + 1) as nat, players as nat);
                        let next = starts_wants(def.starts@, order@, (i + 1) as nat);
                        assert(next == done + here);
                        assert(next.take(p2.len() as int) =~= p2);
                        assert(sw.take(p2.len() as int) =~= p2);
                        assert(ws.take(p2.len() as int) =~= p2);
                        lemma_first_unknown_prefix(p2, ws, ents);
                    }
                    return Err(BuildError::UnknownEntity { id: copy_text(&u.id) });
                },
            }
            j = j + 1;
        }
        assert(here.take(s.units@.len() as int) =~= here);
        i = i + 1;
    }
    let ghost nw = neutral_wants(def.neutrals@);
    let mut n: usize = 0;
    assert(sw + nw.take(0) =~= sw);
    while n < def.neutrals.len()
        invariant
            n <= def.neutrals@.len(),
            players <= def.starts@.len(),
            ws == all_wants(*def, players as nat),
            ents == rules@.entities,
            ws == sw + nw,
            nw == neutral_wants(def.neutrals@),
            first_unknown(sw + nw.take(n as int), ents) is None,
            plan_matches(plan@, sw + nw.take(n as int), ents),
        decreases def.neutrals@.len() - n,
    {
        let u = &def.neutrals[n];
        let ghost w = nw[n as int];
        let ghost pre = sw + nw.take(n as int);
        assert(pre + seq![w] =~= sw + nw.take(n + 1));
        match rules.kind_of(u.id.as_str()) {
            Some(k) => {
                let ghost before = plan@;
                plan.push(PlannedSpawn { owner: None, kind: k, cell: u.at });
                proof {
                    assert(has_key(ents, w.id)) by {
                        assert(ents[k.0 as int].key() == w.id);
                    }
                    lemma_first_unknown_concat(pre, seq![w], ents);
                    assert(first_unknown(seq![w], ents) is None) by {
                        assert(first_unknown(Seq::<Wanted>::empty(), ents) is None);
                        assert(has_key(ents, w.id));
                        assert(seq![w][0] == w);
                        assert(seq![w].drop_first() =~= Seq::<Wanted>::empty());
                    }
                    let p2 = sw + nw.take(n + 1);
                    assert forall|x: int| 0 <= x < plan@.len() implies {
                        &&& (#[trigger] plan@[x]).owner == p2[x].owner
                        &&& plan@[x].cell.0 as int == p2[x].cell.0
                        &&& plan@[x].cell.1 as int == p2[x].cell.1
                        &&& last_index_of(ents, p2[x].id, plan@[x].kind.0 as int)
                    } by {
                        if x < before.len() {
                            assert(plan@[x] == before[x]);
                            assert(p2[x] == pre[x]);
                        } else {
                            assert(p2[x] == w);
                        }
                    }
                }
            },
            None => {
                proof {
                    lemma_first_unknown_concat(pre, seq![w], ents);
                    assert(seq![w][0] == w);
                    let p2 = pre + seq![w];
                    assert(ws.take(p2.len() as int) =~= p2);
                    lemma_first_unknown_prefix(p2, ws, ents);
                }
                return Err(BuildError::UnknownEntity { id: copy_text(&u.id) });
            },
        }
        n = n + 1;
    }
    assert(nw.take(def.neutrals@.len() as int) =~= nw);
    Ok(plan)
}

} // verus!
