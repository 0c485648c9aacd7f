//! The rules of the player's interface that are about ordering and
//! bookkeeping rather than drawing: which of the things under the pointer
//! the player meant, what is selected, what is filed under a number key,
//! what a right-click or a hotkey orders, which units carry a health bar,
//! and what the end-of-match banner says.
//!
//! Units are named by their entity ids as plain numbers; a distance is
//! carried as a number that orders the same way the distance does.

use vstd::prelude::*;
use crate::command::PlayerId;
use crate::outlook::UnitFacts;

verus! {

/// Something under the pointer: how much it matters, and how far it is
/// from the pointer (as an order key: a smaller key is nearer).
#[derive(Clone, Copy, PartialEq, Eq, Debug, Structural)]
pub struct Candidate {
    pub priority: u8,
    pub distance: u32,
}

/// Whether `a` is a strictly better pick than `b`: more important, or as
/// important and nearer.
pub open spec fn beats(a: Candidate, b: Candidate) -> bool {
    a.priority > b.priority || (a.priority == b.priority && a.distance < b.distance)
}

/// Whether index `i` is the pick: nothing beats it, and it beats everything
/// before it, so among equals the first one found is kept.
pub open spec fn is_pick(c: Seq<Candidate>, i: int) -> bool {
    &&& 0 <= i < c.len()
    &&& forall|j: int| 0 <= j < c.len() ==> !beats(#[trigger] c[j], c[i])
    &&& forall|j: int| 0 <= j < i ==> beats(c[i], #[trigger] c[j])
}

/// Which of the things under the pointer the player meant.
///
/// Highest priority wins; nearest breaks the tie. Distance alone is wrong in
/// the case that matters: click a crowd of infantry around a tank and the
/// player meant the tank.
pub fn pick_one(candidates: &[Candidate]) -> (r: Option<usize>)
    ensures
        match r {
            Some(i) => is_pick(candidates@, i as int),
            None => candidates@.len() == 0,
        },
{
    if candidates.len() == 0 {
        return None;
    }
    let mut best: usize = 0;
    let mut i: usize = 1;
    while i < candidates.len()
        invariant
            1 <= i <= candidates@.len(),
            best < i,
            forall|j: int| 0 <= j < i ==> !beats(#[trigger] candidates@[j], candidates@[best as int]),
            forall|j: int| 0 <= j < best ==> beats(candidates@[best as int], #[trigger] candidates@[j]),
        decreases candidates@.len() - i,
    {
        let b = candidates[best];
        let c = candidates[i];
        if !(b.priority > c.priority || (b.priority == c.priority && b.distance <= c.distance)) {
            proof {
                assert forall|j: int| 0 <= j < i + 1 implies !beats(#[trigger] candidates@[j], c) by {
                    if j < i {
                        assert(!beats(candidates@[j], b));
                    }
                }
                assert forall|j: int| 0 <= j < i implies beats(c, #[trigger] candidates@[j]) by {
                    assert(!beats(candidates@[j], b));
                }
            }
            best = i;
        }
        i = i + 1;
    }
    Some(best)
}

/// The order of the candidates does not matter to which one is picked:
/// two candidates that are both picks are equal in everything the rule
/// looks at.
pub proof fn lemma_pick_is_order_free(c: Seq<Candidate>, d: Seq<Candidate>, i: int, k: int)
    requires
        is_pick(c, i),
        is_pick(d, k),
        c.to_multiset() == d.to_multiset(),
    ensures
        c[i] == d[k],
{
    assert(c.to_multiset().count(c[i]) > 0) by {
        c.to_multiset_ensures();
    }
    assert(d.to_multiset().count(d[k]) > 0) by {
        d.to_multiset_ensures();
    }
    c.to_multiset_ensures();
    d.to_multiset_ensures();
    assert(d.contains(c[i]));
    assert(c.contains(d[k]));
    let a = choose|x: int| 0 <= x < d.len() && #[trigger] d[x] == c[i];
    let b = choose|x: int| 0 <= x < c.len() && #[trigger] c[x] == d[k];
    assert(!beats(d[a], d[k]));
    assert(!beats(c[b], c[i]));
}

/// What the player currently has selected: entity ids, kept sorted and
/// each once, so the order handed to a command is stable. A command's
/// contents feed the state hash, so an unsorted selection would make two
/// clients disagree over an identical player action.
pub struct Selection {
    pub units: Vec<u64>,
}

/// Strictly increasing, so sorted with nothing twice.
pub open spec fn strictly_increasing(s: Seq<u64>) -> bool {
    forall|i: int, j: int| 0 <= i < j < s.len() ==> s[i] < s[j]
}

/// Where `x` goes in a strictly increasing list: the number of entries
/// below it.
fn sorted_position(v: &Vec<u64>, x: u64) -> (r: usize)
    requires
        strictly_increasing(v@),
    ensures
        r <= v@.len(),
        forall|j: int| 0 <= j < r ==> v@[j] < x,
        forall|j: int| r <= j < v@.len() ==> x <= v@[j],
{
    let mut i: usize = 0;
    while i < v.len()
        invariant
            i <= v@.len(),
            strictly_increasing(v@),
            forall|j: int| 0 <= j < i ==> v@[j] < x,
        decreases v@.len() - i,
    {
        if x <= v[i] {
            return i;
        }
        i = i + 1;
    }
    i
}

impl Default for Selection {
    /// Nothing selected.
    fn default() -> (r: Selection)
        ensures
            r.units@.len() == 0,
    {
        Selection { units: Vec::new() }
    }
}

impl Selection {
    /// Selects exactly these units, sorted, each once.
    pub fn set(&mut self, units: Vec<u64>)
        ensures
            strictly_increasing(final(self).units@),
            forall|x: u64| final(self).units@.contains(x) <==> units@.contains(x),
    {
        let mut out: Vec<u64> = Vec::new();
        let mut i: usize = 0;
        while i < units.len()
            invariant
                i <= units@.len(),
                strictly_increasing(out@),
                forall|x: u64| out@.contains(x) <==> units@.take(i as int).contains(x),
            decreases units@.len() - i,
        {
            let x = units[i];
            let p = sorted_position(&out, x);
            let ghost before = out@;
            if p < out.len() && out[p] == x {
            } else {
                out.insert(p, x);
                proof {
                    assert forall|a: int, b: int| 0 <= a < b < out@.len() implies out@[a] < out@[b] by {
                        if b < p {
                            assert(out@[a] == before[a] && out@[b] == before[b]);
                        } else if b == p {
                            assert(out@[a] == before[a]);
                        } else if a < p {
                            assert(out@[a] == before[a] && out@[b] == before[b - 1]);
                        } else if a == p {
                            assert(out@[b] == before[b - 1]);
                        } else {
                            assert(out@[a] == before[a - 1] && out@[b] == before[b - 1]);
                        }
                    }
                }
            }
            proof {
                assert(units@.take(i + 1) =~= units@.take(i as int).push(x));
                assert forall|y: u64| out@.contains(y) <==> units@.take(i + 1).contains(y) by {
                    if out@.contains(y) {
                        let k = choose|k: int| 0 <= k < out@.len() && #[trigger] out@[k] == y;
                        if y != x {
                            if out@.len() == before.len() {
                                assert(out@ == before);
                                assert(before[k] == y);
                            } else if k < p {
                                assert(before[k] == y);
                            } else {
                                assert(before[k - 1] == y);
                            }
                            assert(before.contains(y));
                            assert(units@.take(i as int).contains(y));
                            let w = choose|w: int| 0 <= w < i && #[trigger] units@.take(i as int)[w] == y;
                            assert(units@.take(i + 1)[w] == y);
                        } else {
                            assert(units@.take(i + 1)[i as int] == x);
                        }
                    }
                    if units@.take(i + 1).contains(y) {
                        let w = choose|w: int| 0 <= w < i + 1 && #[trigger] units@.take(i + 1)[w] == y;
                        if w < i {
                            assert(units@.take(i as int)[w] == y);
                            assert(before.contains(y));
                            let k = choose|k: int| 0 <= k < before.len() && #[trigger] before[k] == y;
                            if out@.len() == before.len() {
                                assert(out@[k] == y);
                            } else if k < p {
                                assert(out@[k] == y);
                            } else {
                                assert(out@[k + 1] == y);
                            }
                        } else {
                            assert(y == x);
                            if out@.len() == before.len() {
                                assert(out@[p as int] == x);
                            } else {
                                assert(out@[p as int] == x);
                            }
                        }
                    }
                }
            }
            i = i + 1;
        }
        assert(units@.take(units@.len() as int) =~= units@);
        self.units = out;
    }

    pub fn clear(&mut self)
        ensures
            final(self).units@.len() == 0,
    {
        self.units = Vec::new();
    }

    pub fn is_empty(&self) -> (r: bool)
        ensures
            r == (self.units@.len() == 0),
    {
        self.units.len() == 0
    }
}

/// How many control groups there are: one per number key, one to nine.
pub const GROUP_COUNT: usize = 9;

/// Units filed under the number keys. A property of one player's interface,
/// not of the world.
pub struct ControlGroups {
    groups: Vec<Vec<u64>>,
}

impl View for ControlGroups {
    type V = Seq<Seq<u64>>;

    closed spec fn view(&self) -> Seq<Seq<u64>> {
        self.groups@.map_values(|g: Vec<u64>| g@)
    }
}

/// A copy of a list of ids.
fn copy_ids(v: &[u64]) -> (r: Vec<u64>)
    ensures
        r@ == v@,
{
    let mut out: Vec<u64> = Vec::new();
    let mut i: usize = 0;
    while i < v.len()
        invariant
            i <= v@.len(),
            out@ == v@.take(i as int),
        decreases v@.len() - i,
    {
        out.push(v[i]);
        i = i + 1;
        assert(out@ =~= v@.take(i as int));
    }
    assert(v@.take(v@.len() as int) =~= v@);
    out
}

/// Whether `x` is among `ids`.
fn holds(ids: &Vec<u64>, x: u64) -> (r: bool)
    ensures
        r == ids@.contains(x),
{
    let mut i: usize = 0;
    while i < ids.len()
        invariant
            i <= ids@.len(),
            forall|j: int| 0 <= j < i ==> ids@[j] != x,
        decreases ids@.len() - i,
    {
        if ids[i] == x {
            return true;
        }
        i = i + 1;
    }
    false
}

/// The ids of `g` that are among `alive`, in order.
pub open spec fn survivors(g: Seq<u64>, alive: Seq<u64>) -> Seq<u64>
    decreases g.len(),
{
    if g.len() == 0 {
        g
    } else if alive.contains(g.last()) {
        survivors(g.drop_last(), alive).push(g.last())
    } else {
        survivors(g.drop_last(), alive)
    }
}

impl ControlGroups {
    #[verifier::type_invariant]
    spec fn well_formed(&self) -> bool {
        self.groups@.len() == GROUP_COUNT
    }

    /// Nine empty groups.
    pub fn new() -> (r: ControlGroups)
        ensures
            r@.len() == GROUP_COUNT,
            forall|i: int| 0 <= i < GROUP_COUNT ==> (#[trigger] r@[i]).len() == 0,
    {
        let mut groups: Vec<Vec<u64>> = Vec::new();
        let mut i: usize = 0;
        while i < GROUP_COUNT
            invariant
                i <= GROUP_COUNT,
                groups@.len() == i,
                forall|k: int| 0 <= k < i ==> (#[trigger] groups@[k])@.len() == 0,
            decreases GROUP_COUNT - i,
        {
            groups.push(Vec::new());
            i = i + 1;
        }
        ControlGroups { groups }
    }

    /// Files these units under group `index`, replacing what was there. An
    /// index past the last group changes nothing.
    pub fn assign(&mut self, index: usize, units: &[u64])
        ensures
            final(self)@ == if index < GROUP_COUNT {
                old(self)@.update(index as int, units@)
            } else {
                old(self)@
            },
    {
        proof {
            use_type_invariant(&*self);
        }
        if index < self.groups.len() {
            let mut groups: Vec<Vec<u64>> = Vec::new();
            let mut i: usize = 0;
            while i < self.groups.len()
                invariant
                    i <= self.groups@.len(),
                    groups@.len() == i,
                    forall|k: int| 0 <= k < i ==> (#[trigger] groups@[k])@ == if k == index {
                        units@
                    } else {
                        self.groups@[k]@
                    },
                decreases self.groups@.len() - i,
            {
                if i == index {
                    groups.push(copy_ids(units));
                } else {
                    groups.push(copy_ids(self.groups[i].as_slice()));
                }
                i = i + 1;
            }
            assert(groups@.map_values(|g: Vec<u64>| g@) =~= old(self)@.update(index as int, units@));
            self.groups = groups;
        }
    }

    /// The units filed under group `index`; none for an index past the
    /// last group.
    pub fn recall(&self, index: usize) -> (r: Vec<u64>)
        ensures
            r@ == if index < GROUP_COUNT {
                self@[index as int]
            } else {
                Seq::<u64>::empty()
            },
    {
        proof {
            use_type_invariant(self);
        }
        if index < self.groups.len() {
            copy_ids(self.groups[index].as_slice())
        } else {
            Vec::new()
        }
    }

    /// Drops units that no longer exist: every group keeps, in order, only
    /// the ids listed in `alive`. Without this a group slowly fills with
    /// the dead.
    pub fn forget_missing(&mut self, alive: &Vec<u64>)
        ensures
            final(self)@.len() == old(self)@.len(),
            forall|k: int| 0 <= k < old(self)@.len() ==> (#[trigger] final(self)@[k]) == survivors(old(self)@[k], alive@),
    {
        proof {
            use_type_invariant(&*self);
        }
        let mut groups: Vec<Vec<u64>> = Vec::new();
        let mut i: usize = 0;
        while i < self.groups.len()
            invariant
                i <= self.groups@.len(),
                groups@.len() == i,
                forall|k: int| 0 <= k < i ==> (#[trigger] groups@[k])@ == survivors(self.groups@[k]@, alive@),
            decreases self.groups@.len() - i,
        {
            let g = &self.groups[i];
            let mut kept: Vec<u64> = Vec::new();
            let mut j: usize = 0;
            assert(g@.take(0) =~= Seq::<u64>::empty());
            while j < g.len()
                invariant
                    j <= g@.len(),
                    kept@ == survivors(g@.take(j as int), alive@),
                decreases g@.len() - j,
            {
                assert(g@.take(j + 1).drop_last() =~= g@.take(j as int));
                assert(g@.take(j + 1).last() == g@[j as int]);
                if holds(alive, g[j]) {
                    kept.push(g[j]);
                }
                j = j + 1;
            }
            assert(g@.take(g@.len() as int) =~= g@);
            groups.push(kept);
            i = i + 1;
        }
        self.groups = groups;
    }
}

/// Health at or below this percentage shows red.
pub const RED_BELOW: u32 = 33;

/// Health at or below this percentage shows yellow.
pub const YELLOW_BELOW: u32 = 66;

/// Which fill a health bar uses: 0 green, 1 yellow, 2 red.
pub fn fill_bucket(percent: u32) -> (r: usize)
    ensures
        r == if percent <= RED_BELOW {
            2usize
        } else if percent <= YELLOW_BELOW {
            1usize
        } else {
            0usize
        },
{
    if percent <= RED_BELOW {
        2
    } else if percent <= YELLOW_BELOW {
        1
    } else {
        0
    }
}

/// Whether a click on the world means "sell that".
pub struct SellMode {
    pub armed: bool,
}

/// Whether a click on the world should be read as "sell that". Disarmed
/// after one sale, so a player cannot demolish their base by leaving the
/// mode on and clicking about.
pub fn take_sell_click(sell: &mut SellMode) -> (r: bool)
    ensures
        r == old(sell).armed,
        !final(sell).armed,
{
    let armed = sell.armed;
    sell.armed = false;
    armed
}

/// Handles a number key: with the assign modifier held, files the selection
/// under that group; otherwise selects the group's units, unless the group
/// is empty, when the selection is left alone.
pub fn press_group_key(
    groups: &mut ControlGroups,
    selection: &mut Selection,
    index: usize,
    assigning: bool,
)
    ensures
        assigning ==> {
            &&& final(groups)@ == if index < GROUP_COUNT {
                old(groups)@.update(index as int, old(selection).units@)
            } else {
                old(groups)@
            }
            &&& final(selection).units@ == old(selection).units@
        },
        !assigning ==> {
            let recalled = if index < GROUP_COUNT {
                old(groups)@[index as int]
            } else {
                Seq::<u64>::empty()
            };
            &&& final(groups)@ == old(groups)@
            &&& recalled.len() == 0 ==> final(selection).units@ == old(selection).units@
            &&& recalled.len() != 0 ==> {
                &&& strictly_increasing(final(selection).units@)
                &&& forall|x: u64| final(selection).units@.contains(x) <==> recalled.contains(x)
            }
        },
{
    if assigning {
        groups.assign(index, selection.units.as_slice());
    } else {
        let recalled = groups.recall(index);
        if recalled.len() != 0 {
            selection.set(recalled);
        }
    }
}

/// An order the player gives the selection.
pub enum UnitOrder {
    /// Attack that unit.
    Attack { units: Vec<u64>, target: u64 },
    /// Advance to that cell, fighting on the way.
    AttackMove { units: Vec<u64>, target: (i32, i32) },
    /// Go to that cell.
    Move { units: Vec<u64>, target: (i32, i32) },
}

/// What an order says.
pub enum UnitOrderView {
    Attack { units: Seq<u64>, target: u64 },
    AttackMove { units: Seq<u64>, target: (i32, i32) },
    Move { units: Seq<u64>, target: (i32, i32) },
}

/// What an order says.
pub open spec fn unit_order_view(o: UnitOrder) -> UnitOrderView {
    match o {
        UnitOrder::Attack { units, target } => UnitOrderView::Attack { units: units@, target },
        UnitOrder::AttackMove { units, target } => UnitOrderView::AttackMove { units: units@, target },
        UnitOrder::Move { units, target } => UnitOrderView::Move { units: units@, target },
    }
}

/// Whether unit `i` is an enemy the player can click on at `cell`:
/// someone else's, alive, standing there, and seen.
pub open spec fn clickable_enemy(field: Seq<UnitFacts>, local: PlayerId, cell: (i32, i32), i: int) -> bool {
    &&& field[i].owner != local
    &&& field[i].alive
    &&& field[i].cell == cell
    &&& field[i].visible
}

/// The first clickable enemy at `cell`, among the first `n` units.
pub open spec fn first_enemy_at(field: Seq<UnitFacts>, local: PlayerId, cell: (i32, i32), n: nat) -> Option<int>
    decreases n,
{
    if n == 0 {
        None
    } else {
        match first_enemy_at(field, local, cell, (n - 1) as nat) {
            Some(i) => Some(i),
            None => if clickable_enemy(field, local, cell, n - 1) {
                Some(n - 1)
            } else {
                None
            },
        }
    }
}

/// What a right-click on `target` orders the selection to do: nothing with
/// nothing selected or off the map; attack a seen enemy standing there;
/// otherwise advance there when the attack-move modifier is held, or go
/// there.
pub open spec fn right_click(
    selection: Seq<u64>,
    field: Seq<UnitFacts>,
    local: PlayerId,
    target: (i32, i32),
    on_map: bool,
    attack_move: bool,
) -> Option<UnitOrderView> {
    if selection.len() == 0 || !on_map {
        None
    } else {
        match first_enemy_at(field, local, target, field.len()) {
            Some(i) => Some(UnitOrderView::Attack { units: selection, target: field[i].id }),
            None => if attack_move {
                Some(UnitOrderView::AttackMove { units: selection, target })
            } else {
                Some(UnitOrderView::Move { units: selection, target })
            },
        }
    }
}

/// Once found, the first enemy stays first however far the search goes.
proof fn lemma_first_enemy_stays(field: Seq<UnitFacts>, local: PlayerId, cell: (i32, i32), n: nat, m: nat)
    requires
        n <= m,
        first_enemy_at(field, local, cell, n) is Some,
    ensures
        first_enemy_at(field, local, cell, m) == first_enemy_at(field, local, cell, n),
    decreases m - n,
{
    if n < m {
        lemma_first_enemy_stays(field, local, cell, n, (m - 1) as nat);
    }
}

/// What the search for an enemy at a cell finds: the first unit, among
/// the first `n`, that is someone else's, alive, standing on the cell and
/// seen; nothing only when no such unit is among them.
proof fn lemma_first_enemy_found(field: Seq<UnitFacts>, local: PlayerId, cell: (i32, i32), n: nat)
    requires
        n <= field.len(),
    ensures
        first_enemy_at(field, local, cell, n) matches Some(i) ==> {
            &&& 0 <= i < n
            &&& field[i].owner != local && field[i].alive && field[i].cell == cell && field[i].visible
            &&& forall|j: int|
                0 <= j < i ==> !((#[trigger] field[j]).owner != local && field[j].alive && field[j].cell
                    == cell && field[j].visible)
        },
        first_enemy_at(field, local, cell, n) is None ==> forall|j: int|
            0 <= j < n ==> !((#[trigger] field[j]).owner != local && field[j].alive && field[j].cell == cell
                && field[j].visible),
    decreases n,
{
    if n > 0 {
        lemma_first_enemy_found(field, local, cell, (n - 1) as nat);
    }
}

/// A right-click attacks only what the player could click on: with units
/// selected and the cell on the map, it attacks the first unit listed that
/// is someone else's, alive, standing on the clicked cell and seen; where
/// there is no such unit (say, only the dead lie there) it moves there, or
/// advances there with the attack-move modifier held. With nothing
/// selected, or off the map, it orders nothing.
pub proof fn lemma_right_click_attacks_only_live_seen_enemies(
    selection: Seq<u64>,
    field: Seq<UnitFacts>,
    local: PlayerId,
    target: (i32, i32),
    on_map: bool,
    attack_move: bool,
)
    ensures
        ({
            let r = right_click(selection, field, local, target, on_map, attack_move);
            &&& (selection.len() == 0 || !on_map) <==> r is None
            &&& r matches Some(UnitOrderView::Attack { units, target: t }) ==> {
                &&& units == selection
                &&& exists|i: int|
                    0 <= i < field.len() && (#[trigger] field[i]).id == t && field[i].owner != local
                        && field[i].alive && field[i].cell == target && field[i].visible && forall|j: int|
                        0 <= j < i ==> !((#[trigger] field[j]).owner != local && field[j].alive
                            && field[j].cell == target && field[j].visible)
            }
            &&& selection.len() > 0 && on_map && (forall|j: int|
                0 <= j < field.len() ==> !((#[trigger] field[j]).owner != local && field[j].alive
                    && field[j].cell == target && field[j].visible)) ==> r == if attack_move {
                Some(UnitOrderView::AttackMove { units: selection, target })
            } else {
                Some(UnitOrderView::Move { units: selection, target })
            }
            &&& selection.len() > 0 && on_map && (exists|j: int|
                0 <= j < field.len() && (#[trigger] field[j]).owner != local && field[j].alive
                    && field[j].cell == target && field[j].visible) ==> r is Some && r.unwrap() is Attack
        }),
{
    lemma_first_enemy_found(field, local, target, field.len());
}

/// The order a right-click gives, as `right_click` says. `on_map` says
/// whether the map holds the clicked cell.
pub fn right_click_order(
    selection: &Selection,
    field: &Vec<UnitFacts>,
    local: PlayerId,
    target: (i32, i32),
    on_map: bool,
    attack_move: bool,
) -> (r: Option<UnitOrder>)
    ensures
        match r {
            Some(o) => right_click(selection.units@, field@, local, target, on_map, attack_move)
                == Some(unit_order_view(o)),
            None => right_click(selection.units@, field@, local, target, on_map, attack_move) is None,
        },
        r matches Some(UnitOrder::Attack { target: t, .. }) ==> exists|i: int|
            0 <= i < field@.len() && (#[trigger] field@[i]).id == t && field@[i].owner != local
                && field@[i].alive && field@[i].cell == target && field@[i].visible,
{
    proof {
        lemma_right_click_attacks_only_live_seen_enemies(selection.units@, field@, local, target, on_map, attack_move);
    }
    if selection.units.len() == 0 || !on_map {
        return None;
    }
    let units = copy_ids(selection.units.as_slice());
    let mut i: usize = 0;
    while i < field.len()
        invariant
            i <= field@.len(),
            units@ == selection.units@,
            selection.units@.len() != 0,
            on_map,
            first_enemy_at(field@, local, target, i as nat) is None,
        decreases field@.len() - i,
    {
        let u = &field[i];
        if u.owner != local && u.alive && u.cell.0 == target.0 && u.cell.1 == target.1 && u.visible {
            proof {
                assert(u.cell == target);
                assert(first_enemy_at(field@, local, target, (i + 1) as nat) == Some(i as int));
                lemma_first_enemy_stays(field@, local, target, (i + 1) as nat, field@.len());
            }
            return Some(UnitOrder::Attack { units, target: u.id });
        }
        i = i + 1;
    }
    if attack_move {
        Some(UnitOrder::AttackMove { units, target })
    } else {
        Some(UnitOrder::Move { units, target })
    }
}

/// How a finished match ended.
#[derive(Clone, Copy, PartialEq, Eq, Debug, Structural)]
pub enum Outcome {
    /// This player won.
    Victory(PlayerId),
    /// Nobody can win any more.
    Stalemate,
}

/// What the end-of-match banner says to `viewer`: from their side, since
/// "player one won" is a fact about the match, while "defeat" is what the
/// person watching needs to know. Nothing while the match goes on.
pub open spec fn verdict_text(outcome: Option<Outcome>, viewer: PlayerId) -> Option<Seq<char>> {
    match outcome {
        None => None,
        Some(Outcome::Victory(winner)) => if winner == viewer {
            Some("VICTORY"@)
        } else {
            Some("DEFEAT"@)
        },
        Some(Outcome::Stalemate) => Some("STALEMATE"@),
    }
}

/// What the end-of-match banner says, as `verdict_text` says.
pub fn verdict_line(outcome: Option<Outcome>, viewer: PlayerId) -> (r: Option<&'static str>)
    ensures
        match r {
            Some(t) => verdict_text(outcome, viewer) == Some(t@),
            None => verdict_text(outcome, viewer) is None,
        },
{
    match outcome {
        None => None,
        Some(Outcome::Victory(winner)) => if winner == viewer {
            Some("VICTORY")
        } else {
            Some("DEFEAT")
        },
        Some(Outcome::Stalemate) => Some("STALEMATE"),
    }
}

/// Whether play is paused after the player asks to toggle it. Pausing a
/// networked match would stall every other player, so there the request
/// changes nothing.
pub fn toggled_pause(paused: bool, networked: bool) -> (r: bool)
    ensures
        r == if networked {
            paused
        } else {
            !paused
        },
{
    if networked {
        paused
    } else {
        !paused
    }
}

/// Whether a unit needs a health bar: when it is damaged, or selected.
/// Most units are neither most of the time, which keeps the bars cheap.
pub open spec fn needs_bar(health_percent: Option<u32>, selected: bool) -> bool {
    (health_percent matches Some(p) && p < 100) || selected
}

/// The units among the first `n` that need a bar, in order.
pub open spec fn bars_for(units: Seq<(u64, Option<u32>)>, selected: Seq<u64>, n: nat) -> Seq<u64>
    decreases n,
{
    if n == 0 {
        Seq::empty()
    } else {
        let (id, health) = units[n - 1];
        let before = bars_for(units, selected, (n - 1) as nat);
        if needs_bar(health, selected.contains(id)) {
            before.push(id)
        } else {
            before
        }
    }
}

/// The units that need a health bar, as `bars_for` says. Each unit is its
/// id and its health in percent, if it has health at all.
pub fn bars_wanted(units: &Vec<(u64, Option<u32>)>, selection: &Selection) -> (r: Vec<u64>)
    ensures
        r@ == bars_for(units@, selection.units@, units@.len()),
{
    let mut out: Vec<u64> = Vec::new();
    let mut i: usize = 0;
    while i < units.len()
        invariant
            i <= units@.len(),
            out@ == bars_for(units@, selection.units@, i as nat),
        decreases units@.len() - i,
    {
        let (id, health) = units[i];
        let damaged = match health {
            Some(p) => p < 100,
            None => false,
        };
        if damaged || holds(&selection.units, id) {
            out.push(id);
        }
        i = i + 1;
    }
    out
}

/// How a health bar's backing is drawn.
#[derive(Clone, Copy, PartialEq, Eq, Debug, Structural)]
pub enum Backing {
    Plain,
    /// Something inside is killing it.
    Infested,
    /// A structure with a garrison.
    Garrisoned,
}

/// How a unit's bar backing is drawn: infestation first, since a parasite
/// is killing the thing it is in while a garrison is only a nuisance to its
/// enemy; then a structure holding anyone; otherwise plain.
pub fn backing_style(infested: bool, carrying: bool, mobile: bool) -> (r: Backing)
    ensures
        r == if infested {
            Backing::Infested
        } else if carrying && !mobile {
            Backing::Garrisoned
        } else {
            Backing::Plain
        },
{
    if infested {
        Backing::Infested
    } else if carrying && !mobile {
        Backing::Garrisoned
    } else {
        Backing::Plain
    }
}

/// The bars to create for the first `n` wanted units: a backing and a fill
/// for each, unless it already has one.
pub open spec fn bars_to_create(present: Seq<(u64, bool)>, wanted: Seq<u64>, n: nat) -> Seq<(u64, bool)>
    decreases n,
{
    if n == 0 {
        Seq::empty()
    } else {
        let id = wanted[n - 1];
        let before = bars_to_create(present, wanted, (n - 1) as nat);
        let with_backing = if present.contains((id, false)) {
            before
        } else {
            before.push((id, false))
        };
        if present.contains((id, true)) {
            with_backing
        } else {
            with_backing.push((id, true))
        }
    }
}

/// The bars among the first `n` present that belong to no wanted unit.
pub open spec fn bars_to_remove(present: Seq<(u64, bool)>, wanted: Seq<u64>, n: nat) -> Seq<(u64, bool)>
    decreases n,
{
    if n == 0 {
        Seq::empty()
    } else {
        let before = bars_to_remove(present, wanted, (n - 1) as nat);
        if wanted.contains(present[n - 1].0) {
            before
        } else {
            before.push(present[n - 1])
        }
    }
}

/// Whether `bars` holds this bar.
fn has_bar(bars: &Vec<(u64, bool)>, bar: (u64, bool)) -> (r: bool)
    ensures
        r == bars@.contains(bar),
{
    let mut i: usize = 0;
    while i < bars.len()
        invariant
            i <= bars@.len(),
            forall|j: int| 0 <= j < i ==> bars@[j] != bar,
        decreases bars@.len() - i,
    {
        let (id, fill) = bars[i];
        if id == bar.0 && fill == bar.1 {
            assert(bars@[i as int] == bar);
            return true;
        }
        i = i + 1;
    }
    false
}

/// What to do so that exactly the wanted units have a bar: the bars to
/// create, as `bars_to_create` says, and the bars to remove, as
/// `bars_to_remove` says. A bar is its unit and whether it is the fill
/// (otherwise the backing).
pub fn plan_bars(present: &Vec<(u64, bool)>, wanted: &Vec<u64>) -> (r: (Vec<(u64, bool)>, Vec<(u64, bool)>))
    ensures
        r.0@ == bars_to_create(present@, wanted@, wanted@.len()),
        r.1@ == bars_to_remove(present@, wanted@, present@.len()),
{
    let mut create: Vec<(u64, bool)> = Vec::new();
    let mut i: usize = 0;
    while i < wanted.len()
        invariant
            i <= wanted@.len(),
            create@ == bars_to_create(present@, wanted@, i as nat),
        decreases wanted@.len() - i,
    {
        let id = wanted[i];
        if !has_bar(present, (id, false)) {
            create.push((id, false));
        }
        if !has_bar(present, (id, true)) {
            create.push((id, true));
        }
        i = i + 1;
    }
    let mut remove: Vec<(u64, bool)> = Vec::new();
    let mut k: usize = 0;
    while k < present.len()
        invariant
            k <= present@.len(),
            remove@ == bars_to_remove(present@, wanted@, k as nat),
        decreases present@.len() - k,
    {
        let bar = present[k];
        if !holds(wanted, bar.0) {
            remove.push(bar);
        }
        k = k + 1;
    }
    (create, remove)
}

/// Finishes a click or a box drag: `chosen` is what it hit (the units in
/// the box, or the one picked under the pointer, or nothing). With the add
/// modifier held the hits join the selection; otherwise they replace it, so
/// a click on empty ground clears it.
pub fn finish_selection(selection: &mut Selection, additive: bool, chosen: Vec<u64>)
    ensures
        strictly_increasing(final(selection).units@),
        forall|x: u64|
            #[trigger] final(selection).units@.contains(x) <==> (chosen@.contains(x) || (additive
                && old(selection).units@.contains(x))),
{
    let mut picked: Vec<u64> = if additive {
        copy_ids(selection.units.as_slice())
    } else {
        Vec::new()
    };
    let ghost kept = picked@;
    assert(kept == if additive {
        old(selection).units@
    } else {
        Seq::<u64>::empty()
    });
    let mut i: usize = 0;
    while i < chosen.len()
        invariant
            i <= chosen@.len(),
            picked@ == kept + chosen@.take(i as int),
        decreases chosen@.len() - i,
    {
        picked.push(chosen[i]);
        i = i + 1;
        assert(picked@ =~= kept + chosen@.take(i as int));
    }
    assert(chosen@.take(chosen@.len() as int) =~= chosen@);
    proof {
        assert forall|x: u64| picked@.contains(x) <==> (chosen@.contains(x) || (additive
            && old(selection).units@.contains(x))) by {
            if picked@.contains(x) {
                let k = choose|k: int| 0 <= k < picked@.len() && picked@[k] == x;
                if k < kept.len() {
                    assert(kept[k] == x);
                } else {
                    assert(chosen@[k - kept.len()] == x);
                }
            }
            if chosen@.contains(x) {
                let k = choose|k: int| 0 <= k < chosen@.len() && chosen@[k] == x;
                assert(picked@[kept.len() + k] == x);
            }
            if additive && old(selection).units@.contains(x) {
                let k = choose|k: int| 0 <= k < kept.len() && kept[k] == x;
                assert(picked@[k] == x);
            }
        }
    }
    let ghost wanted = picked@;
    selection.set(picked);
    assert forall|x: u64| #[trigger] selection.units@.contains(x) <==> (chosen@.contains(x) || (additive
        && old(selection).units@.contains(x))) by {
        assert(selection.units@.contains(x) <==> wanted.contains(x));
    }
}

/// The keys pressed this frame that the hotkeys look at.
#[derive(Clone, Copy, PartialEq, Eq, Debug, Structural)]
pub struct HotkeysPressed {
    /// Clears the selection.
    pub escape: bool,
    /// Stops the selection.
    pub stop: bool,
    /// Deploys the selection, or packs it up again.
    pub deploy: bool,
    /// Pauses or resumes play.
    pub pause: bool,
    /// Saves the match so far as a replay.
    pub save: bool,
}

/// What the hotkeys ask for, in the order they are acted on.
#[derive(Clone, Copy, PartialEq, Eq, Debug, Structural)]
pub enum HotkeyAction {
    ClearSelection,
    Stop,
    Deploy,
    TogglePause,
    SaveReplay,
}

/// What the hotkeys ask for this frame: clearing first, so a selection
/// cleared this frame is neither stopped nor deployed; stop and deploy only
/// with something selected; pause and save whatever is selected.
pub open spec fn hotkey_actions_for(keys: HotkeysPressed, selection_empty: bool) -> Seq<HotkeyAction> {
    let empty = selection_empty || keys.escape;
    (if keys.escape {
        seq![HotkeyAction::ClearSelection]
    } else {
        Seq::empty()
    }) + (if keys.stop && !empty {
        seq![HotkeyAction::Stop]
    } else {
        Seq::empty()
    }) + (if keys.deploy && !empty {
        seq![HotkeyAction::Deploy]
    } else {
        Seq::empty()
    }) + (if keys.pause {
        seq![HotkeyAction::TogglePause]
    } else {
        Seq::empty()
    }) + (if keys.save {
        seq![HotkeyAction::SaveReplay]
    } else {
        Seq::empty()
    })
}

/// What the hotkeys ask for this frame, as `hotkey_actions_for` says.
pub fn hotkey_actions(keys: HotkeysPressed, selection_empty: bool) -> (r: Vec<HotkeyAction>)
    ensures
        r@ == hotkey_actions_for(keys, selection_empty),
{
    let mut out: Vec<HotkeyAction> = Vec::new();
    let empty = selection_empty || keys.escape;
    if keys.escape {
        out.push(HotkeyAction::ClearSelection);
    }
    if keys.stop && !empty {
        out.push(HotkeyAction::Stop);
    }
    if keys.deploy && !empty {
        out.push(HotkeyAction::Deploy);
    }
    if keys.pause {
        out.push(HotkeyAction::TogglePause);
    }
    if keys.save {
        out.push(HotkeyAction::SaveReplay);
    }
    assert(out@ =~= hotkey_actions_for(keys, selection_empty));
    out
}

} // verus!
