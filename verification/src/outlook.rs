//! What a computer opponent reads of the match, and what it decides from it.
//!
//! The opponent only reads the world and returns orders. What it reads is
//! held here as plain facts: each unit on the field, each kind of thing the
//! rules define (as it stands for the opponent's own player), its money, its
//! power, and a finished building waiting to be sited. Every decision is a
//! function of these facts alone: no randomness, no clock, no walk over a
//! hash map, so two peers shown the same facts issue the same orders.

use vstd::prelude::*;
use crate::command::{PlayerId, Tick};
use crate::commander::{
    first_least, first_least_index, in_layout, lemma_first_least_unique, offset_of, ring_of,
    scanned_before, site_candidates, spendable, spendable_of, BASE_RADIUS, LAYOUT_RADIUS,
};
use crate::skill::{competence_of, Difficulty};
use crate::text::contains_text;
use crate::traits::Trait;

verus! {

/// One thing on the field.
pub type EntityId = u64;

/// One kind of thing the rules define, by its place in the rules.
pub type EntityKind = u16;

/// What a player's side reads of one kind: what the rules give it, and
/// what it costs and takes for that player.
pub struct KindFacts {
    /// The traits the rules give the kind.
    pub traits: Vec<Trait>,
    /// What one costs; zero for what is never bought.
    pub cost: u32,
    pub mobile: bool,
    /// The width of its footprint, in cells.
    pub footprint_width: u8,
    pub is_refinery: bool,
    /// How much one carries, for a harvester.
    pub harvest_capacity: Option<u32>,
    /// Whether it has a weapon.
    pub armed: bool,
    /// The player's building that makes this kind, if it has one.
    pub producer: Option<EntityId>,
    pub prerequisites_met: bool,
    pub within_build_limit: bool,
    /// How many the player has, standing or queued.
    pub count: u32,
}

/// What a player's side reads of one unit on the field.
pub struct UnitFacts {
    pub id: EntityId,
    pub owner: PlayerId,
    /// Whether its owner is the neutral side.
    pub neutral: bool,
    pub alive: bool,
    /// Whether it rides inside something.
    pub aboard: bool,
    /// Whether the player reading it can see it.
    pub visible: bool,
    pub kind: EntityKind,
    pub cell: (i32, i32),
    /// What it is shooting at, if anything.
    pub target: Option<EntityId>,
}

/// A building that has finished and waits to be sited.
pub struct ReadyBuilding {
    /// What built it.
    pub producer: EntityId,
    /// Every cell the game would accept it on.
    pub sites: Vec<(i32, i32)>,
}

/// Everything an opponent reads of the match on one tick.
pub struct Outlook {
    pub tick: Tick,
    pub credits: u32,
    /// Whether its power grid covers what it draws.
    pub power_satisfied: bool,
    /// The units on the field, in the order the match lists them.
    pub units: Vec<UnitFacts>,
    /// The kinds, in the order the rules list them: `kinds[k]` is kind `k`.
    pub kinds: Vec<KindFacts>,
    pub ready: Option<ReadyBuilding>,
}

/// A cell far enough from the edge of the coordinate range that a layout
/// around it can be written down.
pub open spec fn cell_has_room(c: (i32, i32)) -> bool {
    &&& i32::MIN + LAYOUT_RADIUS <= c.0 <= i32::MAX - LAYOUT_RADIUS
    &&& i32::MIN + LAYOUT_RADIUS <= c.1 <= i32::MAX - LAYOUT_RADIUS
}

impl Outlook {
    /// Every unit's kind is one the rules define, every kind index fits an
    /// `EntityKind`, and every unit's cell lies far enough from the edge of
    /// the coordinate range for a layout around it.
    pub open spec fn wf(&self) -> bool {
        &&& self.kinds@.len() <= 65536
        &&& forall|i: int|
            0 <= i < self.units@.len() ==> (#[trigger] self.units@[i]).kind < self.kinds@.len()
                && cell_has_room(self.units@[i].cell)
    }

    /// Whether the facts hang together: see `wf`.
    pub fn well_formed(&self) -> (r: bool)
        ensures
            r == self.wf(),
    {
        if self.kinds.len() > 65536 {
            return false;
        }
        let mut i: usize = 0;
        while i < self.units.len()
            invariant
                i <= self.units@.len(),
                forall|j: int|
                    0 <= j < i ==> (#[trigger] self.units@[j]).kind < self.kinds@.len()
                        && cell_has_room(self.units@[j].cell),
            decreases self.units@.len() - i,
        {
            let u = &self.units[i];
            let (x, y) = u.cell;
            if (u.kind as usize) >= self.kinds.len() || x < i32::MIN + LAYOUT_RADIUS || x > i32::MAX
                - LAYOUT_RADIUS || y < i32::MIN + LAYOUT_RADIUS || y > i32::MAX - LAYOUT_RADIUS {
                return false;
            }
            i = i + 1;
        }
        true
    }
}

/// What the rules and the match say of unit `i`'s kind.
pub open spec fn kind_of(o: Outlook, i: int) -> KindFacts {
    o.kinds@[o.units@[i].kind as int]
}

/// Whether unit `i` is a standing structure of `player`'s.
pub open spec fn own_structure(player: PlayerId, o: Outlook, i: int) -> bool {
    &&& o.units@[i].owner == player
    &&& o.units@[i].alive
    &&& !kind_of(o, i).mobile
}

/// Whether unit `i` marks where `player`'s base is: a structure of theirs
/// that makes things, or a big one.
pub open spec fn marks_base(player: PlayerId, o: Outlook, i: int) -> bool {
    own_structure(player, o, i) && (kind_of(o, i).producer is Some || kind_of(o, i).footprint_width
        >= 3)
}

/// The first of the first `n` units that marks the base.
pub open spec fn first_base_mark(player: PlayerId, o: Outlook, n: nat) -> Option<int>
    decreases n,
{
    if n == 0 {
        None
    } else {
        match first_base_mark(player, o, (n - 1) as nat) {
            Some(i) => Some(i),
            None => if marks_base(player, o, n - 1) {
                Some(n - 1)
            } else {
                None
            },
        }
    }
}

/// The first of the first `n` units that is a structure of `player`'s.
pub open spec fn first_structure(player: PlayerId, o: Outlook, n: nat) -> Option<int>
    decreases n,
{
    if n == 0 {
        None
    } else {
        match first_structure(player, o, (n - 1) as nat) {
            Some(i) => Some(i),
            None => if own_structure(player, o, n - 1) {
                Some(n - 1)
            } else {
                None
            },
        }
    }
}

/// Where `player`'s base is: the first thing of theirs that marks it, or
/// failing that the first structure of theirs at all. The fallback outlives
/// the yard, which is when an opponent most needs to know where it lives.
pub open spec fn base_of(player: PlayerId, o: Outlook) -> Option<(i32, i32)> {
    let n = o.units@.len();
    match first_base_mark(player, o, n) {
        Some(i) => Some(o.units@[i].cell),
        None => match first_structure(player, o, n) {
            Some(i) => Some(o.units@[i].cell),
            None => None,
        },
    }
}

/// Once the first base mark is found, looking further does not move it.
proof fn lemma_first_base_mark_stays(player: PlayerId, o: Outlook, n: nat, m: nat)
    requires
        n <= m,
        first_base_mark(player, o, n) is Some,
    ensures
        first_base_mark(player, o, m) == first_base_mark(player, o, n),
    decreases m - n,
{
    if n < m {
        lemma_first_base_mark_stays(player, o, n, (m - 1) as nat);
    }
}

/// The first mark found is a mark, and nothing before it is one.
pub proof fn lemma_first_base_mark_is_first(player: PlayerId, o: Outlook, n: nat)
    ensures
        match first_base_mark(player, o, n) {
            Some(i) => 0 <= i < n && marks_base(player, o, i) && forall|j: int|
                0 <= j < i ==> !#[trigger] marks_base(player, o, j),
            None => forall|j: int| 0 <= j < n ==> !#[trigger] marks_base(player, o, j),
        },
    decreases n,
{
    if n > 0 {
        lemma_first_base_mark_is_first(player, o, (n - 1) as nat);
    }
}

/// The first structure found is one, and nothing before it is one.
pub proof fn lemma_first_structure_is_first(player: PlayerId, o: Outlook, n: nat)
    ensures
        match first_structure(player, o, n) {
            Some(i) => 0 <= i < n && own_structure(player, o, i) && forall|j: int|
                0 <= j < i ==> !#[trigger] own_structure(player, o, j),
            None => forall|j: int| 0 <= j < n ==> !#[trigger] own_structure(player, o, j),
        },
    decreases n,
{
    if n > 0 {
        lemma_first_structure_is_first(player, o, (n - 1) as nat);
    }
}

/// Where `player`'s base is, as `base_of` says.
pub fn base_cell(player: PlayerId, world: &Outlook) -> (r: Option<(i32, i32)>)
    requires
        world.wf(),
    ensures
        r == base_of(player, *world),
        r matches Some(c) ==> cell_has_room(c),
{
    let mut fallback: Option<(i32, i32)> = None;
    let mut i: usize = 0;
    while i < world.units.len()
        invariant
            i <= world.units@.len(),
            world.wf(),
            first_base_mark(player, *world, i as nat) is None,
            fallback == match first_structure(player, *world, i as nat) {
                Some(k) => Some(world.units@[k].cell),
                None => None::<(i32, i32)>,
            },
            fallback matches Some(c) ==> cell_has_room(c),
        decreases world.units@.len() - i,
    {
        let u = &world.units[i];
        let k = &world.kinds[u.kind as usize];
        if u.owner == player && u.alive && !k.mobile {
            if k.producer.is_some() || k.footprint_width >= 3 {
                proof {
                    assert(first_base_mark(player, *world, (i + 1) as nat) == Some(i as int));
                    lemma_first_base_mark_stays(
                        player,
                        *world,
                        (i + 1) as nat,
                        world.units@.len(),
                    );
                }
                return Some(u.cell);
            }
            if fallback.is_none() {
                fallback = Some(u.cell);
            }
        }
        i = i + 1;
    }
    fallback
}

/// One order an opponent gives.
pub enum Order {
    /// Send these units at that target.
    Attack { units: Vec<EntityId>, target: EntityId },
    /// Put the building that `producer` finished at this cell.
    PlaceBuilding { producer: EntityId, at: (i32, i32) },
    /// Have `building` make one of `kind`.
    Produce { building: EntityId, kind: EntityKind },
}

/// What an order says.
pub enum OrderView {
    Attack { units: Seq<EntityId>, target: EntityId },
    PlaceBuilding { producer: EntityId, at: (i32, i32) },
    Produce { building: EntityId, kind: EntityKind },
}

/// What an order says.
pub open spec fn order_view(o: Order) -> OrderView {
    match o {
        Order::Attack { units, target } => OrderView::Attack { units: units@, target },
        Order::PlaceBuilding { producer, at } => OrderView::PlaceBuilding { producer, at },
        Order::Produce { building, kind } => OrderView::Produce { building, kind },
    }
}

/// What each order in a list says.
pub open spec fn order_views(s: Seq<Order>) -> Seq<OrderView> {
    s.map_values(|o: Order| order_view(o))
}

/// How far apart two cells are, counting a diagonal step as one.
pub open spec fn cell_distance(a: (i32, i32), b: (i32, i32)) -> int {
    ring_of(a.0 - b.0, a.1 - b.1)
}

/// How far apart two cells are, counting a diagonal step as one.
pub fn distance_between(a: (i32, i32), b: (i32, i32)) -> (r: u64)
    ensures
        r == cell_distance(a, b),
{
    let dx: i64 = a.0 as i64 - b.0 as i64;
    let dy: i64 = a.1 as i64 - b.1 as i64;
    let ax: u64 = if dx < 0 {
        (-dx) as u64
    } else {
        dx as u64
    };
    let ay: u64 = if dy < 0 {
        (-dy) as u64
    } else {
        dy as u64
    };
    if ax > ay {
        ax
    } else {
        ay
    }
}

/// How far unit `i` is from `player`'s base, if it is an intruder there:
/// someone else's, not the neutral side's, alive, seen, and inside the base
/// radius.
pub open spec fn intruder_distance(player: PlayerId, o: Outlook, base: (i32, i32), i: int) -> Option<
    u32,
> {
    let u = o.units@[i];
    let d = cell_distance(u.cell, base);
    if u.owner == player || u.neutral || !u.alive || !u.visible || d > BASE_RADIUS {
        None
    } else {
        Some(d as u32)
    }
}

/// The intruder distance of every unit, in order.
pub open spec fn intruder_distances(player: PlayerId, o: Outlook, base: (i32, i32)) -> Seq<
    Option<u32>,
> {
    Seq::new(o.units@.len(), |i: int| intruder_distance(player, o, base, i))
}

/// The intruder nearest the base; of several equally near, the first.
/// Every defender goes at the same one: the nearest to the base, not to
/// any particular defender.
pub open spec fn nearest_intruder(player: PlayerId, o: Outlook, base: (i32, i32)) -> Option<int> {
    let d = intruder_distances(player, o, base);
    if exists|i: int| first_least(d, i) {
        Some(choose|i: int| first_least(d, i))
    } else {
        None
    }
}

/// Whether unit `i` is one of `player`'s that can fight and is not already
/// fighting `target`: reissuing the order to those would flood the queue
/// with nothing.
pub open spec fn defends(player: PlayerId, o: Outlook, target: EntityId, i: int) -> bool {
    let u = o.units@[i];
    &&& u.owner == player
    &&& u.alive
    &&& !u.aboard
    &&& kind_of(o, i).mobile
    &&& kind_of(o, i).armed
    &&& u.target != Some(target)
}

/// The ids of the defenders among the first `n` units, in order.
pub open spec fn defenders_among(player: PlayerId, o: Outlook, target: EntityId, n: nat) -> Seq<
    EntityId,
>
    decreases n,
{
    if n == 0 {
        Seq::empty()
    } else {
        let s = defenders_among(player, o, target, (n - 1) as nat);
        if defends(player, o, target, n - 1) {
            s.push(o.units@[n - 1].id)
        } else {
            s
        }
    }
}

/// How `player` defends its base: every defender sent at the nearest
/// intruder. Nothing when it has no base, nobody is inside it, or nothing
/// of its own can go.
pub open spec fn defence_of(player: PlayerId, o: Outlook) -> Option<OrderView> {
    match base_of(player, o) {
        None => None,
        Some(base) => match nearest_intruder(player, o, base) {
            None => None,
            Some(i) => {
                let target = o.units@[i].id;
                let units = defenders_among(player, o, target, o.units@.len());
                if units.len() == 0 {
                    None
                } else {
                    Some(OrderView::Attack { units, target })
                }
            },
        },
    }
}

/// The intruder distances around `base`, as `intruder_distances` says.
fn intruder_distance_list(player: PlayerId, world: &Outlook, base: (i32, i32)) -> (r: Vec<
    Option<u32>,
>)
    ensures
        r@ == intruder_distances(player, *world, base),
{
    let mut out: Vec<Option<u32>> = Vec::new();
    let mut i: usize = 0;
    while i < world.units.len()
        invariant
            i <= world.units@.len(),
            out@ == intruder_distances(player, *world, base).take(i as int),
        decreases world.units@.len() - i,
    {
        let u = &world.units[i];
        let d = distance_between(u.cell, base);
        let entry = if u.owner == player || u.neutral || !u.alive || !u.visible || d > (
        BASE_RADIUS as u64) {
            None
        } else {
            Some(d as u32)
        };
        out.push(entry);
        assert(out@ =~= intruder_distances(player, *world, base).take(i + 1));
        i = i + 1;
    }
    assert(out@ =~= intruder_distances(player, *world, base));
    out
}

/// Sends the standing army at anything hostile inside the base, as
/// `defence_of` says. This is the whole of a dummy's aggression: walk into
/// its base and it fights; it will not come to you.
pub fn defend(player: PlayerId, world: &Outlook) -> (r: Option<Order>)
    requires
        world.wf(),
    ensures
        match r {
            Some(x) => defence_of(player, *world) == Some(order_view(x)),
            None => defence_of(player, *world) is None,
        },
{
    let base = match base_cell(player, world) {
        Some(b) => b,
        None => return None,
    };
    let dists = intruder_distance_list(player, world, base);
    let ghost d = intruder_distances(player, *world, base);
    let found = first_least_index(&dists);
    let i = match found {
        Some(i) => i,
        None => {
            assert(!exists|i: int| first_least(d, i));
            return None;
        },
    };
    proof {
        let j = choose|j: int| first_least(d, j);
        lemma_first_least_unique(d, i as int, j);
    }
    let target = world.units[i].id;
    let mut units: Vec<EntityId> = Vec::new();
    let mut k: usize = 0;
    while k < world.units.len()
        invariant
            world.wf(),
            k <= world.units@.len(),
            units@ == defenders_among(player, *world, target, k as nat),
        decreases world.units@.len() - k,
    {
        let u = &world.units[k];
        let kind = &world.kinds[u.kind as usize];
        let busy = match u.target {
            Some(t) => t == target,
            None => false,
        };
        if u.owner == player && u.alive && !u.aboard && kind.mobile && kind.armed && !busy {
            units.push(u.id);
        }
        k = k + 1;
    }
    if units.len() == 0 {
        None
    } else {
        Some(Order::Attack { units, target })
    }
}

/// What an opponent can make units from.
pub enum Category {
    Infantry,
    Vehicle,
}

/// The name the rules give a category.
pub open spec fn category_name(c: Category) -> Seq<char> {
    match c {
        Category::Infantry => "infantry"@,
        Category::Vehicle => "vehicle"@,
    }
}

impl Category {
    /// The name the rules give this category.
    pub fn name(&self) -> (r: &'static str)
        ensures
            r@ == category_name(*self),
    {
        match self {
            Category::Infantry => "infantry",
            Category::Vehicle => "vehicle",
        }
    }
}

/// A test a kind is chosen by.
pub enum Want {
    /// Something that supplies power.
    Power,
    Refinery,
    Harvester,
    /// Something that makes units of this category.
    Maker(Category),
    /// Something that moves and shoots.
    Army,
}

/// Whether some trait supplies power.
pub open spec fn supplies_power(traits: Seq<Trait>) -> bool {
    exists|i: int| 0 <= i < traits.len() && #[trigger] traits[i] is PowerSupply
}

/// Whether a trait makes units of the named category.
pub open spec fn trait_makes(t: Trait, category: Seq<char>) -> bool {
    t matches Trait::Produces { categories } && exists|j: int|
        0 <= j < categories@.len() && #[trigger] categories@[j]@ == category
}

/// Whether some trait makes units of the named category.
pub open spec fn makes_category(traits: Seq<Trait>, category: Seq<char>) -> bool {
    exists|i: int| 0 <= i < traits.len() && #[trigger] trait_makes(traits[i], category)
}

/// Whether a kind passes a test.
pub open spec fn fits_want(k: KindFacts, w: Want) -> bool {
    match w {
        Want::Power => supplies_power(k.traits@),
        Want::Refinery => k.is_refinery,
        Want::Harvester => k.harvest_capacity is Some,
        Want::Maker(c) => makes_category(k.traits@, category_name(c)),
        Want::Army => k.mobile && k.armed,
    }
}

/// What a kind would cost the opponent, if it passes the test and could be
/// built now: bought at all, made by something it has, its prerequisites
/// met and its build limit not reached.
pub open spec fn candidate_cost(k: KindFacts, w: Want) -> Option<u32> {
    if k.cost != 0 && fits_want(k, w) && k.producer is Some && k.prerequisites_met
        && k.within_build_limit {
        Some(k.cost)
    } else {
        None
    }
}

/// The candidate cost of every kind, in the order the rules list them.
pub open spec fn candidate_costs(o: Outlook, w: Want) -> Seq<Option<u32>> {
    Seq::new(o.kinds@.len(), |k: int| candidate_cost(o.kinds@[k], w))
}

/// The cheapest kind that passes the test and could be built now; of
/// several equally cheap, the one the rules list first.
pub open spec fn cheapest_of(o: Outlook, w: Want) -> Option<int> {
    let c = candidate_costs(o, w);
    if exists|k: int| first_least(c, k) {
        Some(choose|k: int| first_least(c, k))
    } else {
        None
    }
}

/// Whether one of kind `k` is standing or on its way.
pub open spec fn coming(o: Outlook, k: int) -> bool {
    o.kinds@[k].count > 0
}

/// Whether `player` has a living unit whose kind passes the test.
pub open spec fn owns_kind_where(player: PlayerId, o: Outlook, w: Want) -> bool {
    exists|i: int|
        0 <= i < o.units@.len() && (#[trigger] o.units@[i]).owner == player && o.units@[i].alive
            && fits_want(kind_of(o, i), w)
}

/// The cheapest kind that passes the test, unless one is already coming.
pub open spec fn unless_coming(o: Outlook, w: Want) -> Option<int> {
    match cheapest_of(o, w) {
        Some(k) => if coming(o, k) {
            None
        } else {
            Some(k)
        },
        None => None,
    }
}

/// A power plant, when the grid is short and none is already coming.
pub open spec fn power_want(o: Outlook) -> Option<int> {
    if o.power_satisfied {
        None
    } else {
        unless_coming(o, Want::Power)
    }
}

/// How many harvesters of the first `n` kinds the player has, standing or
/// queued: two different miners are still two miners.
pub open spec fn miners(o: Outlook, n: nat) -> int
    decreases n,
{
    if n == 0 {
        0
    } else {
        miners(o, (n - 1) as nat) + if o.kinds@[n - 1].harvest_capacity is Some {
            o.kinds@[n - 1].count as int
        } else {
            0
        }
    }
}

/// A refinery when it has none, or a harvester when it is short of them.
pub open spec fn economy_want(player: PlayerId, d: Difficulty, o: Outlook) -> Option<int> {
    if !owns_kind_where(player, o, Want::Refinery) {
        unless_coming(o, Want::Refinery)
    } else if miners(o, o.kinds@.len()) < 2 + competence_of(d) / 40 {
        cheapest_of(o, Want::Harvester)
    } else {
        None
    }
}

/// Something to make units of this category from, when it has none.
pub open spec fn maker_want(player: PlayerId, o: Outlook, c: Category) -> Option<int> {
    if owns_kind_where(player, o, Want::Maker(c)) {
        None
    } else {
        unless_coming(o, Want::Maker(c))
    }
}

/// Somewhere to make units from: infantry first, then vehicles.
pub open spec fn production_want(player: PlayerId, o: Outlook) -> Option<int> {
    match maker_want(player, o, Category::Infantry) {
        Some(k) => Some(k),
        None => maker_want(player, o, Category::Vehicle),
    }
}

/// The cheapest armed thing it can build, endlessly.
pub open spec fn army_want(o: Outlook) -> Option<int> {
    cheapest_of(o, Want::Army)
}

/// The first thing it wants, in priority order: power before economy
/// before production before army.
pub open spec fn first_want(player: PlayerId, d: Difficulty, o: Outlook) -> Option<int> {
    match power_want(o) {
        Some(k) => Some(k),
        None => match economy_want(player, d, o) {
            Some(k) => Some(k),
            None => match production_want(player, o) {
                Some(k) => Some(k),
                None => army_want(o),
            },
        },
    }
}

/// What it builds next: the first thing it wants, if it can spend that
/// much; otherwise it saves up rather than buying something cheaper.
pub open spec fn build_of(player: PlayerId, d: Difficulty, o: Outlook) -> Option<OrderView> {
    match first_want(player, d, o) {
        None => None,
        Some(k) => if o.kinds@[k].cost > spendable_of(d, o.credits) {
            None
        } else {
            match o.kinds@[k].producer {
                Some(building) => Some(OrderView::Produce { building, kind: k as EntityKind }),
                None => None,
            }
        },
    }
}

/// A kind index as a plain integer.
pub open spec fn kind_index(r: Option<EntityKind>) -> Option<int> {
    match r {
        Some(k) => Some(k as int),
        None => None,
    }
}

/// Whether some trait supplies power.
pub fn supplies_power_in(traits: &Vec<Trait>) -> (r: bool)
    ensures
        r == supplies_power(traits@),
{
    let mut i: usize = 0;
    while i < traits.len()
        invariant
            i <= traits@.len(),
            forall|j: int| 0 <= j < i ==> !(#[trigger] traits@[j] is PowerSupply),
        decreases traits@.len() - i,
    {
        if let Trait::PowerSupply { .. } = &traits[i] {
            return true;
        }
        i = i + 1;
    }
    false
}

/// Whether some trait makes units of the named category.
pub fn makes_category_in(traits: &Vec<Trait>, category: &str) -> (r: bool)
    ensures
        r == makes_category(traits@, category@),
{
    let mut i: usize = 0;
    while i < traits.len()
        invariant
            i <= traits@.len(),
            forall|j: int| 0 <= j < i ==> !#[trigger] trait_makes(traits@[j], category@),
        decreases traits@.len() - i,
    {
        if let Trait::Produces { categories } = &traits[i] {
            if contains_text(categories, category) {
                assert(trait_makes(traits@[i as int], category@));
                return true;
            }
        }
        i = i + 1;
    }
    false
}

/// Whether a kind passes a test.
pub fn fits(k: &KindFacts, w: &Want) -> (r: bool)
    ensures
        r == fits_want(*k, *w),
{
    match w {
        Want::Power => supplies_power_in(&k.traits),
        Want::Refinery => k.is_refinery,
        Want::Harvester => k.harvest_capacity.is_some(),
        Want::Maker(c) => makes_category_in(&k.traits, c.name()),
        Want::Army => k.mobile && k.armed,
    }
}

/// The cheapest kind that passes the test and could be built now, as
/// `cheapest_of` says.
pub fn cheapest(world: &Outlook, w: &Want) -> (r: Option<EntityKind>)
    requires
        world.wf(),
    ensures
        kind_index(r) == cheapest_of(*world, *w),
{
    let mut costs: Vec<Option<u32>> = Vec::new();
    let mut i: usize = 0;
    while i < world.kinds.len()
        invariant
            i <= world.kinds@.len(),
            costs@ == candidate_costs(*world, *w).take(i as int),
        decreases world.kinds@.len() - i,
    {
        let k = &world.kinds[i];
        let entry = if k.cost != 0 && fits(k, w) && k.producer.is_some() && k.prerequisites_met
            && k.within_build_limit {
            Some(k.cost)
        } else {
            None
        };
        costs.push(entry);
        assert(costs@ =~= candidate_costs(*world, *w).take(i + 1));
        i = i + 1;
    }
    let ghost c = candidate_costs(*world, *w);
    assert(costs@ =~= c);
    match first_least_index(&costs) {
        Some(k) => {
            proof {
                let j = choose|j: int| first_least(c, j);
                lemma_first_least_unique(c, k as int, j);
            }
            Some(k as EntityKind)
        },
        None => {
            assert(!exists|k: int| first_least(c, k));
            None
        },
    }
}

/// Whether `player` has a living unit whose kind passes the test.
pub fn owns_kind(player: PlayerId, world: &Outlook, w: &Want) -> (r: bool)
    requires
        world.wf(),
    ensures
        r == owns_kind_where(player, *world, *w),
{
    let mut i: usize = 0;
    while i < world.units.len()
        invariant
            world.wf(),
            i <= world.units@.len(),
            forall|j: int|
                0 <= j < i ==> !((#[trigger] world.units@[j]).owner == player
                    && world.units@[j].alive && fits_want(kind_of(*world, j), *w)),
        decreases world.units@.len() - i,
    {
        let u = &world.units[i];
        if u.owner == player && u.alive && fits(&world.kinds[u.kind as usize], w) {
            return true;
        }
        i = i + 1;
    }
    false
}

/// The cheapest kind that passes the test, unless one is already coming.
fn cheapest_unless_coming(world: &Outlook, w: &Want) -> (r: Option<EntityKind>)
    requires
        world.wf(),
    ensures
        kind_index(r) == unless_coming(*world, *w),
{
    match cheapest(world, w) {
        Some(k) => if world.kinds[k as usize].count > 0 {
            None
        } else {
            Some(k)
        },
        None => None,
    }
}

/// A power plant, when the grid is short and none is already coming.
pub fn wants_power(world: &Outlook) -> (r: Option<EntityKind>)
    requires
        world.wf(),
    ensures
        kind_index(r) == power_want(*world),
{
    if world.power_satisfied {
        return None;
    }
    cheapest_unless_coming(world, &Want::Power)
}

/// How many harvesters the player has, standing or queued.
fn miner_count(world: &Outlook) -> (r: u64)
    requires
        world.wf(),
    ensures
        r == miners(*world, world.kinds@.len()),
{
    let mut total: u64 = 0;
    let mut i: usize = 0;
    while i < world.kinds.len()
        invariant
            world.wf(),
            i <= world.kinds@.len(),
            total == miners(*world, i as nat),
            total <= i * 0xffff_ffff,
        decreases world.kinds@.len() - i,
    {
        if world.kinds[i].harvest_capacity.is_some() {
            total = total + world.kinds[i].count as u64;
        }
        i = i + 1;
    }
    total
}

/// A refinery when it has none, or a harvester when it is short of them.
pub fn wants_economy(player: PlayerId, d: Difficulty, world: &Outlook) -> (r: Option<EntityKind>)
    requires
        world.wf(),
    ensures
        kind_index(r) == economy_want(player, d, *world),
{
    if !owns_kind(player, world, &Want::Refinery) {
        return cheapest_unless_coming(world, &Want::Refinery);
    }
    if miner_count(world) < d.harvesters_wanted() as u64 {
        return cheapest(world, &Want::Harvester);
    }
    None
}

/// Something to make units of this category from, when it has none.
fn wants_maker(player: PlayerId, world: &Outlook, c: Category) -> (r: Option<EntityKind>)
    requires
        world.wf(),
    ensures
        kind_index(r) == maker_want(player, *world, c),
{
    let w = Want::Maker(c);
    if owns_kind(player, world, &w) {
        return None;
    }
    cheapest_unless_coming(world, &w)
}

/// Somewhere to make units from, when it has none: infantry first.
pub fn wants_production(player: PlayerId, world: &Outlook) -> (r: Option<EntityKind>)
    requires
        world.wf(),
    ensures
        kind_index(r) == production_want(player, *world),
        forall|k: int|
            #[trigger] should_order_maker(player, *world, "infantry"@, k) ==> kind_index(r) == Some(k),
        forall|k: int|
            (forall|j: int| !#[trigger] should_order_maker(player, *world, "infantry"@, j))
                && #[trigger] should_order_maker(player, *world, "vehicle"@, k) ==> kind_index(r) == Some(k),
        r matches Some(k) ==> should_order_maker(player, *world, "infantry"@, k as int)
            || should_order_maker(player, *world, "vehicle"@, k as int),
{
    proof {
        lemma_production_wants(player, *world);
    }
    match wants_maker(player, world, Category::Infantry) {
        Some(k) => Some(k),
        None => wants_maker(player, world, Category::Vehicle),
    }
}

/// The cheapest armed thing it can build.
pub fn wants_army(world: &Outlook) -> (r: Option<EntityKind>)
    requires
        world.wf(),
    ensures
        kind_index(r) == army_want(*world),
{
    cheapest(world, &Want::Army)
}

/// Picks the next thing to build, as `build_of` says.
pub fn build_something(player: PlayerId, d: Difficulty, world: &Outlook) -> (r: Option<Order>)
    requires
        world.wf(),
    ensures
        match r {
            Some(x) => build_of(player, d, *world) == Some(order_view(x)),
            None => build_of(player, d, *world) is None,
        },
{
    let power = wants_power(world);
    let economy = wants_economy(player, d, world);
    let production = wants_production(player, world);
    let army = wants_army(world);
    let first = match power {
        Some(k) => Some(k),
        None => match economy {
            Some(k) => Some(k),
            None => match production {
                Some(k) => Some(k),
                None => army,
            },
        },
    };
    let kind = match first {
        Some(k) => k,
        None => return None,
    };
    let facts = &world.kinds[kind as usize];
    if facts.cost as u64 > spendable(d, world.credits) {
        return None;
    }
    match facts.producer {
        Some(building) => Some(Order::Produce { building, kind }),
        None => None,
    }
}

/// Whether cell `c` is a legal site in the layout around `base`.
pub open spec fn layout_site(base: (i32, i32), sites: Seq<(i32, i32)>, c: (i32, i32)) -> bool {
    sites.contains(c) && in_layout(offset_of(base, c).0, offset_of(base, c).1)
}

/// Whether `c` is the legal site the scan around `base` reaches first.
pub open spec fn is_first_site(base: (i32, i32), sites: Seq<(i32, i32)>, c: (i32, i32)) -> bool {
    &&& layout_site(base, sites, c)
    &&& forall|c2: (i32, i32)|
        #[trigger] layout_site(base, sites, c2) && c2 != c ==> scanned_before(
            offset_of(base, c),
            offset_of(base, c2),
        )
}

/// Where a building goes: the first legal site the scan outwards from the
/// base reaches, nearer rings first, each ring row by row and left to
/// right. Nothing when no site in the layout is legal.
pub open spec fn site_of(base: (i32, i32), sites: Seq<(i32, i32)>) -> Option<(i32, i32)> {
    if exists|c: (i32, i32)| is_first_site(base, sites, c) {
        Some(choose|c: (i32, i32)| is_first_site(base, sites, c))
    } else {
        None
    }
}

/// At most one site is reached first.
pub proof fn lemma_first_site_unique(
    base: (i32, i32),
    sites: Seq<(i32, i32)>,
    a: (i32, i32),
    b: (i32, i32),
)
    requires
        is_first_site(base, sites, a),
        is_first_site(base, sites, b),
    ensures
        a == b,
{
    if a != b {
        assert(layout_site(base, sites, b));
        assert(layout_site(base, sites, a));
    }
}

/// Whether `c` is one of `cells`.
fn has_cell(cells: &Vec<(i32, i32)>, c: (i32, i32)) -> (r: bool)
    ensures
        r == cells@.contains(c),
{
    let mut i: usize = 0;
    while i < cells.len()
        invariant
            i <= cells@.len(),
            forall|j: int| 0 <= j < i ==> #[trigger] cells@[j] != c,
        decreases cells@.len() - i,
    {
        let (x, y) = cells[i];
        if x == c.0 && y == c.1 {
            assert(cells@[i as int] == c);
            return true;
        }
        i = i + 1;
    }
    false
}

/// Somewhere legal to put a building, as `site_of` says: a deterministic
/// scan rather than a random spot, which would desync.
pub fn site_for(base: (i32, i32), sites: &Vec<(i32, i32)>) -> (r: Option<(i32, i32)>)
    requires
        cell_has_room(base),
    ensures
        r == site_of(base, sites@),
{
    let candidates = site_candidates(base);
    let mut i: usize = 0;
    while i < candidates.len()
        invariant
            i <= candidates@.len(),
            forall|j: int| 0 <= j < i ==> !sites@.contains(#[trigger] candidates@[j]),
            forall|j: int|
                0 <= j < candidates@.len() ==> in_layout(
                    #[trigger] offset_of(base, candidates@[j]).0,
                    offset_of(base, candidates@[j]).1,
                ),
            forall|j: int, k: int|
                0 <= j < k < candidates@.len() ==> scanned_before(
                    offset_of(base, #[trigger] candidates@[j]),
                    offset_of(base, #[trigger] candidates@[k]),
                ),
            forall|dx: int, dy: int|
                in_layout(dx, dy) ==> exists|j: int|
                    0 <= j < candidates@.len() && #[trigger] offset_of(base, candidates@[j]) == (
                    dx,
                    dy,
                ),
        decreases candidates@.len() - i,
    {
        let c = candidates[i];
        if has_cell(sites, c) {
            proof {
                assert(c == candidates@[i as int]);
                let o = offset_of(base, candidates@[i as int]);
                assert(in_layout(o.0, o.1));
                assert forall|c2: (i32, i32)| #[trigger]
                    layout_site(base, sites@, c2) && c2 != c implies scanned_before(
                    offset_of(base, c),
                    offset_of(base, c2),
                ) by {
                    let o2 = offset_of(base, c2);
                    assert(in_layout(o2.0, o2.1));
                    assert(exists|j: int|
                        0 <= j < candidates@.len() && #[trigger] offset_of(base, candidates@[j])
                            == (o2.0, o2.1));
                    let j = choose|j: int|
                        0 <= j < candidates@.len() && #[trigger] offset_of(base, candidates@[j])
                            == (o2.0, o2.1);
                    assert(candidates@[j].0 == c2.0 && candidates@[j].1 == c2.1);
                    assert(candidates@[j] == c2);
                    if j < i {
                        assert(!sites@.contains(candidates@[j]));
                    } else if j > i {
                        assert(scanned_before(
                            offset_of(base, candidates@[i as int]),
                            offset_of(base, candidates@[j]),
                        ));
                    }
                }
                assert(is_first_site(base, sites@, c));
                let w = choose|w: (i32, i32)| is_first_site(base, sites@, w);
                lemma_first_site_unique(base, sites@, c, w);
            }
            return Some(c);
        }
        i = i + 1;
    }
    proof {
        assert forall|c: (i32, i32)| !is_first_site(base, sites@, c) by {
            if is_first_site(base, sites@, c) {
                let o = offset_of(base, c);
                assert(in_layout(o.0, o.1));
                assert(exists|j: int|
                    0 <= j < candidates@.len() && #[trigger] offset_of(base, candidates@[j]) == (
                    o.0,
                    o.1,
                ));
                let j = choose|j: int|
                    0 <= j < candidates@.len() && #[trigger] offset_of(base, candidates@[j]) == (
                    o.0,
                    o.1,
                );
                assert(candidates@[j].0 == c.0 && candidates@[j].1 == c.1);
                assert(candidates@[j] == c);
            }
        }
    }
    None
}

/// Siting a building that has finished and waits: the first legal site
/// around the base.
pub open spec fn placement_of(player: PlayerId, o: Outlook) -> Option<OrderView> {
    match o.ready {
        None => None,
        Some(ready) => match base_of(player, o) {
            None => None,
            Some(base) => match site_of(base, ready.sites@) {
                None => None,
                Some(at) => Some(OrderView::PlaceBuilding { producer: ready.producer, at }),
            },
        },
    }
}

/// Sites a building that has finished and waits, as `placement_of` says.
pub fn place_ready_building(player: PlayerId, world: &Outlook) -> (r: Option<Order>)
    requires
        world.wf(),
    ensures
        match r {
            Some(x) => placement_of(player, *world) == Some(order_view(x)),
            None => placement_of(player, *world) is None,
        },
{
    let ready = match &world.ready {
        Some(ready) => ready,
        None => return None,
    };
    let base = match base_cell(player, world) {
        Some(b) => b,
        None => return None,
    };
    match site_for(base, &ready.sites) {
        Some(at) => Some(Order::PlaceBuilding { producer: ready.producer, at }),
        None => None,
    }
}

/// What an opponent does on a tick it thinks: one decision at most. An
/// opponent that queued a building, units and attack orders in one tick
/// would spend its income in a frame and then stand idle. Defence comes
/// first, always: one that finished its build order while its base burned
/// would be worse than one that cannot build at all. Then, since a
/// finished building waiting to be sited blocks the queue, siting it; and
/// only otherwise deciding what to make next.
pub open spec fn decide(player: PlayerId, d: Difficulty, o: Outlook) -> Seq<OrderView> {
    match defence_of(player, o) {
        Some(a) => seq![a],
        None => match placement_of(player, o) {
            Some(p) => seq![p],
            None => match build_of(player, d, o) {
                Some(b) => seq![b],
                None => Seq::empty(),
            },
        },
    }
}

/// The orders of a tick it thinks, as `decide` says.
pub fn decide_orders(player: PlayerId, d: Difficulty, world: &Outlook) -> (r: Vec<Order>)
    requires
        world.wf(),
    ensures
        order_views(r@) == decide(player, d, *world),
{
    let mut orders: Vec<Order> = Vec::new();
    let chosen = match defend(player, world) {
        Some(attack) => Some(attack),
        None => match place_ready_building(player, world) {
            Some(place) => Some(place),
            None => build_something(player, d, world),
        },
    };
    if let Some(order) = chosen {
        orders.push(order);
        assert(order_views(orders@) =~= seq![order_view(order)]);
    } else {
        assert(order_views(orders@) =~= Seq::<OrderView>::empty());
    }
    orders
}

/// Whether `id` is that of one of the first `n` units, one that defends.
pub open spec fn defender_id(player: PlayerId, o: Outlook, target: EntityId, n: int, id: EntityId) -> bool {
    exists|i: int| 0 <= i < n && defends(player, o, target, i) && o.units@[i].id == id
}

/// Every id among the defenders is that of a unit that defends.
proof fn lemma_defenders_defend(player: PlayerId, o: Outlook, target: EntityId, n: nat)
    ensures
        forall|m: int|
            0 <= m < defenders_among(player, o, target, n).len() ==> defender_id(
                player,
                o,
                target,
                n as int,
                #[trigger] defenders_among(player, o, target, n)[m],
            ),
    decreases n,
{
    if n > 0 {
        lemma_defenders_defend(player, o, target, (n - 1) as nat);
        let s = defenders_among(player, o, target, (n - 1) as nat);
        let t = defenders_among(player, o, target, n);
        assert forall|m: int| 0 <= m < t.len() implies defender_id(
            player,
            o,
            target,
            n as int,
            #[trigger] t[m],
        ) by {
            if m < s.len() {
                assert(t[m] == s[m]);
                assert(defender_id(player, o, target, n - 1, s[m]));
                let i = choose|i: int|
                    0 <= i < n - 1 && defends(player, o, target, i) && o.units@[i].id == s[m];
                assert(0 <= i < n && defends(player, o, target, i) && o.units@[i].id == t[m]);
            } else {
                assert(defends(player, o, target, n - 1));
                assert(o.units@[n - 1].id == t[m]);
            }
        }
    }
}

/// A cheapest kind is one of the kinds.
proof fn lemma_cheapest_in_range(o: Outlook, w: Want)
    ensures
        cheapest_of(o, w) matches Some(k) ==> 0 <= k < o.kinds@.len(),
{
    let c = candidate_costs(o, w);
    if exists|k: int| first_least(c, k) {
        let k = choose|k: int| first_least(c, k);
        assert(first_least(c, k));
    }
}

/// It never leaves its base: every attack it orders is at a unit that is
/// someone else's, not the neutral side's, alive, seen, and inside the base
/// radius around its base; and everything it sends is its own, alive,
/// mobile, armed, not riding in anything, and not already on that target.
pub proof fn lemma_it_never_leaves_its_base(player: PlayerId, d: Difficulty, o: Outlook, k: int)
    requires
        o.wf(),
        0 <= k < decide(player, d, o).len(),
        decide(player, d, o)[k] is Attack,
    ensures
        base_of(player, o) is Some,
        exists|i: int|
            0 <= i < o.units@.len() && {
                let u = #[trigger] o.units@[i];
                &&& u.id == decide(player, d, o)[k]->target
                &&& u.owner != player
                &&& !u.neutral
                &&& u.alive
                &&& u.visible
                &&& cell_distance(u.cell, base_of(player, o)->0) <= BASE_RADIUS
            },
        forall|m: int|
            0 <= m < decide(player, d, o)[k]->units.len() ==> defender_id(
                player,
                o,
                decide(player, d, o)[k]->target,
                o.units@.len() as int,
                #[trigger] decide(player, d, o)[k]->units[m],
            ),
{
    let ds = decide(player, d, o);
    let base = base_of(player, o)->0;
    let dist = intruder_distances(player, o, base);
    let i = nearest_intruder(player, o, base)->0;
    assert(defence_of(player, o) is Some && ds[k] == defence_of(player, o)->0) by {
        if k > 0 || defence_of(player, o) is None {
            assert(!(ds[k] is Attack));
        }
    }
    assert(first_least(dist, i));
    assert(dist[i] is Some);
    let target = o.units@[i].id;
    lemma_defenders_defend(player, o, target, o.units@.len());
    assert(o.units@[i].id == ds[k]->target);
}

/// One decision per thought at most, and the defence first: when there is
/// something to defend against, that is the order; otherwise a building
/// waiting to be sited is sited; only otherwise is anything new made.
pub proof fn lemma_one_decision_at_most(player: PlayerId, d: Difficulty, o: Outlook)
    ensures
        decide(player, d, o).len() <= 1,
        defence_of(player, o) matches Some(a) ==> decide(player, d, o) == seq![a],
        defence_of(player, o) is None ==> (placement_of(player, o) matches Some(p) ==> decide(
            player,
            d,
            o,
        ) == seq![p]),
        defence_of(player, o) is None && placement_of(player, o) is None ==> decide(player, d, o)
            == match build_of(player, d, o) {
            Some(b) => seq![b],
            None => Seq::<OrderView>::empty(),
        },
{
}

/// It saves up: what it builds is the first thing it wants, made by its own
/// producer, at a price it will spend; and when it cannot spend the price
/// of the first thing it wants, it builds nothing rather than something
/// cheaper further down the list.
pub proof fn lemma_it_saves_up(player: PlayerId, d: Difficulty, o: Outlook)
    requires
        o.wf(),
    ensures
        build_of(player, d, o) matches Some(b) ==> {
            &&& first_want(player, d, o) == Some(b->kind as int)
            &&& o.kinds@[b->kind as int].producer == Some(b->building)
            &&& o.kinds@[b->kind as int].cost <= spendable_of(d, o.credits)
        },
        first_want(player, d, o) matches Some(k) && o.kinds@[k].cost > spendable_of(d, o.credits)
            ==> build_of(player, d, o) is None,
{
    lemma_cheapest_in_range(o, Want::Power);
    lemma_cheapest_in_range(o, Want::Refinery);
    lemma_cheapest_in_range(o, Want::Harvester);
    lemma_cheapest_in_range(o, Want::Maker(Category::Infantry));
    lemma_cheapest_in_range(o, Want::Maker(Category::Vehicle));
    lemma_cheapest_in_range(o, Want::Army);
}

/// It never queues a second power plant, refinery or factory while one is
/// standing or on its way: judging by what stands alone would empty its
/// bank into copies of the same building.
pub proof fn lemma_nothing_twice(player: PlayerId, d: Difficulty, o: Outlook, c: Category)
    ensures
        power_want(o) matches Some(k) ==> !coming(o, k),
        !owns_kind_where(player, o, Want::Refinery) ==> (economy_want(player, d, o) matches Some(
            k,
        ) ==> !coming(o, k)),
        maker_want(player, o, c) matches Some(k) ==> !coming(o, k),
{
}

/// Kind `k` makes units of the named category and could be built now: it
/// is bought, made by a producer the player has, its prerequisites met and
/// its build limit not reached.
pub open spec fn buildable_maker(o: Outlook, name: Seq<char>, k: int) -> bool {
    &&& 0 <= k < o.kinds@.len()
    &&& o.kinds@[k].cost != 0
    &&& makes_category(o.kinds@[k].traits@, name)
    &&& o.kinds@[k].producer is Some
    &&& o.kinds@[k].prerequisites_met
    &&& o.kinds@[k].within_build_limit
}

/// Kind `k` is the cheapest buildable maker of the category, and listed
/// before any other as cheap.
pub open spec fn cheapest_maker(o: Outlook, name: Seq<char>, k: int) -> bool {
    &&& buildable_maker(o, name, k)
    &&& forall|j: int| #[trigger] buildable_maker(o, name, j) ==> o.kinds@[k].cost <= o.kinds@[j].cost
    &&& forall|j: int| 0 <= j < k && #[trigger] buildable_maker(o, name, j) ==> o.kinds@[k].cost < o.kinds@[j].cost
}

/// The player has a living unit of a kind that makes units of the category.
pub open spec fn has_maker(player: PlayerId, o: Outlook, name: Seq<char>) -> bool {
    exists|i: int|
        0 <= i < o.units@.len() && (#[trigger] o.units@[i]).owner == player && o.units@[i].alive
            && makes_category(o.kinds@[o.units@[i].kind as int].traits@, name)
}

/// The opponent should order kind `k` to make units of the category: it has
/// nothing that makes them, `k` is the cheapest that could be built, and
/// none of `k` stands or is queued.
pub open spec fn should_order_maker(player: PlayerId, o: Outlook, name: Seq<char>, k: int) -> bool {
    &&& !has_maker(player, o, name)
    &&& cheapest_maker(o, name, k)
    &&& o.kinds@[k].count == 0
}

/// The cheapest kind that passes a maker test is the cheapest buildable
/// maker of that category.
proof fn lemma_cheapest_is_cheapest_maker(o: Outlook, c: Category, k: int)
    ensures
        cheapest_of(o, Want::Maker(c)) == Some(k) <==> cheapest_maker(o, category_name(c), k),
{
    let w = Want::Maker(c);
    let n = category_name(c);
    let cs = candidate_costs(o, w);
    assert forall|j: int| 0 <= j < cs.len() implies (#[trigger] cs[j] is Some <==> buildable_maker(o, n, j))
        && (cs[j] is Some ==> cs[j].unwrap() == o.kinds@[j].cost) by {}
    assert forall|j: int| #[trigger] buildable_maker(o, n, j) implies 0 <= j < cs.len() && cs[j] is Some by {}
    if cheapest_maker(o, n, k) {
        assert(first_least(cs, k));
        let i = choose|i: int| first_least(cs, i);
        lemma_first_least_unique(cs, i, k);
    }
    if cheapest_of(o, w) == Some(k) {
        assert(exists|i: int| first_least(cs, i));
        let i = choose|i: int| first_least(cs, i);
        assert(i == k);
        assert(first_least(cs, k));
    }
}

/// Where the opponent looks for somewhere to make units: with nothing that
/// makes infantry, it asks for the cheapest infantry maker it could build
/// unless one is already coming; otherwise, with nothing that makes
/// vehicles, for the cheapest vehicle maker it could build unless one is
/// coming. What it asks for is always one of these two; it asks for nothing
/// only when neither applies.
pub proof fn lemma_production_wants(player: PlayerId, o: Outlook)
    ensures
        forall|k: int|
            #[trigger] should_order_maker(player, o, "infantry"@, k) ==> production_want(player, o) == Some(k),
        forall|k: int|
            (forall|j: int| !#[trigger] should_order_maker(player, o, "infantry"@, j)) && #[trigger] should_order_maker(
                player,
                o,
                "vehicle"@,
                k,
            ) ==> production_want(player, o) == Some(k),
        production_want(player, o) matches Some(k) ==> should_order_maker(player, o, "infantry"@, k)
            || should_order_maker(player, o, "vehicle"@, k),
{
    assert(category_name(Category::Infantry) == "infantry"@);
    assert(category_name(Category::Vehicle) == "vehicle"@);
    assert(owns_kind_where(player, o, Want::Maker(Category::Infantry)) == has_maker(player, o, "infantry"@));
    assert(owns_kind_where(player, o, Want::Maker(Category::Vehicle)) == has_maker(player, o, "vehicle"@));
    assert forall|k: int| true implies (cheapest_of(o, Want::Maker(Category::Infantry)) == Some(k)
        <==> cheapest_maker(o, "infantry"@, k)) && (cheapest_of(o, Want::Maker(Category::Vehicle)) == Some(k)
        <==> cheapest_maker(o, "vehicle"@, k)) by {
        lemma_cheapest_is_cheapest_maker(o, Category::Infantry, k);
        lemma_cheapest_is_cheapest_maker(o, Category::Vehicle, k);
    }
    lemma_cheapest_in_range(o, Want::Maker(Category::Infantry));
    lemma_cheapest_in_range(o, Want::Maker(Category::Vehicle));
    if let Some(k1) = maker_want(player, o, Category::Infantry) {
        assert(should_order_maker(player, o, "infantry"@, k1));
    }
}

} // verus!
