//! Loading, validating and looking up the rules.
//!
//! Loading is easy; catching mistakes is the job. A unit naming a weapon that
//! does not exist must be an error at load, with the names in the message —
//! not a crash three minutes into a match, and certainly not a silently
//! harmless unit that never fires.

use vstd::prelude::*;
use crate::armour::{ArmourModel, ArmourTable};
use crate::sorting::{find_last, has_duplicate_key, has_key, insert_by_key, insert_pos, lemma_sort_order_free,
    lemma_no_duplicates_permuted,
    insert_unique, lemma_insert_pos, lemma_sort_sorted, sort_by_id, sort_by_key,
    sorted_by_key, strictly_sorted_by_key, Identified};
use crate::text::{copy_text, str_eq};
use crate::traits::{trait_name, Layer, Trait};
use crate::value::{Hundredths, Percent, Ticks};

verus! {

/// A stable index into the rules, resolved once at load.
#[derive(Clone, Copy, PartialEq, Eq, PartialOrd, Ord, Hash, Debug, Structural)]
pub struct EntityKind(pub u16);

/// One buildable or spawnable thing — a unit or a structure. The
/// distinction is a matter of which traits it carries, not of type.
#[derive(Clone, PartialEq, Eq, Debug)]
pub struct EntityDef {
    pub id: String,
    /// Localisation key. No user-visible string is ever written here.
    pub name_key: String,
    /// Which side's roster this belongs to, if any.
    pub side: Option<String>,
    /// Grouping for production tabs and AI: "infantry", "vehicle", "structure".
    pub category: String,
    pub traits: Vec<Trait>,
}

impl Identified for EntityDef {
    open spec fn key(&self) -> Seq<char> {
        self.id@
    }

    fn id_text(&self) -> (r: &String) {
        &self.id
    }
}

/// Some trait in the list has this name.
pub open spec fn has_trait_named(traits: Seq<Trait>, name: Seq<char>) -> bool {
    exists|i: int| 0 <= i < traits.len() && trait_name(#[trigger] traits[i]) == name
}

impl EntityDef {
    /// The first trait matching a predicate, if any.
    pub fn find_trait<F: Fn(&Trait) -> bool>(&self, matches: F) -> (r: Option<&Trait>)
        requires
            forall|i: int| 0 <= i < self.traits@.len() ==> call_requires(matches, (&self.traits@[i],)),
        ensures
            match r {
                Some(t) => exists|i: int|
                    0 <= i < self.traits@.len() && *t == self.traits@[i] && call_ensures(
                        matches,
                        (&self.traits@[i],),
                        true,
                    ) && forall|j: int|
                        0 <= j < i ==> call_ensures(matches, (&#[trigger] self.traits@[j],), false),
                None => forall|j: int|
                    0 <= j < self.traits@.len() ==> call_ensures(
                        matches,
                        (&#[trigger] self.traits@[j],),
                        false,
                    ),
            },
    {
        let mut i: usize = 0;
        while i < self.traits.len()
            invariant
                i <= self.traits@.len(),
                forall|j: int| 0 <= j < self.traits@.len() ==> call_requires(matches, (&self.traits@[j],)),
                forall|j: int| 0 <= j < i ==> call_ensures(matches, (&#[trigger] self.traits@[j],), false),
            decreases self.traits@.len() - i,
        {
            let t = &self.traits[i];
            if matches(t) {
                return Some(t);
            }
            i = i + 1;
        }
        None
    }

    /// Whether some trait carries this name.
    pub fn has_trait(&self, name: &str) -> (r: bool)
        ensures
            r == has_trait_named(self.traits@, name@),
    {
        let mut i: usize = 0;
        while i < self.traits.len()
            invariant
                i <= self.traits@.len(),
                forall|j: int| 0 <= j < i ==> trait_name(#[trigger] self.traits@[j]) != name@,
            decreases self.traits@.len() - i,
        {
            if str_eq(self.traits[i].name(), name) {
                return true;
            }
            i = i + 1;
        }
        false
    }
}

/// A weapon and what it does.
#[derive(Clone, PartialEq, Eq, Debug)]
pub struct WeaponDef {
    pub id: String,
    pub damage: u32,
    pub warhead: String,
    /// Ticks between shots.
    pub reload: Ticks,
    pub range: Hundredths,
    /// Cells the damage spreads over. Zero for a single target.
    pub splash_radius: Hundredths,
    /// Kills its target outright, whatever its health.
    pub instant_kill: bool,
    /// Shots before it must rearm. Zero means unlimited.
    pub ammo: u32,
    /// Whether this weapon can shoot down projectiles in flight.
    pub intercepts: bool,
    /// Categories this may be used against. Empty means anything.
    pub target_categories: Vec<String>,
    /// Whether this takes the target's side rather than damaging it.
    pub mind_control: bool,
    /// Whether this restores health instead of taking it away.
    pub heals: bool,
    /// Which layers this weapon can engage. Empty means ground only.
    pub targets: Vec<Layer>,
    /// Whether the shot follows its target once fired.
    pub homing: bool,
    /// Projectile speed in cells per second. Zero means the shot lands at once.
    pub projectile_speed: Hundredths,
}

impl Identified for WeaponDef {
    open spec fn key(&self) -> Seq<char> {
        self.id@
    }

    fn id_text(&self) -> (r: &String) {
        &self.id
    }
}

/// A colour, as red, green and blue.
#[derive(Clone, Copy, PartialEq, Eq, Debug, Structural)]
pub struct Colour {
    pub r: u8,
    pub g: u8,
    pub b: u8,
}

/// A country: a small overlay on a side's shared roster.
#[derive(Clone, PartialEq, Eq, Debug)]
pub struct FactionDef {
    pub id: String,
    pub name_key: String,
    /// Whose tech tree this country shares.
    pub side: String,
    pub colour: Colour,
    pub unique_units: Vec<String>,
    /// Units this country does not get, usually because a unique replaces one.
    pub removes_units: Vec<String>,
    pub modifiers: Vec<Modifier>,
    pub voice_set: String,
}

impl Identified for FactionDef {
    open spec fn key(&self) -> Seq<char> {
        self.id@
    }

    fn id_text(&self) -> (r: &String) {
        &self.id
    }
}

/// A country's passive advantage.
#[derive(Clone, PartialEq, Eq, Debug)]
pub enum Modifier {
    UnitCost { unit: String, multiplier: Percent },
    BuildSpeed { category: String, multiplier: Percent },
    UnitSpeed { unit: String, multiplier: Percent },
    UnitHealth { unit: String, multiplier: Percent },
    WeaponRange { weapon: String, multiplier: Percent },
}

/// What a modifier names.
#[derive(Clone, Copy, PartialEq, Eq, Debug, Structural)]
pub enum ModifierTarget {
    Unit,
    Category,
    Weapon,
}

/// How a modifier's target reads in messages.
pub open spec fn target_label(t: ModifierTarget) -> Seq<char> {
    match t {
        ModifierTarget::Unit => "unit"@,
        ModifierTarget::Category => "category"@,
        ModifierTarget::Weapon => "weapon"@,
    }
}

/// What a modifier names, and the name.
pub open spec fn modifier_ref(m: Modifier) -> (ModifierTarget, Seq<char>) {
    match m {
        Modifier::UnitCost { unit, .. } => (ModifierTarget::Unit, unit@),
        Modifier::UnitSpeed { unit, .. } => (ModifierTarget::Unit, unit@),
        Modifier::UnitHealth { unit, .. } => (ModifierTarget::Unit, unit@),
        Modifier::BuildSpeed { category, .. } => (ModifierTarget::Category, category@),
        Modifier::WeaponRange { weapon, .. } => (ModifierTarget::Weapon, weapon@),
    }
}

impl ModifierTarget {
    /// How this target reads in messages.
    pub fn label(self) -> (r: &'static str)
        ensures
            r@ == target_label(self),
    {
        match self {
            ModifierTarget::Unit => "unit",
            ModifierTarget::Category => "category",
            ModifierTarget::Weapon => "weapon",
        }
    }
}

impl Modifier {
    /// What this modifier names, and the name.
    pub fn target(&self) -> (r: (ModifierTarget, String))
        ensures
            (r.0, r.1@) == modifier_ref(*self),
    {
        match self {
            Modifier::UnitCost { unit, .. }
            | Modifier::UnitSpeed { unit, .. }
            | Modifier::UnitHealth { unit, .. } => (ModifierTarget::Unit, copy_text(unit)),
            Modifier::BuildSpeed { category, .. } => (ModifierTarget::Category, copy_text(category)),
            Modifier::WeaponRange { weapon, .. } => (ModifierTarget::Weapon, copy_text(weapon)),
        }
    }

    /// What this modifier names, as a word, and the name.
    pub fn references(&self) -> (r: (&'static str, String))
        ensures
            r.0@ == target_label(modifier_ref(*self).0),
            r.1@ == modifier_ref(*self).1,
    {
        let (target, name) = self.target();
        (target.label(), name)
    }
}

/// What the rules hold: entities in index order, weapons and countries in
/// identifier order, and the armour table.
pub struct RulesModel {
    pub entities: Seq<EntityDef>,
    pub weapons: Seq<WeaponDef>,
    pub armour: ArmourModel,
    pub factions: Seq<FactionDef>,
}

/// Everything loaded, resolved and checked.
#[derive(Debug)]
pub struct Rules {
    entities: Vec<EntityDef>,
    weapons: Vec<WeaponDef>,
    armour: ArmourTable,
    factions: Vec<FactionDef>,
}

impl View for Rules {
    type V = RulesModel;

    closed spec fn view(&self) -> RulesModel {
        RulesModel {
            entities: self.entities@,
            weapons: self.weapons@,
            armour: self.armour@,
            factions: self.factions@,
        }
    }
}

/// The last index holding an entity with this identifier, which is the one a
/// lookup by identifier finds.
pub open spec fn last_index_of(s: Seq<EntityDef>, id: Seq<char>, i: int) -> bool {
    0 <= i < s.len() && s[i].key() == id && forall|j: int|
        i < j < s.len() ==> #[trigger] s[j].key() != id
}

/// The one element of a strictly sorted sequence with identifier `id`.
pub open spec fn find_spec<T: Identified>(s: Seq<T>, id: Seq<char>) -> Option<T> {
    if has_key(s, id) {
        Some(s[crate::sorting::key_index(s, id)])
    } else {
        None
    }
}

impl Rules {
    #[verifier::type_invariant]
    spec fn well_formed(&self) -> bool {
        &&& sorted_by_key(self.entities@)
        &&& self.entities@.len() <= 65536
        &&& strictly_sorted_by_key(self.weapons@)
        &&& strictly_sorted_by_key(self.factions@)
    }

    /// Entities are in identifier order, and each index fits an [`EntityKind`].
    pub fn entity_list(&self) -> (r: &Vec<EntityDef>)
        ensures
            r@ == self@.entities,
            sorted_by_key(r@),
            r@.len() <= 65536,
    {
        proof {
            use_type_invariant(self);
        }
        &self.entities
    }

    /// Weapons, in strictly increasing identifier order.
    pub fn weapon_list(&self) -> (r: &Vec<WeaponDef>)
        ensures
            r@ == self@.weapons,
            strictly_sorted_by_key(r@),
    {
        proof {
            use_type_invariant(self);
        }
        &self.weapons
    }

    /// Countries, in strictly increasing identifier order.
    pub fn faction_list(&self) -> (r: &Vec<FactionDef>)
        ensures
            r@ == self@.factions,
            strictly_sorted_by_key(r@),
    {
        proof {
            use_type_invariant(self);
        }
        &self.factions
    }

    pub fn entity(&self, kind: EntityKind) -> (r: &EntityDef)
        requires
            (kind.0 as int) < self@.entities.len(),
        ensures
            *r == self@.entities[kind.0 as int],
    {
        &self.entities[kind.0 as usize]
    }

    pub fn kind_of(&self, id: &str) -> (r: Option<EntityKind>)
        ensures
            match r {
                Some(k) => last_index_of(self@.entities, id@, k.0 as int),
                None => !has_key(self@.entities, id@),
            },
    {
        proof {
            use_type_invariant(self);
        }
        match find_last(&self.entities, id) {
            Some(i) => {
                assert(i < 65536);
                assert((i as u16) as int == i as int);
                Some(EntityKind(i as u16))
            },
            None => None,
        }
    }

    pub fn entity_by_id(&self, id: &str) -> (r: Option<(EntityKind, &EntityDef)>)
        ensures
            match r {
                Some((k, e)) => last_index_of(self@.entities, id@, k.0 as int) && *e
                    == self@.entities[k.0 as int],
                None => !has_key(self@.entities, id@),
            },
    {
        match self.kind_of(id) {
            Some(kind) => Some((kind, self.entity(kind))),
            None => None,
        }
    }

    /// Every entity, in index order.
    pub fn entities(&self) -> (r: Vec<(EntityKind, &EntityDef)>)
        ensures
            r@.len() == self@.entities.len(),
            forall|i: int|
                0 <= i < r@.len() ==> (#[trigger] r@[i]).0.0 == i && *r@[i].1 == self@.entities[i],
    {
        proof {
            use_type_invariant(self);
        }
        let mut out: Vec<(EntityKind, &EntityDef)> = Vec::new();
        let mut i: usize = 0;
        while i < self.entities.len()
            invariant
                i <= self.entities@.len(),
                self.entities@.len() <= 65536,
                out@.len() == i,
                forall|j: int|
                    0 <= j < i ==> (#[trigger] out@[j]).0.0 == j && *out@[j].1 == self.entities@[j],
            decreases self.entities@.len() - i,
        {
            out.push((EntityKind(i as u16), &self.entities[i]));
            i = i + 1;
        }
        out
    }

    pub fn entity_count(&self) -> (r: usize)
        ensures
            r == self@.entities.len(),
    {
        self.entities.len()
    }

    /// Every weapon, in identifier order.
    pub fn weapons(&self) -> (r: &[WeaponDef])
        ensures
            r@ == self@.weapons,
    {
        self.weapons.as_slice()
    }

    pub fn weapon(&self, id: &str) -> (r: Option<&WeaponDef>)
        ensures
            match r {
                Some(w) => find_spec(self@.weapons, id@) == Some(*w),
                None => find_spec(self@.weapons, id@) is None,
            },
    {
        proof {
            use_type_invariant(self);
        }
        match find_last(&self.weapons, id) {
            Some(i) => {
                proof {
                    crate::armour::lemma_unique_index(self.weapons@, i as int);
                }
                Some(&self.weapons[i])
            },
            None => None,
        }
    }

    pub fn armour(&self) -> (r: &ArmourTable)
        ensures
            r@ == self@.armour,
    {
        &self.armour
    }

    pub fn faction(&self, id: &str) -> (r: Option<&FactionDef>)
        ensures
            match r {
                Some(f) => find_spec(self@.factions, id@) == Some(*f),
                None => find_spec(self@.factions, id@) is None,
            },
    {
        proof {
            use_type_invariant(self);
        }
        match find_last(&self.factions, id) {
            Some(i) => {
                proof {
                    crate::armour::lemma_unique_index(self.factions@, i as int);
                }
                Some(&self.factions[i])
            },
            None => None,
        }
    }

    /// Every country, in identifier order.
    pub fn factions(&self) -> (r: &[FactionDef])
        ensures
            r@ == self@.factions,
    {
        self.factions.as_slice()
    }

    /// How many weapons are defined.
    pub fn weapon_count(&self) -> (r: usize)
        ensures
            r == self@.weapons.len(),
    {
        self.weapons.len()
    }

    /// How many countries are defined.
    pub fn faction_count(&self) -> (r: usize)
        ensures
            r == self@.factions.len(),
    {
        self.factions.len()
    }
}


/// What can go wrong loading rules.
#[derive(Debug)]
pub enum RulesError {
    MissingDirectory { path: String },
    Io { path: String, source: String },
    Parse { path: String, message: String },
    DuplicateId { id: String, first: String, second: String },
    DuplicateWeapon { id: String },
    DuplicateFaction { id: String },
    DuplicateArmourTable { path: String },
    TooManyEntities { limit: usize },
    Invalid { problems: Vec<String> },
}

/// Element `j` repeats an identifier seen earlier in `s`.
pub open spec fn repeats_earlier<T: Identified>(s: Seq<T>, j: int) -> bool {
    exists|i: int| 0 <= i < j && #[trigger] s[i].key() == s[j].key()
}

/// Element `j` is the first in `s` to repeat an identifier seen earlier.
pub open spec fn first_repeat<T: Identified>(s: Seq<T>, j: int) -> bool {
    &&& 0 <= j < s.len()
    &&& repeats_earlier(s, j)
    &&& forall|k: int| 0 <= k < j ==> !repeats_earlier(s, k)
}

/// What the rules built from these definitions hold: entities sorted by
/// identifier, stably; weapons and countries sorted by identifier.
pub open spec fn built_model(
    entities: Seq<EntityDef>,
    weapons: Seq<WeaponDef>,
    armour: ArmourModel,
    factions: Seq<FactionDef>,
) -> RulesModel {
    RulesModel {
        entities: sort_by_key(entities),
        weapons: sort_by_key(weapons),
        armour,
        factions: sort_by_key(factions),
    }
}

/// What building rules from these definitions gives.
///
/// The checks come in this order: the entity count, repeated weapons,
/// repeated countries, and then every cross-reference, all of whose problems
/// are reported together.
pub open spec fn built_from(
    r: Result<Rules, RulesError>,
    entities: Seq<EntityDef>,
    weapons: Seq<WeaponDef>,
    armour: ArmourModel,
    factions: Seq<FactionDef>,
) -> bool {
    let m = built_model(entities, weapons, armour, factions);
    if entities.len() > 65536 {
        r matches Err(RulesError::TooManyEntities { limit }) && limit == 65535
    } else if has_duplicate_key(weapons) {
        r matches Err(RulesError::DuplicateWeapon { id }) && exists|j: int|
            first_repeat(weapons, j) && id@ == #[trigger] weapons[j].key()
    } else if has_duplicate_key(factions) {
        r matches Err(RulesError::DuplicateFaction { id }) && exists|j: int|
            first_repeat(factions, j) && id@ == #[trigger] factions[j].key()
    } else if crate::checks::rules_problems(m).len() == 0 {
        r matches Ok(rules) && rules@ == m
    } else {
        r matches Err(RulesError::Invalid { problems }) && crate::checks::views(problems@)
            == crate::checks::rules_problems(m)
    }
}

/// Building rules does not depend on the order the definitions come in:
/// the same entities (no identifier twice), weapons and countries (none
/// twice), handed over in any order, build alike: the same rules, with
/// every entity at the same index, or the same refusal.
pub proof fn lemma_parts_order_is_irrelevant(
    r: Result<Rules, RulesError>,
    entities: Seq<EntityDef>,
    weapons: Seq<WeaponDef>,
    armour: ArmourModel,
    factions: Seq<FactionDef>,
    entities2: Seq<EntityDef>,
    weapons2: Seq<WeaponDef>,
    factions2: Seq<FactionDef>,
)
    requires
        entities.to_multiset() == entities2.to_multiset(),
        weapons.to_multiset() == weapons2.to_multiset(),
        factions.to_multiset() == factions2.to_multiset(),
        !has_duplicate_key(entities),
        !has_duplicate_key(weapons),
        !has_duplicate_key(factions),
    ensures
        built_from(r, entities, weapons, armour, factions) == built_from(
            r,
            entities2,
            weapons2,
            armour,
            factions2,
        ),
        built_model(entities, weapons, armour, factions) == built_model(
            entities2,
            weapons2,
            armour,
            factions2,
        ),
{
    entities.to_multiset_ensures();
    entities2.to_multiset_ensures();
    lemma_no_duplicates_permuted(weapons, weapons2);
    lemma_no_duplicates_permuted(factions, factions2);
    lemma_sort_order_free(entities, entities2);
    lemma_sort_order_free(weapons, weapons2);
    lemma_sort_order_free(factions, factions2);
}

/// Entities, their indices and lookup by identifier agree. A lookup by
/// identifier names at most one index; and where no two entities share an
/// identifier, looking up entity `i`'s identifier gives `i`. With
/// `entities` giving each entity with its index and `entity_list` keeping
/// them in identifier order, `kind_of(e.id)` is the index `entities`
/// pairs `e` with.
pub proof fn lemma_lookup_agrees(s: Seq<EntityDef>, id: Seq<char>)
    ensures
        forall|k1: int, k2: int|
            last_index_of(s, id, k1) && last_index_of(s, id, k2) ==> k1 == k2,
        !has_duplicate_key(s) ==> forall|i: int|
            0 <= i < s.len() ==> last_index_of(s, #[trigger] s[i].key(), i),
{
    assert forall|k1: int, k2: int| last_index_of(s, id, k1) && last_index_of(s, id, k2) implies k1
        == k2 by {
        if k1 < k2 {
            assert(s[k2].key() != id);
        } else if k2 < k1 {
            assert(s[k1].key() != id);
        }
    }
    if !has_duplicate_key(s) {
        assert forall|i: int| 0 <= i < s.len() implies last_index_of(s, #[trigger] s[i].key(), i) by {
            assert forall|j: int| i < j < s.len() implies #[trigger] s[j].key() != s[i].key() by {
                if s[j].key() == s[i].key() {
                    assert(has_duplicate_key(s));
                }
            }
        }
    }
}

/// Stable insertion keeps the identifiers that were there and adds `x`'s.
pub proof fn lemma_insert_has_key<T: Identified>(s: Seq<T>, x: T, k: Seq<char>)
    ensures
        0 <= insert_pos(s, x) <= s.len(),
        has_key(insert_by_key(s, x), k) <==> (has_key(s, k) || x.key() == k),
    decreases s.len(),
{
    let p = insert_pos(s, x);
    if s.len() > 0 {
        lemma_insert_has_key(s.drop_first(), x, k);
    }
    assert(0 <= p <= s.len());
    let r = insert_by_key(s, x);
    if has_key(r, k) {
        let i = choose|i: int| 0 <= i < r.len() && #[trigger] r[i].key() == k;
        if i < p {
            assert(r[i] == s[i]);
        } else if i > p {
            assert(r[i] == s[i - 1]);
        }
    }
    if has_key(s, k) {
        let i = choose|i: int| 0 <= i < s.len() && #[trigger] s[i].key() == k;
        if i < p {
            assert(r[i] == s[i]);
        } else {
            assert(r[i + 1] == s[i]);
        }
    }
    if x.key() == k {
        assert(r[p] == x);
    }
}

/// Sorting keeps exactly the identifiers there were.
pub proof fn lemma_sort_has_key<T: Identified>(s: Seq<T>, k: Seq<char>)
    ensures
        has_key(sort_by_key(s), k) <==> has_key(s, k),
    decreases s.len(),
{
    if s.len() > 0 {
        lemma_sort_has_key(s.drop_last(), k);
        lemma_insert_has_key(sort_by_key(s.drop_last()), s.last(), k);
        if has_key(s, k) {
            let i = choose|i: int| 0 <= i < s.len() && #[trigger] s[i].key() == k;
            if i < s.len() - 1 {
                assert(s.drop_last()[i] == s[i]);
            }
        }
        if has_key(s.drop_last(), k) {
            let i = choose|i: int| 0 <= i < s.len() - 1 && #[trigger] s.drop_last()[i].key() == k;
            assert(s[i] == s.drop_last()[i]);
        }
    } else {
        assert(sort_by_key(s) =~= Seq::<T>::empty());
    }
}

/// Puts definitions in identifier order, refusing an identifier that
/// appears twice; the refusal hands back the first repeat.
pub fn into_unique_sorted<T: Identified>(items: Vec<T>) -> (r: Result<Vec<T>, T>)
    ensures
        match r {
            Ok(v) => !has_duplicate_key(items@) && v@ == sort_by_key(items@)
                && strictly_sorted_by_key(v@),
            Err(x) => has_duplicate_key(items@) && exists|j: int|
                first_repeat(items@, j) && x == #[trigger] items@[j],
        },
{
    let mut rest = items;
    let ghost input = rest@;
    let total = rest.len();
    let mut out: Vec<T> = Vec::new();
    let mut i: usize = 0;
    assert(input.skip(0) =~= input);
    assert(input.take(0) =~= Seq::<T>::empty());
    #[verifier::loop_isolation(false)]
    while rest.len() > 0
        invariant
            i <= input.len(),
            input.len() == total,
            rest@ == input.skip(i as int),
            out@ == sort_by_key(input.take(i as int)),
            strictly_sorted_by_key(out@),
            forall|k: int| 0 <= k < i ==> !repeats_earlier(input, k),
        decreases rest@.len(),
    {
        let x = rest.remove(0);
        proof {
            assert(x == input[i as int]);
            assert(input.skip(i as int).drop_first() =~= input.skip(i + 1));
            assert(input.take(i + 1).drop_last() =~= input.take(i as int));
            lemma_sort_has_key(input.take(i as int), x.key());
        }
        let ghost xv = x;
        match insert_unique(&mut out, x) {
            Ok(()) => {
                proof {
                    assert(!repeats_earlier(input, i as int)) by {
                        if repeats_earlier(input, i as int) {
                            let k = choose|k: int| 0 <= k < i && #[trigger] input[k].key() == input[i as int].key();
                            assert(input.take(i as int)[k] == input[k]);
                        }
                    }
                }
                i = i + 1;
            },
            Err(back) => {
                proof {
                    let k = choose|k: int| 0 <= k < input.take(i as int).len() && #[trigger] input.take(i as int)[k].key() == xv.key();
                    assert(input[k] == input.take(i as int)[k]);
                    assert(repeats_earlier(input, i as int));
                    assert(first_repeat(input, i as int));
                    assert(has_duplicate_key(input));
                    assert(back == input[i as int]);
                }
                return Err(back);
            },
        }
    }
    proof {
        assert(input.take(i as int) =~= input);
        assert(!has_duplicate_key(input)) by {
            if has_duplicate_key(input) {
                let (a, b) = choose|a: int, b: int| 0 <= a < b < input.len() && #[trigger] input[a].key() == #[trigger] input[b].key();
                assert(repeats_earlier(input, b));
            }
        }
    }
    Ok(out)
}

impl Rules {
    /// Builds rules from definitions: sorts, resolves, and checks them.
    fn finish(
        entities: Vec<EntityDef>,
        weapons: Vec<WeaponDef>,
        armour: ArmourTable,
        factions: Vec<FactionDef>,
    ) -> (r: Result<Rules, RulesError>)
        ensures
            built_from(r, entities@, weapons@, armour@, factions@),
    {
        let ghost (e0, w0, a0, f0) = (entities@, weapons@, armour@, factions@);
        // Sorted by id so the index — and therefore the hash and every
        // simulation iteration — does not depend on file order.
        let entities = sort_by_id(entities);
        proof {
            lemma_sort_sorted(e0);
        }
        if entities.len() > 65536 {
            return Err(RulesError::TooManyEntities { limit: 65535 });
        }
        let weapons = match into_unique_sorted(weapons) {
            Ok(v) => v,
            Err(w) => {
                return Err(RulesError::DuplicateWeapon { id: w.id });
            },
        };
        let factions = match into_unique_sorted(factions) {
            Ok(v) => v,
            Err(f) => {
                return Err(RulesError::DuplicateFaction { id: f.id });
            },
        };
        let rules = Rules { entities, weapons, armour, factions };
        assert(rules@ == built_model(e0, w0, a0, f0));
        let problems = crate::checks::problems(&rules);
        if problems.len() == 0 {
            Ok(rules)
        } else {
            Err(RulesError::Invalid { problems })
        }
    }

    /// Builds rules from in-memory definitions. Used by tests and tooling.
    pub fn from_parts(
        entities: Vec<EntityDef>,
        weapons: Vec<WeaponDef>,
        armour: ArmourTable,
        factions: Vec<FactionDef>,
    ) -> (r: Result<Rules, RulesError>)
        ensures
            built_from(r, entities@, weapons@, armour@, factions@),
    {
        Rules::finish(entities, weapons, armour, factions)
    }

    /// Checks every cross-reference resolves.
    pub fn validate(&self) -> (r: Result<(), RulesError>)
        ensures
            crate::checks::rules_problems(self@).len() == 0 ==> r is Ok,
            crate::checks::rules_problems(self@).len() > 0 ==> (r matches Err(
                RulesError::Invalid { problems },
            ) && crate::checks::views(problems@) == crate::checks::rules_problems(self@)),
    {
        let problems = crate::checks::problems(self);
        if problems.len() == 0 {
            Ok(())
        } else {
            Err(RulesError::Invalid { problems })
        }
    }
}


/// One file's worth of definitions, already read and parsed.
///
/// Every part may be empty, so a file may contain just units, just weapons,
/// or a mixture — whatever grouping makes the data easiest to read.
#[derive(Debug)]
pub struct RulesFile {
    /// Where the definitions came from, so a duplicate names both files.
    pub path: String,
    pub entities: Vec<EntityDef>,
    pub weapons: Vec<WeaponDef>,
    pub armour: Option<ArmourTable>,
    pub factions: Vec<FactionDef>,
}

impl Identified for RulesFile {
    open spec fn key(&self) -> Seq<char> {
        self.path@
    }

    fn id_text(&self) -> (r: &String) {
        &self.path
    }
}

/// Where an entity identifier was defined.
#[derive(Debug)]
pub struct Source {
    pub id: String,
    pub path: String,
}

impl Identified for Source {
    open spec fn key(&self) -> Seq<char> {
        self.id@
    }

    fn id_text(&self) -> (r: &String) {
        &self.id
    }
}

/// The identifier and file of each source.
pub open spec fn source_pairs(s: Seq<Source>) -> Seq<(Seq<char>, Seq<char>)> {
    s.map_values(|x: Source| (x.id@, x.path@))
}

/// The file that last defined an identifier, if any did.
pub open spec fn source_of(s: Seq<(Seq<char>, Seq<char>)>, id: Seq<char>) -> Option<Seq<char>>
    decreases s.len(),
{
    if s.len() == 0 {
        None
    } else if s.last().0 == id {
        Some(s.last().1)
    } else {
        source_of(s.drop_last(), id)
    }
}

/// Definitions gathered from files so far.
pub struct Gathered {
    pub entities: Seq<EntityDef>,
    pub weapons: Seq<WeaponDef>,
    pub factions: Seq<FactionDef>,
    pub armour: Option<ArmourModel>,
    pub sources: Seq<(Seq<char>, Seq<char>)>,
}

/// Why gathering definitions from files stopped.
pub enum GatherError {
    /// An entity identifier defined twice: the identifier, the file that
    /// defined it first, and the file that defined it again.
    DuplicateId(Seq<char>, Seq<char>, Seq<char>),
    /// A second armour table, in this file.
    DuplicateArmour(Seq<char>),
}

/// Adds one file's entities, refusing an identifier seen before.
pub open spec fn gather_entities(g: Gathered, path: Seq<char>, es: Seq<EntityDef>) -> Result<
    Gathered,
    GatherError,
>
    decreases es.len(),
{
    if es.len() == 0 {
        Ok(g)
    } else {
        match gather_entities(g, path, es.drop_last()) {
            Err(e) => Err(e),
            Ok(g2) => {
                let e = es.last();
                match source_of(g2.sources, e.id@) {
                    Some(first) => Err(GatherError::DuplicateId(e.id@, first, path)),
                    None => Ok(
                        Gathered {
                            entities: g2.entities.push(e),
                            weapons: g2.weapons,
                            factions: g2.factions,
                            armour: g2.armour,
                            sources: g2.sources.push((e.id@, path)),
                        },
                    ),
                }
            },
        }
    }
}

/// Adds one file: its entities, then its weapons and countries, then its
/// armour table, of which there may be only one in all.
pub open spec fn gather_file(g: Gathered, f: RulesFile) -> Result<Gathered, GatherError> {
    match gather_entities(g, f.path@, f.entities@) {
        Err(e) => Err(e),
        Ok(g2) => {
            let g3 = Gathered {
                entities: g2.entities,
                weapons: g2.weapons + f.weapons@,
                factions: g2.factions + f.factions@,
                armour: g2.armour,
                sources: g2.sources,
            };
            match f.armour {
                Some(table) => if g3.armour is Some {
                    Err(GatherError::DuplicateArmour(f.path@))
                } else {
                    Ok(Gathered { armour: Some(table@), ..g3 })
                },
                None => Ok(g3),
            }
        },
    }
}

/// Gathers every file, in order.
pub open spec fn gather(files: Seq<RulesFile>) -> Result<Gathered, GatherError>
    decreases files.len(),
{
    if files.len() == 0 {
        Ok(
            Gathered {
                entities: Seq::empty(),
                weapons: Seq::empty(),
                factions: Seq::empty(),
                armour: None,
                sources: Seq::empty(),
            },
        )
    } else {
        match gather(files.drop_last()) {
            Err(e) => Err(e),
            Ok(g) => gather_file(g, files.last()),
        }
    }
}

/// An empty armour table: no classes and no rows.
pub open spec fn empty_armour() -> ArmourModel {
    ArmourModel { classes: Seq::empty(), rows: Seq::empty() }
}

/// What loading these files gives: they are taken in path order, so load
/// order does not depend on the filesystem.
pub open spec fn loaded_from(r: Result<Rules, RulesError>, files: Seq<RulesFile>) -> bool {
    match gather(sort_by_key(files)) {
        Err(GatherError::DuplicateId(id, first, second)) => r matches Err(
            RulesError::DuplicateId { id: i, first: f, second: s },
        ) && i@ == id && f@ == first && s@ == second,
        Err(GatherError::DuplicateArmour(path)) => r matches Err(
            RulesError::DuplicateArmourTable { path: p },
        ) && p@ == path,
        Ok(g) => built_from(
            r,
            g.entities,
            g.weapons,
            match g.armour {
                Some(a) => a,
                None => empty_armour(),
            },
            g.factions,
        ),
    }
}

/// Rules do not depend on the order their files are found in: the same
/// files, no path listed twice, handed over in any order, load alike, down
/// to every entity's index and every error. Two machines must produce the
/// same rules, and the same rules hash, from the same files.
pub proof fn lemma_file_order_is_irrelevant(
    a: Seq<RulesFile>,
    b: Seq<RulesFile>,
    r: Result<Rules, RulesError>,
)
    requires
        a.to_multiset() == b.to_multiset(),
        !has_duplicate_key(a),
    ensures
        loaded_from(r, a) == loaded_from(r, b),
{
    lemma_sort_order_free(a, b);
}

/// What `find_last` finds among sources is the file that last defined the
/// identifier.
proof fn lemma_source_of(s: Seq<Source>, id: Seq<char>, found: Option<usize>)
    requires
        match found {
            Some(i) => i < s.len() && s[i as int].key() == id && forall|j: int|
                i < j < s.len() ==> #[trigger] s[j].key() != id,
            None => !has_key(s, id),
        },
    ensures
        source_of(source_pairs(s), id) == match found {
            Some(i) => Some(s[i as int].path@),
            None => None::<Seq<char>>,
        },
    decreases s.len(),
{
    if s.len() > 0 {
        assert(source_pairs(s).drop_last() =~= source_pairs(s.drop_last()));
        assert(source_pairs(s).last() == (s.last().id@, s.last().path@));
        match found {
            Some(i) => {
                if (i as int) < s.len() - 1 {
                    assert(s[s.len() - 1].key() != id);
                    assert(s.last() == s[s.len() - 1]);
                    assert forall|j: int| i < j < s.drop_last().len() implies #[trigger] s.drop_last()[j].key() != id by {
                        assert(s.drop_last()[j] == s[j]);
                    }
                    assert(s.drop_last()[i as int] == s[i as int]);
                    lemma_source_of(s.drop_last(), id, found);
                } else {
                    assert(s.last() == s[i as int]);
                }
            },
            None => {
                assert(!has_key(s.drop_last(), id)) by {
                    if has_key(s.drop_last(), id) {
                        let k = choose|k: int| 0 <= k < s.drop_last().len() && #[trigger] s.drop_last()[k].key() == id;
                        assert(s[k] == s.drop_last()[k]);
                    }
                }
                assert(s.last().key() != id);
                lemma_source_of(s.drop_last(), id, found);
            },
        }
    }
}

/// Adds one file's entities to those gathered so far.
fn gather_entities_exec(
    entities: &mut Vec<EntityDef>,
    sources: &mut Vec<Source>,
    path: &String,
    es: Vec<EntityDef>,
    ghost_g: Ghost<Gathered>,
) -> (r: Result<(), RulesError>)
    requires
        old(entities)@ == ghost_g@.entities,
        source_pairs(old(sources)@) == ghost_g@.sources,
    ensures
        match gather_entities(ghost_g@, path@, es@) {
            Err(GatherError::DuplicateId(id, first, second)) => r matches Err(
                RulesError::DuplicateId { id: i, first: f, second: s },
            ) && i@ == id && f@ == first && s@ == second,
            Err(GatherError::DuplicateArmour(_)) => false,
            Ok(g2) => r is Ok && final(entities)@ == g2.entities && source_pairs(final(sources)@)
                == g2.sources && g2.weapons == ghost_g@.weapons && g2.factions == ghost_g@.factions
                && g2.armour == ghost_g@.armour,
        },
{
    let mut rest = es;
    let ghost input = rest@;
    let total = rest.len();
    let mut i: usize = 0;
    assert(input.skip(0) =~= input);
    assert(input.take(0) =~= Seq::<EntityDef>::empty());
    #[verifier::loop_isolation(false)]
    while rest.len() > 0
        invariant
            i <= input.len(),
            input.len() == total,
            rest@ == input.skip(i as int),
            gather_entities(ghost_g@, path@, input.take(i as int)) matches Ok(g2) && entities@
                == g2.entities && source_pairs(sources@) == g2.sources && g2.weapons
                == ghost_g@.weapons && g2.factions == ghost_g@.factions && g2.armour
                == ghost_g@.armour,
        decreases rest@.len(),
    {
        let e = rest.remove(0);
        proof {
            assert(e == input[i as int]);
            assert(input.skip(i as int).drop_first() =~= input.skip(i + 1));
            assert(input.take(i + 1).drop_last() =~= input.take(i as int));
            assert(input.take(i + 1).last() == e);
        }
        let found = find_last(sources, e.id.as_str());
        proof {
            lemma_source_of(sources@, e.id@, found);
        }
        match found {
            Some(k) => {
                let id = e.id;
                let first = copy_text(&sources[k].path);
                let second = copy_text(path);
                proof {
                    lemma_gather_entities_stays_err(ghost_g@, path@, input, i as int + 1);
                }
                return Err(RulesError::DuplicateId { id, first, second });
            },
            None => {
                let src = Source { id: copy_text(&e.id), path: copy_text(path) };
                let ghost before = sources@;
                sources.push(src);
                entities.push(e);
                proof {
                    assert(source_pairs(sources@) =~= source_pairs(before).push((e.id@, path@)));
                }
                i = i + 1;
            },
        }
    }
    proof {
        assert(input.take(i as int) =~= input);
    }
    Ok(())
}

/// Once gathering a prefix of the entities fails, gathering more of them
/// fails the same way.
proof fn lemma_gather_entities_stays_err(g: Gathered, path: Seq<char>, es: Seq<EntityDef>, n: int)
    requires
        0 <= n <= es.len(),
        gather_entities(g, path, es.take(n)) is Err,
    ensures
        gather_entities(g, path, es) == gather_entities(g, path, es.take(n)),
    decreases es.len() - n,
{
    if n < es.len() {
        assert(es.take(n + 1).drop_last() =~= es.take(n));
        lemma_gather_entities_stays_err(g, path, es, n + 1);
    } else {
        assert(es.take(n) =~= es);
    }
}

impl Rules {
    /// Loads rules from files that have been read and parsed: files are taken
    /// in path order, an entity identifier defined twice is refused naming
    /// both files, as is a second armour table; then the definitions are
    /// built as [`Rules::from_parts`] builds them.
    pub fn load_from(files: Vec<RulesFile>) -> (r: Result<Rules, RulesError>)
        ensures
            loaded_from(r, files@),
    {
        // Sorted, so load order does not depend on the filesystem. Two
        // machines must produce the same rules from the same files.
        let files = sort_by_id(files);
        let ghost sorted = files@;
        let mut rest = files;
        let total = rest.len();
        let mut entities: Vec<EntityDef> = Vec::new();
        let mut weapons: Vec<WeaponDef> = Vec::new();
        let mut factions: Vec<FactionDef> = Vec::new();
        let mut armour: Option<ArmourTable> = None;
        let mut sources: Vec<Source> = Vec::new();
        let mut i: usize = 0;
        assert(sorted.skip(0) =~= sorted);
        assert(sorted.take(0) =~= Seq::<RulesFile>::empty());
        assert(source_pairs(sources@) =~= Seq::<(Seq<char>, Seq<char>)>::empty());
        #[verifier::loop_isolation(false)]
        while rest.len() > 0
            invariant
                i <= sorted.len(),
                sorted.len() == total,
                rest@ == sorted.skip(i as int),
                gather(sorted.take(i as int)) matches Ok(g) && entities@ == g.entities
                    && weapons@ == g.weapons && factions@ == g.factions && source_pairs(sources@)
                    == g.sources && g.armour == match armour {
                    Some(a) => Some(a@),
                    None => None::<ArmourModel>,
                },
            decreases rest@.len(),
        {
            let file = rest.remove(0);
            let ghost g = match gather(sorted.take(i as int)) {
                Ok(g) => g,
                Err(_) => arbitrary(),
            };
            proof {
                assert(file == sorted[i as int]);
                assert(sorted.skip(i as int).drop_first() =~= sorted.skip(i + 1));
                assert(sorted.take(i + 1).drop_last() =~= sorted.take(i as int));
                assert(sorted.take(i + 1).last() == file);
            }
            let RulesFile { path, entities: es, weapons: ws, armour: table, factions: fs } = file;
            match gather_entities_exec(&mut entities, &mut sources, &path, es, Ghost(g)) {
                Err(e) => {
                    proof {
                        lemma_gather_stays_err(sorted, i as int + 1);
                    }
                    return Err(e);
                },
                Ok(()) => {},
            }
            let ghost wbefore = weapons@;
            let ghost fbefore = factions@;
            let mut ws = ws;
            let mut fs = fs;
            weapons.append(&mut ws);
            factions.append(&mut fs);
            match table {
                Some(t) => {
                    if armour.is_some() {
                        proof {
                            lemma_gather_stays_err(sorted, i as int + 1);
                        }
                        return Err(RulesError::DuplicateArmourTable { path });
                    }
                    armour = Some(t);
                },
                None => {},
            }
            i = i + 1;
        }
        proof {
            assert(sorted.take(i as int) =~= sorted);
        }
        let table = match armour {
            Some(t) => t,
            None => ArmourTable::new(Vec::new()),
        };
        Rules::finish(entities, weapons, table, factions)
    }
}

/// Once gathering a prefix of the files fails, gathering more of them fails
/// the same way.
proof fn lemma_gather_stays_err(files: Seq<RulesFile>, n: int)
    requires
        0 <= n <= files.len(),
        gather(files.take(n)) is Err,
    ensures
        gather(files) == gather(files.take(n)),
    decreases files.len() - n,
{
    if n < files.len() {
        assert(files.take(n + 1).drop_last() =~= files.take(n));
        lemma_gather_stays_err(files, n + 1);
    } else {
        assert(files.take(n) =~= files);
    }
}


/// The problems of a report, one to a line, each under a dash.
pub open spec fn problem_lines(ps: Seq<Seq<char>>) -> Seq<char>
    decreases ps.len(),
{
    if ps.len() == 0 {
        Seq::empty()
    } else {
        problem_lines(ps.drop_last()) + "  - "@ + ps.last() + "\n"@
    }
}

/// How each error reads.
pub open spec fn rules_error_text(e: RulesError) -> Seq<char> {
    match e {
        RulesError::MissingDirectory { path } => "no rules directory at "@ + path@,
        RulesError::Io { path, source } => "could not read "@ + path@ + ": "@ + source@,
        RulesError::Parse { path, message } => path@ + " is malformed: "@ + message@,
        RulesError::DuplicateId { id, first, second } => "\""@ + id@ + "\" is defined twice, in "@
            + first@ + " and "@ + second@,
        RulesError::DuplicateWeapon { id } => "weapon \""@ + id@ + "\" is defined twice"@,
        RulesError::DuplicateFaction { id } => "faction \""@ + id@ + "\" is defined twice"@,
        RulesError::DuplicateArmourTable { path } => path@
            + " declares a second armour table; there can only be one"@,
        RulesError::TooManyEntities { limit } => "more than "@ + crate::text::decimal(limit as nat)
            + " entities, which the index cannot address"@,
        RulesError::Invalid { problems } => "the rules have "@ + crate::text::decimal(
            problems@.len(),
        ) + " problem(s):\n"@ + problem_lines(crate::checks::views(problems@)),
    }
}

impl RulesError {
    /// The error as a sentence fit to show the person editing the rules.
    pub fn to_string(&self) -> (r: String)
        ensures
            r@ == rules_error_text(*self),
    {
        match self {
            RulesError::MissingDirectory { path } => {
                let mut s = crate::text::text("no rules directory at ");
                s.append(path.as_str());
                s
            },
            RulesError::Io { path, source } => {
                let mut s = crate::text::text("could not read ");
                s.append(path.as_str());
                s.append(": ");
                s.append(source.as_str());
                s
            },
            RulesError::Parse { path, message } => {
                let mut s = copy_text(path);
                s.append(" is malformed: ");
                s.append(message.as_str());
                s
            },
            RulesError::DuplicateId { id, first, second } => {
                let mut s = crate::text::text("\"");
                s.append(id.as_str());
                s.append("\" is defined twice, in ");
                s.append(first.as_str());
                s.append(" and ");
                s.append(second.as_str());
                s
            },
            RulesError::DuplicateWeapon { id } => {
                let mut s = crate::text::text("weapon \"");
                s.append(id.as_str());
                s.append("\" is defined twice");
                s
            },
            RulesError::DuplicateFaction { id } => {
                let mut s = crate::text::text("faction \"");
                s.append(id.as_str());
                s.append("\" is defined twice");
                s
            },
            RulesError::DuplicateArmourTable { path } => {
                let mut s = copy_text(path);
                s.append(" declares a second armour table; there can only be one");
                s
            },
            RulesError::TooManyEntities { limit } => {
                let mut s = crate::text::text("more than ");
                crate::text::append_decimal(&mut s, *limit as u64);
                s.append(" entities, which the index cannot address");
                s
            },
            RulesError::Invalid { problems } => {
                let mut s = crate::text::text("the rules have ");
                crate::text::append_decimal(&mut s, problems.len() as u64);
                s.append(" problem(s):\n");
                let ghost head = s@;
                let mut i: usize = 0;
                assert(crate::checks::views(problems@).take(0) =~= Seq::<Seq<char>>::empty());
                assert(s@ =~= head + problem_lines(crate::checks::views(problems@).take(0)));
                while i < problems.len()
                    invariant
                        i <= problems@.len(),
                        s@ == head + problem_lines(crate::checks::views(problems@).take(i as int)),
                    decreases problems@.len() - i,
                {
                    let ghost vs = crate::checks::views(problems@);
                    assert(vs.take(i + 1).drop_last() =~= vs.take(i as int));
                    assert(vs.take(i + 1).last() == problems@[i as int]@);
                    s.append("  - ");
                    s.append(problems[i].as_str());
                    s.append("\n");
                    assert(s@ =~= head + problem_lines(vs.take(i + 1)));
                    i = i + 1;
                }
                assert(crate::checks::views(problems@).take(problems@.len() as int)
                    =~= crate::checks::views(problems@));
                s
            },
        }
    }
}

/// FNV-1a over bytes, from a given starting hash.
pub open spec fn fnv1a_from(start: u64, bytes: Seq<u8>) -> u64
    decreases bytes.len(),
{
    if bytes.len() == 0 {
        start
    } else {
        let h = fnv1a_from(start, bytes.drop_last());
        (h ^ (bytes.last() as u64)).wrapping_mul(0x0000_0100_0000_01b3u64)
    }
}

/// FNV-1a over bytes.
pub open spec fn fnv1a_spec(bytes: Seq<u8>) -> u64 {
    fnv1a_from(0xcbf2_9ce4_8422_2325u64, bytes)
}

/// The hash is FNV-1a, step by step: the hash of no bytes is the offset
/// basis 0xcbf29ce484222325, and appending a byte first folds it into the
/// hash by exclusive-or, then multiplies by the prime 0x100000001b3, modulo
/// 2^64. So the hash depends on the order of the bytes, not only on which
/// bytes there are.
pub proof fn lemma_rules_hash_steps(bytes: Seq<u8>, b: u8)
    ensures
        fnv1a_spec(Seq::<u8>::empty()) == 0xcbf2_9ce4_8422_2325u64,
        fnv1a_spec(bytes.push(b)) as int == ((fnv1a_spec(bytes) ^ (b as u64)) as int
            * 0x100_0000_01b3int) % 0x1_0000_0000_0000_0000int,
{
    assert(bytes.push(b).drop_last() =~= bytes);
    assert(bytes.push(b).last() == b);
    let x = fnv1a_spec(bytes) ^ (b as u64);
    assert(((x as int * 0x100_0000_01b3int) % 0x1_0000_0000_0000_0000int) < 0x1_0000_0000_0000_0000int);
}

/// A stable hash of the rules' canonical serialisation: FNV-1a, whose value
/// is identical on every machine and toolchain, so peers that agree on the
/// rules never refuse each other over them.
pub fn rules_hash(canonical: &[u8]) -> (r: u64)
    ensures
        r == fnv1a_spec(canonical@),
{
    let mut hash: u64 = 0xcbf2_9ce4_8422_2325;
    let mut i: usize = 0;
    assert(canonical@.take(0) =~= Seq::<u8>::empty());
    while i < canonical.len()
        invariant
            i <= canonical@.len(),
            hash == fnv1a_from(0xcbf2_9ce4_8422_2325u64, canonical@.take(i as int)),
        decreases canonical@.len() - i,
    {
        assert(canonical@.take(i + 1).drop_last() =~= canonical@.take(i as int));
        hash = hash ^ (canonical[i] as u64);
        hash = hash.wrapping_mul(0x0000_0100_0000_01b3);
        i = i + 1;
    }
    assert(canonical@.take(canonical@.len() as int) =~= canonical@);
    hash
}

} // verus!
