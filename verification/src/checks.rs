//! Checking that every cross-reference in the rules resolves.
//!
//! Every problem is reported, not just the first: fixing rules one error per
//! run is miserable. The problems come in a fixed order — entities in index
//! order, then weapons, countries and the armour table's columns — so two
//! runs over the same rules give the same report.

use vstd::prelude::*;
use crate::armour::ArmourCell;
use crate::rules::{modifier_ref, target_label, EntityDef, FactionDef, Modifier, ModifierTarget,
    Rules, RulesModel, WeaponDef};
use crate::sorting::{find_last, has_key, Identified};
use crate::text::{contains_text, copy_text, str_eq};
use crate::traits::{ref_label, trait_name, trait_refs, unique_trait_names, unique_traits, RefKind,
    Trait};

verus! {

/// The text of each string in a list.
pub open spec fn views(v: Seq<String>) -> Seq<Seq<char>> {
    v.map_values(|s: String| s@)
}

/// An armour class with this name is declared.
pub open spec fn class_declared(classes: Seq<String>, name: Seq<char>) -> bool {
    exists|j: int| 0 <= j < classes.len() && #[trigger] classes[j]@ == name
}

/// Whether the definition a trait's reference names exists.
pub open spec fn ref_exists(m: RulesModel, k: RefKind, name: Seq<char>) -> bool {
    match k {
        RefKind::Armour => class_declared(m.armour.classes, name),
        RefKind::Weapon => has_key(m.weapons, name),
        RefKind::Warhead => has_key(m.armour.rows, name),
        // Prerequisites, producers and transportables all name entities.
        _ => has_key(m.entities, name),
    }
}

/// Something that can shoot but cannot see never fires a shot.
pub open spec fn blind_message(id: Seq<char>) -> Seq<char> {
    id + ": has a weapon but no Vision, so it can never acquire a target"@
}

pub open spec fn dangling_message(
    id: Seq<char>,
    trait_text: Seq<char>,
    what: Seq<char>,
    name: Seq<char>,
) -> Seq<char> {
    id + ": trait "@ + trait_text + " refers to "@ + what + " \""@ + name
        + "\", which does not exist"@
}

pub open spec fn repeated_message(id: Seq<char>, trait_text: Seq<char>) -> Seq<char> {
    id + ": has more than one "@ + trait_text
        + " trait; the simulation would silently use only one of them"@
}

pub open spec fn rowless_message(weapon: Seq<char>, warhead: Seq<char>) -> Seq<char> {
    "weapon "@ + weapon + ": warhead \""@ + warhead
        + "\" has no row in the armour table, so it would do full damage to everything"@
}

pub open spec fn missing_unit_message(faction: Seq<char>, unit: Seq<char>) -> Seq<char> {
    "faction "@ + faction + ": refers to unit \""@ + unit + "\", which does not exist"@
}

pub open spec fn modifier_message(faction: Seq<char>, what: Seq<char>, name: Seq<char>) -> Seq<char> {
    "faction "@ + faction + ": modifier refers to "@ + what + " \""@ + name
        + "\", which does not exist"@
}

pub open spec fn column_message(class: Seq<char>) -> Seq<char> {
    "armour table has a column for \""@ + class + "\", which is not a declared class"@
}

/// Problems with the references of one trait.
pub open spec fn ref_problems(
    m: RulesModel,
    id: Seq<char>,
    trait_text: Seq<char>,
    refs: Seq<(RefKind, Seq<char>)>,
) -> Seq<Seq<char>>
    decreases refs.len(),
{
    if refs.len() == 0 {
        Seq::empty()
    } else {
        let (k, name) = refs.last();
        ref_problems(m, id, trait_text, refs.drop_last()) + if ref_exists(m, k, name) {
            Seq::<Seq<char>>::empty()
        } else {
            seq![dangling_message(id, trait_text, ref_label(k), name)]
        }
    }
}

/// Problems with the references of a list of traits.
pub open spec fn traits_problems(m: RulesModel, id: Seq<char>, ts: Seq<Trait>) -> Seq<Seq<char>>
    decreases ts.len(),
{
    if ts.len() == 0 {
        Seq::empty()
    } else {
        traits_problems(m, id, ts.drop_last()) + ref_problems(
            m,
            id,
            trait_name(ts.last()),
            trait_refs(ts.last()),
        )
    }
}

/// How many traits in the list carry this name.
pub open spec fn count_named(ts: Seq<Trait>, name: Seq<char>) -> nat
    decreases ts.len(),
{
    if ts.len() == 0 {
        0
    } else {
        count_named(ts.drop_last(), name) + if trait_name(ts.last()) == name {
            1nat
        } else {
            0nat
        }
    }
}

/// Problems with traits that may appear only once but appear more often.
pub open spec fn repeats_problems(id: Seq<char>, ts: Seq<Trait>, names: Seq<Seq<char>>) -> Seq<
    Seq<char>,
>
    decreases names.len(),
{
    if names.len() == 0 {
        Seq::empty()
    } else {
        repeats_problems(id, ts, names.drop_last()) + if count_named(ts, names.last()) > 1 {
            seq![repeated_message(id, names.last())]
        } else {
            Seq::<Seq<char>>::empty()
        }
    }
}

pub open spec fn is_armed(ts: Seq<Trait>) -> bool {
    exists|i: int| 0 <= i < ts.len() && #[trigger] ts[i] is Armed
}

pub open spec fn is_sighted(ts: Seq<Trait>) -> bool {
    exists|i: int| 0 <= i < ts.len() && #[trigger] ts[i] is Vision
}

/// Everything wrong with one entity, in the order it is reported.
pub open spec fn entity_problems(m: RulesModel, e: EntityDef) -> Seq<Seq<char>> {
    (if is_armed(e.traits@) && !is_sighted(e.traits@) {
        seq![blind_message(e.id@)]
    } else {
        Seq::<Seq<char>>::empty()
    }) + traits_problems(m, e.id@, e.traits@) + repeats_problems(
        e.id@,
        e.traits@,
        unique_trait_names(),
    )
}

pub open spec fn entities_problems(m: RulesModel, es: Seq<EntityDef>) -> Seq<Seq<char>>
    decreases es.len(),
{
    if es.len() == 0 {
        Seq::empty()
    } else {
        entities_problems(m, es.drop_last()) + entity_problems(m, es.last())
    }
}

pub open spec fn weapons_problems(m: RulesModel, ws: Seq<WeaponDef>) -> Seq<Seq<char>>
    decreases ws.len(),
{
    if ws.len() == 0 {
        Seq::empty()
    } else {
        let w = ws.last();
        weapons_problems(m, ws.drop_last()) + if has_key(m.armour.rows, w.warhead@) {
            Seq::<Seq<char>>::empty()
        } else {
            seq![rowless_message(w.id@, w.warhead@)]
        }
    }
}

pub open spec fn units_problems(m: RulesModel, faction: Seq<char>, units: Seq<String>) -> Seq<
    Seq<char>,
>
    decreases units.len(),
{
    if units.len() == 0 {
        Seq::empty()
    } else {
        let u = units.last();
        units_problems(m, faction, units.drop_last()) + if has_key(m.entities, u@) {
            Seq::<Seq<char>>::empty()
        } else {
            seq![missing_unit_message(faction, u@)]
        }
    }
}

/// Whether what a modifier names exists. A category is free-form, so there
/// is nothing to check it against beyond it being non-empty.
pub open spec fn modifier_target_exists(m: RulesModel, t: ModifierTarget, name: Seq<char>) -> bool {
    match t {
        ModifierTarget::Unit => has_key(m.entities, name),
        ModifierTarget::Weapon => has_key(m.weapons, name),
        ModifierTarget::Category => name.len() > 0,
    }
}

pub open spec fn modifiers_problems(m: RulesModel, faction: Seq<char>, ms: Seq<Modifier>) -> Seq<
    Seq<char>,
>
    decreases ms.len(),
{
    if ms.len() == 0 {
        Seq::empty()
    } else {
        let (t, name) = modifier_ref(ms.last());
        modifiers_problems(m, faction, ms.drop_last()) + if modifier_target_exists(m, t, name) {
            Seq::<Seq<char>>::empty()
        } else {
            seq![modifier_message(faction, target_label(t), name)]
        }
    }
}

pub open spec fn faction_problems(m: RulesModel, f: FactionDef) -> Seq<Seq<char>> {
    units_problems(m, f.id@, f.unique_units@ + f.removes_units@) + modifiers_problems(
        m,
        f.id@,
        f.modifiers@,
    )
}

pub open spec fn factions_problems(m: RulesModel, fs: Seq<FactionDef>) -> Seq<Seq<char>>
    decreases fs.len(),
{
    if fs.len() == 0 {
        Seq::empty()
    } else {
        factions_problems(m, fs.drop_last()) + faction_problems(m, fs.last())
    }
}

pub open spec fn cells_problems(classes: Seq<String>, cells: Seq<ArmourCell>) -> Seq<Seq<char>>
    decreases cells.len(),
{
    if cells.len() == 0 {
        Seq::empty()
    } else {
        let c = cells.last();
        cells_problems(classes, cells.drop_last()) + if class_declared(classes, c.class@) {
            Seq::<Seq<char>>::empty()
        } else {
            seq![column_message(c.class@)]
        }
    }
}

pub open spec fn rows_problems(classes: Seq<String>, rows: Seq<crate::armour::ArmourRow>) -> Seq<
    Seq<char>,
>
    decreases rows.len(),
{
    if rows.len() == 0 {
        Seq::empty()
    } else {
        rows_problems(classes, rows.drop_last()) + cells_problems(classes, rows.last().cells@)
    }
}

/// Every problem with a set of rules, in the order they are reported.
pub open spec fn rules_problems(m: RulesModel) -> Seq<Seq<char>> {
    entities_problems(m, m.entities) + weapons_problems(m, m.weapons) + factions_problems(
        m,
        m.factions,
    ) + rows_problems(m.armour.classes, m.armour.rows)
}

/// Adds one message to a report.
fn report(out: &mut Vec<String>, msg: String)
    ensures
        views(final(out)@) == views(old(out)@).push(msg@),
{
    out.push(msg);
    assert(views(out@) =~= views(old(out)@).push(msg@));
}

fn ref_exists_exec(rules: &Rules, k: RefKind, name: &str) -> (r: bool)
    ensures
        r == ref_exists(rules@, k, name@),
{
    match k {
        RefKind::Armour => contains_text(rules.armour().classes(), name),
        RefKind::Weapon => find_last(rules.weapon_list(), name).is_some(),
        RefKind::Warhead => rules.armour().has_row(name),
        _ => find_last(rules.entity_list(), name).is_some(),
    }
}

/// Reports the references of one trait that do not resolve.
fn check_refs(rules: &Rules, id: &String, t: &Trait, out: &mut Vec<String>)
    ensures
        views(final(out)@) == views(old(out)@) + ref_problems(
            rules@,
            id@,
            trait_name(*t),
            trait_refs(*t),
        ),
{
    let refs = t.reference_list();
    let ghost spec_refs = trait_refs(*t);
    let tname = t.name();
    let mut i: usize = 0;
    assert(spec_refs.take(0) =~= Seq::<(RefKind, Seq<char>)>::empty());
    assert(views(out@) =~= views(old(out)@) + ref_problems(rules@, id@, tname@, spec_refs.take(0)));
    while i < refs.len()
        invariant
            i <= refs@.len(),
            refs@.map_values(|p: (RefKind, String)| (p.0, p.1@)) == spec_refs,
            tname@ == trait_name(*t),
            spec_refs == trait_refs(*t),
            views(out@) == views(old(out)@) + ref_problems(
                rules@,
                id@,
                tname@,
                spec_refs.take(i as int),
            ),
        decreases refs@.len() - i,
    {
        let kind = refs[i].0;
        let name = &refs[i].1;
        assert(refs@.map_values(|p: (RefKind, String)| (p.0, p.1@))[i as int] == (
            refs@[i as int].0,
            refs@[i as int].1@,
        ));
        assert(spec_refs.take(i + 1).drop_last() =~= spec_refs.take(i as int));
        let ghost prev = views(out@);
        if !ref_exists_exec(rules, kind, name.as_str()) {
            let mut msg = copy_text(id);
            msg.append(": trait ");
            msg.append(tname);
            msg.append(" refers to ");
            msg.append(kind.label());
            msg.append(" \"");
            msg.append(name.as_str());
            msg.append("\", which does not exist");
            report(out, msg);
        }
        assert(views(out@) =~= views(old(out)@) + ref_problems(
            rules@,
            id@,
            tname@,
            spec_refs.take(i + 1),
        ));
        i = i + 1;
    }
    assert(spec_refs.take(refs@.len() as int) =~= spec_refs);
}

/// How many traits in the list carry this name.
fn count_traits(traits: &Vec<Trait>, name: &str) -> (r: usize)
    ensures
        r == count_named(traits@, name@),
{
    let mut n: usize = 0;
    let mut i: usize = 0;
    assert(traits@.take(0) =~= Seq::<Trait>::empty());
    while i < traits.len()
        invariant
            i <= traits@.len(),
            n == count_named(traits@.take(i as int), name@),
            n <= i,
        decreases traits@.len() - i,
    {
        assert(traits@.take(i + 1).drop_last() =~= traits@.take(i as int));
        if str_eq(traits[i].name(), name) {
            n = n + 1;
        }
        i = i + 1;
    }
    assert(traits@.take(traits@.len() as int) =~= traits@);
    n
}

/// Reports everything wrong with one entity.
fn check_entity(rules: &Rules, e: &EntityDef, out: &mut Vec<String>)
    ensures
        views(final(out)@) == views(old(out)@) + entity_problems(rules@, *e),
{
    let mut armed = false;
    let mut sighted = false;
    let mut i: usize = 0;
    while i < e.traits.len()
        invariant
            i <= e.traits@.len(),
            armed == exists|j: int| 0 <= j < i && #[trigger] e.traits@[j] is Armed,
            sighted == exists|j: int| 0 <= j < i && #[trigger] e.traits@[j] is Vision,
        decreases e.traits@.len() - i,
    {
        if let Trait::Armed { .. } = &e.traits[i] {
            armed = true;
        }
        if let Trait::Vision { .. } = &e.traits[i] {
            sighted = true;
        }
        i = i + 1;
    }
    let ghost start = views(out@);
    if armed && !sighted {
        let mut msg = copy_text(&e.id);
        msg.append(": has a weapon but no Vision, so it can never acquire a target");
        report(out, msg);
    }
    let ghost after_blind = views(out@);
    assert(after_blind == start + (if is_armed(e.traits@) && !is_sighted(e.traits@) {
        seq![blind_message(e.id@)]
    } else {
        Seq::<Seq<char>>::empty()
    }));

    let mut t: usize = 0;
    assert(e.traits@.take(0) =~= Seq::<Trait>::empty());
    assert(views(out@) =~= after_blind + traits_problems(rules@, e.id@, e.traits@.take(0)));
    while t < e.traits.len()
        invariant
            t <= e.traits@.len(),
            views(out@) == after_blind + traits_problems(rules@, e.id@, e.traits@.take(t as int)),
        decreases e.traits@.len() - t,
    {
        check_refs(rules, &e.id, &e.traits[t], out);
        assert(e.traits@.take(t + 1).drop_last() =~= e.traits@.take(t as int));
        assert(views(out@) =~= after_blind + traits_problems(
            rules@,
            e.id@,
            e.traits@.take(t + 1),
        ));
        t = t + 1;
    }
    assert(e.traits@.take(e.traits@.len() as int) =~= e.traits@);
    let ghost after_refs = views(out@);

    let names = unique_traits();
    let ghost spec_names = unique_trait_names();
    let mut k: usize = 0;
    assert(spec_names.take(0) =~= Seq::<Seq<char>>::empty());
    assert(views(out@) =~= after_refs + repeats_problems(e.id@, e.traits@, spec_names.take(0)));
    while k < names.len()
        invariant
            k <= names@.len(),
            names@.map_values(|s: &str| s@) == spec_names,
            views(out@) == after_refs + repeats_problems(e.id@, e.traits@, spec_names.take(k as int)),
        decreases names@.len() - k,
    {
        let name = names[k];
        assert(names@.map_values(|s: &str| s@)[k as int] == name@);
        assert(spec_names.take(k + 1).drop_last() =~= spec_names.take(k as int));
        if count_traits(&e.traits, name) > 1 {
            let mut msg = copy_text(&e.id);
            msg.append(": has more than one ");
            msg.append(name);
            msg.append(" trait; the simulation would silently use only one of them");
            report(out, msg);
        }
        assert(views(out@) =~= after_refs + repeats_problems(
            e.id@,
            e.traits@,
            spec_names.take(k + 1),
        ));
        k = k + 1;
    }
    assert(spec_names.take(names@.len() as int) =~= spec_names);
    assert(views(out@) =~= start + entity_problems(rules@, *e));
}

/// Reports unit names a country refers to that do not exist.
fn check_units(rules: &Rules, faction: &String, units: &Vec<String>, out: &mut Vec<String>)
    ensures
        views(final(out)@) == views(old(out)@) + units_problems(rules@, faction@, units@),
{
    let mut i: usize = 0;
    assert(units@.take(0) =~= Seq::<String>::empty());
    assert(views(out@) =~= views(old(out)@) + units_problems(rules@, faction@, units@.take(0)));
    while i < units.len()
        invariant
            i <= units@.len(),
            views(out@) == views(old(out)@) + units_problems(rules@, faction@, units@.take(i as int)),
        decreases units@.len() - i,
    {
        assert(units@.take(i + 1).drop_last() =~= units@.take(i as int));
        if find_last(rules.entity_list(), units[i].as_str()).is_none() {
            let mut msg = crate::text::text("faction ");
            msg.append(faction.as_str());
            msg.append(": refers to unit \"");
            msg.append(units[i].as_str());
            msg.append("\", which does not exist");
            report(out, msg);
        }
        assert(views(out@) =~= views(old(out)@) + units_problems(
            rules@,
            faction@,
            units@.take(i + 1),
        ));
        i = i + 1;
    }
    assert(units@.take(units@.len() as int) =~= units@);
}

/// The units of the first list, then those of the second, have the problems
/// of the two lists one after the other.
proof fn lemma_units_concat(m: RulesModel, f: Seq<char>, a: Seq<String>, b: Seq<String>)
    ensures
        units_problems(m, f, a + b) == units_problems(m, f, a) + units_problems(m, f, b),
    decreases b.len(),
{
    if b.len() == 0 {
        assert(a + b =~= a);
        assert(units_problems(m, f, a) + Seq::<Seq<char>>::empty() =~= units_problems(m, f, a));
    } else {
        assert((a + b).drop_last() =~= a + b.drop_last());
        assert((a + b).last() == b.last());
        lemma_units_concat(m, f, a, b.drop_last());
        assert(units_problems(m, f, a + b) =~= units_problems(m, f, a) + units_problems(m, f, b));
    }
}

/// What is in either part is in the whole.
proof fn lemma_in_either(a: Seq<Seq<char>>, b: Seq<Seq<char>>, x: Seq<char>)
    ensures
        a.contains(x) ==> (a + b).contains(x),
        b.contains(x) ==> (a + b).contains(x),
{
    if a.contains(x) {
        let i = choose|i: int| 0 <= i < a.len() && a[i] == x;
        assert((a + b)[i] == x);
    }
    if b.contains(x) {
        let i = choose|i: int| 0 <= i < b.len() && b[i] == x;
        assert((a + b)[a.len() + i] == x);
    }
}

/// Every unit named that no entity has is reported; with nothing reported,
/// every unit named is an entity's.
proof fn lemma_missing_units_reported(m: RulesModel, f: Seq<char>, units: Seq<String>)
    ensures
        forall|b: int|
            0 <= b < units.len() && !has_key(m.entities, (#[trigger] units[b])@) ==> units_problems(
                m,
                f,
                units,
            ).contains(missing_unit_message(f, units[b]@)),
        units_problems(m, f, units).len() == 0 ==> forall|b: int|
            0 <= b < units.len() ==> has_key(m.entities, (#[trigger] units[b])@),
    decreases units.len(),
{
    if units.len() > 0 {
        let init = units.drop_last();
        lemma_missing_units_reported(m, f, init);
        let last = if has_key(m.entities, units.last()@) {
            Seq::<Seq<char>>::empty()
        } else {
            seq![missing_unit_message(f, units.last()@)]
        };
        assert(units_problems(m, f, units) == units_problems(m, f, init) + last);
        assert forall|b: int|
            0 <= b < units.len() && !has_key(m.entities, (#[trigger] units[b])@) implies units_problems(
            m,
            f,
            units,
        ).contains(missing_unit_message(f, units[b]@)) by {
            lemma_in_either(units_problems(m, f, init), last, missing_unit_message(f, units[b]@));
            if b < init.len() {
                assert(init[b] == units[b]);
            } else {
                assert(last[0] == missing_unit_message(f, units[b]@));
            }
        }
        if units_problems(m, f, units).len() == 0 {
            assert forall|b: int| 0 <= b < units.len() implies has_key(m.entities, (#[trigger] units[b])@) by {
                if b < init.len() {
                    assert(init[b] == units[b]);
                }
            }
        }
    }
}

/// Each country's problems are among the problems of the list of
/// countries; with none for the list, there are none for any country.
proof fn lemma_faction_problems_among(m: RulesModel, fs: Seq<FactionDef>, a: int, x: Seq<char>)
    requires
        0 <= a < fs.len(),
    ensures
        faction_problems(m, fs[a]).contains(x) ==> factions_problems(m, fs).contains(x),
        factions_problems(m, fs).len() == 0 ==> faction_problems(m, fs[a]).len() == 0,
    decreases fs.len(),
{
    let init = fs.drop_last();
    assert(factions_problems(m, fs) == factions_problems(m, init) + faction_problems(m, fs.last()));
    if a < init.len() {
        assert(init[a] == fs[a]);
        lemma_faction_problems_among(m, init, a, x);
    }
    lemma_in_either(factions_problems(m, init), faction_problems(m, fs.last()), x);
}

/// Every unit a country adds or removes must exist: for each name in a
/// country's unique units or removed units that no entity has, the rules'
/// problems say that the country refers to a unit that does not exist; and
/// rules with no problems name only existing units in every country.
pub proof fn lemma_faction_units_checked(m: RulesModel)
    ensures
        forall|a: int, b: int|
            0 <= a < m.factions.len() && 0 <= b < m.factions[a].unique_units@.len() && !(exists|j: int|
                0 <= j < m.entities.len() && #[trigger] m.entities[j].id@ == (#[trigger] m.factions[a].unique_units@[b])@)
                ==> rules_problems(m).contains(
                "faction "@ + m.factions[a].id@ + ": refers to unit \""@ + m.factions[a].unique_units@[b]@
                    + "\", which does not exist"@,
            ),
        forall|a: int, b: int|
            0 <= a < m.factions.len() && 0 <= b < m.factions[a].removes_units@.len() && !(exists|j: int|
                0 <= j < m.entities.len() && #[trigger] m.entities[j].id@ == (#[trigger] m.factions[a].removes_units@[b])@)
                ==> rules_problems(m).contains(
                "faction "@ + m.factions[a].id@ + ": refers to unit \""@ + m.factions[a].removes_units@[b]@
                    + "\", which does not exist"@,
            ),
        rules_problems(m).len() == 0 ==> forall|a: int, b: int|
            0 <= a < m.factions.len() && 0 <= b < m.factions[a].removes_units@.len() ==> exists|j: int|
                0 <= j < m.entities.len() && #[trigger] m.entities[j].id@ == (#[trigger] m.factions[a].removes_units@[b])@,
        rules_problems(m).len() == 0 ==> forall|a: int, b: int|
            0 <= a < m.factions.len() && 0 <= b < m.factions[a].unique_units@.len() ==> exists|j: int|
                0 <= j < m.entities.len() && #[trigger] m.entities[j].id@ == (#[trigger] m.factions[a].unique_units@[b])@,
{
    let p0 = entities_problems(m, m.entities) + weapons_problems(m, m.weapons);
    let p1 = factions_problems(m, m.factions);
    let p2 = rows_problems(m.armour.classes, m.armour.rows);
    assert(rules_problems(m) == p0 + p1 + p2);
    assert forall|a: int, x: Seq<char>|
        0 <= a < m.factions.len() && #[trigger] faction_problems(m, m.factions[a]).contains(x) implies rules_problems(
        m,
    ).contains(x) by {
        lemma_faction_problems_among(m, m.factions, a, x);
        lemma_in_either(p0, p1, x);
        lemma_in_either(p0 + p1, p2, x);
    }
    assert forall|a: int| 0 <= a < m.factions.len() implies {
        let f = #[trigger] m.factions[a];
        let us = f.unique_units@ + f.removes_units@;
        &&& forall|b: int|
            0 <= b < us.len() && !has_key(m.entities, (#[trigger] us[b])@) ==> faction_problems(m, f).contains(
                missing_unit_message(f.id@, us[b]@),
            )
        &&& (rules_problems(m).len() == 0 ==> forall|b: int|
            0 <= b < us.len() ==> has_key(m.entities, (#[trigger] us[b])@))
    } by {
        let f = m.factions[a];
        let us = f.unique_units@ + f.removes_units@;
        lemma_missing_units_reported(m, f.id@, us);
        let up = units_problems(m, f.id@, us);
        let mp = modifiers_problems(m, f.id@, f.modifiers@);
        assert forall|x: Seq<char>| up.contains(x) implies #[trigger] faction_problems(m, f).contains(x) by {
            lemma_in_either(up, mp, x);
        }
        if rules_problems(m).len() == 0 {
            lemma_faction_problems_among(m, m.factions, a, seq![]);
            assert((p0 + p1 + p2).len() == p0.len() + p1.len() + p2.len());
        }
    }
    assert forall|a: int, b: int|
        0 <= a < m.factions.len() && 0 <= b < m.factions[a].unique_units@.len() && !(exists|j: int|
            0 <= j < m.entities.len() && #[trigger] m.entities[j].id@ == (#[trigger] m.factions[a].unique_units@[b])@)
            implies rules_problems(m).contains(
        "faction "@ + m.factions[a].id@ + ": refers to unit \""@ + m.factions[a].unique_units@[b]@
            + "\", which does not exist"@,
    ) by {
        let f = m.factions[a];
        let us = f.unique_units@ + f.removes_units@;
        assert(us[b] == f.unique_units@[b]);
        assert(!has_key(m.entities, us[b]@));
        assert(faction_problems(m, f).contains(missing_unit_message(f.id@, us[b]@)));
    }
    assert forall|a: int, b: int|
        0 <= a < m.factions.len() && 0 <= b < m.factions[a].removes_units@.len() && !(exists|j: int|
            0 <= j < m.entities.len() && #[trigger] m.entities[j].id@ == (#[trigger] m.factions[a].removes_units@[b])@)
            implies rules_problems(m).contains(
        "faction "@ + m.factions[a].id@ + ": refers to unit \""@ + m.factions[a].removes_units@[b]@
            + "\", which does not exist"@,
    ) by {
        let f = m.factions[a];
        let us = f.unique_units@ + f.removes_units@;
        let k = f.unique_units@.len() + b;
        assert(us[k] == f.removes_units@[b]);
        assert(!has_key(m.entities, us[k]@));
        assert(faction_problems(m, f).contains(missing_unit_message(f.id@, us[k]@)));
    }
    if rules_problems(m).len() == 0 {
        assert forall|a: int, b: int|
            0 <= a < m.factions.len() && 0 <= b < m.factions[a].removes_units@.len() implies exists|j: int|
                0 <= j < m.entities.len() && #[trigger] m.entities[j].id@ == (#[trigger] m.factions[a].removes_units@[b])@ by {
            let f = m.factions[a];
            let us = f.unique_units@ + f.removes_units@;
            let k = f.unique_units@.len() + b;
            assert(us[k] == f.removes_units@[b]);
            assert(has_key(m.entities, us[k]@));
            let j = choose|j: int| 0 <= j < m.entities.len() && #[trigger] m.entities[j].key() == us[k]@;
            assert(m.entities[j].id@ == us[k]@);
        }
        assert forall|a: int, b: int|
            0 <= a < m.factions.len() && 0 <= b < m.factions[a].unique_units@.len() implies exists|j: int|
                0 <= j < m.entities.len() && #[trigger] m.entities[j].id@ == (#[trigger] m.factions[a].unique_units@[b])@ by {
            let f = m.factions[a];
            let us = f.unique_units@ + f.removes_units@;
            assert(us[b] == f.unique_units@[b]);
            assert(has_key(m.entities, us[b]@));
            let j = choose|j: int| 0 <= j < m.entities.len() && #[trigger] m.entities[j].key() == us[b]@;
            assert(m.entities[j].id@ == us[b]@);
        }
    }
}

/// Reports everything wrong with one country.
fn check_faction(rules: &Rules, f: &FactionDef, out: &mut Vec<String>)
    ensures
        views(final(out)@) == views(old(out)@) + faction_problems(rules@, *f),
{
    let ghost start = views(out@);
    check_units(rules, &f.id, &f.unique_units, out);
    check_units(rules, &f.id, &f.removes_units, out);
    proof {
        lemma_units_concat(rules@, f.id@, f.unique_units@, f.removes_units@);
    }
    let ghost after_units = views(out@);
    assert(after_units =~= start + units_problems(rules@, f.id@, f.unique_units@ + f.removes_units@));
    let mut i: usize = 0;
    assert(f.modifiers@.take(0) =~= Seq::<Modifier>::empty());
    assert(views(out@) =~= after_units + modifiers_problems(rules@, f.id@, f.modifiers@.take(0)));
    while i < f.modifiers.len()
        invariant
            i <= f.modifiers@.len(),
            views(out@) == after_units + modifiers_problems(
                rules@,
                f.id@,
                f.modifiers@.take(i as int),
            ),
        decreases f.modifiers@.len() - i,
    {
        assert(f.modifiers@.take(i + 1).drop_last() =~= f.modifiers@.take(i as int));
        let (target, name) = f.modifiers[i].target();
        let exists = match target {
            ModifierTarget::Unit => find_last(rules.entity_list(), name.as_str()).is_some(),
            ModifierTarget::Weapon => find_last(rules.weapon_list(), name.as_str()).is_some(),
            ModifierTarget::Category => name.unicode_len() > 0,
        };
        if !exists {
            let mut msg = crate::text::text("faction ");
            msg.append(f.id.as_str());
            msg.append(": modifier refers to ");
            msg.append(target.label());
            msg.append(" \"");
            msg.append(name.as_str());
            msg.append("\", which does not exist");
            report(out, msg);
        }
        assert(views(out@) =~= after_units + modifiers_problems(
            rules@,
            f.id@,
            f.modifiers@.take(i + 1),
        ));
        i = i + 1;
    }
    assert(f.modifiers@.take(f.modifiers@.len() as int) =~= f.modifiers@);
    assert(views(out@) =~= start + faction_problems(rules@, *f));
}

/// Reports the columns of one armour row that name undeclared classes.
fn check_cells(classes: &Vec<String>, cells: &Vec<ArmourCell>, out: &mut Vec<String>)
    ensures
        views(final(out)@) == views(old(out)@) + cells_problems(classes@, cells@),
{
    let mut i: usize = 0;
    assert(cells@.take(0) =~= Seq::<ArmourCell>::empty());
    assert(views(out@) =~= views(old(out)@) + cells_problems(classes@, cells@.take(0)));
    while i < cells.len()
        invariant
            i <= cells@.len(),
            views(out@) == views(old(out)@) + cells_problems(classes@, cells@.take(i as int)),
        decreases cells@.len() - i,
    {
        assert(cells@.take(i + 1).drop_last() =~= cells@.take(i as int));
        if !contains_text(classes, cells[i].class.as_str()) {
            let mut msg = crate::text::text("armour table has a column for \"");
            msg.append(cells[i].class.as_str());
            msg.append("\", which is not a declared class");
            report(out, msg);
        }
        assert(views(out@) =~= views(old(out)@) + cells_problems(classes@, cells@.take(i + 1)));
        i = i + 1;
    }
    assert(cells@.take(cells@.len() as int) =~= cells@);
}

/// Every problem with a set of rules, in the order they are reported.
pub fn problems(rules: &Rules) -> (r: Vec<String>)
    ensures
        views(r@) == rules_problems(rules@),
{
    let mut out: Vec<String> = Vec::new();
    let entities = rules.entity_list();
    let mut i: usize = 0;
    assert(entities@.take(0) =~= Seq::<EntityDef>::empty());
    assert(views(out@) =~= entities_problems(rules@, entities@.take(0)));
    while i < entities.len()
        invariant
            i <= entities@.len(),
            entities@ == rules@.entities,
            views(out@) == entities_problems(rules@, entities@.take(i as int)),
        decreases entities@.len() - i,
    {
        assert(entities@.take(i + 1).drop_last() =~= entities@.take(i as int));
        check_entity(rules, &entities[i], &mut out);
        i = i + 1;
    }
    assert(entities@.take(entities@.len() as int) =~= entities@);
    let ghost after_entities = views(out@);

    let weapons = rules.weapon_list();
    let mut w: usize = 0;
    assert(weapons@.take(0) =~= Seq::<WeaponDef>::empty());
    assert(views(out@) =~= after_entities + weapons_problems(rules@, weapons@.take(0)));
    while w < weapons.len()
        invariant
            w <= weapons@.len(),
            weapons@ == rules@.weapons,
            views(out@) == after_entities + weapons_problems(rules@, weapons@.take(w as int)),
        decreases weapons@.len() - w,
    {
        assert(weapons@.take(w + 1).drop_last() =~= weapons@.take(w as int));
        let weapon = &weapons[w];
        if !rules.armour().has_row(weapon.warhead.as_str()) {
            let mut msg = crate::text::text("weapon ");
            msg.append(weapon.id.as_str());
            msg.append(": warhead \"");
            msg.append(weapon.warhead.as_str());
            msg.append("\" has no row in the armour table, so it would do full damage to everything");
            report(&mut out, msg);
        }
        assert(views(out@) =~= after_entities + weapons_problems(rules@, weapons@.take(w + 1)));
        w = w + 1;
    }
    assert(weapons@.take(weapons@.len() as int) =~= weapons@);
    let ghost after_weapons = views(out@);

    let factions = rules.faction_list();
    let mut f: usize = 0;
    assert(factions@.take(0) =~= Seq::<FactionDef>::empty());
    assert(views(out@) =~= after_weapons + factions_problems(rules@, factions@.take(0)));
    while f < factions.len()
        invariant
            f <= factions@.len(),
            factions@ == rules@.factions,
            views(out@) == after_weapons + factions_problems(rules@, factions@.take(f as int)),
        decreases factions@.len() - f,
    {
        assert(factions@.take(f + 1).drop_last() =~= factions@.take(f as int));
        check_faction(rules, &factions[f], &mut out);
        assert(views(out@) =~= after_weapons + factions_problems(rules@, factions@.take(f + 1)));
        f = f + 1;
    }
    assert(factions@.take(factions@.len() as int) =~= factions@);
    let ghost after_factions = views(out@);

    let classes = rules.armour().classes();
    let rows = rules.armour().rows();
    let mut k: usize = 0;
    assert(rows@.take(0) =~= Seq::<crate::armour::ArmourRow>::empty());
    assert(views(out@) =~= after_factions + rows_problems(classes@, rows@.take(0)));
    while k < rows.len()
        invariant
            k <= rows@.len(),
            views(out@) == after_factions + rows_problems(classes@, rows@.take(k as int)),
        decreases rows@.len() - k,
    {
        assert(rows@.take(k + 1).drop_last() =~= rows@.take(k as int));
        check_cells(classes, &rows[k].cells, &mut out);
        assert(views(out@) =~= after_factions + rows_problems(classes@, rows@.take(k + 1)));
        k = k + 1;
    }
    assert(rows@.take(rows@.len() as int) =~= rows@);
    assert(views(out@) =~= rules_problems(rules@));
    out
}

} // verus!
