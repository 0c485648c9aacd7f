//! Entity traits: what a thing *can do*, listed rather than inherited.
//!
//! A unit is not a subclass of a base unit. It is a list of traits, each a
//! small independent piece of behaviour, so a novel unit is a novel
//! combination of existing traits and needs no new code.

use vstd::prelude::*;
use crate::text::copy_text;
use crate::value::{Hundredths, Percent, Ticks};

verus! {

/// Default for flags that are true unless stated otherwise.
pub fn yes() -> (r: bool)
    ensures
        r,
{
    true
}

/// The researched eviction threshold: a third of full health.
pub fn a_third() -> (r: u32)
    ensures
        r == 33,
{
    33
}

/// Which layer a thing occupies for the purpose of being shot at.
#[derive(Clone, Copy, PartialEq, Eq, PartialOrd, Ord, Hash, Debug, Default, Structural)]
pub enum Layer {
    #[default]
    Ground,
    Air,
}

/// A standing effect on a player.
#[derive(Clone, PartialEq, Eq, PartialOrd, Ord, Debug)]
pub enum PlayerEffect {
    /// Every load of ore delivered is worth this percentage of its usual value.
    OreValue(Percent),
    /// Everything this player builds of this category arrives one rank higher.
    VeteranProduction(String),
    /// Every vehicle this player owns repairs itself, wherever it is.
    RepairEverywhere,
}

/// What infiltrating one building yields.
#[derive(Clone, PartialEq, Eq, PartialOrd, Ord, Debug)]
pub enum InfiltrationEffect {
    /// Everything of a category the infiltrator builds from now on arrives
    /// promoted.
    Promotes { category: String },
    /// The victim loses power for a while.
    Blackout { ticks: u32 },
    /// The infiltrator takes this percentage of the victim's funds.
    StealsFunds { percent: u32 },
    /// The infiltrator may now build this.
    Unlocks { unit: String },
}

/// A surface a unit may occupy.
#[derive(Clone, Copy, PartialEq, Eq, PartialOrd, Ord, Hash, Debug, Structural)]
pub enum Surface {
    /// Open, level ground.
    Land,
    /// Water deep enough to float on.
    Water,
    /// High ground. Only flight crosses it.
    Height,
}

/// How a thing traverses terrain.
#[derive(Clone, Copy, PartialEq, Eq, Debug, Default, Structural)]
pub enum Locomotor {
    #[default]
    Foot,
    Wheeled,
    /// On tracks, like a tank.
    Treaded,
    Hover,
    Ship,
    Air,
}

/// What a weapon's damage is like, for the armour table to interpret.
pub type WarheadId = String;

/// Which armour class a thing has.
pub type ArmourId = String;

/// One capability. Deliberately flat: a nested hierarchy would reintroduce
/// the inheritance this design exists to avoid.
#[derive(Clone, PartialEq, Eq, Debug)]
pub enum Trait {
    /// Can be damaged and destroyed.
    Health { max: u32, armour: ArmourId },
    /// Can move under its own power.
    Mobile {
        /// Cells per second.
        speed: Hundredths,
        /// Degrees per second.
        turn_rate: u32,
        locomotor: Locomotor,
        /// Surfaces this unit may cross; omitted means the locomotor's.
        surfaces: Option<Vec<Surface>>,
        /// Physical radius in hundredths of a cell.
        size: Option<Hundredths>,
        /// Which layer this occupies for targeting.
        layer: Option<Layer>,
    },
    /// Carries an additional weapon.
    Secondary { weapon: String, turret: bool, turret_rate: u32 },
    /// Carries a weapon.
    Armed { weapon: String, turret: bool, turret_rate: u32 },
    /// Reveals the map around it.
    Vision { range: Hundredths },
    /// Reveals cloaked things within its vision.
    Detector,
    /// Invisible to anything without a detector.
    Cloakable { recloak_delay: Ticks },
    /// Drives over lighter things, destroying them.
    Crushes { classes: Vec<String> },
    /// A member of this class for crushing rules.
    Crushable { class: String },
    /// Occupies more than one cell.
    Footprint { width: u8, height: u8 },
    /// Can be built, and how.
    Buildable {
        cost: u32,
        build_time: Ticks,
        /// Everything that must exist first.
        prerequisites: Vec<String>,
        /// Which production building makes it.
        produced_by: String,
    },
    /// Produces other things.
    Produces { categories: Vec<String> },
    /// At most this many may exist at once, per player.
    BuildLimit { max: u8 },
    /// Comes with these units when it is built.
    Delivers { units: Vec<String> },
    /// Pays whoever destroys it.
    Bounty { credits: u32 },
    /// Grants a standing effect to its owner while it stands.
    Grants { effect: PlayerEffect },
    /// Supplies power to the grid.
    PowerSupply { output: u32 },
    /// Draws power from the grid.
    PowerDraw { amount: u32, works_unpowered: bool },
    /// Gathers resources.
    Harvester { capacity: u32, gather_rate: Hundredths },
    /// Accepts harvesters and converts their load to credits.
    Refinery { value_per_unit: Percent },
    /// Repairs itself over time.
    SelfHealing { per_tick: Hundredths, delay_after_damage: Ticks },
    /// Damages its surroundings when destroyed.
    Explodes { warhead: WarheadId, damage: u32 },
    /// Can be captured by walking an engineer into it.
    Capturable,
    /// Can walk into a building to capture or repair it.
    Engineer { consumed: bool },
    /// Carries other units.
    Transport { capacity: u8, allowed: Vec<String> },
    /// Gains rank with kills.
    Veterancy { kills_for_veteran: u32, kills_for_elite: u32 },
    /// Hides the ground around it from everyone else.
    HidesGround { radius: Hundredths },
    /// Carries ground units over water while it stands.
    Bridge,
    /// Rebuilds wrecked bridges near it when an engineer walks in.
    RepairsBridges { radius: u8 },
    /// Poisons the ground around it while it stands there.
    Contaminates { radius: Hundredths, damage: u32, warhead: WarheadId, lingers: Ticks },
    /// What a spy gets for reaching this building.
    Infiltrated { effect: InfiltrationEffect },
    /// Can walk into an enemy building for whatever that building yields.
    Infiltrator { consumed: bool },
    /// Can be occupied by infantry, who fight from inside it.
    Garrisonable {
        capacity: u8,
        categories: Vec<String>,
        weapon: String,
        evict_below_percent: u32,
    },
    /// Burrows into an enemy unit and takes it apart from inside.
    Infests { categories: Vec<String>, damage: u32, warhead: WarheadId },
    /// Repairs friendly units that are sent into it.
    Repairs { categories: Vec<String>, rate: u32, cost_percent: u32, cures_infestation: bool },
    /// Becomes something else on command.
    Deploys { into: String },
    /// Selectable by the player. Priority breaks ties when units overlap.
    Selectable { priority: u8 },
}

/// The short name of each trait.
pub open spec fn trait_name(t: Trait) -> Seq<char> {
    match t {
        Trait::Health { .. } => "Health"@,
        Trait::Mobile { .. } => "Mobile"@,
        Trait::Armed { .. } => "Armed"@,
        Trait::Secondary { .. } => "Secondary"@,
        Trait::Vision { .. } => "Vision"@,
        Trait::Detector => "Detector"@,
        Trait::Cloakable { .. } => "Cloakable"@,
        Trait::Crushes { .. } => "Crushes"@,
        Trait::Crushable { .. } => "Crushable"@,
        Trait::Footprint { .. } => "Footprint"@,
        Trait::Buildable { .. } => "Buildable"@,
        Trait::Produces { .. } => "Produces"@,
        Trait::BuildLimit { .. } => "BuildLimit"@,
        Trait::Delivers { .. } => "Delivers"@,
        Trait::Bounty { .. } => "Bounty"@,
        Trait::Grants { .. } => "Grants"@,
        Trait::PowerSupply { .. } => "PowerSupply"@,
        Trait::PowerDraw { .. } => "PowerDraw"@,
        Trait::Harvester { .. } => "Harvester"@,
        Trait::Refinery { .. } => "Refinery"@,
        Trait::SelfHealing { .. } => "SelfHealing"@,
        Trait::Explodes { .. } => "Explodes"@,
        Trait::Capturable => "Capturable"@,
        Trait::Engineer { .. } => "Engineer"@,
        Trait::Transport { .. } => "Transport"@,
        Trait::Veterancy { .. } => "Veterancy"@,
        Trait::Deploys { .. } => "Deploys"@,
        Trait::Repairs { .. } => "Repairs"@,
        Trait::Infests { .. } => "Infests"@,
        Trait::Garrisonable { .. } => "Garrisonable"@,
        Trait::HidesGround { .. } => "HidesGround"@,
        Trait::Bridge => "Bridge"@,
        Trait::RepairsBridges { .. } => "RepairsBridges"@,
        Trait::Contaminates { .. } => "Contaminates"@,
        Trait::Infiltrated { .. } => "Infiltrated"@,
        Trait::Infiltrator { .. } => "Infiltrator"@,
        Trait::Selectable { .. } => "Selectable"@,
    }
}

/// The place of a trait's variant in the list of traits.
pub open spec fn variant_index(t: Trait) -> int {
    match t {
        Trait::Health { .. } => 0,
        Trait::Mobile { .. } => 1,
        Trait::Armed { .. } => 2,
        Trait::Secondary { .. } => 3,
        Trait::Vision { .. } => 4,
        Trait::Detector => 5,
        Trait::Cloakable { .. } => 6,
        Trait::Crushes { .. } => 7,
        Trait::Crushable { .. } => 8,
        Trait::Footprint { .. } => 9,
        Trait::Buildable { .. } => 10,
        Trait::Produces { .. } => 11,
        Trait::BuildLimit { .. } => 12,
        Trait::Delivers { .. } => 13,
        Trait::Bounty { .. } => 14,
        Trait::Grants { .. } => 15,
        Trait::PowerSupply { .. } => 16,
        Trait::PowerDraw { .. } => 17,
        Trait::Harvester { .. } => 18,
        Trait::Refinery { .. } => 19,
        Trait::SelfHealing { .. } => 20,
        Trait::Explodes { .. } => 21,
        Trait::Capturable => 22,
        Trait::Engineer { .. } => 23,
        Trait::Transport { .. } => 24,
        Trait::Veterancy { .. } => 25,
        Trait::Deploys { .. } => 26,
        Trait::Repairs { .. } => 27,
        Trait::Infests { .. } => 28,
        Trait::Garrisonable { .. } => 29,
        Trait::HidesGround { .. } => 30,
        Trait::Bridge => 31,
        Trait::RepairsBridges { .. } => 32,
        Trait::Contaminates { .. } => 33,
        Trait::Infiltrated { .. } => 34,
        Trait::Infiltrator { .. } => 35,
        Trait::Selectable { .. } => 36,
    }
}

/// The variant a trait name names, read from its length and the letters
/// that tell names of that length apart; `-1` where no trait name fits.
pub open spec fn variant_named(s: Seq<char>) -> int {
    if s.len() == 5 {
        2
    } else if s.len() == 6 {
        if s[0] == 'H' && s[1] == 'e' {
            0
        } else if s[0] == 'M' && s[1] == 'o' {
            1
        } else if s[0] == 'V' && s[1] == 'i' {
            4
        } else if s[0] == 'B' && s[1] == 'o' {
            14
        } else if s[0] == 'G' && s[1] == 'r' {
            15
        } else if s[0] == 'B' && s[1] == 'r' {
            31
        } else {
            -1
        }
    } else if s.len() == 7 {
        if s[0] == 'C' {
            7
        } else if s[0] == 'D' {
            26
        } else if s[0] == 'R' {
            27
        } else if s[0] == 'I' {
            28
        } else {
            -1
        }
    } else if s.len() == 8 {
        if s[2] == 't' {
            5
        } else if s[2] == 'o' {
            11
        } else if s[2] == 'l' {
            13
        } else if s[2] == 'f' {
            19
        } else if s[2] == 'p' {
            21
        } else if s[2] == 'g' {
            23
        } else {
            -1
        }
    } else if s.len() == 9 {
        if s[0] == 'S' && s[1] == 'e' {
            3
        } else if s[0] == 'C' && s[1] == 'l' {
            6
        } else if s[0] == 'C' && s[1] == 'r' {
            8
        } else if s[0] == 'F' && s[1] == 'o' {
            9
        } else if s[0] == 'B' && s[1] == 'u' {
            10
        } else if s[0] == 'P' && s[1] == 'o' {
            17
        } else if s[0] == 'H' && s[1] == 'a' {
            18
        } else if s[0] == 'T' && s[1] == 'r' {
            24
        } else if s[0] == 'V' && s[1] == 'e' {
            25
        } else {
            -1
        }
    } else if s.len() == 10 {
        if s[0] == 'B' {
            12
        } else if s[0] == 'C' {
            22
        } else if s[0] == 'S' {
            36
        } else {
            -1
        }
    } else if s.len() == 11 {
        if s[0] == 'P' && s[9] == 'l' {
            16
        } else if s[0] == 'S' && s[9] == 'n' {
            20
        } else if s[0] == 'H' && s[9] == 'n' {
            30
        } else if s[0] == 'I' && s[9] == 'e' {
            34
        } else if s[0] == 'I' && s[9] == 'o' {
            35
        } else {
            -1
        }
    } else if s.len() == 12 {
        if s[0] == 'G' {
            29
        } else if s[0] == 'C' {
            33
        } else {
            -1
        }
    } else if s.len() == 14 {
        32
    } else {
        -1
    }
}

/// Every trait name reads back to its own variant, and starts with a
/// capital letter.
proof fn lemma_name_reads_back(t: Trait)
    ensures
        variant_named(trait_name(t)) == variant_index(t),
        trait_name(t).len() > 0,
        'A' <= trait_name(t)[0] <= 'Z',
{
    match t {
        Trait::Health { .. } => {
            reveal_strlit("Health");
        },
        Trait::Mobile { .. } => {
            reveal_strlit("Mobile");
        },
        Trait::Armed { .. } => {
            reveal_strlit("Armed");
        },
        Trait::Secondary { .. } => {
            reveal_strlit("Secondary");
        },
        Trait::Vision { .. } => {
            reveal_strlit("Vision");
        },
        Trait::Detector => {
            reveal_strlit("Detector");
        },
        Trait::Cloakable { .. } => {
            reveal_strlit("Cloakable");
        },
        Trait::Crushes { .. } => {
            reveal_strlit("Crushes");
        },
        Trait::Crushable { .. } => {
            reveal_strlit("Crushable");
        },
        Trait::Footprint { .. } => {
            reveal_strlit("Footprint");
        },
        Trait::Buildable { .. } => {
            reveal_strlit("Buildable");
        },
        Trait::Produces { .. } => {
            reveal_strlit("Produces");
        },
        Trait::BuildLimit { .. } => {
            reveal_strlit("BuildLimit");
        },
        Trait::Delivers { .. } => {
            reveal_strlit("Delivers");
        },
        Trait::Bounty { .. } => {
            reveal_strlit("Bounty");
        },
        Trait::Grants { .. } => {
            reveal_strlit("Grants");
        },
        Trait::PowerSupply { .. } => {
            reveal_strlit("PowerSupply");
        },
        Trait::PowerDraw { .. } => {
            reveal_strlit("PowerDraw");
        },
        Trait::Harvester { .. } => {
            reveal_strlit("Harvester");
        },
        Trait::Refinery { .. } => {
            reveal_strlit("Refinery");
        },
        Trait::SelfHealing { .. } => {
            reveal_strlit("SelfHealing");
        },
        Trait::Explodes { .. } => {
            reveal_strlit("Explodes");
        },
        Trait::Capturable => {
            reveal_strlit("Capturable");
        },
        Trait::Engineer { .. } => {
            reveal_strlit("Engineer");
        },
        Trait::Transport { .. } => {
            reveal_strlit("Transport");
        },
        Trait::Veterancy { .. } => {
            reveal_strlit("Veterancy");
        },
        Trait::Deploys { .. } => {
            reveal_strlit("Deploys");
        },
        Trait::Repairs { .. } => {
            reveal_strlit("Repairs");
        },
        Trait::Infests { .. } => {
            reveal_strlit("Infests");
        },
        Trait::Garrisonable { .. } => {
            reveal_strlit("Garrisonable");
        },
        Trait::HidesGround { .. } => {
            reveal_strlit("HidesGround");
        },
        Trait::Bridge => {
            reveal_strlit("Bridge");
        },
        Trait::RepairsBridges { .. } => {
            reveal_strlit("RepairsBridges");
        },
        Trait::Contaminates { .. } => {
            reveal_strlit("Contaminates");
        },
        Trait::Infiltrated { .. } => {
            reveal_strlit("Infiltrated");
        },
        Trait::Infiltrator { .. } => {
            reveal_strlit("Infiltrator");
        },
        Trait::Selectable { .. } => {
            reveal_strlit("Selectable");
        },
    }
}

/// Every trait names itself: two traits have the same name exactly when
/// they are the same variant, and every name is a word starting with a
/// capital letter.
pub proof fn lemma_trait_names_differ(a: Trait, b: Trait)
    ensures
        trait_name(a) == trait_name(b) <==> variant_index(a) == variant_index(b),
        trait_name(a).len() > 0,
        'A' <= trait_name(a)[0] <= 'Z',
{
    lemma_name_reads_back(a);
    lemma_name_reads_back(b);
}

/// What a trait's reference names: another definition of some sort.
#[derive(Clone, Copy, PartialEq, Eq, Debug, Structural)]
pub enum RefKind {
    Armour,
    Weapon,
    Warhead,
    Prerequisite,
    Producer,
    Delivered,
    Transportable,
    DeployedForm,
    UnlockedUnit,
}

/// How a reference's kind reads in messages.
pub open spec fn ref_label(k: RefKind) -> Seq<char> {
    match k {
        RefKind::Armour => "armour"@,
        RefKind::Weapon => "weapon"@,
        RefKind::Warhead => "warhead"@,
        RefKind::Prerequisite => "prerequisite"@,
        RefKind::Producer => "producer"@,
        RefKind::Delivered => "delivered"@,
        RefKind::Transportable => "transportable"@,
        RefKind::DeployedForm => "deployed form"@,
        RefKind::UnlockedUnit => "unlocked unit"@,
    }
}

impl RefKind {
    /// How this kind reads in messages.
    pub fn label(self) -> (r: &'static str)
        ensures
            r@ == ref_label(self),
    {
        match self {
            RefKind::Armour => "armour",
            RefKind::Weapon => "weapon",
            RefKind::Warhead => "warhead",
            RefKind::Prerequisite => "prerequisite",
            RefKind::Producer => "producer",
            RefKind::Delivered => "delivered",
            RefKind::Transportable => "transportable",
            RefKind::DeployedForm => "deployed form",
            RefKind::UnlockedUnit => "unlocked unit",
        }
    }
}

/// Every name in a list, each tagged with one kind.
pub open spec fn tagged(kind: RefKind, names: Seq<String>) -> Seq<(RefKind, Seq<char>)> {
    names.map_values(|n: String| (kind, n@))
}

/// The other definitions a trait names, in order.
pub open spec fn trait_refs(t: Trait) -> Seq<(RefKind, Seq<char>)> {
    match t {
        Trait::Health { armour, .. } => seq![(RefKind::Armour, armour@)],
        Trait::Armed { weapon, .. } => seq![(RefKind::Weapon, weapon@)],
        Trait::Secondary { weapon, .. } => seq![(RefKind::Weapon, weapon@)],
        Trait::Buildable { prerequisites, produced_by, .. } => tagged(
            RefKind::Prerequisite,
            prerequisites@,
        ).push((RefKind::Producer, produced_by@)),
        Trait::Explodes { warhead, .. } => seq![(RefKind::Warhead, warhead@)],
        Trait::Delivers { units } => tagged(RefKind::Delivered, units@),
        Trait::Transport { allowed, .. } => tagged(RefKind::Transportable, allowed@),
        Trait::Deploys { into } => seq![(RefKind::DeployedForm, into@)],
        Trait::Infests { warhead, .. } => seq![(RefKind::Warhead, warhead@)],
        Trait::Contaminates { warhead, .. } => seq![(RefKind::Warhead, warhead@)],
        Trait::Garrisonable { weapon, .. } => seq![(RefKind::Weapon, weapon@)],
        Trait::Infiltrated { effect } => match effect {
            InfiltrationEffect::Unlocks { unit } => seq![(RefKind::UnlockedUnit, unit@)],
            _ => Seq::empty(),
        },
        _ => Seq::empty(),
    }
}

/// Appends every name in `names`, tagged with `kind`.
fn push_tagged(out: &mut Vec<(RefKind, String)>, kind: RefKind, names: &Vec<String>)
    ensures
        final(out)@.map_values(|p: (RefKind, String)| (p.0, p.1@)) == old(out)@.map_values(
            |p: (RefKind, String)| (p.0, p.1@),
        ) + tagged(kind, names@),
{
    let mut i: usize = 0;
    while i < names.len()
        invariant
            i <= names@.len(),
            out@.map_values(|p: (RefKind, String)| (p.0, p.1@)) == old(out)@.map_values(
                |p: (RefKind, String)| (p.0, p.1@),
            ) + tagged(kind, names@.take(i as int)),
        decreases names@.len() - i,
    {
        let ghost prev = out@;
        let c = copy_text(&names[i]);
        out.push((kind, c));
        proof {
            let f = |p: (RefKind, String)| (p.0, p.1@);
            assert(out@ == prev.push((kind, c)));
            assert(out@.map_values(f) =~= prev.map_values(f).push((kind, names@[i as int]@)));
            assert(names@.take(i + 1) =~= names@.take(i as int).push(names@[i as int]));
            assert(tagged(kind, names@.take(i + 1)) =~= tagged(kind, names@.take(i as int)).push(
                (kind, names@[i as int]@),
            ));
            assert(out@.map_values(f) =~= old(out)@.map_values(f) + tagged(
                kind,
                names@.take(i + 1),
            ));
        }
        i = i + 1;
    }
    assert(names@.take(names@.len() as int) =~= names@);
}

/// A single tagged reference.
fn one_ref(kind: RefKind, name: &String) -> (r: Vec<(RefKind, String)>)
    ensures
        r@.map_values(|p: (RefKind, String)| (p.0, p.1@)) == seq![(kind, name@)],
{
    let mut out = Vec::new();
    out.push((kind, copy_text(name)));
    assert(out@.map_values(|p: (RefKind, String)| (p.0, p.1@)) =~= seq![(kind, name@)]);
    out
}

impl Trait {
    /// A short name, for error messages and tooling.
    pub fn name(&self) -> (r: &'static str)
        ensures
            r@ == trait_name(*self),
    {
        match self {
            Trait::Health { .. } => "Health",
            Trait::Mobile { .. } => "Mobile",
            Trait::Armed { .. } => "Armed",
            Trait::Secondary { .. } => "Secondary",
            Trait::Vision { .. } => "Vision",
            Trait::Detector => "Detector",
            Trait::Cloakable { .. } => "Cloakable",
            Trait::Crushes { .. } => "Crushes",
            Trait::Crushable { .. } => "Crushable",
            Trait::Footprint { .. } => "Footprint",
            Trait::Buildable { .. } => "Buildable",
            Trait::Produces { .. } => "Produces",
            Trait::BuildLimit { .. } => "BuildLimit",
            Trait::Delivers { .. } => "Delivers",
            Trait::Bounty { .. } => "Bounty",
            Trait::Grants { .. } => "Grants",
            Trait::PowerSupply { .. } => "PowerSupply",
            Trait::PowerDraw { .. } => "PowerDraw",
            Trait::Harvester { .. } => "Harvester",
            Trait::Refinery { .. } => "Refinery",
            Trait::SelfHealing { .. } => "SelfHealing",
            Trait::Explodes { .. } => "Explodes",
            Trait::Capturable => "Capturable",
            Trait::Engineer { .. } => "Engineer",
            Trait::Transport { .. } => "Transport",
            Trait::Veterancy { .. } => "Veterancy",
            Trait::Deploys { .. } => "Deploys",
            Trait::Repairs { .. } => "Repairs",
            Trait::Infests { .. } => "Infests",
            Trait::Garrisonable { .. } => "Garrisonable",
            Trait::HidesGround { .. } => "HidesGround",
            Trait::Bridge => "Bridge",
            Trait::RepairsBridges { .. } => "RepairsBridges",
            Trait::Contaminates { .. } => "Contaminates",
            Trait::Infiltrated { .. } => "Infiltrated",
            Trait::Infiltrator { .. } => "Infiltrator",
            Trait::Selectable { .. } => "Selectable",
        }
    }

    /// The other definitions this trait names, each with its kind.
    pub fn reference_list(&self) -> (r: Vec<(RefKind, String)>)
        ensures
            r@.map_values(|p: (RefKind, String)| (p.0, p.1@)) == trait_refs(*self),
    {
        match self {
            Trait::Health { armour, .. } => one_ref(RefKind::Armour, armour),
            Trait::Armed { weapon, .. } => one_ref(RefKind::Weapon, weapon),
            Trait::Secondary { weapon, .. } => one_ref(RefKind::Weapon, weapon),
            Trait::Buildable { prerequisites, produced_by, .. } => {
                let mut out = Vec::new();
                push_tagged(&mut out, RefKind::Prerequisite, prerequisites);
                out.push((RefKind::Producer, copy_text(produced_by)));
                proof {
                    assert(Seq::<(RefKind, Seq<char>)>::empty() + tagged(
                        RefKind::Prerequisite,
                        prerequisites@,
                    ) =~= tagged(RefKind::Prerequisite, prerequisites@));
                }
                assert(out@.map_values(|p: (RefKind, String)| (p.0, p.1@)) =~= trait_refs(*self));
                out
            },
            Trait::Explodes { warhead, .. } => one_ref(RefKind::Warhead, warhead),
            Trait::Delivers { units } => {
                let mut out = Vec::new();
                push_tagged(&mut out, RefKind::Delivered, units);
                assert(out@.map_values(|p: (RefKind, String)| (p.0, p.1@)) =~= trait_refs(*self));
                out
            },
            Trait::Transport { allowed, .. } => {
                let mut out = Vec::new();
                push_tagged(&mut out, RefKind::Transportable, allowed);
                assert(out@.map_values(|p: (RefKind, String)| (p.0, p.1@)) =~= trait_refs(*self));
                out
            },
            Trait::Deploys { into } => one_ref(RefKind::DeployedForm, into),
            Trait::Infests { warhead, .. } => one_ref(RefKind::Warhead, warhead),
            Trait::Contaminates { warhead, .. } => one_ref(RefKind::Warhead, warhead),
            Trait::Garrisonable { weapon, .. } => one_ref(RefKind::Weapon, weapon),
            Trait::Infiltrated { effect: InfiltrationEffect::Unlocks { unit } } => one_ref(
                RefKind::UnlockedUnit,
                unit,
            ),
            _ => {
                let out = Vec::new();
                assert(out@.map_values(|p: (RefKind, String)| (p.0, p.1@)) =~= trait_refs(*self));
                out
            },
        }
    }

    /// Names of other definitions this trait refers to, so loading can check
    /// they exist rather than discovering it mid-match.
    pub fn references(&self) -> (r: Vec<(&'static str, String)>)
        ensures
            r@.len() == trait_refs(*self).len(),
            forall|i: int|
                0 <= i < r@.len() ==> (#[trigger] r@[i]).0@ == ref_label(trait_refs(*self)[i].0)
                    && r@[i].1@ == trait_refs(*self)[i].1,
    {
        let refs = self.reference_list();
        let ghost spec_refs = trait_refs(*self);
        let mut out: Vec<(&'static str, String)> = Vec::new();
        let mut i: usize = 0;
        while i < refs.len()
            invariant
                i <= refs@.len(),
                refs@.map_values(|p: (RefKind, String)| (p.0, p.1@)) == spec_refs,
                out@.len() == i,
                forall|j: int|
                    0 <= j < i ==> (#[trigger] out@[j]).0@ == ref_label(spec_refs[j].0)
                        && out@[j].1@ == spec_refs[j].1,
            decreases refs@.len() - i,
        {
            let ghost p = refs@[i as int];
            assert(refs@.map_values(|p: (RefKind, String)| (p.0, p.1@))[i as int] == (p.0, p.1@));
            out.push((refs[i].0.label(), copy_text(&refs[i].1)));
            i = i + 1;
        }
        out
    }
}

/// The surfaces a unit of each style crosses when it does not say.
pub open spec fn default_surfaces_of(l: Locomotor) -> Seq<Surface> {
    match l {
        Locomotor::Foot | Locomotor::Wheeled | Locomotor::Treaded => seq![Surface::Land],
        Locomotor::Hover => seq![Surface::Land, Surface::Water],
        Locomotor::Ship => seq![Surface::Water],
        Locomotor::Air => seq![Surface::Land, Surface::Water, Surface::Height],
    }
}

impl Locomotor {
    /// The surfaces a unit of this style crosses when it does not say.
    ///
    /// A default, not a rule: any unit may override it.
    pub fn default_surfaces(self) -> (r: Vec<Surface>)
        ensures
            r@ == default_surfaces_of(self),
    {
        let mut out = Vec::new();
        match self {
            Locomotor::Foot | Locomotor::Wheeled | Locomotor::Treaded => {
                out.push(Surface::Land);
            },
            Locomotor::Hover => {
                out.push(Surface::Land);
                out.push(Surface::Water);
            },
            Locomotor::Ship => {
                out.push(Surface::Water);
            },
            Locomotor::Air => {
                out.push(Surface::Land);
                out.push(Surface::Water);
                out.push(Surface::Height);
            },
        }
        assert(out@ =~= default_surfaces_of(self));
        out
    }

    /// The layer a unit of this style occupies when it does not say.
    pub fn default_layer(self) -> (r: Layer)
        ensures
            r == (if self == Locomotor::Air {
                Layer::Air
            } else {
                Layer::Ground
            }),
    {
        match self {
            Locomotor::Air => Layer::Air,
            _ => Layer::Ground,
        }
    }

    /// The radius a unit of this style takes up, in hundredths of a cell,
    /// when it does not say.
    pub fn default_size(self) -> (r: Hundredths)
        ensures
            r.0 == (match self {
                Locomotor::Foot => 16int,
                Locomotor::Wheeled | Locomotor::Treaded => 39int,
                Locomotor::Hover | Locomotor::Air => 35int,
                Locomotor::Ship => 60int,
            }),
    {
        match self {
            Locomotor::Foot => Hundredths(16),
            Locomotor::Wheeled | Locomotor::Treaded => Hundredths(39),
            Locomotor::Hover => Hundredths(35),
            Locomotor::Air => Hundredths(35),
            Locomotor::Ship => Hundredths(60),
        }
    }
}

/// Trait names that may appear at most once on an entity.
///
/// Two `Health` traits is a data error, not an interesting combination, and
/// the simulation would silently use whichever it found first.
pub open spec fn unique_trait_names() -> Seq<Seq<char>> {
    seq![
        "Health"@,
        "Mobile"@,
        "Vision"@,
        "Footprint"@,
        "Buildable"@,
        "PowerSupply"@,
        "PowerDraw"@,
        "Harvester"@,
        "Refinery"@,
        "SelfHealing"@,
        "Transport"@,
        "Veterancy"@,
        "Selectable"@,
        "Cloakable"@,
        "Repairs"@,
        "Infests"@,
        "Garrisonable"@,
        "HidesGround"@,
        "Bridge"@,
        "RepairsBridges"@,
        "Contaminates"@,
        "Infiltrated"@,
        "Infiltrator"@,
        "Deploys"@,
    ]
}

/// Trait names that may appear at most once on an entity, in the order
/// problems with them are reported.
pub fn unique_traits() -> (r: Vec<&'static str>)
    ensures
        r@.map_values(|s: &str| s@) == unique_trait_names(),
{
    let mut v: Vec<&'static str> = Vec::new();
    v.push("Health");
    v.push("Mobile");
    v.push("Vision");
    v.push("Footprint");
    v.push("Buildable");
    v.push("PowerSupply");
    v.push("PowerDraw");
    v.push("Harvester");
    v.push("Refinery");
    v.push("SelfHealing");
    v.push("Transport");
    v.push("Veterancy");
    v.push("Selectable");
    v.push("Cloakable");
    v.push("Repairs");
    v.push("Infests");
    v.push("Garrisonable");
    v.push("HidesGround");
    v.push("Bridge");
    v.push("RepairsBridges");
    v.push("Contaminates");
    v.push("Infiltrated");
    v.push("Infiltrator");
    // A unit with two deployed forms would silently pick one, and which one
    // depends on trait order in a file — a desync in waiting.
    v.push("Deploys");
    assert(v@.map_values(|s: &str| s@) =~= unique_trait_names());
    v
}

} // verus!
