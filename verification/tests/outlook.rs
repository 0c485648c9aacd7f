use redshift::command::PlayerId;
use redshift::commander::{run_opponents, Commander};
use redshift::outlook::{
    base_cell, build_something, cheapest, defend, place_ready_building, site_for, wants_army,
    wants_economy, wants_power, wants_production, Category, KindFacts, Order, Outlook,
    ReadyBuilding, UnitFacts, Want,
};
use redshift::skill::Difficulty;
use redshift::traits::Trait;

const YARD: u16 = 0;
const PLANT: u16 = 1;
const REFINERY: u16 = 2;
const MINER: u16 = 3;
const BARRACKS: u16 = 4;
const TANK: u16 = 5;
const SCOUT: u16 = 6;

fn kind(cost: u32) -> KindFacts {
    KindFacts {
        traits: Vec::new(),
        cost,
        mobile: false,
        footprint_width: 2,
        is_refinery: false,
        harvest_capacity: None,
        armed: false,
        producer: Some(100),
        prerequisites_met: true,
        within_build_limit: true,
        count: 0,
    }
}

/// A small ruleset: yard, power plant, refinery, miner, barracks, tank, scout.
fn kinds() -> Vec<KindFacts> {
    let mut yard = kind(0);
    yard.footprint_width = 3;
    let mut plant = kind(300);
    plant.traits = vec![Trait::PowerSupply { output: 100 }];
    let mut refinery = kind(1400);
    refinery.is_refinery = true;
    let mut miner = kind(1000);
    miner.mobile = true;
    miner.harvest_capacity = Some(20);
    let mut barracks = kind(300);
    barracks.traits = vec![Trait::Produces { categories: vec!["infantry".to_string()] }];
    let mut tank = kind(800);
    tank.mobile = true;
    tank.armed = true;
    let mut scout = kind(500);
    scout.mobile = true;
    scout.armed = true;
    vec![yard, plant, refinery, miner, barracks, tank, scout]
}

fn unit(id: u64, owner: u8, kind: u16, x: i32, y: i32) -> UnitFacts {
    UnitFacts {
        id,
        owner: PlayerId(owner),
        neutral: false,
        alive: true,
        aboard: false,
        visible: true,
        kind,
        cell: (x, y),
        target: None,
    }
}

fn world(units: Vec<UnitFacts>) -> Outlook {
    Outlook {
        tick: 100,
        credits: 10_000,
        power_satisfied: true,
        units,
        kinds: kinds(),
        ready: None,
    }
}

fn attack(order: Option<Order>) -> Option<(Vec<u64>, u64)> {
    match order {
        Some(Order::Attack { units, target }) => Some((units, target)),
        Some(_) => panic!("not an attack"),
        None => None,
    }
}

#[test]
fn the_base_is_the_yard() {
    let w = world(vec![
        unit(1, 1, TANK, 3, 3),
        unit(2, 1, PLANT, 40, 40),
        unit(3, 1, YARD, 50, 50),
        unit(4, 0, YARD, 10, 10),
    ]);
    assert!(w.well_formed());
    // The plant is made by something, so it marks the base before the yard.
    assert_eq!(base_cell(PlayerId(1), &w), Some((40, 40)));
    assert_eq!(base_cell(PlayerId(0), &w), Some((10, 10)));
    assert_eq!(base_cell(PlayerId(2), &w), None);
}

#[test]
fn without_a_yard_the_first_structure_is_home() {
    let mut k = kinds();
    k[PLANT as usize].producer = None;
    let mut w = world(vec![unit(1, 1, TANK, 3, 3), unit(2, 1, PLANT, 40, 40), unit(3, 1, PLANT, 41, 40)]);
    w.kinds = k;
    assert_eq!(base_cell(PlayerId(1), &w), Some((40, 40)));
    // A dead structure does not count.
    w.units[1].alive = false;
    assert_eq!(base_cell(PlayerId(1), &w), Some((41, 40)));
}

#[test]
fn it_defends_against_the_nearest_intruder() {
    let w = world(vec![
        unit(1, 1, YARD, 50, 50),
        unit(2, 1, TANK, 52, 50),
        unit(3, 1, TANK, 50, 52),
        unit(4, 0, TANK, 45, 45),
        unit(5, 0, SCOUT, 48, 48),
        unit(6, 1, MINER, 51, 51),
    ]);
    // The scout is nearer the base; the miner is not armed.
    assert_eq!(attack(defend(PlayerId(1), &w)), Some((vec![2, 3], 5)));
}

#[test]
fn of_equally_near_intruders_the_first_is_chosen() {
    let w = world(vec![
        unit(1, 1, YARD, 50, 50),
        unit(2, 1, TANK, 52, 50),
        unit(7, 0, SCOUT, 47, 50),
        unit(5, 0, SCOUT, 53, 53),
    ]);
    assert_eq!(attack(defend(PlayerId(1), &w)), Some((vec![2], 7)));
}

#[test]
fn it_leaves_what_is_outside_its_base_alone() {
    let mut w = world(vec![
        unit(1, 1, YARD, 50, 50),
        unit(2, 1, TANK, 52, 50),
        unit(3, 0, TANK, 29, 50),
    ]);
    // Twenty-one cells out: outside the base radius.
    assert_eq!(attack(defend(PlayerId(1), &w)), None);
    // Twenty cells out: inside.
    w.units[2].cell = (30, 50);
    assert_eq!(attack(defend(PlayerId(1), &w)), Some((vec![2], 3)));
}

#[test]
fn neutral_unseen_and_dead_intruders_are_ignored() {
    let mut w = world(vec![unit(1, 1, YARD, 50, 50), unit(2, 1, TANK, 52, 50), unit(3, 0, TANK, 48, 50)]);
    w.units[2].neutral = true;
    assert_eq!(attack(defend(PlayerId(1), &w)), None);
    w.units[2].neutral = false;
    w.units[2].visible = false;
    assert_eq!(attack(defend(PlayerId(1), &w)), None);
    w.units[2].visible = true;
    w.units[2].alive = false;
    assert_eq!(attack(defend(PlayerId(1), &w)), None);
}

#[test]
fn units_already_on_the_target_are_not_ordered_again() {
    let mut w = world(vec![
        unit(1, 1, YARD, 50, 50),
        unit(2, 1, TANK, 52, 50),
        unit(3, 1, TANK, 50, 52),
        unit(4, 0, TANK, 48, 50),
    ]);
    w.units[1].target = Some(4);
    assert_eq!(attack(defend(PlayerId(1), &w)), Some((vec![3], 4)));
    w.units[2].aboard = true;
    assert_eq!(attack(defend(PlayerId(1), &w)), None);
}

#[test]
fn the_cheapest_buildable_kind_wins_and_ties_go_to_the_first() {
    let mut w = world(vec![unit(1, 1, YARD, 50, 50)]);
    assert_eq!(cheapest(&w, &Want::Army), Some(SCOUT));
    w.kinds[TANK as usize].cost = 500;
    assert_eq!(cheapest(&w, &Want::Army), Some(TANK));
    w.kinds[TANK as usize].prerequisites_met = false;
    assert_eq!(cheapest(&w, &Want::Army), Some(SCOUT));
    w.kinds[SCOUT as usize].producer = None;
    assert_eq!(cheapest(&w, &Want::Army), None);
    assert_eq!(wants_army(&w), None);
}

#[test]
fn it_wants_power_when_short_and_none_is_coming() {
    let mut w = world(vec![unit(1, 1, YARD, 50, 50)]);
    assert_eq!(wants_power(&w), None);
    w.power_satisfied = false;
    assert_eq!(wants_power(&w), Some(PLANT));
    w.kinds[PLANT as usize].count = 1;
    assert_eq!(wants_power(&w), None);
}

#[test]
fn it_wants_a_refinery_then_miners() {
    let mut w = world(vec![unit(1, 1, YARD, 50, 50)]);
    let d = Difficulty::Dummy;
    assert_eq!(wants_economy(PlayerId(1), d, &w), Some(REFINERY));
    w.kinds[REFINERY as usize].count = 1;
    assert_eq!(wants_economy(PlayerId(1), d, &w), None);
    w.units.push(unit(2, 1, REFINERY, 45, 45));
    // Three wanted at forty percent competence, one already coming.
    w.kinds[MINER as usize].count = 1;
    assert_eq!(wants_economy(PlayerId(1), d, &w), Some(MINER));
    w.kinds[MINER as usize].count = 3;
    assert_eq!(wants_economy(PlayerId(1), d, &w), None);
}

#[test]
fn it_wants_somewhere_to_make_infantry() {
    let mut w = world(vec![unit(1, 1, YARD, 50, 50)]);
    assert_eq!(wants_production(PlayerId(1), &w), Some(BARRACKS));
    w.units.push(unit(2, 1, BARRACKS, 45, 45));
    // Nothing in the rules makes vehicles.
    assert_eq!(wants_production(PlayerId(1), &w), None);
    assert_eq!(Category::Vehicle.name(), "vehicle");
}

#[test]
fn power_comes_before_economy_and_it_saves_up() {
    let mut w = world(vec![unit(1, 1, YARD, 50, 50)]);
    w.power_satisfied = false;
    match build_something(PlayerId(1), Difficulty::Dummy, &w) {
        Some(Order::Produce { building, kind }) => {
            assert_eq!(building, 100);
            assert_eq!(kind, PLANT);
        }
        _ => panic!("expected a power plant"),
    }
    // The plant costs 300; a dummy spends seventy percent of 400, which is 280.
    w.credits = 400;
    assert!(build_something(PlayerId(1), Difficulty::Dummy, &w).is_none());
    // Hard spends all of it.
    assert!(build_something(PlayerId(1), Difficulty::Hard, &w).is_some());
}

#[test]
fn the_first_legal_site_outward_is_chosen() {
    let sites = vec![(60, 60), (52, 48), (48, 52), (50, 47)];
    // Ring two, scanned row by row: (50, 47) is ring three.
    assert_eq!(site_for((50, 50), &sites), Some((52, 48)));
    assert_eq!(site_for((50, 50), &vec![(60, 60), (50, 50), (51, 51)]), None);
    assert_eq!(site_for((50, 50), &vec![(57, 43)]), Some((57, 43)));
}

#[test]
fn a_ready_building_is_sited_before_anything_else_is_made() {
    let mut w = world(vec![unit(1, 1, YARD, 50, 50)]);
    w.ready = Some(ReadyBuilding { producer: 1, sites: vec![(48, 48), (55, 55)] });
    match place_ready_building(PlayerId(1), &w) {
        Some(Order::PlaceBuilding { producer, at }) => {
            assert_eq!(producer, 1);
            assert_eq!(at, (48, 48));
        }
        _ => panic!("expected a placement"),
    }
    let mut ai = Commander::new(PlayerId(1), Difficulty::Dummy);
    let orders = ai.think(&w);
    assert_eq!(orders.len(), 1);
    assert!(matches!(orders[0], Order::PlaceBuilding { .. }));
}

#[test]
fn it_thinks_at_its_own_pace_and_defends_first() {
    let mut w = world(vec![
        unit(1, 1, YARD, 50, 50),
        unit(2, 1, TANK, 52, 50),
        unit(3, 0, TANK, 48, 50),
    ]);
    w.power_satisfied = false;
    let mut ai = Commander::new(PlayerId(1), Difficulty::Dummy);
    w.tick = 5;
    assert!(ai.think(&w).is_empty());
    w.tick = 12;
    // One decision per thought, and defence before building.
    let orders = ai.think(&w);
    assert_eq!(orders.len(), 1);
    assert!(matches!(&orders[0], Order::Attack { target: 3, .. }));
    w.tick = 23;
    assert!(ai.think(&w).is_empty());
    // With the intruder gone, the next thought builds.
    w.units.pop();
    w.tick = 24;
    let orders = ai.think(&w);
    assert_eq!(orders.len(), 1);
    assert!(matches!(orders[0], Order::Produce { kind: PLANT, .. }));
}

#[test]
fn an_outlook_with_an_unknown_kind_is_refused() {
    let w = world(vec![unit(1, 1, 99, 50, 50)]);
    assert!(!w.well_formed());
    let w = world(vec![unit(1, 1, YARD, i32::MAX, 50)]);
    assert!(!w.well_formed());
}

#[test]
fn opponents_think_only_while_the_world_advances() {
    let make = || {
        let mut w = world(vec![unit(1, 1, YARD, 50, 50), unit(2, 2, YARD, 10, 10)]);
        w.power_satisfied = false;
        w
    };
    let mut commanders = vec![
        Commander::new(PlayerId(1), Difficulty::Dummy),
        Commander::new(PlayerId(2), Difficulty::Hard),
    ];
    let worlds = vec![make(), make()];
    assert!(run_opponents(&mut commanders, 0, &worlds).is_empty());
    let orders = run_opponents(&mut commanders, 1, &worlds);
    assert_eq!(orders.len(), 2);
    assert_eq!(orders[0].0, PlayerId(1));
    assert_eq!(orders[1].0, PlayerId(2));
    assert!(matches!(orders[0].1[0], Order::Produce { kind: PLANT, .. }));
    assert!(matches!(orders[1].1[0], Order::Produce { kind: PLANT, .. }));
    // Each remembers the tick it thought on, so asking again at once gives nothing.
    let again = run_opponents(&mut commanders, 1, &worlds);
    assert!(again[0].1.is_empty() && again[1].1.is_empty());
}

#[test]
fn defence_takes_the_place_of_siting_a_building() {
    let mut w = world(vec![
        unit(1, 1, YARD, 50, 50),
        unit(2, 1, TANK, 52, 50),
        unit(3, 0, SCOUT, 48, 48),
    ]);
    w.ready = Some(ReadyBuilding { producer: 1, sites: vec![(47, 47)] });
    let mut ai = Commander::new(PlayerId(1), Difficulty::Easy);
    w.tick = 1000;
    let orders = ai.think(&w);
    assert_eq!(orders.len(), 1);
    assert!(matches!(&orders[0], Order::Attack { target: 3, .. }));
}
