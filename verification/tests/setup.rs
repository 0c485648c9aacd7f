use redshift::armour::ArmourTable;
use redshift::map::{MapDef, NeutralUnit, PlacedUnit, StartingPosition};
use redshift::rules::{EntityDef, Rules};
use redshift::setup::{spawn_plan, start_order, BuildError};
use redshift::value::Percent;

fn rules() -> Rules {
    let entity = |id: &str| EntityDef {
        id: id.into(),
        name_key: format!("unit.{id}"),
        side: None,
        category: "vehicle".into(),
        traits: Vec::new(),
    };
    let mut armour = ArmourTable::new(vec!["none".into()]);
    armour.set("small_arms".into(), "none".into(), Percent(100));
    Rules::from_parts(
        vec![entity("yard"), entity("miner"), entity("mine")],
        Vec::new(),
        armour,
        Vec::new(),
    )
    .expect("valid rules")
}

fn start(slot: u8, at: (i32, i32), ids: &[&str]) -> StartingPosition {
    StartingPosition {
        slot,
        at,
        units: ids
            .iter()
            .enumerate()
            .map(|(i, id)| PlacedUnit {
                id: id.to_string(),
                offset: (i as i32, 1),
            })
            .collect(),
    }
}

fn map(starts: Vec<StartingPosition>, neutrals: Vec<NeutralUnit>) -> MapDef {
    MapDef {
        name: "test".into(),
        width: 64,
        height: 64,
        players: 2,
        edits: Vec::new(),
        starts,
        neutrals,
    }
}

#[test]
fn starting_positions_are_taken_in_slot_order() {
    let starts = vec![
        start(1, (50, 50), &[]),
        start(0, (5, 5), &[]),
        start(1, (9, 9), &[]),
    ];
    assert_eq!(start_order(&starts), vec![1, 0, 2]);
}

#[test]
fn a_match_is_built_from_slots_then_neutrals() {
    let rules = rules();
    let def = map(
        vec![start(1, (50, 50), &["yard"]), start(0, (5, 5), &["yard", "miner"])],
        vec![NeutralUnit {
            id: "mine".into(),
            at: (30, 30),
        }],
    );
    let plan = spawn_plan(&def, &rules, 2).expect("a valid map");
    let owners: Vec<Option<u8>> = plan.iter().map(|s| s.owner).collect();
    assert_eq!(owners, vec![Some(0), Some(0), Some(1), None]);
    let cells: Vec<(i32, i32)> = plan.iter().map(|s| s.cell).collect();
    assert_eq!(cells, vec![(5, 6), (6, 6), (50, 51), (30, 30)]);
    assert_eq!(plan[1].kind, rules.kind_of("miner").unwrap());

    let one = spawn_plan(&def, &rules, 1).expect("one player fits");
    assert_eq!(one.len(), 3, "only slot zero's units, then the neutral");
}

#[test]
fn too_many_players_are_refused() {
    let rules = rules();
    let def = map(vec![start(0, (5, 5), &["yard"])], vec![]);
    match spawn_plan(&def, &rules, 2) {
        Err(BuildError::TooManyPlayers { asked, available }) => {
            assert_eq!((asked, available), (2, 1));
        }
        other => panic!("expected a refusal, got {other:?}"),
    }
    assert_eq!(
        BuildError::TooManyPlayers {
            asked: 3,
            available: 2
        }
        .to_string(),
        "the match wants 3 players and the map has 2 starting positions"
    );
}

#[test]
fn an_unknown_unit_is_named() {
    let rules = rules();
    let def = map(
        vec![start(0, (5, 5), &["yard", "dragon"])],
        vec![NeutralUnit {
            id: "unicorn".into(),
            at: (1, 1),
        }],
    );
    match spawn_plan(&def, &rules, 1) {
        Err(e @ BuildError::UnknownEntity { .. }) => {
            assert_eq!(
                e.to_string(),
                "the map places \"dragon\", which the rules do not define"
            );
        }
        other => panic!("expected an unknown unit, got {other:?}"),
    }
}
