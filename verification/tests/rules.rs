use redshift::armour::ArmourTable;
use redshift::rules::{EntityDef, Rules, RulesError, RulesFile, WeaponDef};
use redshift::traits::Trait;
use redshift::value::{Hundredths, Percent, Ticks};

fn minimal_armour() -> ArmourTable {
    let mut table = ArmourTable::new(vec!["none".into()]);
    table.set("small_arms".into(), "none".into(), Percent(100));
    table
}

fn entity_with(id: &str, traits: Vec<Trait>) -> EntityDef {
    EntityDef {
        id: id.into(),
        name_key: format!("unit.{id}"),
        side: None,
        category: "infantry".into(),
        traits,
    }
}

fn weapon(id: &str, warhead: &str) -> WeaponDef {
    WeaponDef {
        id: id.into(),
        damage: 10,
        warhead: warhead.into(),
        reload: Ticks(10),
        range: Hundredths(300),
        splash_radius: Hundredths::zero(),
        instant_kill: false,
        ammo: 0,
        intercepts: false,
        target_categories: Vec::new(),
        mind_control: false,
        heals: false,
        targets: Vec::new(),
        homing: false,
        projectile_speed: Hundredths::zero(),
    }
}

#[test]
fn a_missing_weapon_is_refused_with_a_useful_message() {
    let result = Rules::from_parts(
        vec![entity_with(
            "ghost",
            vec![
                Trait::Vision {
                    range: Hundredths(500),
                },
                Trait::Armed {
                    weapon: "nonexistent".into(),
                    turret: false,
                    turret_rate: 0,
                },
            ],
        )],
        Vec::new(),
        minimal_armour(),
        Vec::new(),
    );
    match result {
        Err(RulesError::Invalid { problems }) => {
            assert_eq!(problems.len(), 1);
            assert!(problems[0].contains("ghost"), "the message should name the unit");
            assert!(problems[0].contains("nonexistent"), "and the missing thing");
        }
        other => panic!("expected a validation failure, got {other:?}"),
    }
}

#[test]
fn a_missing_armour_class_is_refused() {
    let result = Rules::from_parts(
        vec![entity_with(
            "ghost",
            vec![Trait::Health {
                max: 100,
                armour: "titanium".into(),
            }],
        )],
        Vec::new(),
        minimal_armour(),
        Vec::new(),
    );
    assert!(matches!(result, Err(RulesError::Invalid { .. })));
}

#[test]
fn duplicate_unique_traits_are_refused() {
    let result = Rules::from_parts(
        vec![entity_with(
            "confused",
            vec![
                Trait::Health {
                    max: 100,
                    armour: "none".into(),
                },
                Trait::Health {
                    max: 250,
                    armour: "none".into(),
                },
            ],
        )],
        Vec::new(),
        minimal_armour(),
        Vec::new(),
    );
    match result {
        Err(RulesError::Invalid { problems }) => {
            assert!(problems[0].contains("Health"), "got: {}", problems[0]);
        }
        other => panic!("expected a validation failure, got {other:?}"),
    }
}

#[test]
fn a_weapon_without_an_armour_row_is_refused() {
    let result = Rules::from_parts(
        Vec::new(),
        vec![weapon("mystery", "unlisted")],
        minimal_armour(),
        Vec::new(),
    );
    assert!(matches!(result, Err(RulesError::Invalid { .. })));
}

#[test]
fn every_problem_is_reported_not_just_the_first() {
    let result = Rules::from_parts(
        vec![
            entity_with(
                "a",
                vec![Trait::Health {
                    max: 1,
                    armour: "missing".into(),
                }],
            ),
            entity_with(
                "b",
                vec![
                    Trait::Vision {
                        range: Hundredths(500),
                    },
                    Trait::Armed {
                        weapon: "missing".into(),
                        turret: false,
                        turret_rate: 0,
                    },
                ],
            ),
        ],
        Vec::new(),
        minimal_armour(),
        Vec::new(),
    );
    match result {
        Err(RulesError::Invalid { problems }) => assert_eq!(problems.len(), 2, "{problems:?}"),
        other => panic!("expected two problems, got {other:?}"),
    }
}

#[test]
fn a_unit_is_reachable_by_id_and_by_index() {
    let rules = Rules::from_parts(
        vec![
            entity_with(
                "tank",
                vec![
                    Trait::Health {
                        max: 400,
                        armour: "none".into(),
                    },
                    Trait::Vision {
                        range: Hundredths(500),
                    },
                    Trait::Armed {
                        weapon: "120mm".into(),
                        turret: true,
                        turret_rate: 120,
                    },
                ],
            ),
            entity_with("rifleman", vec![]),
        ],
        vec![weapon("120mm", "small_arms")],
        minimal_armour(),
        Vec::new(),
    )
    .expect("valid rules");
    let (kind, tank) = rules.entity_by_id("tank").expect("the tank should exist");
    assert_eq!(rules.entity(kind).id, "tank");
    assert!(tank.has_trait("Armed"));
    assert!(!tank.has_trait("Crushes"));
    assert_eq!(rules.entity_count(), 2);
    // Sorted by identifier, whatever order they were handed in.
    assert_eq!(rules.kind_of("rifleman").unwrap().0, 0);
    assert_eq!(rules.kind_of("tank").unwrap().0, 1);
    assert!(rules.weapon("120mm").is_some());
}

#[test]
fn an_unlisted_pairing_means_full_damage() {
    let armour = minimal_armour();
    assert_eq!(armour.multiplier("nonexistent", "none"), Percent::full());
    assert_eq!(armour.multiplier("small_arms", "nonexistent"), Percent::full());
    assert_eq!(armour.multiplier("small_arms", "none"), Percent(100));
}

fn file(path: &str, ids: &[&str], armour: Option<ArmourTable>) -> RulesFile {
    RulesFile {
        path: path.into(),
        entities: ids.iter().map(|id| entity_with(id, vec![])).collect(),
        weapons: Vec::new(),
        armour,
        factions: Vec::new(),
    }
}

#[test]
fn loading_does_not_depend_on_the_order_files_are_found_in() {
    let forwards = Rules::load_from(vec![
        file("a.ron", &["zebra", "mammoth"], Some(minimal_armour())),
        file("b.ron", &["apc"], None),
    ])
    .expect("valid rules");
    let backwards = Rules::load_from(vec![
        file("b.ron", &["apc"], None),
        file("a.ron", &["zebra", "mammoth"], Some(minimal_armour())),
    ])
    .expect("valid rules");
    for id in ["apc", "mammoth", "zebra"] {
        assert_eq!(forwards.kind_of(id), backwards.kind_of(id));
    }
    assert_eq!(forwards.kind_of("apc").unwrap().0, 0);
    assert_eq!(forwards.kind_of("zebra").unwrap().0, 2);
}

#[test]
fn a_duplicate_names_the_files_in_path_order() {
    let result = Rules::load_from(vec![
        file("b.ron", &["tank"], None),
        file("a.ron", &["tank"], Some(minimal_armour())),
    ]);
    match result {
        Err(RulesError::DuplicateId { id, first, second }) => {
            assert_eq!(id, "tank");
            assert_eq!(first, "a.ron");
            assert_eq!(second, "b.ron");
        }
        _ => panic!("expected a duplicate"),
    }
}
