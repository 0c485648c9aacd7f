use redshift::traits::{Locomotor, Trait};
use redshift::value::{Hundredths, Ticks};

#[test]
fn references_are_reported_for_validation() {
    let health = Trait::Health {
        max: 100,
        armour: "heavy".into(),
    };
    assert_eq!(health.references(), vec![("armour", "heavy".to_string())]);

    let buildable = Trait::Buildable {
        cost: 900,
        build_time: Ticks(45),
        prerequisites: vec!["war_factory".into(), "radar".into()],
        produced_by: "war_factory".into(),
    };
    let refs = buildable.references();
    assert_eq!(refs.len(), 3, "two prerequisites and a producer");
    assert!(refs.contains(&("producer", "war_factory".to_string())));
}

#[test]
fn every_trait_names_itself() {
    let samples = vec![
        Trait::Health {
            max: 1,
            armour: "light".into(),
        },
        Trait::Detector,
        Trait::Capturable,
        Trait::Selectable { priority: 1 },
    ];
    for t in samples {
        assert!(!t.name().is_empty());
        assert!(t.name().chars().next().unwrap().is_uppercase());
    }
}

#[test]
fn traits_without_references_report_none() {
    assert!(Trait::Detector.references().is_empty());
    assert!(Trait::Mobile {
        speed: Hundredths(450),
        turn_rate: 90,
        locomotor: Locomotor::Treaded,
        surfaces: None,
        size: None,
        layer: None,
    }
    .references()
    .is_empty());
}

#[test]
fn a_unit_is_expressible_as_a_list() {
    // A heavy tank is a combination of existing traits, with no type of its
    // own.
    let tank = [
        Trait::Health {
            max: 400,
            armour: "heavy".into(),
        },
        Trait::Mobile {
            speed: Hundredths(450),
            turn_rate: 90,
            locomotor: Locomotor::Treaded,
            surfaces: None,
            size: None,
            layer: None,
        },
        Trait::Armed {
            weapon: "120mm".into(),
            turret: true,
            turret_rate: 120,
        },
        Trait::Vision {
            range: Hundredths(600),
        },
        Trait::Crushes {
            classes: vec!["infantry".into()],
        },
        Trait::Selectable { priority: 2 },
    ];
    assert_eq!(tank.len(), 6);
    assert!(tank.iter().any(|t| t.name() == "Armed"));
}
