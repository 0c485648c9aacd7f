use redshift::command::PlayerId;
use redshift::outlook::KindFacts;
use redshift::sidebar::{
    build_label, build_list_stale, buildable_now, credits_label, progress_percent, queue_label,
    queue_list_stale, queue_rows, ProductionLine, QueueItem,
};

fn kind(cost: u32, producer: Option<u64>) -> KindFacts {
    KindFacts {
        traits: Vec::new(),
        cost,
        mobile: false,
        footprint_width: 2,
        is_refinery: false,
        harvest_capacity: None,
        armed: false,
        producer,
        prerequisites_met: true,
        within_build_limit: true,
        count: 0,
    }
}

#[test]
fn the_build_list_comes_from_the_rules() {
    let mut kinds = vec![
        kind(0, Some(1)),
        kind(300, Some(1)),
        kind(500, None),
        kind(800, Some(2)),
        kind(900, Some(2)),
    ];
    kinds[4].prerequisites_met = false;
    assert_eq!(buildable_now(&kinds), vec![1, 3]);
    kinds[3].within_build_limit = false;
    assert_eq!(buildable_now(&kinds), vec![1]);
}

#[test]
fn labels_read_as_the_panel_shows_them() {
    assert_eq!(credits_label(2500), "$2500");
    assert_eq!(credits_label(0), "$0");
    assert_eq!(build_label("rifleman", 100), "rifleman  $100");
    assert_eq!(queue_label("tank", 42), "tank  42%");
}

#[test]
fn progress_is_in_whole_percent_and_an_instant_item_is_done() {
    assert_eq!(progress_percent(1, 3), 33);
    assert_eq!(progress_percent(3, 3), 100);
    assert_eq!(progress_percent(0, 0), 100);
    assert_eq!(progress_percent(u32::MAX, u32::MAX), 100);
}

#[test]
fn the_queue_lists_only_the_players_own_production() {
    let item = |name: &str, progress: u32, duration: u32| QueueItem {
        name: name.to_string(),
        progress,
        duration,
    };
    let lines = vec![
        ProductionLine {
            building: 10,
            owner: PlayerId(0),
            items: vec![item("tank", 50, 200), item("jeep", 0, 100)],
        },
        ProductionLine { building: 11, owner: PlayerId(1), items: vec![item("tank", 1, 2)] },
        ProductionLine { building: 12, owner: PlayerId(0), items: vec![item("plant", 0, 0)] },
    ];
    let rows = queue_rows(PlayerId(0), &lines);
    let seen: Vec<(u64, u8, String)> =
        rows.into_iter().map(|r| (r.building, r.index, r.label)).collect();
    assert_eq!(
        seen,
        vec![
            (10, 0, "tank  25%".to_string()),
            (10, 1, "jeep  0%".to_string()),
            (12, 0, "plant  100%".to_string()),
        ]
    );
}

#[test]
fn lists_are_rebuilt_only_when_they_must_be() {
    assert!(!build_list_stale(&vec![1, 3], &vec![1, 3]));
    assert!(build_list_stale(&vec![1, 3], &vec![3, 1]));
    assert!(build_list_stale(&vec![1], &vec![1, 3]));
    assert!(!queue_list_stale(&vec![], &vec![]));
    assert!(queue_list_stale(&vec![(10, 0)], &vec![]));
    assert!(queue_list_stale(&vec![(10, 0)], &vec![(10, 0)]));
}
