use redshift::map::{Edit, Ground, MapDef, MapError, Rect, StartingPosition};

fn ten_by_ten(edits: Vec<Edit>) -> MapDef {
    MapDef {
        name: "m".into(),
        width: 10,
        height: 10,
        players: 1,
        edits,
        starts: vec![StartingPosition {
            slot: 0,
            at: (1, 1),
            units: vec![],
        }],
        neutrals: vec![],
    }
}

fn water(from: (i32, i32), to: (i32, i32)) -> Edit {
    Edit::Terrain {
        area: Rect { from, to },
        ground: Ground::Water,
    }
}

fn problems(m: &MapDef) -> Vec<String> {
    match m.validate() {
        Ok(()) => vec![],
        Err(MapError::Invalid { problems }) => problems,
        Err(other) => panic!("unexpected error {other:?}"),
    }
}

#[test]
fn an_edit_over_the_whole_map_means_to_the_edge() {
    let m = ten_by_ten(vec![water((-1, -1), (20, 20))]);
    assert!(m.validate().is_ok(), "{:?}", problems(&m));
}

#[test]
fn an_edit_with_one_corner_on_the_map_is_accepted() {
    let m = ten_by_ten(vec![
        water((5, 5), (30, 30)),
        Edit::Elevation {
            area: Rect {
                from: (-4, 3),
                to: (2, 3),
            },
            level: 1,
        },
    ]);
    assert!(m.validate().is_ok(), "{:?}", problems(&m));
}

#[test]
fn corners_given_the_other_way_round_cover_the_same_cells() {
    let m = ten_by_ten(vec![water((20, 20), (-1, -1)), water((3, 12), (3, -2))]);
    assert!(m.validate().is_ok(), "{:?}", problems(&m));
}

#[test]
fn an_edit_entirely_off_the_map_is_refused() {
    let m = ten_by_ten(vec![
        water((10, 0), (15, 9)),
        water((-5, -5), (20, -1)),
        Edit::Ore {
            at: (50, 50),
            radius: 2,
            amount: 100,
        },
    ]);
    assert_eq!(
        problems(&m),
        vec![
            "an edit covers Rect { from: (10, 0), to: (15, 9) }, entirely off the map".to_string(),
            "an edit covers Rect { from: (-5, -5), to: (20, -1) }, entirely off the map".to_string(),
        ]
    );
}

#[test]
fn every_problem_with_a_map_is_reported() {
    let mut m = ten_by_ten(vec![water((-3, -3), (-1, -1))]);
    m.width = 0;
    m.players = 2;
    let found = problems(&m);
    assert_eq!(
        found,
        vec![
            "the map has no area".to_string(),
            "it says it is for 2 players and gives 1 starting positions".to_string(),
            "starting position 0 is at (1, 1), off the map".to_string(),
            "an edit covers Rect { from: (-3, -3), to: (-1, -1) }, entirely off the map".to_string(),
        ]
    );
}
