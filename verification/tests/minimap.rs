use redshift::command::PlayerId;
use redshift::minimap::{
    colour_of_cell, paint_minimap, team_colour, Blip, CellLook, RedrawClock, Sight, Terrain,
};

fn look(sight: Sight, terrain: Terrain) -> CellLook {
    CellLook { sight, terrain, bridged: false, ore: false }
}

fn blip(owner: u8, mobile: bool, x: i32, y: i32) -> Blip {
    Blip {
        owner: PlayerId(owner),
        neutral: false,
        alive: true,
        aboard: false,
        visible: true,
        mobile,
        cell: (x, y),
    }
}

fn pixel(bytes: &[u8], w: u32, x: u32, y: u32) -> (u8, u8, u8, u8) {
    let i = ((y * w + x) * 4) as usize;
    (bytes[i], bytes[i + 1], bytes[i + 2], bytes[i + 3])
}

#[test]
fn cells_are_coloured_by_what_the_viewer_knows() {
    assert_eq!(colour_of_cell(look(Sight::Unseen, Terrain::Water)), (6, 6, 8));
    assert_eq!(colour_of_cell(look(Sight::Visible, Terrain::Water)), (28, 71, 117));
    assert_eq!(colour_of_cell(look(Sight::Fogged, Terrain::Water)), (14, 35, 58));
    assert_eq!(colour_of_cell(look(Sight::Visible, Terrain::Rock)), (87, 82, 77));
    assert_eq!(colour_of_cell(look(Sight::Visible, Terrain::Ground)), (82, 102, 56));
    let ore = CellLook { ore: true, ..look(Sight::Visible, Terrain::Ground) };
    assert_eq!(colour_of_cell(ore), (198, 153, 36));
    let bridge = CellLook { bridged: true, ..look(Sight::Fogged, Terrain::Water) };
    assert_eq!(colour_of_cell(bridge), (59, 46, 31));
}

#[test]
fn team_colours_cycle_and_neutral_is_grey() {
    assert_eq!(team_colour(PlayerId(0), false), (220, 60, 50));
    assert_eq!(team_colour(PlayerId(1), false), (60, 110, 220));
    assert_eq!(team_colour(PlayerId(6), false), (70, 180, 90));
    assert_eq!(team_colour(PlayerId(3), false), (230, 180, 60));
    assert_eq!(team_colour(PlayerId(3), true), (170, 170, 160));
}

#[test]
fn the_picture_is_the_map_with_units_on_top() {
    let (w, h) = (4u32, 3u32);
    let cells = vec![look(Sight::Visible, Terrain::Ground); 12];
    // A structure in the corner: its blob is clipped at the edge.
    let blips = vec![blip(1, false, 0, 0), blip(0, true, 3, 2)];
    let bytes = paint_minimap(w, h, &cells, &blips);
    assert_eq!(bytes.len(), 48);
    let blue = (60, 110, 220, 255);
    let red = (220, 60, 50, 255);
    let ground = (82, 102, 56, 255);
    assert_eq!(pixel(&bytes, w, 0, 0), blue);
    assert_eq!(pixel(&bytes, w, 1, 1), blue);
    assert_eq!(pixel(&bytes, w, 2, 0), ground);
    assert_eq!(pixel(&bytes, w, 3, 2), red);
    assert_eq!(pixel(&bytes, w, 2, 2), ground);
}

#[test]
fn later_units_are_drawn_over_earlier_ones() {
    let cells = vec![look(Sight::Visible, Terrain::Ground); 9];
    let blips = vec![blip(0, false, 1, 1), blip(1, true, 1, 1)];
    let bytes = paint_minimap(3, 3, &cells, &blips);
    assert_eq!(pixel(&bytes, 3, 1, 1), (60, 110, 220, 255));
    assert_eq!(pixel(&bytes, 3, 0, 0), (220, 60, 50, 255));
}

#[test]
fn what_the_viewer_cannot_see_is_not_drawn() {
    let cells = vec![look(Sight::Unseen, Terrain::Water); 4];
    let mut hidden = blip(1, true, 0, 0);
    hidden.visible = false;
    let mut dead = blip(1, true, 1, 0);
    dead.alive = false;
    let mut aboard = blip(1, true, 0, 1);
    aboard.aboard = true;
    let off_map = blip(1, false, 5, 5);
    let bytes = paint_minimap(2, 2, &cells, &vec![hidden, dead, aboard, off_map]);
    for p in 0..4 {
        assert_eq!(&bytes[p * 4..p * 4 + 4], &[6, 6, 8, 255]);
    }
}

#[test]
fn the_minimap_redraws_every_few_ticks() {
    let mut clock = RedrawClock::new();
    assert!(clock.due(100));
    assert!(!clock.due(101));
    assert!(!clock.due(105));
    assert!(clock.due(106));
    assert!(!clock.due(107));
}
