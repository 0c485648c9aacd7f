use redshift::ground::{quad_indices, shade_step, terrain_faces, Face, Side};
use redshift::minimap::Terrain;

fn top(column: u32, row: u32) -> Face {
    Face { column, row, side: None }
}

fn wall(column: u32, row: u32, side: Side) -> Face {
    Face { column, row, side: Some(side) }
}

#[test]
fn flat_ground_is_one_top_per_cell() {
    let faces = terrain_faces(2, 1, &vec![Terrain::Ground, Terrain::Water]);
    assert_eq!(faces, vec![top(0, 0), top(1, 0)]);
}

#[test]
fn rock_is_walled_where_its_neighbour_is_lower_and_at_the_edge() {
    // R R
    // G R
    let terrain = vec![Terrain::Rock, Terrain::Rock, Terrain::Ground, Terrain::Rock];
    let faces = terrain_faces(2, 2, &terrain);
    assert_eq!(
        faces,
        vec![
            top(0, 0),
            wall(0, 0, Side::North),
            wall(0, 0, Side::South),
            wall(0, 0, Side::West),
            top(1, 0),
            wall(1, 0, Side::North),
            wall(1, 0, Side::East),
            top(0, 1),
            top(1, 1),
            wall(1, 1, Side::East),
            wall(1, 1, Side::South),
            wall(1, 1, Side::West),
        ]
    );
}

#[test]
fn each_quad_is_two_triangles() {
    assert_eq!(quad_indices(2), vec![0, 2, 1, 0, 3, 2, 4, 6, 5, 4, 7, 6]);
    assert!(quad_indices(0).is_empty());
}

#[test]
fn ground_shading_varies_with_position_and_is_stable() {
    assert_eq!(shade_step(0, 0), 0);
    assert_eq!(shade_step(1, 0), 2);
    assert_eq!(shade_step(0, 1), 3);
    assert_eq!(shade_step(3, 2), (3 * 7 + 2 * 13) % 5);
}
