//! The shape of the ground mesh: which faces it has, and how they are
//! stitched into triangles.
//!
//! Every cell gets a flat top. Impassable rock stands proud of the ground,
//! so obstacles read as obstacles rather than as a change of colour, and a
//! rock cell gets a wall on every side where its neighbour sits lower: any
//! neighbour that is not rock, and the edge of the map, which is walled
//! rather than left open. Each face is a quad of four corners, drawn as two
//! triangles. Where the corners stand in space is left to the renderer.

use vstd::prelude::*;
use crate::minimap::{column, row, Terrain};

verus! {

/// A side of a cell.
#[derive(Clone, Copy, PartialEq, Eq, Debug, Structural)]
pub enum Side {
    /// Towards the row above.
    North,
    /// Towards the next column.
    East,
    /// Towards the row below.
    South,
    /// Towards the previous column.
    West,
}

/// One quad of the ground mesh: a cell's top, or one of its walls.
#[derive(Clone, Copy, PartialEq, Eq, Debug, Structural)]
pub struct Face {
    pub column: u32,
    pub row: u32,
    /// `None` for the top, otherwise the side the wall faces.
    pub side: Option<Side>,
}

/// The offset to the neighbour across a side.
pub open spec fn side_offset(s: Side) -> (int, int) {
    match s {
        Side::North => (0, -1),
        Side::East => (1, 0),
        Side::South => (0, 1),
        Side::West => (-1, 0),
    }
}

/// Whether the cell at column `x`, row `y` of a `w` by `h` map, its cells
/// listed row by row, is rock.
pub open spec fn rock_at(terrain: Seq<Terrain>, w: int, h: int, x: int, y: int) -> bool {
    0 <= x < w && 0 <= y < h && terrain[y * w + x] is Rock
}

/// Whether a rock cell at (`x`, `y`) is walled on side `s`: whenever the
/// neighbour there is not rock, the map edge included.
pub open spec fn walled(terrain: Seq<Terrain>, w: int, h: int, x: int, y: int, s: Side) -> bool {
    !rock_at(terrain, w, h, x + side_offset(s).0, y + side_offset(s).1)
}

/// The side a cell's walls are considered in, `k`th: north, east, south,
/// west.
pub open spec fn side_at(k: int) -> Side {
    if k == 0 {
        Side::North
    } else if k == 1 {
        Side::East
    } else if k == 2 {
        Side::South
    } else {
        Side::West
    }
}

/// The wall of the cell at (`x`, `y`) on side `s`, if it has one there.
pub open spec fn wall_face(terrain: Seq<Terrain>, w: int, h: int, x: int, y: int, s: Side) -> Seq<Face> {
    if walled(terrain, w, h, x, y, s) {
        seq![Face { column: x as u32, row: y as u32, side: Some(s) }]
    } else {
        Seq::empty()
    }
}

/// The walls of the cell at (`x`, `y`) on its first `k` sides.
pub open spec fn walls_upto(terrain: Seq<Terrain>, w: int, h: int, x: int, y: int, k: nat) -> Seq<Face>
    decreases k,
{
    if k == 0 {
        Seq::empty()
    } else {
        walls_upto(terrain, w, h, x, y, (k - 1) as nat) + wall_face(terrain, w, h, x, y, side_at(k - 1))
    }
}

/// The faces of the cell at (`x`, `y`): its top, then for rock a wall on
/// each side it is walled on, north, east, south and west in turn.
pub open spec fn cell_faces(terrain: Seq<Terrain>, w: int, h: int, x: int, y: int) -> Seq<Face> {
    let top = seq![Face { column: x as u32, row: y as u32, side: None }];
    if rock_at(terrain, w, h, x, y) {
        top + wall_face(terrain, w, h, x, y, Side::North) + wall_face(terrain, w, h, x, y, Side::East)
            + wall_face(terrain, w, h, x, y, Side::South) + wall_face(terrain, w, h, x, y, Side::West)
    } else {
        top
    }
}

/// The faces of the first `n` cells, row by row.
pub open spec fn faces_upto(terrain: Seq<Terrain>, w: int, h: int, n: nat) -> Seq<Face>
    decreases n,
{
    if n == 0 {
        Seq::empty()
    } else {
        faces_upto(terrain, w, h, (n - 1) as nat) + cell_faces(
            terrain,
            w,
            h,
            column(n - 1, w),
            row(n - 1, w),
        )
    }
}

/// Whether the cell at (`x`, `y`) of a `w` by `h` map is rock, as
/// `rock_at` says.
fn is_rock(terrain: &Vec<Terrain>, w: u32, h: u32, x: i64, y: i64) -> (r: bool)
    requires
        terrain@.len() == w as int * h as int,
        w as int * h as int <= usize::MAX,
    ensures
        r == rock_at(terrain@, w as int, h as int, x as int, y as int),
{
    if x < 0 || y < 0 || x >= w as i64 || y >= h as i64 {
        return false;
    }
    assert(y * w + x < w * h) by (nonlinear_arith)
        requires
            0 <= x < w,
            0 <= y < h,
    ;
    assert(0 <= y * w) by (nonlinear_arith)
        requires
            0 <= y,
            0 <= w,
    ;
    let at: usize = (y as usize) * (w as usize) + (x as usize);
    match terrain[at] {
        Terrain::Rock => true,
        _ => false,
    }
}

/// The faces of one cell, as `cell_faces` says, appended to `faces`.
fn push_cell_faces(faces: &mut Vec<Face>, terrain: &Vec<Terrain>, w: u32, h: u32, x: u32, y: u32)
    requires
        terrain@.len() == w as int * h as int,
        w as int * h as int <= usize::MAX,
        x < w,
        y < h,
    ensures
        final(faces)@ == old(faces)@ + cell_faces(terrain@, w as int, h as int, x as int, y as int),
{
    let ghost (wi, hi, xi, yi) = (w as int, h as int, x as int, y as int);
    faces.push(Face { column: x, row: y, side: None });
    if !is_rock(terrain, w, h, x as i64, y as i64) {
        return;
    }
    let ghost start = faces@;
    let sides = [Side::North, Side::East, Side::South, Side::West];
    let mut k: usize = 0;
    while k < 4
        invariant
            k <= 4,
            sides@ == seq![Side::North, Side::East, Side::South, Side::West],
            terrain@.len() == wi * hi,
            wi * hi <= usize::MAX,
            wi == w,
            hi == h,
            xi == x,
            yi == y,
            faces@ == start + walls_upto(terrain@, wi, hi, xi, yi, k as nat),
        decreases 4 - k,
    {
        let s = sides[k];
        assert(s == side_at(k as int));
        let (dx, dy): (i64, i64) = match s {
            Side::North => (0, -1),
            Side::East => (1, 0),
            Side::South => (0, 1),
            Side::West => (-1, 0),
        };
        let ghost before = faces@;
        if !is_rock(terrain, w, h, x as i64 + dx, y as i64 + dy) {
            faces.push(Face { column: x, row: y, side: Some(s) });
        }
        assert(faces@ =~= start + walls_upto(terrain@, wi, hi, xi, yi, (k + 1) as nat));
        k = k + 1;
    }
    proof {
        reveal_with_fuel(walls_upto, 5);
        assert(faces@ =~= start + (wall_face(terrain@, wi, hi, xi, yi, Side::North) + wall_face(
            terrain@,
            wi,
            hi,
            xi,
            yi,
            Side::East,
        ) + wall_face(terrain@, wi, hi, xi, yi, Side::South) + wall_face(
            terrain@,
            wi,
            hi,
            xi,
            yi,
            Side::West,
        )));
    }
}

/// The faces of the ground mesh, as `faces_upto` says for every cell:
/// cells row by row, each with its top and, for rock, its walls.
pub fn terrain_faces(w: u32, h: u32, terrain: &Vec<Terrain>) -> (r: Vec<Face>)
    requires
        terrain@.len() == w as int * h as int,
        w as int * h as int <= usize::MAX,
    ensures
        r@ == faces_upto(terrain@, w as int, h as int, terrain@.len()),
{
    let ghost (wi, hi) = (w as int, h as int);
    let mut faces: Vec<Face> = Vec::new();
    let mut y: u32 = 0;
    while y < h
        invariant
            y <= h,
            terrain@.len() == wi * hi,
            wi * hi <= usize::MAX,
            wi == w,
            hi == h,
            faces@ == faces_upto(terrain@, wi, hi, (y * wi) as nat),
        decreases h - y,
    {
        let mut x: u32 = 0;
        while x < w
            invariant
                x <= w,
                y < h,
                terrain@.len() == wi * hi,
                wi * hi <= usize::MAX,
                wi == w,
                hi == h,
                faces@ == faces_upto(terrain@, wi, hi, (y * wi + x) as nat),
            decreases w - x,
        {
            proof {
                let p = y * wi + x;
                assert(0 <= y * wi) by (nonlinear_arith)
                    requires
                        0 <= y,
                        0 <= wi,
                ;
                vstd::arithmetic::div_mod::lemma_fundamental_div_mod_converse(p, wi, y as int, x as int);
            }
            push_cell_faces(&mut faces, terrain, w, h, x, y);
            x = x + 1;
        }
        assert(y * wi + wi == (y + 1) * wi) by (nonlinear_arith);
        y = y + 1;
    }
    assert(h * wi == wi * hi) by (nonlinear_arith)
        requires
            hi == h,
    ;
    faces
}

/// The corner order a quad's two triangles take, counted from its first
/// corner.
pub open spec fn quad_corner(k: int) -> int {
    if k == 0 || k == 3 {
        0
    } else if k == 1 || k == 5 {
        2
    } else if k == 2 {
        1
    } else {
        3
    }
}

/// The index buffer for `n` quads, four corners each: quad `q` draws the
/// triangles (0, 2, 1) and (0, 3, 2) of its corners, counted from `4q`.
pub fn quad_indices(n: u32) -> (r: Vec<u32>)
    requires
        4 * (n as int) <= u32::MAX,
        6 * (n as int) <= usize::MAX,
    ensures
        r@.len() == 6 * n,
        forall|q: int, k: int|
            0 <= q < n && 0 <= k < 6 ==> #[trigger] r@[6 * q + k] == 4 * q + quad_corner(k),
{
    let mut out: Vec<u32> = Vec::new();
    let mut q: u32 = 0;
    while q < n
        invariant
            q <= n,
            4 * (n as int) <= u32::MAX,
            out@.len() == 6 * q,
            forall|a: int, k: int|
                0 <= a < q && 0 <= k < 6 ==> #[trigger] out@[6 * a + k] == 4 * a + quad_corner(k),
        decreases n - q,
    {
        let base = 4 * q;
        let ghost before = out@;
        out.push(base);
        out.push(base + 2);
        out.push(base + 1);
        out.push(base);
        out.push(base + 3);
        out.push(base + 2);
        assert forall|a: int, k: int| 0 <= a < q + 1 && 0 <= k < 6 implies #[trigger] out@[6 * a + k]
            == 4 * a + quad_corner(k) by {
            if a < q {
                assert(out@[6 * a + k] == before[6 * a + k]);
            }
        }
        q = q + 1;
    }
    out
}

/// A small step of colour variation for ground at column `x`, row `y`, so
/// a large expanse does not read as a flat sheet: from the coordinates, so
/// it is stable rather than random.
pub open spec fn shade_step_of(x: u32, y: u32) -> int {
    (x * 7 + y * 13) % 5
}

/// The colour variation step for a ground cell, as `shade_step_of` says.
pub fn shade_step(x: u32, y: u32) -> (r: u32)
    ensures
        r == shade_step_of(x, y),
        r < 5,
{
    ((x as u64 * 7 + y as u64 * 13) % 5) as u32
}

} // verus!
