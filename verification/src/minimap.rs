//! The minimap's picture.
//!
//! One pixel per map cell, coloured by what the viewer knows of it, with
//! the units the viewer can see painted on top. It shows exactly what the
//! player is allowed to know: the same fog as the terrain, and only the
//! units the player can see. A minimap that quietly revealed the whole map
//! would be the most effective cheat in the game.

use vstd::prelude::*;
use crate::command::{PlayerId, Tick};
use crate::commander::saturating_gap;

verus! {

/// Ticks between redraws: the map does not change fast enough to be worth
/// a rebuild every frame.
pub const REDRAW_EVERY: u32 = 6;

/// What a viewer knows of a cell.
#[derive(Clone, Copy, PartialEq, Eq, Debug, Structural)]
pub enum Sight {
    /// Never seen.
    Unseen,
    /// Seen once, not now.
    Fogged,
    /// In sight now.
    Visible,
}

/// What a cell is made of.
#[derive(Clone, Copy, PartialEq, Eq, Debug, Structural)]
pub enum Terrain {
    Ground,
    Water,
    Rock,
}

/// What the minimap reads of one cell.
#[derive(Clone, Copy, PartialEq, Eq, Debug, Structural)]
pub struct CellLook {
    pub sight: Sight,
    pub terrain: Terrain,
    /// Whether a bridge spans it.
    pub bridged: bool,
    /// Whether ore lies on it.
    pub ore: bool,
}

/// What the minimap reads of one unit.
#[derive(Clone, Copy, Debug)]
pub struct Blip {
    pub owner: PlayerId,
    /// Whether its owner is the neutral side.
    pub neutral: bool,
    pub alive: bool,
    /// Whether it rides inside something.
    pub aboard: bool,
    /// Whether the viewer can see it.
    pub visible: bool,
    pub mobile: bool,
    pub cell: (i32, i32),
}

/// A colour, red, green and blue.
pub type Rgb = (u8, u8, u8);

/// The colour of a cell: black-ish where never seen; otherwise by what it
/// is, a bridge over everything, and at half brightness under fog.
pub open spec fn cell_colour(c: CellLook) -> Rgb {
    if c.sight is Unseen {
        (6, 6, 8)
    } else {
        let base: Rgb = if c.bridged {
            (118, 92, 62)
        } else {
            match c.terrain {
                Terrain::Water => (28, 71, 117),
                Terrain::Rock => (87, 82, 77),
                Terrain::Ground => if c.ore {
                    (198, 153, 36)
                } else {
                    (82, 102, 56)
                },
            }
        };
        if c.sight is Fogged {
            ((base.0 / 2) as u8, (base.1 / 2) as u8, (base.2 / 2) as u8)
        } else {
            base
        }
    }
}

/// The colour of a cell, as `cell_colour` says.
pub fn colour_of_cell(c: CellLook) -> (r: Rgb)
    ensures
        r == cell_colour(c),
{
    match c.sight {
        Sight::Unseen => (6, 6, 8),
        sight => {
            let base: Rgb = if c.bridged {
                (118, 92, 62)
            } else {
                match c.terrain {
                    Terrain::Water => (28, 71, 117),
                    Terrain::Rock => (87, 82, 77),
                    Terrain::Ground => if c.ore {
                        (198, 153, 36)
                    } else {
                        (82, 102, 56)
                    },
                }
            };
            match sight {
                Sight::Fogged => (base.0 / 2, base.1 / 2, base.2 / 2),
                _ => base,
            }
        },
    }
}

/// The colour a player's units are drawn in: grey for the neutral side,
/// otherwise red, blue, green and yellow in turn by player number.
pub open spec fn team_colour_of(owner: PlayerId, neutral: bool) -> Rgb {
    if neutral {
        (170, 170, 160)
    } else {
        match owner.0 % 4 {
            0 => (220, 60, 50),
            1 => (60, 110, 220),
            2 => (70, 180, 90),
            _ => (230, 180, 60),
        }
    }
}

/// The colour a player's units are drawn in, as `team_colour_of` says.
pub fn team_colour(owner: PlayerId, neutral: bool) -> (r: Rgb)
    ensures
        r == team_colour_of(owner, neutral),
{
    if neutral {
        return (170, 170, 160);
    }
    match owner.0 % 4 {
        0 => (220, 60, 50),
        1 => (60, 110, 220),
        2 => (70, 180, 90),
        _ => (230, 180, 60),
    }
}

/// The column of pixel `p` in a picture `w` wide.
pub open spec fn column(p: int, w: int) -> int {
    p % w
}

/// The row of pixel `p` in a picture `w` wide.
pub open spec fn row(p: int, w: int) -> int {
    p / w
}

/// Whether a unit's blip covers the pixel at column `x`, row `y` of a `w`
/// by `h` picture: only a unit that is alive, not riding in anything, seen,
/// and on the map shows; a structure as a three-by-three blob, since one
/// pixel per unit is invisible at this size, and a moving unit as a dot.
pub open spec fn blip_covers(b: Blip, w: int, h: int, x: int, y: int) -> bool {
    let (bx, by) = (b.cell.0 as int, b.cell.1 as int);
    let reach: int = if b.mobile {
        0
    } else {
        1
    };
    &&& b.alive && !b.aboard && b.visible
    &&& 0 <= bx < w && 0 <= by < h
    &&& bx - reach <= x <= bx + reach
    &&& by - reach <= y <= by + reach
}

/// The last of the first `n` blips that covers the pixel: later units are
/// painted over earlier ones.
pub open spec fn last_cover(blips: Seq<Blip>, n: nat, w: int, h: int, x: int, y: int) -> Option<int>
    decreases n,
{
    if n == 0 {
        None
    } else if blip_covers(blips[n - 1], w, h, x, y) {
        Some(n - 1)
    } else {
        last_cover(blips, (n - 1) as nat, w, h, x, y)
    }
}

/// The colour of pixel `p` once the first `n` blips are painted.
pub open spec fn painted(w: int, h: int, cells: Seq<CellLook>, blips: Seq<Blip>, n: nat, p: int) -> Rgb {
    match last_cover(blips, n, w, h, column(p, w), row(p, w)) {
        Some(i) => team_colour_of(blips[i].owner, blips[i].neutral),
        None => cell_colour(cells[p]),
    }
}

/// The colour of pixel `p` of the finished picture.
pub open spec fn pixel_colour(w: int, h: int, cells: Seq<CellLook>, blips: Seq<Blip>, p: int) -> Rgb {
    painted(w, h, cells, blips, blips.len(), p)
}

/// A pixel index falls inside the picture's rows.
proof fn lemma_pixel_in_picture(p: int, w: int, h: int)
    requires
        0 < w,
        0 <= p < w * h,
    ensures
        0 <= column(p, w) < w,
        0 <= row(p, w) < h,
        p == row(p, w) * w + column(p, w),
{
    vstd::arithmetic::div_mod::lemma_fundamental_div_mod(p, w);
    assert(p == w * (p / w) + p % w);
    assert(0 <= p % w < w);
    assert(0 <= p / w) by (nonlinear_arith)
        requires
            0 <= p,
            0 < w,
    ;
    assert(p / w < h) by (nonlinear_arith)
        requires
            p == w * (p / w) + p % w,
            0 <= p % w,
            p < w * h,
            0 < w,
    ;
    assert(p == (p / w) * w + p % w) by (nonlinear_arith)
        requires
            p == w * (p / w) + p % w,
    ;
}

/// Paints one blip over `colours`.
fn paint_blip(colours: &mut Vec<Rgb>, w: u32, h: u32, b: &Blip)
    requires
        old(colours)@.len() == w as int * h as int,
        w as int * h as int <= usize::MAX,
    ensures
        final(colours)@.len() == old(colours)@.len(),
        forall|p: int|
            0 <= p < old(colours)@.len() ==> #[trigger] final(colours)@[p] == if blip_covers(
                *b,
                w as int,
                h as int,
                column(p, w as int),
                row(p, w as int),
            ) {
                team_colour_of(b.owner, b.neutral)
            } else {
                old(colours)@[p]
            },
{
    let ghost before = colours@;
    let ghost (wi, hi) = (w as int, h as int);
    if !b.alive || b.aboard || !b.visible {
        return;
    }
    let (bx, by) = b.cell;
    if bx < 0 || by < 0 || bx as i64 >= w as i64 || by as i64 >= h as i64 {
        return;
    }
    let reach: i64 = if b.mobile {
        0
    } else {
        1
    };
    let colour = team_colour(b.owner, b.neutral);
    let mut dy: i64 = -reach;
    while dy <= reach
        invariant
            0 <= bx < w,
            0 <= by < h,
            (bx, by) == b.cell,
            reach == if b.mobile {
                0i64
            } else {
                1i64
            },
            -reach <= dy <= reach + 1,
            colour == team_colour_of(b.owner, b.neutral),
            b.alive && !b.aboard && b.visible,
            colours@.len() == before.len(),
            before.len() == wi * hi,
            wi == w,
            hi == h,
            wi * hi <= usize::MAX,
            forall|p: int|
                0 <= p < before.len() ==> #[trigger] colours@[p] == if blip_covers(
                    *b,
                    wi,
                    hi,
                    column(p, wi),
                    row(p, wi),
                ) && row(p, wi) < by + dy {
                    colour
                } else {
                    before[p]
                },
        decreases reach + 1 - dy,
    {
        assert forall|p: int| 0 <= p < before.len() implies #[trigger] colours@[p] == if blip_covers(
            *b,
            wi,
            hi,
            column(p, wi),
            row(p, wi),
        ) && (row(p, wi) < by + dy || (row(p, wi) == by + dy && column(p, wi) < bx - reach)) {
            colour
        } else {
            before[p]
        } by {}
        let mut dx: i64 = -reach;
        while dx <= reach
            invariant
                0 <= bx < w,
                0 <= by < h,
                (bx, by) == b.cell,
                reach == if b.mobile {
                    0i64
                } else {
                    1i64
                },
                -reach <= dy <= reach,
                -reach <= dx <= reach + 1,
                colour == team_colour_of(b.owner, b.neutral),
                b.alive && !b.aboard && b.visible,
                colours@.len() == before.len(),
                before.len() == wi * hi,
                wi == w,
                hi == h,
                wi * hi <= usize::MAX,
                forall|p: int|
                    0 <= p < before.len() ==> #[trigger] colours@[p] == if blip_covers(
                        *b,
                        wi,
                        hi,
                        column(p, wi),
                        row(p, wi),
                    ) && (row(p, wi) < by + dy || (row(p, wi) == by + dy && column(p, wi) < bx
                        + dx)) {
                        colour
                    } else {
                        before[p]
                    },
            decreases reach + 1 - dx,
        {
            let px: i64 = bx as i64 + dx;
            let py: i64 = by as i64 + dy;
            let ghost old_colours = colours@;
            if px >= 0 && py >= 0 && px < w as i64 && py < h as i64 {
                assert(py * wi + px < wi * hi) by (nonlinear_arith)
                    requires
                        0 <= px < wi,
                        0 <= py < hi,
                ;
                assert(0 <= py * wi) by (nonlinear_arith)
                    requires
                        0 <= py,
                        0 <= wi,
                ;
                let at: usize = (py as usize) * (w as usize) + (px as usize);
                proof {
                    vstd::arithmetic::div_mod::lemma_fundamental_div_mod_converse(
                        at as int,
                        wi,
                        py as int,
                        px as int,
                    );
                }
                colours.set(at, colour);
                proof {
                    assert forall|p: int| 0 <= p < before.len() implies #[trigger] colours@[p]
                        == if blip_covers(*b, wi, hi, column(p, wi), row(p, wi)) && (row(p, wi)
                        < by + dy || (row(p, wi) == by + dy && column(p, wi) < bx + dx + 1)) {
                        colour
                    } else {
                        before[p]
                    } by {
                        lemma_pixel_in_picture(p, wi, hi);
                        if p == at as int {
                            assert(column(p, wi) == px && row(p, wi) == py);
                            assert(colours@[p] == colour);
                        } else {
                            assert(colours@[p] == old_colours[p]);
                            if column(p, wi) == px && row(p, wi) == py {
                                assert(p == py * wi + px);
                            }
                        }
                    }
                }
            } else {
                proof {
                    assert forall|p: int| 0 <= p < before.len() implies #[trigger] colours@[p]
                        == if blip_covers(*b, wi, hi, column(p, wi), row(p, wi)) && (row(p, wi)
                        < by + dy || (row(p, wi) == by + dy && column(p, wi) < bx + dx + 1)) {
                        colour
                    } else {
                        before[p]
                    } by {
                        lemma_pixel_in_picture(p, wi, hi);
                    }
                }
            }
            dx = dx + 1;
        }
        assert forall|p: int| 0 <= p < before.len() implies #[trigger] colours@[p] == if blip_covers(
            *b,
            wi,
            hi,
            column(p, wi),
            row(p, wi),
        ) && row(p, wi) < by + dy + 1 {
            colour
        } else {
            before[p]
        } by {}
        dy = dy + 1;
    }
}

/// The minimap's picture, as RGBA bytes, row by row: pixel `p` holds
/// `pixel_colour` and is opaque. `cells` holds the map's cells row by row.
pub fn paint_minimap(w: u32, h: u32, cells: &Vec<CellLook>, blips: &Vec<Blip>) -> (r: Vec<u8>)
    requires
        cells@.len() == w as int * h as int,
        w as int * h as int * 4 <= usize::MAX,
    ensures
        r@.len() == 4 * cells@.len(),
        forall|p: int|
            0 <= p < cells@.len() ==> {
                let c = pixel_colour(w as int, h as int, cells@, blips@, p);
                &&& #[trigger] r@[4 * p] == c.0
                &&& r@[4 * p + 1] == c.1
                &&& r@[4 * p + 2] == c.2
                &&& r@[4 * p + 3] == 255
            },
{
    let ghost (wi, hi) = (w as int, h as int);
    let n = cells.len();
    let mut colours: Vec<Rgb> = Vec::new();
    let mut p: usize = 0;
    while p < n
        invariant
            n == cells@.len(),
            p <= n,
            colours@.len() == p,
            forall|q: int| 0 <= q < p ==> #[trigger] colours@[q] == cell_colour(cells@[q]),
        decreases n - p,
    {
        colours.push(colour_of_cell(cells[p]));
        p = p + 1;
    }
    let mut i: usize = 0;
    while i < blips.len()
        invariant
            n == cells@.len(),
            n == wi * hi,
            wi == w,
            hi == h,
            wi * hi * 4 <= usize::MAX,
            i <= blips@.len(),
            colours@.len() == n,
            forall|q: int|
                0 <= q < n ==> #[trigger] colours@[q] == painted(wi, hi, cells@, blips@, i as nat, q),
        decreases blips@.len() - i,
    {
        let ghost before = colours@;
        paint_blip(&mut colours, w, h, &blips[i]);
        assert forall|q: int| 0 <= q < n implies #[trigger] colours@[q] == painted(
            wi,
            hi,
            cells@,
            blips@,
            (i + 1) as nat,
            q,
        ) by {
            assert(before[q] == painted(wi, hi, cells@, blips@, i as nat, q));
        }
        i = i + 1;
    }
    let mut out: Vec<u8> = Vec::new();
    let mut q: usize = 0;
    while q < n
        invariant
            n == cells@.len(),
            n * 4 <= usize::MAX,
            q <= n,
            colours@.len() == n,
            out@.len() == 4 * q,
            forall|k: int|
                0 <= k < q ==> {
                    &&& #[trigger] out@[4 * k] == colours@[k].0
                    &&& out@[4 * k + 1] == colours@[k].1
                    &&& out@[4 * k + 2] == colours@[k].2
                    &&& out@[4 * k + 3] == 255
                },
        decreases n - q,
    {
        let (red, green, blue) = colours[q];
        let ghost prev = out@;
        out.push(red);
        out.push(green);
        out.push(blue);
        out.push(255);
        assert forall|k: int| 0 <= k < q + 1 implies {
            &&& #[trigger] out@[4 * k] == colours@[k].0
            &&& out@[4 * k + 1] == colours@[k].1
            &&& out@[4 * k + 2] == colours@[k].2
            &&& out@[4 * k + 3] == 255
        } by {
            if k < q {
                assert(out@[4 * k] == prev[4 * k]);
                assert(out@[4 * k + 1] == prev[4 * k + 1]);
                assert(out@[4 * k + 2] == prev[4 * k + 2]);
                assert(out@[4 * k + 3] == prev[4 * k + 3]);
            }
        }
        q = q + 1;
    }
    out
}

/// Whether a blip can show at all: alive, not riding in anything, and seen.
pub open spec fn blip_shows(b: Blip) -> bool {
    b.alive && !b.aboard && b.visible
}

/// The last cover among the first `n` blips is one of them.
proof fn lemma_last_cover_range(blips: Seq<Blip>, n: nat, w: int, h: int, x: int, y: int)
    ensures
        last_cover(blips, n, w, h, x, y) matches Some(j) ==> 0 <= j < n,
    decreases n,
{
    if n > 0 {
        lemma_last_cover_range(blips, (n - 1) as nat, w, h, x, y);
    }
}

/// Taking a blip that cannot show out of the list moves the last cover of
/// every pixel to the same blip.
proof fn lemma_last_cover_without(blips: Seq<Blip>, i: int, n: nat, w: int, h: int, x: int, y: int)
    requires
        0 <= i < blips.len(),
        n <= blips.len(),
        !blip_shows(blips[i]),
    ensures
        n <= i ==> last_cover(blips, n, w, h, x, y) == last_cover(blips.remove(i), n, w, h, x, y),
        n > i ==> match last_cover(blips, n, w, h, x, y) {
            Some(j) => j != i && last_cover(blips.remove(i), (n - 1) as nat, w, h, x, y) == Some(
                if j < i {
                    j
                } else {
                    j - 1
                },
            ),
            None => last_cover(blips.remove(i), (n - 1) as nat, w, h, x, y) is None,
        },
    decreases n,
{
    let rem = blips.remove(i);
    lemma_last_cover_range(blips, n, w, h, x, y);
    if n > 0 {
        lemma_last_cover_range(blips, (n - 1) as nat, w, h, x, y);
        lemma_last_cover_without(blips, i, (n - 1) as nat, w, h, x, y);
        if n - 1 < i {
            assert(rem[n - 1] == blips[n - 1]);
        } else if n - 1 > i {
            assert(rem[n - 2] == blips[n - 1]);
        }
    }
}

/// It shows only what the player may know: a unit that is dead, riding in
/// something or unseen changes no pixel of the picture.
pub proof fn lemma_hidden_units_leave_no_trace(
    w: int,
    h: int,
    cells: Seq<CellLook>,
    blips: Seq<Blip>,
    i: int,
    p: int,
)
    requires
        0 <= i < blips.len(),
        !blip_shows(blips[i]),
    ensures
        pixel_colour(w, h, cells, blips, p) == pixel_colour(w, h, cells, blips.remove(i), p),
{
    let (x, y) = (column(p, w), row(p, w));
    lemma_last_cover_without(blips, i, blips.len(), w, h, x, y);
    lemma_last_cover_range(blips, blips.len(), w, h, x, y);
    let rem = blips.remove(i);
    match last_cover(blips, blips.len(), w, h, x, y) {
        Some(j) => {
            if j < i {
                assert(rem[j] == blips[j]);
            } else {
                assert(rem[j - 1] == blips[j]);
            }
        },
        None => {},
    }
}

/// Nor does what lies under a cell the player has never seen: two maps
/// that differ only there draw the same picture.
pub proof fn lemma_unseen_cells_reveal_nothing(
    w: int,
    h: int,
    cells: Seq<CellLook>,
    other: Seq<CellLook>,
    blips: Seq<Blip>,
    p: int,
)
    requires
        0 <= p < cells.len(),
        cells[p].sight is Unseen,
        other[p].sight is Unseen,
    ensures
        pixel_colour(w, h, cells, blips, p) == pixel_colour(w, h, other, blips, p),
{
}

/// Whether the picture is redrawn at `tick`, last drawn at `last` if ever.
pub open spec fn redraw_due_at(last: Option<Tick>, tick: Tick) -> bool {
    match last {
        None => true,
        Some(l) => saturating_gap(tick, l) >= REDRAW_EVERY,
    }
}

/// When the minimap was last drawn.
pub struct RedrawClock {
    last_drawn: Option<Tick>,
}

impl RedrawClock {
    /// A clock that has drawn nothing yet.
    pub fn new() -> (r: RedrawClock)
        ensures
            r.last() is None,
    {
        RedrawClock { last_drawn: None }
    }

    /// When it last drew.
    pub closed spec fn last(&self) -> Option<Tick> {
        self.last_drawn
    }

    /// Whether to redraw at `tick`; a redraw is remembered.
    pub fn due(&mut self, tick: Tick) -> (r: bool)
        ensures
            r == redraw_due_at(old(self).last(), tick),
            final(self).last() == if r {
                Some(tick)
            } else {
                old(self).last()
            },
    {
        if let Some(last) = self.last_drawn {
            if tick.saturating_sub(last) < REDRAW_EVERY {
                return false;
            }
        }
        self.last_drawn = Some(tick);
        true
    }
}

} // verus!
