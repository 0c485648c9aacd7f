//! The map file format.
//!
//! A map is authored as a list of *edits* rather than as a grid of cells:
//! "a ridge here, water there, ore in the corners". Everything worth
//! refusing a map for is checked when it is loaded rather than discovered
//! mid-match.

use vstd::prelude::*;
use crate::text::{append_signed, copy_text, signed_decimal, text};

verus! {

/// A rectangle of cells, inclusive at both ends.
#[derive(Clone, Copy, PartialEq, Eq, Debug)]
pub struct Rect {
    pub from: (i32, i32),
    pub to: (i32, i32),
}

/// What a cell is made of, as a map file names it.
#[derive(Clone, Copy, PartialEq, Eq, Debug, Default, Structural)]
pub enum Ground {
    #[default]
    Land,
    Water,
    Rock,
}

/// One thing done to the map, in order.
#[derive(PartialEq, Debug)]
pub enum Edit {
    /// Paints a rectangle of terrain.
    Terrain { area: Rect, ground: Ground },
    /// Raises a rectangle to a level. Zero is the ground floor.
    Elevation { area: Rect, level: u8 },
    /// Scatters an ore field, thickest at the centre.
    Ore { at: (i32, i32), radius: i32, amount: u16 },
}

/// Where a player starts, and what they start with.
#[derive(PartialEq, Debug)]
pub struct StartingPosition {
    /// Which slot this belongs to. Slots are filled in lobby order.
    pub slot: u8,
    pub at: (i32, i32),
    /// What is placed, and where relative to `at`.
    pub units: Vec<PlacedUnit>,
}

#[derive(PartialEq, Debug)]
pub struct PlacedUnit {
    pub id: String,
    pub offset: (i32, i32),
}

/// Things belonging to nobody: civilians, tech buildings, bridges, ore mines.
#[derive(PartialEq, Debug)]
pub struct NeutralUnit {
    pub id: String,
    pub at: (i32, i32),
}

/// A playable map.
#[derive(PartialEq, Debug)]
pub struct MapDef {
    pub name: String,
    pub width: u16,
    pub height: u16,
    /// How many players it is built for.
    pub players: u8,
    pub edits: Vec<Edit>,
    pub starts: Vec<StartingPosition>,
    pub neutrals: Vec<NeutralUnit>,
}

/// What can go wrong reading a map.
#[derive(Debug)]
pub enum MapError {
    Io { message: String },
    Malformed { path: String, message: String },
    Invalid { problems: Vec<String> },
}

/// How a string reads when quoted for a person, with whatever escaping
/// that takes.
pub uninterp spec fn quoted(s: Seq<char>) -> Seq<char>;

/// Plain text: printable ASCII with neither a quote nor a backslash in it,
/// which quoting leaves as it is.
pub open spec fn plain_text(s: Seq<char>) -> bool {
    forall|i: int|
        0 <= i < s.len() ==> (' ' as int) <= (#[trigger] s[i] as int) <= ('~' as int) && s[i]
            != '"' && s[i] != '\\'
}

/// `s` quoted as Rust's `Debug` formatting of a string quotes it.
///
/// The standard library documents the output as the text between double
/// quotes, with characters escaped as a string's `Debug` escapes them:
/// printable ASCII other than the double quote and the backslash is left
/// alone (the single quote included, which `char::escape_debug` would
/// escape but a string's `Debug` does not).
#[verifier::external_body]
pub(crate) fn quote(s: &str) -> (r: String)
    ensures
        r@ == quoted(s@),
        plain_text(s@) ==> r@ == seq!['"'] + s@ + seq!['"'],
{
    format!("{:?}", s)
}

/// A cell position as the map's messages write it: `(x, y)`.
pub open spec fn point_text(p: (i32, i32)) -> Seq<char> {
    "("@ + signed_decimal(p.0 as int) + ", "@ + signed_decimal(p.1 as int) + ")"@
}

/// A rectangle as the map's messages write it.
pub open spec fn rect_text(r: Rect) -> Seq<char> {
    "Rect { from: "@ + point_text(r.from) + ", to: "@ + point_text(r.to) + " }"@
}

fn append_point(s: &mut String, p: (i32, i32))
    ensures
        final(s)@ == old(s)@ + point_text(p),
{
    s.append("(");
    append_signed(s, p.0 as i64);
    s.append(", ");
    append_signed(s, p.1 as i64);
    s.append(")");
    assert(s@ =~= old(s)@ + point_text(p));
}

fn append_rect(s: &mut String, r: Rect)
    ensures
        final(s)@ == old(s)@ + rect_text(r),
{
    s.append("Rect { from: ");
    append_point(s, r.from);
    s.append(", to: ");
    append_point(s, r.to);
    s.append(" }");
    assert(s@ =~= old(s)@ + rect_text(r));
}

/// A cell is on a map of this size.
pub open spec fn inside(width: u16, height: u16, p: (i32, i32)) -> bool {
    p.0 >= 0 && p.1 >= 0 && p.0 < width && p.1 < height
}

pub open spec fn no_area_message() -> Seq<char> {
    "the map has no area"@
}

pub open spec fn too_few_starts_message(players: u8, starts: nat) -> Seq<char> {
    "it says it is for "@ + crate::text::decimal(players as nat) + " players and gives "@
        + crate::text::decimal(starts) + " starting positions"@
}

pub open spec fn shared_slot_message() -> Seq<char> {
    "two starting positions claim the same slot"@
}

pub open spec fn start_off_map_message(s: StartingPosition) -> Seq<char> {
    "starting position "@ + crate::text::decimal(s.slot as nat) + " is at "@ + point_text(s.at)
        + ", off the map"@
}

pub open spec fn neutral_off_map_message(n: NeutralUnit) -> Seq<char> {
    "neutral "@ + quoted(n.id@) + " is at "@ + point_text(n.at) + ", off the map"@
}

pub open spec fn edit_off_map_message(area: Rect) -> Seq<char> {
    "an edit covers "@ + rect_text(area) + ", entirely off the map"@
}

/// Two starting positions claim the same slot.
pub open spec fn shared_slot(starts: Seq<StartingPosition>) -> bool {
    exists|i: int, j: int|
        0 <= i < j < starts.len() && (#[trigger] starts[i]).slot == (#[trigger] starts[j]).slot
}

/// The area an edit paints, for those that paint one.
pub open spec fn edit_area(e: Edit) -> Option<Rect> {
    match e {
        Edit::Terrain { area, .. } => Some(area),
        Edit::Elevation { area, .. } => Some(area),
        Edit::Ore { .. } => None,
    }
}

pub open spec fn starts_problems(w: u16, h: u16, starts: Seq<StartingPosition>) -> Seq<Seq<char>>
    decreases starts.len(),
{
    if starts.len() == 0 {
        Seq::empty()
    } else {
        starts_problems(w, h, starts.drop_last()) + if inside(w, h, starts.last().at) {
            Seq::<Seq<char>>::empty()
        } else {
            seq![start_off_map_message(starts.last())]
        }
    }
}

pub open spec fn neutrals_problems(w: u16, h: u16, ns: Seq<NeutralUnit>) -> Seq<Seq<char>>
    decreases ns.len(),
{
    if ns.len() == 0 {
        Seq::empty()
    } else {
        neutrals_problems(w, h, ns.drop_last()) + if inside(w, h, ns.last().at) {
            Seq::<Seq<char>>::empty()
        } else {
            seq![neutral_off_map_message(ns.last())]
        }
    }
}

/// The area covers a cell: the cell lies between its two corners, both ends
/// included, on both axes.
pub open spec fn covers(area: Rect, p: (i32, i32)) -> bool {
    &&& (area.from.0 <= p.0 <= area.to.0 || area.to.0 <= p.0 <= area.from.0)
    &&& (area.from.1 <= p.1 <= area.to.1 || area.to.1 <= p.1 <= area.from.1)
}

/// The area is entirely off the map: it covers no cell of it.
pub open spec fn off_map(w: u16, h: u16, area: Rect) -> bool {
    !exists|p: (i32, i32)| inside(w, h, p) && covers(area, p)
}

/// Whether an area is entirely off the map: so it is exactly when the map
/// has no cells, or both ends of the area lie on one side of the map along
/// one axis.
fn off_map_exec(width: u16, height: u16, area: Rect) -> (r: bool)
    ensures
        r == off_map(width, height, area),
{
    let w = width as i32;
    let h = height as i32;
    let (fx, fy) = area.from;
    let (tx, ty) = area.to;
    let r = width == 0 || height == 0 || (fx < 0 && tx < 0) || (fx >= w && tx >= w) || (fy < 0
        && ty < 0) || (fy >= h && ty >= h);
    proof {
        if !r {
            let x: i32 = if fx <= tx {
                if fx >= 0 {
                    fx
                } else {
                    0
                }
            } else {
                if tx >= 0 {
                    tx
                } else {
                    0
                }
            };
            let y: i32 = if fy <= ty {
                if fy >= 0 {
                    fy
                } else {
                    0
                }
            } else {
                if ty >= 0 {
                    ty
                } else {
                    0
                }
            };
            assert(inside(width, height, (x, y)) && covers(area, (x, y)));
        }
    }
    r
}

/// An edit is refused when its area is entirely off the map, covering none
/// of its cells. One that covers any cell is clamped when it is applied: an
/// author who paints past the edge means "to the edge".
pub open spec fn edits_problems(w: u16, h: u16, es: Seq<Edit>) -> Seq<Seq<char>>
    decreases es.len(),
{
    if es.len() == 0 {
        Seq::empty()
    } else {
        edits_problems(w, h, es.drop_last()) + match edit_area(es.last()) {
            Some(area) => if off_map(w, h, area) {
                seq![edit_off_map_message(area)]
            } else {
                Seq::<Seq<char>>::empty()
            },
            None => Seq::<Seq<char>>::empty(),
        }
    }
}

/// Everything wrong with a map, in the order it is reported.
pub open spec fn map_problems(m: MapDef) -> Seq<Seq<char>> {
    (if m.width == 0 || m.height == 0 {
        seq![no_area_message()]
    } else {
        Seq::<Seq<char>>::empty()
    }) + (if m.starts@.len() < m.players {
        seq![too_few_starts_message(m.players, m.starts@.len())]
    } else {
        Seq::<Seq<char>>::empty()
    }) + (if shared_slot(m.starts@) {
        seq![shared_slot_message()]
    } else {
        Seq::<Seq<char>>::empty()
    }) + starts_problems(m.width, m.height, m.starts@) + neutrals_problems(
        m.width,
        m.height,
        m.neutrals@,
    ) + edits_problems(m.width, m.height, m.edits@)
}

/// What is in either part is in the whole.
proof fn lemma_contains_either(a: Seq<Seq<char>>, b: Seq<Seq<char>>, x: Seq<char>)
    ensures
        a.contains(x) ==> (a + b).contains(x),
        b.contains(x) ==> (a + b).contains(x),
{
    if a.contains(x) {
        let i = choose|i: int| 0 <= i < a.len() && a[i] == x;
        assert((a + b)[i] == x);
    }
    if b.contains(x) {
        let i = choose|i: int| 0 <= i < b.len() && b[i] == x;
        assert((a + b)[a.len() + i] == x);
    }
}

/// The starting positions' problems: none exactly when every position is
/// on the map, and one for each that is not.
proof fn lemma_starts_problems(w: u16, h: u16, starts: Seq<StartingPosition>)
    ensures
        starts_problems(w, h, starts).len() == 0 <==> forall|i: int|
            0 <= i < starts.len() ==> inside(w, h, (#[trigger] starts[i]).at),
        forall|i: int|
            0 <= i < starts.len() && !inside(w, h, (#[trigger] starts[i]).at) ==> starts_problems(
                w,
                h,
                starts,
            ).contains(start_off_map_message(starts[i])),
    decreases starts.len(),
{
    if starts.len() > 0 {
        let init = starts.drop_last();
        lemma_starts_problems(w, h, init);
        let last = if inside(w, h, starts.last().at) {
            Seq::<Seq<char>>::empty()
        } else {
            seq![start_off_map_message(starts.last())]
        };
        assert(starts_problems(w, h, starts) == starts_problems(w, h, init) + last);
        assert forall|i: int|
            0 <= i < starts.len() && !inside(w, h, (#[trigger] starts[i]).at) implies starts_problems(
            w,
            h,
            starts,
        ).contains(start_off_map_message(starts[i])) by {
            lemma_contains_either(starts_problems(w, h, init), last, start_off_map_message(starts[i]));
            if i < init.len() {
                assert(init[i] == starts[i]);
            } else {
                assert(last[0] == start_off_map_message(starts[i]));
            }
        }
        if forall|i: int| 0 <= i < starts.len() ==> inside(w, h, (#[trigger] starts[i]).at) {
            assert forall|i: int| 0 <= i < init.len() implies inside(w, h, (#[trigger] init[i]).at) by {
                assert(init[i] == starts[i]);
            }
        }
        if starts_problems(w, h, starts).len() == 0 {
            assert forall|i: int| 0 <= i < starts.len() implies inside(w, h, (#[trigger] starts[i]).at) by {
                if i < init.len() {
                    assert(init[i] == starts[i]);
                }
            }
        }
    }
}

/// The neutral units' problems: none exactly when every one is on the map,
/// and one for each that is not.
proof fn lemma_neutrals_problems(w: u16, h: u16, ns: Seq<NeutralUnit>)
    ensures
        neutrals_problems(w, h, ns).len() == 0 <==> forall|i: int|
            0 <= i < ns.len() ==> inside(w, h, (#[trigger] ns[i]).at),
        forall|i: int|
            0 <= i < ns.len() && !inside(w, h, (#[trigger] ns[i]).at) ==> neutrals_problems(w, h, ns).contains(
                neutral_off_map_message(ns[i]),
            ),
    decreases ns.len(),
{
    if ns.len() > 0 {
        let init = ns.drop_last();
        lemma_neutrals_problems(w, h, init);
        let last = if inside(w, h, ns.last().at) {
            Seq::<Seq<char>>::empty()
        } else {
            seq![neutral_off_map_message(ns.last())]
        };
        assert(neutrals_problems(w, h, ns) == neutrals_problems(w, h, init) + last);
        assert forall|i: int|
            0 <= i < ns.len() && !inside(w, h, (#[trigger] ns[i]).at) implies neutrals_problems(
            w,
            h,
            ns,
        ).contains(neutral_off_map_message(ns[i])) by {
            lemma_contains_either(neutrals_problems(w, h, init), last, neutral_off_map_message(ns[i]));
            if i < init.len() {
                assert(init[i] == ns[i]);
            } else {
                assert(last[0] == neutral_off_map_message(ns[i]));
            }
        }
        if forall|i: int| 0 <= i < ns.len() ==> inside(w, h, (#[trigger] ns[i]).at) {
            assert forall|i: int| 0 <= i < init.len() implies inside(w, h, (#[trigger] init[i]).at) by {
                assert(init[i] == ns[i]);
            }
        }
        if neutrals_problems(w, h, ns).len() == 0 {
            assert forall|i: int| 0 <= i < ns.len() implies inside(w, h, (#[trigger] ns[i]).at) by {
                if i < init.len() {
                    assert(init[i] == ns[i]);
                }
            }
        }
    }
}

/// The edits' problems: none exactly when no edit's area is entirely off
/// the map, and one for each that is.
proof fn lemma_edits_problems(w: u16, h: u16, es: Seq<Edit>)
    ensures
        edits_problems(w, h, es).len() == 0 <==> forall|i: int|
            0 <= i < es.len() ==> !(edit_area(#[trigger] es[i]) matches Some(a) && off_map(w, h, a)),
        forall|i: int|
            0 <= i < es.len() && (edit_area(#[trigger] es[i]) matches Some(a) && off_map(w, h, a))
                ==> edits_problems(w, h, es).contains(edit_off_map_message(edit_area(es[i]).unwrap())),
    decreases es.len(),
{
    if es.len() > 0 {
        let init = es.drop_last();
        lemma_edits_problems(w, h, init);
        let last = match edit_area(es.last()) {
            Some(area) => if off_map(w, h, area) {
                seq![edit_off_map_message(area)]
            } else {
                Seq::<Seq<char>>::empty()
            },
            None => Seq::<Seq<char>>::empty(),
        };
        assert(edits_problems(w, h, es) == edits_problems(w, h, init) + last);
        assert forall|i: int|
            0 <= i < es.len() && (edit_area(#[trigger] es[i]) matches Some(a) && off_map(w, h, a))
                implies edits_problems(w, h, es).contains(edit_off_map_message(edit_area(es[i]).unwrap())) by {
            lemma_contains_either(edits_problems(w, h, init), last, edit_off_map_message(edit_area(es[i]).unwrap()));
            if i < init.len() {
                assert(init[i] == es[i]);
            } else {
                assert(last[0] == edit_off_map_message(edit_area(es[i]).unwrap()));
            }
        }
        if forall|i: int| 0 <= i < es.len() ==> !(edit_area(#[trigger] es[i]) matches Some(a) && off_map(w, h, a)) {
            assert forall|i: int| 0 <= i < init.len() implies !(edit_area(#[trigger] init[i]) matches Some(a)
                && off_map(w, h, a)) by {
                assert(init[i] == es[i]);
            }
        }
        if edits_problems(w, h, es).len() == 0 {
            assert forall|i: int| 0 <= i < es.len() implies !(edit_area(#[trigger] es[i]) matches Some(a)
                && off_map(w, h, a)) by {
                if i < init.len() {
                    assert(init[i] == es[i]);
                }
            }
        }
    }
}

/// A map is refused exactly when something is wrong with it, and every
/// fault is named: it must have an area; give at least as many starting
/// positions as it has players, no two on one slot; place every starting
/// position and every neutral unit on a cell of the map; and give no edit
/// whose area covers no cell of the map. Each starting position, neutral
/// unit or edit that breaks this has a problem of its own naming it.
pub proof fn lemma_map_faults_reported(m: MapDef)
    ensures
        map_problems(m).len() == 0 <==> {
            &&& m.width > 0 && m.height > 0
            &&& m.starts@.len() >= m.players
            &&& forall|i: int, j: int|
                0 <= i < j < m.starts@.len() ==> (#[trigger] m.starts@[i]).slot != (#[trigger] m.starts@[j]).slot
            &&& forall|i: int|
                0 <= i < m.starts@.len() ==> 0 <= (#[trigger] m.starts@[i]).at.0 < m.width && 0
                    <= m.starts@[i].at.1 < m.height
            &&& forall|i: int|
                0 <= i < m.neutrals@.len() ==> 0 <= (#[trigger] m.neutrals@[i]).at.0 < m.width && 0
                    <= m.neutrals@[i].at.1 < m.height
            &&& forall|i: int|
                0 <= i < m.edits@.len() && #[trigger] edit_area(m.edits@[i]) is Some ==> exists|p: (i32, i32)|
                    0 <= p.0 < m.width && 0 <= p.1 < m.height && #[trigger] covers(
                        edit_area(m.edits@[i]).unwrap(),
                        p,
                    )
        },
        m.width == 0 || m.height == 0 ==> map_problems(m).contains("the map has no area"@),
        shared_slot(m.starts@) ==> map_problems(m).contains("two starting positions claim the same slot"@),
        forall|i: int|
            0 <= i < m.starts@.len() && !(0 <= (#[trigger] m.starts@[i]).at.0 < m.width && 0
                <= m.starts@[i].at.1 < m.height) ==> map_problems(m).contains(
                "starting position "@ + crate::text::decimal(m.starts@[i].slot as nat) + " is at "@
                    + point_text(m.starts@[i].at) + ", off the map"@,
            ),
        forall|i: int|
            0 <= i < m.neutrals@.len() && !(0 <= (#[trigger] m.neutrals@[i]).at.0 < m.width && 0
                <= m.neutrals@[i].at.1 < m.height) ==> map_problems(m).contains(
                "neutral "@ + quoted(m.neutrals@[i].id@) + " is at "@ + point_text(m.neutrals@[i].at)
                    + ", off the map"@,
            ),
        forall|i: int|
            0 <= i < m.edits@.len() && (#[trigger] edit_area(m.edits@[i]) matches Some(a) && !exists|p: (
                i32,
                i32,
            )| 0 <= p.0 < m.width && 0 <= p.1 < m.height && #[trigger] covers(a, p)) ==> map_problems(
                m,
            ).contains(
                "an edit covers "@ + rect_text(edit_area(m.edits@[i]).unwrap()) + ", entirely off the map"@,
            ),
{
    let w = m.width;
    let h = m.height;
    let p0 = if m.width == 0 || m.height == 0 {
        seq![no_area_message()]
    } else {
        Seq::<Seq<char>>::empty()
    };
    let p1 = if m.starts@.len() < m.players {
        seq![too_few_starts_message(m.players, m.starts@.len())]
    } else {
        Seq::<Seq<char>>::empty()
    };
    let p2 = if shared_slot(m.starts@) {
        seq![shared_slot_message()]
    } else {
        Seq::<Seq<char>>::empty()
    };
    let p3 = starts_problems(w, h, m.starts@);
    let p4 = neutrals_problems(w, h, m.neutrals@);
    let p5 = edits_problems(w, h, m.edits@);
    assert(map_problems(m) == p0 + p1 + p2 + p3 + p4 + p5);
    lemma_starts_problems(w, h, m.starts@);
    lemma_neutrals_problems(w, h, m.neutrals@);
    lemma_edits_problems(w, h, m.edits@);
    assert forall|x: Seq<char>| p0.contains(x) || p1.contains(x) || p2.contains(x) || p3.contains(x)
        || p4.contains(x) || p5.contains(x) implies #[trigger] map_problems(m).contains(x) by {
        lemma_contains_either(p0, p1, x);
        lemma_contains_either(p0 + p1, p2, x);
        lemma_contains_either(p0 + p1 + p2, p3, x);
        lemma_contains_either(p0 + p1 + p2 + p3, p4, x);
        lemma_contains_either(p0 + p1 + p2 + p3 + p4, p5, x);
    }
    if m.width == 0 || m.height == 0 {
        assert(p0[0] == "the map has no area"@);
        assert(p0.contains("the map has no area"@));
        assert(map_problems(m).contains("the map has no area"@));
    }
    if shared_slot(m.starts@) {
        assert(p2[0] == "two starting positions claim the same slot"@);
        assert(p2.contains("two starting positions claim the same slot"@));
        assert(map_problems(m).contains("two starting positions claim the same slot"@));
    }
    assert forall|i: int|
        0 <= i < m.starts@.len() && !(0 <= (#[trigger] m.starts@[i]).at.0 < m.width && 0
            <= m.starts@[i].at.1 < m.height) implies map_problems(m).contains(
        start_off_map_message(m.starts@[i]),
    ) by {
        assert(p3.contains(start_off_map_message(m.starts@[i])));
    }
    assert forall|i: int|
        0 <= i < m.neutrals@.len() && !(0 <= (#[trigger] m.neutrals@[i]).at.0 < m.width && 0
            <= m.neutrals@[i].at.1 < m.height) implies map_problems(m).contains(
        neutral_off_map_message(m.neutrals@[i]),
    ) by {
        assert(p4.contains(neutral_off_map_message(m.neutrals@[i])));
    }
    assert forall|i: int|
        0 <= i < m.edits@.len() && #[trigger] edit_area(m.edits@[i]) is Some implies (off_map(
        w,
        h,
        edit_area(m.edits@[i]).unwrap(),
    ) <==> !exists|p: (i32, i32)| 0 <= p.0 < m.width && 0 <= p.1 < m.height && #[trigger] covers(
        edit_area(m.edits@[i]).unwrap(),
        p,
    )) by {}
    assert(shared_slot(m.starts@) <==> !forall|i: int, j: int|
        0 <= i < j < m.starts@.len() ==> (#[trigger] m.starts@[i]).slot != (#[trigger] m.starts@[j]).slot);
    assert((p0 + p1 + p2 + p3 + p4 + p5).len() == p0.len() + p1.len() + p2.len() + p3.len() + p4.len()
        + p5.len());
}

fn inside_exec(width: u16, height: u16, p: (i32, i32)) -> (r: bool)
    ensures
        r == inside(width, height, p),
{
    p.0 >= 0 && p.1 >= 0 && p.0 < width as i32 && p.1 < height as i32
}

fn report(out: &mut Vec<String>, msg: String)
    ensures
        crate::checks::views(final(out)@) == crate::checks::views(old(out)@).push(msg@),
{
    out.push(msg);
    assert(crate::checks::views(out@) =~= crate::checks::views(old(out)@).push(msg@));
}

impl MapDef {
    /// Everything worth refusing a map for.
    ///
    /// A start position off the edge of its own map is the sort of thing
    /// that produces a unit at (0,0) and a puzzled player twenty minutes
    /// later.
    #[verifier::rlimit(40)]
    pub fn validate(&self) -> (r: Result<(), MapError>)
        ensures
            map_problems(*self).len() == 0 ==> r is Ok,
            map_problems(*self).len() > 0 ==> (r matches Err(MapError::Invalid { problems })
                && crate::checks::views(problems@) == map_problems(*self)),
            forall|i: int|
                0 <= i < self.neutrals@.len() && !(0 <= (#[trigger] self.neutrals@[i]).at.0 < self.width
                    && 0 <= self.neutrals@[i].at.1 < self.height) ==> (r matches Err(
                    MapError::Invalid { problems },
                ) && crate::checks::views(problems@).contains(
                    "neutral "@ + quoted(self.neutrals@[i].id@) + " is at "@ + point_text(self.neutrals@[i].at)
                        + ", off the map"@,
                )),
            forall|i: int|
                0 <= i < self.starts@.len() && !(0 <= (#[trigger] self.starts@[i]).at.0 < self.width
                    && 0 <= self.starts@[i].at.1 < self.height) ==> (r matches Err(
                    MapError::Invalid { problems },
                ) && crate::checks::views(problems@).contains(
                    "starting position "@ + crate::text::decimal(self.starts@[i].slot as nat) + " is at "@
                        + point_text(self.starts@[i].at) + ", off the map"@,
                )),
    {
        let mut problems: Vec<String> = Vec::new();
        if self.width == 0 || self.height == 0 {
            report(&mut problems, text("the map has no area"));
        }
        if self.starts.len() < self.players as usize {
            let mut msg = text("it says it is for ");
            crate::text::append_decimal(&mut msg, self.players as u64);
            msg.append(" players and gives ");
            crate::text::append_decimal(&mut msg, self.starts.len() as u64);
            msg.append(" starting positions");
            report(&mut problems, msg);
        }
        let mut shared = false;
        let mut i: usize = 0;
        while i < self.starts.len()
            invariant
                i <= self.starts@.len(),
                shared == exists|a: int, b: int|
                    0 <= a < b < i && (#[trigger] self.starts@[a]).slot == (
                    #[trigger] self.starts@[b]).slot,
            decreases self.starts@.len() - i,
        {
            let mut j: usize = 0;
            while j < i
                invariant
                    j <= i < self.starts@.len(),
                    shared ==> exists|a: int, b: int|
                        0 <= a < b <= i && (#[trigger] self.starts@[a]).slot == (
                        #[trigger] self.starts@[b]).slot,
                    !shared ==> forall|a: int, b: int|
                        0 <= a < b < i ==> (#[trigger] self.starts@[a]).slot != (
                        #[trigger] self.starts@[b]).slot,
                    !shared ==> forall|a: int|
                        0 <= a < j ==> (#[trigger] self.starts@[a]).slot != self.starts@[i as int].slot,
                decreases i - j,
            {
                if self.starts[j].slot == self.starts[i].slot {
                    shared = true;
                }
                j = j + 1;
            }
            i = i + 1;
        }
        if shared {
            report(&mut problems, text("two starting positions claim the same slot"));
        }
        let ghost before_starts = crate::checks::views(problems@);
        assert(before_starts =~= map_problems(*self).take(before_starts.len() as int)) by {
            assert(before_starts =~= (if self.width == 0 || self.height == 0 {
                seq![no_area_message()]
            } else {
                Seq::<Seq<char>>::empty()
            }) + (if self.starts@.len() < self.players {
                seq![too_few_starts_message(self.players, self.starts@.len())]
            } else {
                Seq::<Seq<char>>::empty()
            }) + (if shared_slot(self.starts@) {
                seq![shared_slot_message()]
            } else {
                Seq::<Seq<char>>::empty()
            }));
        }
        let ghost head = crate::checks::views(problems@);
        let mut k: usize = 0;
        assert(self.starts@.take(0) =~= Seq::<StartingPosition>::empty());
        assert(crate::checks::views(problems@) =~= head + starts_problems(
            self.width,
            self.height,
            self.starts@.take(0),
        ));
        while k < self.starts.len()
            invariant
                k <= self.starts@.len(),
                crate::checks::views(problems@) == head + starts_problems(
                    self.width,
                    self.height,
                    self.starts@.take(k as int),
                ),
            decreases self.starts@.len() - k,
        {
            assert(self.starts@.take(k + 1).drop_last() =~= self.starts@.take(k as int));
            let start = &self.starts[k];
            if !inside_exec(self.width, self.height, start.at) {
                let mut msg = text("starting position ");
                crate::text::append_decimal(&mut msg, start.slot as u64);
                msg.append(" is at ");
                append_point(&mut msg, start.at);
                msg.append(", off the map");
                report(&mut problems, msg);
            }
            assert(crate::checks::views(problems@) =~= head + starts_problems(
                self.width,
                self.height,
                self.starts@.take(k + 1),
            ));
            k = k + 1;
        }
        assert(self.starts@.take(self.starts@.len() as int) =~= self.starts@);
        let ghost head2 = crate::checks::views(problems@);
        let mut n: usize = 0;
        assert(self.neutrals@.take(0) =~= Seq::<NeutralUnit>::empty());
        assert(crate::checks::views(problems@) =~= head2 + neutrals_problems(
            self.width,
            self.height,
            self.neutrals@.take(0),
        ));
        while n < self.neutrals.len()
            invariant
                n <= self.neutrals@.len(),
                crate::checks::views(problems@) == head2 + neutrals_problems(
                    self.width,
                    self.height,
                    self.neutrals@.take(n as int),
                ),
            decreases self.neutrals@.len() - n,
        {
            assert(self.neutrals@.take(n + 1).drop_last() =~= self.neutrals@.take(n as int));
            let neutral = &self.neutrals[n];
            if !inside_exec(self.width, self.height, neutral.at) {
                let mut msg = text("neutral ");
                let q = quote(neutral.id.as_str());
                msg.append(q.as_str());
                msg.append(" is at ");
                append_point(&mut msg, neutral.at);
                msg.append(", off the map");
                report(&mut problems, msg);
            }
            assert(crate::checks::views(problems@) =~= head2 + neutrals_problems(
                self.width,
                self.height,
                self.neutrals@.take(n + 1),
            ));
            n = n + 1;
        }
        assert(self.neutrals@.take(self.neutrals@.len() as int) =~= self.neutrals@);
        let ghost head3 = crate::checks::views(problems@);
        let mut e: usize = 0;
        assert(self.edits@.take(0) =~= Seq::<Edit>::empty());
        assert(crate::checks::views(problems@) =~= head3 + edits_problems(
            self.width,
            self.height,
            self.edits@.take(0),
        ));
        while e < self.edits.len()
            invariant
                e <= self.edits@.len(),
                crate::checks::views(problems@) == head3 + edits_problems(
                    self.width,
                    self.height,
                    self.edits@.take(e as int),
                ),
            decreases self.edits@.len() - e,
        {
            assert(self.edits@.take(e + 1).drop_last() =~= self.edits@.take(e as int));
            let area = match &self.edits[e] {
                Edit::Terrain { area, .. } => Some(*area),
                Edit::Elevation { area, .. } => Some(*area),
                Edit::Ore { .. } => None,
            };
            match area {
                Some(area) => {
                    if off_map_exec(self.width, self.height, area) {
                        let mut msg = text("an edit covers ");
                        append_rect(&mut msg, area);
                        msg.append(", entirely off the map");
                        report(&mut problems, msg);
                    }
                },
                None => {},
            }
            assert(crate::checks::views(problems@) =~= head3 + edits_problems(
                self.width,
                self.height,
                self.edits@.take(e + 1),
            ));
            e = e + 1;
        }
        assert(self.edits@.take(self.edits@.len() as int) =~= self.edits@);
        assert(crate::checks::views(problems@) =~= map_problems(*self));
        proof {
            lemma_map_faults_reported(*self);
        }
        if problems.len() == 0 {
            Ok(())
        } else {
            Err(MapError::Invalid { problems })
        }
    }
}

/// How each map error reads.
pub open spec fn map_error_text(e: MapError) -> Seq<char> {
    match e {
        MapError::Io { message } => message@,
        MapError::Malformed { path, message } => path@ + " is malformed: "@ + message@,
        MapError::Invalid { problems } => "the map has "@ + crate::text::decimal(problems@.len())
            + " problem(s):\n"@ + crate::rules::problem_lines(crate::checks::views(problems@)),
    }
}

impl MapError {
    /// The error as a sentence fit to show the map's author.
    pub fn to_string(&self) -> (r: String)
        ensures
            r@ == map_error_text(*self),
    {
        match self {
            MapError::Io { message } => copy_text(message),
            MapError::Malformed { path, message } => {
                let mut s = copy_text(path);
                s.append(" is malformed: ");
                s.append(message.as_str());
                s
            },
            MapError::Invalid { problems } => {
                let mut s = text("the map has ");
                crate::text::append_decimal(&mut s, problems.len() as u64);
                s.append(" problem(s):\n");
                let ghost head = s@;
                let ghost vs = crate::checks::views(problems@);
                let mut i: usize = 0;
                assert(vs.take(0) =~= Seq::<Seq<char>>::empty());
                assert(s@ =~= head + crate::rules::problem_lines(vs.take(0)));
                while i < problems.len()
                    invariant
                        i <= problems@.len(),
                        vs == crate::checks::views(problems@),
                        s@ == head + crate::rules::problem_lines(vs.take(i as int)),
                    decreases problems@.len() - i,
                {
                    assert(vs.take(i + 1).drop_last() =~= vs.take(i as int));
                    assert(vs.take(i + 1).last() == problems@[i as int]@);
                    s.append("  - ");
                    s.append(problems[i].as_str());
                    s.append("\n");
                    assert(s@ =~= head + crate::rules::problem_lines(vs.take(i + 1)));
                    i = i + 1;
                }
                assert(vs.take(problems@.len() as int) =~= vs);
                s
            },
        }
    }
}

} // verus!
