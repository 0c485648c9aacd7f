//! Armour classes and the damage table between them.
//!
//! `warhead -> armour class -> multiplier`. This lookup is what makes
//! counterplay work, and keeping it as plain data means balance is edited
//! rather than recompiled.
//!
//! Rows are kept in warhead order and each row's columns in class order, so
//! every machine walks the table the same way: the simulation interns
//! warheads to indices in this order, and a different order would give the
//! same warhead a different index on two peers.

use vstd::prelude::*;
use crate::sorting::{find_last, has_key, insert_by_key, insert_unique, strictly_sorted_by_key,
    Identified};
use crate::text::{copy_text, str_eq};
use crate::value::Percent;

verus! {

/// One column of a row: an armour class and the multiplier against it.
#[derive(Clone, Debug)]
pub struct ArmourCell {
    pub class: String,
    pub multiplier: Percent,
}

/// One warhead's row of the table.
#[derive(Clone, Debug)]
pub struct ArmourRow {
    pub warhead: String,
    pub cells: Vec<ArmourCell>,
}

impl Identified for ArmourCell {
    open spec fn key(&self) -> Seq<char> {
        self.class@
    }

    fn id_text(&self) -> (r: &String) {
        &self.class
    }
}

impl Identified for ArmourRow {
    open spec fn key(&self) -> Seq<char> {
        self.warhead@
    }

    fn id_text(&self) -> (r: &String) {
        &self.warhead
    }
}

/// Armour classes and the damage table between them.
#[derive(Debug)]
pub struct ArmourTable {
    classes: Vec<String>,
    rows: Vec<ArmourRow>,
}

/// What an armour table holds: the declared classes, in declaration order,
/// and the rows, in warhead order.
pub struct ArmourModel {
    pub classes: Seq<String>,
    pub rows: Seq<ArmourRow>,
}

/// Every row's columns are in strictly increasing class order.
pub open spec fn rows_well_formed(rows: Seq<ArmourRow>) -> bool {
    &&& strictly_sorted_by_key(rows)
    &&& forall|i: int| 0 <= i < rows.len() ==> strictly_sorted_by_key(#[trigger] rows[i].cells@)
}

/// The row for `warhead`, if there is one.
pub open spec fn row_for(rows: Seq<ArmourRow>, warhead: Seq<char>) -> Option<ArmourRow> {
    if has_key(rows, warhead) {
        Some(rows[crate::sorting::key_index(rows, warhead)])
    } else {
        None
    }
}

/// The multiplier a table gives a warhead against a class: full damage for
/// any pairing it does not list.
pub open spec fn multiplier_in(rows: Seq<ArmourRow>, warhead: Seq<char>, class: Seq<char>) -> int {
    match row_for(rows, warhead) {
        Some(row) => if has_key(row.cells@, class) {
            row.cells@[crate::sorting::key_index(row.cells@, class)].multiplier.0 as int
        } else {
            100
        },
        None => 100,
    }
}

/// In a sequence without two alike, an element with a key is the one
/// `key_index` finds.
pub proof fn lemma_unique_index<T: Identified>(s: Seq<T>, i: int)
    requires
        strictly_sorted_by_key(s),
        0 <= i < s.len(),
    ensures
        has_key(s, s[i].key()),
        crate::sorting::key_index(s, s[i].key()) == i,
{
    let k = crate::sorting::key_index(s, s[i].key());
    assert(0 <= k < s.len() && s[k].key() == s[i].key());
    if k < i {
        crate::text::lemma_text_lt_irreflexive(s[i].key());
    } else if k > i {
        crate::text::lemma_text_lt_irreflexive(s[i].key());
    }
}

impl View for ArmourTable {
    type V = ArmourModel;

    closed spec fn view(&self) -> ArmourModel {
        ArmourModel { classes: self.classes@, rows: self.rows@ }
    }
}

impl ArmourTable {
    #[verifier::type_invariant]
    spec fn well_formed(&self) -> bool {
        rows_well_formed(self.rows@)
    }

    /// A table declaring these classes, with no rows yet.
    pub fn new(classes: Vec<String>) -> (r: ArmourTable)
        ensures
            r@.classes == classes@,
            r@.rows == Seq::<ArmourRow>::empty(),
    {
        ArmourTable { classes, rows: Vec::new() }
    }

    /// The armour classes, in declaration order.
    pub fn classes(&self) -> (r: &Vec<String>)
        ensures
            r@ == self@.classes,
    {
        &self.classes
    }

    /// The rows, in warhead order.
    pub fn rows(&self) -> (r: &Vec<ArmourRow>)
        ensures
            r@ == self@.rows,
            rows_well_formed(r@),
    {
        proof {
            use_type_invariant(self);
        }
        &self.rows
    }

    /// The warheads, in a stable order: sorted, and identical on every
    /// machine.
    pub fn warheads(&self) -> (r: Vec<String>)
        ensures
            r@.len() == self@.rows.len(),
            forall|i: int| 0 <= i < r@.len() ==> (#[trigger] r@[i])@ == self@.rows[i].warhead@,
    {
        let mut out: Vec<String> = Vec::new();
        let mut i: usize = 0;
        while i < self.rows.len()
            invariant
                i <= self.rows@.len(),
                out@.len() == i,
                forall|j: int| 0 <= j < i ==> (#[trigger] out@[j])@ == self.rows@[j].warhead@,
            decreases self.rows@.len() - i,
        {
            out.push(copy_text(&self.rows[i].warhead));
            i = i + 1;
        }
        out
    }

    /// Whether the table has a row for this warhead.
    pub fn has_row(&self, warhead: &str) -> (r: bool)
        ensures
            r == has_key(self@.rows, warhead@),
    {
        find_last(&self.rows, warhead).is_some()
    }

    /// The damage multiplier for a warhead against an armour class.
    ///
    /// An unlisted pairing is full damage. That is the forgiving default on
    /// purpose: a missing entry should mean "nothing special", not "immune",
    /// because immunity by omission is invisible until a match hinges on it.
    pub fn multiplier(&self, warhead: &str, armour: &str) -> (r: Percent)
        ensures
            r.0 as int == multiplier_in(self@.rows, warhead@, armour@),
    {
        proof {
            use_type_invariant(self);
        }
        match find_last(&self.rows, warhead) {
            Some(i) => {
                proof {
                    lemma_unique_index(self.rows@, i as int);
                }
                let row = &self.rows[i];
                match find_last(&row.cells, armour) {
                    Some(j) => {
                        proof {
                            assert(strictly_sorted_by_key(self.rows@[i as int].cells@));
                            lemma_unique_index(row.cells@, j as int);
                        }
                        row.cells[j].multiplier
                    },
                    None => Percent(100),
                }
            },
            None => Percent(100),
        }
    }

    /// Sets the multiplier for a warhead against a class, replacing any
    /// multiplier the pairing had.
    pub fn set(&mut self, warhead: String, class: String, multiplier: Percent)
        ensures
            final(self)@.classes == old(self)@.classes,
            multiplier_in(final(self)@.rows, warhead@, class@) == multiplier.0 as int,
            forall|w: Seq<char>, c: Seq<char>|
                (w != warhead@ || c != class@) ==> multiplier_in(final(self)@.rows, w, c)
                    == multiplier_in(old(self)@.rows, w, c),
            forall|w: Seq<char>|
                has_key(final(self)@.rows, w) <==> (has_key(old(self)@.rows, w) || w == warhead@),
    {
        proof {
            use_type_invariant(&*self);
        }
        let mut rows: Vec<ArmourRow> = Vec::new();
        std::mem::swap(&mut rows, &mut self.rows);
        let ghost before = rows@;
        let cell = ArmourCell { class, multiplier };
        match find_last(&rows, warhead.as_str()) {
            Some(i) => {
                proof {
                    lemma_unique_index(rows@, i as int);
                }
                let mut row = rows.remove(i);
                let ghost row_before = row;
                let mut cells: Vec<ArmourCell> = Vec::new();
                std::mem::swap(&mut cells, &mut row.cells);
                proof {
                    assert(strictly_sorted_by_key(row_before.cells@));
                }
                set_cell(&mut cells, cell);
                row.cells = cells;
                rows.insert(i, row);
                proof {
                    assert(rows@ == before.update(i as int, row));
                    assert forall|a: int, b: int| 0 <= a < b < rows@.len() implies crate::text::text_lt(
                        #[trigger] rows@[a].key(),
                        #[trigger] rows@[b].key(),
                    ) by {
                        assert(rows@[a].key() == before[a].key());
                        assert(rows@[b].key() == before[b].key());
                    }
                    assert forall|a: int| 0 <= a < rows@.len() implies strictly_sorted_by_key(
                        #[trigger] rows@[a].cells@,
                    ) by {
                        if a != i {
                            assert(rows@[a] == before[a]);
                        }
                    }
                    lemma_rows_after_update(before, rows@, i as int, warhead@, class@);
                }
            },
            None => {
                let mut cells: Vec<ArmourCell> = Vec::new();
                cells.push(cell);
                let row = ArmourRow { warhead, cells };
                let ghost new_row = row;
                let ok = insert_unique(&mut rows, row);
                proof {
                    assert(ok is Ok);
                    assert(strictly_sorted_by_key(new_row.cells@));
                    lemma_rows_after_insert(before, rows@, new_row, class@);
                }
            },
        }
        self.rows = rows;
    }
}

/// Sets a cell in a row's strictly sorted columns.
fn set_cell(cells: &mut Vec<ArmourCell>, cell: ArmourCell)
    requires
        strictly_sorted_by_key(old(cells)@),
    ensures
        strictly_sorted_by_key(final(cells)@),
        has_key(final(cells)@, cell.class@),
        final(cells)@[crate::sorting::key_index(final(cells)@, cell.class@)].multiplier == cell.multiplier,
        forall|c: Seq<char>|
            c != cell.class@ ==> (has_key(final(cells)@, c) <==> has_key(old(cells)@, c)),
        forall|c: Seq<char>|
            c != cell.class@ && has_key(old(cells)@, c)
                ==> final(cells)@[crate::sorting::key_index(final(cells)@, c)]
                == old(cells)@[crate::sorting::key_index(old(cells)@, c)],
{
    let ghost before = cells@;
    let ghost c0 = cell;
    match find_last(cells, cell.class.as_str()) {
        Some(j) => {
            proof {
                lemma_unique_index(before, j as int);
            }
            cells.set(j, cell);
            proof {
                assert(cells@ == before.update(j as int, c0));
                assert forall|a: int, b: int| 0 <= a < b < cells@.len() implies crate::text::text_lt(
                    #[trigger] cells@[a].key(),
                    #[trigger] cells@[b].key(),
                ) by {
                    assert(cells@[a].key() == before[a].key());
                    assert(cells@[b].key() == before[b].key());
                }
                lemma_unique_index(cells@, j as int);
                assert forall|c: Seq<char>| c != c0.class@ implies (has_key(cells@, c) <==> has_key(
                    before,
                    c,
                )) by {
                    if has_key(cells@, c) {
                        let k = crate::sorting::key_index(cells@, c);
                        assert(before[k].key() == c);
                    }
                    if has_key(before, c) {
                        let k = crate::sorting::key_index(before, c);
                        assert(cells@[k].key() == c);
                    }
                }
                assert forall|c: Seq<char>| c != c0.class@ && has_key(before, c) implies cells@[crate::sorting::key_index(cells@, c)] == before[crate::sorting::key_index(before, c)] by {
                    let k = crate::sorting::key_index(before, c);
                    lemma_unique_index(before, k);
                    assert(cells@[k] == before[k]);
                    lemma_unique_index(cells@, k);
                }
            }
        },
        None => {
            let ok = insert_unique(cells, cell);
            proof {
                assert(ok is Ok);
                lemma_after_insert(before, cells@, c0);
            }
        },
    }
}

/// After inserting a new key into a strictly sorted sequence, the new key is
/// found where it was put and every other key still finds its old element.
proof fn lemma_after_insert<T: Identified>(before: Seq<T>, after: Seq<T>, x: T)
    requires
        strictly_sorted_by_key(before),
        strictly_sorted_by_key(after),
        !has_key(before, x.key()),
        after == insert_by_key(before, x),
    ensures
        has_key(after, x.key()),
        after[crate::sorting::key_index(after, x.key())] == x,
        forall|c: Seq<char>| c != x.key() ==> (has_key(after, c) <==> has_key(before, c)),
        forall|c: Seq<char>|
            c != x.key() && has_key(before, c) ==> after[crate::sorting::key_index(after, c)]
                == before[crate::sorting::key_index(before, c)],
{
    let p = crate::sorting::insert_pos(before, x);
    assert forall|i: int, j: int| 0 <= i < j < before.len() implies crate::text::text_le(
        #[trigger] before[i].key(),
        #[trigger] before[j].key(),
    ) by {}
    crate::sorting::lemma_insert_pos(before, x);
    assert(after[p] == x);
    lemma_unique_index(after, p);
    assert forall|c: Seq<char>| c != x.key() implies (has_key(after, c) <==> has_key(before, c)) by {
        if has_key(after, c) {
            let k = crate::sorting::key_index(after, c);
            if k < p {
                assert(before[k] == after[k]);
            } else {
                assert(before[k - 1] == after[k]);
            }
        }
        if has_key(before, c) {
            let k = crate::sorting::key_index(before, c);
            if k < p {
                assert(before[k] == after[k]);
            } else {
                assert(before[k] == after[k + 1]);
            }
        }
    }
    assert forall|c: Seq<char>| c != x.key() && has_key(before, c) implies after[crate::sorting::key_index(after, c)] == before[crate::sorting::key_index(before, c)] by {
        let k = crate::sorting::key_index(before, c);
        lemma_unique_index(before, k);
        if k < p {
            assert(before[k] == after[k]);
            lemma_unique_index(after, k);
        } else {
            assert(before[k] == after[k + 1]);
            lemma_unique_index(after, k + 1);
        }
    }
}

/// Replacing one row keeps every other warhead's row where it was.
proof fn lemma_rows_after_update(
    before: Seq<ArmourRow>,
    after: Seq<ArmourRow>,
    i: int,
    warhead: Seq<char>,
    class: Seq<char>,
)
    requires
        rows_well_formed(before),
        rows_well_formed(after),
        0 <= i < before.len(),
        before[i].warhead@ == warhead,
        after.len() == before.len(),
        after[i].warhead@ == warhead,
        forall|k: int| 0 <= k < before.len() && k != i ==> after[k] == before[k],
        has_key(after[i].cells@, class),
        forall|c: Seq<char>|
            c != class ==> (has_key(after[i].cells@, c) <==> has_key(before[i].cells@, c)),
        forall|c: Seq<char>|
            c != class && has_key(before[i].cells@, c) ==> after[i].cells@[crate::sorting::key_index(
                after[i].cells@,
                c,
            )] == before[i].cells@[crate::sorting::key_index(before[i].cells@, c)],
    ensures
        forall|w: Seq<char>, c: Seq<char>|
            (w != warhead || c != class) ==> multiplier_in(after, w, c) == multiplier_in(
                before,
                w,
                c,
            ),
        row_for(after, warhead) == Some(after[i]),
        forall|w: Seq<char>| has_key(after, w) <==> (has_key(before, w) || w == warhead),
{
    lemma_unique_index(after, i);
    lemma_unique_index(before, i);
    assert forall|w: Seq<char>| has_key(after, w) <==> (has_key(before, w) || w == warhead) by {
        if has_key(after, w) {
            let k = crate::sorting::key_index(after, w);
            if k != i {
                assert(before[k] == after[k]);
            }
        }
        if has_key(before, w) {
            let k = crate::sorting::key_index(before, w);
            if k != i {
                assert(before[k] == after[k]);
            }
        }
    }
    assert forall|w: Seq<char>, c: Seq<char>| (w != warhead || c != class) implies multiplier_in(
        after,
        w,
        c,
    ) == multiplier_in(before, w, c) by {
        if w != warhead {
            if has_key(before, w) {
                let k = crate::sorting::key_index(before, w);
                lemma_unique_index(before, k);
                assert(k != i);
                assert(after[k] == before[k]);
                lemma_unique_index(after, k);
            } else {
                if has_key(after, w) {
                    let k = crate::sorting::key_index(after, w);
                    assert(k != i);
                    assert(before[k] == after[k]);
                }
            }
        }
    }
}

/// Adding a new row leaves every other warhead's row as it was.
proof fn lemma_rows_after_insert(
    before: Seq<ArmourRow>,
    after: Seq<ArmourRow>,
    row: ArmourRow,
    class: Seq<char>,
)
    requires
        rows_well_formed(before),
        strictly_sorted_by_key(after),
        !has_key(before, row.warhead@),
        after == insert_by_key(before, row),
        row.cells@.len() == 1,
        row.cells@[0].class@ == class,
    ensures
        rows_well_formed(after),
        row_for(after, row.warhead@) == Some(row),
        multiplier_in(after, row.warhead@, class) == row.cells@[0].multiplier.0 as int,
        forall|w: Seq<char>, c: Seq<char>|
            (w != row.warhead@ || c != class) ==> multiplier_in(after, w, c) == multiplier_in(
                before,
                w,
                c,
            ),
        forall|w: Seq<char>| has_key(after, w) <==> (has_key(before, w) || w == row.warhead@),
{
    lemma_after_insert(before, after, row);
    let p = crate::sorting::insert_pos(before, row);
    assert forall|i: int, j: int| 0 <= i < j < before.len() implies crate::text::text_le(
        #[trigger] before[i].key(),
        #[trigger] before[j].key(),
    ) by {}
    crate::sorting::lemma_insert_pos(before, row);
    assert(strictly_sorted_by_key(row.cells@));
    assert forall|i: int| 0 <= i < after.len() implies strictly_sorted_by_key(#[trigger] after[i].cells@) by {
        if i < p {
            assert(after[i] == before[i]);
        } else if i > p {
            assert(after[i] == before[i - 1]);
        }
    }
    lemma_unique_index(row.cells@, 0);
    assert forall|w: Seq<char>, c: Seq<char>| (w != row.warhead@ || c != class) implies multiplier_in(
        after,
        w,
        c,
    ) == multiplier_in(before, w, c) by {
        if w == row.warhead@ {
            if has_key(row.cells@, c) {
                let k = crate::sorting::key_index(row.cells@, c);
                assert(k == 0);
            }
        }
    }
}

} // verus!
