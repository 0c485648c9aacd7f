//! Putting definitions in identifier order.
//!
//! Every peer must give the same definition the same index, whatever order the
//! files listed them in, so definitions are sorted by identifier. The sort is
//! stable: definitions with equal identifiers keep the order they came in.

use vstd::prelude::*;
use crate::text::{str_eq, str_lt, text_le, text_lt, lemma_text_lt_asymmetric,
    lemma_text_lt_irreflexive, lemma_text_lt_total, lemma_text_lt_transitive};

verus! {

/// Something with an identifier.
pub trait Identified: Sized {
    /// The identifier, as text.
    spec fn key(&self) -> Seq<char>;

    /// The identifier.
    fn id_text(&self) -> (r: &String)
        ensures
            r@ == self.key();
}

/// Where a stable insertion puts `x`: after every element that does not come
/// after it.
pub open spec fn insert_pos<T: Identified>(s: Seq<T>, x: T) -> int
    decreases s.len(),
{
    if s.len() == 0 {
        0
    } else if text_lt(x.key(), s[0].key()) {
        0
    } else {
        1 + insert_pos(s.drop_first(), x)
    }
}

/// `s` with `x` inserted where a stable sort puts it.
pub open spec fn insert_by_key<T: Identified>(s: Seq<T>, x: T) -> Seq<T> {
    s.insert(insert_pos(s, x), x)
}

/// `s` sorted by identifier, stably.
pub open spec fn sort_by_key<T: Identified>(s: Seq<T>) -> Seq<T>
    decreases s.len(),
{
    if s.len() == 0 {
        Seq::empty()
    } else {
        insert_by_key(sort_by_key(s.drop_last()), s.last())
    }
}

/// Identifiers never decrease along `s`.
pub open spec fn sorted_by_key<T: Identified>(s: Seq<T>) -> bool {
    forall|i: int, j: int| 0 <= i < j < s.len() ==> text_le(#[trigger] s[i].key(), #[trigger] s[j].key())
}

/// Identifiers strictly increase along `s`: sorted, and no two alike.
pub open spec fn strictly_sorted_by_key<T: Identified>(s: Seq<T>) -> bool {
    forall|i: int, j: int| 0 <= i < j < s.len() ==> text_lt(#[trigger] s[i].key(), #[trigger] s[j].key())
}

/// Some element of `s` has identifier `k`.
pub open spec fn has_key<T: Identified>(s: Seq<T>, k: Seq<char>) -> bool {
    exists|i: int| 0 <= i < s.len() && #[trigger] s[i].key() == k
}

/// Two elements of `s` share an identifier.
pub open spec fn has_duplicate_key<T: Identified>(s: Seq<T>) -> bool {
    exists|i: int, j: int| 0 <= i < j < s.len() && #[trigger] s[i].key() == #[trigger] s[j].key()
}

/// The position insertion picks is within bounds, and splits `s` into the
/// elements that do not come after `x` and those that do.
pub proof fn lemma_insert_pos<T: Identified>(s: Seq<T>, x: T)
    requires
        sorted_by_key(s),
    ensures
        0 <= insert_pos(s, x) <= s.len(),
        forall|i: int| 0 <= i < insert_pos(s, x) ==> !text_lt(x.key(), #[trigger] s[i].key()),
        forall|i: int| insert_pos(s, x) <= i < s.len() ==> text_lt(x.key(), #[trigger] s[i].key()),
    decreases s.len(),
{
    if s.len() > 0 {
        let t = s.drop_first();
        assert forall|i: int, j: int| 0 <= i < j < t.len() implies text_le(
            #[trigger] t[i].key(),
            #[trigger] t[j].key(),
        ) by {
            assert(t[i] == s[i + 1] && t[j] == s[j + 1]);
        }
        lemma_insert_pos(t, x);
        if text_lt(x.key(), s[0].key()) {
            assert forall|i: int| 0 <= i < s.len() implies text_lt(x.key(), #[trigger] s[i].key()) by {
                if i > 0 {
                    assert(text_le(s[0].key(), s[i].key()));
                    if s[0].key() != s[i].key() {
                        lemma_text_lt_transitive(x.key(), s[0].key(), s[i].key());
                    }
                }
            }
        } else {
            assert forall|i: int| 0 <= i < insert_pos(s, x) implies !text_lt(
                x.key(),
                #[trigger] s[i].key(),
            ) by {
                if i > 0 {
                    assert(s[i] == t[i - 1]);
                }
            }
            assert forall|i: int| insert_pos(s, x) <= i < s.len() implies text_lt(
                x.key(),
                #[trigger] s[i].key(),
            ) by {
                assert(s[i] == t[i - 1]);
            }
        }
    }
}

/// Inserting into a sorted sequence keeps it sorted.
pub proof fn lemma_insert_sorted<T: Identified>(s: Seq<T>, x: T)
    requires
        sorted_by_key(s),
    ensures
        sorted_by_key(insert_by_key(s, x)),
        insert_by_key(s, x).len() == s.len() + 1,
{
    lemma_insert_pos(s, x);
    let p = insert_pos(s, x);
    let r = insert_by_key(s, x);
    assert forall|i: int, j: int| 0 <= i < j < r.len() implies text_le(
        #[trigger] r[i].key(),
        #[trigger] r[j].key(),
    ) by {
        if i < p && j < p {
            assert(r[i] == s[i] && r[j] == s[j]);
        } else if i < p && j == p {
            assert(r[i] == s[i] && r[j] == x);
            lemma_text_lt_total(s[i].key(), x.key());
        } else if i < p && j > p {
            assert(r[i] == s[i] && r[j] == s[j - 1]);
        } else if i == p {
            assert(r[i] == x && r[j] == s[j - 1]);
        } else {
            assert(r[i] == s[i - 1] && r[j] == s[j - 1]);
        }
    }
}

/// A stable sort's result is sorted.
pub proof fn lemma_sort_sorted<T: Identified>(s: Seq<T>)
    ensures
        sorted_by_key(sort_by_key(s)),
        sort_by_key(s).len() == s.len(),
    decreases s.len(),
{
    if s.len() > 0 {
        lemma_sort_sorted(s.drop_last());
        lemma_insert_sorted(sort_by_key(s.drop_last()), s.last());
    }
}

/// Sorting keeps every element, and adds none.
pub proof fn lemma_sort_permutes<T: Identified>(s: Seq<T>)
    ensures
        sort_by_key(s).to_multiset() == s.to_multiset(),
    decreases s.len(),
{
    broadcast use vstd::seq_lib::group_to_multiset_ensures;
    if s.len() > 0 {
        lemma_sort_sorted(s.drop_last());
        lemma_sort_permutes(s.drop_last());
        let t = sort_by_key(s.drop_last());
        lemma_insert_pos(t, s.last());
        let p = insert_pos(t, s.last());
        vstd::seq_lib::lemma_seq_union_to_multiset_commutative(t.take(p), t.skip(p));
        assert(t.insert(p, s.last()) =~= t.take(p) + seq![s.last()] + t.skip(p));
        assert(t =~= t.take(p) + t.skip(p));
        vstd::seq_lib::lemma_multiset_commutative(t.take(p) + seq![s.last()], t.skip(p));
        vstd::seq_lib::lemma_multiset_commutative(t.take(p), seq![s.last()]);
        vstd::seq_lib::lemma_multiset_commutative(t.take(p), t.skip(p));
        assert(s =~= s.drop_last().push(s.last()));
    }
}

/// Two strictly sorted lists holding the same elements are the same list.
pub proof fn lemma_strictly_sorted_unique<T: Identified>(a: Seq<T>, b: Seq<T>)
    requires
        strictly_sorted_by_key(a),
        strictly_sorted_by_key(b),
        a.to_multiset() == b.to_multiset(),
    ensures
        a == b,
    decreases a.len(),
{
    a.to_multiset_ensures();
    b.to_multiset_ensures();
    if a.len() == 0 {
        assert(b.len() == 0);
        assert(a =~= b);
    } else {
        assert(b.len() == a.len());
        assert(a.contains(a[0]));
        assert(b.to_multiset().count(a[0]) > 0);
        assert(b.contains(a[0]));
        let j = choose|j: int| 0 <= j < b.len() && b[j] == a[0];
        assert(b.contains(b[0]));
        assert(a.to_multiset().count(b[0]) > 0);
        assert(a.contains(b[0]));
        let i = choose|i: int| 0 <= i < a.len() && a[i] == b[0];
        if j > 0 {
            assert(text_lt(b[0].key(), b[j].key()));
            if i > 0 {
                assert(text_lt(a[0].key(), a[i].key()));
                lemma_text_lt_asymmetric(a[0].key(), b[0].key());
            } else {
                lemma_text_lt_irreflexive(a[0].key());
            }
        }
        assert(a[0] == b[0]);
        let ra = a.drop_first();
        let rb = b.drop_first();
        assert(a.remove(0) =~= ra);
        assert(b.remove(0) =~= rb);
        assert(ra.to_multiset() =~= rb.to_multiset());
        assert forall|x: int, y: int| 0 <= x < y < ra.len() implies text_lt(#[trigger] ra[x].key(), #[trigger] ra[y].key()) by {
            assert(ra[x] == a[x + 1] && ra[y] == a[y + 1]);
        }
        assert forall|x: int, y: int| 0 <= x < y < rb.len() implies text_lt(#[trigger] rb[x].key(), #[trigger] rb[y].key()) by {
            assert(rb[x] == b[x + 1] && rb[y] == b[y + 1]);
        }
        lemma_strictly_sorted_unique(ra, rb);
        assert(a =~= b) by {
            assert forall|k: int| 0 <= k < a.len() implies a[k] == b[k] by {
                if k > 0 {
                    assert(a[k] == ra[k - 1] && b[k] == rb[k - 1]);
                }
            }
        }
    }
}

/// An element found at two places in a list is counted twice.
proof fn lemma_twice_counted<T>(s: Seq<T>, i: int, j: int)
    requires
        0 <= i < j < s.len(),
        s[i] == s[j],
    ensures
        s.to_multiset().count(s[i]) >= 2,
{
    broadcast use vstd::multiset::group_multiset_axioms;
    s.to_multiset_ensures();
    let r = s.remove(i);
    r.to_multiset_ensures();
    assert(r.len() == s.len() - 1);
    assert(r[j - 1] == s[j]);
    assert(r.contains(s[i]));
    assert(r.to_multiset().count(s[i]) > 0);
    assert(r.to_multiset() == s.to_multiset().remove(s[i]));
}

/// Elements counted in a list are found there; one counted twice is found at
/// two places.
proof fn lemma_found_twice<T>(s: Seq<T>, x: T) -> (r: (int, int))
    requires
        s.to_multiset().count(x) >= 2,
    ensures
        0 <= r.0 < r.1 < s.len(),
        s[r.0] == x,
        s[r.1] == x,
{
    broadcast use vstd::multiset::group_multiset_axioms;
    s.to_multiset_ensures();
    assert(s.contains(x));
    let p = choose|p: int| 0 <= p < s.len() && s[p] == x;
    let t = s.remove(p);
    t.to_multiset_ensures();
    assert(t.to_multiset().count(x) >= 1);
    assert(t.contains(x));
    let q = choose|q: int| 0 <= q < t.len() && t[q] == x;
    if q < p {
        assert(s[q] == t[q]);
        (q, p)
    } else {
        assert(s[q + 1] == t[q]);
        (p, q + 1)
    }
}

/// A list with no repeated identifier keeps that property in any order.
pub(crate) proof fn lemma_no_duplicates_permuted<T: Identified>(a: Seq<T>, b: Seq<T>)
    requires
        a.to_multiset() == b.to_multiset(),
        !has_duplicate_key(a),
    ensures
        !has_duplicate_key(b),
{
    a.to_multiset_ensures();
    b.to_multiset_ensures();
    if has_duplicate_key(b) {
        let (i, j) = choose|i: int, j: int| 0 <= i < j < b.len() && #[trigger] b[i].key() == #[trigger] b[j].key();
        if b[i] == b[j] {
            lemma_twice_counted(b, i, j);
            let (p, q) = lemma_found_twice(a, b[i]);
            assert(a[p].key() == a[q].key());
        } else {
            assert(b.contains(b[i]));
            assert(b.contains(b[j]));
            assert(b.to_multiset().count(b[i]) > 0);
            assert(b.to_multiset().count(b[j]) > 0);
            assert(a.to_multiset().count(b[i]) > 0);
            assert(a.to_multiset().count(b[j]) > 0);
            assert(a.contains(b[i]));
            assert(a.contains(b[j]));
            let p = choose|p: int| 0 <= p < a.len() && a[p] == b[i];
            let q = choose|q: int| 0 <= q < a.len() && a[q] == b[j];
            if p < q {
                assert(a[p].key() == a[q].key());
            } else {
                assert(a[q].key() == a[p].key());
            }
        }
    }
}

/// Sorted with no repeated identifier is strictly sorted.
proof fn lemma_sorted_strictly<T: Identified>(s: Seq<T>)
    requires
        sorted_by_key(s),
        !has_duplicate_key(s),
    ensures
        strictly_sorted_by_key(s),
{
    assert forall|i: int, j: int| 0 <= i < j < s.len() implies text_lt(#[trigger] s[i].key(), #[trigger] s[j].key()) by {
        assert(text_le(s[i].key(), s[j].key()));
    }
}

/// Sorting does not depend on the order the definitions came in: two lists
/// holding the same definitions, none sharing an identifier, sort to the
/// same list. This is what lets every peer give every definition the same
/// index, however its files were enumerated.
pub proof fn lemma_sort_order_free<T: Identified>(a: Seq<T>, b: Seq<T>)
    requires
        a.to_multiset() == b.to_multiset(),
        !has_duplicate_key(a),
    ensures
        sort_by_key(a) == sort_by_key(b),
{
    lemma_no_duplicates_permuted(a, b);
    lemma_sort_sorted(a);
    lemma_sort_sorted(b);
    lemma_sort_permutes(a);
    lemma_sort_permutes(b);
    lemma_no_duplicates_permuted(a, sort_by_key(a));
    lemma_no_duplicates_permuted(b, sort_by_key(b));
    lemma_sorted_strictly(sort_by_key(a));
    lemma_sorted_strictly(sort_by_key(b));
    lemma_strictly_sorted_unique(sort_by_key(a), sort_by_key(b));
}

/// Where `x` goes in `out`, by scanning past everything that does not come
/// after it.
fn find_insert_pos<T: Identified>(out: &Vec<T>, x: &T) -> (r: usize)
    ensures
        r == insert_pos(out@, *x),
{
    let mut k: usize = 0;
    assert(out@.skip(0) =~= out@);
    while k < out.len()
        invariant
            k <= out@.len(),
            insert_pos(out@, *x) == k + insert_pos(out@.skip(k as int), *x),
        decreases out@.len() - k,
    {
        if str_lt(x.id_text().as_str(), out[k].id_text().as_str()) {
            return k;
        }
        assert(out@.skip(k as int).drop_first() =~= out@.skip(k + 1));
        k = k + 1;
    }
    k
}

/// Sorts by identifier, stably.
pub fn sort_by_id<T: Identified>(items: Vec<T>) -> (r: Vec<T>)
    ensures
        r@ == sort_by_key(items@),
{
    let mut rest = items;
    let mut out: Vec<T> = Vec::new();
    let ghost input = rest@;
    let total = rest.len();
    let mut i: usize = 0;
    assert(input.skip(0) =~= input);
    assert(input.take(0) =~= Seq::<T>::empty());
    while rest.len() > 0
        invariant
            i <= input.len(),
            rest@ == input.skip(i as int),
            out@ == sort_by_key(input.take(i as int)),
            input.len() == total,
        decreases rest@.len(),
    {
        let x = rest.remove(0);
        let p = find_insert_pos(&out, &x);
        proof {
            assert(x == input[i as int]);
            assert(input.take(i + 1).drop_last() =~= input.take(i as int));
            assert(input.skip(i as int).drop_first() =~= input.skip(i + 1));
            lemma_sort_sorted(input.take(i as int));
            lemma_insert_pos(out@, x);
        }
        out.insert(p, x);
        i = i + 1;
    }
    assert(input.take(i as int) =~= input);
    out
}

/// Where `k` sits in a strictly sorted sequence, if it is there.
pub open spec fn key_index<T: Identified>(s: Seq<T>, k: Seq<char>) -> int {
    choose|i: int| 0 <= i < s.len() && s[i].key() == k
}

/// Finds the element with identifier `key` in a sequence, searching from the
/// back so the last of several alike is found.
pub fn find_last<T: Identified>(items: &Vec<T>, key: &str) -> (r: Option<usize>)
    ensures
        match r {
            Some(i) => i < items@.len() && items@[i as int].key() == key@ && forall|j: int|
                i < j < items@.len() ==> #[trigger] items@[j].key() != key@,
            None => !has_key(items@, key@),
        },
{
    let mut k: usize = items.len();
    while k > 0
        invariant
            k <= items@.len(),
            forall|j: int| k <= j < items@.len() ==> #[trigger] items@[j].key() != key@,
        decreases k,
    {
        k = k - 1;
        if str_eq(items[k].id_text().as_str(), key) {
            return Some(k);
        }
    }
    None
}

/// Inserts into a strictly sorted sequence, refusing an identifier that is
/// already there.
pub fn insert_unique<T: Identified>(out: &mut Vec<T>, x: T) -> (r: Result<(), T>)
    requires
        strictly_sorted_by_key(old(out)@),
    ensures
        match r {
            Ok(()) => !has_key(old(out)@, x.key()) && final(out)@ == insert_by_key(old(out)@, x)
                && strictly_sorted_by_key(final(out)@),
            Err(back) => back == x && has_key(old(out)@, x.key()) && final(out)@ == old(out)@,
        },
{
    let p = find_insert_pos(out, &x);
    proof {
        assert forall|i: int, j: int| 0 <= i < j < out@.len() implies text_le(
            #[trigger] out@[i].key(),
            #[trigger] out@[j].key(),
        ) by {}
        lemma_insert_pos(out@, x);
    }
    if p > 0 && str_eq(out[p - 1].id_text().as_str(), x.id_text().as_str()) {
        return Err(x);
    }
    proof {
        assert forall|i: int| 0 <= i < out@.len() implies #[trigger] out@[i].key() != x.key() by {
            if i < p {
                if i < p - 1 {
                    assert(text_lt(out@[i].key(), out@[p - 1].key()));
                    if out@[i].key() == x.key() {
                        lemma_text_lt_total(out@[p - 1].key(), x.key());
                        lemma_text_lt_asymmetric(out@[i].key(), out@[p - 1].key());
                    }
                }
            } else {
                lemma_text_lt_irreflexive(x.key());
            }
        }
    }
    let ghost before = out@;
    out.insert(p, x);
    proof {
        assert forall|i: int, j: int| 0 <= i < j < out@.len() implies text_lt(
            #[trigger] out@[i].key(),
            #[trigger] out@[j].key(),
        ) by {
            if i < p && j < p {
                assert(out@[i] == before[i] && out@[j] == before[j]);
            } else if i < p && j == p {
                assert(out@[i] == before[i] && out@[j] == x);
                assert(!text_lt(x.key(), before[i].key()));
                lemma_text_lt_total(before[i].key(), x.key());
            } else if i < p && j > p {
                assert(out@[i] == before[i] && out@[j] == before[j - 1]);
            } else if i == p {
                assert(out@[i] == x && out@[j] == before[j - 1]);
            } else {
                assert(out@[i] == before[i - 1] && out@[j] == before[j - 1]);
            }
        }
    }
    Ok(())
}

} // verus!
