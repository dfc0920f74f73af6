//! The shared mathematical model of sparse rows and sparse vectors: finite
//! sequences of `(column, value)` pairs with pairwise distinct columns.
//!
//! `row_val` is the semantic lookup: the value stored under a column, or
//! zero when the column is absent — absence of an entry is semantically
//! zero.  The lemmas here relate the lookup to updates, insertions,
//! permutations and sorting; every storage engine proves its operations
//! against them.

use vstd::prelude::*;
use vstd::seq_lib::to_multiset_insert;
use vstd::seq_lib::to_multiset_remove;
use crate::types::ValueType;

verus! {

/// Does the row store an entry with column `j`?
pub open spec fn row_has<T>(row: Seq<(usize, T)>, j: int) -> bool {
    exists|k: int| 0 <= k < row.len() && (#[trigger] row[k]).0 as int == j
}

/// A position of the entry with column `j` (meaningful when `row_has`).
pub open spec fn row_index_of<T>(row: Seq<(usize, T)>, j: int) -> int {
    choose|k: int| 0 <= k < row.len() && (#[trigger] row[k]).0 as int == j
}

/// The value stored under column `j`, or zero when the column is absent.
pub open spec fn row_val<T: ValueType>(row: Seq<(usize, T)>, j: int) -> T {
    if row_has(row, j) {
        row[row_index_of(row, j)].1
    } else {
        T::sp_zero()
    }
}

/// All columns of the row are pairwise distinct: at most one live value
/// per key.
pub open spec fn row_cols_distinct<T>(row: Seq<(usize, T)>) -> bool {
    forall|k1: int, k2: int|
        0 <= k1 < k2 < row.len() ==> (#[trigger] row[k1]).0 != (#[trigger] row[k2]).0
}

/// All columns of the row lie below `cols`.
pub open spec fn row_cols_below<T>(row: Seq<(usize, T)>, cols: int) -> bool {
    forall|k: int| 0 <= k < row.len() ==> (#[trigger] row[k]).0 < cols
}

/// The row is sorted by column in ascending order.
pub open spec fn row_sorted<T>(row: Seq<(usize, T)>) -> bool {
    forall|k1: int, k2: int|
        0 <= k1 < k2 < row.len() ==> (#[trigger] row[k1]).0 <= (#[trigger] row[k2]).0
}

/// How one cell write changes a row: an existing key is replaced in place,
/// an absent key is inserted at some position.
pub open spec fn row_updated<T: ValueType>(
    oldr: Seq<(usize, T)>,
    newr: Seq<(usize, T)>,
    j: usize,
    v: T,
) -> bool {
    if row_has(oldr, j as int) {
        exists|k: int|
            0 <= k < oldr.len() && (#[trigger] oldr[k]).0 == j && newr == oldr.update(k, (j, v))
    } else {
        exists|k: int| 0 <= k <= oldr.len() && newr == #[trigger] oldr.insert(k, (j, v))
    }
}

/// Pointwise scaling of a row: same columns in the same order, every value
/// multiplied by `f`.
pub open spec fn row_scaled<T: ValueType>(
    oldr: Seq<(usize, T)>,
    newr: Seq<(usize, T)>,
    f: T,
) -> bool {
    &&& newr.len() == oldr.len()
    &&& forall|k: int|
            0 <= k < oldr.len()
                ==> #[trigger] newr[k] == ((#[trigger] oldr[k]).0, oldr[k].1.sp_mul(f))
}

/// The dot product of a row with a dense sequence of values, folded from
/// the left in the row's own entry order.
pub open spec fn dot<T: ValueType>(row: Seq<(usize, T)>, v: Seq<T>) -> T
    decreases row.len(),
{
    if row.len() == 0 {
        T::sp_zero()
    } else {
        dot(row.drop_last(), v).sp_add(row.last().1.sp_mul(v[row.last().0 as int]))
    }
}

/// With distinct columns, an entry at position `k` determines the lookup.
pub proof fn lemma_row_val_has<T: ValueType>(row: Seq<(usize, T)>, k: int)
    requires
        row_cols_distinct(row),
        0 <= k < row.len(),
    ensures
        row_has(row, row[k].0 as int),
        row_val(row, row[k].0 as int) == row[k].1,
        row_index_of(row, row[k].0 as int) == k,
{
    let j = row[k].0 as int;
    assert(row_has(row, j));
    let k2 = row_index_of(row, j);
    if k2 != k {
        assert(row[k2].0 == row[k].0);
        assert(false);
    }
}

/// Replacing the value at position `k` changes the lookup at that column
/// alone and preserves distinctness.
pub proof fn lemma_row_val_update<T: ValueType>(row: Seq<(usize, T)>, k: int, v: T)
    requires
        row_cols_distinct(row),
        0 <= k < row.len(),
    ensures
        row_cols_distinct(row.update(k, (row[k].0, v))),
        row_val(row.update(k, (row[k].0, v)), row[k].0 as int) == v,
        forall|j2: int| j2 != row[k].0 as int
            ==> row_val(row.update(k, (row[k].0, v)), j2) == row_val(row, j2),
        forall|j2: int| row_has(row.update(k, (row[k].0, v)), j2) == row_has(row, j2),
    decreases row.len(),
{
    let row2 = row.update(k, (row[k].0, v));
    assert(row_cols_distinct(row2));
    lemma_row_val_has(row2, k);
    assert forall|j2: int| row_has(row2, j2) == row_has(row, j2) by {
        if row_has(row2, j2) {
            let p = row_index_of(row2, j2);
            assert(row[p].0 as int == j2);
        }
        if row_has(row, j2) {
            let p = row_index_of(row, j2);
            assert(row2[p].0 as int == j2);
        }
    }
    assert forall|j2: int| j2 != row[k].0 as int
        implies row_val(row2, j2) == row_val(row, j2) by {
        if row_has(row, j2) {
            let p = row_index_of(row, j2);
            assert(row[p].0 as int == j2);
            assert(p != k);
            lemma_row_val_has(row, p);
            lemma_row_val_has(row2, p);
        }
    }
}

/// Inserting an absent key makes the lookup at that column the inserted
/// value, changes no other lookup, and preserves distinctness.
pub proof fn lemma_row_val_insert<T: ValueType>(row: Seq<(usize, T)>, k: int, j: usize, v: T)
    requires
        row_cols_distinct(row),
        !row_has(row, j as int),
        0 <= k <= row.len(),
    ensures
        row_cols_distinct(row.insert(k, (j, v))),
        row_val(row.insert(k, (j, v)), j as int) == v,
        forall|j2: int| j2 != j as int
            ==> row_val(row.insert(k, (j, v)), j2) == row_val(row, j2),
        forall|j2: int| row_has(row.insert(k, (j, v)), j2)
            == (j2 == j as int || row_has(row, j2)),
{
    let row2 = row.insert(k, (j, v));
    assert(row2.len() == row.len() + 1);
    // Where each old position lands after the insertion.
    assert forall|p: int| 0 <= p < row2.len() implies #[trigger] row2[p] == if p < k {
        row[p]
    } else if p == k {
        (j, v)
    } else {
        row[p - 1]
    } by {
    }
    assert forall|k1: int, k2: int| 0 <= k1 < k2 < row2.len()
        implies (#[trigger] row2[k1]).0 != (#[trigger] row2[k2]).0 by {
        if k1 == k {
            if row2[k2].0 == j {
                assert(row[k2 - 1].0 as int == j as int);
                assert(false);
            }
        } else if k2 == k {
            if row2[k1].0 == j {
                assert(row[k1].0 as int == j as int);
                assert(false);
            }
        }
    }
    lemma_row_val_has(row2, k);
    assert forall|j2: int| row_has(row2, j2) == (j2 == j as int || row_has(row, j2)) by {
        if row_has(row2, j2) && j2 != j as int {
            let p = row_index_of(row2, j2);
            if p < k {
                assert(row[p].0 as int == j2);
            } else {
                assert(row[p - 1].0 as int == j2);
            }
        }
        if row_has(row, j2) {
            let p = row_index_of(row, j2);
            if p < k {
                assert(row2[p].0 as int == j2);
            } else {
                assert(row2[p + 1].0 as int == j2);
            }
        }
    }
    assert forall|j2: int| j2 != j as int
        implies row_val(row2, j2) == row_val(row, j2) by {
        if row_has(row, j2) {
            let p = row_index_of(row, j2);
            lemma_row_val_has(row, p);
            if p < k {
                assert(row2[p].0 as int == j2);
                lemma_row_val_has(row2, p);
            } else {
                assert(row2[p + 1].0 as int == j2);
                lemma_row_val_has(row2, p + 1);
            }
        }
    }
}

/// Transfers membership across sequences with equal entry multisets.
proof fn lemma_contains_transfer<A>(s1: Seq<A>, s2: Seq<A>, a: A)
    requires
        s1.to_multiset() == s2.to_multiset(),
        s1.contains(a),
    ensures
        s2.contains(a),
{
    broadcast use vstd::seq_lib::group_to_multiset_ensures;

    assert(s1.to_multiset().count(a) > 0);
    assert(s2.to_multiset().count(a) > 0);
}

/// Sequences with equal entry multisets have equal length.
proof fn lemma_len_transfer<A>(s1: Seq<A>, s2: Seq<A>)
    requires
        s1.to_multiset() == s2.to_multiset(),
    ensures
        s1.len() == s2.len(),
{
    broadcast use vstd::seq_lib::group_to_multiset_ensures;

    assert(s1.to_multiset().len() == s1.len());
    assert(s2.to_multiset().len() == s2.len());
}

/// Two rows with distinct columns and the same entry multiset agree on
/// every lookup.
pub proof fn lemma_row_val_perm<T: ValueType>(s1: Seq<(usize, T)>, s2: Seq<(usize, T)>)
    requires
        row_cols_distinct(s1),
        row_cols_distinct(s2),
        s1.to_multiset() == s2.to_multiset(),
    ensures
        forall|j: int| row_has(s1, j) == row_has(s2, j),
        forall|j: int| row_val(s1, j) == row_val(s2, j),
{
    broadcast use vstd::seq_lib::group_to_multiset_ensures;

    assert forall|j: int| row_has(s1, j) == row_has(s2, j) by {
        if row_has(s1, j) {
            let p = row_index_of(s1, j);
            assert(s1.contains(s1[p]));
            lemma_contains_transfer(s1, s2, s1[p]);
            let q = choose|q: int| 0 <= q < s2.len() && s2[q] == s1[p];
            assert(s2[q].0 as int == j);
        }
        if row_has(s2, j) {
            let p = row_index_of(s2, j);
            assert(s2.contains(s2[p]));
            lemma_contains_transfer(s2, s1, s2[p]);
            let q = choose|q: int| 0 <= q < s1.len() && s1[q] == s2[p];
            assert(s1[q].0 as int == j);
        }
    }
    assert forall|j: int| row_val(s1, j) == row_val(s2, j) by {
        if row_has(s1, j) {
            let p = row_index_of(s1, j);
            assert(s1.contains(s1[p]));
            lemma_contains_transfer(s1, s2, s1[p]);
            let q = choose|q: int| 0 <= q < s2.len() && s2[q] == s1[p];
            assert(s2[q].0 as int == j);
            lemma_row_val_has(s1, p);
            lemma_row_val_has(s2, q);
        }
    }
}

/// Distinct columns are preserved under permutation of the entries.
pub proof fn lemma_distinct_perm<T>(s1: Seq<(usize, T)>, s2: Seq<(usize, T)>)
    requires
        row_cols_distinct(s2),
        s1.to_multiset() == s2.to_multiset(),
    ensures
        row_cols_distinct(s1),
{
    broadcast use vstd::seq_lib::group_to_multiset_ensures;

    assert forall|p1: int, p2: int| 0 <= p1 < p2 < s2.len()
        implies s2[p1] != s2[p2] by {
        assert(s2[p1].0 != s2[p2].0);
    }
    assert(s2.no_duplicates());
    s2.lemma_multiset_has_no_duplicates();
    assert forall|x: (usize, T)| s1.to_multiset().contains(x)
        implies s1.to_multiset().count(x) == 1 by {
        assert(s2.to_multiset().count(x) == s1.to_multiset().count(x));
    }
    s1.lemma_multiset_has_no_duplicates_conv();
    assert forall|k1: int, k2: int| 0 <= k1 < k2 < s1.len()
        implies (#[trigger] s1[k1]).0 != (#[trigger] s1[k2]).0 by {
        if s1[k1].0 == s1[k2].0 {
            assert(s1[k1] != s1[k2]);
            assert(s1.contains(s1[k1]));
            lemma_contains_transfer(s1, s2, s1[k1]);
            assert(s1.contains(s1[k2]));
            lemma_contains_transfer(s1, s2, s1[k2]);
            let p1 = choose|p: int| 0 <= p < s2.len() && s2[p] == s1[k1];
            let p2 = choose|p: int| 0 <= p < s2.len() && s2[p] == s1[k2];
            assert(p1 != p2);
            assert(s2[p1].0 != s2[p2].0);
            assert(false);
        }
    }
}

/// A sorted arrangement of a row with distinct columns is unique: two
/// sorted rows with the same entry multiset are equal.
pub proof fn lemma_sorted_unique<T>(s1: Seq<(usize, T)>, s2: Seq<(usize, T)>)
    requires
        row_cols_distinct(s1),
        row_cols_distinct(s2),
        row_sorted(s1),
        row_sorted(s2),
        s1.to_multiset() == s2.to_multiset(),
    ensures
        s1 == s2,
    decreases s1.len(),
{
    broadcast use vstd::seq_lib::group_to_multiset_ensures;

    lemma_len_transfer(s1, s2);
    if s1.len() == 0 {
        assert(s1 =~= s2);
    } else {
        let n = s1.len() as int;
        let e = s1[n - 1];
        assert(s1.contains(e));
        lemma_contains_transfer(s1, s2, e);
        let p = choose|p: int| 0 <= p < s2.len() && s2[p] == e;
        // The last entries agree: both carry the maximal column.
        assert(s2.contains(s2[n - 1]));
        lemma_contains_transfer(s2, s1, s2[n - 1]);
        let q = choose|q: int| 0 <= q < s1.len() && s1[q] == s2[n - 1];
        assert(s2[p].0 <= s2[n - 1].0);
        assert(s1[q].0 <= s1[n - 1].0);
        assert(s2[n - 1].0 == e.0);
        if p != n - 1 {
            assert(s2[p].0 != s2[n - 1].0);
            assert(false);
        }
        assert(s2[n - 1] == e);
        let t1 = s1.drop_last();
        let t2 = s2.drop_last();
        assert(t1 =~= s1.remove(n - 1));
        assert(t2 =~= s2.remove(n - 1));
        to_multiset_remove(s1, n - 1);
        to_multiset_remove(s2, n - 1);
        assert(t1.to_multiset() == t2.to_multiset());
        lemma_sorted_unique(t1, t2);
        assert forall|i: int| 0 <= i < n implies s1[i] == s2[i] by {
            if i < n - 1 {
                assert(s1[i] == t1[i]);
                assert(s2[i] == t2[i]);
            }
        }
        assert(s1 =~= s2);
    }
}

/// An entry of a permutation of a bounded row is itself bounded.
pub proof fn lemma_contains_col_bound<T>(
    s: Seq<(usize, T)>,
    oldrow: Seq<(usize, T)>,
    k: int,
    cols: int,
)
    requires
        s.to_multiset() == oldrow.to_multiset(),
        0 <= k < s.len(),
        forall|k2: int| 0 <= k2 < oldrow.len() ==> 0 <= (#[trigger] oldrow[k2]).0 < cols,
    ensures
        0 <= s[k].0 < cols,
{
    broadcast use vstd::seq_lib::group_to_multiset_ensures;

    assert(s.contains(s[k]));
    assert(s.to_multiset().count(s[k]) > 0);
    assert(oldrow.to_multiset().count(s[k]) > 0);
    assert(oldrow.contains(s[k]));
    let p = choose|p: int| 0 <= p < oldrow.len() && oldrow[p] == s[k];
    assert(oldrow[p] == s[k]);
}

/// Looks up column `j` in a materialized row with distinct columns.
pub fn find_pair<T: ValueType>(v: &Vec<(usize, T)>, j: usize) -> (r: Option<T>)
    requires
        row_cols_distinct(v@),
    ensures
        r == if row_has(v@, j as int) {
            Some(row_val(v@, j as int))
        } else {
            None::<T>
        },
{
    let n = v.len();
    let mut k: usize = 0;
    while k < n
        invariant
            row_cols_distinct(v@),
            n == v@.len(),
            0 <= k <= n,
            forall|k2: int| 0 <= k2 < k ==> (#[trigger] v@[k2]).0 != j,
        decreases n - k,
    {
        let (c, val) = v[k];
        if c == j {
            proof {
                lemma_row_val_has(v@, k as int);
            }
            return Some(val);
        }
        k = k + 1;
    }
    proof {
        if row_has(v@, j as int) {
            let p = row_index_of(v@, j as int);
            assert(v@[p].0 != j);
            assert(false);
        }
    }
    None
}

/// Sorts a materialized row by column, ascending, by inserting each entry
/// into an already-sorted output.  The result holds the same entries.
pub fn sort_pairs<T: ValueType>(v: &Vec<(usize, T)>) -> (r: Vec<(usize, T)>)
    ensures
        row_sorted(r@),
        r@.to_multiset() == v@.to_multiset(),
        r@.len() == v@.len(),
{
    broadcast use vstd::seq_lib::group_to_multiset_ensures;

    let n = v.len();
    let mut out: Vec<(usize, T)> = Vec::with_capacity(n);
    let mut i: usize = 0;
    while i < n
        invariant
            n == v@.len(),
            0 <= i <= n,
            row_sorted(out@),
            out@.len() == i,
            out@.to_multiset() == v@.subrange(0, i as int).to_multiset(),
        decreases n - i,
    {
        broadcast use vstd::seq_lib::group_to_multiset_ensures;

        let e = v[i];
        // Find the first position whose column exceeds the new column.
        let m = out.len();
        let mut pos: usize = 0;
        while pos < m
            invariant_except_break
                m == out@.len(),
                0 <= pos <= m,
                forall|k: int| 0 <= k < pos ==> (#[trigger] out@[k]).0 <= e.0,
            ensures
                m == out@.len(),
                0 <= pos <= m,
                forall|k: int| 0 <= k < pos ==> (#[trigger] out@[k]).0 <= e.0,
                pos < m ==> out@[pos as int].0 > e.0,
            decreases m - pos,
        {
            if out[pos].0 > e.0 {
                break;
            }
            pos = pos + 1;
        }
        let ghost out0 = out@;
        out.insert(pos, e);
        proof {
            to_multiset_insert(out0, pos as int, e);
            assert(v@.subrange(0, i as int + 1) =~= v@.subrange(0, i as int).push(e));
            assert forall|k1: int, k2: int| 0 <= k1 < k2 < out@.len()
                implies (#[trigger] out@[k1]).0 <= (#[trigger] out@[k2]).0 by {
                if k2 == pos as int {
                    assert(out@[k1] == out0[k1]);
                } else if k1 == pos as int {
                    assert(out@[k2] == out0[k2 - 1]);
                    if k2 - 1 >= pos as int {
                        assert(out0[k2 - 1].0 > e.0);
                    }
                } else if k1 < pos as int && k2 > pos as int {
                    assert(out@[k1] == out0[k1]);
                    assert(out@[k2] == out0[k2 - 1]);
                } else if k2 < pos as int {
                    assert(out@[k1] == out0[k1]);
                    assert(out@[k2] == out0[k2]);
                } else {
                    assert(out@[k1] == out0[k1 - 1]);
                    assert(out@[k2] == out0[k2 - 1]);
                }
            }
        }
        i = i + 1;
    }
    proof {
        assert(v@.subrange(0, n as int) =~= v@);
    }
    out
}

/// Sorting is idempotent on an already-sorted row: a sorted rearrangement
/// of a sorted row with distinct columns is that row itself, by value and
/// by position.
pub proof fn lemma_sort_idempotent<T>(oldr: Seq<(usize, T)>, newr: Seq<(usize, T)>)
    requires
        row_cols_distinct(oldr),
        row_sorted(oldr),
        row_sorted(newr),
        newr.to_multiset() == oldr.to_multiset(),
    ensures
        newr == oldr,
{
    lemma_distinct_perm(newr, oldr);
    lemma_sorted_unique(newr, oldr);
}

} // verus!
