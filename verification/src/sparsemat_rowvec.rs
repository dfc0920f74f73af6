//! A sparse matrix implementation where each row keeps its own dynamic
//! arrays of columns and values; no shared offset table.  Simpler
//! invariants, one allocation per new row.
//!
//! Appending to a row is amortized O(1); lookup is a linear scan of the
//! row.  Column iteration is not supported by this engine.

use vstd::prelude::*;
use crate::types::{IndexType, ValueType};
use crate::model::{
    row_has, row_val, row_index_of, row_cols_distinct, row_sorted, lemma_row_val_has,
    lemma_row_val_update, lemma_row_val_insert, sort_pairs, lemma_row_val_perm,
    lemma_distinct_perm, lemma_contains_col_bound,
};
use crate::sparsematrix::{
    SparseMatrix, sum_row_lens, lemma_sum_row_lens_snoc, lemma_sum_row_lens_update,
    lemma_row_len_le_cols,
};

verus! {

/// Row-of-arrays storage: one column array and one value array per row.
#[derive(Clone)]
pub struct SparseMatRowVec<T, I> {
    pub cols: usize,
    pub nnz: usize,
    pub columns: Vec<Vec<I>>,
    pub values: Vec<Vec<T>>,
}

impl<T, I> SparseMatRowVec<T, I>
    where T: ValueType, I: IndexType
{
    /// The row model built from one column array and one value array.
    pub open spec fn row_of(cs: Seq<I>, vs: Seq<T>) -> Seq<(usize, T)> {
        Seq::new(cs.len(), |k: int| (cs[k].as_int() as usize, vs[k]))
    }

    /// The entries of row `i`, in storage order.
    pub open spec fn srow(&self, i: int) -> Seq<(usize, T)> {
        if 0 <= i < self.columns@.len() {
            Self::row_of(self.columns@[i]@, self.values@[i]@)
        } else {
            Seq::empty()
        }
    }

    /// All row models, as one sequence.
    pub open spec fn srows(&self) -> Seq<Seq<(usize, T)>> {
        Seq::new(self.columns@.len(), |i: int| self.srow(i))
    }

    /// The engine invariant.
    pub open spec fn swf(&self) -> bool {
        &&& self.columns@.len() == self.values@.len()
        &&& self.columns@.len() <= I::max_spec()
        &&& self.cols as int <= I::max_spec()
        &&& self.nnz as int <= I::max_spec()
        &&& forall|i: int|
                0 <= i < self.columns@.len()
                    ==> (#[trigger] self.columns@[i])@.len() == self.values@[i]@.len()
        &&& forall|i: int, k: int|
                0 <= i < self.columns@.len() && 0 <= k < self.columns@[i]@.len()
                    ==> 0 <= (#[trigger] self.columns@[i]@[k]).as_int() < self.cols as int
        &&& forall|i: int| row_cols_distinct(#[trigger] self.srow(i))
        &&& self.nnz as int == sum_row_lens(self.srows())
    }

    /// Returns the offset of entry `(i, j)` within row `i`'s arrays, or
    /// the index type's sentinel if the entry does not exist.
    pub fn find_index(&self, i: usize, j: usize) -> (r: usize)
        requires
            self.swf(),
        ensures
            row_has(self.srow(i as int), j as int) ==> r as int == row_index_of(
                self.srow(i as int),
                j as int,
            ) && (r as int) < self.srow(i as int).len(),
            !row_has(self.srow(i as int), j as int) ==> r as int == I::max_spec(),
    {
        proof {
            I::lemma_max_fits();
        }
        let u = I::unset();
        let sentinel = u.as_usize();
        if i < self.columns.len() {
            let n = self.columns[i].len();
            let mut k: usize = 0;
            while k < n
                invariant
                    self.swf(),
                    i < self.columns@.len(),
                    n == self.columns@[i as int]@.len(),
                    0 <= k <= n,
                    forall|k2: int|
                        0 <= k2 < k ==> (#[trigger] self.columns@[i as int]@[k2]).as_int()
                            != j as int,
                decreases n - k,
            {
                let c = self.columns[i][k];
                if c.as_usize() == j {
                    proof {
                        assert(self.srow(i as int)[k as int].0 == j);
                        lemma_row_val_has(self.srow(i as int), k as int);
                    }
                    return k;
                }
                k = k + 1;
            }
            proof {
                if row_has(self.srow(i as int), j as int) {
                    let p = row_index_of(self.srow(i as int), j as int);
                    assert(self.columns@[i as int]@[p].as_int() == j as int);
                    assert(false);
                }
            }
            sentinel
        } else {
            sentinel
        }
    }

    /// Writes `val` as the value of cell `(i, j)`: replaces the entry in
    /// place when present, appends a new entry to the row otherwise.
    fn put(&mut self, i: usize, j: usize, val: T)
        requires
            old(self).swf(),
            (i as int) < I::max_spec(),
            (j as int) < I::max_spec(),
            (old(self).nnz as int) < I::max_spec(),
        ensures
            final(self).swf(),
            final(self).columns@.len() == if i as int + 1 > old(self).columns@.len() as int
                && !row_has(old(self).srow(i as int), j as int) {
                i as int + 1
            } else {
                old(self).columns@.len() as int
            },
            final(self).cols as int == if j as int + 1 > old(self).cols as int {
                j as int + 1
            } else {
                old(self).cols as int
            },
            final(self).nnz as int == old(self).nnz as int + if row_has(
                old(self).srow(i as int),
                j as int,
            ) {
                0int
            } else {
                1int
            },
            forall|r: int| r != i as int ==> final(self).srow(r) == old(self).srow(r),
            if row_has(old(self).srow(i as int), j as int) {
                final(self).srow(i as int) == old(self).srow(i as int).update(
                    row_index_of(old(self).srow(i as int), j as int),
                    (j, val),
                )
            } else {
                final(self).srow(i as int) == old(self).srow(i as int).push((j, val))
            },
            row_val(final(self).srow(i as int), j as int) == val,
            forall|j2: int| j2 != j as int
                ==> row_val(final(self).srow(i as int), j2) == row_val(
                    old(self).srow(i as int),
                    j2,
                ),
            forall|j2: int| row_has(final(self).srow(i as int), j2)
                == (j2 == j as int || row_has(old(self).srow(i as int), j2)),
    {
        proof {
            I::lemma_max_fits();
        }
        let u = I::unset();
        let sentinel = u.as_usize();
        let idx = self.find_index(i, j);
        let ghost oldrow = self.srow(i as int);
        proof {
            lemma_row_len_le_cols(oldrow, self.cols as int);
        }
        if idx != sentinel {
            proof {
                if !row_has(oldrow, j as int) {
                    assert(false);
                }
                assert(oldrow[idx as int].0 == j);
            }
            self.values[i][idx] = val;
            proof {
                let newrow = self.srow(i as int);
                assert(newrow =~= oldrow.update(idx as int, (j, val)));
                lemma_row_val_update(oldrow, idx as int, val);
                assert forall|r: int| r != i as int
                    implies final(self).srow(r) == old(self).srow(r) by {
                    if 0 <= r < self.columns@.len() {
                        assert(self.srow(r) =~= old(self).srow(r));
                    }
                }
                assert(self.srows() =~~= old(self).srows().update(i as int, newrow));
                lemma_sum_row_lens_update(old(self).srows(), i as int, newrow);
            }
        } else {
            proof {
                if row_has(oldrow, j as int) {
                    assert(false);
                }
            }
            let ghost grown = self.columns@.len();
            // Grow the row table so that row `i` exists.
            while self.columns.len() <= i
                invariant
                    self.swf(),
                    i < I::max_spec(),
                    self.cols == old(self).cols,
                    self.nnz == old(self).nnz,
                    old(self).columns@.len() <= self.columns@.len(),
                    self.columns@.len() == old(self).columns@.len()
                        || (old(self).columns@.len() <= i && self.columns@.len() <= i + 1),
                    forall|r: int| self.srow(r) == old(self).srow(r),
                decreases i + 1 - self.columns.len(),
            {
                let ghost pre = *self;
                self.columns.push(Vec::new());
                self.values.push(Vec::new());
                proof {
                    assert forall|r: int| self.srow(r) == pre.srow(r) by {
                        if 0 <= r < self.columns@.len() {
                            assert(self.srow(r) =~= pre.srow(r));
                        }
                    }
                    assert(self.srows() =~~= pre.srows().push(Seq::<(usize, T)>::empty()));
                    lemma_sum_row_lens_snoc(pre.srows(), Seq::<(usize, T)>::empty());
                    assert forall|i2: int| row_cols_distinct(#[trigger] self.srow(i2)) by {
                        assert(self.srow(i2) == pre.srow(i2));
                    }
                    assert forall|i2: int, k2: int|
                        0 <= i2 < self.columns@.len() && 0 <= k2 < self.columns@[i2]@.len()
                        implies 0 <= (#[trigger] self.columns@[i2]@[k2]).as_int()
                            < self.cols as int by {
                        if i2 < pre.columns@.len() {
                            assert(self.columns@[i2] == pre.columns@[i2]);
                        } else {
                            assert(self.columns@[i2]@.len() == 0);
                        }
                    }
                }
            }
            let ghost mid = *self;
            let c = I::from_usize(j);
            self.columns[i].push(c);
            self.values[i].push(val);
            if j >= self.cols {
                self.cols = j + 1;
            }
            self.nnz = self.nnz + 1;
            proof {
                let newrow = self.srow(i as int);
                assert(newrow =~= oldrow.push((j, val)));
                assert(oldrow.push((j, val)) =~= oldrow.insert(oldrow.len() as int, (j, val)));
                lemma_row_val_insert(oldrow, oldrow.len() as int, j, val);
                assert forall|r: int| r != i as int
                    implies final(self).srow(r) == old(self).srow(r) by {
                    if 0 <= r < self.columns@.len() {
                        assert(self.srow(r) =~= mid.srow(r));
                    }
                }
                assert(self.srows() =~~= mid.srows().update(i as int, newrow));
                lemma_sum_row_lens_update(mid.srows(), i as int, newrow);
                assert forall|i2: int| row_cols_distinct(#[trigger] self.srow(i2)) by {
                    if i2 == i as int {
                        assert(row_cols_distinct(newrow));
                    } else {
                        assert(self.srow(i2) == old(self).srow(i2));
                    }
                }
            }
        }
    }
}

impl<T, I> SparseMatrix for SparseMatRowVec<T, I>
    where T: ValueType, I: IndexType
{
    type Value = T;

    type Index = I;

    open spec fn inv(&self) -> bool {
        self.swf()
    }

    open spec fn spec_rows(&self) -> int {
        self.columns@.len() as int
    }

    open spec fn spec_cols(&self) -> int {
        self.cols as int
    }

    open spec fn spec_nnz(&self) -> int {
        self.nnz as int
    }

    open spec fn spec_row(&self, i: int) -> Seq<(usize, T)> {
        self.srow(i)
    }

    proof fn lemma_model(&self) {
        I::lemma_max_fits();
        assert(Seq::new(self.spec_rows() as nat, |i: int| self.spec_row(i)) =~= self.srows());
    }

    fn with_capacity(cap: usize) -> (r: Self) {
        proof {
            I::lemma_max_fits();
        }
        let r = Self {
            cols: 0,
            nnz: 0,
            columns: Vec::with_capacity(cap),
            values: Vec::with_capacity(cap),
        };
        proof {
            assert(r.srows() =~~= Seq::<Seq<(usize, T)>>::empty());
        }
        r
    }

    fn n_rows(&self) -> (r: usize) {
        self.columns.len()
    }

    fn n_cols(&self) -> (r: usize) {
        self.cols
    }

    fn n_non_zero_entries(&self) -> (r: usize) {
        self.nnz
    }

    fn get(&self, i: usize, j: usize) -> (r: T) {
        proof {
            I::lemma_max_fits();
        }
        let u = I::unset();
        let sentinel = u.as_usize();
        let idx = self.find_index(i, j);
        proof {
            lemma_row_len_le_cols(self.srow(i as int), self.cols as int);
        }
        if idx != sentinel {
            proof {
                if !row_has(self.srow(i as int), j as int) {
                    assert(false);
                }
                assert(idx < self.columns@[i as int]@.len());
            }
            self.values[i][idx]
        } else {
            proof {
                if row_has(self.srow(i as int), j as int) {
                    assert(false);
                }
            }
            T::zero()
        }
    }

    fn set(&mut self, i: usize, j: usize, val: T) {
        self.put(i, j, val);
        proof {
            let oldr = old(self).srow(i as int);
            if row_has(oldr, j as int) {
                let p = row_index_of(oldr, j as int);
                // An existing entry pins the row and column counts.
                assert(0 <= p < oldr.len());
                assert((i as int) < old(self).columns@.len() as int);
                assert(oldr[p].0 == j);
                assert((j as int) < old(self).cols as int);
            } else {
                assert(final(self).srow(i as int) == oldr.push((j, val)));
                assert(oldr.push((j, val)) =~= oldr.insert(oldr.len() as int, (j, val)));
            }
        }
    }

    fn add_to(&mut self, i: usize, j: usize, val: T) {
        let cur = self.get(i, j);
        self.put(i, j, cur.add_val(val));
        proof {
            let oldr = old(self).srow(i as int);
            if row_has(oldr, j as int) {
                let p = row_index_of(oldr, j as int);
                assert(0 <= p < oldr.len());
                assert((i as int) < old(self).columns@.len() as int);
                assert(oldr[p].0 == j);
                assert((j as int) < old(self).cols as int);
            } else {
                assert(final(self).srow(i as int) == oldr.push((j, cur.sp_add(val))));
                assert(oldr.push((j, cur.sp_add(val))) =~= oldr.insert(
                    oldr.len() as int,
                    (j, cur.sp_add(val)),
                ));
            }
        }
    }

    fn sub_from(&mut self, i: usize, j: usize, val: T) {
        let cur = self.get(i, j);
        self.put(i, j, cur.sub_val(val));
        proof {
            let oldr = old(self).srow(i as int);
            if row_has(oldr, j as int) {
                let p = row_index_of(oldr, j as int);
                assert(0 <= p < oldr.len());
                assert((i as int) < old(self).columns@.len() as int);
                assert(oldr[p].0 == j);
                assert((j as int) < old(self).cols as int);
            } else {
                assert(final(self).srow(i as int) == oldr.push((j, cur.sp_sub(val))));
                assert(oldr.push((j, cur.sp_sub(val))) =~= oldr.insert(
                    oldr.len() as int,
                    (j, cur.sp_sub(val)),
                ));
            }
        }
    }

    fn scale(&mut self, factor: T) {
        let n = self.columns.len();
        let mut i: usize = 0;
        while i < n
            invariant
                self.swf(),
                n == self.columns@.len(),
                self.columns@ == old(self).columns@,
                self.cols == old(self).cols,
                self.nnz == old(self).nnz,
                0 <= i <= n,
                forall|r: int| 0 <= r < i ==> crate::model::row_scaled(
                    old(self).srow(r),
                    #[trigger] self.srow(r),
                    factor,
                ),
                forall|r: int| i <= r ==> self.srow(r) == old(self).srow(r),
            decreases n - i,
        {
            let m = self.values[i].len();
            let mut k: usize = 0;
            while k < m
                invariant
                    self.swf(),
                    n == self.columns@.len(),
                    self.columns@ == old(self).columns@,
                    self.cols == old(self).cols,
                    self.nnz == old(self).nnz,
                    0 <= i < n,
                    m == self.values@[i as int]@.len(),
                    0 <= k <= m,
                    forall|r: int| 0 <= r < i ==> crate::model::row_scaled(
                        old(self).srow(r),
                        #[trigger] self.srow(r),
                        factor,
                    ),
                    forall|r: int| (i as int) < r ==> self.srow(r) == old(self).srow(r),
                    self.srow(i as int).len() == old(self).srow(i as int).len(),
                    forall|k2: int| 0 <= k2 < k
                        ==> #[trigger] self.srow(i as int)[k2] == (
                            old(self).srow(i as int)[k2].0,
                            old(self).srow(i as int)[k2].1.sp_mul(factor),
                        ),
                    forall|k2: int| k <= k2 < m
                        ==> #[trigger] self.srow(i as int)[k2] == old(self).srow(i as int)[k2],
                decreases m - k,
            {
                let ghost pre = *self;
                let cur = self.values[i][k];
                self.values[i][k] = cur.mul_val(factor);
                proof {
                    assert(self.values@[i as int]@ =~= pre.values@[i as int]@.update(
                        k as int,
                        cur.sp_mul(factor),
                    ));
                    assert(self.srow(i as int).len() == pre.srow(i as int).len());
                    assert(self.srow(i as int)[k as int] == (
                        pre.srow(i as int)[k as int].0,
                        pre.srow(i as int)[k as int].1.sp_mul(factor),
                    ));
                    assert(forall|k2: int| 0 <= k2 < self.srow(i as int).len() && k2 != k as int
                        ==> #[trigger] self.srow(i as int)[k2] == pre.srow(i as int)[k2]);
                    assert forall|r: int| r != i as int
                        implies self.srow(r) == pre.srow(r) by {
                        if 0 <= r < self.columns@.len() {
                            assert(self.srow(r) =~= pre.srow(r));
                        }
                    }
                    assert(self.srows() =~~= pre.srows().update(i as int, self.srow(i as int)));
                    lemma_sum_row_lens_update(pre.srows(), i as int, self.srow(i as int));
                    assert forall|i2: int| row_cols_distinct(#[trigger] self.srow(i2)) by {
                        if i2 == i as int {
                            assert(forall|k2: int| 0 <= k2 < self.srow(i2).len()
                                ==> (#[trigger] self.srow(i2)[k2]).0 == pre.srow(i2)[k2].0);
                            assert(row_cols_distinct(pre.srow(i2)));
                        } else {
                            assert(self.srow(i2) == pre.srow(i2));
                        }
                    }
                    assert forall|r: int| 0 <= r < i implies crate::model::row_scaled(
                        old(self).srow(r),
                        #[trigger] self.srow(r),
                        factor,
                    ) by {
                        assert(self.srow(r) == pre.srow(r));
                    }
                }
                k = k + 1;
            }
            i = i + 1;
        }
        proof {
            assert forall|r: int| crate::model::row_scaled(
                old(self).srow(r),
                #[trigger] final(self).srow(r),
                factor,
            ) by {
                if !(0 <= r < n as int) {
                    assert(final(self).srow(r) == old(self).srow(r));
                    assert(final(self).srow(r) == Seq::<(usize, T)>::empty());
                }
            }
        }
    }

    fn row_entries(&self, i: usize) -> (r: Vec<(usize, T)>) {
        let mut out: Vec<(usize, T)> = Vec::new();
        if i < self.columns.len() {
            let m = self.columns[i].len();
            let mut k: usize = 0;
            while k < m
                invariant
                    self.swf(),
                    i < self.columns@.len(),
                    m == self.columns@[i as int]@.len(),
                    0 <= k <= m,
                    out@.len() == k,
                    forall|k2: int| 0 <= k2 < k ==> out@[k2] == self.srow(i as int)[k2],
                decreases m - k,
            {
                proof {
                    I::lemma_max_fits();
                }
                let c = self.columns[i][k];
                let v = self.values[i][k];
                out.push((c.as_usize(), v));
                k = k + 1;
            }
            proof {
                assert(out@ =~= self.srow(i as int));
            }
        } else {
            proof {
                assert(out@ =~= self.srow(i as int));
            }
        }
        out
    }
}

impl<T, I> crate::sparsematrix::Sortable for SparseMatRowVec<T, I>
    where T: ValueType, I: IndexType
{
    /// Sorts the entries of row `i` by column, ascending, via
    /// collect-sort-writeback.
    fn sort_row(&mut self, i: usize) {
        proof {
            I::lemma_max_fits();
        }
        if i >= self.columns.len() {
            proof {
                assert(final(self).srow(i as int) == old(self).srow(i as int));
            }
            return;
        }
        let entries = self.row_entries(i);
        let sorted = sort_pairs(&entries);
        let ghost oldrow = self.srow(i as int);
        proof {
            lemma_distinct_perm(sorted@, oldrow);
        }
        let m = sorted.len();
        let mut new_cols: Vec<I> = Vec::with_capacity(m);
        let mut new_vals: Vec<T> = Vec::with_capacity(m);
        let mut k: usize = 0;
        while k < m
            invariant
                self.swf(),
                i < self.columns@.len(),
                m == sorted@.len(),
                oldrow == self.srow(i as int),
                sorted@.to_multiset() == oldrow.to_multiset(),
                forall|k2: int| 0 <= k2 < oldrow.len()
                    ==> 0 <= (#[trigger] oldrow[k2]).0 < self.cols as int,
                0 <= k <= m,
                new_cols@.len() == k,
                new_vals@.len() == k,
                forall|k2: int| 0 <= k2 < k
                    ==> (#[trigger] new_cols@[k2]).as_int() == sorted@[k2].0 as int,
                forall|k2: int| 0 <= k2 < k ==> #[trigger] new_vals@[k2] == sorted@[k2].1,
            decreases m - k,
        {
            let (c, v) = sorted[k];
            proof {
                lemma_contains_col_bound(sorted@, oldrow, k as int, self.cols as int);
                I::lemma_max_fits();
            }
            let ci = I::from_usize(c);
            new_cols.push(ci);
            new_vals.push(v);
            k = k + 1;
        }
        proof {
            // The old row's columns are bounded, as the invariant needs.
            assert forall|k2: int| 0 <= k2 < oldrow.len()
                implies 0 <= (#[trigger] oldrow[k2]).0 < self.cols as int by {
                assert(oldrow[k2].0 as int == self.columns@[i as int]@[k2].as_int());
            }
        }
        let ghost pre = *self;
        self.columns[i] = new_cols;
        self.values[i] = new_vals;
        proof {
            broadcast use vstd::seq_lib::group_to_multiset_ensures;

            let newrow = self.srow(i as int);
            assert(newrow =~= sorted@);
            assert forall|r: int| r != i as int
                implies self.srow(r) == pre.srow(r) by {
                if 0 <= r < self.columns@.len() {
                    assert(self.srow(r) =~= pre.srow(r));
                }
            }
            assert(self.srows() =~~= pre.srows().update(i as int, newrow));
            lemma_sum_row_lens_update(pre.srows(), i as int, newrow);
            assert(sorted@.to_multiset().len() == oldrow.to_multiset().len());
            assert(sorted@.len() == oldrow.len());
            assert forall|i2: int| row_cols_distinct(#[trigger] self.srow(i2)) by {
                if i2 != i as int {
                    assert(self.srow(i2) == pre.srow(i2));
                }
            }
            assert forall|i2: int, k2: int|
                0 <= i2 < self.columns@.len() && 0 <= k2 < self.columns@[i2]@.len()
                implies 0 <= (#[trigger] self.columns@[i2]@[k2]).as_int()
                    < self.cols as int by {
                if i2 != i as int {
                    assert(self.columns@[i2] == pre.columns@[i2]);
                } else {
                    lemma_contains_col_bound(sorted@, oldrow, k2, self.cols as int);
                }
            }
            lemma_row_val_perm(sorted@, oldrow);
        }
    }
}

impl<T, I> SparseMatRowVec<T, I>
    where T: ValueType, I: IndexType
{
    /// Returns an iterator over every stored entry as a
    /// `(row, column, value)` triple, row-major, each row in insertion
    /// order.
    pub fn iter(&self) -> (r: crate::sparsematrix::EntriesIter<T>)
        requires
            self.swf(),
        ensures
            r.remaining() == crate::sparsematrix::spec_triples(self, self.columns@.len() as int),
    {
        let data = crate::sparsematrix::entries_vec(self);
        let r = crate::sparsematrix::EntriesIter { data, pos: 0 };
        proof {
            assert(r.remaining() =~= r.data@);
        }
        r
    }
}

} // verus!
