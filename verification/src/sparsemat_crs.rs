//! Compressed-row storage: three parallel dense arrays — `values`,
//! `columns`, and a per-row offset table of length rows + 1, monotonically
//! non-decreasing — such that row `i`'s entries occupy the half-open
//! window `values[offset_rows[i] .. offset_rows[i + 1])`.
//!
//! Row iteration is contiguous; inserting a fresh entry is expensive (an
//! array insertion plus an offset shift), so this format suits read-mostly
//! use.  It is usually built in one cheap pass from an incremental matrix.

use vstd::prelude::*;
use crate::types::{IndexType, ValueType};
use crate::rowindexlist::IndexList;
use crate::model::{
    row_has, row_val, row_index_of, row_cols_distinct, row_sorted, lemma_row_val_has,
    lemma_row_val_update, lemma_row_val_insert, sort_pairs, lemma_row_val_perm,
    lemma_distinct_perm, lemma_contains_col_bound,
};
use crate::sparsematrix::{
    SparseMatrix, SparseMatError, sum_row_lens, lemma_row_len_le_cols,
    lemma_sum_row_lens_prefix_le,
};
use crate::sparsemat_indexlist::SparseMatIndexList;

verus! {

/// Compressed-row sparse matrix storage.
#[derive(Clone)]
pub struct SparseMatCRS<T, I> {
    pub nrows: usize,
    pub cols: usize,
    pub values: Vec<T>,
    pub columns: Vec<I>,
    pub offset_rows: Vec<I>,
    pub rows: Vec<I>,
    pub indexlist_col: IndexList<I>,
    pub col_assembled: bool,
}

impl<T, I> SparseMatCRS<T, I>
    where T: ValueType, I: IndexType
{
    /// The offset of row `k`'s window.
    pub open spec fn off(&self, k: int) -> int {
        self.offset_rows@[k].as_int()
    }

    /// The entries of row `i`: the window of the flat arrays between
    /// offsets `i` and `i + 1`.
    pub open spec fn srow(&self, i: int) -> Seq<(usize, T)> {
        if 0 <= i < self.nrows {
            Seq::new(
                (self.off(i + 1) - self.off(i)) as nat,
                |k: int| (
                    self.columns@[self.off(i) + k].as_int() as usize,
                    self.values@[self.off(i) + k],
                ),
            )
        } else {
            Seq::empty()
        }
    }

    /// The entries of column `j` in the assembled column view.
    pub open spec fn scol(&self, j: int) -> Seq<(usize, T)> {
        self.indexlist_col.chain(j).map_values(
            |s: int| (self.rows@[s].as_int() as usize, self.values@[s]),
        )
    }

    /// The owning row of slot `s`: the row whose window contains it.
    pub open spec fn slot_row_ok(&self) -> bool {
        forall|i: int, s: int|
            0 <= i < self.nrows && #[trigger] self.off(i) <= s < self.off(i + 1)
                ==> (#[trigger] self.rows@[s]).as_int() == i
    }

    /// Consistency of the column view with the stored entries.
    pub open spec fn col_wf(&self) -> bool {
        &&& self.rows@.len() == self.columns@.len()
        &&& self.indexlist_col.wf()
        &&& self.indexlist_col.spec_n_entries() == self.columns@.len()
        &&& self.indexlist_col.spec_n_rows() <= self.cols as int
        &&& self.slot_row_ok()
        &&& forall|j: int, k: int|
                0 <= k < self.indexlist_col.chain(j).len()
                    ==> (#[trigger] self.columns@[self.indexlist_col.chain(j)[k]]).as_int() == j
        &&& forall|s: int|
                0 <= s < self.columns@.len()
                    ==> #[trigger] self.indexlist_col.chain(
                        self.columns@[s].as_int(),
                    ).contains(s)
    }

    /// The engine invariant.
    pub open spec fn swf(&self) -> bool {
        &&& self.values@.len() == self.columns@.len()
        &&& self.nrows as int <= I::max_spec()
        &&& self.cols as int <= I::max_spec()
        &&& self.columns@.len() as int <= I::max_spec()
        &&& self.offset_rows@.len() == self.nrows + 1
        &&& self.off(0) == 0
        &&& self.off(self.nrows as int) == self.columns@.len()
        &&& forall|k: int| 0 <= k <= self.nrows ==> 0 <= #[trigger] self.off(k)
                <= self.columns@.len()
        &&& forall|k: int| 0 <= k < self.nrows ==> #[trigger] self.off(k) <= self.off(k + 1)
        &&& forall|s: int|
                0 <= s < self.columns@.len()
                    ==> 0 <= (#[trigger] self.columns@[s]).as_int() < self.cols as int
        &&& forall|i: int| row_cols_distinct(#[trigger] self.srow(i))
        &&& self.col_assembled ==> self.col_wf()
    }

    /// Offsets are monotone over any pair of row positions.
    pub proof fn lemma_off_mono(&self, a: int, b: int)
        requires
            self.offset_rows@.len() == self.nrows + 1,
            forall|k: int| 0 <= k < self.nrows ==> #[trigger] self.off(k) <= self.off(k + 1),
            0 <= a <= b <= self.nrows,
        ensures
            self.off(a) <= self.off(b),
        decreases b - a,
    {
        if a < b {
            self.lemma_off_mono(a, b - 1);
        }
    }

    /// Row windows of distinct rows are disjoint.
    pub proof fn lemma_window_disjoint(&self, r1: int, r2: int)
        requires
            self.offset_rows@.len() == self.nrows + 1,
            forall|k: int| 0 <= k < self.nrows ==> #[trigger] self.off(k) <= self.off(k + 1),
            0 <= r1 < r2 < self.nrows,
        ensures
            self.off(r1 + 1) <= self.off(r2),
    {
        self.lemma_off_mono(r1 + 1, r2);
    }
}

impl<T, I> SparseMatCRS<T, I>
    where T: ValueType, I: IndexType
{
    /// Returns the offset of entry `(i, j)` in the flat arrays, or the
    /// index type's sentinel if the entry does not exist.
    pub fn find_index(&self, i: usize, j: usize) -> (r: usize)
        requires
            self.swf(),
        ensures
            row_has(self.srow(i as int), j as int) ==> {
                let p = row_index_of(self.srow(i as int), j as int);
                &&& r as int == self.off(i as int) + p
                &&& 0 <= r < self.columns@.len()
                &&& self.columns@[r as int].as_int() == j as int
                &&& self.values@[r as int] == row_val(self.srow(i as int), j as int)
            },
            !row_has(self.srow(i as int), j as int) ==> r as int == I::max_spec(),
    {
        proof {
            I::lemma_max_fits();
        }
        let u = I::unset();
        let sentinel = u.as_usize();
        if i < self.nrows {
            proof {
                assert(self.off(i as int) <= self.off(i as int + 1));
                self.lemma_off_mono(i as int + 1, self.nrows as int);
            }
            let start = self.offset_rows[i].as_usize();
            let end = self.offset_rows[i + 1].as_usize();
            let mut s: usize = start;
            while s < end
                invariant
                    self.swf(),
                    i < self.nrows,
                    start as int == self.off(i as int),
                    end as int == self.off(i as int + 1),
                    start <= s <= end,
                    forall|k2: int| 0 <= k2 < s - start
                        ==> (#[trigger] self.srow(i as int)[k2]).0 != j,
                decreases end - s,
            {
                let c = self.columns[s];
                if c.as_usize() == j {
                    proof {
                        assert(self.srow(i as int)[s - start].0 == j);
                        lemma_row_val_has(self.srow(i as int), s - start);
                    }
                    return s;
                }
                proof {
                    assert(self.srow(i as int)[s - start].0 != j);
                }
                s = s + 1;
            }
            proof {
                if row_has(self.srow(i as int), j as int) {
                    let p = row_index_of(self.srow(i as int), j as int);
                    assert(self.srow(i as int)[p].0 as int == j as int);
                    assert(false);
                }
            }
            sentinel
        } else {
            sentinel
        }
    }

    /// Writes `val` as the value of cell `(i, j)`: replaces the entry in
    /// place when present; otherwise inserts it at the head of row `i`'s
    /// window, shifting all later entries and bumping all later offsets.
    #[verifier::rlimit(100)]
    fn put(&mut self, i: usize, j: usize, val: T)
        requires
            old(self).swf(),
            (i as int) < I::max_spec(),
            (j as int) < I::max_spec(),
            (old(self).columns@.len() as int) < I::max_spec(),
        ensures
            final(self).swf(),
            final(self).nrows as int == if i as int + 1 > old(self).nrows as int && !row_has(
                old(self).srow(i as int),
                j as int,
            ) {
                i as int + 1
            } else {
                old(self).nrows as int
            },
            final(self).cols as int == if j as int + 1 > old(self).cols as int {
                j as int + 1
            } else {
                old(self).cols as int
            },
            final(self).columns@.len() as int == old(self).columns@.len() as int + if row_has(
                old(self).srow(i as int),
                j as int,
            ) {
                0int
            } else {
                1int
            },
            forall|r: int| r != i as int ==> final(self).srow(r) == old(self).srow(r),
            if row_has(old(self).srow(i as int), j as int) {
                final(self).srow(i as int) == old(self).srow(i as int).update(
                    row_index_of(old(self).srow(i as int), j as int),
                    (j, val),
                )
            } else {
                final(self).srow(i as int) == old(self).srow(i as int).insert(0, (j, val))
            },
            row_val(final(self).srow(i as int), j as int) == val,
            forall|j2: int| j2 != j as int
                ==> row_val(final(self).srow(i as int), j2) == row_val(
                    old(self).srow(i as int),
                    j2,
                ),
            forall|j2: int| row_has(final(self).srow(i as int), j2)
                == (j2 == j as int || row_has(old(self).srow(i as int), j2)),
            final(self).col_assembled == (old(self).col_assembled && row_has(
                old(self).srow(i as int),
                j as int,
            )),
    {
        proof {
            I::lemma_max_fits();
            lemma_row_len_le_cols(self.srow(i as int), self.cols as int);
        }
        let u = I::unset();
        let sentinel = u.as_usize();
        let idx = self.find_index(i, j);
        let ghost oldrow = self.srow(i as int);
        if idx != sentinel {
            proof {
                if !row_has(oldrow, j as int) {
                    assert(false);
                }
            }
            self.values[idx] = val;
            proof {
                let p = row_index_of(oldrow, j as int);
                let newrow = self.srow(i as int);
                assert forall|r: int| r != i as int
                    implies final(self).srow(r) == old(self).srow(r) by {
                    if 0 <= r < self.nrows {
                        assert forall|k: int| 0 <= k < self.srow(r).len()
                            implies #[trigger] self.srow(r)[k] == old(self).srow(r)[k] by {
                            // The written slot lies in row i's window, which
                            // is disjoint from row r's window.
                            if r < i as int {
                                old(self).lemma_window_disjoint(r, i as int);
                            } else {
                                old(self).lemma_window_disjoint(i as int, r);
                            }
                        }
                        assert(self.srow(r) =~= old(self).srow(r));
                    }
                }
                assert(newrow =~= oldrow.update(p, (j, val)));
                lemma_row_val_update(oldrow, p, val);
                assert forall|i2: int| row_cols_distinct(#[trigger] self.srow(i2)) by {
                    if i2 != i as int {
                        assert(self.srow(i2) == old(self).srow(i2));
                    }
                }
                lemma_col_wf_preserved(*old(self), *self);
                assert(self.swf());
            }
        } else {
            proof {
                if row_has(oldrow, j as int) {
                    assert(false);
                }
            }
            self.insert_new(i, j, val);
            proof {
                lemma_row_val_insert(oldrow, 0, j, val);
            }
        }
    }

    /// Inserts an absent entry `(i, j)` at the head of row `i`'s window,
    /// growing the offset table when the row does not exist yet, shifting
    /// the flat arrays, and bumping the offsets of all later rows.  The
    /// column view is cleared.
    #[verifier::rlimit(100)]
    fn insert_new(&mut self, i: usize, j: usize, val: T)
        requires
            old(self).swf(),
            (i as int) < I::max_spec(),
            (j as int) < I::max_spec(),
            (old(self).columns@.len() as int) < I::max_spec(),
            !row_has(old(self).srow(i as int), j as int),
        ensures
            final(self).swf(),
            final(self).nrows as int == if i as int + 1 > old(self).nrows as int {
                i as int + 1
            } else {
                old(self).nrows as int
            },
            final(self).cols as int == if j as int + 1 > old(self).cols as int {
                j as int + 1
            } else {
                old(self).cols as int
            },
            final(self).columns@.len() == old(self).columns@.len() + 1,
            forall|r: int| r != i as int ==> final(self).srow(r) == old(self).srow(r),
            final(self).srow(i as int) == old(self).srow(i as int).insert(0, (j, val)),
            !final(self).col_assembled,
    {
        proof {
            I::lemma_max_fits();
        }
        let ghost oldrow = self.srow(i as int);
        self.col_assembled = false;
        proof {
            lemma_clear_flag_wf(*old(self), *self);
        }
        self.grow_rows(i);
        let ghost mid = *self;
        let index = self.offset_rows[i].as_usize();
        proof {
            mid.lemma_off_mono(i as int, mid.nrows as int);
        }
        let cj = I::from_usize(j);
        self.columns.insert(index, cj);
        self.values.insert(index, val);
        if j >= self.cols {
            self.cols = j + 1;
        }
        self.bump_offsets(i, Ghost(mid), Ghost(index as int), Ghost(cj));
        proof {
            lemma_insert_effect(mid, *self, i as int, j, val, index as int, cj);
            lemma_row_val_insert(oldrow, 0, j, val);
        }
    }

    /// Grows the offset table so that row `i` exists, appending empty
    /// rows at the end.
    fn grow_rows(&mut self, i: usize)
        requires
            old(self).swf(),
            !old(self).col_assembled,
            (i as int) < I::max_spec(),
        ensures
            final(self).swf(),
            !final(self).col_assembled,
            final(self).columns@ == old(self).columns@,
            final(self).values@ == old(self).values@,
            final(self).cols == old(self).cols,
            final(self).nrows as int == if i as int + 1 > old(self).nrows as int {
                i as int + 1
            } else {
                old(self).nrows as int
            },
            (i as int) < final(self).nrows as int,
            forall|r: int| final(self).srow(r) == old(self).srow(r),
    {
        proof {
            I::lemma_max_fits();
        }
        while self.nrows <= i
            invariant
                self.swf(),
                !self.col_assembled,
                (i as int) < I::max_spec(),
                I::max_spec() <= usize::MAX as int,
                self.columns@ == old(self).columns@,
                self.values@ == old(self).values@,
                self.cols == old(self).cols,
                old(self).nrows <= self.nrows,
                self.nrows == old(self).nrows || (old(self).nrows <= i && self.nrows <= i + 1),
                forall|r: int| self.srow(r) == old(self).srow(r),
            decreases i + 1 - self.nrows,
        {
            let ghost pre = *self;
            let total = I::from_usize(self.columns.len());
            self.offset_rows.push(total);
            self.nrows = self.nrows + 1;
            proof {
                assert forall|k: int| 0 <= k <= self.nrows
                    implies 0 <= #[trigger] self.off(k) <= self.columns@.len() by {
                    if k < pre.offset_rows@.len() {
                        assert(self.off(k) == pre.off(k));
                    } else {
                        assert(self.off(k) == total.as_int());
                    }
                }
                assert forall|r: int| self.srow(r) == pre.srow(r) by {
                    if 0 <= r < pre.nrows {
                        assert(self.off(r) == pre.off(r));
                        assert(self.off(r + 1) == pre.off(r + 1));
                        assert(self.srow(r) =~= pre.srow(r));
                    } else if r == pre.nrows as int {
                        assert(self.offset_rows@[r] == pre.offset_rows@[r]);
                        assert(pre.off(r) == pre.columns@.len());
                        assert(self.off(r) == self.columns@.len());
                        assert(self.off(r + 1) == total.as_int());
                        assert(self.srow(r).len() == 0);
                        assert(self.srow(r) =~= pre.srow(r));
                    }
                }
                assert forall|i2: int| row_cols_distinct(#[trigger] self.srow(i2)) by {
                    assert(self.srow(i2) == pre.srow(i2));
                }
                assert forall|k: int| 0 <= k < self.nrows
                    implies #[trigger] self.off(k) <= self.off(k + 1) by {
                    if k < pre.nrows {
                        assert(self.off(k) == pre.off(k));
                        assert(self.off(k + 1) == pre.off(k + 1));
                        assert(pre.off(k) <= pre.off(k + 1));
                    } else {
                        assert(self.off(k) == pre.off(k));
                        assert(pre.off(k) == pre.columns@.len());
                        assert(self.off(k + 1) == total.as_int());
                    }
                }
                assert(self.swf());
            }
        }
    }

    /// Adds one to the offsets of rows `i + 1 ..= nrows`, after one entry
    /// was inserted at the head of row `i`'s window.
    fn bump_offsets(&mut self, i: usize, Ghost(mid): Ghost<Self>, Ghost(index): Ghost<int>, Ghost(cj): Ghost<I>)
        requires
            mid.swf(),
            !mid.col_assembled,
            (i as int) < mid.nrows,
            (mid.columns@.len() as int) < I::max_spec(),
            index == mid.off(i as int),
            cj.as_int() < old(self).cols,
            old(self).nrows == mid.nrows,
            old(self).offset_rows@ == mid.offset_rows@,
            old(self).columns@ == mid.columns@.insert(index, cj),
            old(self).values@.len() == mid.values@.len() + 1,
            old(self).cols >= mid.cols,
            old(self).cols as int <= I::max_spec(),
            old(self).values@.len() == old(self).columns@.len(),
            !old(self).col_assembled,
            forall|s: int| 0 <= s < old(self).columns@.len()
                ==> 0 <= (#[trigger] old(self).columns@[s]).as_int() < old(self).cols as int,
        ensures
            final(self).nrows == old(self).nrows,
            final(self).cols == old(self).cols,
            final(self).columns@ == old(self).columns@,
            final(self).values@ == old(self).values@,
            !final(self).col_assembled,
            final(self).offset_rows@.len() == old(self).offset_rows@.len(),
            forall|k2: int| 0 <= k2 <= i ==> #[trigger] final(self).off(k2) == mid.off(k2),
            forall|k2: int| (i as int) < k2 <= final(self).nrows
                ==> #[trigger] final(self).off(k2) == mid.off(k2) + 1,
    {
        proof {
            I::lemma_max_fits();
        }
        let nr = self.nrows;
        proof {
            assert((i as int) + 1 <= nr as int);
        }
        let mut k: usize = i + 1;
        while k <= nr
            invariant_except_break
                i < k <= nr,
                nr == self.nrows,
                mid.swf(),
                i < mid.nrows,
                nr == mid.nrows,
                (mid.columns@.len() as int) < I::max_spec(),
                I::max_spec() <= usize::MAX as int,
                self.nrows == mid.nrows,
                self.cols == old(self).cols,
                self.columns@ == old(self).columns@,
                self.values@ == old(self).values@,
                !self.col_assembled,
                self.offset_rows@.len() == mid.offset_rows@.len(),
                forall|k2: int| 0 <= k2 <= i ==> #[trigger] self.off(k2) == mid.off(k2),
                forall|k2: int| (i as int) < k2 < k
                    ==> #[trigger] self.off(k2) == mid.off(k2) + 1,
                forall|k2: int| k <= k2 <= nr ==> #[trigger] self.off(k2) == mid.off(k2),
            ensures
                nr == self.nrows,
                self.cols == old(self).cols,
                self.columns@ == old(self).columns@,
                self.values@ == old(self).values@,
                !self.col_assembled,
                self.offset_rows@.len() == mid.offset_rows@.len(),
                forall|k2: int| 0 <= k2 <= i ==> #[trigger] self.off(k2) == mid.off(k2),
                forall|k2: int| (i as int) < k2 <= nr
                    ==> #[trigger] self.off(k2) == mid.off(k2) + 1,
            decreases nr - k,
        {
            let ghost prev = *self;
            proof {
                assert(prev.off(k as int) == mid.off(k as int));
                assert(mid.off(k as int) <= mid.columns@.len());
            }
            let cur = self.offset_rows[k].as_usize();
            let bumped = I::from_usize(cur + 1);
            self.offset_rows[k] = bumped;
            proof {
                assert forall|k2: int| 0 <= k2 <= i
                    implies #[trigger] self.off(k2) == mid.off(k2) by {
                    assert(self.offset_rows@[k2] == prev.offset_rows@[k2]);
                    assert(prev.off(k2) == mid.off(k2));
                }
                assert forall|k2: int| (i as int) < k2 < k + 1
                    implies #[trigger] self.off(k2) == mid.off(k2) + 1 by {
                    if k2 != k as int {
                        assert(self.offset_rows@[k2] == prev.offset_rows@[k2]);
                        assert(prev.off(k2) == mid.off(k2) + 1);
                    } else {
                        assert(prev.off(k2) == mid.off(k2));
                    }
                }
                assert forall|k2: int| k + 1 <= k2 <= nr
                    implies #[trigger] self.off(k2) == mid.off(k2) by {
                    assert(self.offset_rows@[k2] == prev.offset_rows@[k2]);
                    assert(prev.off(k2) == mid.off(k2));
                }
            }
            if k == nr {
                break;
            }
            k = k + 1;
        }
    }
}

/// Effect of inserting one entry at the head of row `i`'s window: the
/// other rows keep their entries, row `i` gains the new head, and the
/// whole matrix is well-formed again.
#[verifier::rlimit(100)]
proof fn lemma_insert_effect<T, I>(
    mid: SparseMatCRS<T, I>,
    fin: SparseMatCRS<T, I>,
    i: int,
    j: usize,
    val: T,
    index: int,
    cj: I,
)
    where T: ValueType, I: IndexType
    requires
        mid.swf(),
        0 <= i < mid.nrows,
        !row_has(mid.srow(i), j as int),
        (j as int) < I::max_spec(),
        (mid.columns@.len() as int) < I::max_spec(),
        (j as int) < fin.cols as int,
        index == mid.off(i),
        cj.as_int() == j as int,
        fin.nrows == mid.nrows,
        fin.cols as int == if j as int + 1 > mid.cols as int {
            j as int + 1
        } else {
            mid.cols as int
        },
        fin.columns@ == mid.columns@.insert(index, cj),
        fin.values@ == mid.values@.insert(index, val),
        fin.offset_rows@.len() == mid.offset_rows@.len(),
        !fin.col_assembled,
        forall|k2: int| 0 <= k2 <= i ==> #[trigger] fin.off(k2) == mid.off(k2),
        forall|k2: int| i < k2 <= fin.nrows ==> #[trigger] fin.off(k2) == mid.off(k2) + 1,
    ensures
        forall|r: int| r != i ==> #[trigger] fin.srow(r) == mid.srow(r),
        fin.srow(i) == mid.srow(i).insert(0, (j, val)),
        fin.swf(),
{
    I::lemma_max_fits();
    assert forall|r: int| r != i
        implies #[trigger] fin.srow(r) == mid.srow(r) by {
        if 0 <= r < fin.nrows {
            if r < i {
                mid.lemma_window_disjoint(r, i);
                assert(fin.off(r) == mid.off(r));
                assert(fin.off(r + 1) == mid.off(r + 1));
                assert forall|k2: int| 0 <= k2 < mid.srow(r).len()
                    implies #[trigger] fin.srow(r)[k2] == mid.srow(r)[k2] by {
                    assert(mid.off(r) + k2 < mid.off(r + 1));
                    assert(mid.off(r + 1) <= index);
                }
                assert(fin.srow(r) =~= mid.srow(r));
            } else {
                mid.lemma_window_disjoint(i, r);
                assert(fin.off(r) == mid.off(r) + 1);
                assert(fin.off(r + 1) == mid.off(r + 1) + 1);
                assert forall|k2: int| 0 <= k2 < mid.srow(r).len()
                    implies #[trigger] fin.srow(r)[k2] == mid.srow(r)[k2] by {
                    assert(mid.off(r) + k2 >= index);
                }
                assert(fin.srow(r) =~= mid.srow(r));
            }
        }
    }
    let newrow = fin.srow(i);
    let midrow = mid.srow(i);
    mid.lemma_off_mono(0, i);
    mid.lemma_off_mono(i + 1, mid.nrows as int);
    assert(fin.off(i) == index);
    assert(fin.off(i + 1) == mid.off(i + 1) + 1);
    assert(newrow.len() == midrow.len() + 1);
    assert(newrow[0] == (j, val));
    assert forall|k2: int| 1 <= k2 < newrow.len()
        implies #[trigger] newrow[k2] == midrow[k2 - 1] by {
        assert(index + k2 > index);
    }
    assert(newrow =~= midrow.insert(0, (j, val)));
    lemma_row_val_insert(midrow, 0, j, val);
    assert forall|i2: int| row_cols_distinct(#[trigger] fin.srow(i2)) by {
        if i2 != i {
            assert(fin.srow(i2) == mid.srow(i2));
        } else {
            assert(row_cols_distinct(newrow));
        }
    }
    assert forall|k: int| 0 <= k <= fin.nrows
        implies 0 <= #[trigger] fin.off(k) <= fin.columns@.len() by {
        if k <= i {
            mid.lemma_off_mono(k, i);
        }
    }
    assert forall|k: int| 0 <= k < fin.nrows
        implies #[trigger] fin.off(k) <= fin.off(k + 1) by {
        assert(mid.off(k) <= mid.off(k + 1));
    }
    assert forall|s: int| 0 <= s < fin.columns@.len()
        implies 0 <= (#[trigger] fin.columns@[s]).as_int() < fin.cols as int by {
        if s < index {
            assert(fin.columns@[s] == mid.columns@[s]);
        } else if s == index {
            assert(fin.columns@[s] == cj);
        } else {
            assert(fin.columns@[s] == mid.columns@[s - 1]);
        }
    }
    assert(fin.swf());
}

/// Clearing the column-view flag alone preserves well-formedness and the
/// stored entries.
proof fn lemma_clear_flag_wf<T, I>(a: SparseMatCRS<T, I>, b: SparseMatCRS<T, I>)
    where T: ValueType, I: IndexType
    requires
        a.swf(),
        b.nrows == a.nrows,
        b.cols == a.cols,
        b.values == a.values,
        b.columns == a.columns,
        b.offset_rows == a.offset_rows,
        !b.col_assembled,
    ensures
        b.swf(),
        forall|r: int| #[trigger] b.srow(r) == a.srow(r),
{
    assert forall|k: int| #[trigger] b.off(k) == a.off(k) by {
    }
    assert forall|r: int| #[trigger] b.srow(r) == a.srow(r) by {
        assert(b.srow(r) =~= a.srow(r));
    }
    assert forall|i2: int| row_cols_distinct(#[trigger] b.srow(i2)) by {
        assert(b.srow(i2) == a.srow(i2));
    }
    assert forall|k: int| 0 <= k <= b.nrows
        implies 0 <= #[trigger] b.off(k) <= b.columns@.len() by {
        assert(b.off(k) == a.off(k));
    }
    assert forall|k: int| 0 <= k < b.nrows
        implies #[trigger] b.off(k) <= b.off(k + 1) by {
        assert(b.off(k) == a.off(k));
        assert(b.off(k + 1) == a.off(k + 1));
    }
    assert(b.off(0) == a.off(0));
    assert(b.off(b.nrows as int) == a.off(a.nrows as int));
    assert(b.swf());
}

/// A change of stored values alone (same length) preserves the offsets
/// and the column view's consistency.
proof fn lemma_col_wf_preserved<T, I>(a: SparseMatCRS<T, I>, b: SparseMatCRS<T, I>)
    where T: ValueType, I: IndexType
    requires
        a.swf(),
        b.nrows == a.nrows,
        b.cols == a.cols,
        b.columns@ == a.columns@,
        b.offset_rows@ == a.offset_rows@,
        b.rows@ == a.rows@,
        b.indexlist_col == a.indexlist_col,
        b.col_assembled == a.col_assembled,
        b.values@.len() == a.values@.len(),
    ensures
        forall|k: int| #[trigger] b.off(k) == a.off(k),
        b.col_assembled ==> b.col_wf(),
{
    assert forall|k: int| #[trigger] b.off(k) == a.off(k) by {
    }
    if b.col_assembled {
        assert(a.col_wf());
        assert forall|i2: int, s2: int|
            0 <= i2 < b.nrows && #[trigger] b.off(i2) <= s2 < b.off(i2 + 1)
            implies (#[trigger] b.rows@[s2]).as_int() == i2 by {
            assert(a.off(i2) <= s2 < a.off(i2 + 1));
        }
        assert forall|j2: int, k2: int|
            0 <= k2 < b.indexlist_col.chain(j2).len()
            implies (#[trigger] b.columns@[b.indexlist_col.chain(j2)[k2]]).as_int() == j2 by {
            assert(a.columns@[a.indexlist_col.chain(j2)[k2]].as_int() == j2);
        }
        assert forall|s2: int| 0 <= s2 < b.columns@.len()
            implies #[trigger] b.indexlist_col.chain(b.columns@[s2].as_int()).contains(s2) by {
            assert(a.indexlist_col.chain(a.columns@[s2].as_int()).contains(s2));
        }
        assert(b.col_wf());
    }
}

/// The flat arrays already hold rows `0 .. upto` of `rhs`, with correct
/// per-row offsets.
pub open spec fn built_entries_ok<T, I>(
    rhs: &SparseMatIndexList<T, I>,
    offsets: Seq<I>,
    columns: Seq<I>,
    values: Seq<T>,
    upto: int,
) -> bool
    where T: ValueType, I: IndexType
{
    forall|r2: int, k: int|
        0 <= r2 < upto && 0 <= k < rhs.srow(r2).len()
            ==> offsets[r2].as_int() + k < columns.len()
                && (#[trigger] columns[offsets[r2].as_int() + k]).as_int()
                    == rhs.srow(r2)[k].0 as int
                && values[offsets[r2].as_int() + k] == rhs.srow(r2)[k].1
}

/// The offset table records the length of each built row.
pub open spec fn built_lens_ok<T, I>(
    rhs: &SparseMatIndexList<T, I>,
    offsets: Seq<I>,
    upto: int,
) -> bool
    where T: ValueType, I: IndexType
{
    forall|r2: int|
        0 <= r2 < upto
            ==> (#[trigger] offsets[r2 + 1]).as_int() - offsets[r2].as_int()
                == rhs.srow(r2).len()
}

pub open spec fn built_rows_ok<T, I>(
    rhs: &SparseMatIndexList<T, I>,
    offsets: Seq<I>,
    columns: Seq<I>,
    values: Seq<T>,
    upto: int,
) -> bool
    where T: ValueType, I: IndexType
{
    &&& built_entries_ok(rhs, offsets, columns, values, upto)
    &&& built_lens_ok(rhs, offsets, upto)
}

/// Writing one slot inside row `i`'s window leaves every other row's
/// entries unchanged.
proof fn lemma_row_write_frame<T, I>(pre: SparseMatCRS<T, I>, cur: SparseMatCRS<T, I>, i: int, pos: int)
    where T: ValueType, I: IndexType
    requires
        pre.offset_rows@.len() == pre.nrows + 1,
        forall|k: int| 0 <= k < pre.nrows ==> #[trigger] pre.off(k) <= pre.off(k + 1),
        forall|k: int| 0 <= k <= pre.nrows ==> 0 <= #[trigger] pre.off(k)
            <= pre.columns@.len(),
        cur.nrows == pre.nrows,
        cur.offset_rows@ == pre.offset_rows@,
        cur.columns@.len() == pre.columns@.len(),
        cur.values@.len() == pre.values@.len(),
        0 <= i < pre.nrows,
        pre.off(i) <= pos < pre.off(i + 1),
        forall|s: int|
            0 <= s < pre.columns@.len() && s != pos
                ==> #[trigger] cur.columns@[s] == pre.columns@[s]
                    && cur.values@[s] == pre.values@[s],
    ensures
        forall|r: int| r != i ==> #[trigger] cur.srow(r) == pre.srow(r),
{
    assert forall|r: int| r != i implies #[trigger] cur.srow(r) == pre.srow(r) by {
        if 0 <= r < pre.nrows {
            assert(cur.off(r) == pre.off(r));
            assert(cur.off(r + 1) == pre.off(r + 1));
            assert forall|k2: int| 0 <= k2 < pre.srow(r).len()
                implies #[trigger] cur.srow(r)[k2] == pre.srow(r)[k2] by {
                if r < i {
                    pre.lemma_window_disjoint(r, i);
                } else {
                    pre.lemma_window_disjoint(i, r);
                }
                assert(0 <= pre.off(r) + k2 < pre.columns@.len());
                assert(pre.off(r) + k2 != pos);
                assert(cur.columns@[pre.off(r) + k2] == pre.columns@[pre.off(r) + k2]);
                assert(cur.values@[pre.off(r) + k2] == pre.values@[pre.off(r) + k2]);
            }
            assert(cur.srow(r) =~= pre.srow(r));
        }
    }
}

/// After a row's window was rewritten with a sorted permutation of its
/// entries, the matrix is well-formed and every cell reads the same.
#[verifier::rlimit(100)]
proof fn lemma_sorted_row_final<T, I>(
    o: SparseMatCRS<T, I>,
    fin: SparseMatCRS<T, I>,
    i: int,
    sorted: Seq<(usize, T)>,
)
    where T: ValueType, I: IndexType
    requires
        o.swf(),
        fin.nrows == o.nrows,
        fin.cols == o.cols,
        fin.offset_rows@ == o.offset_rows@,
        fin.columns@.len() == o.columns@.len(),
        fin.values@.len() == o.values@.len(),
        !fin.col_assembled,
        0 <= i < o.nrows,
        row_sorted(sorted),
        row_cols_distinct(sorted),
        sorted.to_multiset() == o.srow(i).to_multiset(),
        forall|r: int| r != i ==> #[trigger] fin.srow(r) == o.srow(r),
        fin.srow(i) == sorted,
        forall|s2: int|
            0 <= s2 < fin.columns@.len()
                ==> 0 <= (#[trigger] fin.columns@[s2]).as_int() < fin.cols as int,
    ensures
        fin.swf(),
        forall|j2: int| row_val(fin.srow(i), j2) == row_val(o.srow(i), j2),
{
    assert forall|k: int| #[trigger] fin.off(k) == o.off(k) by {
    }
    assert forall|i2: int| row_cols_distinct(#[trigger] fin.srow(i2)) by {
        if i2 != i {
            assert(fin.srow(i2) == o.srow(i2));
        }
    }
    assert forall|k: int| 0 <= k <= fin.nrows
        implies 0 <= #[trigger] fin.off(k) <= fin.columns@.len() by {
        assert(fin.off(k) == o.off(k));
    }
    assert forall|k: int| 0 <= k < fin.nrows
        implies #[trigger] fin.off(k) <= fin.off(k + 1) by {
        assert(fin.off(k) == o.off(k));
        assert(fin.off(k + 1) == o.off(k + 1));
    }
    assert(fin.off(0) == o.off(0));
    assert(fin.off(fin.nrows as int) == o.off(o.nrows as int));
    assert(fin.swf());
    lemma_row_val_perm(sorted, o.srow(i));
}

/// After the column view was rebuilt, the matrix is well-formed, the view
/// is consistent, and the stored entries are unchanged.
#[verifier::rlimit(100)]
proof fn lemma_assemble_final<T, I>(o: SparseMatCRS<T, I>, fin: SparseMatCRS<T, I>)
    where T: ValueType, I: IndexType
    requires
        o.swf(),
        fin.nrows == o.nrows,
        fin.cols == o.cols,
        fin.values@ == o.values@,
        fin.columns@ == o.columns@,
        fin.offset_rows@ == o.offset_rows@,
        fin.col_assembled,
        fin.rows@.len() == fin.columns@.len(),
        forall|r2: int, s2: int|
            0 <= r2 < fin.nrows && #[trigger] o.off(r2) <= s2 < o.off(r2 + 1)
                ==> (#[trigger] fin.rows@[s2]).as_int() == r2,
        fin.indexlist_col.wf(),
        fin.indexlist_col.spec_n_entries() == fin.columns@.len(),
        fin.indexlist_col.spec_n_rows() <= fin.cols as int,
        forall|j: int, k: int|
            0 <= k < fin.indexlist_col.chain(j).len()
                ==> (#[trigger] fin.columns@[fin.indexlist_col.chain(j)[k]]).as_int() == j,
        forall|s: int|
            0 <= s < fin.columns@.len()
                ==> #[trigger] fin.indexlist_col.chain(fin.columns@[s].as_int()).contains(s),
    ensures
        fin.swf(),
        forall|i2: int| #[trigger] fin.srow(i2) == o.srow(i2),
{
    assert forall|k: int| #[trigger] fin.off(k) == o.off(k) by {
    }
    assert forall|i2: int| #[trigger] fin.srow(i2) == o.srow(i2) by {
        assert(fin.srow(i2) =~= o.srow(i2));
    }
    assert forall|i2: int| row_cols_distinct(#[trigger] fin.srow(i2)) by {
        assert(fin.srow(i2) == o.srow(i2));
    }
    assert forall|k: int| 0 <= k <= fin.nrows
        implies 0 <= #[trigger] fin.off(k) <= fin.columns@.len() by {
        assert(fin.off(k) == o.off(k));
    }
    assert forall|k: int| 0 <= k < fin.nrows
        implies #[trigger] fin.off(k) <= fin.off(k + 1) by {
        assert(fin.off(k) == o.off(k));
        assert(fin.off(k + 1) == o.off(k + 1));
    }
    assert(fin.off(0) == o.off(0));
    assert(fin.off(fin.nrows as int) == o.off(o.nrows as int));
    assert forall|i2: int, s2: int|
        0 <= i2 < fin.nrows && #[trigger] fin.off(i2) <= s2 < fin.off(i2 + 1)
        implies (#[trigger] fin.rows@[s2]).as_int() == i2 by {
        assert(o.off(i2) <= s2 < o.off(i2 + 1));
    }
    assert(fin.col_wf());
    assert(fin.swf());
}

/// The summed row lengths telescope to the offset of the last row.
proof fn lemma_sum_telescope<T, I>(m: &SparseMatCRS<T, I>, upto: int)
    where T: ValueType, I: IndexType
    requires
        m.swf(),
        0 <= upto <= m.nrows,
    ensures
        sum_row_lens(Seq::new(upto as nat, |i: int| m.srow(i))) == m.off(upto),
    decreases upto,
{
    let rs = Seq::new(upto as nat, |i: int| m.srow(i));
    if upto > 0 {
        lemma_sum_telescope(m, upto - 1);
        assert(rs.drop_last() =~= Seq::new((upto - 1) as nat, |i: int| m.srow(i)));
        assert(rs.last() == m.srow(upto - 1));
        assert(m.srow(upto - 1).len() == m.off(upto) - m.off(upto - 1));
    } else {
        assert(rs =~= Seq::<Seq<(usize, T)>>::empty());
    }
}

impl<T, I> SparseMatrix for SparseMatCRS<T, I>
    where T: ValueType, I: IndexType
{
    type Value = T;

    type Index = I;

    open spec fn inv(&self) -> bool {
        self.swf()
    }

    open spec fn spec_rows(&self) -> int {
        self.nrows as int
    }

    open spec fn spec_cols(&self) -> int {
        self.cols as int
    }

    open spec fn spec_nnz(&self) -> int {
        self.columns@.len() as int
    }

    open spec fn spec_row(&self, i: int) -> Seq<(usize, T)> {
        self.srow(i)
    }

    proof fn lemma_model(&self) {
        I::lemma_max_fits();
        assert forall|i: int| crate::model::row_cols_below(
            #[trigger] self.spec_row(i),
            self.spec_cols(),
        ) by {
            assert forall|k: int| 0 <= k < self.srow(i).len()
                implies (#[trigger] self.srow(i)[k]).0 < self.spec_cols() by {
                if 0 <= i < self.nrows {
                    self.lemma_off_mono(0, i);
                    self.lemma_off_mono(i + 1, self.nrows as int);
                }
            }
        }
        lemma_sum_telescope(self, self.nrows as int);
        assert(Seq::new(self.spec_rows() as nat, |i: int| self.spec_row(i))
            =~~= Seq::new(self.nrows as nat, |i: int| self.srow(i)));
    }

    fn with_capacity(cap: usize) -> (r: Self) {
        proof {
            I::lemma_max_fits();
        }
        let z = I::zero();
        let mut offsets: Vec<I> = Vec::with_capacity(cap);
        offsets.push(z);
        let r = Self {
            nrows: 0,
            cols: 0,
            values: Vec::with_capacity(cap),
            columns: Vec::with_capacity(cap),
            offset_rows: offsets,
            rows: Vec::new(),
            indexlist_col: IndexList::new(),
            col_assembled: false,
        };
        proof {
            assert forall|i: int| #[trigger] r.spec_row(i) == Seq::<(usize, T)>::empty() by {
                assert(r.srow(i) =~= Seq::<(usize, T)>::empty());
            }
        }
        r
    }

    fn n_rows(&self) -> (r: usize) {
        self.nrows
    }

    fn n_cols(&self) -> (r: usize) {
        self.cols
    }

    fn n_non_zero_entries(&self) -> (r: usize) {
        self.columns.len()
    }

    fn get(&self, i: usize, j: usize) -> (r: T) {
        proof {
            I::lemma_max_fits();
        }
        let u = I::unset();
        let sentinel = u.as_usize();
        let idx = self.find_index(i, j);
        if idx != sentinel {
            proof {
                if !row_has(self.srow(i as int), j as int) {
                    assert(false);
                }
            }
            self.values[idx]
        } else {
            proof {
                if row_has(self.srow(i as int), j as int) {
                    assert(false);
                }
            }
            T::zero()
        }
    }

    fn set(&mut self, i: usize, j: usize, val: T) {
        self.put(i, j, val);
        proof {
            let oldr = old(self).srow(i as int);
            if row_has(oldr, j as int) {
                let p = row_index_of(oldr, j as int);
                assert(0 <= p < oldr.len());
                assert((j as int) < old(self).cols as int);
            } else {
                assert(final(self).srow(i as int) == oldr.insert(0, (j, val)));
            }
        }
    }

    fn add_to(&mut self, i: usize, j: usize, val: T) {
        let cur = self.get(i, j);
        self.put(i, j, cur.add_val(val));
        proof {
            let oldr = old(self).srow(i as int);
            if row_has(oldr, j as int) {
                let p = row_index_of(oldr, j as int);
                assert(0 <= p < oldr.len());
                assert((j as int) < old(self).cols as int);
            } else {
                assert(final(self).srow(i as int) == oldr.insert(0, (j, cur.sp_add(val))));
            }
        }
    }

    fn sub_from(&mut self, i: usize, j: usize, val: T) {
        let cur = self.get(i, j);
        self.put(i, j, cur.sub_val(val));
        proof {
            let oldr = old(self).srow(i as int);
            if row_has(oldr, j as int) {
                let p = row_index_of(oldr, j as int);
                assert(0 <= p < oldr.len());
                assert((j as int) < old(self).cols as int);
            } else {
                assert(final(self).srow(i as int) == oldr.insert(0, (j, cur.sp_sub(val))));
            }
        }
    }

    #[verifier::rlimit(100)]
    fn scale(&mut self, factor: T) {
        let n = self.values.len();
        let mut s: usize = 0;
        while s < n
            invariant
                n == self.values@.len(),
                self.columns@ == old(self).columns@,
                self.offset_rows@ == old(self).offset_rows@,
                self.nrows == old(self).nrows,
                self.rows@ == old(self).rows@,
                self.indexlist_col == old(self).indexlist_col,
                self.cols == old(self).cols,
                self.col_assembled == old(self).col_assembled,
                old(self).swf(),
                self.values@.len() == old(self).values@.len(),
                0 <= s <= n,
                forall|s2: int| 0 <= s2 < s
                    ==> #[trigger] self.values@[s2] == old(self).values@[s2].sp_mul(factor),
                forall|s2: int| s <= s2 < n ==> #[trigger] self.values@[s2]
                    == old(self).values@[s2],
            decreases n - s,
        {
            let cur = self.values[s];
            self.values[s] = cur.mul_val(factor);
            s = s + 1;
        }
        proof {
            assert forall|i: int| crate::model::row_scaled(
                old(self).srow(i),
                #[trigger] final(self).srow(i),
                factor,
            ) by {
                assert forall|k: int| 0 <= k < old(self).srow(i).len()
                    implies #[trigger] final(self).srow(i)[k] == (
                        old(self).srow(i)[k].0,
                        old(self).srow(i)[k].1.sp_mul(factor),
                    ) by {
                    if 0 <= i < self.nrows {
                        old(self).lemma_off_mono(0, i);
                        old(self).lemma_off_mono(i + 1, old(self).nrows as int);
                    }
                }
            }
            assert forall|i: int| row_cols_distinct(#[trigger] final(self).srow(i)) by {
                assert(crate::model::row_scaled(
                    old(self).srow(i),
                    final(self).srow(i),
                    factor,
                ));
                assert forall|k1: int, k2: int|
                    0 <= k1 < k2 < final(self).srow(i).len()
                    implies (#[trigger] final(self).srow(i)[k1]).0
                        != (#[trigger] final(self).srow(i)[k2]).0 by {
                    assert(final(self).srow(i)[k1].0 == old(self).srow(i)[k1].0);
                    assert(final(self).srow(i)[k2].0 == old(self).srow(i)[k2].0);
                }
            }
            lemma_col_wf_preserved(*old(self), *self);
            assert(final(self).swf());
        }
    }

    fn row_entries(&self, i: usize) -> (r: Vec<(usize, T)>) {
        proof {
            I::lemma_max_fits();
        }
        let mut out: Vec<(usize, T)> = Vec::new();
        if i < self.nrows {
            proof {
                self.lemma_off_mono(0, i as int);
                self.lemma_off_mono(i as int + 1, self.nrows as int);
            }
            let start = self.offset_rows[i].as_usize();
            let end = self.offset_rows[i + 1].as_usize();
            let mut s: usize = start;
            while s < end
                invariant
                    self.swf(),
                    i < self.nrows,
                    start as int == self.off(i as int),
                    end as int == self.off(i as int + 1),
                    end <= self.columns@.len(),
                    start <= s <= end,
                    out@.len() == s - start,
                    forall|k2: int| 0 <= k2 < s - start
                        ==> #[trigger] out@[k2] == self.srow(i as int)[k2],
                decreases end - s,
            {
                let c = self.columns[s];
                let v = self.values[s];
                out.push((c.as_usize(), v));
                s = s + 1;
            }
            proof {
                assert(out@ =~= self.srow(i as int));
            }
        } else {
            proof {
                assert(out@ =~= self.srow(i as int));
            }
        }
        out
    }
}

impl<T, I> SparseMatCRS<T, I>
    where T: ValueType, I: IndexType
{
    /// Builds a compressed-row matrix from an incremental one in a single
    /// pass over its rows, appending each row's entries in their insertion
    /// order while recording per-row start offsets.  An empty source gives
    /// an empty matrix.  The column view starts unassembled.
    #[verifier::rlimit(100)]
    #[verifier::spinoff_prover]
    pub fn from_sparsemat_index(rhs: &SparseMatIndexList<T, I>) -> (r: Self)
        requires
            rhs.swf(),
        ensures
            r.swf(),
            rhs.spec_nnz() == 0 ==> r.nrows == 0 && r.cols == 0 && r.spec_nnz() == 0,
            rhs.spec_nnz() != 0 ==> {
                &&& r.nrows as int == rhs.spec_rows()
                &&& r.cols as int == rhs.spec_cols()
                &&& r.spec_nnz() == rhs.spec_nnz()
                &&& forall|i: int| #[trigger] r.srow(i) == rhs.srow(i)
            },
            !r.col_assembled,
    {
        proof {
            I::lemma_max_fits();
            rhs.lemma_model();
        }
        if rhs.n_non_zero_entries() == 0 {
            let z0 = I::zero();
            let mut offs: Vec<I> = Vec::new();
            offs.push(z0);
            let r0 = Self {
                nrows: 0,
                cols: 0,
                values: Vec::new(),
                columns: Vec::new(),
                offset_rows: offs,
                rows: Vec::new(),
                indexlist_col: IndexList::new(),
                col_assembled: false,
            };
            proof {
                assert forall|i2: int| row_cols_distinct(#[trigger] r0.srow(i2)) by {
                    assert(r0.srow(i2) =~= Seq::<(usize, T)>::empty());
                }
            }
            return r0;
        }
        let cap = rhs.n_non_zero_entries();
        let nrows = rhs.n_rows();
        let ncols = rhs.n_cols();
        let ghost all_rows = Seq::new(rhs.spec_rows() as nat, |i2: int| rhs.srow(i2));
        let mut values: Vec<T> = Vec::with_capacity(cap);
        let mut columns: Vec<I> = Vec::with_capacity(cap);
        let mut offsets: Vec<I> = Vec::with_capacity(nrows);
        let z = I::zero();
        offsets.push(z);
        proof {
            assert(all_rows =~~= Seq::new(rhs.spec_rows() as nat, |i2: int| rhs.spec_row(i2)));
        }
        let mut i: usize = 0;
        while i < nrows
            invariant
                rhs.swf(),
                I::max_spec() <= usize::MAX as int,
                nrows as int == rhs.spec_rows(),
                ncols as int == rhs.spec_cols(),
                all_rows == Seq::new(rhs.spec_rows() as nat, |i2: int| rhs.srow(i2)),
                rhs.spec_nnz() == sum_row_lens(all_rows),
                0 <= i <= nrows,
                values@.len() == columns@.len(),
                columns@.len() as int == sum_row_lens(all_rows.take(i as int)),
                offsets@.len() == i + 1,
                offsets@[0].as_int() == 0,
                offsets@[i as int].as_int() == columns@.len(),
                forall|k: int| 0 <= k <= i ==> 0 <= (#[trigger] offsets@[k]).as_int()
                    <= columns@.len(),
                forall|k: int| 0 <= k < i ==> (#[trigger] offsets@[k]).as_int()
                    <= offsets@[k + 1].as_int(),
                forall|s: int| 0 <= s < columns@.len()
                    ==> 0 <= (#[trigger] columns@[s]).as_int() < ncols as int,
                built_rows_ok(rhs, offsets@, columns@, values@, i as int),
            decreases nrows - i,
        {
            proof {
                rhs.lemma_model();
                lemma_sum_row_lens_prefix_le(all_rows, i as int + 1);
                assert(all_rows.take(i as int + 1).drop_last() =~= all_rows.take(i as int));
                assert(all_rows.take(i as int + 1).last() == rhs.srow(i as int));
            }
            let entries = rhs.iter_row_entries(i);
            let m = entries.len();
            let ghost base = columns@.len() as int;
            let mut k: usize = 0;
            while k < m
                invariant
                    rhs.swf(),
                    I::max_spec() <= usize::MAX as int,
                    ncols as int == rhs.spec_cols(),
                    0 <= i < nrows,
                    nrows as int == rhs.spec_rows(),
                    entries@ == rhs.srow(i as int),
                    m == entries@.len(),
                    base + m <= I::max_spec(),
                    0 <= k <= m,
                    values@.len() == columns@.len(),
                    columns@.len() as int == base + k,
                    offsets@.len() == i + 1,
                    offsets@[i as int].as_int() == base,
                    forall|s: int| 0 <= s < columns@.len()
                        ==> 0 <= (#[trigger] columns@[s]).as_int() < ncols as int,
                    built_rows_ok(rhs, offsets@, columns@, values@, i as int),
                    forall|k2: int| 0 <= k2 <= i ==> 0 <= (#[trigger] offsets@[k2]).as_int()
                        <= base,
                    forall|k2: int| 0 <= k2 < i ==> (#[trigger] offsets@[k2]).as_int()
                        <= offsets@[k2 + 1].as_int(),
                    offsets@[0].as_int() == 0,
                    forall|k2: int| 0 <= k2 < k
                        ==> (#[trigger] columns@[base + k2]).as_int()
                            == rhs.srow(i as int)[k2].0 as int
                            && values@[base + k2] == rhs.srow(i as int)[k2].1,
                decreases m - k,
            {
                let (c, v) = entries[k];
                proof {
                    assert(rhs.srow(i as int)[k as int].0 == c);
                    assert(crate::model::row_cols_below(
                        rhs.srow(i as int),
                        rhs.spec_cols(),
                    ));
                }
                let ghost pc = columns@;
                let ghost pv = values@;
                let ci = I::from_usize(c);
                columns.push(ci);
                values.push(v);
                proof {
                    assert forall|r2: int, k2: int|
                        0 <= r2 < i && 0 <= k2 < rhs.srow(r2).len()
                        implies offsets@[r2].as_int() + k2 < columns@.len()
                            && (#[trigger] columns@[offsets@[r2].as_int() + k2]).as_int()
                                == rhs.srow(r2)[k2].0 as int
                            && values@[offsets@[r2].as_int() + k2] == rhs.srow(r2)[k2].1 by {
                        let p = offsets@[r2].as_int() + k2;
                        assert(p < base);
                        assert(columns@[p] == pc[p]);
                        assert(values@[p] == pv[p]);
                    }
                    assert(built_entries_ok(rhs, offsets@, columns@, values@, i as int));
                    assert(built_lens_ok(rhs, offsets@, i as int));
                    assert(built_rows_ok(rhs, offsets@, columns@, values@, i as int));
                    assert forall|k2: int| 0 <= k2 < k + 1
                        implies (#[trigger] columns@[base + k2]).as_int()
                            == rhs.srow(i as int)[k2].0 as int
                            && values@[base + k2] == rhs.srow(i as int)[k2].1 by {
                        if k2 < k as int {
                            assert(columns@[base + k2] == pc[base + k2]);
                            assert(values@[base + k2] == pv[base + k2]);
                        }
                    }
                }
                k = k + 1;
            }
            let ghost po = offsets@;
            let total = I::from_usize(columns.len());
            offsets.push(total);
            i = i + 1;
            proof {
                assert(all_rows.take(i as int).drop_last() =~= all_rows.take(i as int - 1));
                let ghost ui = i as int;
                assert(built_entries_ok(rhs, offsets@, columns@, values@, ui)) by {
                    assert forall|r2: int, k: int|
                        0 <= r2 < ui && 0 <= k < rhs.srow(r2).len()
                        implies offsets@[r2].as_int() + k < columns@.len()
                            && (#[trigger] columns@[offsets@[r2].as_int() + k]).as_int()
                                == rhs.srow(r2)[k].0 as int
                            && values@[offsets@[r2].as_int() + k] == rhs.srow(r2)[k].1 by {
                        assert(offsets@[r2] == po[r2]);
                        if r2 == ui - 1 {
                            assert(offsets@[r2].as_int() == base);
                            assert(columns@[base + k].as_int() == rhs.srow(r2)[k].0 as int);
                            assert(values@[base + k] == rhs.srow(r2)[k].1);
                        } else {
                            assert(columns@[offsets@[r2].as_int() + k].as_int()
                                == rhs.srow(r2)[k].0 as int);
                            assert(values@[offsets@[r2].as_int() + k] == rhs.srow(r2)[k].1);
                        }
                    }
                };
                assert(built_lens_ok(rhs, offsets@, ui)) by {
                    assert forall|r2: int| 0 <= r2 < ui
                        implies (#[trigger] offsets@[r2 + 1]).as_int() - offsets@[r2].as_int()
                            == rhs.srow(r2).len() by {
                        if r2 == ui - 1 {
                            assert(offsets@[r2 + 1].as_int() == columns@.len());
                            assert(offsets@[r2].as_int() == base);
                        } else {
                            assert(offsets@[r2 + 1] == po[r2 + 1]);
                            assert(offsets@[r2] == po[r2]);
                        }
                    }
                };
                assert(built_rows_ok(rhs, offsets@, columns@, values@, ui));
            }
        }
        proof {
            assert(all_rows.take(nrows as int) =~= all_rows);
        }
        let r = Self {
            nrows,
            cols: ncols,
            values,
            columns,
            offset_rows: offsets,
            rows: Vec::new(),
            indexlist_col: IndexList::new(),
            col_assembled: false,
        };
        proof {
            rhs.lemma_model();
            assert forall|i2: int| #[trigger] r.srow(i2) == rhs.srow(i2) by {
                if 0 <= i2 < r.nrows {
                    assert(r.srow(i2) =~= rhs.srow(i2));
                } else {
                    assert(rhs.srow(i2) == Seq::<(usize, T)>::empty());
                }
            }
            assert forall|i2: int| row_cols_distinct(#[trigger] r.srow(i2)) by {
                assert(r.srow(i2) == rhs.srow(i2));
            }
            assert(r.swf());
        }
        r
    }
}

impl<T, I> crate::sparsematrix::Sortable for SparseMatCRS<T, I>
    where T: ValueType, I: IndexType
{
    /// Sorts the entries of row `i` by column, ascending, writing the
    /// sorted entries back into the row's window.  The column view is
    /// cleared.
    #[verifier::rlimit(100)]
    #[verifier::spinoff_prover]
    fn sort_row(&mut self, i: usize) {
        proof {
            I::lemma_max_fits();
        }
        self.col_assembled = false;
        proof {
            lemma_clear_flag_wf(*old(self), *self);
        }
        if i >= self.nrows {
            proof {
                assert(final(self).srow(i as int) == old(self).srow(i as int));
            }
            return;
        }
        let entries = self.row_entries(i);
        let sorted = sort_pairs(&entries);
        let ghost oldrow = old(self).srow(i as int);
        proof {
            lemma_distinct_perm(sorted@, oldrow);
            assert forall|k2: int| 0 <= k2 < oldrow.len()
                implies 0 <= (#[trigger] oldrow[k2]).0 < self.cols as int by {
            }
            self.lemma_off_mono(0, i as int);
            self.lemma_off_mono(i as int + 1, self.nrows as int);
        }
        let start = self.offset_rows[i].as_usize();
        let m = sorted.len();
        let mut k: usize = 0;
        while k < m
            invariant
                old(self).swf(),
                self.nrows == old(self).nrows,
                self.cols == old(self).cols,
                self.offset_rows@ == old(self).offset_rows@,
                self.rows@ == old(self).rows@,
                self.indexlist_col == old(self).indexlist_col,
                self.col_assembled == false,
                self.columns@.len() == old(self).columns@.len(),
                self.values@.len() == old(self).values@.len(),
                i < self.nrows,
                oldrow == old(self).srow(i as int),
                I::max_spec() <= usize::MAX as int,
                start as int == self.off(i as int),
                start + m <= self.columns@.len(),
                m == sorted@.len(),
                m as int == self.off(i as int + 1) - self.off(i as int),
                row_sorted(sorted@),
                row_cols_distinct(sorted@),
                sorted@.to_multiset() == oldrow.to_multiset(),
                forall|k2: int| 0 <= k2 < oldrow.len()
                    ==> 0 <= (#[trigger] oldrow[k2]).0 < self.cols as int,
                0 <= k <= m,
                forall|s2: int|
                    0 <= s2 < self.columns@.len()
                        ==> 0 <= (#[trigger] self.columns@[s2]).as_int() < self.cols as int,
                forall|r: int| r != i as int ==> #[trigger] self.srow(r) == old(self).srow(r),
                forall|k2: int| 0 <= k2 < k
                    ==> #[trigger] self.srow(i as int)[k2] == sorted@[k2],
                forall|k2: int| k <= k2 < m
                    ==> #[trigger] self.srow(i as int)[k2] == oldrow[k2],
            decreases m - k,
        {
            let ghost pre = *self;
            proof {
                crate::model::lemma_contains_col_bound(
                    sorted@,
                    oldrow,
                    k as int,
                    self.cols as int,
                );
                assert forall|k2: int| 0 <= k2 < pre.nrows
                    implies #[trigger] pre.off(k2) <= pre.off(k2 + 1) by {
                    assert(pre.off(k2) == old(self).off(k2));
                    assert(pre.off(k2 + 1) == old(self).off(k2 + 1));
                }
                assert forall|k2: int| 0 <= k2 <= pre.nrows
                    implies 0 <= #[trigger] pre.off(k2) <= pre.columns@.len() by {
                    assert(pre.off(k2) == old(self).off(k2));
                }
            }
            let (c, v) = sorted[k];
            let ci = I::from_usize(c);
            self.columns[start + k] = ci;
            self.values[start + k] = v;
            proof {
                lemma_row_write_frame(pre, *self, i as int, start + k as int);
                assert(self.srow(i as int)[k as int] == sorted@[k as int]);
                assert forall|k2: int| 0 <= k2 < m && k2 != k as int
                    implies #[trigger] self.srow(i as int)[k2] == pre.srow(i as int)[k2] by {
                }
            }
            k = k + 1;
        }
        proof {
            assert(final(self).srow(i as int) =~= sorted@);
            lemma_sorted_row_final(*old(self), *self, i as int, sorted@);
        }
    }

}

impl<T, I> SparseMatCRS<T, I>
    where T: ValueType, I: IndexType
{
    /// Returns an iterator over column `col` as `(row, value)` pairs, or
    /// reports that the column view is not available because
    /// `assemble_column_info` has not run since the last change.
    pub fn iter_col(&self, col: usize) -> (r: Result<IterCol<'_, T, I>, SparseMatError>)
        requires
            self.swf(),
        ensures
            match r {
                Ok(it) => {
                    &&& self.col_assembled
                    &&& it.wf()
                    &&& it.remaining_col() == self.scol(col as int)
                },
                Err(e) => !self.col_assembled && e == SparseMatError::NotAvailable,
            },
    {
        if !self.col_assembled {
            return Err(SparseMatError::NotAvailable);
        }
        let it = self.indexlist_col.iter_row(col);
        Ok(IterCol { mat: self, it })
    }

    /// Returns an iterator over the entries of row `row` as
    /// `(column, value)` pairs, in storage order.  A row outside the
    /// current range yields nothing.
    pub fn iter_row(&self, row: usize) -> (r: IterRow<T>)
        requires
            self.swf(),
        ensures
            r.remaining_row() == self.srow(row as int),
    {
        let data = self.row_entries(row);
        IterRow { data, pos: 0 }
    }
}

/// Iterator over one row's entries of a compressed-row matrix.
pub struct IterRow<T> {
    pub data: Vec<(usize, T)>,
    pub pos: usize,
}

impl<T> IterRow<T>
    where T: ValueType
{
    /// The entries not yet yielded.
    pub open spec fn remaining_row(&self) -> Seq<(usize, T)> {
        if self.pos <= self.data@.len() {
            self.data@.skip(self.pos as int)
        } else {
            Seq::empty()
        }
    }

    /// Yields the next `(column, value)` pair of the row.
    pub fn next(&mut self) -> (r: Option<(usize, T)>)
        ensures
            old(self).remaining_row().len() > 0 ==> {
                &&& r == Some(old(self).remaining_row()[0])
                &&& final(self).remaining_row() == old(self).remaining_row().skip(1)
            },
            old(self).remaining_row().len() == 0 ==> {
                &&& r is None
                &&& final(self).remaining_row() == old(self).remaining_row()
            },
    {
        if self.pos < self.data.len() {
            let e = self.data[self.pos];
            self.pos = self.pos + 1;
            proof {
                assert(final(self).remaining_row() =~= old(self).remaining_row().skip(1));
            }
            Some(e)
        } else {
            None
        }
    }
}

/// Iterator over one column's entries of a compressed-row matrix,
/// available after `assemble_column_info`.
pub struct IterCol<'a, T, I> {
    pub mat: &'a SparseMatCRS<T, I>,
    pub it: crate::rowindexlist::IterRow<'a, I>,
}

impl<'a, T, I> IterCol<'a, T, I>
    where T: ValueType, I: IndexType
{
    /// The `(row, value)` pairs not yet yielded.
    pub open spec fn remaining_col(&self) -> Seq<(usize, T)> {
        self.it.remaining().map_values(
            |s: int| (self.mat.rows@[s].as_int() as usize, self.mat.values@[s]),
        )
    }

    /// Well-formedness of the cursor.
    pub open spec fn wf(&self) -> bool {
        &&& self.mat.swf()
        &&& self.mat.col_assembled
        &&& self.it.wf()
        &&& self.it.list() == &self.mat.indexlist_col
    }

    /// Yields the next `(row, value)` pair of the column.
    #[verifier::rlimit(100)]
    #[verifier::spinoff_prover]
    pub fn next(&mut self) -> (r: Option<(usize, T)>)
        requires
            old(self).wf(),
        ensures
            final(self).wf(),
            final(self).mat == old(self).mat,
            old(self).remaining_col().len() > 0 ==> {
                &&& r == Some(old(self).remaining_col()[0])
                &&& final(self).remaining_col() == old(self).remaining_col().skip(1)
            },
            old(self).remaining_col().len() == 0 ==> {
                &&& r is None
                &&& final(self).remaining_col() == old(self).remaining_col()
            },
    {
        proof {
            I::lemma_max_fits();
            if self.it.remaining().len() > 0 {
                let ch = self.it.full_chain();
                self.mat.indexlist_col.lemma_chain_elem_bound(self.it.row@, self.it.k@);
                assert(self.it.remaining()[0] == ch[self.it.k@]);
            }
        }
        match self.it.next() {
            Some(slot) => {
                let rr = self.mat.rows[slot];
                let v = self.mat.values[slot];
                proof {
                    assert(final(self).remaining_col() =~= old(self).remaining_col().skip(1));
                }
                Some((rr.as_usize(), v))
            },
            None => None,
        }
    }
}

/// Every slot lies in some row's window.
proof fn lemma_slot_in_window<T, I>(m: &SparseMatCRS<T, I>, s: int, lo: int)
    where T: ValueType, I: IndexType
    requires
        m.swf(),
        0 <= lo < m.nrows,
        m.off(lo) <= s < m.columns@.len(),
    ensures
        exists|r: int| lo <= r < m.nrows && (#[trigger] m.off(r)) <= s < m.off(r + 1),
    decreases m.nrows - lo,
{
    if s < m.off(lo + 1) {
        assert(m.off(lo) <= s < m.off(lo + 1));
    } else {
        assert(lo + 1 < m.nrows) by {
            if lo + 1 == m.nrows {
                assert(m.off(lo + 1) == m.columns@.len());
                assert(false);
            }
        }
        lemma_slot_in_window(m, s, lo + 1);
    }
}

impl<T, I> crate::sparsematrix::ColumnIter for SparseMatCRS<T, I>
    where T: ValueType, I: IndexType
{
    open spec fn col_ok(&self) -> bool {
        self.col_assembled
    }

    open spec fn spec_col(&self, j: int) -> Seq<(usize, T)> {
        self.scol(j)
    }

    /// The assembled column view mirrors the stored entries exactly: an
    /// entry of column `j` at row `r` exists in the view if and only if
    /// the matrix stores one, with the same value.
    #[verifier::rlimit(100)]
    #[verifier::spinoff_prover]
    proof fn lemma_col_model(&self) {
        I::lemma_max_fits();
        let ilc = self.indexlist_col;
        assert forall|j: int| row_cols_distinct(#[trigger] self.scol(j)) by {
            assert forall|k1: int, k2: int| 0 <= k1 < k2 < self.scol(j).len()
                implies (#[trigger] self.scol(j)[k1]).0 != (#[trigger] self.scol(j)[k2]).0 by {
                let s1 = ilc.chain(j)[k1];
                let s2 = ilc.chain(j)[k2];
                ilc.lemma_chain_elem_bound(j, k1);
                ilc.lemma_chain_elem_bound(j, k2);
                ilc.lemma_chain_disjoint(j, k1, j, k2);
                assert(self.columns@[s1].as_int() == j);
                assert(self.columns@[s2].as_int() == j);
                lemma_slot_in_window(self, s1, 0);
                let r1 = choose|r1: int| 0 <= r1 < self.nrows
                    && (#[trigger] self.off(r1)) <= s1 < self.off(r1 + 1);
                lemma_slot_in_window(self, s2, 0);
                let r2 = choose|r2: int| 0 <= r2 < self.nrows
                    && (#[trigger] self.off(r2)) <= s2 < self.off(r2 + 1);
                assert(self.rows@[s1].as_int() == r1);
                assert(self.rows@[s2].as_int() == r2);
                self.rows@[s1].lemma_in_range();
                self.rows@[s2].lemma_in_range();
                if r1 == r2 {
                    let p1 = s1 - self.off(r1);
                    let p2 = s2 - self.off(r1);
                    assert(self.srow(r1)[p1].0 as int == j);
                    assert(self.srow(r1)[p2].0 as int == j);
                    assert(p1 != p2);
                    assert(row_cols_distinct(self.srow(r1)));
                    assert(false);
                }
                assert(self.scol(j)[k1].0 as int == r1);
                assert(self.scol(j)[k2].0 as int == r2);
            }
        }
        assert forall|j: int, r: int| #[trigger] row_has(self.scol(j), r) == row_has(
            self.srow(r),
            j,
        ) by {
            if row_has(self.scol(j), r) {
                let k = row_index_of(self.scol(j), r);
                let ss = ilc.chain(j)[k];
                ilc.lemma_chain_elem_bound(j, k);
                assert(self.columns@[ss].as_int() == j);
                lemma_slot_in_window(self, ss, 0);
                let r0 = choose|r0: int| 0 <= r0 < self.nrows
                    && (#[trigger] self.off(r0)) <= ss < self.off(r0 + 1);
                assert(self.rows@[ss].as_int() == r0);
                self.rows@[ss].lemma_in_range();
                assert(self.scol(j)[k].0 as int == r0);
                assert(r0 == r);
                let p = ss - self.off(r0);
                assert(self.srow(r)[p].0 as int == j);
                assert(row_has(self.srow(r), j));
            }
            if row_has(self.srow(r), j) {
                let p = row_index_of(self.srow(r), j);
                let ss = self.off(r) + p;
                assert(self.srow(r)[p].0 as int == j);
                self.lemma_off_mono(0, r);
                self.lemma_off_mono(r + 1, self.nrows as int);
                assert(0 <= ss < self.columns@.len());
                assert(self.columns@[ss].as_int() == j);
                assert(ilc.chain(self.columns@[ss].as_int()).contains(ss));
                let k = choose|k: int| 0 <= k < ilc.chain(j).len() && ilc.chain(j)[k] == ss;
                assert(self.rows@[ss].as_int() == r);
                self.rows@[ss].lemma_in_range();
                assert(self.scol(j)[k].0 as int == r);
                assert(row_has(self.scol(j), r));
            }
        }
        assert forall|j: int, r: int| #[trigger] row_val(self.scol(j), r) == row_val(
            self.srow(r),
            j,
        ) by {
            if row_has(self.srow(r), j) {
                let p = row_index_of(self.srow(r), j);
                lemma_row_val_has(self.srow(r), p);
                let ss = self.off(r) + p;
                assert(self.srow(r)[p].0 as int == j);
                self.lemma_off_mono(0, r);
                self.lemma_off_mono(r + 1, self.nrows as int);
                assert(0 <= ss < self.columns@.len());
                assert(self.columns@[ss].as_int() == j);
                assert(ilc.chain(self.columns@[ss].as_int()).contains(ss));
                let k = choose|k: int| 0 <= k < ilc.chain(j).len() && ilc.chain(j)[k] == ss;
                assert(self.rows@[ss].as_int() == r);
                self.rows@[ss].lemma_in_range();
                assert(self.scol(j)[k] == (r as usize, self.values@[ss]));
                assert(self.srow(r)[p].1 == self.values@[ss]);
                lemma_row_val_has(self.scol(j), k);
            } else {
                assert(!row_has(self.scol(j), r));
            }
        }
    }

    /// Assembles the column view: records each slot's owning row and
    /// builds a linked index whose chains are keyed by column.  The
    /// stored entries are unchanged.
    #[verifier::rlimit(100)]
    #[verifier::spinoff_prover]
    fn assemble_column_info(&mut self)
    {
        proof {
            I::lemma_max_fits();
        }
        let nslots = self.columns.len();
        let u = I::unset();
        let mut rows_new: Vec<I> = Vec::with_capacity(nslots);
        while rows_new.len() < nslots
            invariant
                rows_new@.len() <= nslots,
            decreases nslots - rows_new.len(),
        {
            rows_new.push(u);
        }
        let nrows = self.nrows;
        let mut r: usize = 0;
        while r < nrows
            invariant
                self.swf(),
                I::max_spec() <= usize::MAX as int,
                nrows == self.nrows,
                nslots == self.columns@.len(),
                rows_new@.len() == nslots,
                0 <= r <= nrows,
                forall|r2: int, s2: int|
                    0 <= r2 < r && #[trigger] self.off(r2) <= s2 < self.off(r2 + 1)
                        ==> (#[trigger] rows_new@[s2]).as_int() == r2,
            decreases nrows - r,
        {
            proof {
                self.lemma_off_mono(0, r as int);
                self.lemma_off_mono(r as int + 1, self.nrows as int);
            }
            let start = self.offset_rows[r].as_usize();
            let end = self.offset_rows[r + 1].as_usize();
            let ri = I::from_usize(r);
            let mut s: usize = start;
            while s < end
                invariant
                    self.swf(),
                    nrows == self.nrows,
                    nslots == self.columns@.len(),
                    rows_new@.len() == nslots,
                    0 <= r < nrows,
                    (r as int) < I::max_spec(),
                    ri.as_int() == r as int,
                    start as int == self.off(r as int),
                    end as int == self.off(r as int + 1),
                    end <= nslots,
                    start <= s <= end,
                    forall|r2: int, s2: int|
                        0 <= r2 < r && #[trigger] self.off(r2) <= s2 < self.off(r2 + 1)
                            ==> (#[trigger] rows_new@[s2]).as_int() == r2,
                    forall|s2: int| start <= s2 < s
                        ==> (#[trigger] rows_new@[s2]).as_int() == r as int,
                decreases end - s,
            {
                rows_new[s] = ri;
                proof {
                    assert forall|r2: int, s2: int|
                        0 <= r2 < r && #[trigger] self.off(r2) <= s2 < self.off(r2 + 1)
                        implies (#[trigger] rows_new@[s2]).as_int() == r2 by {
                        self.lemma_window_disjoint(r2, r as int);
                        assert(s2 != s as int);
                    }
                }
                s = s + 1;
            }
            r = r + 1;
        }
        let ilc = crate::rowindexlist::build_col_chains(&self.columns, self.cols);
        self.rows = rows_new;
        self.indexlist_col = ilc;
        self.col_assembled = true;
        proof {
            lemma_assemble_final(*old(self), *self);
        }
    }


    fn has_iter_col(&self) -> (r: bool) {
        self.col_assembled
    }

    fn col_entries(&self, j: usize) -> (r: Result<Vec<(usize, T)>, SparseMatError>) {
        proof {
            I::lemma_max_fits();
        }
        if !self.col_assembled {
            return Err(SparseMatError::NotAvailable);
        }
        let slots = self.indexlist_col.chain_slots(j);
        let n = slots.len();
        let mut out: Vec<(usize, T)> = Vec::with_capacity(n);
        let mut k: usize = 0;
        while k < n
            invariant
                self.swf(),
                self.col_assembled,
                n == slots@.len(),
                n == self.indexlist_col.chain(j as int).len(),
                forall|k2: int| 0 <= k2 < n
                    ==> (#[trigger] slots@[k2]) as int == self.indexlist_col.chain(j as int)[k2],
                0 <= k <= n,
                out@.len() == k,
                forall|k2: int| 0 <= k2 < k ==> #[trigger] out@[k2] == self.scol(j as int)[k2],
            decreases n - k,
        {
            let slot = slots[k];
            proof {
                I::lemma_max_fits();
                self.indexlist_col.lemma_chain_elem_bound(j as int, k as int);
            }
            let rr = self.rows[slot];
            let v = self.values[slot];
            out.push((rr.as_usize(), v));
            k = k + 1;
        }
        proof {
            assert(out@ =~= self.scol(j as int));
        }
        Ok(out)
    }
}

impl<T, I> SparseMatCRS<T, I>
    where T: ValueType, I: IndexType
{
    /// Returns an iterator over every stored entry as a
    /// `(row, column, value)` triple, row-major, each row in storage
    /// order.
    pub fn iter(&self) -> (r: crate::sparsematrix::EntriesIter<T>)
        requires
            self.swf(),
        ensures
            r.remaining() == crate::sparsematrix::spec_triples(self, self.nrows as int),
    {
        let data = crate::sparsematrix::entries_vec(self);
        let r = crate::sparsematrix::EntriesIter { data, pos: 0 };
        proof {
            assert(r.remaining() =~= r.data@);
        }
        r
    }
}

} // verus!
