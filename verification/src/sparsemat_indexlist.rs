//! The incremental storage engine: values and columns live in flat arrays,
//! and a linked row index tracks which slots belong to which row.
//!
//! Appending an entry is cheap, so this engine suits the assembly phase;
//! it can be converted to compressed-row storage afterwards.  An optional
//! column view (a second linked index keyed by column) enables column
//! iteration after an explicit `assemble_column_info` pass.

use vstd::prelude::*;
use crate::types::{IndexType, ValueType};
use crate::rowindexlist::IndexList;
use crate::model::{
    row_has, row_val, row_index_of, row_cols_distinct, row_sorted, lemma_row_val_has,
    lemma_row_val_update, lemma_row_val_insert, sort_pairs, lemma_row_val_perm,
    lemma_distinct_perm,
};
use crate::sparsematrix::{
    SparseMatrix, SparseMatError, sum_row_lens, lemma_row_len_le_cols,
};

verus! {

/// Incremental linked-list sparse matrix storage.  `rows` and
/// `indexlist_col` form the optional column view: `rows[slot]` is the
/// owning row of a slot, and `indexlist_col` chains the slots of each
/// column.  `col_assembled` tracks whether that view is current; writes
/// that append a slot and row sorts clear it (dirty tracking).
#[derive(Clone)]
pub struct SparseMatIndexList<T, I> {
    pub cols: usize,
    pub columns: Vec<I>,
    pub values: Vec<T>,
    pub indexlist: IndexList<I>,
    pub rows: Vec<I>,
    pub indexlist_col: IndexList<I>,
    pub col_assembled: bool,
}

impl<T, I> SparseMatIndexList<T, I>
    where T: ValueType, I: IndexType
{
    /// The entries of row `i`: the row's chain of slots, each read through
    /// the column and value arrays.
    pub open spec fn srow(&self, i: int) -> Seq<(usize, T)> {
        self.indexlist.chain(i).map_values(
            |s: int| (self.columns@[s].as_int() as usize, self.values@[s]),
        )
    }

    /// The entries of column `j` in the assembled column view: `(row,
    /// value)` pairs in the order the column's chain yields them.
    pub open spec fn scol(&self, j: int) -> Seq<(usize, T)> {
        self.indexlist_col.chain(j).map_values(
            |s: int| (self.rows@[s].as_int() as usize, self.values@[s]),
        )
    }

    /// Consistency of the column view with the stored entries.
    pub open spec fn col_wf(&self) -> bool {
        &&& self.rows@.len() == self.columns@.len()
        &&& self.indexlist_col.wf()
        &&& self.indexlist_col.spec_n_entries() == self.columns@.len()
        &&& self.indexlist_col.spec_n_rows() <= self.cols as int
        &&& forall|r: int, k: int|
                0 <= k < self.indexlist.chain(r).len()
                    ==> (#[trigger] self.rows@[self.indexlist.chain(r)[k]]).as_int() == r
        &&& forall|j: int, k: int|
                0 <= k < self.indexlist_col.chain(j).len()
                    ==> (#[trigger] self.columns@[self.indexlist_col.chain(j)[k]]).as_int() == j
        &&& forall|s: int|
                0 <= s < self.columns@.len()
                    ==> #[trigger] self.indexlist_col.chain(
                        self.columns@[s].as_int(),
                    ).contains(s)
    }

    /// The engine invariant.
    pub open spec fn swf(&self) -> bool {
        &&& self.indexlist.wf()
        &&& self.columns@.len() == self.values@.len()
        &&& self.columns@.len() as int == self.indexlist.spec_n_entries()
        &&& self.indexlist.spec_n_rows() <= I::max_spec()
        &&& self.cols as int <= I::max_spec()
        &&& forall|s: int|
                0 <= s < self.columns@.len()
                    ==> 0 <= (#[trigger] self.columns@[s]).as_int() < self.cols as int
        &&& forall|i: int| row_cols_distinct(#[trigger] self.srow(i))
        &&& self.col_assembled ==> self.col_wf()
    }

    /// The slot positions of row `i`, in insertion order.
    pub fn row_slots(&self, i: usize) -> (r: Vec<usize>)
        requires
            self.indexlist.wf(),
        ensures
            r@.len() == self.indexlist.chain(i as int).len(),
            forall|k: int| 0 <= k < r@.len()
                ==> (#[trigger] r@[k]) as int == self.indexlist.chain(i as int)[k],
    {
        self.indexlist.chain_slots(i)
    }

    /// Materializes the entries of row `i`, in insertion order.
    pub fn iter_row_entries(&self, i: usize) -> (r: Vec<(usize, T)>)
        requires
            self.swf(),
        ensures
            r@ == self.srow(i as int),
    {
        proof {
            I::lemma_max_fits();
        }
        let slots = self.row_slots(i);
        let n = slots.len();
        let mut out: Vec<(usize, T)> = Vec::with_capacity(n);
        let mut k: usize = 0;
        while k < n
            invariant
                self.swf(),
                n == slots@.len(),
                n == self.indexlist.chain(i as int).len(),
                forall|k2: int| 0 <= k2 < n
                    ==> (#[trigger] slots@[k2]) as int == self.indexlist.chain(i as int)[k2],
                0 <= k <= n,
                out@.len() == k,
                forall|k2: int| 0 <= k2 < k ==> #[trigger] out@[k2] == self.srow(i as int)[k2],
            decreases n - k,
        {
            let slot = slots[k];
            proof {
                self.indexlist.lemma_chain_elem_bound(i as int, k as int);
            }
            let c = self.columns[slot];
            let v = self.values[slot];
            out.push((c.as_usize(), v));
            k = k + 1;
        }
        proof {
            assert(out@ =~= self.srow(i as int));
        }
        out
    }

    /// Returns the slot of entry `(i, j)` in the column and value arrays,
    /// or the index type's sentinel if the entry does not exist.
    pub fn find_index(&self, i: usize, j: usize) -> (r: usize)
        requires
            self.swf(),
        ensures
            row_has(self.srow(i as int), j as int) ==> {
                let p = row_index_of(self.srow(i as int), j as int);
                &&& r as int == self.indexlist.chain(i as int)[p]
                &&& 0 <= r < self.columns@.len()
                &&& self.columns@[r as int].as_int() == j as int
                &&& self.values@[r as int] == row_val(self.srow(i as int), j as int)
            },
            !row_has(self.srow(i as int), j as int) ==> r as int == I::max_spec(),
    {
        proof {
            I::lemma_max_fits();
        }
        let u = I::unset();
        let sentinel = u.as_usize();
        let slots = self.row_slots(i);
        let n = slots.len();
        let mut k: usize = 0;
        while k < n
            invariant
                self.swf(),
                n == slots@.len(),
                n == self.indexlist.chain(i as int).len(),
                forall|k2: int| 0 <= k2 < n
                    ==> (#[trigger] slots@[k2]) as int == self.indexlist.chain(i as int)[k2],
                0 <= k <= n,
                forall|k2: int| 0 <= k2 < k
                    ==> (#[trigger] self.srow(i as int)[k2]).0 != j,
            decreases n - k,
        {
            let slot = slots[k];
            proof {
                self.indexlist.lemma_chain_elem_bound(i as int, k as int);
            }
            let c = self.columns[slot];
            if c.as_usize() == j {
                proof {
                    assert(self.srow(i as int)[k as int].0 == j);
                    lemma_row_val_has(self.srow(i as int), k as int);
                }
                return slot;
            }
            k = k + 1;
        }
        proof {
            if row_has(self.srow(i as int), j as int) {
                let p = row_index_of(self.srow(i as int), j as int);
                assert(self.srow(i as int)[p].0 as int == j as int);
                assert(false);
            }
        }
        sentinel
    }

    /// Writes `val` as the value of cell `(i, j)`: replaces the entry in
    /// place when present, appends a new slot to the row otherwise.
    fn put(&mut self, i: usize, j: usize, val: T)
        requires
            old(self).swf(),
            (i as int) < I::max_spec(),
            (j as int) < I::max_spec(),
            (old(self).columns@.len() as int) < I::max_spec(),
        ensures
            final(self).swf(),
            final(self).indexlist.spec_n_rows() == if i as int + 1
                > old(self).indexlist.spec_n_rows() && !row_has(
                old(self).srow(i as int),
                j as int,
            ) {
                i as int + 1
            } else {
                old(self).indexlist.spec_n_rows()
            },
            final(self).cols as int == if j as int + 1 > old(self).cols as int {
                j as int + 1
            } else {
                old(self).cols as int
            },
            final(self).columns@.len() as int == old(self).columns@.len() as int + if row_has(
                old(self).srow(i as int),
                j as int,
            ) {
                0int
            } else {
                1int
            },
            forall|r: int| r != i as int ==> final(self).srow(r) == old(self).srow(r),
            if row_has(old(self).srow(i as int), j as int) {
                final(self).srow(i as int) == old(self).srow(i as int).update(
                    row_index_of(old(self).srow(i as int), j as int),
                    (j, val),
                )
            } else {
                final(self).srow(i as int) == old(self).srow(i as int).push((j, val))
            },
            row_val(final(self).srow(i as int), j as int) == val,
            forall|j2: int| j2 != j as int
                ==> row_val(final(self).srow(i as int), j2) == row_val(
                    old(self).srow(i as int),
                    j2,
                ),
            forall|j2: int| row_has(final(self).srow(i as int), j2)
                == (j2 == j as int || row_has(old(self).srow(i as int), j2)),
            final(self).rows@ == old(self).rows@,
            final(self).indexlist_col == old(self).indexlist_col,
            final(self).col_assembled == (old(self).col_assembled && row_has(
                old(self).srow(i as int),
                j as int,
            )),
    {
        proof {
            I::lemma_max_fits();
            lemma_row_len_le_cols(self.srow(i as int), self.cols as int);
        }
        let u = I::unset();
        let sentinel = u.as_usize();
        let slot = self.find_index(i, j);
        let ghost oldrow = self.srow(i as int);
        if slot != sentinel {
            proof {
                if !row_has(oldrow, j as int) {
                    assert(false);
                }
            }
            self.values[slot] = val;
            proof {
                let p = row_index_of(oldrow, j as int);
                let newrow = self.srow(i as int);
                assert forall|r: int| r != i as int
                    implies self.srow(r) == old(self).srow(r) by {
                    assert forall|k: int| 0 <= k < self.indexlist.chain(r).len()
                        implies #[trigger] self.srow(r)[k] == old(self).srow(r)[k] by {
                        // Chains of different rows are disjoint, so the
                        // written slot is not on this chain.
                        old(self).indexlist.lemma_chain_disjoint(
                            r,
                            k,
                            i as int,
                            p,
                        );
                    }
                    assert(self.srow(r) =~= old(self).srow(r));
                }
                assert forall|k: int| 0 <= k < newrow.len() && k != p
                    implies #[trigger] newrow[k] == oldrow[k] by {
                    old(self).indexlist.lemma_chain_disjoint(i as int, k, i as int, p);
                }
                assert(newrow =~= oldrow.update(p, (j, val)));
                lemma_row_val_update(oldrow, p, val);
                assert forall|i2: int| row_cols_distinct(#[trigger] self.srow(i2)) by {
                    if i2 != i as int {
                        assert(self.srow(i2) == old(self).srow(i2));
                    }
                }
            }
        } else {
            proof {
                if row_has(oldrow, j as int) {
                    assert(false);
                }
            }
            let _new_slot: usize = self.indexlist.push(i);
            let c = I::from_usize(j);
            self.columns.push(c);
            self.values.push(val);
            if j >= self.cols {
                self.cols = j + 1;
            }
            // The column view no longer covers the new slot.
            self.col_assembled = false;
            proof {
                let newrow = self.srow(i as int);
                assert forall|r: int| r != i as int
                    implies self.srow(r) == old(self).srow(r) by {
                    assert(self.indexlist.chain(r) == old(self).indexlist.chain(r));
                    assert forall|k: int| 0 <= k < self.indexlist.chain(r).len()
                        implies #[trigger] self.srow(r)[k] == old(self).srow(r)[k] by {
                        old(self).indexlist.lemma_chain_elem_bound(r, k);
                    }
                    assert(self.srow(r) =~= old(self).srow(r));
                }
                assert forall|k: int| 0 <= k < oldrow.len()
                    implies #[trigger] newrow[k] == oldrow[k] by {
                    old(self).indexlist.lemma_chain_elem_bound(i as int, k);
                }
                assert(newrow.len() == oldrow.len() + 1);
                assert(newrow[oldrow.len() as int] == (j, val));
                assert(newrow =~= oldrow.push((j, val)));
                assert(oldrow.push((j, val)) =~= oldrow.insert(oldrow.len() as int, (j, val)));
                lemma_row_val_insert(oldrow, oldrow.len() as int, j, val);
                assert forall|i2: int| row_cols_distinct(#[trigger] self.srow(i2)) by {
                    if i2 != i as int {
                        assert(self.srow(i2) == old(self).srow(i2));
                    } else {
                        assert(row_cols_distinct(newrow));
                    }
                }
            }
        }
    }
}

/// Relates the summed row lengths to the linked index's chain lengths.
proof fn lemma_sum_rows_eq_chains<T, I>(m: &SparseMatIndexList<T, I>, upto: int)
    where T: ValueType, I: IndexType
    requires
        m.indexlist.wf(),
        0 <= upto <= m.indexlist.chains@.len(),
    ensures
        sum_row_lens(Seq::new(upto as nat, |i: int| m.srow(i)))
            == crate::rowindexlist::sum_lens(m.indexlist.chains@.take(upto)),
    decreases upto,
{
    let rs = Seq::new(upto as nat, |i: int| m.srow(i));
    let cs = m.indexlist.chains@.take(upto);
    if upto > 0 {
        lemma_sum_rows_eq_chains(m, upto - 1);
        assert(rs.drop_last() =~= Seq::new((upto - 1) as nat, |i: int| m.srow(i)));
        assert(cs.drop_last() =~= m.indexlist.chains@.take(upto - 1));
        assert(rs.last() == m.srow(upto - 1));
        assert(cs.last() == m.indexlist.chains@[upto - 1]);
        assert(m.srow(upto - 1).len() == m.indexlist.chain(upto - 1).len());
    } else {
        assert(rs =~= Seq::<Seq<(usize, T)>>::empty());
        assert(cs =~= Seq::<Seq<int>>::empty());
    }
}

impl<T, I> SparseMatrix for SparseMatIndexList<T, I>
    where T: ValueType, I: IndexType
{
    type Value = T;

    type Index = I;

    open spec fn inv(&self) -> bool {
        self.swf()
    }

    open spec fn spec_rows(&self) -> int {
        self.indexlist.spec_n_rows()
    }

    open spec fn spec_cols(&self) -> int {
        self.cols as int
    }

    open spec fn spec_nnz(&self) -> int {
        self.columns@.len() as int
    }

    open spec fn spec_row(&self, i: int) -> Seq<(usize, T)> {
        self.srow(i)
    }

    proof fn lemma_model(&self) {
        I::lemma_max_fits();
        assert forall|i: int| !(0 <= i < self.spec_rows())
            implies #[trigger] self.spec_row(i) == Seq::<(usize, T)>::empty() by {
            assert(self.indexlist.chain(i) == Seq::<int>::empty());
            assert(self.srow(i) =~= Seq::<(usize, T)>::empty());
        }
        assert forall|i: int| crate::model::row_cols_below(
            #[trigger] self.spec_row(i),
            self.spec_cols(),
        ) by {
            assert forall|k: int| 0 <= k < self.srow(i).len()
                implies (#[trigger] self.srow(i)[k]).0 < self.spec_cols() by {
                self.indexlist.lemma_chain_elem_bound(i, k);
            }
        }
        lemma_sum_rows_eq_chains(self, self.indexlist.chains@.len() as int);
        assert(self.indexlist.chains@.take(self.indexlist.chains@.len() as int)
            =~= self.indexlist.chains@);
        assert(Seq::new(self.spec_rows() as nat, |i: int| self.spec_row(i))
            =~~= Seq::new(self.indexlist.chains@.len(), |i: int| self.srow(i)));
    }

    fn with_capacity(cap: usize) -> (r: Self) {
        proof {
            I::lemma_max_fits();
        }
        let r = Self {
            cols: 0,
            columns: Vec::with_capacity(cap),
            values: Vec::with_capacity(cap),
            indexlist: IndexList::with_capacity(cap),
            rows: Vec::new(),
            indexlist_col: IndexList::new(),
            col_assembled: false,
        };
        proof {
            assert forall|i: int| #[trigger] r.spec_row(i) == Seq::<(usize, T)>::empty() by {
                assert(r.srow(i) =~= Seq::<(usize, T)>::empty());
            }
        }
        r
    }

    fn n_rows(&self) -> (r: usize) {
        self.indexlist.n_rows()
    }

    fn n_cols(&self) -> (r: usize) {
        self.cols
    }

    fn n_non_zero_entries(&self) -> (r: usize) {
        self.columns.len()
    }

    fn get(&self, i: usize, j: usize) -> (r: T) {
        proof {
            I::lemma_max_fits();
        }
        let u = I::unset();
        let sentinel = u.as_usize();
        let slot = self.find_index(i, j);
        if slot != sentinel {
            proof {
                if !row_has(self.srow(i as int), j as int) {
                    assert(false);
                }
            }
            self.values[slot]
        } else {
            proof {
                if row_has(self.srow(i as int), j as int) {
                    assert(false);
                }
            }
            T::zero()
        }
    }

    fn set(&mut self, i: usize, j: usize, val: T) {
        self.put(i, j, val);
        proof {
            let oldr = old(self).srow(i as int);
            if row_has(oldr, j as int) {
                let p = row_index_of(oldr, j as int);
                assert(0 <= p < oldr.len());
                assert((j as int) < old(self).cols as int);
            } else {
                assert(final(self).srow(i as int) == oldr.push((j, val)));
                assert(oldr.push((j, val)) =~= oldr.insert(oldr.len() as int, (j, val)));
            }
        }
    }

    fn add_to(&mut self, i: usize, j: usize, val: T) {
        let cur = self.get(i, j);
        self.put(i, j, cur.add_val(val));
        proof {
            let oldr = old(self).srow(i as int);
            if row_has(oldr, j as int) {
                let p = row_index_of(oldr, j as int);
                assert(0 <= p < oldr.len());
                assert((j as int) < old(self).cols as int);
            } else {
                assert(final(self).srow(i as int) == oldr.push((j, cur.sp_add(val))));
                assert(oldr.push((j, cur.sp_add(val))) =~= oldr.insert(
                    oldr.len() as int,
                    (j, cur.sp_add(val)),
                ));
            }
        }
    }

    fn sub_from(&mut self, i: usize, j: usize, val: T) {
        let cur = self.get(i, j);
        self.put(i, j, cur.sub_val(val));
        proof {
            let oldr = old(self).srow(i as int);
            if row_has(oldr, j as int) {
                let p = row_index_of(oldr, j as int);
                assert(0 <= p < oldr.len());
                assert((j as int) < old(self).cols as int);
            } else {
                assert(final(self).srow(i as int) == oldr.push((j, cur.sp_sub(val))));
                assert(oldr.push((j, cur.sp_sub(val))) =~= oldr.insert(
                    oldr.len() as int,
                    (j, cur.sp_sub(val)),
                ));
            }
        }
    }

    fn scale(&mut self, factor: T) {
        let n = self.values.len();
        let mut s: usize = 0;
        while s < n
            invariant
                n == self.values@.len(),
                self.columns@ == old(self).columns@,
                self.indexlist == old(self).indexlist,
                self.rows@ == old(self).rows@,
                self.indexlist_col == old(self).indexlist_col,
                self.cols == old(self).cols,
                self.col_assembled == old(self).col_assembled,
                old(self).swf(),
                self.values@.len() == old(self).values@.len(),
                0 <= s <= n,
                forall|s2: int| 0 <= s2 < s
                    ==> #[trigger] self.values@[s2] == old(self).values@[s2].sp_mul(factor),
                forall|s2: int| s <= s2 < n ==> #[trigger] self.values@[s2]
                    == old(self).values@[s2],
            decreases n - s,
        {
            let cur = self.values[s];
            self.values[s] = cur.mul_val(factor);
            s = s + 1;
        }
        proof {
            assert forall|i: int| crate::model::row_scaled(
                old(self).srow(i),
                #[trigger] final(self).srow(i),
                factor,
            ) by {
                assert(final(self).indexlist.chain(i) == old(self).indexlist.chain(i));
                assert forall|k: int| 0 <= k < old(self).srow(i).len()
                    implies #[trigger] final(self).srow(i)[k] == (
                        old(self).srow(i)[k].0,
                        old(self).srow(i)[k].1.sp_mul(factor),
                    ) by {
                    old(self).indexlist.lemma_chain_elem_bound(i, k);
                }
            }
            assert forall|i: int| row_cols_distinct(#[trigger] final(self).srow(i)) by {
                assert(crate::model::row_scaled(
                    old(self).srow(i),
                    final(self).srow(i),
                    factor,
                ));
                assert forall|k1: int, k2: int|
                    0 <= k1 < k2 < final(self).srow(i).len()
                    implies (#[trigger] final(self).srow(i)[k1]).0
                        != (#[trigger] final(self).srow(i)[k2]).0 by {
                    assert(final(self).srow(i)[k1].0 == old(self).srow(i)[k1].0);
                    assert(final(self).srow(i)[k2].0 == old(self).srow(i)[k2].0);
                }
            }
        }
    }

    fn row_entries(&self, i: usize) -> (r: Vec<(usize, T)>) {
        self.iter_row_entries(i)
    }
}

impl<T, I> crate::sparsematrix::Sortable for SparseMatIndexList<T, I>
    where T: ValueType, I: IndexType
{
    /// Sorts the entries of row `i` by column, ascending, by collecting
    /// the row, sorting it, and writing it back through the row's chain.
    /// The column view is cleared.
    fn sort_row(&mut self, i: usize) {
        proof {
            I::lemma_max_fits();
        }
        self.col_assembled = false;
        proof {
            assert forall|i2: int| row_cols_distinct(#[trigger] self.srow(i2)) by {
                assert(self.srow(i2) =~= old(self).srow(i2));
            }
            assert(self.swf());
        }
        let entries = self.iter_row_entries(i);
        let sorted = sort_pairs(&entries);
        let slots = self.row_slots(i);
        let ghost oldrow = old(self).srow(i as int);
        proof {
            lemma_distinct_perm(sorted@, oldrow);
            assert forall|k2: int| 0 <= k2 < oldrow.len()
                implies 0 <= (#[trigger] oldrow[k2]).0 < self.cols as int by {
                self.indexlist.lemma_chain_elem_bound(i as int, k2);
            }
        }
        let m = slots.len();
        let mut k: usize = 0;
        while k < m
            invariant
                old(self).swf(),
                self.indexlist == old(self).indexlist,
                self.cols == old(self).cols,
                self.rows@ == old(self).rows@,
                self.indexlist_col == old(self).indexlist_col,
                self.col_assembled == false,
                self.columns@.len() == old(self).columns@.len(),
                self.values@.len() == old(self).values@.len(),
                oldrow == old(self).srow(i as int),
                m == slots@.len(),
                m == self.indexlist.chain(i as int).len(),
                m == sorted@.len(),
                forall|k2: int| 0 <= k2 < m
                    ==> (#[trigger] slots@[k2]) as int == self.indexlist.chain(i as int)[k2],
                row_sorted(sorted@),
                row_cols_distinct(sorted@),
                sorted@.to_multiset() == oldrow.to_multiset(),
                forall|k2: int| 0 <= k2 < oldrow.len()
                    ==> 0 <= (#[trigger] oldrow[k2]).0 < self.cols as int,
                0 <= k <= m,
                forall|s2: int|
                    0 <= s2 < self.columns@.len()
                        ==> 0 <= (#[trigger] self.columns@[s2]).as_int() < self.cols as int,
                forall|r: int| r != i as int ==> #[trigger] self.srow(r) == old(self).srow(r),
                forall|k2: int| 0 <= k2 < k
                    ==> #[trigger] self.srow(i as int)[k2] == sorted@[k2],
                forall|k2: int| k <= k2 < m
                    ==> #[trigger] self.srow(i as int)[k2] == oldrow[k2],
            decreases m - k,
        {
            let ghost pre = *self;
            let slot = slots[k];
            proof {
                self.indexlist.lemma_chain_elem_bound(i as int, k as int);
                crate::model::lemma_contains_col_bound(
                    sorted@,
                    oldrow,
                    k as int,
                    self.cols as int,
                );
            }
            let (c, v) = sorted[k];
            let ci = I::from_usize(c);
            self.columns[slot] = ci;
            self.values[slot] = v;
            proof {
                assert forall|r: int| r != i as int
                    implies #[trigger] self.srow(r) == old(self).srow(r) by {
                    assert forall|k2: int| 0 <= k2 < self.indexlist.chain(r).len()
                        implies #[trigger] self.srow(r)[k2] == pre.srow(r)[k2] by {
                        pre.indexlist.lemma_chain_disjoint(r, k2, i as int, k as int);
                    }
                    assert(self.srow(r) =~= pre.srow(r));
                }
                assert(self.srow(i as int)[k as int] == sorted@[k as int]);
                assert forall|k2: int| 0 <= k2 < m && k2 != k as int
                    implies #[trigger] self.srow(i as int)[k2] == pre.srow(i as int)[k2] by {
                    pre.indexlist.lemma_chain_disjoint(i as int, k2, i as int, k as int);
                }
            }
            k = k + 1;
        }
        proof {
            assert(final(self).srow(i as int) =~= sorted@);
            assert forall|i2: int| row_cols_distinct(#[trigger] final(self).srow(i2)) by {
                if i2 != i as int {
                    assert(final(self).srow(i2) == old(self).srow(i2));
                }
            }
            lemma_row_val_perm(sorted@, oldrow);
        }
    }
}

impl<T, I> SparseMatIndexList<T, I>
    where T: ValueType, I: IndexType
{
    /// Returns an iterator over column `col` as `(row, value)` pairs, or
    /// reports that the column view is not available because
    /// `assemble_column_info` has not run since the last change.
    pub fn iter_col(&self, col: usize) -> (r: Result<IterCol<'_, T, I>, SparseMatError>)
        requires
            self.swf(),
        ensures
            match r {
                Ok(it) => {
                    &&& self.col_assembled
                    &&& it.wf()
                    &&& it.remaining_col() == self.scol(col as int)
                },
                Err(e) => !self.col_assembled && e == SparseMatError::NotAvailable,
            },
    {
        if !self.col_assembled {
            return Err(SparseMatError::NotAvailable);
        }
        let it = self.indexlist_col.iter_row(col);
        Ok(IterCol { mat: self, it })
    }

    /// Returns an iterator over the entries of row `row` as
    /// `(column, value)` pairs, in insertion order.
    pub fn iter_row(&self, row: usize) -> (r: IterRow<'_, T, I>)
        requires
            self.swf(),
        ensures
            r.wf(),
            r.remaining_row() == self.srow(row as int),
    {
        let it = self.indexlist.iter_row(row);
        IterRow { mat: self, it }
    }
}

impl<T, I> crate::sparsematrix::ColumnIter for SparseMatIndexList<T, I>
    where T: ValueType, I: IndexType
{
    open spec fn col_ok(&self) -> bool {
        self.col_assembled
    }

    open spec fn spec_col(&self, j: int) -> Seq<(usize, T)> {
        self.scol(j)
    }

    /// The assembled column view mirrors the stored entries exactly: an
    /// entry of column `j` at row `r` exists in the view if and only if
    /// the matrix stores one, with the same value.
    #[verifier::rlimit(100)]
    #[verifier::spinoff_prover]
    proof fn lemma_col_model(&self) {
        I::lemma_max_fits();
        let il = self.indexlist;
        let ilc = self.indexlist_col;
        assert forall|j: int| row_cols_distinct(#[trigger] self.scol(j)) by {
            assert forall|k1: int, k2: int| 0 <= k1 < k2 < self.scol(j).len()
                implies (#[trigger] self.scol(j)[k1]).0 != (#[trigger] self.scol(j)[k2]).0 by {
                let s1 = ilc.chain(j)[k1];
                let s2 = ilc.chain(j)[k2];
                ilc.lemma_chain_elem_bound(j, k1);
                ilc.lemma_chain_elem_bound(j, k2);
                ilc.lemma_chain_disjoint(j, k1, j, k2);
                assert(self.columns@[s1].as_int() == j);
                assert(self.columns@[s2].as_int() == j);
                assert(crate::rowindexlist::slot_in_chains(il.chains@, s1));
                let (r1, p1) = choose|r1: int, p1: int|
                    0 <= r1 < il.chains@.len() && 0 <= p1 < il.chains@[r1].len()
                    && (#[trigger] il.chains@[r1][p1]) == s1;
                assert(crate::rowindexlist::slot_in_chains(il.chains@, s2));
                let (r2, p2) = choose|r2: int, p2: int|
                    0 <= r2 < il.chains@.len() && 0 <= p2 < il.chains@[r2].len()
                    && (#[trigger] il.chains@[r2][p2]) == s2;
                assert(il.chain(r1)[p1] == s1);
                assert(il.chain(r2)[p2] == s2);
                assert(self.rows@[s1].as_int() == r1);
                assert(self.rows@[s2].as_int() == r2);
                self.rows@[s1].lemma_in_range();
                self.rows@[s2].lemma_in_range();
                if r1 == r2 {
                    assert(p1 != p2);
                    assert(self.srow(r1)[p1].0 as int == j);
                    assert(self.srow(r1)[p2].0 as int == j);
                    assert(row_cols_distinct(self.srow(r1)));
                    assert(false);
                }
                assert(self.scol(j)[k1].0 as int == r1);
                assert(self.scol(j)[k2].0 as int == r2);
            }
        }
        assert forall|j: int, r: int| #[trigger] row_has(self.scol(j), r) == row_has(
            self.srow(r),
            j,
        ) by {
            if row_has(self.scol(j), r) {
                let k = row_index_of(self.scol(j), r);
                let ss = ilc.chain(j)[k];
                ilc.lemma_chain_elem_bound(j, k);
                assert(self.columns@[ss].as_int() == j);
                assert(crate::rowindexlist::slot_in_chains(il.chains@, ss));
                let (r0, p0) = choose|r0: int, p0: int|
                    0 <= r0 < il.chains@.len() && 0 <= p0 < il.chains@[r0].len()
                    && (#[trigger] il.chains@[r0][p0]) == ss;
                assert(il.chain(r0)[p0] == ss);
                assert(self.rows@[ss].as_int() == r0);
                self.rows@[ss].lemma_in_range();
                assert(self.scol(j)[k].0 as int == r0);
                assert(r0 == r);
                assert(self.srow(r)[p0].0 as int == j);
                assert(row_has(self.srow(r), j));
            }
            if row_has(self.srow(r), j) {
                let p = row_index_of(self.srow(r), j);
                let ss = il.chain(r)[p];
                il.lemma_chain_elem_bound(r, p);
                assert(self.srow(r)[p].0 as int == j);
                assert(self.columns@[ss].as_int() == j);
                assert(ilc.chain(self.columns@[ss].as_int()).contains(ss));
                let k = choose|k: int| 0 <= k < ilc.chain(j).len() && ilc.chain(j)[k] == ss;
                assert(self.rows@[ss].as_int() == r);
                self.rows@[ss].lemma_in_range();
                assert(self.scol(j)[k].0 as int == r);
                assert(row_has(self.scol(j), r));
            }
        }
        assert forall|j: int, r: int| #[trigger] row_val(self.scol(j), r) == row_val(
            self.srow(r),
            j,
        ) by {
            if row_has(self.srow(r), j) {
                let p = row_index_of(self.srow(r), j);
                lemma_row_val_has(self.srow(r), p);
                let ss = il.chain(r)[p];
                il.lemma_chain_elem_bound(r, p);
                assert(self.srow(r)[p].0 as int == j);
                assert(self.columns@[ss].as_int() == j);
                assert(ilc.chain(self.columns@[ss].as_int()).contains(ss));
                let k = choose|k: int| 0 <= k < ilc.chain(j).len() && ilc.chain(j)[k] == ss;
                assert(self.rows@[ss].as_int() == r);
                self.rows@[ss].lemma_in_range();
                assert(self.scol(j)[k] == (r as usize, self.values@[ss]));
                assert(self.srow(r)[p].1 == self.values@[ss]);
                lemma_row_val_has(self.scol(j), k);
            } else {
                assert(!row_has(self.scol(j), r));
            }
        }
    }

    /// Assembles the column view: records each slot's owning row and
    /// builds a second linked index whose chains are keyed by column.
    /// The stored entries are unchanged.
    fn assemble_column_info(&mut self)
    {
        proof {
            I::lemma_max_fits();
        }
        let nslots = self.columns.len();
        let u = I::unset();
        // First pass: record each slot's owning row.
        let mut rows_new: Vec<I> = Vec::with_capacity(nslots);
        while rows_new.len() < nslots
            invariant
                rows_new@.len() <= nslots,
            decreases nslots - rows_new.len(),
        {
            rows_new.push(u);
        }
        let nrows = self.indexlist.n_rows();
        let mut r: usize = 0;
        while r < nrows
            invariant
                self.swf(),
                nrows as int == self.indexlist.spec_n_rows(),
                nslots == self.columns@.len(),
                rows_new@.len() == nslots,
                0 <= r <= nrows,
                forall|r2: int, k: int|
                    0 <= r2 < r && 0 <= k < self.indexlist.chain(r2).len()
                        ==> (#[trigger] rows_new@[self.indexlist.chain(r2)[k]]).as_int() == r2,
            decreases nrows - r,
        {
            let slots = self.row_slots(r);
            let m = slots.len();
            let ri = I::from_usize(r);
            let mut k: usize = 0;
            while k < m
                invariant
                    self.swf(),
                    nslots == self.columns@.len(),
                    rows_new@.len() == nslots,
                    0 <= r < self.indexlist.spec_n_rows(),
                    (r as int) < I::max_spec(),
                    ri.as_int() == r as int,
                    m == slots@.len(),
                    m == self.indexlist.chain(r as int).len(),
                    forall|k2: int| 0 <= k2 < m
                        ==> (#[trigger] slots@[k2]) as int == self.indexlist.chain(r as int)[k2],
                    0 <= k <= m,
                    forall|r2: int, k2: int|
                        0 <= r2 < r && 0 <= k2 < self.indexlist.chain(r2).len()
                            ==> (#[trigger] rows_new@[self.indexlist.chain(r2)[k2]]).as_int()
                                == r2,
                    forall|k2: int| 0 <= k2 < k
                        ==> (#[trigger] rows_new@[self.indexlist.chain(r as int)[k2]]).as_int()
                            == r as int,
                decreases m - k,
            {
                let slot = slots[k];
                proof {
                    self.indexlist.lemma_chain_elem_bound(r as int, k as int);
                }
                let ghost prev = rows_new@;
                rows_new[slot] = ri;
                proof {
                    assert forall|r2: int, k2: int|
                        0 <= r2 < r && 0 <= k2 < self.indexlist.chain(r2).len()
                        implies (#[trigger] rows_new@[self.indexlist.chain(r2)[k2]]).as_int()
                            == r2 by {
                        self.indexlist.lemma_chain_disjoint(r2, k2, r as int, k as int);
                    }
                    assert forall|k2: int| 0 <= k2 < k + 1
                        implies (#[trigger] rows_new@[self.indexlist.chain(r as int)[k2]])
                            .as_int() == r as int by {
                        if k2 < k as int {
                            self.indexlist.lemma_chain_disjoint(
                                r as int,
                                k2,
                                r as int,
                                k as int,
                            );
                        }
                    }
                }
                k = k + 1;
            }
            r = r + 1;
        }
        self.col_assembled = false;
        self.rows = rows_new;
        proof {
            assert forall|i2: int| row_cols_distinct(#[trigger] self.srow(i2)) by {
                assert(self.srow(i2) =~= old(self).srow(i2));
            }
            assert(self.swf());
        }
        // Second pass: chain the slots of each column, in slot order.
        let mut ilc = IndexList::<I>::new();
        let mut s: usize = 0;
        while s < nslots
            invariant
                self.swf(),
                nslots == self.columns@.len(),
                self.rows@.len() == nslots,
                forall|r2: int, k: int|
                    0 <= k < self.indexlist.chain(r2).len()
                        ==> (#[trigger] self.rows@[self.indexlist.chain(r2)[k]]).as_int() == r2,
                ilc.wf(),
                0 <= s <= nslots,
                ilc.spec_n_entries() == s,
                ilc.spec_n_rows() <= self.cols as int,
                forall|j: int, k: int|
                    0 <= k < ilc.chain(j).len()
                        ==> (#[trigger] self.columns@[ilc.chain(j)[k]]).as_int() == j,
                forall|s2: int|
                    0 <= s2 < s
                        ==> #[trigger] ilc.chain(self.columns@[s2].as_int()).contains(s2),
            decreases nslots - s,
        {
            let ghost pre = ilc;
            let col = self.columns[s];
            let cu = col.as_usize();
            let _pushed: usize = ilc.push(cu);
            proof {
                assert(ilc.chain(cu as int) == pre.chain(cu as int).push(s as int));
                assert forall|j: int, k: int| 0 <= k < ilc.chain(j).len()
                    implies (#[trigger] self.columns@[ilc.chain(j)[k]]).as_int() == j by {
                    if j == cu as int && k == ilc.chain(j).len() - 1 {
                        assert(ilc.chain(j)[k] == s as int);
                    } else {
                        assert(ilc.chain(j)[k] == pre.chain(j)[k]);
                    }
                }
                assert forall|s2: int| 0 <= s2 < s + 1
                    implies #[trigger] ilc.chain(self.columns@[s2].as_int()).contains(s2) by {
                    let j2 = self.columns@[s2].as_int();
                    if s2 == s as int {
                        assert(ilc.chain(j2).last() == s as int);
                        assert(ilc.chain(j2).contains(s2));
                    } else {
                        assert(pre.chain(j2).contains(s2));
                        let k2 = choose|k2: int|
                            0 <= k2 < pre.chain(j2).len() && pre.chain(j2)[k2] == s2;
                        if j2 == cu as int {
                            assert(ilc.chain(j2)[k2] == s2);
                        } else {
                            assert(ilc.chain(j2) == pre.chain(j2));
                        }
                        assert(ilc.chain(j2).contains(s2));
                    }
                }
            }
            s = s + 1;
        }
        self.indexlist_col = ilc;
        self.col_assembled = true;
        proof {
            assert forall|i2: int| row_cols_distinct(#[trigger] self.srow(i2)) by {
                assert(self.srow(i2) =~= old(self).srow(i2));
            }
            assert(self.col_wf());
            assert(self.swf());
            assert forall|i2: int| final(self).srow(i2) == old(self).srow(i2) by {
                assert(final(self).srow(i2) =~= old(self).srow(i2));
            }
        }
    }


    fn has_iter_col(&self) -> (r: bool) {
        self.col_assembled
    }

    fn col_entries(&self, j: usize) -> (r: Result<Vec<(usize, T)>, crate::sparsematrix::SparseMatError>) {
        proof {
            I::lemma_max_fits();
        }
        if !self.col_assembled {
            return Err(SparseMatError::NotAvailable);
        }
        let slots = self.indexlist_col.chain_slots(j);
        let n = slots.len();
        let mut out: Vec<(usize, T)> = Vec::with_capacity(n);
        let mut k: usize = 0;
        while k < n
            invariant
                self.swf(),
                self.col_assembled,
                n == slots@.len(),
                n == self.indexlist_col.chain(j as int).len(),
                forall|k2: int| 0 <= k2 < n
                    ==> (#[trigger] slots@[k2]) as int == self.indexlist_col.chain(j as int)[k2],
                0 <= k <= n,
                out@.len() == k,
                forall|k2: int| 0 <= k2 < k ==> #[trigger] out@[k2] == self.scol(j as int)[k2],
            decreases n - k,
        {
            let slot = slots[k];
            proof {
                I::lemma_max_fits();
                self.indexlist_col.lemma_chain_elem_bound(j as int, k as int);
            }
            let rr = self.rows[slot];
            let v = self.values[slot];
            out.push((rr.as_usize(), v));
            k = k + 1;
        }
        proof {
            assert(out@ =~= self.scol(j as int));
        }
        Ok(out)
    }
}

/// Iterator over one row's entries of an incremental matrix.
pub struct IterRow<'a, T, I> {
    pub mat: &'a SparseMatIndexList<T, I>,
    pub it: crate::rowindexlist::IterRow<'a, I>,
}

impl<'a, T, I> IterRow<'a, T, I>
    where T: ValueType, I: IndexType
{
    /// The entries not yet yielded.
    pub open spec fn remaining_row(&self) -> Seq<(usize, T)> {
        self.it.remaining().map_values(
            |s: int| (self.mat.columns@[s].as_int() as usize, self.mat.values@[s]),
        )
    }

    /// Well-formedness of the cursor.
    pub open spec fn wf(&self) -> bool {
        &&& self.mat.swf()
        &&& self.it.wf()
        &&& self.it.list() == &self.mat.indexlist
    }

    /// Yields the next `(column, value)` pair of the row.
    pub fn next(&mut self) -> (r: Option<(usize, T)>)
        requires
            old(self).wf(),
        ensures
            final(self).wf(),
            final(self).mat == old(self).mat,
            old(self).remaining_row().len() > 0 ==> {
                &&& r == Some(old(self).remaining_row()[0])
                &&& final(self).remaining_row() == old(self).remaining_row().skip(1)
            },
            old(self).remaining_row().len() == 0 ==> {
                &&& r is None
                &&& final(self).remaining_row() == old(self).remaining_row()
            },
    {
        proof {
            I::lemma_max_fits();
            if self.it.remaining().len() > 0 {
                let ch = self.it.full_chain();
                self.mat.indexlist.lemma_chain_elem_bound(self.it.row@, self.it.k@);
                assert(self.it.remaining()[0] == ch[self.it.k@]);
            }
        }
        match self.it.next() {
            Some(slot) => {
                let c = self.mat.columns[slot];
                let v = self.mat.values[slot];
                proof {
                    assert(final(self).remaining_row() =~= old(self).remaining_row().skip(1));
                }
                Some((c.as_usize(), v))
            },
            None => None,
        }
    }
}

/// Iterator over one column's entries of an incremental matrix, available
/// after `assemble_column_info`.
pub struct IterCol<'a, T, I> {
    pub mat: &'a SparseMatIndexList<T, I>,
    pub it: crate::rowindexlist::IterRow<'a, I>,
}

impl<'a, T, I> IterCol<'a, T, I>
    where T: ValueType, I: IndexType
{
    /// The `(row, value)` pairs not yet yielded.
    pub open spec fn remaining_col(&self) -> Seq<(usize, T)> {
        self.it.remaining().map_values(
            |s: int| (self.mat.rows@[s].as_int() as usize, self.mat.values@[s]),
        )
    }

    /// Well-formedness of the cursor.
    pub open spec fn wf(&self) -> bool {
        &&& self.mat.swf()
        &&& self.mat.col_assembled
        &&& self.it.wf()
        &&& self.it.list() == &self.mat.indexlist_col
    }

    /// Yields the next `(row, value)` pair of the column.
    pub fn next(&mut self) -> (r: Option<(usize, T)>)
        requires
            old(self).wf(),
        ensures
            final(self).wf(),
            final(self).mat == old(self).mat,
            old(self).remaining_col().len() > 0 ==> {
                &&& r == Some(old(self).remaining_col()[0])
                &&& final(self).remaining_col() == old(self).remaining_col().skip(1)
            },
            old(self).remaining_col().len() == 0 ==> {
                &&& r is None
                &&& final(self).remaining_col() == old(self).remaining_col()
            },
    {
        proof {
            I::lemma_max_fits();
            if self.it.remaining().len() > 0 {
                let ch = self.it.full_chain();
                self.mat.indexlist_col.lemma_chain_elem_bound(self.it.row@, self.it.k@);
                assert(self.it.remaining()[0] == ch[self.it.k@]);
            }
        }
        match self.it.next() {
            Some(slot) => {
                let rr = self.mat.rows[slot];
                let v = self.mat.values[slot];
                proof {
                    assert(final(self).remaining_col() =~= old(self).remaining_col().skip(1));
                }
                Some((rr.as_usize(), v))
            },
            None => None,
        }
    }
}

impl<T, I> SparseMatIndexList<T, I>
    where T: ValueType, I: IndexType
{
    /// Converts to compressed-row storage in one pass over the rows.
    /// Reading any cell of the result gives the same value as reading the
    /// source: the round trip through the conversion is exact.
    pub fn to_crs(&self) -> (r: crate::sparsemat_crs::SparseMatCRS<T, I>)
        requires
            self.swf(),
        ensures
            r.swf(),
            forall|i: int, j: int| #[trigger] row_val(r.srow(i), j) == row_val(self.srow(i), j),
            self.columns@.len() > 0 ==> {
                &&& r.nrows as int == self.indexlist.spec_n_rows()
                &&& r.cols == self.cols
                &&& forall|i: int| #[trigger] r.srow(i) == self.srow(i)
            },
    {
        let r = crate::sparsemat_crs::SparseMatCRS::from_sparsemat_index(self);
        proof {
            assert forall|i: int, j: int| #[trigger] row_val(r.srow(i), j) == row_val(
                self.srow(i),
                j,
            ) by {
                if self.columns@.len() == 0 {
                    // An empty source has only empty chains, so both sides
                    // read zero everywhere.
                    if row_has(self.srow(i), j) {
                        let p = row_index_of(self.srow(i), j);
                        self.indexlist.lemma_chain_elem_bound(i, p);
                        assert(false);
                    }
                    if row_has(r.srow(i), j) {
                        let p = row_index_of(r.srow(i), j);
                        assert(r.srow(i).len() > 0);
                        assert(false);
                    }
                } else {
                    assert(r.srow(i) == self.srow(i));
                }
            }
        }
        r
    }
}

impl<T, I> SparseMatIndexList<T, I>
    where T: ValueType, I: IndexType
{
    /// Returns an iterator over every stored entry as a
    /// `(row, column, value)` triple, row-major, each row in insertion
    /// order.
    pub fn iter(&self) -> (r: crate::sparsematrix::EntriesIter<T>)
        requires
            self.swf(),
        ensures
            r.remaining() == crate::sparsematrix::spec_triples(self, self.indexlist.spec_n_rows()),
    {
        let data = crate::sparsematrix::entries_vec(self);
        let r = crate::sparsematrix::EntriesIter { data, pos: 0 };
        proof {
            assert(r.remaining() =~= r.data@);
        }
        r
    }
}

} // verus!
