//! A simple sparse vector: positions and values in two parallel dynamic
//! arrays, with at most one live value per position.  Lookup is a linear
//! scan; absence of a position is semantically zero.
//!
//! The model is the same `(position, value)` pair sequence used for
//! matrix rows, so the row lemmas apply unchanged.

use vstd::prelude::*;
use crate::types::{IndexType, ValueType};
use crate::model::{
    row_has, row_val, row_index_of, row_cols_distinct, row_sorted, lemma_row_val_has,
    lemma_row_val_update, lemma_row_val_insert, sort_pairs, lemma_row_val_perm,
    lemma_distinct_perm, lemma_contains_col_bound,
};
use crate::sparsematrix::SparseMatrix;

verus! {

/// Sparse vector storage: parallel position and value arrays.
#[derive(Clone)]
pub struct SparseVec<T, I> {
    pub values: Vec<T>,
    pub indices: Vec<I>,
    pub dim: usize,
}

impl<T, I> SparseVec<T, I>
    where T: ValueType, I: IndexType
{
    /// The stored `(position, value)` pairs, in storage order.
    pub open spec fn pairs(&self) -> Seq<(usize, T)> {
        Seq::new(self.indices@.len(), |k: int| (self.indices@[k].as_int() as usize, self.values@[k]))
    }

    /// The vector invariant: parallel arrays of equal length, distinct
    /// in-range positions.
    pub open spec fn vwf(&self) -> bool {
        &&& self.indices@.len() == self.values@.len()
        &&& forall|k: int| 0 <= k < self.indices@.len()
                ==> 0 <= (#[trigger] self.indices@[k]).as_int() < I::max_spec()
        &&& row_cols_distinct(self.pairs())
    }

    /// Creates an empty sparse vector.
    pub fn new() -> (r: Self)
        ensures
            r.vwf(),
            r.pairs() == Seq::<(usize, T)>::empty(),
            r.dim == 0,
    {
        let r = Self { values: Vec::new(), indices: Vec::new(), dim: 0 };
        proof {
            assert(r.pairs() =~= Seq::<(usize, T)>::empty());
        }
        r
    }

    /// Creates an empty sparse vector with reserved space.
    pub fn with_capacity(cap: usize) -> (r: Self)
        ensures
            r.vwf(),
            r.pairs() == Seq::<(usize, T)>::empty(),
            r.dim == 0,
    {
        let r = Self {
            values: Vec::with_capacity(cap),
            indices: Vec::with_capacity(cap),
            dim: 0,
        };
        proof {
            assert(r.pairs() =~= Seq::<(usize, T)>::empty());
        }
        r
    }

    /// Wraps a dense array of values: position `k` holds the `k`-th value.
    pub fn from_vec(vec: Vec<T>) -> (r: Self)
        requires
            (vec@.len() as int) < I::max_spec(),
        ensures
            r.vwf(),
            r.pairs().len() == vec@.len(),
            forall|k: int| 0 <= k < vec@.len() ==> #[trigger] r.pairs()[k] == (k as usize, vec@[k]),
    {
        proof {
            I::lemma_max_fits();
        }
        let n = vec.len();
        let mut indices: Vec<I> = Vec::with_capacity(n);
        let mut k: usize = 0;
        while k < n
            invariant
                (n as int) < I::max_spec(),
                I::max_spec() <= usize::MAX as int,
                0 <= k <= n,
                indices@.len() == k,
                forall|k2: int| 0 <= k2 < k ==> (#[trigger] indices@[k2]).as_int() == k2,
            decreases n - k,
        {
            let ind = I::from_usize(k);
            indices.push(ind);
            k = k + 1;
        }
        let r = Self { values: vec, indices, dim: 0 };
        proof {
            assert forall|k1: int, k2: int| 0 <= k1 < k2 < r.pairs().len()
                implies (#[trigger] r.pairs()[k1]).0 != (#[trigger] r.pairs()[k2]).0 by {
            }
        }
        r
    }

    /// The dimension: one past the largest position ever written.
    pub fn dim(&self) -> (r: usize)
        ensures
            r == self.dim,
    {
        self.dim
    }

    /// The number of stored entries.
    pub fn n_non_zero_entries(&self) -> (r: usize)
        ensures
            r as int == self.pairs().len(),
    {
        self.indices.len()
    }

    /// Returns the value at position `i`, or zero if none is stored.
    pub fn get(&self, i: usize) -> (r: T)
        requires
            self.vwf(),
        ensures
            r == row_val(self.pairs(), i as int),
    {
        proof {
            I::lemma_max_fits();
        }
        let n = self.indices.len();
        let mut k: usize = 0;
        while k < n
            invariant
                self.vwf(),
                n == self.indices@.len(),
                0 <= k <= n,
                forall|k2: int| 0 <= k2 < k ==> (#[trigger] self.pairs()[k2]).0 != i,
            decreases n - k,
        {
            let ind = self.indices[k];
            if ind.as_usize() == i {
                proof {
                    assert(self.pairs()[k as int].0 == i);
                    lemma_row_val_has(self.pairs(), k as int);
                }
                return self.values[k];
            }
            k = k + 1;
        }
        proof {
            if row_has(self.pairs(), i as int) {
                let p = row_index_of(self.pairs(), i as int);
                assert(self.pairs()[p].0 != i);
                assert(false);
            }
        }
        T::zero()
    }

    /// Sets the value at position `i`: replaces a stored entry in place,
    /// appends a new one otherwise.  The dimension grows to cover `i`.
    pub fn set(&mut self, i: usize, val: T)
        requires
            old(self).vwf(),
            (i as int) < I::max_spec(),
        ensures
            final(self).vwf(),
            row_val(final(self).pairs(), i as int) == val,
            forall|j2: int| j2 != i as int
                ==> row_val(final(self).pairs(), j2) == row_val(old(self).pairs(), j2),
            forall|j2: int| row_has(final(self).pairs(), j2)
                == (j2 == i as int || row_has(old(self).pairs(), j2)),
            final(self).pairs().len() == old(self).pairs().len() + if row_has(
                old(self).pairs(),
                i as int,
            ) {
                0int
            } else {
                1int
            },
            final(self).dim as int == if i as int + 1 > old(self).dim as int { i as int + 1 } else { old(self).dim as int },
    {
        proof {
            I::lemma_max_fits();
        }
        if self.dim < i + 1 {
            self.dim = i + 1;
        }
        let ghost oldpairs = self.pairs();
        proof {
            assert(oldpairs =~= old(self).pairs());
        }
        let n = self.indices.len();
        let mut k: usize = 0;
        while k < n
            invariant
                self.vwf(),
                oldpairs == self.pairs(),
                oldpairs == old(self).pairs(),
                self.dim as int == if i as int + 1 > old(self).dim as int {
                    i as int + 1
                } else {
                    old(self).dim as int
                },
                (i as int) < I::max_spec(),
                n == self.indices@.len(),
                0 <= k <= n,
                forall|k2: int| 0 <= k2 < k ==> (#[trigger] self.pairs()[k2]).0 != i,
            decreases n - k,
        {
            let ind = self.indices[k];
            if ind.as_usize() == i {
                proof {
                    assert(self.pairs()[k as int].0 == i);
                    lemma_row_val_has(self.pairs(), k as int);
                }
                self.values[k] = val;
                proof {
                    assert(final(self).pairs() =~= oldpairs.update(k as int, (i, val)));
                    assert(oldpairs.update(k as int, (i, val)) == oldpairs.update(
                        k as int,
                        (oldpairs[k as int].0, val),
                    ));
                    lemma_row_val_update(oldpairs, k as int, val);
                }
                return;
            }
            k = k + 1;
        }
        proof {
            if row_has(oldpairs, i as int) {
                let p = row_index_of(oldpairs, i as int);
                assert(oldpairs[p].0 != i);
                assert(false);
            }
        }
        let ind = I::from_usize(i);
        self.indices.push(ind);
        self.values.push(val);
        proof {
            assert(final(self).pairs() =~= oldpairs.push((i, val)));
            assert(oldpairs.push((i, val)) =~= oldpairs.insert(oldpairs.len() as int, (i, val)));
            lemma_row_val_insert(oldpairs, oldpairs.len() as int, i, val);
        }
    }

    /// Adds `val` to the value at position `i`, creating it from zero
    /// when absent.
    pub fn add_to(&mut self, i: usize, val: T)
        requires
            old(self).vwf(),
            (i as int) < I::max_spec(),
        ensures
            final(self).vwf(),
            row_val(final(self).pairs(), i as int) == row_val(
                old(self).pairs(),
                i as int,
            ).sp_add(val),
            forall|j2: int| j2 != i as int
                ==> row_val(final(self).pairs(), j2) == row_val(old(self).pairs(), j2),
    {
        let cur = self.get(i);
        self.set(i, cur.add_val(val));
    }

    /// Scales every stored value.
    pub fn scale(&mut self, factor: T)
        requires
            old(self).vwf(),
        ensures
            final(self).vwf(),
            final(self).pairs().len() == old(self).pairs().len(),
            final(self).dim == old(self).dim,
            forall|k: int| 0 <= k < old(self).pairs().len()
                ==> #[trigger] final(self).pairs()[k] == (
                    old(self).pairs()[k].0,
                    old(self).pairs()[k].1.sp_mul(factor),
                ),
    {
        let n = self.values.len();
        let mut k: usize = 0;
        while k < n
            invariant
                n == self.values@.len(),
                self.indices@ == old(self).indices@,
                self.dim == old(self).dim,
                old(self).vwf(),
                self.values@.len() == old(self).values@.len(),
                0 <= k <= n,
                forall|k2: int| 0 <= k2 < k
                    ==> #[trigger] self.values@[k2] == old(self).values@[k2].sp_mul(factor),
                forall|k2: int| k <= k2 < n ==> #[trigger] self.values@[k2]
                    == old(self).values@[k2],
            decreases n - k,
        {
            let cur = self.values[k];
            self.values[k] = cur.mul_val(factor);
            k = k + 1;
        }
        proof {
            assert forall|k1: int, k2: int| 0 <= k1 < k2 < final(self).pairs().len()
                implies (#[trigger] final(self).pairs()[k1]).0
                    != (#[trigger] final(self).pairs()[k2]).0 by {
                assert(final(self).pairs()[k1].0 == old(self).pairs()[k1].0);
                assert(final(self).pairs()[k2].0 == old(self).pairs()[k2].0);
            }
            assert(final(self).indices@ == old(self).indices@);
            assert forall|k2: int| 0 <= k2 < final(self).indices@.len()
                implies 0 <= (#[trigger] final(self).indices@[k2]).as_int() < I::max_spec() by {
                assert(0 <= (old(self).indices@[k2]).as_int() < I::max_spec());
                assert(final(self).indices@[k2] == old(self).indices@[k2]);
            }
        }
    }

    /// Sorts the stored entries by position, ascending.  The entries are
    /// unchanged as a set, and every position reads the same.
    pub fn sort(&mut self)
        requires
            old(self).vwf(),
        ensures
            final(self).vwf(),
            final(self).dim == old(self).dim,
            row_sorted(final(self).pairs()),
            final(self).pairs().to_multiset() == old(self).pairs().to_multiset(),
            forall|j2: int| row_val(final(self).pairs(), j2) == row_val(old(self).pairs(), j2),
    {
        proof {
            I::lemma_max_fits();
        }
        let entries = self.iter_sparse_entries();
        let sorted = sort_pairs(&entries);
        let ghost oldpairs = self.pairs();
        proof {
            lemma_distinct_perm(sorted@, oldpairs);
        }
        let m = sorted.len();
        let mut new_inds: Vec<I> = Vec::with_capacity(m);
        let mut new_vals: Vec<T> = Vec::with_capacity(m);
        let mut k: usize = 0;
        while k < m
            invariant
                self.vwf(),
                oldpairs == self.pairs(),
                m == sorted@.len(),
                sorted@.to_multiset() == oldpairs.to_multiset(),
                forall|k2: int| 0 <= k2 < oldpairs.len()
                    ==> 0 <= (#[trigger] oldpairs[k2]).0 < I::max_spec(),
                I::max_spec() <= usize::MAX as int,
                0 <= k <= m,
                new_inds@.len() == k,
                new_vals@.len() == k,
                forall|k2: int| 0 <= k2 < k
                    ==> (#[trigger] new_inds@[k2]).as_int() == sorted@[k2].0 as int,
                forall|k2: int| 0 <= k2 < k ==> #[trigger] new_vals@[k2] == sorted@[k2].1,
            decreases m - k,
        {
            let (c, v) = sorted[k];
            proof {
                lemma_contains_col_bound(sorted@, oldpairs, k as int, I::max_spec());
            }
            let ci = I::from_usize(c);
            new_inds.push(ci);
            new_vals.push(v);
            k = k + 1;
        }
        self.indices = new_inds;
        self.values = new_vals;
        proof {
            assert(final(self).pairs() =~= sorted@);
            lemma_row_val_perm(sorted@, oldpairs);
            assert forall|k2: int| 0 <= k2 < final(self).indices@.len()
                implies 0 <= (#[trigger] final(self).indices@[k2]).as_int() < I::max_spec() by {
                lemma_contains_col_bound(sorted@, oldpairs, k2, I::max_spec());
            }
        }
    }

    /// Materializes the stored `(position, value)` pairs, in storage
    /// order.
    pub fn iter_sparse_entries(&self) -> (r: Vec<(usize, T)>)
        requires
            self.vwf(),
        ensures
            r@ == self.pairs(),
    {
        proof {
            I::lemma_max_fits();
        }
        let n = self.indices.len();
        let mut out: Vec<(usize, T)> = Vec::with_capacity(n);
        let mut k: usize = 0;
        while k < n
            invariant
                self.vwf(),
                n == self.indices@.len(),
                0 <= k <= n,
                out@.len() == k,
                forall|k2: int| 0 <= k2 < k ==> #[trigger] out@[k2] == self.pairs()[k2],
            decreases n - k,
        {
            let ind = self.indices[k];
            let v = self.values[k];
            out.push((ind.as_usize(), v));
            k = k + 1;
        }
        proof {
            assert(out@ =~= self.pairs());
        }
        out
    }

    /// Returns an iterator over the stored `(position, value)` pairs, in
    /// storage order.
    pub fn iter_sparse(&self) -> (r: IterSparse<T>)
        requires
            self.vwf(),
        ensures
            r.remaining() == self.pairs(),
    {
        let data = self.iter_sparse_entries();
        let r = IterSparse { data, pos: 0 };
        proof {
            assert(r.remaining() =~= r.data@);
        }
        r
    }

    /// Returns an iterator over all values up to the last stored entry,
    /// in position order, with zeros for absent positions.
    pub fn iter(&self) -> (r: IterVal<T>)
        requires
            self.vwf(),
        ensures
            r.wf(),
            r.data@.to_multiset() == self.pairs().to_multiset(),
            forall|j2: int| row_val(r.data@, j2) == row_val(self.pairs(), j2),
    {
        let entries = self.iter_sparse_entries();
        let data = sort_pairs(&entries);
        proof {
            lemma_distinct_perm(data@, self.pairs());
            lemma_row_val_perm(data@, self.pairs());
        }
        IterVal { data, pos: 0, index: 0 }
    }
}

/// Iterator over the stored `(position, value)` pairs of a sparse vector.
pub struct IterSparse<T> {
    pub data: Vec<(usize, T)>,
    pub pos: usize,
}

impl<T> IterSparse<T>
    where T: ValueType
{
    /// The pairs not yet yielded.
    pub open spec fn remaining(&self) -> Seq<(usize, T)> {
        if self.pos <= self.data@.len() {
            self.data@.skip(self.pos as int)
        } else {
            Seq::empty()
        }
    }

    /// Yields the next `(position, value)` pair.
    pub fn next(&mut self) -> (r: Option<(usize, T)>)
        ensures
            old(self).remaining().len() > 0 ==> {
                &&& r == Some(old(self).remaining()[0])
                &&& final(self).remaining() == old(self).remaining().skip(1)
            },
            old(self).remaining().len() == 0 ==> {
                &&& r is None
                &&& final(self).remaining() == old(self).remaining()
            },
    {
        if self.pos < self.data.len() {
            let e = self.data[self.pos];
            self.pos = self.pos + 1;
            proof {
                assert(final(self).remaining() =~= old(self).remaining().skip(1));
            }
            Some(e)
        } else {
            None
        }
    }
}

/// Iterator over all values of a sparse vector in position order,
/// including the implicit zeros between stored entries.  It ends after
/// the last stored entry.
pub struct IterVal<T> {
    pub data: Vec<(usize, T)>,
    pub pos: usize,
    pub index: usize,
}

impl<T> IterVal<T>
    where T: ValueType
{
    /// The cursor is within the sorted data and has passed every entry
    /// before `index`.
    pub open spec fn wf(&self) -> bool {
        &&& row_sorted(self.data@)
        &&& row_cols_distinct(self.data@)
        &&& self.pos <= self.data@.len()
        &&& (self.pos as int) < self.data@.len()
                ==> self.index <= self.data@[self.pos as int].0
    }

    /// Yields the value at the current position: the stored entry when
    /// one exists there, zero otherwise.  Ends after the last stored
    /// entry.
    pub fn next(&mut self) -> (r: Option<T>)
        requires
            old(self).wf(),
        ensures
            final(self).wf(),
            final(self).data == old(self).data,
            (old(self).pos as int) < old(self).data@.len() ==> r == Some(
                if old(self).data@[old(self).pos as int].0 == old(self).index {
                    old(self).data@[old(self).pos as int].1
                } else {
                    T::sp_zero()
                },
            ),
            old(self).pos as int == old(self).data@.len() ==> r is None,
    {
        if self.pos < self.data.len() {
            let (c, v) = self.data[self.pos];
            let r = if c == self.index {
                self.pos = self.pos + 1;
                Some(v)
            } else {
                Some(T::zero())
            };
            if self.index < usize::MAX {
                self.index = self.index + 1;
            }
            proof {
                if (self.pos as int) < self.data@.len() {
                    if self.pos == old(self).pos + 1 {
                        assert(self.data@[self.pos - 1].0 < self.data@[self.pos as int].0);
                    }
                }
            }
            r
        } else {
            None
        }
    }
}

/// Extracts row `i` of a matrix as a sparse vector with entries sorted by
/// position; every position reads the same value as the matrix cell.
pub fn get_row<M: SparseMatrix>(m: &M, i: usize) -> (r: SparseVec<M::Value, M::Index>)
    requires
        m.inv(),
    ensures
        r.vwf(),
        row_sorted(r.pairs()),
        r.pairs().to_multiset() == m.spec_row(i as int).to_multiset(),
        forall|j: int| row_val(r.pairs(), j) == row_val(m.spec_row(i as int), j),
{
    proof {
        M::Index::lemma_max_fits();
        m.lemma_model();
    }
    let entries = m.row_entries(i);
    let sorted = sort_pairs(&entries);
    proof {
        lemma_distinct_perm(sorted@, entries@);
        lemma_row_val_perm(sorted@, entries@);
    }
    let n = sorted.len();
    let mut inds: Vec<M::Index> = Vec::with_capacity(n);
    let mut vals: Vec<M::Value> = Vec::with_capacity(n);
    let mut k: usize = 0;
    while k < n
        invariant
            m.inv(),
            entries@ == m.spec_row(i as int),
            n == sorted@.len(),
            sorted@.to_multiset() == entries@.to_multiset(),
            crate::model::row_cols_below(entries@, M::Index::max_spec()),
            M::Index::max_spec() <= usize::MAX as int,
            0 <= k <= n,
            inds@.len() == k,
            vals@.len() == k,
            forall|k2: int| 0 <= k2 < k
                ==> (#[trigger] inds@[k2]).as_int() == sorted@[k2].0 as int,
            forall|k2: int| 0 <= k2 < k ==> #[trigger] vals@[k2] == sorted@[k2].1,
        decreases n - k,
    {
        let (c, v) = sorted[k];
        proof {
            lemma_contains_col_bound(sorted@, entries@, k as int, M::Index::max_spec());
        }
        let ci = M::Index::from_usize(c);
        inds.push(ci);
        vals.push(v);
        k = k + 1;
    }
    let r = SparseVec { values: vals, indices: inds, dim: 0 };
    proof {
        assert(r.pairs() =~= sorted@);
        lemma_distinct_perm(r.pairs(), entries@);
        assert forall|k2: int| 0 <= k2 < r.indices@.len()
            implies 0 <= (#[trigger] r.indices@[k2]).as_int() < M::Index::max_spec() by {
            lemma_contains_col_bound(sorted@, entries@, k2, M::Index::max_spec());
        }
    }
    r
}

} // verus!
