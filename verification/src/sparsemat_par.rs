//! The block-partitioned wrapper: an ordered sequence of sub-matrices of
//! one underlying engine type, each with the same declared row capacity.
//! Global row `r` maps to sub-matrix `r / capacity` at local row
//! `r % capacity`, so row ranges can be sharded — for example, one
//! sub-matrix per worker of a future parallel matrix-vector product; that
//! dispatch itself is left to the consuming system.
//!
//! The row count is computed by locating the last non-empty sub-matrix:
//! its block index times the capacity, plus its own row count.

use vstd::prelude::*;
use crate::types::{IndexType, ValueType};
use crate::model::{row_has, row_val, row_scaled, dot};
use crate::sparsematrix::{SparseMatrix, EntriesIter};
use crate::densevec::DenseVec;

verus! {

/// Row count contributed by the first `upto` blocks: the last non-empty
/// block determines it.
pub open spec fn par_rows_upto<M: SparseMatrix>(s: Seq<M>, cap: int, upto: int) -> int
    decreases upto,
{
    if upto <= 0 {
        0
    } else if s[upto - 1].spec_rows() > 0 {
        (upto - 1) * cap + s[upto - 1].spec_rows()
    } else {
        par_rows_upto(s, cap, upto - 1)
    }
}

/// Largest column count over the first `upto` blocks.
pub open spec fn par_cols_upto<M: SparseMatrix>(s: Seq<M>, upto: int) -> int
    decreases upto,
{
    if upto <= 0 {
        0
    } else if s[upto - 1].spec_cols() > par_cols_upto(s, upto - 1) {
        s[upto - 1].spec_cols()
    } else {
        par_cols_upto(s, upto - 1)
    }
}

/// Total entry count over the first `upto` blocks.
pub open spec fn par_nnz_upto<M: SparseMatrix>(s: Seq<M>, upto: int) -> int
    decreases upto,
{
    if upto <= 0 {
        0
    } else {
        par_nnz_upto(s, upto - 1) + s[upto - 1].spec_nnz()
    }
}

/// A sparse matrix sharded into fixed-capacity row blocks.
#[derive(Clone)]
pub struct SparseMatPar<M> {
    pub n_rows_sub_matrix: usize,
    pub n_blocks: usize,
    pub sub_matrices: Vec<M>,
}

impl<M> SparseMatPar<M>
    where M: SparseMatrix
{
    /// The declared row capacity of each block.
    pub open spec fn cap(&self) -> int {
        self.n_rows_sub_matrix as int
    }

    /// The wrapper invariant: a positive number of blocks of positive
    /// capacity, every block well-formed and within its row capacity.
    pub open spec fn pwf(&self) -> bool {
        &&& self.sub_matrices@.len() == self.n_blocks as int
        &&& self.n_blocks >= 1
        &&& self.n_rows_sub_matrix >= 1
        &&& self.cap() <= M::Index::max_spec()
        &&& (self.n_blocks as int) * self.cap() <= usize::MAX as int
        &&& forall|b: int| 0 <= b < self.sub_matrices@.len()
                ==> (#[trigger] self.sub_matrices@[b]).inv()
        &&& forall|b: int| 0 <= b < self.sub_matrices@.len()
                ==> (#[trigger] self.sub_matrices@[b]).spec_rows() <= self.cap()
    }

    /// The entries of global row `i`: the matching local row of the
    /// owning block.
    pub open spec fn prow(&self, i: int) -> Seq<(usize, M::Value)> {
        if 0 <= i && i / self.cap() < self.sub_matrices@.len() {
            self.sub_matrices@[i / self.cap()].spec_row(i % self.cap())
        } else {
            Seq::empty()
        }
    }

    /// The row count: capacity times the index of the last non-empty
    /// block, plus that block's own row count.
    pub open spec fn spec_par_rows(&self) -> int {
        par_rows_upto(self.sub_matrices@, self.cap(), self.sub_matrices@.len() as int)
    }

    /// The column count: the maximum over the blocks.
    pub open spec fn spec_par_cols(&self) -> int {
        par_cols_upto(self.sub_matrices@, self.sub_matrices@.len() as int)
    }

    /// The entry count: the sum over the blocks.
    pub open spec fn spec_par_nnz(&self) -> int {
        par_nnz_upto(self.sub_matrices@, self.sub_matrices@.len() as int)
    }

    /// Creates `n_blocks` empty sub-matrices, each sized for an equal
    /// share of `max_n_rows` rows (at least one row per block).
    pub fn with_sub_matrices(n_blocks: usize, max_n_rows: usize) -> (r: Self)
        requires
            1 <= n_blocks,
            max_n_rows as int <= M::Index::max_spec(),
        ensures
            r.pwf(),
            r.n_blocks == n_blocks,
            r.spec_par_rows() == 0,
            r.spec_par_nnz() == 0,
            forall|i: int| r.prow(i) == Seq::<(usize, M::Value)>::empty(),
    {
        let share = max_n_rows / n_blocks;
        let cap = if share == 0 { 1 } else { share };
        proof {
            M::Index::lemma_max_fits();
            assert((n_blocks as int) * (cap as int) <= usize::MAX as int) by (nonlinear_arith)
                requires
                    1 <= n_blocks <= usize::MAX,
                    1 <= cap,
                    cap == if max_n_rows / n_blocks == 0 { 1 } else { max_n_rows / n_blocks },
                    max_n_rows <= usize::MAX;
        }
        let mut subs: Vec<M> = Vec::with_capacity(n_blocks);
        while subs.len() < n_blocks
            invariant
                subs@.len() <= n_blocks,
                forall|b: int| 0 <= b < subs@.len() ==> (#[trigger] subs@[b]).inv(),
                forall|b: int| 0 <= b < subs@.len() ==> (#[trigger] subs@[b]).spec_rows() == 0,
                forall|b: int| 0 <= b < subs@.len() ==> (#[trigger] subs@[b]).spec_nnz() == 0,
                forall|b: int, i: int| 0 <= b < subs@.len()
                    ==> #[trigger] subs@[b].spec_row(i) == Seq::<(usize, M::Value)>::empty(),
            decreases n_blocks - subs.len(),
        {
            subs.push(M::with_capacity(cap));
        }
        let r = Self {
            n_rows_sub_matrix: cap,
            n_blocks,
            sub_matrices: subs,
        };
        proof {
            lemma_par_rows_zero(r.sub_matrices@, r.cap(), r.sub_matrices@.len() as int);
            lemma_par_nnz_zero(r.sub_matrices@, r.sub_matrices@.len() as int);
        }
        r
    }

    /// Creates a wrapper with a default block count, sized for `cap`
    /// rows in all.
    pub fn with_capacity(cap: usize) -> (r: Self)
        requires
            cap as int <= M::Index::max_spec(),
        ensures
            r.pwf(),
            r.spec_par_rows() == 0,
            r.spec_par_nnz() == 0,
            forall|i: int| r.prow(i) == Seq::<(usize, M::Value)>::empty(),
    {
        Self::with_sub_matrices(4, cap)
    }

    /// Maps a global row to its block index and local row.
    pub fn get_block_and_row_id(&self, row: usize) -> (r: (usize, usize))
        requires
            self.pwf(),
            (row as int) < (self.n_blocks as int) * self.cap(),
        ensures
            r.0 as int == row as int / self.cap(),
            r.1 as int == row as int % self.cap(),
            r.0 < self.n_blocks,
            r.1 < self.n_rows_sub_matrix,
    {
        let block_id = row / self.n_rows_sub_matrix;
        let row_id = row % self.n_rows_sub_matrix;
        proof {
            assert(row as int / self.cap() < self.n_blocks as int) by (nonlinear_arith)
                requires
                    (row as int) < (self.n_blocks as int) * self.cap(),
                    self.cap() >= 1,
                    self.n_blocks >= 1;
        }
        (block_id, row_id)
    }

    /// Returns the number of rows, by locating the last non-empty block.
    pub fn n_rows(&self) -> (r: usize)
        requires
            self.pwf(),
        ensures
            r as int == self.spec_par_rows(),
            r as int <= (self.n_blocks as int) * self.cap(),
    {
        proof {
            lemma_par_rows_bound(self.sub_matrices@, self.cap(), self.sub_matrices@.len() as int);
        }
        let nb = self.n_blocks;
        let mut result: usize = 0;
        let mut b: usize = 0;
        while b < nb
            invariant
                self.pwf(),
                nb == self.n_blocks,
                0 <= b <= nb,
                result as int == par_rows_upto(self.sub_matrices@, self.cap(), b as int),
                result as int <= (self.n_blocks as int) * self.cap(),
            decreases nb - b,
        {
            let rb = self.sub_matrices[b].n_rows();
            if rb > 0 {
                proof {
                    assert((b as int) * self.cap() + rb as int
                        <= (self.n_blocks as int) * self.cap()) by (nonlinear_arith)
                        requires
                            0 <= b < self.n_blocks,
                            1 <= self.cap(),
                            0 < rb as int <= self.cap();
                }
                result = b * self.n_rows_sub_matrix + rb;
            }
            proof {
                lemma_par_rows_bound(self.sub_matrices@, self.cap(), b as int + 1);
            }
            b = b + 1;
        }
        result
    }

    /// Returns the number of columns: the maximum over the blocks.
    pub fn n_cols(&self) -> (r: usize)
        requires
            self.pwf(),
        ensures
            r as int == self.spec_par_cols(),
    {
        let nb = self.n_blocks;
        let mut result: usize = 0;
        let mut b: usize = 0;
        while b < nb
            invariant
                self.pwf(),
                nb == self.n_blocks,
                0 <= b <= nb,
                result as int == par_cols_upto(self.sub_matrices@, b as int),
            decreases nb - b,
        {
            let cb = self.sub_matrices[b].n_cols();
            if cb > result {
                result = cb;
            }
            b = b + 1;
        }
        result
    }

    /// Returns the number of stored entries: the sum over the blocks.
    pub fn n_non_zero_entries(&self) -> (r: usize)
        requires
            self.pwf(),
            self.spec_par_nnz() <= usize::MAX as int,
        ensures
            r as int == self.spec_par_nnz(),
    {
        proof {
            lemma_par_nnz_mono(self.sub_matrices@, self.sub_matrices@.len() as int);
        }
        let nb = self.n_blocks;
        let mut result: usize = 0;
        let mut b: usize = 0;
        while b < nb
            invariant
                self.pwf(),
                nb == self.n_blocks,
                0 <= b <= nb,
                result as int == par_nnz_upto(self.sub_matrices@, b as int),
                par_nnz_upto(self.sub_matrices@, b as int) <= self.spec_par_nnz()
                    <= usize::MAX as int,
            decreases nb - b,
        {
            let nz = self.sub_matrices[b].n_non_zero_entries();
            proof {
                lemma_par_nnz_mono_from(self.sub_matrices@, b as int + 1,
                    self.sub_matrices@.len() as int);
            }
            result = result + nz;
            b = b + 1;
        }
        result
    }

    /// Returns the value at `(i, j)`, read from the owning block.
    pub fn get(&self, i: usize, j: usize) -> (r: M::Value)
        requires
            self.pwf(),
            (i as int) < (self.n_blocks as int) * self.cap(),
        ensures
            r == row_val(self.prow(i as int), j as int),
    {
        let (b, local) = self.get_block_and_row_id(i);
        self.sub_matrices[b].get(local, j)
    }

    /// Sets the value at `(i, j)` in the owning block.
    pub fn set(&mut self, i: usize, j: usize, val: M::Value)
        requires
            old(self).pwf(),
            (i as int) < (old(self).n_blocks as int) * old(self).cap(),
            (j as int) < M::Index::max_spec(),
            old(self).sub_matrices@[i as int / old(self).cap()].spec_nnz()
                < M::Index::max_spec(),
        ensures
            final(self).pwf(),
            final(self).n_blocks == old(self).n_blocks,
            final(self).cap() == old(self).cap(),
            forall|i2: int| i2 != i as int ==> final(self).prow(i2) == old(self).prow(i2),
            row_val(final(self).prow(i as int), j as int) == val,
            forall|j2: int| j2 != j as int
                ==> row_val(final(self).prow(i as int), j2) == row_val(
                    old(self).prow(i as int),
                    j2,
                ),
            forall|j2: int| row_has(final(self).prow(i as int), j2)
                == (j2 == j as int || row_has(old(self).prow(i as int), j2)),
    {
        let (b, local) = self.get_block_and_row_id(i);
        self.sub_matrices[b].set(local, j, val);
        proof {
            lemma_par_frame(*old(self), *self, i as int, b as int);
        }
    }

    /// Adds `val` to the entry at `(i, j)` in the owning block, creating
    /// it from zero when absent.
    pub fn add_to(&mut self, i: usize, j: usize, val: M::Value)
        requires
            old(self).pwf(),
            (i as int) < (old(self).n_blocks as int) * old(self).cap(),
            (j as int) < M::Index::max_spec(),
            old(self).sub_matrices@[i as int / old(self).cap()].spec_nnz()
                < M::Index::max_spec(),
        ensures
            final(self).pwf(),
            final(self).n_blocks == old(self).n_blocks,
            final(self).cap() == old(self).cap(),
            forall|i2: int| i2 != i as int ==> final(self).prow(i2) == old(self).prow(i2),
            row_val(final(self).prow(i as int), j as int) == row_val(
                old(self).prow(i as int),
                j as int,
            ).sp_add(val),
            forall|j2: int| j2 != j as int
                ==> row_val(final(self).prow(i as int), j2) == row_val(
                    old(self).prow(i as int),
                    j2,
                ),
            forall|j2: int| row_has(final(self).prow(i as int), j2)
                == (j2 == j as int || row_has(old(self).prow(i as int), j2)),
    {
        let (b, local) = self.get_block_and_row_id(i);
        self.sub_matrices[b].add_to(local, j, val);
        proof {
            lemma_par_frame(*old(self), *self, i as int, b as int);
        }
    }

    /// Scales every stored value, block by block.
    pub fn scale(&mut self, factor: M::Value)
        requires
            old(self).pwf(),
        ensures
            final(self).pwf(),
            final(self).n_blocks == old(self).n_blocks,
            final(self).cap() == old(self).cap(),
            forall|i: int| row_scaled(old(self).prow(i), #[trigger] final(self).prow(i), factor),
    {
        let nb = self.n_blocks;
        let mut b: usize = 0;
        while b < nb
            invariant
                self.pwf(),
                nb == self.n_blocks,
                self.n_blocks == old(self).n_blocks,
                self.cap() == old(self).cap(),
                0 <= b <= nb,
                forall|b2: int| 0 <= b2 < b ==> forall|i: int| row_scaled(
                    old(self).sub_matrices@[b2].spec_row(i),
                    #[trigger] (#[trigger] self.sub_matrices@[b2]).spec_row(i),
                    factor,
                ),
                forall|b2: int| b <= b2 < nb ==> #[trigger] self.sub_matrices@[b2]
                    == old(self).sub_matrices@[b2],
            decreases nb - b,
        {
            self.sub_matrices[b].scale(factor);
            b = b + 1;
        }
        proof {
            assert forall|i: int| row_scaled(
                old(self).prow(i),
                #[trigger] final(self).prow(i),
                factor,
            ) by {
                if 0 <= i && i / self.cap() < self.sub_matrices@.len() {
                } else {
                    assert(final(self).prow(i) == Seq::<(usize, M::Value)>::empty());
                    assert(old(self).prow(i) == Seq::<(usize, M::Value)>::empty());
                }
            }
        }
    }

    /// Materializes the entries of global row `i`, in the owning block's
    /// row order.
    pub fn iter_row(&self, i: usize) -> (r: Vec<(usize, M::Value)>)
        requires
            self.pwf(),
            (i as int) < (self.n_blocks as int) * self.cap(),
        ensures
            r@ == self.prow(i as int),
    {
        let (b, local) = self.get_block_and_row_id(i);
        self.sub_matrices[b].row_entries(local)
    }
}

/// The `(row, column, value)` triples of global rows `0 .. upto`.
pub open spec fn par_triples<M: SparseMatrix>(m: &SparseMatPar<M>, upto: int) -> Seq<
    (usize, usize, M::Value),
>
    decreases upto,
{
    if upto <= 0 {
        Seq::empty()
    } else {
        par_triples(m, upto - 1) + m.prow(upto - 1).map_values(
            |p: (usize, M::Value)| (((upto - 1) as usize), p.0, p.1),
        )
    }
}

impl<M> SparseMatPar<M>
    where M: SparseMatrix
{
    /// Every block's column count is bounded by the wrapper's.
    proof fn lemma_block_cols(&self, b: int, upto: int)
        requires
            self.pwf(),
            0 <= b < upto <= self.sub_matrices@.len(),
        ensures
            self.sub_matrices@[b].spec_cols() <= par_cols_upto(self.sub_matrices@, upto),
        decreases upto,
    {
        if b < upto - 1 {
            self.lemma_block_cols(b, upto - 1);
        }
    }

    /// The matrix-vector product over all blocks: component `i` of the
    /// result accumulates `value * rhs[column]` over global row `i`.
    pub fn mvp(&self, rhs: &DenseVec<M::Value>) -> (r: DenseVec<M::Value>)
        requires
            self.pwf(),
            self.spec_par_cols() <= rhs.spec_dim(),
        ensures
            r.spec_dim() == self.spec_par_rows(),
            forall|i: int| 0 <= i < self.spec_par_rows()
                ==> r.spec_vals()[i] == dot(self.prow(i), rhs.spec_vals()),
    {
        let n = self.n_rows();
        let mut ret = DenseVec::<M::Value>::with_capacity(n);
        let mut i: usize = 0;
        while i < n
            invariant
                self.pwf(),
                self.spec_par_cols() <= rhs.spec_dim(),
                n as int == self.spec_par_rows(),
                n as int <= (self.n_blocks as int) * self.cap(),
                0 <= i <= n,
                ret.spec_dim() == i,
                forall|i2: int| 0 <= i2 < i
                    ==> ret.spec_vals()[i2] == dot(self.prow(i2), rhs.spec_vals()),
            decreases n - i,
        {
            let entries = self.iter_row(i);
            proof {
                let b = i as int / self.cap();
                assert((i as int) / self.cap() < self.n_blocks as int) by (nonlinear_arith)
                    requires
                        0 <= (i as int) < (self.n_blocks as int) * self.cap(),
                        self.cap() >= 1;
                assert(0 <= b < self.sub_matrices@.len());
                self.sub_matrices@[b].lemma_model();
                self.lemma_block_cols(b, self.sub_matrices@.len() as int);
                assert(crate::model::row_cols_below(self.prow(i as int), rhs.spec_dim()));
            }
            let m = entries.len();
            let mut sum = M::Value::zero();
            let mut k: usize = 0;
            while k < m
                invariant
                    self.pwf(),
                    entries@ == self.prow(i as int),
                    crate::model::row_cols_below(entries@, rhs.spec_dim()),
                    m == entries@.len(),
                    0 <= k <= m,
                    sum == dot(entries@.take(k as int), rhs.spec_vals()),
                decreases m - k,
            {
                let (c, v) = entries[k];
                let x = rhs.get(c);
                sum = sum.add_val(v.mul_val(x));
                proof {
                    let t = entries@.take(k as int + 1);
                    assert(t.drop_last() =~= entries@.take(k as int));
                    assert(t.last() == entries@[k as int]);
                }
                k = k + 1;
            }
            proof {
                assert(entries@.take(m as int) =~= entries@);
            }
            let ghost prev = ret;
            ret.set(i, sum);
            proof {
                assert(ret.spec_vals() =~= prev.spec_vals().push(dot(
                    self.prow(i as int),
                    rhs.spec_vals(),
                )));
            }
            i = i + 1;
        }
        ret
    }

    /// The density of the sharded matrix as an exact fraction: stored
    /// entries over all cells of the rows-by-columns grid.
    pub fn density(&self) -> (r: (usize, usize))
        requires
            self.pwf(),
            self.spec_par_nnz() <= usize::MAX as int,
            self.spec_par_rows() * self.spec_par_cols() <= usize::MAX as int,
            0 <= self.spec_par_cols(),
        ensures
            r.0 as int == self.spec_par_nnz(),
            r.1 as int == self.spec_par_rows() * self.spec_par_cols(),
    {
        let nnz = self.n_non_zero_entries();
        let rows = self.n_rows();
        let cols = self.n_cols();
        proof {
            assert(0 <= (rows as int) * (cols as int)) by (nonlinear_arith)
                requires 0 <= rows as int, 0 <= cols as int;
        }
        (nnz, rows * cols)
    }

    /// Returns an iterator over every stored entry as a
    /// `(row, column, value)` triple, in global row order.
    pub fn iter(&self) -> (r: EntriesIter<M::Value>)
        requires
            self.pwf(),
        ensures
            r.remaining() == par_triples(self, self.spec_par_rows()),
    {
        let n = self.n_rows();
        let mut out: Vec<(usize, usize, M::Value)> = Vec::new();
        let mut i: usize = 0;
        while i < n
            invariant
                self.pwf(),
                n as int == self.spec_par_rows(),
                n as int <= (self.n_blocks as int) * self.cap(),
                0 <= i <= n,
                out@ == par_triples(self, i as int),
            decreases n - i,
        {
            let entries = self.iter_row(i);
            let m = entries.len();
            let ghost base = out@;
            let mut k: usize = 0;
            while k < m
                invariant
                    self.pwf(),
                    0 <= i < n,
                    entries@ == self.prow(i as int),
                    m == entries@.len(),
                    0 <= k <= m,
                    out@ == base + entries@.take(k as int).map_values(
                        |p: (usize, M::Value)| (i, p.0, p.1),
                    ),
                decreases m - k,
            {
                let (c, v) = entries[k];
                out.push((i, c, v));
                proof {
                    assert(out@ =~= base + entries@.take(k as int + 1).map_values(
                        |p: (usize, M::Value)| (i, p.0, p.1),
                    ));
                }
                k = k + 1;
            }
            proof {
                assert(entries@.take(m as int) =~= entries@);
                assert(out@ =~= par_triples(self, i as int + 1));
            }
            i = i + 1;
        }
        let r = EntriesIter { data: out, pos: 0 };
        proof {
            assert(r.remaining() =~= r.data@);
        }
        r
    }
}

/// Fresh empty blocks contribute no rows.
proof fn lemma_par_rows_zero<M: SparseMatrix>(s: Seq<M>, cap: int, upto: int)
    requires
        forall|b: int| 0 <= b < s.len() ==> (#[trigger] s[b]).spec_rows() == 0,
        upto <= s.len(),
    ensures
        par_rows_upto(s, cap, upto) == 0,
    decreases upto,
{
    if upto > 0 {
        lemma_par_rows_zero(s, cap, upto - 1);
    }
}

/// Fresh empty blocks hold no entries.
proof fn lemma_par_nnz_zero<M: SparseMatrix>(s: Seq<M>, upto: int)
    requires
        forall|b: int| 0 <= b < s.len() ==> (#[trigger] s[b]).spec_nnz() == 0,
        upto <= s.len(),
    ensures
        par_nnz_upto(s, upto) == 0,
    decreases upto,
{
    if upto > 0 {
        lemma_par_nnz_zero(s, upto - 1);
    }
}

/// The row count never exceeds the total declared capacity.
proof fn lemma_par_rows_bound<M: SparseMatrix>(s: Seq<M>, cap: int, upto: int)
    requires
        cap >= 1,
        0 <= upto <= s.len(),
        forall|b: int| 0 <= b < s.len() ==> (#[trigger] s[b]).spec_rows() <= cap,
    ensures
        0 <= par_rows_upto(s, cap, upto) <= upto * cap,
    decreases upto,
{
    if upto > 0 {
        lemma_par_rows_bound(s, cap, upto - 1);
        if s[upto - 1].spec_rows() > 0 {
            assert((upto - 1) * cap + s[upto - 1].spec_rows() <= upto * cap)
                by (nonlinear_arith)
                requires
                    cap >= 1,
                    s[upto - 1].spec_rows() <= cap,
                    upto >= 1;
        } else {
            assert((upto - 1) * cap <= upto * cap) by (nonlinear_arith)
                requires cap >= 1, upto >= 1;
        }
    }
}

/// Block entry counts are non-negative, so prefix sums are monotone.
proof fn lemma_par_nnz_mono<M: SparseMatrix>(s: Seq<M>, upto: int)
    requires
        0 <= upto <= s.len(),
        forall|b: int| 0 <= b < s.len() ==> (#[trigger] s[b]).inv(),
    ensures
        0 <= par_nnz_upto(s, upto),
    decreases upto,
{
    if upto > 0 {
        lemma_par_nnz_mono(s, upto - 1);
        s[upto - 1].lemma_model();
    }
}

/// Prefix entry sums are bounded by the full sum.
proof fn lemma_par_nnz_mono_from<M: SparseMatrix>(s: Seq<M>, lo: int, hi: int)
    requires
        0 <= lo <= hi <= s.len(),
        forall|b: int| 0 <= b < s.len() ==> (#[trigger] s[b]).inv(),
    ensures
        par_nnz_upto(s, lo) <= par_nnz_upto(s, hi),
    decreases hi - lo,
{
    if lo < hi {
        lemma_par_nnz_mono_from(s, lo, hi - 1);
        s[hi - 1].lemma_model();
    }
}

/// Writing into one block's local row changes exactly one global row.
proof fn lemma_par_frame<M: SparseMatrix>(
    o: SparseMatPar<M>,
    n: SparseMatPar<M>,
    i: int,
    b: int,
)
    requires
        o.pwf(),
        n.n_blocks == o.n_blocks,
        n.cap() == o.cap(),
        n.sub_matrices@.len() == o.sub_matrices@.len(),
        0 <= i < (o.n_blocks as int) * o.cap(),
        b == i / o.cap(),
        0 <= b < o.sub_matrices@.len(),
        forall|b2: int| 0 <= b2 < o.sub_matrices@.len() && b2 != b
            ==> #[trigger] n.sub_matrices@[b2] == o.sub_matrices@[b2],
        forall|r: int| r != i % o.cap()
            ==> #[trigger] n.sub_matrices@[b].spec_row(r)
                == o.sub_matrices@[b].spec_row(r),
    ensures
        forall|i2: int| i2 != i ==> #[trigger] n.prow(i2) == o.prow(i2),
{
    assert forall|i2: int| i2 != i implies #[trigger] n.prow(i2) == o.prow(i2) by {
        if 0 <= i2 && i2 / o.cap() < o.sub_matrices@.len() {
            let b2 = i2 / o.cap();
            if b2 == b {
                assert(i2 % o.cap() != i % o.cap()) by (nonlinear_arith)
                    requires
                        o.cap() >= 1,
                        i2 != i,
                        0 <= i2,
                        0 <= i,
                        i2 / o.cap() == i / o.cap(),
                        b == i / o.cap();
            }
        }
    }
}

} // verus!
