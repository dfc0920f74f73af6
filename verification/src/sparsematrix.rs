//! The matrix capability contract: the small set of primitive operations
//! every storage engine must supply, plus the composite algorithms (add,
//! subtract, scale, matrix-vector product, transpose, symmetry test,
//! density, identity) written once against those primitives.
//!
//! The mathematical model of a matrix is its row count, column count, entry
//! count, and one sequence of `(column, value)` pairs per row, in the
//! order the engine's row iteration yields them.  `spec_get` is the
//! semantic cell lookup (zero for an absent cell).

use vstd::prelude::*;
use vstd::set_lib::lemma_int_range;
use vstd::set_lib::lemma_len_subset;
use vstd::set_lib::set_int_range;
use crate::types::{IndexType, ValueType};
use crate::model::{
    row_has, row_val, row_index_of, row_cols_distinct, row_cols_below, row_sorted, row_updated,
    row_scaled, dot, lemma_row_val_has, sort_pairs, lemma_distinct_perm, lemma_row_val_perm,
};
use crate::densevec::DenseVec;

verus! {

/// The error taxonomy: every failure is a local, immediate halt of the
/// operation in progress.
#[derive(Clone, Copy, Debug, PartialEq, Eq, Structural)]
pub enum SparseMatError {
    /// A column view was requested before `assemble_column_info`.
    NotAvailable,
    /// Matrix/matrix or matrix/vector operand shapes disagree.
    DimensionMismatch,
}

impl SparseMatError {
    /// A human-readable description of the condition.
    pub fn message(&self) -> (r: &'static str) {
        match self {
            SparseMatError::NotAvailable => {
                "Column iterator not available - use assemble_column_info()"
            },
            SparseMatError::DimensionMismatch => "Dimension mismatch",
        }
    }
}

/// The semantic cell lookup: the value stored at `(i, j)`, or zero when no
/// entry is stored there.
pub open spec fn spec_get<M: SparseMatrix>(m: &M, i: int, j: int) -> M::Value {
    row_val(m.spec_row(i), j)
}

/// Sum of the lengths of a sequence of rows.
pub open spec fn sum_row_lens<T>(rows: Seq<Seq<(usize, T)>>) -> int
    decreases rows.len(),
{
    if rows.len() == 0 {
        0
    } else {
        sum_row_lens(rows.drop_last()) + rows.last().len()
    }
}

/// The first `n` rows of a matrix, as one sequence of rows.
pub open spec fn rows_upto<M: SparseMatrix>(m: &M, n: int) -> Seq<Seq<(usize, M::Value)>> {
    Seq::new(if n >= 0 { n as nat } else { 0 }, |i: int| m.spec_row(i))
}

/// What every engine's model guarantees: dimensions and entry count fit
/// the index type, rows outside the range are empty, columns are distinct
/// within a row and lie below the column count, and the entry count is the
/// sum of the row lengths.
pub open spec fn model_wf<M: SparseMatrix>(m: &M) -> bool {
    &&& 0 <= m.spec_rows() <= M::Index::max_spec()
    &&& 0 <= m.spec_cols() <= M::Index::max_spec()
    &&& 0 <= m.spec_nnz() <= M::Index::max_spec()
    &&& forall|i: int|
            !(0 <= i < m.spec_rows()) ==> #[trigger] m.spec_row(i)
                == Seq::<(usize, M::Value)>::empty()
    &&& forall|i: int| row_cols_distinct(#[trigger] m.spec_row(i))
    &&& forall|i: int| row_cols_below(#[trigger] m.spec_row(i), m.spec_cols())
    &&& m.spec_nnz() == sum_row_lens(rows_upto(m, m.spec_rows()))
}

/// The capability contract for row-major sparse matrix storage engines.
///
/// Cell writes go through `set`, `add_to` and `sub_from` rather than a
/// mutable cell handle, so that every write carries its contract; a
/// missing cell is created from zero, never inserted in sorted position
/// (sortedness is the caller's concern, through `Sortable`).
pub trait SparseMatrix: Sized {
    type Value: ValueType;

    type Index: IndexType;

    /// The engine's internal well-formedness invariant.
    spec fn inv(&self) -> bool;

    /// Number of rows.
    spec fn spec_rows(&self) -> int;

    /// Number of columns: one plus the largest column index ever written.
    spec fn spec_cols(&self) -> int;

    /// Number of stored entries.
    spec fn spec_nnz(&self) -> int;

    /// The entries of row `i`, in the order row iteration yields them.
    spec fn spec_row(&self, i: int) -> Seq<(usize, Self::Value)>;

    /// The invariant implies the shared model guarantees: dimensions and
    /// entry count fit the index type, rows outside the range are empty,
    /// columns are distinct within a row and lie below the column count,
    /// and the entry count is the sum of the row lengths.
    proof fn lemma_model(&self)
        requires
            self.inv(),
        ensures
            0 <= self.spec_rows() <= Self::Index::max_spec(),
            0 <= self.spec_cols() <= Self::Index::max_spec(),
            0 <= self.spec_nnz() <= Self::Index::max_spec(),
            forall|i: int|
                !(0 <= i < self.spec_rows()) ==> #[trigger] self.spec_row(i)
                    == Seq::<(usize, Self::Value)>::empty(),
            forall|i: int| row_cols_distinct(#[trigger] self.spec_row(i)),
            forall|i: int| row_cols_below(#[trigger] self.spec_row(i), self.spec_cols()),
            self.spec_nnz() == sum_row_lens(
                Seq::new(self.spec_rows() as nat, |i: int| self.spec_row(i)),
            ),
    ;

    /// Creates an empty matrix with reserved space for `cap` entries — a
    /// capacity hint, never a hard limit.
    fn with_capacity(cap: usize) -> (r: Self)
        ensures
            r.inv(),
            r.spec_rows() == 0,
            r.spec_cols() == 0,
            r.spec_nnz() == 0,
            forall|i: int| #[trigger] r.spec_row(i) == Seq::<(usize, Self::Value)>::empty(),
    ;

    /// Number of rows.
    fn n_rows(&self) -> (r: usize)
        requires
            self.inv(),
        ensures
            r as int == self.spec_rows(),
    ;

    /// Number of columns.
    fn n_cols(&self) -> (r: usize)
        requires
            self.inv(),
        ensures
            r as int == self.spec_cols(),
    ;

    /// Number of stored entries.
    fn n_non_zero_entries(&self) -> (r: usize)
        requires
            self.inv(),
        ensures
            r as int == self.spec_nnz(),
    ;

    /// Returns the value at `(i, j)`, or zero if no entry is stored there.
    fn get(&self, i: usize, j: usize) -> (r: Self::Value)
        requires
            self.inv(),
        ensures
            r == row_val(self.spec_row(i as int), j as int),
    ;

    /// Sets the value at `(i, j)`, replacing an existing entry or storing a
    /// new one.  The index-type bounds are the capacity guard: offsets must
    /// stay strictly below the sentinel.
    fn set(&mut self, i: usize, j: usize, val: Self::Value)
        requires
            old(self).inv(),
            (i as int) < Self::Index::max_spec(),
            (j as int) < Self::Index::max_spec(),
            old(self).spec_nnz() < Self::Index::max_spec(),
        ensures
            final(self).inv(),
            final(self).spec_rows() == if i as int + 1 > old(self).spec_rows() {
                i as int + 1
            } else {
                old(self).spec_rows()
            },
            final(self).spec_cols() == if j as int + 1 > old(self).spec_cols() {
                j as int + 1
            } else {
                old(self).spec_cols()
            },
            final(self).spec_nnz() == old(self).spec_nnz() + if row_has(
                old(self).spec_row(i as int),
                j as int,
            ) {
                0int
            } else {
                1int
            },
            forall|r: int| r != i as int ==> final(self).spec_row(r) == old(self).spec_row(r),
            row_updated(old(self).spec_row(i as int), final(self).spec_row(i as int), j, val),
            row_val(final(self).spec_row(i as int), j as int) == val,
            forall|j2: int| j2 != j as int
                ==> row_val(final(self).spec_row(i as int), j2) == row_val(
                    old(self).spec_row(i as int),
                    j2,
                ),
            forall|j2: int| row_has(final(self).spec_row(i as int), j2)
                == (j2 == j as int || row_has(old(self).spec_row(i as int), j2)),
    ;

    /// Adds `val` to the entry at `(i, j)`, creating it from zero when
    /// absent.
    fn add_to(&mut self, i: usize, j: usize, val: Self::Value)
        requires
            old(self).inv(),
            (i as int) < Self::Index::max_spec(),
            (j as int) < Self::Index::max_spec(),
            old(self).spec_nnz() < Self::Index::max_spec(),
        ensures
            final(self).inv(),
            final(self).spec_rows() == if i as int + 1 > old(self).spec_rows() {
                i as int + 1
            } else {
                old(self).spec_rows()
            },
            final(self).spec_cols() == if j as int + 1 > old(self).spec_cols() {
                j as int + 1
            } else {
                old(self).spec_cols()
            },
            final(self).spec_nnz() == old(self).spec_nnz() + if row_has(
                old(self).spec_row(i as int),
                j as int,
            ) {
                0int
            } else {
                1int
            },
            forall|r: int| r != i as int ==> final(self).spec_row(r) == old(self).spec_row(r),
            row_updated(
                old(self).spec_row(i as int),
                final(self).spec_row(i as int),
                j,
                row_val(old(self).spec_row(i as int), j as int).sp_add(val),
            ),
            row_val(final(self).spec_row(i as int), j as int) == row_val(
                old(self).spec_row(i as int),
                j as int,
            ).sp_add(val),
            forall|j2: int| j2 != j as int
                ==> row_val(final(self).spec_row(i as int), j2) == row_val(
                    old(self).spec_row(i as int),
                    j2,
                ),
            forall|j2: int| row_has(final(self).spec_row(i as int), j2)
                == (j2 == j as int || row_has(old(self).spec_row(i as int), j2)),
    ;

    /// Subtracts `val` from the entry at `(i, j)`, creating it from zero
    /// when absent.
    fn sub_from(&mut self, i: usize, j: usize, val: Self::Value)
        requires
            old(self).inv(),
            (i as int) < Self::Index::max_spec(),
            (j as int) < Self::Index::max_spec(),
            old(self).spec_nnz() < Self::Index::max_spec(),
        ensures
            final(self).inv(),
            final(self).spec_rows() == if i as int + 1 > old(self).spec_rows() {
                i as int + 1
            } else {
                old(self).spec_rows()
            },
            final(self).spec_cols() == if j as int + 1 > old(self).spec_cols() {
                j as int + 1
            } else {
                old(self).spec_cols()
            },
            final(self).spec_nnz() == old(self).spec_nnz() + if row_has(
                old(self).spec_row(i as int),
                j as int,
            ) {
                0int
            } else {
                1int
            },
            forall|r: int| r != i as int ==> final(self).spec_row(r) == old(self).spec_row(r),
            row_updated(
                old(self).spec_row(i as int),
                final(self).spec_row(i as int),
                j,
                row_val(old(self).spec_row(i as int), j as int).sp_sub(val),
            ),
            row_val(final(self).spec_row(i as int), j as int) == row_val(
                old(self).spec_row(i as int),
                j as int,
            ).sp_sub(val),
            forall|j2: int| j2 != j as int
                ==> row_val(final(self).spec_row(i as int), j2) == row_val(
                    old(self).spec_row(i as int),
                    j2,
                ),
            forall|j2: int| row_has(final(self).spec_row(i as int), j2)
                == (j2 == j as int || row_has(old(self).spec_row(i as int), j2)),
    ;

    /// Scales every stored value by `factor`.
    fn scale(&mut self, factor: Self::Value)
        requires
            old(self).inv(),
        ensures
            final(self).inv(),
            final(self).spec_rows() == old(self).spec_rows(),
            final(self).spec_cols() == old(self).spec_cols(),
            final(self).spec_nnz() == old(self).spec_nnz(),
            forall|r: int| row_scaled(
                old(self).spec_row(r),
                #[trigger] final(self).spec_row(r),
                factor,
            ),
    ;

    /// Materializes the entries of row `i`, in the engine's row iteration
    /// order.  A row outside the current range is empty.
    fn row_entries(&self, i: usize) -> (r: Vec<(usize, Self::Value)>)
        requires
            self.inv(),
        ensures
            r@ == self.spec_row(i as int),
    ;

    /// Creates an empty matrix.
    fn new() -> (r: Self)
        ensures
            r.inv(),
            r.spec_rows() == 0,
            r.spec_cols() == 0,
            r.spec_nnz() == 0,
            forall|i: int| #[trigger] r.spec_row(i) == Seq::<(usize, Self::Value)>::empty(),
    {
        Self::with_capacity(0)
    }

    /// A matrix is structurally empty when it has no rows.
    fn empty(&self) -> (r: bool)
        requires
            self.inv(),
        ensures
            r <==> self.spec_rows() == 0,
    {
        let n = self.n_rows();
        n == 0
    }

    /// The identity matrix of dimension `dim`: one on the diagonal, zero
    /// everywhere else.
    fn eye(dim: usize) -> (r: Self)
        requires
            dim as int <= Self::Index::max_spec(),
        ensures
            r.inv(),
            r.spec_rows() == dim,
            r.spec_cols() == dim,
            r.spec_nnz() == dim,
            forall|i: int| 0 <= i < dim
                ==> #[trigger] r.spec_row(i) == seq![(i as usize, Self::Value::sp_one())],
            forall|i: int| 0 <= i < dim
                ==> row_val(#[trigger] r.spec_row(i), i) == Self::Value::sp_one(),
            forall|i: int, j: int| i != j
                ==> #[trigger] row_val(r.spec_row(i), j) == Self::Value::sp_zero(),
    {
        let mut ret = Self::with_capacity(dim);
        let one = Self::Value::one();
        let mut k: usize = 0;
        while k < dim
            invariant
                dim as int <= Self::Index::max_spec(),
                one == Self::Value::sp_one(),
                0 <= k <= dim,
                ret.inv(),
                ret.spec_rows() == k,
                ret.spec_cols() == k,
                ret.spec_nnz() == k,
                forall|i: int| 0 <= i < k
                    ==> #[trigger] ret.spec_row(i) == seq![(i as usize, Self::Value::sp_one())],
                forall|i: int| 0 <= i < k
                    ==> row_val(#[trigger] ret.spec_row(i), i) == Self::Value::sp_one(),
                forall|i: int, j: int| i != j
                    ==> #[trigger] row_val(ret.spec_row(i), j) == Self::Value::sp_zero(),
            decreases dim - k,
        {
            let ghost pre = ret;
            proof {
                pre.lemma_model();
                assert(pre.spec_row(k as int) == Seq::<(usize, Self::Value)>::empty());
            }
            ret.set(k, k, one);
            proof {
                assert(ret.spec_row(k as int) == pre.spec_row(k as int).insert(
                    0,
                    (k, one),
                ));
                assert(ret.spec_row(k as int) =~= seq![(k, one)]);
                assert forall|i: int, j: int| i != j
                    implies #[trigger] row_val(ret.spec_row(i), j) == Self::Value::sp_zero() by {
                    if i == k as int {
                        assert(row_val(ret.spec_row(i), j) == row_val(pre.spec_row(i), j));
                    } else {
                        assert(ret.spec_row(i) == pre.spec_row(i));
                    }
                }
            }
            k = k + 1;
        }
        ret
    }

    /// The matrix-vector product: component `i` of the result accumulates
    /// `value * rhs[column]` over the entries of row `i`, in the row's own
    /// iteration order.  Rows with no entries produce zero.
    fn mvp(&self, rhs: &DenseVec<Self::Value>) -> (r: DenseVec<Self::Value>)
        requires
            self.inv(),
            self.spec_cols() <= rhs.spec_dim(),
        ensures
            r.spec_dim() == self.spec_rows(),
            forall|i: int| 0 <= i < self.spec_rows()
                ==> r.spec_vals()[i] == dot(self.spec_row(i), rhs.spec_vals()),
    {
        proof {
            self.lemma_model();
        }
        let n = self.n_rows();
        let mut ret = DenseVec::<Self::Value>::with_capacity(n);
        let mut i: usize = 0;
        while i < n
            invariant
                self.inv(),
                self.spec_cols() <= rhs.spec_dim(),
                n as int == self.spec_rows(),
                0 <= i <= n,
                ret.spec_dim() == i,
                forall|i2: int| 0 <= i2 < i
                    ==> ret.spec_vals()[i2] == dot(self.spec_row(i2), rhs.spec_vals()),
            decreases n - i,
        {
            proof {
                self.lemma_model();
            }
            let entries = self.row_entries(i);
            let m = entries.len();
            let mut sum = Self::Value::zero();
            let mut k: usize = 0;
            while k < m
                invariant
                    self.inv(),
                    self.spec_cols() <= rhs.spec_dim(),
                    entries@ == self.spec_row(i as int),
                    row_cols_below(entries@, self.spec_cols()),
                    m == entries@.len(),
                    0 <= k <= m,
                    sum == dot(entries@.take(k as int), rhs.spec_vals()),
                decreases m - k,
            {
                let (c, v) = entries[k];
                let x = rhs.get(c);
                sum = sum.add_val(v.mul_val(x));
                proof {
                    let t = entries@.take(k as int + 1);
                    assert(t.drop_last() =~= entries@.take(k as int));
                    assert(t.last() == entries@[k as int]);
                }
                k = k + 1;
            }
            proof {
                assert(entries@.take(m as int) =~= entries@);
            }
            let ghost prev = ret;
            ret.set(i, sum);
            proof {
                assert(ret.spec_vals() =~= prev.spec_vals().push(dot(
                    self.spec_row(i as int),
                    rhs.spec_vals(),
                )));
            }
            i = i + 1;
        }
        ret
    }

    /// Is row `i` sorted by column, ascending?
    fn is_sorted_row(&self, i: usize) -> (r: bool)
        requires
            self.inv(),
        ensures
            r <==> row_sorted(self.spec_row(i as int)),
    {
        let entries = self.row_entries(i);
        let m = entries.len();
        let mut k: usize = 1;
        while k < m
            invariant
                entries@ == self.spec_row(i as int),
                m == entries@.len(),
                1 <= k <= m || (m == 0 && k == 1),
                forall|k1: int, k2: int|
                    0 <= k1 < k2 < k ==> (#[trigger] entries@[k1]).0 <= (#[trigger] entries@[k2]).0,
            decreases m - k,
        {
            if entries[k - 1].0 > entries[k].0 {
                return false;
            }
            k = k + 1;
        }
        true
    }

    /// Are all rows sorted by column, ascending?
    fn is_sorted(&self) -> (r: bool)
        requires
            self.inv(),
        ensures
            r <==> forall|i: int| row_sorted(#[trigger] self.spec_row(i)),
    {
        proof {
            self.lemma_model();
        }
        let n = self.n_rows();
        let mut i: usize = 0;
        while i < n
            invariant
                self.inv(),
                n as int == self.spec_rows(),
                0 <= i <= n,
                forall|i2: int| 0 <= i2 < i ==> row_sorted(#[trigger] self.spec_row(i2)),
            decreases n - i,
        {
            if !self.is_sorted_row(i) {
                return false;
            }
            i = i + 1;
        }
        proof {
            self.lemma_model();
            assert forall|i2: int| row_sorted(#[trigger] self.spec_row(i2)) by {
                if !(0 <= i2 < self.spec_rows()) {
                    assert(self.spec_row(i2) == Seq::<(usize, Self::Value)>::empty());
                }
            }
        }
        true
    }

    /// The density of the matrix as an exact fraction: stored entries over
    /// all cells of the rows-by-columns grid.
    fn density(&self) -> (r: (usize, usize))
        requires
            self.inv(),
            self.spec_rows() * self.spec_cols() <= usize::MAX,
        ensures
            r.0 as int == self.spec_nnz(),
            r.1 as int == self.spec_rows() * self.spec_cols(),
    {
        proof {
            self.lemma_model();
        }
        let nnz = self.n_non_zero_entries();
        let rows = self.n_rows();
        let cols = self.n_cols();
        (nnz, rows * cols)
    }

    /// The sparsity of the matrix as an exact fraction: one minus the
    /// density, i.e. absent cells over all cells.
    fn sparsity(&self) -> (r: (usize, usize))
        requires
            self.inv(),
            self.spec_rows() * self.spec_cols() <= usize::MAX,
        ensures
            r.0 as int == self.spec_rows() * self.spec_cols() - self.spec_nnz(),
            r.1 as int == self.spec_rows() * self.spec_cols(),
    {
        proof {
            self.lemma_model();
            lemma_sum_rows_le(
                Seq::new(self.spec_rows() as nat, |i: int| self.spec_row(i)),
                self.spec_cols(),
            );
        }
        let nnz = self.n_non_zero_entries();
        let rows = self.n_rows();
        let cols = self.n_cols();
        (rows * cols - nnz, rows * cols)
    }
}

/// Accumulates one sparse matrix into another: every cell of the result
/// reads the sum of the two operands' cells.  Written once against the
/// capability contract, for any pair of storage engines.
pub fn add_mat<A, S>(lhs: &mut A, rhs: &S) where A: SparseMatrix, S: SparseMatrix<Value = A::Value>
    requires
        old(lhs).inv(),
        rhs.inv(),
        rhs.spec_rows() <= A::Index::max_spec(),
        rhs.spec_cols() <= A::Index::max_spec(),
        old(lhs).spec_nnz() + rhs.spec_nnz() <= A::Index::max_spec(),
    ensures
        final(lhs).inv(),
        old(lhs).spec_rows() <= final(lhs).spec_rows(),
        final(lhs).spec_rows() <= if rhs.spec_rows() > old(lhs).spec_rows() {
            rhs.spec_rows()
        } else {
            old(lhs).spec_rows()
        },
        old(lhs).spec_cols() <= final(lhs).spec_cols(),
        final(lhs).spec_cols() <= if rhs.spec_cols() > old(lhs).spec_cols() {
            rhs.spec_cols()
        } else {
            old(lhs).spec_cols()
        },
        forall|i: int, j: int| #[trigger] row_val(final(lhs).spec_row(i), j) == row_val(
            old(lhs).spec_row(i),
            j,
        ).sp_add(row_val(rhs.spec_row(i), j)),
{
    proof {
        rhs.lemma_model();
    }
    let ghost all_rhs = Seq::new(rhs.spec_rows() as nat, |i2: int| rhs.spec_row(i2));
    let n = rhs.n_rows();
    let mut i: usize = 0;
    while i < n
        invariant
            lhs.inv(),
            rhs.inv(),
            n as int == rhs.spec_rows(),
            rhs.spec_rows() <= A::Index::max_spec(),
            rhs.spec_cols() <= A::Index::max_spec(),
            all_rhs == Seq::new(rhs.spec_rows() as nat, |i2: int| rhs.spec_row(i2)),
            rhs.spec_nnz() == sum_row_lens(all_rhs),
            old(lhs).spec_nnz() + rhs.spec_nnz() <= A::Index::max_spec(),
            0 <= i <= n,
            old(lhs).spec_rows() <= lhs.spec_rows(),
            lhs.spec_rows() <= if rhs.spec_rows() > old(lhs).spec_rows() {
                rhs.spec_rows()
            } else {
                old(lhs).spec_rows()
            },
            old(lhs).spec_cols() <= lhs.spec_cols(),
            lhs.spec_cols() <= if rhs.spec_cols() > old(lhs).spec_cols() {
                rhs.spec_cols()
            } else {
                old(lhs).spec_cols()
            },
            lhs.spec_nnz() <= old(lhs).spec_nnz() + sum_row_lens(
                all_rhs.take(i as int),
            ),
            forall|i2: int, j2: int| 0 <= i2 < i ==> #[trigger] row_val(
                lhs.spec_row(i2),
                j2,
            ) == row_val(old(lhs).spec_row(i2), j2).sp_add(row_val(rhs.spec_row(i2), j2)),
            forall|i2: int| i <= i2 ==> #[trigger] lhs.spec_row(i2) == old(
                lhs,
            ).spec_row(i2),
            forall|i2: int, j2: int| !(0 <= i2 < i) ==> #[trigger] row_val(
                lhs.spec_row(i2),
                j2,
            ) == row_val(old(lhs).spec_row(i2), j2),
        decreases n - i,
    {
        proof {
            rhs.lemma_model();
            lemma_sum_row_lens_prefix_le(all_rhs, i as int + 1);
            assert(all_rhs.take(i as int + 1).drop_last() =~= all_rhs.take(i as int));
            assert(all_rhs.take(i as int + 1).last() == rhs.spec_row(i as int));
        }
        let entries = rhs.row_entries(i);
        let m = entries.len();
        let ghost base_nnz = sum_row_lens(all_rhs.take(i as int));
        let mut k: usize = 0;
        while k < m
            invariant
                lhs.inv(),
                rhs.inv(),
                0 <= i < n,
                n as int == rhs.spec_rows(),
                rhs.spec_rows() <= A::Index::max_spec(),
                rhs.spec_cols() <= A::Index::max_spec(),
                entries@ == rhs.spec_row(i as int),
                m == entries@.len(),
                old(lhs).spec_nnz() + base_nnz + m <= A::Index::max_spec(),
                0 <= k <= m,
                old(lhs).spec_rows() <= lhs.spec_rows(),
                lhs.spec_rows() <= if rhs.spec_rows() > old(lhs).spec_rows() {
                    rhs.spec_rows()
                } else {
                    old(lhs).spec_rows()
                },
                old(lhs).spec_cols() <= lhs.spec_cols(),
                lhs.spec_cols() <= if rhs.spec_cols() > old(lhs).spec_cols() {
                    rhs.spec_cols()
                } else {
                    old(lhs).spec_cols()
                },
                lhs.spec_nnz() <= old(lhs).spec_nnz() + base_nnz + k,
                forall|i2: int, j2: int| 0 <= i2 < i ==> #[trigger] row_val(
                    lhs.spec_row(i2),
                    j2,
                ) == row_val(old(lhs).spec_row(i2), j2).sp_add(
                    row_val(rhs.spec_row(i2), j2),
                ),
                forall|i2: int| (i as int) < i2 ==> #[trigger] lhs.spec_row(i2) == old(
                    lhs,
                ).spec_row(i2),
                forall|i2: int, j2: int| !(0 <= i2 <= i) ==> #[trigger] row_val(
                    lhs.spec_row(i2),
                    j2,
                ) == row_val(old(lhs).spec_row(i2), j2),
                forall|j2: int| row_has(entries@.take(k as int), j2) ==> #[trigger] row_val(
                    lhs.spec_row(i as int),
                    j2,
                ) == row_val(old(lhs).spec_row(i as int), j2).sp_add(
                    row_val(rhs.spec_row(i as int), j2),
                ),
                forall|j2: int| !row_has(entries@.take(k as int), j2) ==> #[trigger] row_val(
                    lhs.spec_row(i as int),
                    j2,
                ) == row_val(old(lhs).spec_row(i as int), j2),
            decreases m - k,
        {
            proof {
                rhs.lemma_model();
                assert(row_cols_distinct(entries@));
                lemma_row_val_has(entries@, k as int);
                if row_has(entries@.take(k as int), entries@[k as int].0 as int) {
                    let p = row_index_of(entries@.take(k as int), entries@[k as int].0 as int);
                    assert(entries@[p].0 == entries@[k as int].0);
                    assert(false);
                }
            }
            let (c, v) = entries[k];
            let ghost pre = *lhs;
            lhs.add_to(i, c, v);
            proof {
                assert forall|j2: int| row_has(entries@.take(k as int + 1), j2)
                    implies #[trigger] row_val(lhs.spec_row(i as int), j2) == row_val(
                        old(lhs).spec_row(i as int),
                        j2,
                    ).sp_add(row_val(rhs.spec_row(i as int), j2)) by {
                    if j2 == c as int {
                        assert(row_val(pre.spec_row(i as int), j2) == row_val(
                            old(lhs).spec_row(i as int),
                            j2,
                        ));
                        assert(v == row_val(rhs.spec_row(i as int), j2));
                    } else {
                        let p = row_index_of(entries@.take(k as int + 1), j2);
                        assert(entries@.take(k as int + 1)[p].0 as int == j2);
                        assert(p != k as int);
                        assert(entries@.take(k as int)[p].0 as int == j2);
                        assert(row_has(entries@.take(k as int), j2));
                    }
                }
                assert forall|j2: int| !row_has(entries@.take(k as int + 1), j2)
                    implies #[trigger] row_val(lhs.spec_row(i as int), j2) == row_val(
                        old(lhs).spec_row(i as int),
                        j2,
                    ) by {
                    if row_has(entries@.take(k as int), j2) {
                        let p = row_index_of(entries@.take(k as int), j2);
                        assert(entries@.take(k as int + 1)[p].0 as int == j2);
                        assert(false);
                    }
                    assert(entries@.take(k as int + 1)[k as int].0 as int == c as int);
                    assert(j2 != c as int);
                }
            }
            k = k + 1;
        }
        proof {
            assert(entries@.take(m as int) =~= entries@);
            assert forall|j2: int| #[trigger] row_val(lhs.spec_row(i as int), j2)
                == row_val(old(lhs).spec_row(i as int), j2).sp_add(
                    row_val(rhs.spec_row(i as int), j2),
                ) by {
                if !row_has(entries@, j2) {
                    assert(row_val(rhs.spec_row(i as int), j2) == A::Value::sp_zero());
                    row_val(old(lhs).spec_row(i as int), j2).lemma_add_zero();
                }
            }
        }
        i = i + 1;
    }
    proof {
        rhs.lemma_model();
        assert forall|i2: int, j2: int| #[trigger] row_val(final(lhs).spec_row(i2), j2)
            == row_val(old(lhs).spec_row(i2), j2).sp_add(
                row_val(rhs.spec_row(i2), j2),
            ) by {
            if !(0 <= i2 < n as int) {
                assert(rhs.spec_row(i2) == Seq::<(usize, A::Value)>::empty());
                assert(row_val(rhs.spec_row(i2), j2) == A::Value::sp_zero());
                row_val(old(lhs).spec_row(i2), j2).lemma_add_zero();
            }
        }
    }
}

/// Subtracts one sparse matrix from another: every cell of the result
/// reads the difference of the two operands' cells.  Written once against
/// the capability contract, for any pair of storage engines.
pub fn sub_mat<A, S>(lhs: &mut A, rhs: &S) where A: SparseMatrix, S: SparseMatrix<Value = A::Value>
    requires
        old(lhs).inv(),
        rhs.inv(),
        rhs.spec_rows() <= A::Index::max_spec(),
        rhs.spec_cols() <= A::Index::max_spec(),
        old(lhs).spec_nnz() + rhs.spec_nnz() <= A::Index::max_spec(),
    ensures
        final(lhs).inv(),
        old(lhs).spec_rows() <= final(lhs).spec_rows(),
        final(lhs).spec_rows() <= if rhs.spec_rows() > old(lhs).spec_rows() {
            rhs.spec_rows()
        } else {
            old(lhs).spec_rows()
        },
        old(lhs).spec_cols() <= final(lhs).spec_cols(),
        final(lhs).spec_cols() <= if rhs.spec_cols() > old(lhs).spec_cols() {
            rhs.spec_cols()
        } else {
            old(lhs).spec_cols()
        },
        forall|i: int, j: int| #[trigger] row_val(final(lhs).spec_row(i), j) == row_val(
            old(lhs).spec_row(i),
            j,
        ).sp_sub(row_val(rhs.spec_row(i), j)),
{
    proof {
        rhs.lemma_model();
    }
    let ghost all_rhs = Seq::new(rhs.spec_rows() as nat, |i2: int| rhs.spec_row(i2));
    let n = rhs.n_rows();
    let mut i: usize = 0;
    while i < n
        invariant
            lhs.inv(),
            rhs.inv(),
            n as int == rhs.spec_rows(),
            rhs.spec_rows() <= A::Index::max_spec(),
            rhs.spec_cols() <= A::Index::max_spec(),
            all_rhs == Seq::new(rhs.spec_rows() as nat, |i2: int| rhs.spec_row(i2)),
            rhs.spec_nnz() == sum_row_lens(all_rhs),
            old(lhs).spec_nnz() + rhs.spec_nnz() <= A::Index::max_spec(),
            0 <= i <= n,
            old(lhs).spec_rows() <= lhs.spec_rows(),
            lhs.spec_rows() <= if rhs.spec_rows() > old(lhs).spec_rows() {
                rhs.spec_rows()
            } else {
                old(lhs).spec_rows()
            },
            old(lhs).spec_cols() <= lhs.spec_cols(),
            lhs.spec_cols() <= if rhs.spec_cols() > old(lhs).spec_cols() {
                rhs.spec_cols()
            } else {
                old(lhs).spec_cols()
            },
            lhs.spec_nnz() <= old(lhs).spec_nnz() + sum_row_lens(
                all_rhs.take(i as int),
            ),
            forall|i2: int, j2: int| 0 <= i2 < i ==> #[trigger] row_val(
                lhs.spec_row(i2),
                j2,
            ) == row_val(old(lhs).spec_row(i2), j2).sp_sub(row_val(rhs.spec_row(i2), j2)),
            forall|i2: int| i <= i2 ==> #[trigger] lhs.spec_row(i2) == old(
                lhs,
            ).spec_row(i2),
            forall|i2: int, j2: int| !(0 <= i2 < i) ==> #[trigger] row_val(
                lhs.spec_row(i2),
                j2,
            ) == row_val(old(lhs).spec_row(i2), j2),
        decreases n - i,
    {
        proof {
            rhs.lemma_model();
            lemma_sum_row_lens_prefix_le(all_rhs, i as int + 1);
            assert(all_rhs.take(i as int + 1).drop_last() =~= all_rhs.take(i as int));
            assert(all_rhs.take(i as int + 1).last() == rhs.spec_row(i as int));
        }
        let entries = rhs.row_entries(i);
        let m = entries.len();
        let ghost base_nnz = sum_row_lens(all_rhs.take(i as int));
        let mut k: usize = 0;
        while k < m
            invariant
                lhs.inv(),
                rhs.inv(),
                0 <= i < n,
                n as int == rhs.spec_rows(),
                rhs.spec_rows() <= A::Index::max_spec(),
                rhs.spec_cols() <= A::Index::max_spec(),
                entries@ == rhs.spec_row(i as int),
                m == entries@.len(),
                old(lhs).spec_nnz() + base_nnz + m <= A::Index::max_spec(),
                0 <= k <= m,
                old(lhs).spec_rows() <= lhs.spec_rows(),
                lhs.spec_rows() <= if rhs.spec_rows() > old(lhs).spec_rows() {
                    rhs.spec_rows()
                } else {
                    old(lhs).spec_rows()
                },
                old(lhs).spec_cols() <= lhs.spec_cols(),
                lhs.spec_cols() <= if rhs.spec_cols() > old(lhs).spec_cols() {
                    rhs.spec_cols()
                } else {
                    old(lhs).spec_cols()
                },
                lhs.spec_nnz() <= old(lhs).spec_nnz() + base_nnz + k,
                forall|i2: int, j2: int| 0 <= i2 < i ==> #[trigger] row_val(
                    lhs.spec_row(i2),
                    j2,
                ) == row_val(old(lhs).spec_row(i2), j2).sp_sub(
                    row_val(rhs.spec_row(i2), j2),
                ),
                forall|i2: int| (i as int) < i2 ==> #[trigger] lhs.spec_row(i2) == old(
                    lhs,
                ).spec_row(i2),
                forall|i2: int, j2: int| !(0 <= i2 <= i) ==> #[trigger] row_val(
                    lhs.spec_row(i2),
                    j2,
                ) == row_val(old(lhs).spec_row(i2), j2),
                forall|j2: int| row_has(entries@.take(k as int), j2) ==> #[trigger] row_val(
                    lhs.spec_row(i as int),
                    j2,
                ) == row_val(old(lhs).spec_row(i as int), j2).sp_sub(
                    row_val(rhs.spec_row(i as int), j2),
                ),
                forall|j2: int| !row_has(entries@.take(k as int), j2) ==> #[trigger] row_val(
                    lhs.spec_row(i as int),
                    j2,
                ) == row_val(old(lhs).spec_row(i as int), j2),
            decreases m - k,
        {
            proof {
                rhs.lemma_model();
                assert(row_cols_distinct(entries@));
                lemma_row_val_has(entries@, k as int);
                if row_has(entries@.take(k as int), entries@[k as int].0 as int) {
                    let p = row_index_of(entries@.take(k as int), entries@[k as int].0 as int);
                    assert(entries@[p].0 == entries@[k as int].0);
                    assert(false);
                }
            }
            let (c, v) = entries[k];
            let ghost pre = *lhs;
            lhs.sub_from(i, c, v);
            proof {
                assert forall|j2: int| row_has(entries@.take(k as int + 1), j2)
                    implies #[trigger] row_val(lhs.spec_row(i as int), j2) == row_val(
                        old(lhs).spec_row(i as int),
                        j2,
                    ).sp_sub(row_val(rhs.spec_row(i as int), j2)) by {
                    if j2 == c as int {
                        assert(row_val(pre.spec_row(i as int), j2) == row_val(
                            old(lhs).spec_row(i as int),
                            j2,
                        ));
                        assert(v == row_val(rhs.spec_row(i as int), j2));
                    } else {
                        let p = row_index_of(entries@.take(k as int + 1), j2);
                        assert(entries@.take(k as int + 1)[p].0 as int == j2);
                        assert(p != k as int);
                        assert(entries@.take(k as int)[p].0 as int == j2);
                        assert(row_has(entries@.take(k as int), j2));
                    }
                }
                assert forall|j2: int| !row_has(entries@.take(k as int + 1), j2)
                    implies #[trigger] row_val(lhs.spec_row(i as int), j2) == row_val(
                        old(lhs).spec_row(i as int),
                        j2,
                    ) by {
                    if row_has(entries@.take(k as int), j2) {
                        let p = row_index_of(entries@.take(k as int), j2);
                        assert(entries@.take(k as int + 1)[p].0 as int == j2);
                        assert(false);
                    }
                    assert(entries@.take(k as int + 1)[k as int].0 as int == c as int);
                    assert(j2 != c as int);
                }
            }
            k = k + 1;
        }
        proof {
            assert(entries@.take(m as int) =~= entries@);
            assert forall|j2: int| #[trigger] row_val(lhs.spec_row(i as int), j2)
                == row_val(old(lhs).spec_row(i as int), j2).sp_sub(
                    row_val(rhs.spec_row(i as int), j2),
                ) by {
                if !row_has(entries@, j2) {
                    assert(row_val(rhs.spec_row(i as int), j2) == A::Value::sp_zero());
                    row_val(old(lhs).spec_row(i as int), j2).lemma_sub_zero();
                }
            }
        }
        i = i + 1;
    }
    proof {
        rhs.lemma_model();
        assert forall|i2: int, j2: int| #[trigger] row_val(final(lhs).spec_row(i2), j2)
            == row_val(old(lhs).spec_row(i2), j2).sp_sub(
                row_val(rhs.spec_row(i2), j2),
            ) by {
            if !(0 <= i2 < n as int) {
                assert(rhs.spec_row(i2) == Seq::<(usize, A::Value)>::empty());
                assert(row_val(rhs.spec_row(i2), j2) == A::Value::sp_zero());
                row_val(old(lhs).spec_row(i2), j2).lemma_sub_zero();
            }
        }
    }
}

/// A row with pairwise distinct columns below `cols` has at most `cols`
/// entries.
pub proof fn lemma_row_len_le_cols<T>(row: Seq<(usize, T)>, cols: int)
    requires
        row_cols_distinct(row),
        row_cols_below(row, cols),
        0 <= cols,
    ensures
        row.len() <= cols,
{
    broadcast use vstd::set::group_set_axioms;

    let cs = row.map_values(|p: (usize, T)| p.0 as int);
    assert(cs.no_duplicates());
    cs.unique_seq_to_set();
    assert(cs.to_set().subset_of(set_int_range(0, cols)));
    lemma_int_range(0, cols);
    lemma_len_subset(cs.to_set(), set_int_range(0, cols));
}

/// Appending one row adds its length to the sum.
pub proof fn lemma_sum_row_lens_snoc<T>(rs: Seq<Seq<(usize, T)>>, row: Seq<(usize, T)>)
    ensures
        sum_row_lens(rs.push(row)) == sum_row_lens(rs) + row.len(),
{
    assert(rs.push(row).drop_last() =~= rs);
}

/// Replacing one row adjusts the sum by the difference in lengths.
pub proof fn lemma_sum_row_lens_update<T>(rs: Seq<Seq<(usize, T)>>, r: int, row: Seq<(usize, T)>)
    requires
        0 <= r < rs.len(),
    ensures
        sum_row_lens(rs.update(r, row)) == sum_row_lens(rs) - rs[r].len() + row.len(),
    decreases rs.len(),
{
    let rs2 = rs.update(r, row);
    if r == rs.len() - 1 {
        assert(rs2.drop_last() =~= rs.drop_last());
        assert(rs2.last() == row);
    } else {
        assert(rs2.drop_last() =~= rs.drop_last().update(r, row));
        lemma_sum_row_lens_update(rs.drop_last(), r, row);
        assert(rs2.last() == rs.last());
    }
}

/// The transpose: every stored entry `(i, j, v)` reappears as `(j, i, v)`,
/// so every cell of the result reads the source's mirrored cell.
pub fn transpose<M: SparseMatrix>(m: &M) -> (r: M)
    requires
        m.inv(),
    ensures
        r.inv(),
        r.spec_rows() <= m.spec_cols(),
        r.spec_cols() <= m.spec_rows(),
        r.spec_nnz() == m.spec_nnz(),
        forall|i: int, j: int| #[trigger] row_val(r.spec_row(i), j) == row_val(
            m.spec_row(j),
            i,
        ),
{
    proof {
        m.lemma_model();
    }
    let ghost all_rows = Seq::new(m.spec_rows() as nat, |i2: int| m.spec_row(i2));
    let nnz = m.n_non_zero_entries();
    let n = m.n_rows();
    let mut ret = M::with_capacity(nnz);
    let mut i: usize = 0;
    while i < n
        invariant
            m.inv(),
            n as int == m.spec_rows(),
            all_rows == Seq::new(m.spec_rows() as nat, |i2: int| m.spec_row(i2)),
            m.spec_nnz() == sum_row_lens(all_rows),
            0 <= i <= n,
            ret.inv(),
            ret.spec_rows() <= m.spec_cols(),
            ret.spec_cols() <= m.spec_rows(),
            ret.spec_nnz() == sum_row_lens(all_rows.take(i as int)),
            forall|a: int, b: int| #[trigger] row_has(ret.spec_row(a), b)
                == (0 <= b < i && row_has(m.spec_row(b), a)),
            forall|a: int, b: int| #[trigger] row_val(ret.spec_row(a), b) == if 0 <= b < i {
                row_val(m.spec_row(b), a)
            } else {
                M::Value::sp_zero()
            },
        decreases n - i,
    {
        proof {
            m.lemma_model();
            lemma_sum_row_lens_prefix_le(all_rows, i as int + 1);
            lemma_sum_row_lens_prefix_le(all_rows, m.spec_rows());
            assert(all_rows.take(m.spec_rows()) =~= all_rows);
            assert(all_rows.take(i as int + 1).drop_last() =~= all_rows.take(i as int));
            assert(all_rows.take(i as int + 1).last() == m.spec_row(i as int));
        }
        let entries = m.row_entries(i);
        let m2 = entries.len();
        let ghost base_nnz = sum_row_lens(all_rows.take(i as int));
        let mut k: usize = 0;
        while k < m2
            invariant
                m.inv(),
                0 <= i < n,
                n as int == m.spec_rows(),
                entries@ == m.spec_row(i as int),
                m2 == entries@.len(),
                base_nnz + m2 <= m.spec_nnz() <= M::Index::max_spec(),
                0 <= k <= m2,
                ret.inv(),
                ret.spec_rows() <= m.spec_cols(),
                ret.spec_cols() <= m.spec_rows(),
                ret.spec_nnz() == base_nnz + k,
                forall|a: int, b: int| #[trigger] row_has(ret.spec_row(a), b)
                    == ((0 <= b < i && row_has(m.spec_row(b), a)) || (b == i as int
                        && row_has(entries@.take(k as int), a))),
                forall|a: int, b: int| #[trigger] row_val(ret.spec_row(a), b) == if 0 <= b < i {
                    row_val(m.spec_row(b), a)
                } else if b == i as int && row_has(entries@.take(k as int), a) {
                    row_val(m.spec_row(b), a)
                } else {
                    M::Value::sp_zero()
                },
            decreases m2 - k,
        {
            proof {
                m.lemma_model();
                assert(row_cols_distinct(entries@));
                lemma_row_val_has(entries@, k as int);
                if row_has(entries@.take(k as int), entries@[k as int].0 as int) {
                    let p = row_index_of(entries@.take(k as int), entries@[k as int].0 as int);
                    assert(entries@[p].0 == entries@[k as int].0);
                    assert(false);
                }
            }
            let (c, v) = entries[k];
            let ghost pre = ret;
            ret.set(c, i, v);
            proof {
                assert forall|a: int, b: int| #[trigger] row_has(ret.spec_row(a), b)
                    == ((0 <= b < i && row_has(m.spec_row(b), a)) || (b == i as int
                        && row_has(entries@.take(k as int + 1), a))) by {
                    assert(entries@.take(k as int + 1)[k as int].0 as int == c as int);
                    if a != c as int {
                        assert(ret.spec_row(a) == pre.spec_row(a));
                        if row_has(entries@.take(k as int + 1), a) {
                            let p = row_index_of(entries@.take(k as int + 1), a);
                            if p != k as int {
                                assert(entries@.take(k as int)[p].0 as int == a);
                            }
                        }
                        if row_has(entries@.take(k as int), a) {
                            let p = row_index_of(entries@.take(k as int), a);
                            assert(entries@.take(k as int + 1)[p].0 as int == a);
                        }
                    }
                }
                assert forall|a: int, b: int| #[trigger] row_val(ret.spec_row(a), b)
                    == if 0 <= b < i {
                        row_val(m.spec_row(b), a)
                    } else if b == i as int && row_has(entries@.take(k as int + 1), a) {
                        row_val(m.spec_row(b), a)
                    } else {
                        M::Value::sp_zero()
                    } by {
                    assert(entries@.take(k as int + 1)[k as int].0 as int == c as int);
                    if a == c as int {
                        if b == i as int {
                            assert(row_val(ret.spec_row(a), b) == v);
                            assert(v == row_val(m.spec_row(i as int), a));
                        } else {
                            assert(row_val(ret.spec_row(a), b) == row_val(pre.spec_row(a), b));
                        }
                    } else {
                        assert(ret.spec_row(a) == pre.spec_row(a));
                        if b == i as int && row_has(entries@.take(k as int + 1), a) {
                            let p = row_index_of(entries@.take(k as int + 1), a);
                            if p != k as int {
                                assert(entries@.take(k as int)[p].0 as int == a);
                            }
                        }
                        if b == i as int && row_has(entries@.take(k as int), a) {
                            let p = row_index_of(entries@.take(k as int), a);
                            assert(entries@.take(k as int + 1)[p].0 as int == a);
                        }
                    }
                }
            }
            k = k + 1;
        }
        proof {
            assert(entries@.take(m2 as int) =~= entries@);
            assert forall|a: int, b: int| #[trigger] row_has(ret.spec_row(a), b)
                == (0 <= b < i + 1 && row_has(m.spec_row(b), a)) by {
                if b == i as int {
                    assert(row_has(entries@, a) == row_has(m.spec_row(i as int), a));
                }
            }
            assert forall|a: int, b: int| #[trigger] row_val(ret.spec_row(a), b)
                == if 0 <= b < i + 1 {
                    row_val(m.spec_row(b), a)
                } else {
                    M::Value::sp_zero()
                } by {
                if b == i as int && !row_has(entries@, a) {
                    assert(row_val(m.spec_row(b), a) == M::Value::sp_zero());
                }
            }
        }
        i = i + 1;
    }
    proof {
        m.lemma_model();
        assert(all_rows.take(n as int) =~= all_rows);
        assert forall|i2: int, j2: int| #[trigger] row_val(ret.spec_row(i2), j2) == row_val(
            m.spec_row(j2),
            i2,
        ) by {
            if !(0 <= j2 < n as int) {
                assert(m.spec_row(j2) == Seq::<(usize, M::Value)>::empty());
            }
        }
    }
    ret
}

/// Is the matrix symmetric?  True exactly when every cell reads the same
/// as its mirrored cell.
pub fn is_symmetric<M: SparseMatrix>(m: &M) -> (r: bool)
    requires
        m.inv(),
    ensures
        r <==> forall|i: int, j: int| #[trigger] row_val(m.spec_row(i), j) == row_val(
            m.spec_row(j),
            i,
        ),
{
    proof {
        m.lemma_model();
    }
    let n = m.n_rows();
    let mut i: usize = 0;
    while i < n
        invariant
            m.inv(),
            n as int == m.spec_rows(),
            0 <= i <= n,
            forall|i2: int, k: int|
                0 <= i2 < i && 0 <= k < m.spec_row(i2).len()
                    ==> row_val(m.spec_row((#[trigger] m.spec_row(i2)[k]).0 as int), i2)
                        == m.spec_row(i2)[k].1,
        decreases n - i,
    {
        let entries = m.row_entries(i);
        let m2 = entries.len();
        let mut k: usize = 0;
        while k < m2
            invariant
                m.inv(),
                0 <= i < n,
                n as int == m.spec_rows(),
                entries@ == m.spec_row(i as int),
                m2 == entries@.len(),
                0 <= k <= m2,
                forall|i2: int, k2: int|
                    0 <= i2 < i && 0 <= k2 < m.spec_row(i2).len()
                        ==> row_val(m.spec_row((#[trigger] m.spec_row(i2)[k2]).0 as int), i2)
                            == m.spec_row(i2)[k2].1,
                forall|k2: int|
                    0 <= k2 < k
                        ==> row_val(
                            m.spec_row((#[trigger] entries@[k2]).0 as int),
                            i as int,
                        ) == entries@[k2].1,
            decreases m2 - k,
        {
            let (c, v) = entries[k];
            let mirror = m.get(c, i);
            if !mirror.eq_val(v) {
                proof {
                    m.lemma_model();
                    lemma_row_val_has(entries@, k as int);
                    assert(row_val(m.spec_row(i as int), c as int) == v);
                    assert(row_val(m.spec_row(c as int), i as int) != v);
                }
                return false;
            }
            k = k + 1;
        }
        i = i + 1;
    }
    proof {
        m.lemma_model();
        assert forall|a: int, b: int| #[trigger] row_val(m.spec_row(a), b) == row_val(
            m.spec_row(b),
            a,
        ) by {
            if row_has(m.spec_row(a), b) {
                let p = row_index_of(m.spec_row(a), b);
                lemma_row_val_has(m.spec_row(a), p);
                assert(0 <= a < n as int);
                assert(row_val(m.spec_row(b), a) == m.spec_row(a)[p].1);
            } else if row_has(m.spec_row(b), a) {
                let p = row_index_of(m.spec_row(b), a);
                lemma_row_val_has(m.spec_row(b), p);
                assert(0 <= b < n as int);
                assert(row_val(m.spec_row(a), b) == m.spec_row(b)[p].1);
            } else {
                assert(row_val(m.spec_row(a), b) == M::Value::sp_zero());
                assert(row_val(m.spec_row(b), a) == M::Value::sp_zero());
            }
        }
    }
    true
}

/// The contribution of one matrix column to one product cell: walk the
/// column's `(row, value)` entries in order, look the row up in the left
/// operand's row, and accumulate the products from the left.
pub open spec fn col_dot<T: ValueType>(bcol: Seq<(usize, T)>, arow: Seq<(usize, T)>) -> T
    decreases bcol.len(),
{
    if bcol.len() == 0 {
        T::sp_zero()
    } else {
        col_dot(bcol.drop_last(), arow).sp_add(
            row_val(arow, bcol.last().0 as int).sp_mul(bcol.last().1),
        )
    }
}

/// The sparse-sparse product `C = A x B`, computed row by row: each row of
/// the left operand is materialized and sorted once, and each column of
/// the right operand is walked through its column view; only non-zero
/// sums are stored.  Fails with a dimension mismatch when the left
/// operand's column count differs from the right operand's row count, and
/// reports an unassembled column view.
#[verifier::rlimit(100)]
pub fn prod<A, B>(a: &A, rhs: &B) -> (r: Result<A, SparseMatError>)
    where A: SparseMatrix, B: ColumnIter<Value = A::Value>
    requires
        a.inv(),
        rhs.inv(),
        rhs.spec_cols() <= A::Index::max_spec(),
        a.spec_rows() * rhs.spec_cols() <= A::Index::max_spec(),
    ensures
        match r {
            Ok(c) => {
                &&& a.spec_cols() == rhs.spec_rows()
                &&& rhs.col_ok()
                &&& c.inv()
                &&& c.spec_rows() <= a.spec_rows()
                &&& c.spec_cols() <= rhs.spec_cols()
                &&& forall|i: int, j: int|
                    0 <= i < a.spec_rows() && 0 <= j < rhs.spec_cols()
                        ==> #[trigger] row_val(c.spec_row(i), j) == col_dot(
                            rhs.spec_col(j),
                            a.spec_row(i),
                        )
            },
            Err(SparseMatError::DimensionMismatch) => a.spec_cols() != rhs.spec_rows(),
            Err(SparseMatError::NotAvailable) => a.spec_cols() == rhs.spec_rows()
                && !rhs.col_ok(),
        },
{
    proof {
        a.lemma_model();
        rhs.lemma_model();
    }
    let ac = a.n_cols();
    let br = rhs.n_rows();
    if ac != br {
        return Err(SparseMatError::DimensionMismatch);
    }
    if !rhs.has_iter_col() {
        return Err(SparseMatError::NotAvailable);
    }
    let nr = a.n_rows();
    let nc = rhs.n_cols();
    let mut ret = A::with_capacity(a.n_non_zero_entries());
    let mut i: usize = 0;
    while i < nr
        invariant
            a.inv(),
            rhs.inv(),
            rhs.col_ok(),
            a.spec_cols() == rhs.spec_rows(),
            nr as int == a.spec_rows(),
            nc as int == rhs.spec_cols(),
            rhs.spec_cols() <= A::Index::max_spec(),
            a.spec_rows() * rhs.spec_cols() <= A::Index::max_spec(),
            0 <= i <= nr,
            ret.inv(),
            ret.spec_rows() <= a.spec_rows(),
            ret.spec_cols() <= rhs.spec_cols(),
            ret.spec_nnz() <= i * (nc as int),
            forall|a2: int, b2: int| #[trigger] row_val(ret.spec_row(a2), b2)
                == if 0 <= a2 < i && 0 <= b2 < nc {
                    col_dot(rhs.spec_col(b2), a.spec_row(a2))
                } else {
                    A::Value::sp_zero()
                },
        decreases nr - i,
    {
        let arow = a.row_entries(i);
        let sorted = sort_pairs(&arow);
        proof {
            a.lemma_model();
            lemma_distinct_perm(sorted@, arow@);
            lemma_row_val_perm(sorted@, arow@);
        }
        let mut j: usize = 0;
        while j < nc
            invariant
                a.inv(),
                rhs.inv(),
                rhs.col_ok(),
                a.spec_cols() == rhs.spec_rows(),
                nr as int == a.spec_rows(),
                nc as int == rhs.spec_cols(),
                rhs.spec_cols() <= A::Index::max_spec(),
                a.spec_rows() * rhs.spec_cols() <= A::Index::max_spec(),
                0 <= i < nr,
                0 <= j <= nc,
                arow@ == a.spec_row(i as int),
                row_cols_distinct(sorted@),
                forall|j2: int| row_val(sorted@, j2) == row_val(arow@, j2),
                ret.inv(),
                ret.spec_rows() <= a.spec_rows(),
                ret.spec_cols() <= rhs.spec_cols(),
                ret.spec_nnz() <= i * (nc as int) + j,
                forall|a2: int, b2: int| #[trigger] row_val(ret.spec_row(a2), b2)
                    == if (0 <= a2 < i && 0 <= b2 < nc) || (a2 == i as int && 0 <= b2 < j) {
                        col_dot(rhs.spec_col(b2), a.spec_row(a2))
                    } else {
                        A::Value::sp_zero()
                    },
            decreases nc - j,
        {
            let bcol = match rhs.col_entries(j) {
                Ok(v) => v,
                Err(_) => {
                    proof {
                        assert(false);
                    }
                    return Err(SparseMatError::NotAvailable);
                },
            };
            let m2 = bcol.len();
            let mut sum = A::Value::zero();
            let mut k: usize = 0;
            while k < m2
                invariant
                    a.inv(),
                    0 <= i < nr,
                    nr as int == a.spec_rows(),
                    arow@ == a.spec_row(i as int),
                    row_cols_distinct(sorted@),
                    forall|j2: int| row_val(sorted@, j2) == row_val(arow@, j2),
                    bcol@ == rhs.spec_col(j as int),
                    m2 == bcol@.len(),
                    0 <= k <= m2,
                    sum == col_dot(bcol@.take(k as int), a.spec_row(i as int)),
                decreases m2 - k,
            {
                let (rr, bv) = bcol[k];
                proof {
                    assert(bcol@.take(k as int + 1).drop_last() =~= bcol@.take(k as int));
                    assert(bcol@.take(k as int + 1).last() == bcol@[k as int]);
                }
                match crate::model::find_pair(&sorted, rr) {
                    Some(av) => {
                        sum = sum.add_val(av.mul_val(bv));
                    },
                    None => {
                        proof {
                            assert(row_val(a.spec_row(i as int), rr as int)
                                == A::Value::sp_zero());
                            bv.lemma_mul_zero();
                            sum.lemma_add_zero();
                        }
                    },
                }
                k = k + 1;
            }
            proof {
                assert(bcol@.take(m2 as int) =~= bcol@);
            }
            let z = A::Value::zero();
            let ghost pre = ret;
            if !sum.eq_val(z) {
                proof {
                    a.lemma_model();
                    assert((i as int) * (nc as int) + (j as int) < (nr as int) * (nc as int))
                        by (nonlinear_arith)
                        requires 0 <= i < nr, 0 <= j < nc;
                    assert(ret.spec_nnz() <= i * (nc as int) + j);
                }
                ret.set(i, j, sum);
            }
            proof {
                assert forall|a2: int, b2: int| #[trigger] row_val(ret.spec_row(a2), b2)
                    == if (0 <= a2 < i && 0 <= b2 < nc) || (a2 == i as int && 0 <= b2 < j + 1) {
                        col_dot(rhs.spec_col(b2), a.spec_row(a2))
                    } else {
                        A::Value::sp_zero()
                    } by {
                    if a2 == i as int && b2 == j as int {
                        assert(row_val(ret.spec_row(a2), b2) == sum);
                    } else if sum == A::Value::sp_zero() {
                        assert(ret == pre);
                    } else {
                        if a2 == i as int {
                            assert(row_val(ret.spec_row(a2), b2) == row_val(
                                pre.spec_row(a2),
                                b2,
                            ));
                        } else {
                            assert(ret.spec_row(a2) == pre.spec_row(a2));
                        }
                    }
                }
                assert((i as int) * (nc as int) + (j as int) + 1 <= (i as int) * (nc as int)
                    + (nc as int));
            }
            j = j + 1;
        }
        proof {
            assert((i as int) * (nc as int) + (nc as int) == (i as int + 1) * (nc as int))
                by (nonlinear_arith);
        }
        i = i + 1;
    }
    proof {
        assert forall|i2: int, j2: int|
            0 <= i2 < a.spec_rows() && 0 <= j2 < rhs.spec_cols()
            implies #[trigger] row_val(ret.spec_row(i2), j2) == col_dot(
                rhs.spec_col(j2),
                a.spec_row(i2),
            ) by {
        }
    }
    Ok(ret)
}

/// Optional capability: sorting a row's entries by column.
pub trait Sortable: SparseMatrix {
    /// Sorts the entries of row `i` by column, ascending.  The row holds
    /// the same entries afterwards, and every cell reads the same.
    fn sort_row(&mut self, i: usize)
        requires
            old(self).inv(),
        ensures
            final(self).inv(),
            final(self).spec_rows() == old(self).spec_rows(),
            final(self).spec_cols() == old(self).spec_cols(),
            final(self).spec_nnz() == old(self).spec_nnz(),
            forall|r: int| r != i as int ==> final(self).spec_row(r) == old(self).spec_row(r),
            row_sorted(final(self).spec_row(i as int)),
            final(self).spec_row(i as int).to_multiset() == old(self).spec_row(
                i as int,
            ).to_multiset(),
            forall|j2: int| row_val(final(self).spec_row(i as int), j2) == row_val(
                old(self).spec_row(i as int),
                j2,
            ),
    ;

    /// Sorts every row of the matrix by column, ascending.
    fn sort(&mut self)
        requires
            old(self).inv(),
        ensures
            final(self).inv(),
            final(self).spec_rows() == old(self).spec_rows(),
            final(self).spec_cols() == old(self).spec_cols(),
            final(self).spec_nnz() == old(self).spec_nnz(),
            forall|r: int| row_sorted(#[trigger] final(self).spec_row(r)),
            forall|r: int| #[trigger] final(self).spec_row(r).to_multiset()
                == old(self).spec_row(r).to_multiset(),
            forall|r: int, j2: int| #[trigger] row_val(final(self).spec_row(r), j2)
                == row_val(old(self).spec_row(r), j2),
    {
        let n = self.n_rows();
        let mut i: usize = 0;
        while i < n
            invariant
                self.inv(),
                n as int == self.spec_rows(),
                self.spec_rows() == old(self).spec_rows(),
                self.spec_cols() == old(self).spec_cols(),
                self.spec_nnz() == old(self).spec_nnz(),
                0 <= i <= n,
                forall|r: int| 0 <= r < i ==> row_sorted(#[trigger] self.spec_row(r)),
                forall|r: int| #[trigger] self.spec_row(r).to_multiset()
                    == old(self).spec_row(r).to_multiset(),
                forall|r: int, j2: int| #[trigger] row_val(self.spec_row(r), j2)
                    == row_val(old(self).spec_row(r), j2),
                forall|r: int| i <= r ==> #[trigger] self.spec_row(r)
                    == old(self).spec_row(r),
            decreases n - i,
        {
            let ghost pre = *self;
            self.sort_row(i);
            proof {
                assert forall|r: int| #[trigger] self.spec_row(r).to_multiset()
                    == old(self).spec_row(r).to_multiset() by {
                    if r != i as int {
                        assert(self.spec_row(r) == pre.spec_row(r));
                    }
                }
                assert forall|r: int, j2: int| #[trigger] row_val(self.spec_row(r), j2)
                    == row_val(old(self).spec_row(r), j2) by {
                    if r != i as int {
                        assert(self.spec_row(r) == pre.spec_row(r));
                    }
                }
            }
            i = i + 1;
        }
        proof {
            self.lemma_model();
            assert forall|r: int| row_sorted(#[trigger] final(self).spec_row(r)) by {
                if !(0 <= r < n as int) {
                    assert(final(self).spec_row(r) == Seq::<(usize, Self::Value)>::empty());
                }
            }
        }
    }
}

/// Optional capability: iterating a column's entries, after an explicit
/// `assemble_column_info` build step.
pub trait ColumnIter: SparseMatrix {
    /// Is the column view assembled and current?
    spec fn col_ok(&self) -> bool;

    /// The `(row, value)` entries of column `j` in the assembled view.
    spec fn spec_col(&self, j: int) -> Seq<(usize, Self::Value)>;

    /// When the view is current, it agrees with the stored entries: the
    /// entries of column `j` are exactly the row entries with column `j`,
    /// one per row, with the same values.
    proof fn lemma_col_model(&self)
        requires
            self.inv(),
            self.col_ok(),
        ensures
            forall|j: int| row_cols_distinct(#[trigger] self.spec_col(j)),
            forall|j: int, r: int| #[trigger] row_has(self.spec_col(j), r) == row_has(
                self.spec_row(r),
                j,
            ),
            forall|j: int, r: int| #[trigger] row_val(self.spec_col(j), r) == row_val(
                self.spec_row(r),
                j,
            ),
    ;

    /// Assembles the column view; the stored entries are unchanged.
    fn assemble_column_info(&mut self)
        requires
            old(self).inv(),
        ensures
            final(self).inv(),
            final(self).col_ok(),
            final(self).spec_rows() == old(self).spec_rows(),
            final(self).spec_cols() == old(self).spec_cols(),
            final(self).spec_nnz() == old(self).spec_nnz(),
            forall|r: int| #[trigger] final(self).spec_row(r) == old(self).spec_row(r),
    ;

    /// Is the column view available?
    fn has_iter_col(&self) -> (r: bool)
        requires
            self.inv(),
        ensures
            r <==> self.col_ok(),
    ;

    /// Materializes the entries of column `j` as `(row, value)` pairs, or
    /// reports that the view is not available because
    /// `assemble_column_info` has not run since the last change.
    fn col_entries(&self, j: usize) -> (r: Result<Vec<(usize, Self::Value)>, SparseMatError>)
        requires
            self.inv(),
        ensures
            match r {
                Ok(v) => self.col_ok() && v@ == self.spec_col(j as int),
                Err(e) => !self.col_ok() && e == SparseMatError::NotAvailable,
            },
    ;
}

/// A prefix of a row sequence has a sum no larger than the whole.
pub proof fn lemma_sum_row_lens_prefix_le<T>(rs: Seq<Seq<(usize, T)>>, i: int)
    requires
        0 <= i <= rs.len(),
    ensures
        sum_row_lens(rs.take(i)) <= sum_row_lens(rs),
    decreases rs.len() - i,
{
    if i == rs.len() {
        assert(rs.take(i) =~= rs);
    } else {
        lemma_sum_row_lens_prefix_le(rs, i + 1);
        assert(rs.take(i + 1).drop_last() =~= rs.take(i));
        assert(sum_row_lens(rs.take(i + 1)) == sum_row_lens(rs.take(i)) + rs[i].len());
    }
}

/// The summed length of rows with distinct, bounded columns is bounded by
/// the grid size.
pub proof fn lemma_sum_rows_le<T>(rows: Seq<Seq<(usize, T)>>, cols: int)
    requires
        0 <= cols,
        forall|i: int| 0 <= i < rows.len() ==> row_cols_distinct(#[trigger] rows[i]),
        forall|i: int| 0 <= i < rows.len() ==> row_cols_below(#[trigger] rows[i], cols),
    ensures
        0 <= sum_row_lens(rows) <= rows.len() * cols,
    decreases rows.len(),
{
    if rows.len() > 0 {
        lemma_sum_rows_le(rows.drop_last(), cols);
        lemma_row_len_le_cols(rows.last(), cols);
        assert((rows.len() - 1) * cols + cols == rows.len() * cols) by (nonlinear_arith);
    }
}

/// The stored entry count never exceeds the number of grid cells.
pub proof fn lemma_nnz_le_total<M: SparseMatrix>(m: &M)
    requires
        m.inv(),
    ensures
        0 <= m.spec_nnz() <= m.spec_rows() * m.spec_cols(),
{
    m.lemma_model();
    let rs = Seq::new(m.spec_rows() as nat, |i: int| m.spec_row(i));
    lemma_sum_rows_le(rs, m.spec_cols());
}

/// Density and sparsity are complementary: as exact fractions over the
/// common denominator `rows * cols`, the stored-cell count and the
/// absent-cell count add up to the whole grid, so density + sparsity == 1
/// for any non-degenerate matrix.
pub proof fn lemma_density_plus_sparsity<M: SparseMatrix>(m: &M)
    requires
        m.inv(),
    ensures
        m.spec_nnz() + (m.spec_rows() * m.spec_cols() - m.spec_nnz())
            == m.spec_rows() * m.spec_cols(),
        0 <= m.spec_nnz() <= m.spec_rows() * m.spec_cols(),
{
    lemma_nnz_le_total(m);
}

/// Transposing twice reproduces the original entry set: when `t` reads as
/// the mirror of `m` and `u` reads as the mirror of `t` — as the transpose
/// contract states — every cell of `u` reads as the same cell of `m`.
pub proof fn lemma_transpose_involution<M: SparseMatrix>(m: &M, t: &M, u: &M)
    requires
        forall|i: int, j: int| #[trigger] row_val(t.spec_row(i), j) == row_val(
            m.spec_row(j),
            i,
        ),
        forall|i: int, j: int| #[trigger] row_val(u.spec_row(i), j) == row_val(
            t.spec_row(j),
            i,
        ),
    ensures
        forall|i: int, j: int| #[trigger] row_val(u.spec_row(i), j) == row_val(
            m.spec_row(i),
            j,
        ),
{
}

/// A shared cursor over materialized `(row, column, value)` triples, in
/// row-major order.
pub struct EntriesIter<T> {
    pub data: Vec<(usize, usize, T)>,
    pub pos: usize,
}

impl<T> EntriesIter<T>
    where T: ValueType
{
    /// The triples not yet yielded.
    pub open spec fn remaining(&self) -> Seq<(usize, usize, T)> {
        if self.pos <= self.data@.len() {
            self.data@.skip(self.pos as int)
        } else {
            Seq::empty()
        }
    }

    /// Yields the next `(row, column, value)` triple.
    pub fn next(&mut self) -> (r: Option<(usize, usize, T)>)
        ensures
            old(self).remaining().len() > 0 ==> {
                &&& r == Some(old(self).remaining()[0])
                &&& final(self).remaining() == old(self).remaining().skip(1)
            },
            old(self).remaining().len() == 0 ==> {
                &&& r is None
                &&& final(self).remaining() == old(self).remaining()
            },
    {
        if self.pos < self.data.len() {
            let e = self.data[self.pos];
            self.pos = self.pos + 1;
            proof {
                assert(final(self).remaining() =~= old(self).remaining().skip(1));
            }
            Some(e)
        } else {
            None
        }
    }
}

/// The `(row, column, value)` triples of rows `0 .. upto`, row-major, each
/// row in its own iteration order.
pub open spec fn spec_triples<M: SparseMatrix>(m: &M, upto: int) -> Seq<(usize, usize, M::Value)>
    decreases upto,
{
    if upto <= 0 {
        Seq::empty()
    } else {
        spec_triples(m, upto - 1) + m.spec_row(upto - 1).map_values(
            |p: (usize, M::Value)| (((upto - 1) as usize), p.0, p.1),
        )
    }
}

/// Materializes every stored entry as a `(row, column, value)` triple, in
/// row-major order.
pub fn entries_vec<M: SparseMatrix>(m: &M) -> (r: Vec<(usize, usize, M::Value)>)
    requires
        m.inv(),
    ensures
        r@ == spec_triples(m, m.spec_rows()),
{
    proof {
        m.lemma_model();
    }
    let n = m.n_rows();
    let mut out: Vec<(usize, usize, M::Value)> = Vec::new();
    let mut i: usize = 0;
    while i < n
        invariant
            m.inv(),
            n as int == m.spec_rows(),
            0 <= i <= n,
            out@ == spec_triples(m, i as int),
        decreases n - i,
    {
        let entries = m.row_entries(i);
        let m2 = entries.len();
        let ghost base = out@;
        let mut k: usize = 0;
        while k < m2
            invariant
                m.inv(),
                0 <= i < n,
                entries@ == m.spec_row(i as int),
                m2 == entries@.len(),
                0 <= k <= m2,
                out@.len() == base.len() + k,
                out@ == base + entries@.take(k as int).map_values(
                    |p: (usize, M::Value)| (i, p.0, p.1),
                ),
            decreases m2 - k,
        {
            let (c, v) = entries[k];
            out.push((i, c, v));
            proof {
                assert(out@ =~= base + entries@.take(k as int + 1).map_values(
                    |p: (usize, M::Value)| (i, p.0, p.1),
                ));
            }
            k = k + 1;
        }
        proof {
            assert(entries@.take(m2 as int) =~= entries@);
            assert(out@ =~= spec_triples(m, i as int + 1));
        }
        i = i + 1;
    }
    out
}

} // verus!
