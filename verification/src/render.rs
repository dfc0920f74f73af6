//! Plain-text rendering of matrices: a space-separated row dump with
//! explicit zeros, and a portable bitmap of the sparsity structure.
//!
//! Rows must be sorted by column for the output to be meaningful; the
//! contracts require it and state the emitted character sequence exactly.
//! All text is built as verified character vectors; only the final
//! conversion to `String` is a trusted standard-library call.

use vstd::prelude::*;
use crate::types::{IndexType, ValueType, dec_str, dec_chars_u64};
use crate::model::{row_sorted, row_cols_distinct, lemma_sorted_unique};
use crate::sparsematrix::SparseMatrix;
use crate::sparsevec::get_row;

verus! {

/// Relies on `String`'s `FromIterator<char>` implementation: collecting
/// characters yields the string of exactly those characters, in order.
#[verifier::external_body]
fn chars_to_string(v: &Vec<char>) -> (r: String)
    ensures
        r@ == v@,
{
    v.iter().collect()
}

/// `n` copies of `"0 "`.
pub open spec fn zeros_text(n: int) -> Seq<char>
    decreases n,
{
    if n <= 0 {
        Seq::empty()
    } else {
        zeros_text(n - 1) + seq!['0', ' ']
    }
}

/// Unfolding a zero padding from the front.
proof fn lemma_zeros_unfold_left(n: int)
    requires
        n >= 1,
    ensures
        zeros_text(n) =~= seq!['0', ' '] + zeros_text(n - 1),
    decreases n,
{
    if n > 1 {
        lemma_zeros_unfold_left(n - 1);
        assert(zeros_text(n) =~= (seq!['0', ' '] + zeros_text(n - 2)) + seq!['0', ' ']);
    }
}

/// The text of a sorted row from entry `k` on, with the column cursor at
/// `j`: zero padding up to each entry's column, then the value and a
/// space.
pub open spec fn row_text_from<T: ValueType>(row: Seq<(usize, T)>, k: int, j: int) -> Seq<char>
    decreases row.len() - k,
{
    if k < 0 || k >= row.len() {
        Seq::empty()
    } else {
        zeros_text(row[k].0 - j) + row[k].1.text_spec() + seq![' '] + row_text_from(
            row,
            k + 1,
            row[k].0 + 1,
        )
    }
}

/// The text of a whole sorted row.
pub open spec fn row_text<T: ValueType>(row: Seq<(usize, T)>) -> Seq<char> {
    row_text_from(row, 0, 0)
}

/// Builds the text of a sorted row of `m` as characters.
fn row_chars<M: SparseMatrix>(m: &M, i: usize) -> (r: Vec<char>)
    requires
        m.inv(),
        row_sorted(m.spec_row(i as int)),
    ensures
        r@ == row_text(m.spec_row(i as int)),
{
    proof {
        m.lemma_model();
        M::Index::lemma_max_fits();
    }
    let sv = get_row(m, i);
    let entries = sv.iter_sparse_entries();
    proof {
        lemma_sorted_unique(entries@, m.spec_row(i as int));
    }
    let n = entries.len();
    let mut out: Vec<char> = Vec::new();
    let mut j: usize = 0;
    let mut k: usize = 0;
    while k < n
        invariant
            m.inv(),
            entries@ == m.spec_row(i as int),
            row_sorted(entries@),
            crate::model::row_cols_below(entries@, m.spec_cols()),
            m.spec_cols() <= M::Index::max_spec() <= usize::MAX as int,
            n == entries@.len(),
            0 <= k <= n,
            k < n ==> j <= entries@[k as int].0,
            row_text(entries@) == out@ + row_text_from(entries@, k as int, j as int),
        decreases n - k,
    {
        let (col, val) = entries[k];
        while j < col
            invariant
                k < n,
                n == entries@.len(),
                (col, val) == entries@[k as int],
                (col as int) < M::Index::max_spec() <= usize::MAX as int,
                j <= col,
                row_text(entries@) == out@ + zeros_text(col - j) + val.text_spec() + seq![' ']
                    + row_text_from(entries@, k as int + 1, col as int + 1),
            decreases col - j,
        {
            let ghost before = out@;
            out.push('0');
            out.push(' ');
            proof {
                lemma_zeros_unfold_left(col - j);
                assert(before + zeros_text(col - j) =~= out@ + zeros_text(col - (j + 1)));
            }
            j = j + 1;
        }
        let mut txt = val.to_text();
        out.append(&mut txt);
        out.push(' ');
        j = col + 1;
        k = k + 1;
        proof {
            m.lemma_model();
            assert(row_cols_distinct(entries@));
            if k < n {
                assert(entries@[k as int - 1].0 != entries@[k as int].0);
            }
            assert(row_text(entries@) =~= out@ + row_text_from(entries@, k as int, j as int));
        }
    }
    proof {
        assert(row_text(entries@) =~= out@);
    }
    out
}

/// Returns row `i` of `m` as text: every column up to the last stored
/// entry, zeros included, space-separated.  The row must be sorted by
/// column.
pub fn to_string_row<M: SparseMatrix>(m: &M, i: usize) -> (r: String)
    requires
        m.inv(),
        row_sorted(m.spec_row(i as int)),
    ensures
        r@ == row_text(m.spec_row(i as int)),
{
    let chars = row_chars(m, i);
    chars_to_string(&chars)
}

/// The text of rows `0 .. upto`, one line per row.
pub open spec fn rows_text<M: SparseMatrix>(m: &M, upto: int) -> Seq<char>
    decreases upto,
{
    if upto <= 0 {
        Seq::empty()
    } else {
        rows_text(m, upto - 1) + row_text(m.spec_row(upto - 1)) + seq!['\n']
    }
}

/// Returns the whole matrix as text, one line per row.  Every row must be
/// sorted by column.
pub fn to_string<M: SparseMatrix>(m: &M) -> (r: String)
    requires
        m.inv(),
        forall|i: int| row_sorted(#[trigger] m.spec_row(i)),
    ensures
        r@ == rows_text(m, m.spec_rows()),
{
    proof {
        m.lemma_model();
    }
    let n = m.n_rows();
    let mut out: Vec<char> = Vec::new();
    let mut i: usize = 0;
    while i < n
        invariant
            m.inv(),
            forall|i2: int| row_sorted(#[trigger] m.spec_row(i2)),
            n as int == m.spec_rows(),
            0 <= i <= n,
            out@ == rows_text(m, i as int),
        decreases n - i,
    {
        let mut line = row_chars(m, i);
        out.append(&mut line);
        out.push('\n');
        proof {
            assert(out@ =~= rows_text(m, i as int + 1));
        }
        i = i + 1;
    }
    chars_to_string(&out)
}

/// `n` copies of `'1'`.
pub open spec fn ones_text(n: int) -> Seq<char>
    decreases n,
{
    if n <= 0 {
        Seq::empty()
    } else {
        ones_text(n - 1) + seq!['1']
    }
}

/// Unfolding a one padding from the front.
proof fn lemma_ones_unfold_left(n: int)
    requires
        n >= 1,
    ensures
        ones_text(n) =~= seq!['1'] + ones_text(n - 1),
    decreases n,
{
    if n > 1 {
        lemma_ones_unfold_left(n - 1);
        assert(ones_text(n) =~= (seq!['1'] + ones_text(n - 2)) + seq!['1']);
    }
}

/// The bitmap line of a sorted row from entry `k` on: `'1'` for each
/// absent column before an entry, `'0'` at each entry.
pub open spec fn pbm_line_from<T: ValueType>(row: Seq<(usize, T)>, k: int, j: int) -> Seq<char>
    decreases row.len() - k,
{
    if k < 0 || k >= row.len() {
        Seq::empty()
    } else {
        ones_text(row[k].0 - j) + seq!['0'] + pbm_line_from(row, k + 1, row[k].0 + 1)
    }
}

/// The full bitmap text: the `P1` header, the row and column counts, and
/// one line per row of presence bits.
pub open spec fn pbm_text_spec<M: SparseMatrix>(m: &M, upto: int) -> Seq<char>
    decreases upto,
{
    if upto <= 0 {
        seq!['P', '1', '\n'] + dec_str(m.spec_rows()) + seq![' '] + dec_str(m.spec_cols())
            + seq!['\n']
    } else {
        pbm_text_spec(m, upto - 1) + pbm_line_from(m.spec_row(upto - 1), 0, 0) + seq!['\n']
    }
}

/// Returns the sparsity structure of the matrix as a portable bitmap:
/// the `P1` header, the dimensions, and one line per row of presence
/// bits.  Every row must be sorted by column.
pub fn to_pbm_text<M: SparseMatrix>(m: &M) -> (r: String)
    requires
        m.inv(),
        forall|i: int| row_sorted(#[trigger] m.spec_row(i)),
    ensures
        r@ == pbm_text_spec(m, m.spec_rows()),
{
    proof {
        m.lemma_model();
        M::Index::lemma_max_fits();
    }
    let mut out: Vec<char> = Vec::new();
    out.push('P');
    out.push('1');
    out.push('\n');
    let rows = m.n_rows();
    let cols = m.n_cols();
    let mut rd = dec_chars_u64(rows as u64);
    out.append(&mut rd);
    out.push(' ');
    let mut cd = dec_chars_u64(cols as u64);
    out.append(&mut cd);
    out.push('\n');
    proof {
        assert(out@ =~= pbm_text_spec(m, 0));
    }
    let n = rows;
    let mut i: usize = 0;
    while i < n
        invariant
            m.inv(),
            forall|i2: int| row_sorted(#[trigger] m.spec_row(i2)),
            n as int == m.spec_rows(),
            m.spec_cols() <= M::Index::max_spec() <= usize::MAX as int,
            0 <= i <= n,
            out@ == pbm_text_spec(m, i as int),
        decreases n - i,
    {
        proof {
            m.lemma_model();
        }
        let entries = m.row_entries(i);
        let m2 = entries.len();
        let mut j: usize = 0;
        let mut k: usize = 0;
        let ghost base = out@;
        while k < m2
            invariant
                m.inv(),
                entries@ == m.spec_row(i as int),
                crate::model::row_cols_below(entries@, m.spec_cols()),
                m.spec_cols() <= M::Index::max_spec() <= usize::MAX as int,
                row_sorted(entries@),
                m2 == entries@.len(),
                0 <= k <= m2,
                k < m2 ==> j <= entries@[k as int].0,
                base + pbm_line_from(entries@, 0, 0) == out@ + pbm_line_from(
                    entries@,
                    k as int,
                    j as int,
                ),
            decreases m2 - k,
        {
            let (col, _val) = entries[k];
            while j < col
                invariant
                    k < m2,
                    m2 == entries@.len(),
                    col == entries@[k as int].0,
                    (col as int) < M::Index::max_spec() <= usize::MAX as int,
                    j <= col,
                    base + pbm_line_from(entries@, 0, 0) == out@ + ones_text(col - j)
                        + seq!['0'] + pbm_line_from(entries@, k as int + 1, col as int + 1),
                decreases col - j,
            {
                let ghost before = out@;
                out.push('1');
                proof {
                    lemma_ones_unfold_left(col - j);
                    assert(before + ones_text(col - j) =~= out@ + ones_text(col - (j + 1)));
                }
                j = j + 1;
            }
            out.push('0');
            j = col + 1;
            k = k + 1;
            proof {
                m.lemma_model();
                assert(row_cols_distinct(entries@));
                if k < m2 {
                    assert(entries@[k as int - 1].0 != entries@[k as int].0);
                }
                assert(base + pbm_line_from(entries@, 0, 0) =~= out@ + pbm_line_from(
                    entries@,
                    k as int,
                    j as int,
                ));
            }
        }
        out.push('\n');
        proof {
            assert(out@ =~= pbm_text_spec(m, i as int + 1));
        }
        i = i + 1;
    }
    chars_to_string(&out)
}

} // verus!
