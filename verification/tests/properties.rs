// Observable behaviour on concrete values: cell writes and reads, the
// identity matrix, format round trips, sorting, density and sparsity,
// transposition, the symmetry test, the column-view guard, and the
// error conditions.

use sparsemat::densevec::DenseVec;
use sparsemat::render::to_string;
use sparsemat::render::to_string_row;
use sparsemat::sparsemat_crs::SparseMatCRS;
use sparsemat::sparsemat_indexlist::SparseMatIndexList;
use sparsemat::sparsemat_rowvec::SparseMatRowVec;
use sparsemat::sparsematrix::is_symmetric;
use sparsemat::sparsematrix::prod;
use sparsemat::sparsematrix::transpose;
use sparsemat::sparsematrix::ColumnIter;
use sparsemat::sparsematrix::SparseMatError;
use sparsemat::sparsematrix::SparseMatrix;
use sparsemat::sparsematrix::Sortable;

#[test]
fn set_then_get_reads_back() {
    let mut m = SparseMatIndexList::<i64, u32>::new();
    m.set(2, 7, 55);
    assert_eq!(m.get(2, 7), 55);
    m.set(2, 7, -9);
    assert_eq!(m.get(2, 7), -9);
    assert_eq!(m.get(2, 6), 0);
    assert_eq!(m.get(9, 9), 0);
    assert_eq!(m.n_non_zero_entries(), 1);
}

#[test]
fn eye_has_unit_diagonal() {
    let m = SparseMatRowVec::<i64, u16>::eye(4);
    assert_eq!(m.n_rows(), 4);
    assert_eq!(m.n_cols(), 4);
    assert_eq!(m.n_non_zero_entries(), 4);
    for i in 0..4 {
        for j in 0..4 {
            assert_eq!(m.get(i, j), if i == j { 1 } else { 0 });
        }
    }
}

#[test]
fn crs_round_trip_reads_identically() {
    let mut m = SparseMatIndexList::<i64, u32>::with_capacity(4);
    m.set(0, 3, 7);
    m.set(2, 0, -4);
    m.set(2, 2, 11);
    m.set(5, 1, 3);
    m.add_to(2, 0, 1);
    let c = m.to_crs();
    assert_eq!(c.n_rows(), m.n_rows());
    assert_eq!(c.n_cols(), m.n_cols());
    for i in 0..7 {
        for j in 0..5 {
            assert_eq!(c.get(i, j), m.get(i, j));
        }
    }
}

#[test]
fn empty_crs_round_trip() {
    let m = SparseMatIndexList::<i64, u32>::new();
    let c = m.to_crs();
    assert_eq!(c.n_rows(), 0);
    assert_eq!(c.n_non_zero_entries(), 0);
}

#[test]
fn sorting_a_sorted_row_changes_nothing() {
    let mut m = SparseMatIndexList::<i64, u32>::new();
    m.set(0, 1, 10);
    m.set(0, 4, 40);
    m.set(0, 6, 60);
    m.sort_row(0);
    let once = m.iter_row_entries(0);
    m.sort_row(0);
    let twice = m.iter_row_entries(0);
    assert_eq!(once, vec![(1, 10), (4, 40), (6, 60)]);
    assert_eq!(once, twice);
}

#[test]
fn density_and_sparsity_are_complementary() {
    let mut m = SparseMatRowVec::<i64, u32>::new();
    m.set(0, 0, 1);
    m.set(1, 2, 5);
    m.set(2, 1, -2);
    let d = m.density();
    let s = m.sparsity();
    assert_eq!(d, (3, 9));
    assert_eq!(s, (6, 9));
    assert_eq!(d.0 + s.0, d.1);
    assert_eq!(d.1, s.1);
}

#[test]
fn transpose_twice_reproduces_the_entries() {
    let mut m = SparseMatIndexList::<i64, u32>::new();
    m.set(0, 2, 3);
    m.set(1, 0, -7);
    m.set(3, 1, 9);
    let t = transpose(&m);
    assert_eq!(t.get(2, 0), 3);
    assert_eq!(t.get(0, 1), -7);
    assert_eq!(t.get(1, 3), 9);
    let u = transpose(&t);
    for i in 0..5 {
        for j in 0..5 {
            assert_eq!(u.get(i, j), m.get(i, j));
        }
    }
}

#[test]
fn symmetry_test_answers_exactly() {
    let mut m = SparseMatRowVec::<i64, u16>::new();
    m.set(0, 1, 4);
    m.set(1, 0, 4);
    m.set(1, 1, 2);
    assert!(is_symmetric(&m));
    m.set(0, 1, 5);
    assert!(!is_symmetric(&m));
}

#[test]
fn column_view_is_unavailable_before_assembly() {
    let mut m = SparseMatIndexList::<i64, u32>::new();
    m.set(0, 0, 1);
    assert_eq!(m.iter_col(0).err(), Some(SparseMatError::NotAvailable));
    assert_eq!(m.col_entries(0).err(), Some(SparseMatError::NotAvailable));
    assert!(!m.has_iter_col());
    m.assemble_column_info();
    assert!(m.has_iter_col());
    assert!(m.iter_col(0).is_ok());
    // A write that appends an entry makes the view stale again.
    m.set(1, 1, 2);
    assert_eq!(m.iter_col(0).err(), Some(SparseMatError::NotAvailable));
}

#[test]
fn product_dimension_mismatch_is_reported() {
    let mut a = SparseMatCRS::<i64, u32>::new();
    a.set(0, 1, 2);
    let mut b = SparseMatIndexList::<i64, u32>::new();
    b.set(4, 0, 3);
    b.assemble_column_info();
    assert_eq!(prod(&a, &b).err(), Some(SparseMatError::DimensionMismatch));
    let msg = SparseMatError::DimensionMismatch.message();
    assert_eq!(msg, "Dimension mismatch");
    let msg = SparseMatError::NotAvailable.message();
    assert_eq!(msg, "Column iterator not available - use assemble_column_info()");
}

#[test]
fn product_of_small_matrices() {
    // [[1, 2], [0, 3]] x [[4, 0], [5, 6]] == [[14, 12], [15, 18]]
    let mut a = SparseMatCRS::<i64, u32>::new();
    a.set(0, 0, 1);
    a.set(0, 1, 2);
    a.set(1, 1, 3);
    let mut b = SparseMatIndexList::<i64, u32>::new();
    b.set(0, 0, 4);
    b.set(1, 0, 5);
    b.set(1, 1, 6);
    b.assemble_column_info();
    let c = prod(&a, &b).unwrap();
    assert_eq!(c.get(0, 0), 14);
    assert_eq!(c.get(0, 1), 12);
    assert_eq!(c.get(1, 0), 15);
    assert_eq!(c.get(1, 1), 18);
}

#[test]
fn mvp_of_empty_rows_is_zero() {
    let mut m = SparseMatCRS::<i64, u32>::new();
    m.set(2, 1, 5);
    let v = DenseVec::from_vec(vec![7, 9]);
    let out = m.mvp(&v);
    assert_eq!(out.dim(), 3);
    assert_eq!(out.get(0), 0);
    assert_eq!(out.get(1), 0);
    assert_eq!(out.get(2), 45);
}

#[test]
fn row_text_renders_negative_values() {
    let mut m = SparseMatRowVec::<i64, u16>::new();
    m.set(0, 0, -12);
    m.set(0, 2, 304);
    m.sort();
    assert_eq!(to_string_row(&m, 0), "-12 0 304 ");
    assert_eq!(to_string(&m), "-12 0 304 \n");
}

#[test]
fn scaling_multiplies_every_entry() {
    let mut m = SparseMatCRS::<i64, u32>::new();
    m.set(0, 0, 2);
    m.set(1, 3, -5);
    m.scale(3);
    assert_eq!(m.get(0, 0), 6);
    assert_eq!(m.get(1, 3), -15);
    assert_eq!(m.n_non_zero_entries(), 2);
}

#[test]
fn dense_vector_operations() {
    let mut a = DenseVec::<i64>::new();
    a.set(3, 8);
    assert_eq!(a.dim(), 4);
    assert_eq!(a.get(0), 0);
    assert_eq!(a.get(3), 8);
    a.add_to(1, 5);
    let b = DenseVec::from_vec(vec![1, 2, 3, 4]);
    a.add(&b);
    assert_eq!(a.get(0), 1);
    assert_eq!(a.get(1), 7);
    assert_eq!(a.get(3), 12);
    a.sub(&b);
    assert_eq!(a.get(3), 8);
    a.scale(2);
    assert_eq!(a.get(1), 10);
    assert_eq!(a.inner_prod(&b), 0 * 1 + 10 * 2 + 0 * 3 + 16 * 4);
    assert_eq!(b.norm_squared(), 1 + 4 + 9 + 16);
    assert_eq!(b.iter_ref(), &vec![1, 2, 3, 4]);
}

#[test]
fn sparse_vector_sort_and_dense_iteration() {
    let mut sv = sparsemat::sparsevec::SparseVec::<i64, u16>::with_capacity(4);
    sv.set(5, 50);
    sv.set(2, 20);
    sv.add_to(5, 1);
    assert_eq!(sv.n_non_zero_entries(), 2);
    sv.sort();
    let mut it = sv.iter_sparse();
    assert_eq!(it.next(), Some((2, 20)));
    assert_eq!(it.next(), Some((5, 51)));
    assert_eq!(it.next(), None);
    let mut dense = sv.iter();
    assert_eq!(dense.next(), Some(0));
    assert_eq!(dense.next(), Some(0));
    assert_eq!(dense.next(), Some(20));
    assert_eq!(dense.next(), Some(0));
    assert_eq!(dense.next(), Some(0));
    assert_eq!(dense.next(), Some(51));
    assert_eq!(dense.next(), None);
    let sv2 = sparsemat::sparsevec::SparseVec::<i64, u16>::from_vec(vec![9, 8, 7]);
    assert_eq!(sv2.get(0), 9);
    assert_eq!(sv2.get(2), 7);
    assert_eq!(sv2.get(3), 0);
}

#[test]
fn get_row_is_sorted_and_reads_like_the_matrix() {
    let mut m = SparseMatIndexList::<i64, u32>::new();
    m.set(0, 4, 44);
    m.set(0, 1, 11);
    let sv = sparsemat::sparsevec::get_row(&m, 0);
    let mut it = sv.iter_sparse();
    assert_eq!(it.next(), Some((1, 11)));
    assert_eq!(it.next(), Some((4, 44)));
    assert_eq!(it.next(), None);
}

#[test]
fn sub_from_creates_negated_entries() {
    let mut m = SparseMatRowVec::<i64, u32>::new();
    m.sub_from(1, 1, 6);
    assert_eq!(m.get(1, 1), -6);
    m.sub_from(1, 1, -2);
    assert_eq!(m.get(1, 1), -4);
}

#[test]
fn sorted_checks_report_row_order() {
    let mut m = SparseMatIndexList::<i64, u32>::new();
    m.set(0, 3, 1);
    m.set(0, 1, 2);
    assert!(!m.is_sorted_row(0));
    assert!(!m.is_sorted());
    m.sort();
    assert!(m.is_sorted_row(0));
    assert!(m.is_sorted());
}

#[test]
fn arithmetic_wraps_at_the_value_type_bounds() {
    // The provided value types are rings under wrapping arithmetic.
    let mut m = SparseMatRowVec::<i64, u32>::new();
    m.set(0, 0, i64::MAX);
    m.add_to(0, 0, 1);
    assert_eq!(m.get(0, 0), i64::MIN);
    m.sub_from(0, 0, 1);
    assert_eq!(m.get(0, 0), i64::MAX);
}

#[test]
fn add_mat_extends_the_receiver() {
    let mut a = SparseMatRowVec::<i64, u32>::new();
    a.set(0, 0, 1);
    let mut b = SparseMatIndexList::<i64, u32>::new();
    b.set(2, 3, 5);
    sparsemat::sparsematrix::add_mat(&mut a, &b);
    assert_eq!(a.n_rows(), 3);
    assert_eq!(a.n_cols(), 4);
    assert_eq!(a.get(0, 0), 1);
    assert_eq!(a.get(2, 3), 5);
    sparsemat::sparsematrix::sub_mat(&mut a, &b);
    assert_eq!(a.get(2, 3), 0);
    assert_eq!(a.n_non_zero_entries(), 2);
}
