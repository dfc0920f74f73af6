// The storage engines, exercised end to end with fixed-point integer
// values: an entry worth x.yz is stored as the integer 100 * x.yz, and
// dense vectors are scaled by ten, so every expected number is exact.

use sparsemat::densevec::DenseVec;
use sparsemat::render::to_pbm_text;
use sparsemat::render::to_string_row;
use sparsemat::sparsemat_crs::SparseMatCRS;
use sparsemat::sparsemat_indexlist::SparseMatIndexList;
use sparsemat::sparsemat_par::SparseMatPar;
use sparsemat::sparsemat_rowvec::SparseMatRowVec;
use sparsemat::sparsematrix::add_mat;
use sparsemat::sparsematrix::ColumnIter;
use sparsemat::sparsematrix::prod;
use sparsemat::sparsematrix::sub_mat;
use sparsemat::sparsematrix::SparseMatrix;
use sparsemat::sparsematrix::Sortable;

#[test]
fn check_sparsemat_indexlist() {
    let mut sp = SparseMatIndexList::<i64, u32>::with_capacity(3);
    sp.add_to(0, 1, 420);
    sp.add_to(1, 2, 412);
    sp.add_to(2, 2, 212);
    sp.add_to(1, 1, 112);
    sp.add_to(1, 1, 112);
    sp.add_to(0, 2, 12);
    sp.set(0, 0, 812);
    sp.set(0, 0, 712);
    assert_eq!(sp.get(0, 0), 712);
    let mut iter = sp.iter();
    assert_eq!(iter.next(), Some((0, 1, 420)));
    assert_eq!(iter.next(), Some((0, 2, 12)));
    assert_eq!(iter.next(), Some((0, 0, 712)));
    assert_eq!(iter.next(), Some((1, 2, 412)));
    let mut iter_row = sp.iter_row(2);
    assert_eq!(iter_row.next(), Some((2, 212)));
    let mut sum = sp.clone();
    add_mat(&mut sum, &sp);
    assert_eq!(sum.get(0, 0), 1424);
    let mut sub = sum.clone();
    sub_mat(&mut sub, &sp);
    assert_eq!(sub.get(0, 0), sp.get(0, 0));
    let mut mul = sp.clone();
    mul.scale(2);
    assert_eq!(mul.get(0, 0), sum.get(0, 0));
    let v = DenseVec::from_vec(vec![20, 48, 12]);
    let mvp = sp.mvp(&v);
    assert_eq!(mvp.get(0), 34544);
    assert_eq!(sp.density(), (6, 9));

    // The column view.
    sp.assemble_column_info();
    let mut iter_col = sp.iter_col(2).unwrap();
    assert_eq!(iter_col.next(), Some((1, 412)));
    assert_eq!(iter_col.next(), Some((2, 212)));
    assert_eq!(iter_col.next(), Some((0, 12)));
    assert_eq!(iter_col.next(), None);

    // Conversion to compressed-row storage.
    let sp_crs = sp.to_crs();

    // The sparse-sparse product uses the column view of the right operand.
    let mp = prod(&sp_crs, &sp).unwrap();
    assert_eq!(mp.get(1, 2), 179632);

    // Row text needs sorted rows.
    let mut sp_sorted = sp.clone();
    sp_sorted.sort();
    assert_eq!(to_string_row(&sp_sorted, 1), "0 224 412 ");
    let mut crs_sorted = sp_crs.clone();
    crs_sorted.sort();
    assert_eq!(to_string_row(&crs_sorted, 1), "0 224 412 ");

    // Accumulating a matrix of a different engine type.
    let mut doubled = sp.clone();
    add_mat(&mut doubled, &sp_crs);
    doubled.sort();
    doubled.sort_row(1);
    assert_eq!(to_string_row(&doubled, 1), "0 448 824 ");
    assert_eq!(to_pbm_text(&doubled), "P1\n3 3\n000\n100\n110\n");
}

#[test]
fn check_sparsemat_crs() {
    let mut sp_crs = SparseMatCRS::<i64, u32>::with_capacity(3);
    sp_crs.add_to(0, 1, 420);
    sp_crs.add_to(2, 2, 212);
    sp_crs.add_to(1, 2, 412);
    sp_crs.add_to(3, 2, 112);
    sp_crs.add_to(3, 3, 512);
    let mut iter = sp_crs.iter();
    assert_eq!(iter.next(), Some((0, 1, 420)));
    assert_eq!(iter.next(), Some((1, 2, 412)));
    assert_eq!(iter.next(), Some((2, 2, 212)));
    assert_eq!(iter.next(), Some((3, 3, 512)));
    assert_eq!(iter.next(), Some((3, 2, 112)));
    assert_eq!(iter.next(), None);

    // The column view.
    sp_crs.assemble_column_info();
    let mut iter_col = sp_crs.iter_col(2).unwrap();
    assert_eq!(iter_col.next(), Some((1, 412)));
    assert_eq!(iter_col.next(), Some((2, 212)));
    assert_eq!(iter_col.next(), Some((3, 112)));
    assert_eq!(iter_col.next(), None);

    let mut iter_row = sp_crs.iter_row(0);
    assert_eq!(iter_row.next(), Some((1, 420)));
    assert_eq!(iter_row.next(), None);
    let mut iter_row = sp_crs.iter_row(5);
    assert_eq!(iter_row.next(), None);
    let v = DenseVec::from_vec(vec![20, 48, 12, 34]);
    let mvp = sp_crs.mvp(&v);
    assert_eq!(mvp.get(0), 20160);
    assert_eq!(sp_crs.density(), (5, 16));
}

#[test]
fn check_sparsemat_rowvec() {
    let mut sp = SparseMatRowVec::<i64, u32>::with_capacity(3);
    sp.add_to(0, 1, 420);
    sp.add_to(1, 2, 412);
    sp.add_to(2, 2, 212);
    sp.add_to(1, 1, 112);
    sp.add_to(1, 1, 112);
    sp.add_to(0, 2, 12);
    sp.set(0, 0, 812);
    sp.set(0, 0, 712);
    assert_eq!(sp.get(0, 0), 712);
    assert_eq!(sp.get(0, 1), 420);
    let mut iter = sp.iter();
    assert_eq!(iter.next(), Some((0, 1, 420)));
    assert_eq!(iter.next(), Some((0, 2, 12)));
    assert_eq!(iter.next(), Some((0, 0, 712)));
    assert_eq!(iter.next(), Some((1, 2, 412)));
    let v = DenseVec::from_vec(vec![20, 48, 12]);
    let mvp = sp.mvp(&v);
    assert_eq!(mvp.get(0), 34544);
    assert_eq!(sp.density(), (6, 9));
}

#[test]
fn check_sparsemat_par() {
    let mut mat_par =
        SparseMatPar::<SparseMatIndexList<i64, u32>>::with_sub_matrices(4, 16);
    mat_par.add_to(0, 1, 420);
    mat_par.add_to(1, 2, 412);
    mat_par.add_to(2, 2, 212);
    mat_par.add_to(1, 1, 112);
    mat_par.add_to(1, 1, 112);
    mat_par.add_to(0, 2, 12);
    mat_par.set(0, 0, 812);
    mat_par.set(0, 0, 712);
    assert_eq!(mat_par.get(0, 0), 712);
    assert_eq!(mat_par.get(0, 1), 420);
    let mut iter = mat_par.iter();
    assert_eq!(iter.next(), Some((0, 1, 420)));
    assert_eq!(iter.next(), Some((0, 2, 12)));
    assert_eq!(iter.next(), Some((0, 0, 712)));
    assert_eq!(iter.next(), Some((1, 2, 412)));
    let v = DenseVec::from_vec(vec![20, 48, 12]);
    let mvp = mat_par.mvp(&v);
    assert_eq!(mvp.get(0), 34544);
    assert_eq!(mat_par.density(), (6, 9));
}

#[test]
fn check_sparsevec() {
    let mut sv = sparsemat::sparsevec::SparseVec::<i64, u16>::new();
    sv.set(8, 60);
    sv.set(80, 64);
    sv.set(55, 82);
    sv.set(4, 40);
    let mut iter = sv.iter_sparse();
    assert_eq!(iter.next(), Some((8, 60)));
    assert_eq!(iter.next(), Some((80, 64)));
    assert_eq!(sv.get(4), 40);
}
