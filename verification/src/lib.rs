//! A sparse matrix algebra library.
//!
//! Several interchangeable in-memory sparse storage engines are unified
//! behind one capability contract, together with algorithms (add, subtract,
//! scale, matrix-vector product, transpose, symmetry test, sorting, format
//! conversion, sparse-sparse product) written once against that contract.
//! Every public operation carries a machine-checked contract relating it to
//! a mathematical model of the stored entries.

pub mod types;
pub mod model;
pub mod rowindexlist;
pub mod densevec;
pub mod sparsematrix;
pub mod sparsemat_rowvec;
pub mod sparsemat_indexlist;
pub mod sparsemat_crs;
pub mod sparsemat_par;
pub mod sparsevec;
pub mod render;
