//! Sparse matrices: assembly, compression, transposition and symbolic analysis.
//!
//! Three storage formats, by lifecycle phase: [`CooMatrix`] (triplet list,
//! the assembly target), [`CsrMatrix`] (compressed rows) and [`CscMatrix`]
//! (compressed columns).
pub mod amd;
pub mod compressed;
pub mod conversions;
pub mod dense;
pub mod dominance;
mod coo;
mod csc;
mod csr;
mod lu_symbolic;
mod spgemm;
mod spmv;

pub use coo::{CooMatrix, CooView};
pub use csc::{CscColumn, CscMatrix, CscView};
pub use csr::{csr_to_dense, CsrMatrix, CsrRow, CsrView};
pub use amd::amd_order;
pub use lu_symbolic::{apply_symmetric_perm, lemma_pattern_covers_matrix, factor_symbolic, factor_symbolic_with_ordering, OrderingStrategy, SymbolicLu};
pub use spmv::{csc_dense_row, csc_spmv, csc_spmv_into, csr_dense_row, lemma_csc_spmv_is_dense_product, lemma_spmv_is_dense_product, spmm, spmm_into, lane_dot, lane_dot_ok, lane_dot_skipping, lane_dot_skipping_ok, spmv, spmv_into};
pub use spgemm::{product_triplets, products_ok, row_products, scaled_lane, spgemm, tagged, triplet_cols, triplet_rows, triplet_vals};
