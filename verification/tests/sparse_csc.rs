use leto_ops::application::sparse::{CscMatrix, CsrMatrix};
use leto_ops::application::tensor::Tensor;
use leto_ops::{LetoError, StorageFault};

fn dense(nrows: usize, ncols: usize, data: Vec<i64>) -> Tensor<i64> {
    Tensor::from_shape_vec(vec![nrows, ncols], data).unwrap()
}

#[test]
fn from_dense_round_trips() {
    let dense = dense(3, 3, vec![1, 0, 2, 0, 3, 0, 4, 0, 5]);
    let csc = CscMatrix::from_dense(&dense);
    assert_eq!(csc.shape(), (3, 3));
    assert_eq!(csc.nnz(), 5);
    let round = csc.to_dense();
    assert_eq!(round, dense);
}

#[test]
fn csc_identity_matrix() {
    let dense = dense(3, 3, vec![1, 0, 0, 0, 1, 0, 0, 0, 1]);
    let csc = CscMatrix::from_dense(&dense);
    assert_eq!(csc.shape(), (3, 3));
    assert_eq!(csc.nnz(), 3);
    let (values, row_indices, col_ptr) = csc.as_parts();
    assert_eq!(values, &[1, 1, 1]);
    assert_eq!(row_indices, &[0, 1, 2]);
    assert_eq!(col_ptr, &[0, 1, 2, 3]);
}

#[test]
fn csc_column_access() {
    let dense = dense(3, 2, vec![1, 0, 0, 2, 3, 0]);
    let csc = CscMatrix::from_dense(&dense);
    let col0 = csc.column(0);
    assert_eq!(col0.values(), &[1, 3]);
    assert_eq!(col0.row_indices(), &[0, 2]);
    let col1 = csc.column(1);
    assert_eq!(col1.values(), &[2]);
    assert_eq!(col1.row_indices(), &[1]);
}

#[test]
fn csc_transpose_is_csr_of_transpose() {
    let dense_a = dense(2, 3, vec![1, 0, 2, 3, 4, 0]);
    let csc = CscMatrix::from_dense(&dense_a);
    let csr_via_transpose = csc.transpose();
    // The transposed 3 x 2 array, written out.
    let transposed = dense(3, 2, vec![1, 3, 0, 4, 2, 0]);
    let expected_csr = CsrMatrix::from_dense(&transposed);
    assert_eq!(csr_via_transpose, expected_csr);
}

#[test]
fn csc_from_csr_round_trips() {
    let dense = dense(3, 3, vec![1, 0, 2, 0, 3, 0, 4, 0, 5]);
    let csr = CsrMatrix::from_dense(&dense);
    let csc = CscMatrix::from_csr(&csr);
    assert_eq!(csc.to_dense(), dense);
}

#[test]
fn csc_zeros() {
    let csc = CscMatrix::<f64>::zeros(3, 4);
    assert_eq!(csc.shape(), (3, 4));
    assert_eq!(csc.nnz(), 0);
}

#[test]
fn csc_diagonal() {
    let dense = dense(3, 3, vec![1, 0, 2, 3, 4, 0, 0, 0, 5]);
    let csc = CscMatrix::from_dense(&dense);
    assert_eq!(csc.diagonal(), vec![1, 4, 5]);
}

#[test]
fn csc_scale_values() {
    let dense_a = dense(3, 2, vec![1, 0, 0, 2, 3, 0]);
    let mut csc = CscMatrix::from_dense(&dense_a);
    csc.scale_values(2);
    let expected = dense(3, 2, vec![2, 0, 0, 4, 6, 0]);
    assert_eq!(csc.to_dense(), expected);
}

#[test]
fn csc_diagonally_dominant() {
    let dd = dense(3, 3, vec![4, 1, 0, 1, 5, 2, 0, 2, 6]);
    let csc = CscMatrix::from_dense(&dd);
    assert!(csc.is_strictly_diagonally_dominant());

    let non_dd = dense(2, 2, vec![1, 2, 3, 1]);
    let csc2 = CscMatrix::from_dense(&non_dd);
    assert!(!csc2.is_strictly_diagonally_dominant());
}

#[test]
fn from_parts_validates_invariants() {
    assert!(CscMatrix::<i64>::from_parts(vec![1, 2, 3], vec![0, 1, 2], vec![0, 2, 2, 3], 3, 3).is_ok());
    assert!(CscMatrix::<i64>::from_parts(vec![1], vec![0, 1], vec![0, 1], 2, 1).is_err());
    assert!(CscMatrix::<i64>::from_parts(vec![1], vec![5], vec![0, 1], 2, 1).is_err());
    assert!(CscMatrix::<i64>::from_parts(vec![1], vec![0], vec![1, 1], 2, 1).is_err());
}

#[test]
fn from_parts_reports_the_first_violated_invariant() {
    assert_eq!(
        CscMatrix::<i64>::from_parts(vec![1], vec![0], vec![0, 1, 1], 2, 1).err(),
        Some(LetoError::StorageError { reason: StorageFault::OffsetsLength })
    );
    assert_eq!(
        CscMatrix::<i64>::from_parts(vec![1], vec![0, 1], vec![0, 1], 2, 1).err(),
        Some(LetoError::StorageError { reason: StorageFault::LengthMismatch })
    );
    assert_eq!(
        CscMatrix::<i64>::from_parts(vec![1], vec![0], vec![1, 1], 2, 1).err(),
        Some(LetoError::StorageError { reason: StorageFault::OffsetsEndpoints })
    );
    assert_eq!(
        CscMatrix::<i64>::from_parts(vec![1, 2], vec![0, 1], vec![0, 2, 1, 2], 2, 3).err(),
        Some(LetoError::StorageError { reason: StorageFault::OffsetsDecreasing })
    );
    assert_eq!(
        CscMatrix::<i64>::from_parts(vec![1], vec![5], vec![0, 1], 2, 1).err(),
        Some(LetoError::StorageError { reason: StorageFault::RowIndexOutOfRange })
    );
    assert_eq!(
        CscMatrix::<i64>::from_parts(vec![1, 2], vec![1, 0], vec![0, 2], 2, 1).err(),
        Some(LetoError::StorageError { reason: StorageFault::IndicesNotIncreasing })
    );
}

#[test]
fn csc_scale_rows_and_columns() {
    let mut csc = CscMatrix::from_dense(&dense(2, 2, vec![1, 2, 0, 3]));
    assert!(csc.scale_rows(&[10, 100]).is_ok());
    assert_eq!(csc.to_dense(), dense(2, 2, vec![10, 20, 0, 300]));
    assert!(csc.scale_columns(&[1, -1]).is_ok());
    assert_eq!(csc.to_dense(), dense(2, 2, vec![10, -20, 0, -300]));
    let before = csc.clone();
    assert_eq!(
        csc.scale_rows(&[1]).err(),
        Some(LetoError::ShapeMismatch { lhs: vec![2], rhs: vec![1] })
    );
    assert_eq!(csc, before);
}

#[test]
fn csr_transpose_and_diagonal() {
    let csr = CsrMatrix::from_dense(&dense(2, 3, vec![5, 0, 1, 0, 7, 0]));
    assert_eq!(csr.diagonal(), vec![5, 7]);
    let t = csr.transpose();
    assert_eq!(t.to_dense(), dense(3, 2, vec![5, 0, 0, 7, 1, 0]));
    assert_eq!(t.transpose(), csr);
    let row1 = csr.row(1);
    assert_eq!(row1.col_indices(), &[1]);
    assert_eq!(row1.values(), &[7]);
    assert_eq!(row1.nnz(), 1);
}
