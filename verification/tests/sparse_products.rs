use leto_ops::application::sparse::{
    csc_spmv, csc_spmv_into, spgemm, spmm, spmm_into, spmv, spmv_into, CooMatrix, CscMatrix, CsrMatrix,
};
use leto_ops::application::tensor::Tensor;
use leto_ops::LetoError;

fn dense(nrows: usize, ncols: usize, data: Vec<i64>) -> Tensor<i64> {
    Tensor::from_shape_vec(vec![nrows, ncols], data).unwrap()
}

#[test]
fn csc_spmv_basic() {
    let a = CscMatrix::from_dense(&dense(3, 2, vec![1, 0, 0, 2, 3, 0]));
    let x = vec![2, 5];
    let y = csc_spmv(&a, &x).unwrap();
    assert_eq!(y, vec![2, 10, 6]);
}

#[test]
fn csc_spmv_identity() {
    let a = CscMatrix::from_dense(&dense(2, 2, vec![1, 0, 0, 1]));
    let x = vec![3, 7];
    let y = csc_spmv(&a, &x).unwrap();
    assert_eq!(y, vec![3, 7]);
}

#[test]
fn csc_spmv_shape_mismatch() {
    let a = CscMatrix::<i64>::zeros(3, 2);
    let x = vec![1, 2, 3];
    assert!(csc_spmv(&a, &x).is_err());
}

#[test]
fn csr_spmv_matches_dense_product() {
    let a = CsrMatrix::from_dense(&dense(2, 3, vec![1, 0, 2, 0, -3, 4]));
    let y = spmv(&a, &[1, 10, 100]).unwrap();
    assert_eq!(y, vec![201, 370]);
}

#[test]
fn spmv_into_rejects_wrong_lengths_and_keeps_output() {
    let a = CsrMatrix::from_dense(&dense(2, 2, vec![1, 2, 3, 4]));
    let mut y = vec![9, 9];
    assert_eq!(
        spmv_into(&a, &[1, 2, 3], &mut y).err(),
        Some(LetoError::ShapeMismatch { lhs: vec![3], rhs: vec![2] })
    );
    assert_eq!(y, vec![9, 9]);
    let mut short = vec![9];
    assert_eq!(
        spmv_into(&a, &[1, 1], &mut short).err(),
        Some(LetoError::ShapeMismatch { lhs: vec![1], rhs: vec![2] })
    );
    assert_eq!(short, vec![9]);
    assert!(spmv_into(&a, &[1, 1], &mut y).is_ok());
    assert_eq!(y, vec![3, 7]);
}

#[test]
fn csc_spmv_into_overwrites_previous_contents() {
    let a = CscMatrix::from_dense(&dense(2, 2, vec![0, 2, 5, 0]));
    let mut y = vec![100, 100];
    assert!(csc_spmv_into(&a, &[3, 4], &mut y).is_ok());
    assert_eq!(y, vec![8, 15]);
    assert_eq!(
        csc_spmv_into(&a, &[3, 4], &mut vec![0; 3]).err(),
        Some(LetoError::ShapeMismatch { lhs: vec![3], rhs: vec![2] })
    );
}

#[test]
fn spmm_multiplies_sparse_by_dense() {
    let a = CsrMatrix::from_dense(&dense(2, 3, vec![1, 0, 2, 0, 1, 0]));
    let b = dense(3, 2, vec![1, 2, 3, 4, 5, 6]);
    let c = spmm(&a, &b).unwrap();
    assert_eq!(c, dense(2, 2, vec![11, 14, 3, 4]));
    let mut out = vec![0; 4];
    assert!(spmm_into(&a, &b, &mut out).is_ok());
    assert_eq!(out, vec![11, 14, 3, 4]);
}

#[test]
fn spmm_reports_shape_and_length_errors() {
    let a = CsrMatrix::from_dense(&dense(2, 3, vec![1, 0, 2, 0, 1, 0]));
    let wrong = dense(2, 2, vec![1, 2, 3, 4]);
    assert_eq!(
        spmm(&a, &wrong).err(),
        Some(LetoError::ShapeMismatch { lhs: vec![2, 2], rhs: vec![3, 2] })
    );
    let b = dense(3, 1, vec![1, 1, 1]);
    let mut out = vec![7; 3];
    assert_eq!(
        spmm_into(&a, &b, &mut out).err(),
        Some(LetoError::ShapeMismatch { lhs: vec![3], rhs: vec![2] })
    );
    assert_eq!(out, vec![7; 3]);
}

#[test]
fn spgemm_sums_products_and_drops_cancellations() {
    // A = [[1, 1], [0, 2]], B = [[3, 0], [-3, 5]]: row 0 of A B is
    // [3 - 3, 5] = [0, 5], so (0, 0) cancels and is dropped.
    let a = CsrMatrix::from_dense(&dense(2, 2, vec![1, 1, 0, 2]));
    let b = CsrMatrix::from_dense(&dense(2, 2, vec![3, 0, -3, 5]));
    let c = spgemm(&a, &b).unwrap();
    let (values, cols, row_ptr) = c.as_parts();
    assert_eq!(values, &[5, -6, 10]);
    assert_eq!(cols, &[1, 0, 1]);
    assert_eq!(row_ptr, &[0, 1, 3]);
}

#[test]
fn spgemm_rejects_mismatched_inner_dimensions() {
    let a = CsrMatrix::<i64>::zeros(2, 3);
    let b = CsrMatrix::<i64>::zeros(2, 2);
    assert_eq!(
        spgemm(&a, &b).err(),
        Some(LetoError::ShapeMismatch { lhs: vec![2, 3], rhs: vec![2, 2] })
    );
}

#[test]
fn spgemm_agrees_with_dense_product_on_assembled_input() {
    let mut coo = CooMatrix::<i64>::new(3, 3);
    for &(i, j, v) in &[(0, 0, 2), (0, 2, 1), (1, 1, 3), (2, 0, -1), (2, 2, 4)] {
        coo.push(i, j, v);
    }
    let a = coo.to_csr();
    let c = spgemm(&a, &a).unwrap();
    // A^2 = [[4 - 1, 0, 2 + 4], [0, 9, 0], [-2 - 4, 0, -1 + 16]]
    assert_eq!(c.to_dense(), dense(3, 3, vec![3, 0, 6, 0, 9, 0, -6, 0, 15]));
}

#[test]
fn csc_spmv_matches_dense_product() {
    let data = vec![1_i64, 0, 2, 0, -3, 4, 5, 0, -1];
    let a = CscMatrix::from_dense(&dense(3, 3, data.clone()));
    let x = [1_i64, 10, 100];
    let y = csc_spmv(&a, &x).unwrap();
    let expected: Vec<i64> = (0..3).map(|i| (0..3).map(|j| data[i * 3 + j] * x[j]).sum()).collect();
    assert_eq!(y, expected);
    assert_eq!(y, vec![201, 370, -95]);
}
