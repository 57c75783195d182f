use leto_ops::application::sparse::{CooMatrix, CscMatrix, CsrMatrix};
use leto_ops::application::tensor::Tensor;
use leto_ops::{LetoError, StorageFault};

#[test]
fn coo_to_csc_round_trips() {
    let mut coo = CooMatrix::<i64>::new(3, 3);
    coo.push(0, 0, 2);
    coo.push(0, 0, 3); // accumulates to 5
    coo.push(1, 2, -1);
    coo.push(2, 1, 4);
    let csc = coo.to_csc();
    assert_eq!(csc.shape(), (3, 3));
    assert_eq!(csc.nnz(), 3);
    assert_eq!(csc.to_dense(), coo.to_dense());
}

#[test]
fn coo_to_csc_matches_csr_via_transpose() {
    let mut coo = CooMatrix::<i64>::new(3, 4);
    coo.push(0, 1, 2);
    coo.push(1, 0, 3);
    coo.push(2, 3, -1);
    coo.push(0, 0, 1);
    let csc = coo.to_csc();
    assert_eq!(csc.to_dense(), coo.to_dense());
    assert_eq!(csc.to_csr().nnz(), csc.nnz());
    assert_eq!(csc.to_csr().nrows(), csc.ncols());
    assert_eq!(csc.to_csr().ncols(), csc.nrows());
}

#[test]
fn to_dense_round_trips_through_csr() {
    let mut coo = CooMatrix::<i64>::new(3, 3);
    coo.push(0, 0, 2);
    coo.push(0, 0, 3); // accumulates to 5 in to_dense
    coo.push(1, 2, -1);
    let via_dense = CsrMatrix::from_dense(&coo.to_dense());
    assert_eq!(via_dense, coo.to_csr());
}

#[test]
fn push_accumulates_duplicates_into_csr() {
    let mut coo = CooMatrix::<i64>::new(3, 3);
    coo.push(0, 0, 2);
    coo.push(0, 0, 3); // duplicate -> 5
    coo.push(1, 2, -1);
    coo.push(2, 1, 4);
    coo.push(2, 1, -4); // cancels -> dropped
    let csr = coo.to_csr();
    assert_eq!(csr.shape(), (3, 3));
    assert_eq!(csr.nnz(), 2);
    let (values, cols, row_ptr) = csr.as_parts();
    assert_eq!(values, &[5, -1]);
    assert_eq!(cols, &[0, 2]);
    assert_eq!(row_ptr, &[0, 1, 2, 2]);
}

#[test]
fn coo_to_csr_sorts_and_sums_duplicates() {
    // (0,1) appears twice -> 1 + 1 = 2; entries arrive out of column order.
    let mut coo = CooMatrix::<i64>::new(2, 4);
    for &(i, j, v) in &[(0, 3, 2), (0, 1, 1), (1, 0, -3), (0, 1, 1)] {
        coo.push(i, j, v);
    }
    let csr = coo.to_csr();
    let (values, cols, row_ptr) = csr.as_parts();
    // row 0: cols sorted ascending (1, 3) with the duplicate summed; row 1: (0)
    assert_eq!(values, &[2, 2, -3]);
    assert_eq!(cols, &[1, 3, 0]);
    assert_eq!(row_ptr, &[0, 2, 3]);
}

#[test]
fn from_triplets_validates_bounds() {
    assert!(CooMatrix::from_triplets(2, 2, vec![0, 5], vec![0, 1], vec![1_i64, 2]).is_err());
    assert!(CooMatrix::from_triplets(2, 2, vec![0], vec![0, 1], vec![1_i64]).is_err());
    assert!(CooMatrix::from_triplets(2, 2, vec![0, 1], vec![0, 1], vec![1_i64, 2]).is_ok());
}

#[test]
fn from_triplets_reports_each_fault() {
    assert_eq!(
        CooMatrix::from_triplets(2, 2, vec![0], vec![0, 1], vec![1_i64]).err(),
        Some(LetoError::StorageError { reason: StorageFault::LengthMismatch })
    );
    assert_eq!(
        CooMatrix::from_triplets(2, 2, vec![0, 5], vec![0, 1], vec![1_i64, 2]).err(),
        Some(LetoError::StorageError { reason: StorageFault::RowIndexOutOfRange })
    );
    assert_eq!(
        CooMatrix::from_triplets(2, 2, vec![0, 1], vec![0, 7], vec![1_i64, 2]).err(),
        Some(LetoError::StorageError { reason: StorageFault::ColumnIndexOutOfRange })
    );
}

#[test]
fn coo_shape_len_and_emptiness() {
    let mut coo = CooMatrix::<i64>::with_capacity(2, 5, 4);
    assert!(coo.is_empty());
    coo.push(1, 4, 9);
    coo.push(1, 4, 1);
    assert_eq!(coo.shape(), (2, 5));
    assert_eq!(coo.len(), 2);
    assert!(!coo.is_empty());
}

#[test]
fn coo_to_dense_sums_duplicates_in_place() {
    let mut coo = CooMatrix::<i64>::new(2, 2);
    coo.push(1, 0, 7);
    coo.push(1, 0, -2);
    coo.push(0, 1, 3);
    let dense = coo.to_dense();
    assert_eq!(dense, Tensor::from_shape_vec(vec![2, 2], vec![0, 3, 5, 0]).unwrap());
}

#[test]
fn coo_entries_survive_both_compressions() {
    let mut coo = CooMatrix::<i64>::new(3, 2);
    coo.push(2, 1, 6);
    coo.push(0, 0, -1);
    coo.push(2, 1, 1);
    let csr = coo.to_csr();
    let csc = coo.to_csc();
    assert_eq!(CscMatrix::from_csr(&csr), csc);
    assert_eq!(csr.to_dense(), csc.to_dense());
}
