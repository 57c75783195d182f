use leto_ops::application::sparse::{CooMatrix, CscMatrix, CsrMatrix};

fn sample() -> CooMatrix<i64> {
    let mut coo = CooMatrix::<i64>::new(3, 4);
    coo.push(0, 1, 2);
    coo.push(1, 0, 3);
    coo.push(2, 3, -1);
    coo.push(0, 0, 1);
    coo.push(0, 1, 5);
    coo.push(2, 2, 4);
    coo.push(2, 2, -4);
    coo
}

#[test]
fn compression_stores_at_most_the_pushed_triplets() {
    let coo = sample();
    assert_eq!(coo.len(), 7);
    assert_eq!(coo.to_csr().nnz(), 4);
    assert_eq!(coo.to_csc().nnz(), 4);
    assert!(coo.to_csr().nnz() <= coo.len());
    assert!(coo.to_csc().nnz() <= coo.len());
}

#[test]
fn to_csc_equals_from_csr_of_to_csr() {
    let coo = sample();
    let via_csr = CscMatrix::from_csr(&coo.to_csr());
    assert_eq!(coo.to_csc(), via_csr);
    assert_eq!(via_csr.nnz(), coo.to_csr().nnz());
    assert_eq!(coo.to_csc().to_dense(), coo.to_dense());
    assert_eq!(coo.to_csr().to_dense(), coo.to_dense());
}

#[test]
fn transposing_twice_gives_the_matrix_back() {
    let csr = sample().to_csr();
    let t = csr.transpose();
    assert_eq!(t.shape(), (4, 3));
    assert_eq!(t.nnz(), csr.nnz());
    assert_eq!(t.transpose(), csr);
}

#[test]
fn csc_to_csr_of_the_same_matrix_and_back_is_the_identity() {
    let csc = sample().to_csc();
    let csr_of_same: CsrMatrix<i64> = csc.transpose().transpose();
    assert_eq!(csr_of_same, sample().to_csr());
    assert_eq!(CscMatrix::from_csr(&csr_of_same), csc);
}
