use leto_ops::application::sparse::{csr_to_dense, CooMatrix, CsrMatrix};
use leto_ops::application::tensor::Tensor;

fn make_csr(nrows: usize, ncols: usize, triplets: &[(usize, usize, i64)]) -> CsrMatrix<i64> {
    let mut coo = CooMatrix::new(nrows, ncols);
    for &(r, c, v) in triplets {
        coo.push(r, c, v);
    }
    coo.to_csr()
}

fn get(d: &Tensor<i64>, i: usize, j: usize) -> i64 {
    d.data()[i * d.shape()[1] + j]
}

#[test]
fn csr_to_dense_round_trips() {
    let a = make_csr(2, 3, &[(0, 0, 1), (0, 2, 3), (1, 1, 2)]);
    let d = csr_to_dense(&a);
    assert_eq!(get(&d, 0, 0), 1);
    assert_eq!(get(&d, 0, 1), 0);
    assert_eq!(get(&d, 0, 2), 3);
    assert_eq!(get(&d, 1, 1), 2);
}

#[test]
fn from_dense_keeps_only_nonzeros_in_row_order() {
    let d = Tensor::from_shape_vec(vec![2, 3], vec![0, 4, 0, -1, 0, 2]).unwrap();
    let csr = CsrMatrix::from_dense(&d);
    let (values, cols, row_ptr) = csr.as_parts();
    assert_eq!(values, &[4, -1, 2]);
    assert_eq!(cols, &[1, 0, 2]);
    assert_eq!(row_ptr, &[0, 1, 3]);
    assert_eq!(csr.to_dense(), d);
}

#[test]
fn empty_dense_matrix_compresses_to_empty_storage() {
    let d = Tensor::<i64>::from_shape_vec(vec![3, 0], vec![]).unwrap();
    let csr = CsrMatrix::from_dense(&d);
    assert_eq!(csr.shape(), (3, 0));
    assert_eq!(csr.nnz(), 0);
    assert_eq!(csr.row_ptr(), &[0, 0, 0, 0]);
}
