use leto_ops::domain::fallback::{
    axpy_rows, axpy_rows_batch, axpy_slice, dot_slice, gemv_strided, gemv_transpose_strided, max_slice, min_slice,
    sum_slice, tiled_gemm,
};

#[test]
fn reductions_fold_from_their_identities() {
    assert_eq!(leto_ops::domain::fallback::sum_slice(&[1_i64, 2, 3]), 6);
    assert_eq!(sum_slice::<i64>(&[]), 0);
    assert_eq!(leto_ops::domain::fallback::dot_slice(&[1_i64, 2, 3], &[4, 5, 6]), 32);
    assert_eq!(min_slice(&[3_i64, -1, 5]), -1);
    assert_eq!(min_slice::<i64>(&[]), i64::MAX);
    assert_eq!(max_slice(&[3_i32, -1, 5]), 5);
    assert_eq!(max_slice::<u64>(&[]), 0);
}

#[test]
fn axpy_updates_each_position() {
    let mut out = [1_i64, 2, 3];
    axpy_slice(2, &[10, 20, 30], &mut out);
    assert_eq!(out, [21, 42, 63]);
}

#[test]
fn axpy_rows_updates_strided_rows_and_leaves_the_gaps() {
    let mut out = [0_i64, 0, 7, 0, 0];
    axpy_rows(&[1, 2], &[10, 20], &mut out, 3, 2, 2);
    assert_eq!(out, [10, 20, 7, 20, 40]);
    // A row stride shorter than the row is refused: nothing changes.
    let mut same = [1_i64, 1, 1, 1];
    axpy_rows(&[1, 2], &[10, 20], &mut same, 1, 2, 2);
    assert_eq!(same, [1, 1, 1, 1]);
}

#[test]
fn axpy_rows_batch_accumulates_every_panel() {
    // depth 2, rows 2, cols 2: out[r, i] += a[0, r] x[0, i] + a[1, r] x[1, i]
    let alphas = [1_i64, 2, 3, 4];
    let panel = [1_i64, 10, 100, 1000];
    let mut out = [0_i64; 4];
    axpy_rows_batch(&alphas, &panel, &mut out, 2, 2, 2, 2);
    assert_eq!(out, [1 + 300, 10 + 3000, 2 + 400, 20 + 4000]);
    let mut short = [5_i64; 4];
    axpy_rows_batch(&alphas[..3], &panel, &mut short, 2, 2, 2, 2);
    assert_eq!(short, [5; 4]);
}

#[test]
fn strided_products_read_the_sub_matrix() {
    let a = [1_i64, 2, 99, 3, 4, 99];
    let mut y = [10_i64, 20, 30];
    gemv_strided(&a, &[1, 1], &mut y, 2, 2, 3);
    assert_eq!(y, [13, 27, 30]);
    let mut yt = [0_i64, 0];
    gemv_transpose_strided(&a, &[1, 2], &mut yt, 2, 2, 3);
    assert_eq!(yt, [7, 10]);
    let mut untouched = [1_i64, 1];
    gemv_strided(&a, &[1], &mut untouched, 2, 2, 3);
    assert_eq!(untouched, [1, 1]);
}

#[test]
fn tiled_gemm_accumulates_the_product() {
    let mut c = [0_i64; 4];
    tiled_gemm(&[1, 0, 2, 3], &[1, 2, 3, 4], &mut c, 2, 2, 2);
    assert_eq!(c, [1, 2, 11, 16]);
    let mut again = [1_i64; 4];
    tiled_gemm(&[1, 0, 2, 3], &[1, 2, 3, 4], &mut again, 2, 2, 0);
    assert_eq!(again, [1; 4]);
}

#[test]
fn narrow_and_pointer_sized_integers_are_scalars() {
    assert_eq!(leto_ops::domain::fallback::sum_slice(&[1_i8, -2, 3]), 2);
    assert_eq!(leto_ops::domain::fallback::sum_slice(&[200_u8, 50]), 250);
    assert_eq!(leto_ops::domain::fallback::dot_slice(&[3_i16, 4], &[5, 6]), 39);
    assert_eq!(leto_ops::domain::fallback::dot_slice(&[3_u16, 4], &[5, 6]), 39);
    assert_eq!(leto_ops::domain::fallback::sum_slice(&[7_u32, 8]), 15);
    assert_eq!(leto_ops::domain::fallback::sum_slice(&[-7_isize, 8]), 1);
    assert_eq!(leto_ops::domain::fallback::dot_slice(&[2_usize, 3], &[4, 5]), 23);
}
