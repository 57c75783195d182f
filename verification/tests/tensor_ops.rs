use leto_ops::application::reduction::{
    max_axis_into, mean_axis_into, min_axis_into, reduce_axis_into, sum_axis_into, AxisReduction, MaxAxis,
    MeanAxis, MinAxis, SumAxis,
};
use leto_ops::application::scan::{
    cumsum, cumsum_into, scan_axis, scan_axis_into, CumProdOp, CumSumOp, ScanDirection, ScanOp,
};
use leto_ops::application::sparse::{spmv, CsrMatrix};
use leto_ops::application::tensor::{checked_size, index_from_flat, offset_of, Tensor};
use leto_ops::application::vector::{dot, hamming_distance, jaccard_counts, matvec};
use leto_ops::infrastructure::simd::{simd_add, simd_div, simd_mul, simd_sub};
use leto_ops::{LetoError, StorageFault};

fn t(shape: Vec<usize>, data: Vec<i64>) -> Tensor<i64> {
    Tensor::from_shape_vec(shape, data).unwrap()
}

#[test]
fn index_from_flat_decomposes_row_major_positions() {
    assert_eq!(index_from_flat(0, &[2, 3, 4]), vec![0, 0, 0]);
    assert_eq!(index_from_flat(23, &[2, 3, 4]), vec![1, 2, 3]);
    assert_eq!(index_from_flat(13, &[2, 3, 4]), vec![1, 0, 1]);
    // Zero extents keep coordinate zero and do not consume the position.
    assert_eq!(index_from_flat(5, &[4, 0, 3]), vec![1, 0, 2]);
    for flat in 0..24 {
        let index = index_from_flat(flat, &[2, 3, 4]);
        assert_eq!(offset_of(&index, &[2, 3, 4]), flat);
    }
}

#[test]
fn checked_size_detects_overflow_and_zero_extents() {
    assert_eq!(checked_size(&[]), Some(1));
    assert_eq!(checked_size(&[2, 3, 4]), Some(24));
    assert_eq!(checked_size(&[usize::MAX, 2]), None);
    assert_eq!(checked_size(&[usize::MAX, 2, 0]), Some(0));
}

#[test]
fn tensor_construction_checks_the_element_count() {
    assert_eq!(
        Tensor::from_shape_vec(vec![2, 2], vec![1_i64, 2, 3]).err(),
        Some(LetoError::ShapeMismatch { lhs: vec![2, 2], rhs: vec![3] })
    );
    let filled = Tensor::from_elem(vec![2, 3], 7_i64).unwrap();
    assert_eq!(filled.data(), &[7; 6]);
    assert_eq!(
        Tensor::from_elem(vec![usize::MAX, 3], 0_i64).err(),
        Some(LetoError::StorageError { reason: StorageFault::ExtentOverflow })
    );
}

#[test]
fn sum_and_mean_reduce_along_each_axis() {
    let input = t(vec![2, 3], vec![1, 2, 3, 4, 5, 6]);
    let mut rows = t(vec![2, 1], vec![0, 0]);
    sum_axis_into(&input, 1, &mut rows).unwrap();
    assert_eq!(rows.data(), &[6, 15]);
    let mut cols = t(vec![1, 3], vec![0, 0, 0]);
    sum_axis_into(&input, 0, &mut cols).unwrap();
    assert_eq!(cols.data(), &[5, 7, 9]);
    mean_axis_into(&input, 1, &mut rows).unwrap();
    assert_eq!(rows.data(), &[2, 5]);
}

#[test]
fn min_and_max_reduce_along_an_axis() {
    let input = t(vec![2, 3], vec![3, -1, 2, 0, 8, -5]);
    let mut out = t(vec![2, 1], vec![0, 0]);
    min_axis_into(&input, 1, &mut out).unwrap();
    assert_eq!(out.data(), &[-1, -5]);
    max_axis_into(&input, 1, &mut out).unwrap();
    assert_eq!(out.data(), &[3, 8]);
    let mut col = t(vec![1, 3], vec![0, 0, 0]);
    reduce_axis_into::<MaxAxis, i64>(&input, 0, &mut col).unwrap();
    assert_eq!(col.data(), &[3, 8, 2]);
}

#[test]
fn reduction_errors_leave_the_output_untouched() {
    let input = t(vec![2, 3], vec![1, 2, 3, 4, 5, 6]);
    let mut out = t(vec![2, 1], vec![9, 9]);
    assert_eq!(
        sum_axis_into(&input, 2, &mut out).err(),
        Some(LetoError::StorageError { reason: StorageFault::AxisOutOfBounds })
    );
    assert_eq!(
        sum_axis_into(&input, 0, &mut out).err(),
        Some(LetoError::ShapeMismatch { lhs: vec![1, 3], rhs: vec![2, 1] })
    );
    assert_eq!(out.data(), &[9, 9]);
    let empty = t(vec![2, 0], vec![]);
    let mut kept = t(vec![2, 1], vec![9, 9]);
    assert_eq!(
        mean_axis_into(&empty, 1, &mut kept).err(),
        Some(LetoError::StorageError { reason: StorageFault::EmptyAxis })
    );
    assert_eq!(kept.data(), &[9, 9]);
    // A sum over an empty axis is the additive identity.
    sum_axis_into(&empty, 1, &mut kept).unwrap();
    assert_eq!(kept.data(), &[0, 0]);
}

#[test]
fn reduction_markers_expose_their_algebra() {
    assert_eq!(<SumAxis as AxisReduction<i64>>::fold(2, 3), 5);
    assert_eq!(<MeanAxis as AxisReduction<i64>>::finalize(9, 2), 4);
    assert_eq!(<MinAxis as AxisReduction<i64>>::fold(2, -3), -3);
    assert_eq!(<MaxAxis as AxisReduction<i64>>::fold(2, -3), 2);
    assert!(<SumAxis as AxisReduction<i64>>::allow_empty());
    assert!(!<MeanAxis as AxisReduction<i64>>::allow_empty());
}

#[test]
fn cumulative_sum_and_product_scan_along_an_axis() {
    let input = t(vec![2, 3], vec![1, 2, 3, 4, 5, 6]);
    let sums = cumsum(&input, 1).unwrap();
    assert_eq!(sums.data(), &[1, 3, 6, 4, 9, 15]);
    let down = cumsum(&input, 0).unwrap();
    assert_eq!(down.data(), &[1, 2, 3, 5, 7, 9]);
    let products = scan_axis::<CumProdOp, i64>(&input, 1, ScanDirection::Forward).unwrap();
    assert_eq!(products.data(), &[1, 2, 6, 4, 20, 120]);
    let suffix = scan_axis::<CumSumOp, i64>(&input, 1, ScanDirection::Reverse).unwrap();
    assert_eq!(suffix.data(), &[6, 5, 3, 15, 11, 6]);
}

#[test]
fn scan_reports_errors_and_leaves_output_untouched() {
    let input = t(vec![2, 2], vec![1, 2, 3, 4]);
    let mut out = t(vec![4], vec![0, 0, 0, 0]);
    assert_eq!(
        cumsum_into(&input, 0, &mut out).err(),
        Some(LetoError::ShapeMismatch { lhs: vec![2, 2], rhs: vec![4] })
    );
    assert_eq!(
        scan_axis_into::<CumSumOp, i64>(&input, 5, ScanDirection::Forward, &mut out).err(),
        Some(LetoError::StorageError { reason: StorageFault::AxisOutOfBounds })
    );
    assert_eq!(out.data(), &[0, 0, 0, 0]);
    let mut same = t(vec![2, 2], vec![0, 0, 0, 0]);
    cumsum_into(&input, 1, &mut same).unwrap();
    assert_eq!(same.data(), &[1, 3, 3, 7]);
    assert_eq!(<CumProdOp as ScanOp<i64>>::identity(), 1);
    assert_eq!(<CumSumOp as ScanOp<i64>>::identity(), 0);
}

#[test]
fn dense_dot_and_matvec() {
    assert_eq!(dot(&[1_i64, 2, 3], &[4, 5, 6]), Ok(32));
    assert_eq!(
        dot(&[1_i64, 2], &[4, 5, 6]).err(),
        Some(LetoError::ShapeMismatch { lhs: vec![2], rhs: vec![3] })
    );
    let a = t(vec![2, 3], vec![1, 0, 2, -1, 3, 0]);
    let mut out = vec![0; 2];
    matvec(&a, &[1, 2, 3], &mut out).unwrap();
    assert_eq!(out, vec![7, 5]);
    assert_eq!(
        matvec(&a, &[1, 2], &mut out).err(),
        Some(LetoError::ShapeMismatch { lhs: vec![2, 3], rhs: vec![2] })
    );
    let mut short = vec![0; 1];
    assert_eq!(
        matvec(&a, &[1, 2, 3], &mut short).err(),
        Some(LetoError::ShapeMismatch { lhs: vec![2], rhs: vec![1] })
    );
    assert_eq!(short, vec![0]);
}

#[test]
fn sparse_and_dense_products_agree() {
    let a = t(vec![3, 3], vec![0, 2, 0, -1, 0, 4, 5, 0, 0]);
    let csr = CsrMatrix::from_dense(&a);
    let x = [3, -2, 7];
    let mut dense_y = vec![0; 3];
    matvec(&a, &x, &mut dense_y).unwrap();
    assert_eq!(spmv(&csr, &x).unwrap(), dense_y);
}

#[test]
fn hamming_distance_counts_differing_bits() {
    assert_eq!(hamming_distance(&[0b1010_i64, -1], &[0b0110_i64, 0]), Ok(2 + 64));
    assert_eq!(hamming_distance(&[-1_i32, 7], &[0_i32, 7]), Ok(32));
    assert_eq!(hamming_distance(&[u64::MAX, 1], &[0_u64, 2]), Ok(64 + 2));
    assert_eq!(hamming_distance::<i64>(&[], &[]), Ok(0));
    assert_eq!(
        hamming_distance(&[1_i64, 2], &[1_i64]),
        Err(LetoError::ShapeMismatch { lhs: vec![2], rhs: vec![1] })
    );
}

#[test]
fn elementwise_slice_kernels_apply_per_position() {
    let a = [7_i64, -3, 10, 9];
    let b = [2_i64, 4, -5, 3];
    let mut out = [0_i64; 4];
    simd_add(&a, &b, &mut out);
    assert_eq!(out, [9, 1, 5, 12]);
    simd_sub(&a, &b, &mut out);
    assert_eq!(out, [5, -7, 15, 6]);
    simd_mul(&a, &b, &mut out);
    assert_eq!(out, [14, -12, -50, 27]);
    simd_div(&a, &b, &mut out);
    assert_eq!(out, [3, 0, -2, 3]);
}

#[test]
fn jaccard_counts_sum_common_and_joint_bits() {
    assert_eq!(jaccard_counts(&[0b1100_i64, 0b1010], &[0b1010_i64, 0]), Ok((1, 5)));
    assert_eq!(jaccard_counts::<u64>(&[0, 0], &[0, 0]), Ok((0, 0)));
    assert_eq!(jaccard_counts(&[-1_i32], &[1_i32]), Ok((1, 32)));
    assert_eq!(
        jaccard_counts(&[1_i64], &[1_i64, 2]),
        Err(LetoError::ShapeMismatch { lhs: vec![1], rhs: vec![2] })
    );
}
