use leto_ops::application::pooling::{pooling_backward_accumulate, pooling_forward_into, PoolingMode};
use leto_ops::application::sliding_window::{fold_into, unfold_into};
use leto_ops::application::tensor::Tensor;
use leto_ops::application::window::WindowParameters;
use leto_ops::{InputFault, LetoError, OverflowFault};

fn parameters() -> WindowParameters {
    WindowParameters::new(vec![2, 2], vec![1, 1], vec![0, 0], vec![1, 1])
        .expect("valid two-dimensional pooling parameters")
}

#[test]
fn maximum_forward_selects_each_window_maximum() {
    let input = Tensor::from_shape_vec(vec![1, 1, 3, 3], (1..=9).collect::<Vec<i32>>()).expect("valid input array");
    let mut output = Tensor::from_elem(vec![1, 1, 2, 2], 0).unwrap();
    pooling_forward_into(&input, parameters(), PoolingMode::Maximum, &mut output).expect("maximum pooling succeeds");
    assert_eq!(output.data().to_vec(), vec![5, 6, 8, 9]);
}

#[test]
fn average_backward_distributes_overlap_and_preserves_accumulation() {
    // Gradients of four keep every share of the 2 × 2 average whole: each
    // window passes a quarter of its gradient to every tap it covers.
    let input = Tensor::from_shape_vec(vec![1, 1, 3, 3], (1..=9).collect::<Vec<i64>>()).expect("valid input array");
    let grad_output = Tensor::from_elem(vec![1, 1, 2, 2], 4_i64).unwrap();
    let mut grad_input = Tensor::from_elem(vec![1, 1, 3, 3], 0_i64).unwrap();
    pooling_backward_accumulate(&grad_output, Some(&input), parameters(), PoolingMode::Average, &mut grad_input)
        .expect("average pooling backward succeeds");
    assert_eq!(grad_input.data().to_vec(), vec![1, 2, 1, 2, 4, 2, 1, 2, 1]);
}

#[test]
fn unfold_then_fold_matches_the_adjoint_overlap_counts() {
    let input = Tensor::from_shape_vec(vec![1, 1, 4], vec![1_i32, 2, 3, 4]).expect("valid input array");
    let parameters =
        WindowParameters::new(vec![2], vec![1], vec![0], vec![1]).expect("valid one-dimensional window parameters");
    let mut unfolded = Tensor::from_elem(vec![1, 2, 3], 0_i32).unwrap();
    unfold_into(&input, parameters.clone(), &mut unfolded).expect("unfold succeeds");
    assert_eq!(unfolded.data().to_vec(), vec![1, 2, 3, 2, 3, 4]);

    let mut folded = Tensor::from_elem(vec![1, 1, 4], 0_i32).unwrap();
    fold_into(&unfolded, &[4], parameters, &mut folded).expect("fold succeeds");
    assert_eq!(folded.data().to_vec(), vec![1, 4, 6, 4]);
}

#[test]
fn window_parameters_reject_zero_entries_and_ragged_axes() {
    let zero_stride = WindowParameters::new(vec![2], vec![0], vec![0], vec![1]);
    assert_eq!(zero_stride.err(), Some(LetoError::InvalidInput { reason: InputFault::WindowParameter }));
    let ragged = WindowParameters::new(vec![2, 2], vec![1], vec![0, 0], vec![1, 1]);
    assert_eq!(ragged.err(), Some(LetoError::InvalidInput { reason: InputFault::WindowParameter }));
    let ok = WindowParameters::new(vec![3, 1], vec![2, 1], vec![1, 0], vec![1, 2]).unwrap();
    assert_eq!(ok.kernel(), &[3, 1]);
    assert_eq!(ok.stride(), &[2, 1]);
    assert_eq!(ok.padding(), &[1, 0]);
    assert_eq!(ok.dilation(), &[1, 2]);
    assert_eq!(ok.rank(), 2);
    assert_eq!(ok.kernel_volume(), Ok(3));
}

#[test]
fn output_extents_follow_the_padded_dilated_formula() {
    // (n + 2p - (d(k-1)+1)) / s + 1 per axis.
    let w = WindowParameters::new(vec![3, 2, 2], vec![2, 1, 3], vec![1, 0, 2], vec![1, 2, 1]).unwrap();
    // axis 0: (7 + 2 - 3) / 2 + 1 = 4; axis 1: (5 - 3) / 1 + 1 = 3; axis 2: (1 + 4 - 2) / 3 + 1 = 2
    assert_eq!(w.output_shape(&[7, 5, 1]), Ok(vec![4, 3, 2]));
    // The dilated kernel is longer than the padded extent.
    assert_eq!(
        w.output_shape(&[7, 2, 1]),
        Err(LetoError::InvalidInput { reason: InputFault::WindowExtent })
    );
    let huge = WindowParameters::new(vec![1], vec![1], vec![usize::MAX], vec![1]).unwrap();
    assert_eq!(huge.output_shape(&[1]), Err(LetoError::Overflow { reason: OverflowFault::WindowExtent }));
}

#[test]
fn average_forward_ignores_padding() {
    // A 2x2 input, kernel 2, stride 1, padding 1: the corner windows see one
    // element, the edge windows two, the centre all four.
    let input = Tensor::from_shape_vec(vec![1, 1, 2, 2], vec![4_i64, 8, 12, 16]).unwrap();
    let w = WindowParameters::new(vec![2, 2], vec![1, 1], vec![1, 1], vec![1, 1]).unwrap();
    let mut output = Tensor::from_elem(vec![1, 1, 3, 3], 0_i64).unwrap();
    pooling_forward_into(&input, w.clone(), PoolingMode::Average, &mut output).unwrap();
    assert_eq!(output.data().to_vec(), vec![4, 6, 8, 8, 10, 12, 12, 14, 16]);
    let mut maxima = Tensor::from_elem(vec![1, 1, 3, 3], 0_i64).unwrap();
    pooling_forward_into(&input, w, PoolingMode::Maximum, &mut maxima).unwrap();
    assert_eq!(maxima.data().to_vec(), vec![4, 8, 8, 12, 16, 16, 12, 16, 16]);
}

#[test]
fn all_padding_window_pools_to_zero() {
    // Stride 3 with padding 2 places the first window wholly in the padding.
    let input = Tensor::from_shape_vec(vec![1, 1, 3], vec![5_i64, 7, 9]).unwrap();
    let w = WindowParameters::new(vec![2], vec![3], vec![2], vec![1]).unwrap();
    let mut output = Tensor::from_elem(vec![1, 1, 2], -1_i64).unwrap();
    pooling_forward_into(&input, w.clone(), PoolingMode::Maximum, &mut output).unwrap();
    assert_eq!(output.data().to_vec(), vec![0, 9]);
    let mut average = Tensor::from_elem(vec![1, 1, 2], -1_i64).unwrap();
    pooling_forward_into(&input, w, PoolingMode::Average, &mut average).unwrap();
    assert_eq!(average.data().to_vec(), vec![0, 8]);
}

#[test]
fn maximum_backward_routes_each_gradient_to_the_first_maximum() {
    // Ties keep the first maximum in kernel order.
    let input = Tensor::from_shape_vec(vec![1, 1, 1, 4], vec![3_i64, 3, 1, 3]).unwrap();
    let w = WindowParameters::new(vec![1, 2], vec![1, 1], vec![0, 0], vec![1, 1]).unwrap();
    let grad_output = Tensor::from_shape_vec(vec![1, 1, 1, 3], vec![10_i64, 20, 30]).unwrap();
    let mut grad_input = Tensor::from_shape_vec(vec![1, 1, 1, 4], vec![1_i64, 1, 1, 1]).unwrap();
    pooling_backward_accumulate(&grad_output, Some(&input), w, PoolingMode::Maximum, &mut grad_input).unwrap();
    assert_eq!(grad_input.data().to_vec(), vec![11, 21, 1, 31]);
}

#[test]
fn average_backward_without_input_uses_the_gradient_shape() {
    let w = WindowParameters::new(vec![2], vec![2], vec![0], vec![1]).unwrap();
    let grad_output = Tensor::from_shape_vec(vec![1, 2, 2], vec![2_i64, 4, 6, 8]).unwrap();
    let mut grad_input = Tensor::from_elem(vec![1, 2, 4], 0_i64).unwrap();
    pooling_backward_accumulate(&grad_output, None, w, PoolingMode::Average, &mut grad_input).unwrap();
    assert_eq!(grad_input.data().to_vec(), vec![1, 1, 2, 2, 3, 3, 4, 4]);
}

#[test]
fn pooling_rejects_bad_ranks_shapes_and_missing_input() {
    let w = parameters();
    let flat = Tensor::from_shape_vec(vec![3, 3], (1..=9).collect::<Vec<i64>>()).unwrap();
    let mut out = Tensor::from_elem(vec![1, 1, 2, 2], 7_i64).unwrap();
    assert_eq!(
        pooling_forward_into(&flat, w.clone(), PoolingMode::Maximum, &mut out),
        Err(LetoError::InvalidInput { reason: InputFault::WindowRank })
    );
    assert_eq!(out.data().to_vec(), vec![7, 7, 7, 7]);

    let input = Tensor::from_shape_vec(vec![1, 1, 3, 3], (1..=9).collect::<Vec<i64>>()).unwrap();
    let mut wrong = Tensor::from_elem(vec![1, 1, 3, 3], 0_i64).unwrap();
    assert_eq!(
        pooling_forward_into(&input, w.clone(), PoolingMode::Maximum, &mut wrong),
        Err(LetoError::ShapeMismatch { lhs: vec![1, 1, 3, 3], rhs: vec![1, 1, 2, 2] })
    );

    let grad_output = Tensor::from_elem(vec![1, 1, 2, 2], 1_i64).unwrap();
    let mut grad_input = Tensor::from_elem(vec![1, 1, 3, 3], 0_i64).unwrap();
    assert_eq!(
        pooling_backward_accumulate(&grad_output, None, w.clone(), PoolingMode::Maximum, &mut grad_input),
        Err(LetoError::InvalidInput { reason: InputFault::MissingForwardInput })
    );
    let mut small = Tensor::from_elem(vec![1, 1, 2, 3], 0_i64).unwrap();
    assert_eq!(
        pooling_backward_accumulate(&grad_output, Some(&input), w, PoolingMode::Maximum, &mut small),
        Err(LetoError::ShapeMismatch { lhs: vec![1, 1, 2, 3], rhs: vec![1, 1, 3, 3] })
    );
}

#[test]
fn kernel_volume_and_channel_overflow_are_reported() {
    let empty = Tensor::from_shape_vec(vec![1, 1, 0, 0], Vec::<i64>::new()).unwrap();
    let w = WindowParameters::new(vec![usize::MAX - 1, 2], vec![1, 1], vec![usize::MAX / 2, 1], vec![1, 1]).unwrap();
    let mut out = Tensor::from_elem(vec![1, 1, 1, 1], 0_i64).unwrap();
    assert_eq!(
        pooling_forward_into(&empty, w, PoolingMode::Maximum, &mut out),
        Err(LetoError::Overflow { reason: OverflowFault::KernelVolume })
    );

    let wide = Tensor::from_shape_vec(vec![1, usize::MAX, 0], Vec::<i64>::new()).unwrap();
    let w = WindowParameters::new(vec![2], vec![1], vec![1], vec![1]).unwrap();
    let mut columns = Tensor::from_elem(vec![1, 1, 1], 0_i64).unwrap();
    assert_eq!(
        unfold_into(&wide, w, &mut columns),
        Err(LetoError::Overflow { reason: OverflowFault::ChannelKernel })
    );
}

#[test]
fn fold_checks_the_spatial_extents_and_the_column_shape() {
    let w = WindowParameters::new(vec![2], vec![1], vec![0], vec![1]).unwrap();
    let columns = Tensor::from_elem(vec![1, 2, 3], 1_i32).unwrap();
    let mut out = Tensor::from_elem(vec![1, 1, 4], 9_i32).unwrap();
    assert_eq!(
        fold_into(&columns, &[5], w.clone(), &mut out),
        Err(LetoError::ShapeMismatch { lhs: vec![5], rhs: vec![4] })
    );
    let bad_columns = Tensor::from_elem(vec![1, 2, 2], 1_i32).unwrap();
    assert_eq!(
        fold_into(&bad_columns, &[4], w.clone(), &mut out),
        Err(LetoError::ShapeMismatch { lhs: vec![1, 2, 2], rhs: vec![1, 2, 3] })
    );
    assert_eq!(out.data().to_vec(), vec![9, 9, 9, 9]);
    fold_into(&columns, &[4], w, &mut out).unwrap();
    assert_eq!(out.data().to_vec(), vec![1, 2, 2, 1]);
}

#[test]
fn fold_is_the_adjoint_of_unfold_on_an_example() {
    let x = Tensor::from_shape_vec(vec![1, 1, 4], vec![1_i64, 2, 3, 4]).unwrap();
    let w = WindowParameters::new(vec![2], vec![1], vec![0], vec![1]).unwrap();
    let mut columns = Tensor::from_elem(vec![1, 2, 3], 0_i64).unwrap();
    unfold_into(&x, w.clone(), &mut columns).unwrap();
    let y = Tensor::from_shape_vec(vec![1, 2, 3], vec![1_i64, -2, 3, 4, 0, -1]).unwrap();
    let mut folded = Tensor::from_elem(vec![1, 1, 4], 0_i64).unwrap();
    fold_into(&y, &[4], w, &mut folded).unwrap();
    assert_eq!(folded.data().to_vec(), vec![1, 2, 3, -1]);
    let lhs: i64 = columns.data().iter().zip(y.data()).map(|(a, b)| a * b).sum();
    let rhs: i64 = x.data().iter().zip(folded.data()).map(|(a, b)| a * b).sum();
    assert_eq!(lhs, 10);
    assert_eq!(lhs, rhs);
}

#[test]
fn too_many_window_positions_are_reported() {
    let empty = Tensor::from_shape_vec(vec![1, 1, 0, 0], Vec::<i64>::new()).unwrap();
    let half = usize::MAX / 2;
    let w = WindowParameters::new(vec![1, 1], vec![1, 1], vec![half, half], vec![1, 1]).unwrap();
    assert_eq!(w.output_shape(&[0, 0]), Ok(vec![usize::MAX - 1, usize::MAX - 1]));
    let mut out = Tensor::from_elem(vec![1, 1, 1, 1], 0_i64).unwrap();
    assert_eq!(
        pooling_forward_into(&empty, w, PoolingMode::Average, &mut out),
        Err(LetoError::Overflow { reason: OverflowFault::OutputLocations })
    );
}

#[test]
fn maximum_backward_adds_to_the_first_greatest_tap_of_each_window() {
    let input = Tensor::from_elem(vec![1, 1, 3, 3], 1_i64).unwrap();
    let grad_output = Tensor::from_shape_vec(vec![1, 1, 2, 2], vec![1_i64, 2, 3, 4]).unwrap();
    let mut grad_input = Tensor::from_elem(vec![1, 1, 3, 3], 10_i64).unwrap();
    pooling_backward_accumulate(&grad_output, Some(&input), parameters(), PoolingMode::Maximum, &mut grad_input)
        .expect("maximum pooling backward succeeds");
    assert_eq!(grad_input.data().to_vec(), vec![11, 12, 10, 13, 14, 10, 10, 10, 10]);
    assert_eq!(
        pooling_backward_accumulate(&grad_output, None, parameters(), PoolingMode::Maximum, &mut grad_input),
        Err(LetoError::InvalidInput { reason: InputFault::MissingForwardInput })
    );
    assert_eq!(grad_input.data().to_vec(), vec![11, 12, 10, 13, 14, 10, 10, 10, 10]);
}
