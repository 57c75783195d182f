use leto_ops::application::stateful_update::{validate_one, validate_output, validate_two};
use leto_ops::application::tensor::Tensor;
use leto_ops::LetoError;

fn zeros(shape: Vec<usize>) -> Tensor<i64> {
    Tensor::from_elem(shape, 0_i64).unwrap()
}

#[test]
fn matching_update_shapes_pass() {
    let g = zeros(vec![2, 3]);
    assert_eq!(validate_one(&zeros(vec![2, 3]), &g, &zeros(vec![2, 3])), Ok(()));
    assert_eq!(validate_two(&zeros(vec![2, 3]), &g, &zeros(vec![2, 3]), &zeros(vec![2, 3])), Ok(()));
    assert_eq!(validate_output(&g, &[2, 3]), Ok(()));
}

#[test]
fn the_first_differing_array_is_reported_against_the_gradient_shape() {
    let g = zeros(vec![2, 3]);
    assert_eq!(
        validate_one(&zeros(vec![3, 2]), &g, &zeros(vec![6])),
        Err(LetoError::ShapeMismatch { lhs: vec![2, 3], rhs: vec![3, 2] })
    );
    assert_eq!(
        validate_one(&zeros(vec![2, 3]), &g, &zeros(vec![6])),
        Err(LetoError::ShapeMismatch { lhs: vec![2, 3], rhs: vec![6] })
    );
    assert_eq!(
        validate_two(&zeros(vec![2, 3]), &g, &zeros(vec![2, 3]), &zeros(vec![1, 6])),
        Err(LetoError::ShapeMismatch { lhs: vec![2, 3], rhs: vec![1, 6] })
    );
    assert_eq!(
        validate_two(&zeros(vec![2, 3]), &g, &zeros(vec![3]), &zeros(vec![1, 6])),
        Err(LetoError::ShapeMismatch { lhs: vec![2, 3], rhs: vec![3] })
    );
}
