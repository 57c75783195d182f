use leto_ops::application::tensor::Tensor;
use leto_ops::application::unary::{map_inplace, map_into, mapv};
use leto_ops::application::zip::{indexed_fold, indexed_fold_fortran, zip_fold};
use leto_ops::LetoError;

fn grid() -> Tensor<i64> {
    Tensor::from_shape_vec(vec![2, 3], vec![0, 1, 2, 3, 4, 5]).unwrap()
}

#[test]
fn map_into_applies_the_closure_at_every_position() {
    let input = grid();
    let mut output = Tensor::from_elem(vec![2, 3], 0_i64).unwrap();
    map_into(&input, &mut output, |x: i64| x * 10 + 1).unwrap();
    assert_eq!(output.data().to_vec(), vec![1, 11, 21, 31, 41, 51]);
    assert_eq!(output.shape().to_vec(), vec![2, 3]);
}

#[test]
fn map_into_rejects_a_shape_mismatch_and_leaves_the_output() {
    let input = grid();
    let mut output = Tensor::from_elem(vec![3, 2], 7_i64).unwrap();
    assert_eq!(
        map_into(&input, &mut output, |x: i64| x),
        Err(LetoError::ShapeMismatch { lhs: vec![2, 3], rhs: vec![3, 2] })
    );
    assert_eq!(output.data().to_vec(), vec![7; 6]);
}

#[test]
fn mapv_and_map_allocate_an_array_of_the_same_shape() {
    let input = grid();
    let even = mapv(&input, |x: i64| x % 2 == 0).unwrap();
    assert_eq!(even.shape().to_vec(), vec![2, 3]);
    assert_eq!(even.data().to_vec(), vec![true, false, true, false, true, false]);
    let squared = leto_ops::application::unary::map(&input, |x: i64| x * x).unwrap();
    assert_eq!(squared.data().to_vec(), vec![0, 1, 4, 9, 16, 25]);
}

#[test]
fn map_inplace_replaces_every_element() {
    let mut view = grid();
    map_inplace(&mut view, |x: i64| 5 - x).unwrap();
    assert_eq!(view.data().to_vec(), vec![5, 4, 3, 2, 1, 0]);
}

#[test]
fn zip_fold_threads_the_accumulator_through_every_pair() {
    let lhs = grid();
    let rhs = Tensor::from_shape_vec(vec![2, 3], vec![1_i64, 1, 2, 2, 3, 3]).unwrap();
    let dot = zip_fold(&lhs, &rhs, 0_i64, |acc, a: &i64, b: &i64| acc + a * b).unwrap();
    assert_eq!(dot, 1 + 4 + 6 + 12 + 15);
    let order = zip_fold(&lhs, &rhs, Vec::new(), |mut acc: Vec<(i64, i64)>, a: &i64, b: &i64| {
        acc.push((*a, *b));
        acc
    })
    .unwrap();
    assert_eq!(order, vec![(0, 1), (1, 1), (2, 2), (3, 2), (4, 3), (5, 3)]);
    let other = Tensor::from_elem(vec![6], 0_i64).unwrap();
    assert_eq!(
        zip_fold(&lhs, &other, 0_i64, |acc, _a: &i64, _b: &i64| acc),
        Err(LetoError::ShapeMismatch { lhs: vec![2, 3], rhs: vec![6] })
    );
}

#[test]
fn indexed_fold_visits_row_major_indices() {
    let view = grid();
    let seen = indexed_fold(&view, Vec::new(), |mut acc: Vec<(Vec<usize>, i64)>, index: Vec<usize>, v: &i64| {
        acc.push((index, *v));
        acc
    })
    .unwrap();
    assert_eq!(
        seen,
        vec![
            (vec![0, 0], 0),
            (vec![0, 1], 1),
            (vec![0, 2], 2),
            (vec![1, 0], 3),
            (vec![1, 1], 4),
            (vec![1, 2], 5),
        ]
    );
}

#[test]
fn indexed_fold_fortran_visits_the_first_axis_fastest() {
    let view = grid();
    let seen = indexed_fold_fortran(&view, Vec::new(), |mut acc: Vec<(Vec<usize>, i64)>, index: Vec<usize>, v: &i64| {
        acc.push((index, *v));
        acc
    })
    .unwrap();
    assert_eq!(
        seen,
        vec![
            (vec![0, 0], 0),
            (vec![1, 0], 3),
            (vec![0, 1], 1),
            (vec![1, 1], 4),
            (vec![0, 2], 2),
            (vec![1, 2], 5),
        ]
    );
    let empty = Tensor::from_shape_vec(vec![0, 3], Vec::<i64>::new()).unwrap();
    assert_eq!(indexed_fold_fortran(&empty, 42_i64, |acc, _i: Vec<usize>, v: &i64| acc + v), Ok(42));
}
