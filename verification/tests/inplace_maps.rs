use leto_ops::application::coordinate::{
    coordinate_map_inplace, coordinate_map_plan, coordinate_map_plan_inplace, CoordinateMapPlan,
};
use leto_ops::application::tensor::Tensor;
use leto_ops::application::zip::{
    indexed_map4_inplace, indexed_map_inplace, indexed_zip2_mut_with, indexed_zip4_mut_with,
    indexed_zip_mut_with, zip2_mut_with, zip3_mut_with, zip5_mut_with, zip_mut_with,
};
use leto_ops::{LetoError, StorageFault};

fn grid(values: Vec<i64>) -> Tensor<i64> {
    Tensor::from_shape_vec(vec![2, 3], values).unwrap()
}

#[test]
fn zip_mut_with_combines_position_by_position() {
    let mut lhs = grid(vec![1, 2, 3, 4, 5, 6]);
    let rhs = grid(vec![10, 20, 30, 40, 50, 60]);
    zip_mut_with(&mut lhs, &rhs, |x: i64, y: &i64| x * 100 + *y).unwrap();
    assert_eq!(lhs.data().to_vec(), vec![110, 220, 330, 440, 550, 660]);
    assert_eq!(lhs.shape().to_vec(), vec![2, 3]);
}

#[test]
fn zip_mut_with_rejects_a_shape_mismatch_and_leaves_the_target() {
    let mut lhs = grid(vec![1, 2, 3, 4, 5, 6]);
    let rhs = Tensor::from_shape_vec(vec![3, 2], vec![0_i64; 6]).unwrap();
    assert_eq!(
        zip_mut_with(&mut lhs, &rhs, |x: i64, _: &i64| x + 1),
        Err(LetoError::ShapeMismatch { lhs: vec![2, 3], rhs: vec![3, 2] })
    );
    assert_eq!(lhs.data().to_vec(), vec![1, 2, 3, 4, 5, 6]);
}

#[test]
fn zip2_and_zip3_read_every_input_at_the_same_position() {
    let mut lhs = grid(vec![0; 6]);
    let a = grid(vec![1, 2, 3, 4, 5, 6]);
    let b = grid(vec![10, 10, 10, 20, 20, 20]);
    zip2_mut_with(&mut lhs, &a, &b, |x: i64, p: &i64, q: &i64| x + p * q).unwrap();
    assert_eq!(lhs.data().to_vec(), vec![10, 20, 30, 80, 100, 120]);
    let c = grid(vec![1, 1, 1, 1, 1, 1]);
    zip3_mut_with(&mut lhs, &a, &b, &c, |x: i64, p: &i64, q: &i64, r: &i64| x - p - q - r).unwrap();
    assert_eq!(lhs.data().to_vec(), vec![-2, 7, 16, 55, 74, 93]);
}

#[test]
fn zip2_reports_the_first_input_shape_on_mismatch() {
    let mut lhs = grid(vec![0; 6]);
    let a = grid(vec![1; 6]);
    let b = Tensor::from_shape_vec(vec![6], vec![1_i64; 6]).unwrap();
    assert_eq!(
        zip2_mut_with(&mut lhs, &a, &b, |x: i64, _: &i64, _: &i64| x),
        Err(LetoError::ShapeMismatch { lhs: vec![2, 3], rhs: vec![2, 3] })
    );
}

#[test]
fn zip5_sums_five_inputs_into_the_target() {
    let mut lhs = grid(vec![100; 6]);
    let a = grid(vec![1, 2, 3, 4, 5, 6]);
    let b = grid(vec![10; 6]);
    let c = grid(vec![0, 0, 0, 1, 1, 1]);
    let d = grid(vec![2; 6]);
    let e = grid(vec![6, 5, 4, 3, 2, 1]);
    zip5_mut_with(&mut lhs, &a, &b, &c, &d, &e, |x: i64, p: &i64, q: &i64, r: &i64, s: &i64, t: &i64| {
        x + p + q + r + s + t
    })
    .unwrap();
    assert_eq!(lhs.data().to_vec(), vec![119, 119, 119, 120, 120, 120]);
}

#[test]
fn indexed_zip_variants_receive_the_row_major_index() {
    let mut lhs = grid(vec![0; 6]);
    let rhs = grid(vec![1, 1, 1, 1, 1, 1]);
    indexed_zip_mut_with(&mut lhs, &rhs, |index: Vec<usize>, x: i64, y: &i64| {
        x + *y + (index[0] * 10 + index[1]) as i64
    })
    .unwrap();
    assert_eq!(lhs.data().to_vec(), vec![1, 2, 3, 11, 12, 13]);
    let b = grid(vec![2; 6]);
    indexed_zip2_mut_with(&mut lhs, &rhs, &b, |index: Vec<usize>, x: i64, p: &i64, q: &i64| {
        x * q - p - index[1] as i64
    })
    .unwrap();
    assert_eq!(lhs.data().to_vec(), vec![1, 2, 3, 21, 22, 23]);
    let c = grid(vec![3; 6]);
    let d = grid(vec![4; 6]);
    indexed_zip4_mut_with(
        &mut lhs,
        &rhs,
        &b,
        &c,
        &d,
        |index: Vec<usize>, x: i64, p: &i64, q: &i64, r: &i64, s: &i64| {
            x + p + q + r + s + index[0] as i64 * 1000
        },
    )
    .unwrap();
    assert_eq!(lhs.data().to_vec(), vec![11, 12, 13, 1031, 1032, 1033]);
}

#[test]
fn indexed_zip4_rejects_any_differing_shape() {
    let mut lhs = grid(vec![0; 6]);
    let same = grid(vec![0; 6]);
    let other = Tensor::from_shape_vec(vec![3, 2], vec![0_i64; 6]).unwrap();
    assert_eq!(
        indexed_zip4_mut_with(
            &mut lhs,
            &same,
            &same,
            &same,
            &other,
            |_: Vec<usize>, x: i64, _: &i64, _: &i64, _: &i64, _: &i64| x + 1,
        ),
        Err(LetoError::ShapeMismatch { lhs: vec![2, 3], rhs: vec![2, 3] })
    );
    assert_eq!(lhs.data().to_vec(), vec![0; 6]);
}

#[test]
fn indexed_map_inplace_sees_each_index_once_in_row_major_order() {
    let mut view = grid(vec![0; 6]);
    indexed_map_inplace(&mut view, |index: Vec<usize>, x: i64| x + (index[0] * 3 + index[1]) as i64).unwrap();
    assert_eq!(view.data().to_vec(), vec![0, 1, 2, 3, 4, 5]);
}

#[test]
fn indexed_map4_inplace_updates_four_arrays_together() {
    let mut a = grid(vec![1, 2, 3, 4, 5, 6]);
    let mut b = grid(vec![0; 6]);
    let mut c = grid(vec![0; 6]);
    let mut d = grid(vec![0; 6]);
    indexed_map4_inplace(&mut a, &mut b, &mut c, &mut d, |index: Vec<usize>, w: i64, x: i64, y: i64, z: i64| {
        (w * 2, x + w, y + index[0] as i64, z + index[1] as i64)
    })
    .unwrap();
    assert_eq!(a.data().to_vec(), vec![2, 4, 6, 8, 10, 12]);
    assert_eq!(b.data().to_vec(), vec![1, 2, 3, 4, 5, 6]);
    assert_eq!(c.data().to_vec(), vec![0, 0, 0, 1, 1, 1]);
    assert_eq!(d.data().to_vec(), vec![0, 1, 2, 0, 1, 2]);
}

#[test]
fn indexed_map4_inplace_rejects_a_shape_mismatch_and_changes_nothing() {
    let mut a = grid(vec![1; 6]);
    let mut b = Tensor::from_shape_vec(vec![6], vec![2_i64; 6]).unwrap();
    let mut c = grid(vec![3; 6]);
    let mut d = grid(vec![4; 6]);
    assert_eq!(
        indexed_map4_inplace(&mut a, &mut b, &mut c, &mut d, |_: Vec<usize>, w: i64, x: i64, y: i64, z: i64| {
            (w + 1, x + 1, y + 1, z + 1)
        }),
        Err(LetoError::ShapeMismatch { lhs: vec![2, 3], rhs: vec![6] })
    );
    assert_eq!(a.data().to_vec(), vec![1; 6]);
    assert_eq!(b.data().to_vec(), vec![2; 6]);
}

#[test]
fn coordinate_map_inplace_scatters_with_repeats_in_list_order() {
    let mut view = grid(vec![0; 6]);
    let coordinates = vec![vec![0, 1], vec![1, 2], vec![0, 1], vec![1, 0]];
    let mut seen: Vec<(usize, Vec<usize>)> = Vec::new();
    coordinate_map_inplace(&mut view, &coordinates, |ordinal: usize, index: Vec<usize>, x: i64| {
        seen.push((ordinal, index));
        x * 10 + ordinal as i64 + 1
    })
    .unwrap();
    assert_eq!(view.data().to_vec(), vec![0, 13, 0, 4, 0, 2]);
    assert_eq!(
        seen,
        vec![(0, vec![0, 1]), (1, vec![1, 2]), (2, vec![0, 1]), (3, vec![1, 0])]
    );
}

#[test]
fn coordinate_map_inplace_stops_at_the_first_coordinate_outside() {
    let mut view = grid(vec![0; 6]);
    let coordinates = vec![vec![1, 1], vec![2, 0], vec![0, 0]];
    assert_eq!(
        coordinate_map_inplace(&mut view, &coordinates, |_: usize, _: Vec<usize>, x: i64| x + 5),
        Err(LetoError::OutOfBounds { index: vec![2, 0], shape: vec![2, 3] })
    );
    assert_eq!(view.data().to_vec(), vec![0, 0, 0, 0, 5, 0]);
}

#[test]
fn coordinate_map_inplace_rejects_a_coordinate_of_another_rank() {
    let mut view = grid(vec![0; 6]);
    let coordinates = vec![vec![1]];
    assert_eq!(
        coordinate_map_inplace(&mut view, &coordinates, |_: usize, _: Vec<usize>, x: i64| x + 5),
        Err(LetoError::OutOfBounds { index: vec![1], shape: vec![2, 3] })
    );
    assert_eq!(view.data().to_vec(), vec![0; 6]);
}

#[test]
fn coordinate_plan_visits_as_the_direct_map_does() {
    let coordinates = vec![vec![1, 2], vec![0, 0], vec![1, 2]];
    let mut direct = grid(vec![1, 2, 3, 4, 5, 6]);
    coordinate_map_inplace(&mut direct, &coordinates, |ordinal: usize, _: Vec<usize>, x: i64| {
        x + 100 * (ordinal as i64 + 1)
    })
    .unwrap();
    let mut planned = grid(vec![1, 2, 3, 4, 5, 6]);
    let plan = coordinate_map_plan(&planned, &coordinates).unwrap();
    assert_eq!(plan.len(), 3);
    assert!(!plan.is_empty());
    assert_eq!(plan.layout().to_vec(), vec![2, 3]);
    coordinate_map_plan_inplace(&mut planned, &plan, |ordinal: usize, _: Vec<usize>, x: i64| {
        x + 100 * (ordinal as i64 + 1)
    })
    .unwrap();
    assert_eq!(planned.data().to_vec(), direct.data().to_vec());
    assert_eq!(planned.data().to_vec(), vec![201, 2, 3, 4, 5, 406]);
    plan.apply(&mut planned, |_: usize, _: Vec<usize>, x: i64| x - 1).unwrap();
    assert_eq!(planned.data().to_vec(), vec![200, 2, 3, 4, 5, 404]);
}

#[test]
fn coordinate_plan_rejects_coordinates_outside_and_other_shapes() {
    let view = grid(vec![0; 6]);
    assert_eq!(
        CoordinateMapPlan::new(&view, &[vec![0, 3]]).unwrap_err(),
        LetoError::OutOfBounds { index: vec![0, 3], shape: vec![2, 3] }
    );
    let empty = CoordinateMapPlan::new(&view, &[]).unwrap();
    assert!(empty.is_empty());
    assert_eq!(empty.len(), 0);
    let plan = CoordinateMapPlan::new(&view, &[vec![0, 0]]).unwrap();
    let mut other = Tensor::from_shape_vec(vec![3, 2], vec![7_i64; 6]).unwrap();
    assert_eq!(
        plan.apply(&mut other, |_: usize, _: Vec<usize>, x: i64| x + 1),
        Err(LetoError::StorageError { reason: StorageFault::PlanLayout })
    );
    assert_eq!(other.data().to_vec(), vec![7; 6]);
}
