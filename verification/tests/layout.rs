use leto_ops::domain::layout::{transpose_complex_matrices, transpose_square_inplace, SquareTransposeError};
use leto_ops::{LetoError, OverflowFault, StorageFault};

fn complex(re: f32, im: f32) -> (f32, f32) {
    (re, im)
}

#[test]
fn batch_transpose_of_one_two_by_three_matrix() {
    let source = [
        complex(1.0, 0.0),
        complex(2.0, 0.0),
        complex(3.0, 0.0),
        complex(4.0, 0.0),
        complex(5.0, 0.0),
        complex(6.0, 0.0),
    ];
    let mut destination = [complex(0.0, 0.0); 6];
    transpose_complex_matrices(&source, &mut destination, 1, 2, 3).unwrap();
    assert_eq!(destination, [source[0], source[3], source[1], source[4], source[2], source[5]]);
}

#[test]
fn batch_transpose_keeps_matrix_order() {
    let source: Vec<u32> = (0..12).collect();
    let mut destination = vec![0_u32; 12];
    transpose_complex_matrices(&source, &mut destination, 2, 3, 2).unwrap();
    assert_eq!(destination, vec![0, 2, 4, 1, 3, 5, 6, 8, 10, 7, 9, 11]);
}

#[test]
fn batch_transpose_validates_counts_then_lengths() {
    let mut destination = [0_u8; 4];
    assert_eq!(
        transpose_complex_matrices(&[0_u8; 4], &mut destination, 1, usize::MAX, 2),
        Err(LetoError::Overflow { reason: OverflowFault::MatrixElements })
    );
    assert_eq!(
        transpose_complex_matrices(&[0_u8; 4], &mut destination, usize::MAX, 2, 2),
        Err(LetoError::Overflow { reason: OverflowFault::BatchElements })
    );
    assert_eq!(
        transpose_complex_matrices(&[0_u8; 3], &mut destination, 1, 2, 2),
        Err(LetoError::StorageError { reason: StorageFault::SourceLength })
    );
    let mut short = [9_u8; 3];
    assert_eq!(
        transpose_complex_matrices(&[1_u8; 4], &mut short, 1, 2, 2),
        Err(LetoError::StorageError { reason: StorageFault::DestinationLength })
    );
    assert_eq!(short, [9, 9, 9]);
}

#[test]
fn square_transpose_in_place_swaps_rows_and_columns() {
    let mut matrix = [1.0_f32, 2.0, 3.0, 4.0].map(|re| complex(re, -re));
    let original = matrix;
    transpose_square_inplace(&mut matrix, 2).unwrap();
    assert_eq!(matrix, [original[0], original[2], original[1], original[3]]);
}

#[test]
fn square_transpose_keeps_every_bit() {
    let payload = f32::from_bits(0x7fc0_1234);
    let mut matrix = [complex(0.0, -0.0), complex(payload, 1.0), complex(2.0, 3.0), complex(-0.0, payload)];
    transpose_square_inplace(&mut matrix, 2).unwrap();
    assert_eq!(matrix[1].0.to_bits(), 2.0_f32.to_bits());
    assert_eq!(matrix[2].0.to_bits(), 0x7fc0_1234);
    assert_eq!(matrix[0].1.to_bits(), (-0.0_f32).to_bits());
    assert_eq!(matrix[3].1.to_bits(), 0x7fc0_1234);
}

#[test]
fn square_transpose_of_three_by_three_twice_is_the_identity() {
    let original: Vec<u16> = (1..=9).collect();
    let mut matrix = original.clone();
    transpose_square_inplace(&mut matrix, 3).unwrap();
    assert_eq!(matrix, vec![1, 4, 7, 2, 5, 8, 3, 6, 9]);
    transpose_square_inplace(&mut matrix, 3).unwrap();
    assert_eq!(matrix, original);
}

#[test]
fn square_transpose_errors_leave_the_storage() {
    let mut matrix = [1_u8, 2, 3];
    assert_eq!(
        transpose_square_inplace(&mut matrix, 2),
        Err(SquareTransposeError::Length { side: 2, expected: 4, actual: 3 })
    );
    assert_eq!(
        transpose_square_inplace(&mut matrix, usize::MAX),
        Err(SquareTransposeError::Overflow { side: usize::MAX })
    );
    assert_eq!(matrix, [1, 2, 3]);
    let mut empty: [u8; 0] = [];
    assert_eq!(transpose_square_inplace(&mut empty, 0), Ok(()));
}
