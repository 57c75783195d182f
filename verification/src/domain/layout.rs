//! Transposition of row-major matrices whose samples are moved, never
//! computed on: every sample keeps all its bits.
use vstd::prelude::*;
use vstd::arithmetic::div_mod::lemma_fundamental_div_mod_converse;
use crate::domain::error::{LetoError, OverflowFault, StorageFault};

verus! {

/// Why a square cannot be transposed in its storage.
#[non_exhaustive]
#[derive(Clone, Copy, Debug, PartialEq, Eq, Structural)]
pub enum SquareTransposeError {
    /// `side * side` exceeds `usize::MAX`.
    Overflow { side: usize },
    /// The storage does not hold exactly `side * side` samples.
    Length { side: usize, expected: usize, actual: usize },
}

/// The sample at row `i`, column `j` of a row-major square of `side`.
pub open spec fn cell<T>(m: Seq<T>, side: int, i: int, j: int) -> T {
    m[i * side + j]
}

/// The sample at row `i`, column `j` of matrix number `k` of a batch of
/// row-major `rows × columns` matrices stored one after the other.
pub open spec fn batch_cell<T>(data: Seq<T>, k: int, rows: int, columns: int, i: int, j: int) -> T {
    data[k * (rows * columns) + i * columns + j]
}

/// Rows and columns of a square inside it lie inside its storage.
proof fn lemma_cell_position(side: int, i: int, j: int)
    by (nonlinear_arith)
    requires
        0 <= i < side,
        0 <= j < side,
    ensures
        0 <= i * side + j < side * side,
{
    assert(i * side + j < (i + 1) * side);
    assert((i + 1) * side <= side * side);
}

/// Two cells of a square share a position only if they are the same cell.
proof fn lemma_cell_distinct(side: int, i: int, j: int, a: int, b: int)
    by (nonlinear_arith)
    requires
        0 <= i < side,
        0 <= j < side,
        0 <= a < side,
        0 <= b < side,
        i * side + j == a * side + b,
    ensures
        i == a,
        j == b,
{
    if i < a {
        assert(i * side + j < (i + 1) * side);
        assert((i + 1) * side <= a * side);
    } else if a < i {
        assert(a * side + b < (a + 1) * side);
        assert((a + 1) * side <= i * side);
    }
}

/// The off-diagonal pair `(i, j)` has been exchanged once every pair in
/// rows above `r`, and the pairs of row `r` left of column `c`, have been.
pub open spec fn exchanged(i: int, j: int, r: int, c: int) -> bool {
    let low = if i < j { i } else { j };
    let high = if i < j { j } else { i };
    i != j && (low < r || (low == r && high < c))
}

/// Transposes a row-major square of `side` in its own storage: the sample at
/// row `i`, column `j` moves to row `j`, column `i`.
///
/// Fails, leaving the storage unchanged, with `Overflow { side }` when
/// `side * side` exceeds `usize::MAX`, and otherwise with `Length { side,
/// expected: side * side, actual: matrix.len() }` when the storage does not
/// hold exactly that many samples.
pub fn transpose_square_inplace<T: Copy>(matrix: &mut [T], side: usize) -> (r: Result<(), SquareTransposeError>)
    ensures
        side * side > usize::MAX ==> r == Err::<(), SquareTransposeError>(SquareTransposeError::Overflow { side })
            && final(matrix)@ == old(matrix)@,
        side * side <= usize::MAX && old(matrix)@.len() != side * side ==> r == Err::<(), SquareTransposeError>(
            SquareTransposeError::Length {
                side,
                expected: (side * side) as usize,
                actual: old(matrix)@.len() as usize,
            },
        ) && final(matrix)@ == old(matrix)@,
        side * side <= usize::MAX && old(matrix)@.len() == side * side ==> r is Ok && final(matrix)@.len()
            == old(matrix)@.len() && forall|i: int, j: int|
            0 <= i < side && 0 <= j < side ==> #[trigger] cell(final(matrix)@, side as int, i, j) == cell(
                old(matrix)@,
                side as int,
                j,
                i,
            ),
{
    let total = match side.checked_mul(side) {
        Some(t) => t,
        None => {
            return Err(SquareTransposeError::Overflow { side });
        },
    };
    if matrix.len() != total {
        return Err(SquareTransposeError::Length { side, expected: total, actual: matrix.len() });
    }
    let ghost s = side as int;
    let ghost orig = matrix@;
    for r in 0..side
        invariant
            s == side,
            total == s * s,
            matrix@.len() == total,
            orig == old(matrix)@,
            forall|i: int, j: int|
                0 <= i < s && 0 <= j < s ==> #[trigger] cell(matrix@, s, i, j) == (if exchanged(i, j, r as int, r as int) {
                    cell(orig, s, j, i)
                } else {
                    cell(orig, s, i, j)
                }),
    {
        for c in r + 1..side
            invariant
                s == side,
                r < side,
                total == s * s,
                matrix@.len() == total,
                orig == old(matrix)@,
                forall|i: int, j: int|
                    0 <= i < s && 0 <= j < s ==> #[trigger] cell(matrix@, s, i, j) == (if exchanged(
                        i,
                        j,
                        r as int,
                        c as int,
                    ) {
                        cell(orig, s, j, i)
                    } else {
                        cell(orig, s, i, j)
                    }),
        {
            proof {
                lemma_cell_position(s, r as int, c as int);
                lemma_cell_position(s, c as int, r as int);
            }
            let p1 = r * side + c;
            let p2 = c * side + r;
            let ghost before = matrix@;
            let a = matrix[p1];
            let b = matrix[p2];
            matrix[p1] = b;
            matrix[p2] = a;
            proof {
                assert(cell(before, s, r as int, c as int) == a);
                assert(cell(before, s, c as int, r as int) == b);
                assert forall|i: int, j: int| 0 <= i < s && 0 <= j < s implies #[trigger] cell(matrix@, s, i, j) == (if exchanged(
                    i,
                    j,
                    r as int,
                    c + 1,
                ) {
                    cell(orig, s, j, i)
                } else {
                    cell(orig, s, i, j)
                }) by {
                    lemma_cell_position(s, i, j);
                    if i * s + j == p1 {
                        lemma_cell_distinct(s, i, j, r as int, c as int);
                    } else if i * s + j == p2 {
                        lemma_cell_distinct(s, i, j, c as int, r as int);
                    } else {
                        assert(cell(matrix@, s, i, j) == cell(before, s, i, j));
                        if (i == r && j == c) || (i == c && j == r) {
                            assert(false);
                        }
                    }
                }
            }
        }
    }
    Ok(())
}

/// Where sample `q` of the batch of transposed `columns × rows` matrices
/// comes from in the batch of `rows × columns` matrices.
pub open spec fn transposed_source(q: int, rows: int, columns: int) -> int {
    let size = rows * columns;
    let rem = q % size;
    (q / size) * size + (rem % rows) * columns + rem / rows
}

/// The position of row `c`, column `r` of transposed matrix number `k`, and
/// where its sample comes from.
proof fn lemma_batch_position(k: int, r: int, c: int, count: int, rows: int, columns: int)
    requires
        0 <= k < count,
        0 <= r < rows,
        0 <= c < columns,
    ensures
        0 <= k * (rows * columns) + c * rows + r < count * (rows * columns),
        0 <= k * (rows * columns) + r * columns + c < count * (rows * columns),
        columns * rows == rows * columns,
        transposed_source(k * (rows * columns) + c * rows + r, rows, columns) == k * (rows * columns) + r
            * columns + c,
{
    let size = rows * columns;
    assert(columns * rows == rows * columns) by (nonlinear_arith);
    assert(0 <= c * rows + r < size) by (nonlinear_arith)
        requires
            0 <= r < rows,
            0 <= c < columns,
            size == rows * columns,
    {
        assert(c * rows + r < (c + 1) * rows);
        assert((c + 1) * rows <= columns * rows);
    }
    assert(0 <= r * columns + c < size) by (nonlinear_arith)
        requires
            0 <= r < rows,
            0 <= c < columns,
            size == rows * columns,
    {
        assert(r * columns + c < (r + 1) * columns);
        assert((r + 1) * columns <= rows * columns);
    }
    assert(0 <= k * size && k * size + size <= count * size) by (nonlinear_arith)
        requires
            0 <= k < count,
            size == rows * columns,
            0 <= r < rows,
            0 <= c < columns,
    {
        assert((k + 1) * size <= count * size);
    }
    let q = k * size + c * rows + r;
    lemma_fundamental_div_mod_converse(q, size, k, c * rows + r);
    lemma_fundamental_div_mod_converse(c * rows + r, rows, c, r);
}

/// A sample position below the batch size has its source below it too.
proof fn lemma_source_in_batch(q: int, count: int, rows: int, columns: int)
    requires
        0 <= q < count * (rows * columns),
        rows > 0,
        columns > 0,
    ensures
        0 <= transposed_source(q, rows, columns) < count * (rows * columns),
        transposed_source(q, rows, columns) == (q / (rows * columns)) * (rows * columns) + ((q % (rows * columns))
            % rows) * columns + (q % (rows * columns)) / rows,
{
    let size = rows * columns;
    assert(rows * columns > 0) by (nonlinear_arith)
        requires
            rows > 0,
            columns > 0,
    ;
    let k = q / size;
    let rem = q % size;
    assert(0 <= rem < size);
    assert(q == k * size + rem) by (nonlinear_arith)
        requires
            size > 0,
            k == q / size,
            rem == q % size,
    ;
    assert(0 <= k < count) by (nonlinear_arith)
        requires
            q == k * size + rem,
            0 <= rem < size,
            0 <= q < count * size,
            size > 0,
    ;
    let c = rem / rows;
    let r = rem % rows;
    assert(rem == c * rows + r && 0 <= r < rows) by (nonlinear_arith)
        requires
            rows > 0,
            c == rem / rows,
            r == rem % rows,
    ;
    assert(0 <= c < columns) by (nonlinear_arith)
        requires
            rem == c * rows + r,
            0 <= r < rows,
            0 <= rem < rows * columns,
            rows > 0,
    ;
    lemma_batch_position(k, r, c, count, rows, columns);
}

/// Transposes a batch of `matrix_count` row-major `rows × columns` matrices,
/// stored one after the other in `source`, into `destination`: matrix `k`
/// of the destination is the `columns × rows` transpose of matrix `k` of the
/// source.
///
/// Checks, in this order and before writing anything: that `rows * columns`
/// fits in `usize` (else `Overflow { reason: MatrixElements }`), that
/// `matrix_count * rows * columns` does (else `Overflow { reason:
/// BatchElements }`), that `source` holds exactly that many samples (else
/// `StorageError { reason: SourceLength }`) and that `destination` does
/// (else `StorageError { reason: DestinationLength }`).
pub fn transpose_complex_matrices<T: Copy>(
    source: &[T],
    destination: &mut [T],
    matrix_count: usize,
    rows: usize,
    columns: usize,
) -> (r: Result<(), LetoError>)
    ensures
        rows * columns > usize::MAX ==> r == Err::<(), LetoError>(
            LetoError::Overflow { reason: OverflowFault::MatrixElements },
        ),
        rows * columns <= usize::MAX && matrix_count * (rows * columns) > usize::MAX ==> r == Err::<(), LetoError>(
            LetoError::Overflow { reason: OverflowFault::BatchElements },
        ),
        rows * columns <= usize::MAX && matrix_count * (rows * columns) <= usize::MAX && source@.len() != matrix_count * (rows * columns) ==> r
            == Err::<(), LetoError>(LetoError::StorageError { reason: StorageFault::SourceLength }),
        rows * columns <= usize::MAX && matrix_count * (rows * columns) <= usize::MAX && source@.len() == matrix_count
            * (rows * columns) && old(destination)@.len() != matrix_count * (rows * columns) ==> r == Err::<(), LetoError>(
            LetoError::StorageError { reason: StorageFault::DestinationLength },
        ),
        r is Err ==> final(destination)@ == old(destination)@,
        rows * columns <= usize::MAX && matrix_count * (rows * columns) <= usize::MAX && source@.len() == matrix_count
            * (rows * columns) && old(destination)@.len() == matrix_count * (rows * columns) ==> r is Ok && final(destination)@.len()
            == old(destination)@.len() && forall|k: int, i: int, j: int|
            0 <= k < matrix_count && 0 <= i < columns && 0 <= j < rows ==> #[trigger] batch_cell(
                final(destination)@,
                k,
                columns as int,
                rows as int,
                i,
                j,
            ) == batch_cell(source@, k, rows as int, columns as int, j, i),
{
    let size = match rows.checked_mul(columns) {
        Some(x) => x,
        None => {
            return Err(LetoError::Overflow { reason: OverflowFault::MatrixElements });
        },
    };
    let total = match matrix_count.checked_mul(size) {
        Some(x) => x,
        None => {
            return Err(LetoError::Overflow { reason: OverflowFault::BatchElements });
        },
    };
    if source.len() != total {
        return Err(LetoError::StorageError { reason: StorageFault::SourceLength });
    }
    if destination.len() != total {
        return Err(LetoError::StorageError { reason: StorageFault::DestinationLength });
    }
    let ghost (n, rw, cl) = (matrix_count as int, rows as int, columns as int);
    for q in 0..total
        invariant
            size == rw * cl,
            total == n * size,
            rw == rows,
            cl == columns,
            n == matrix_count,
            source@.len() == total,
            destination@.len() == total,
            forall|p: int| 0 <= p < q ==> #[trigger] destination@[p] == source@[transposed_source(p, rw, cl)],
    {
        assert(rows > 0 && columns > 0) by (nonlinear_arith)
            requires
                0 <= q < n * size,
                size == rw * cl,
                rw == rows,
                cl == columns,
        ;
        proof {
            lemma_source_in_batch(q as int, n, rw, cl);
        }
        let k = q / size;
        let rem = q % size;
        let from = k * size + (rem % rows) * columns + rem / rows;
        destination[q] = source[from];
    }
    assert forall|k: int, i: int, j: int| 0 <= k < matrix_count && 0 <= i < columns && 0 <= j < rows implies #[trigger] batch_cell(
        destination@,
        k,
        columns as int,
        rows as int,
        i,
        j,
    ) == batch_cell(source@, k, rows as int, columns as int, j, i) by {
        lemma_batch_position(k, j, i, n, rw, cl);
    }
    Ok(())
}

} // verus!
