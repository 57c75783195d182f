//! Compressed Sparse Row (CSR) storage — the solve/kernel-facing sparse format.
use vstd::prelude::*;
use crate::domain::error::{extent, LetoError, StorageFault};
use crate::domain::scalar::Scalar;
use crate::application::tensor::{Tensor, TensorView};
use super::dense::{
    dense_lanes, dense_of, lemma_matrix_ext, lemma_matrix_lanes, lemma_matrix_layout, lemma_nonzero_lanes_ok, matrix_at, matrix_column,
    matrix_row, matrix_shape, nonzeros, position,
};
use super::conversions::lemma_gathered_layout_count;
use super::compressed::{flatten, 
    compressed_fault, compressed_ok, dominant, find_fault, find_key, gathered, lane, lane_dominance,
    lemma_fault_free_is_valid, lemma_gathered_value, lemma_lane_keyed, lemma_value_at_found, off_ok, transpose_parts,
    value_at,
};

verus! {

/// Compressed Sparse Row matrix: stores only the `nnz` nonzero entries.
///
/// Invariants (checked by [`CsrMatrix::from_parts`]): `row_ptr.len() == nrows + 1`,
/// `row_ptr` is non-decreasing with `row_ptr[0] == 0` and
/// `row_ptr[nrows] == values.len()`, `col_indices.len() == values.len()`, every
/// column index is below `ncols`, and column indices strictly increase
/// within each row.
#[derive(Clone, Debug, PartialEq)]
pub struct CsrMatrix<T> {
    pub(crate) values: Vec<T>,
    pub(crate) col_indices: Vec<usize>,
    pub(crate) row_ptr: Vec<usize>,
    pub(crate) nrows: usize,
    pub(crate) ncols: usize,
}

/// The mathematical content of a [`CsrMatrix`].
pub struct CsrView<T> {
    pub values: Seq<T>,
    pub col_indices: Seq<usize>,
    pub row_ptr: Seq<usize>,
    pub nrows: usize,
    pub ncols: usize,
}

impl<T> CsrView<T> {
    /// The CSR invariants.
    pub open spec fn wf(self) -> bool {
        &&& compressed_ok(
            self.row_ptr,
            self.col_indices,
            self.values.len() as int,
            self.nrows as int,
            self.ncols as int,
        )
        &&& self.values.len() == self.col_indices.len()
        &&& self.nrows < usize::MAX
    }

    /// The `(column, value)` entries of row `i`, by increasing column.
    pub open spec fn row(self, i: int) -> Seq<(usize, T)> {
        lane(self.row_ptr, self.col_indices, self.values, i)
    }
}

impl<T: Scalar> CsrView<T> {
    /// The matrix entry `A[i, j]`: the stored value, or zero when not stored.
    pub open spec fn entry(self, i: int, j: usize) -> T {
        value_at(self.row(i), j)
    }
}

impl<T> View for CsrMatrix<T> {
    type V = CsrView<T>;

    closed spec fn view(&self) -> CsrView<T> {
        CsrView {
            values: self.values@,
            col_indices: self.col_indices@,
            row_ptr: self.row_ptr@,
            nrows: self.nrows,
            ncols: self.ncols,
        }
    }
}

/// Borrowed view over one CSR row.
#[derive(Clone, Copy, Debug)]
pub struct CsrRow<'a, T> {
    col_indices: &'a [usize],
    values: &'a [T],
}

impl<'a, T> View for CsrRow<'a, T> {
    type V = (Seq<usize>, Seq<T>);

    closed spec fn view(&self) -> (Seq<usize>, Seq<T>) {
        (self.col_indices@, self.values@)
    }
}

impl<'a, T> CsrRow<'a, T> {
    /// Borrow the row column indices.
    pub fn col_indices(&self) -> (r: &'a [usize])
        ensures
            r@ == self@.0,
    {
        self.col_indices
    }

    /// Borrow the row values.
    pub fn values(&self) -> (r: &'a [T])
        ensures
            r@ == self@.1,
    {
        self.values
    }

    /// Number of stored entries in this row.
    pub fn nnz(&self) -> (r: usize)
        ensures
            r == self@.1.len(),
    {
        self.values.len()
    }
}

impl<T> CsrMatrix<T> {
    /// The view lists the stored arrays.
    pub(crate) proof fn lemma_view(&self)
        ensures
            self@ == (CsrView {
                values: self.values@,
                col_indices: self.col_indices@,
                row_ptr: self.row_ptr@,
                nrows: self.nrows,
                ncols: self.ncols,
            }),
    {
    }

    /// Assembles a matrix from arrays already known to be valid.
    pub(crate) fn from_valid_parts(
        values: Vec<T>,
        col_indices: Vec<usize>,
        row_ptr: Vec<usize>,
        nrows: usize,
        ncols: usize,
    ) -> (r: Self)
        ensures
            r@ == (CsrView { values: values@, col_indices: col_indices@, row_ptr: row_ptr@, nrows, ncols }),
    {
        CsrMatrix { values, col_indices, row_ptr, nrows, ncols }
    }

    /// Construct CSR from raw parts, validating the structural invariants.
    ///
    /// Fails with the first violated invariant, in this order: `nrows + 1`
    /// overflows, `row_ptr` length, `col_indices`/`values` lengths, `row_ptr`
    /// endpoints, `row_ptr` monotonicity, column range, strictly increasing
    /// columns within each row.
    pub fn from_parts(
        values: Vec<T>,
        col_indices: Vec<usize>,
        row_ptr: Vec<usize>,
        nrows: usize,
        ncols: usize,
    ) -> (r: Result<Self, LetoError>)
        ensures
            match compressed_fault(
                row_ptr@,
                col_indices@,
                values.len() as int,
                nrows as int,
                ncols as int,
                StorageFault::ColumnIndexOutOfRange,
            ) {
                Some(fault) => r == Err::<Self, LetoError>(LetoError::StorageError { reason: fault }),
                None => r is Ok && r->Ok_0@ == (CsrView {
                    values: values@,
                    col_indices: col_indices@,
                    row_ptr: row_ptr@,
                    nrows,
                    ncols,
                }) && r->Ok_0@.wf(),
            },
    {
        let fault = find_fault(
            &row_ptr,
            &col_indices,
            values.len(),
            nrows,
            ncols,
            StorageFault::ColumnIndexOutOfRange,
        );
        proof {
            lemma_fault_free_is_valid(
                row_ptr@,
                col_indices@,
                values.len() as int,
                nrows as int,
                ncols as int,
                StorageFault::ColumnIndexOutOfRange,
            );
        }
        match fault {
            Some(reason) => Err(LetoError::StorageError { reason }),
            None => Ok(CsrMatrix { values, col_indices, row_ptr, nrows, ncols }),
        }
    }

    /// Construct an all-zero CSR matrix with shape `(nrows, ncols)`.
    pub fn zeros(nrows: usize, ncols: usize) -> (r: Self)
        requires
            nrows < usize::MAX,
        ensures
            r@.wf(),
            r@.nrows == nrows,
            r@.ncols == ncols,
            r@.values.len() == 0,
            r@.row_ptr == Seq::new((nrows + 1) as nat, |i: int| 0usize),
    {
        let mut row_ptr: Vec<usize> = Vec::new();
        for i in 0..nrows + 1
            invariant
                row_ptr@ == Seq::new(i as nat, |k: int| 0usize),
        {
            row_ptr.push(0);
            proof {
                assert(row_ptr@ =~= Seq::new((i + 1) as nat, |k: int| 0usize));
            }
        }
        let r = CsrMatrix { values: Vec::new(), col_indices: Vec::new(), row_ptr, nrows, ncols };
        proof {
            assert(r@.row_ptr[0] == 0);
        }
        r
    }

    /// `(nrows, ncols)`.
    pub fn shape(&self) -> (r: (usize, usize))
        ensures
            r == (self@.nrows, self@.ncols),
    {
        (self.nrows, self.ncols)
    }

    /// Number of stored nonzero entries.
    pub fn nnz(&self) -> (r: usize)
        ensures
            r == self@.values.len(),
    {
        self.values.len()
    }

    /// Number of rows.
    pub fn nrows(&self) -> (r: usize)
        ensures
            r == self@.nrows,
    {
        self.nrows
    }

    /// Number of columns.
    pub fn ncols(&self) -> (r: usize)
        ensures
            r == self@.ncols,
    {
        self.ncols
    }

    /// Borrowed CSR arrays `(values, col_indices, row_ptr)`.
    pub fn as_parts(&self) -> (r: (&[T], &[usize], &[usize]))
        ensures
            r.0@ == self@.values,
            r.1@ == self@.col_indices,
            r.2@ == self@.row_ptr,
    {
        (self.values.as_slice(), self.col_indices.as_slice(), self.row_ptr.as_slice())
    }

    /// CSR row-offset array.
    pub fn row_ptr(&self) -> (r: &[usize])
        ensures
            r@ == self@.row_ptr,
    {
        self.row_ptr.as_slice()
    }

    /// CSR column-index array.
    pub fn col_indices(&self) -> (r: &[usize])
        ensures
            r@ == self@.col_indices,
    {
        self.col_indices.as_slice()
    }

    /// CSR nonzero value array.
    pub fn values(&self) -> (r: &[T])
        ensures
            r@ == self@.values,
    {
        self.values.as_slice()
    }

    /// Borrow one matrix row in CSR form.
    pub fn row(&self, row: usize) -> (r: CsrRow<'_, T>)
        requires
            self@.wf(),
            row < self@.nrows,
        ensures
            r@.0 == self@.col_indices.subrange(
                self@.row_ptr[row as int] as int,
                self@.row_ptr[row + 1] as int,
            ),
            r@.1 == self@.values.subrange(
                self@.row_ptr[row as int] as int,
                self@.row_ptr[row + 1] as int,
            ),
    {
        let start = self.row_ptr[row];
        let end = self.row_ptr[row + 1];
        proof {
            assert(self.row_ptr@[row as int] <= self.row_ptr@[row + 1] <= self.row_ptr@[self.nrows as int]);
        }
        CsrRow {
            col_indices: &self.col_indices.as_slice()[start..end],
            values: &self.values.as_slice()[start..end],
        }
    }

    /// Mutably borrow the stored nonzero values; the sparsity structure
    /// cannot change through it.
    pub fn values_mut(&mut self) -> (r: &mut [T])
        ensures
            r@ == old(self)@.values,
            final(self)@ == (CsrView { values: final(r)@, ..old(self)@ }),
    {
        self.values.as_mut_slice()
    }
}


impl<T: Scalar> CsrMatrix<T> {
    /// Extract the diagonal `A[i, i]` of every row as a dense vector.
    pub fn diagonal(&self) -> (r: Vec<T>)
        requires
            self@.wf(),
        ensures
            r.len() == self@.nrows,
            forall|i: int| 0 <= i < self@.nrows ==> r@[i] == #[trigger] self@.entry(i, i as usize),
    {
        let mut diag: Vec<T> = Vec::new();
        for row in 0..self.nrows
            invariant
                self@.wf(),
                diag.len() == row,
                forall|i: int| 0 <= i < row ==> diag@[i] == #[trigger] self@.entry(i, i as usize),
        {
            proof {
                assert(self.row_ptr@[row as int] <= self.row_ptr@[row + 1] <= self.row_ptr@[self.nrows as int]);
                lemma_lane_keyed(
                    self.row_ptr@,
                    self.col_indices@,
                    self.values@,
                    self.values.len() as int,
                    self.nrows as int,
                    self.ncols as int,
                    row as int,
                );
            }
            let start = self.row_ptr[row];
            let end = self.row_ptr[row + 1];
            let ghost s = self@.row(row as int);
            match find_key(&self.col_indices, start, end, row) {
                Some(p) => {
                    proof {
                        assert(s[p - start].0 == row);
                        lemma_value_at_found(s, self.ncols as int, p - start);
                    }
                    diag.push(self.values[p]);
                },
                None => {
                    proof {
                        assert(!exists|a: int| 0 <= a < s.len() && (#[trigger] s[a]).0 == row) by {
                            assert forall|a: int| 0 <= a < s.len() implies (#[trigger] s[a]).0 != row by {
                                assert(s[a].0 == self.col_indices@[start + a]);
                            }
                        }
                    }
                    diag.push(T::zero());
                },
            }
        }
        diag
    }

    /// Scale every stored value by `factor`; the structure is unchanged.
    pub fn scale_values(&mut self, factor: T)
        requires
            forall|p: int| 0 <= p < old(self)@.values.len() ==> (#[trigger] old(self)@.values[p]).can_mul(factor),
        ensures
            final(self)@ == (CsrView {
                values: Seq::new(old(self)@.values.len(), |p: int| old(self)@.values[p].times(factor)),
                ..old(self)@
            }),
    {
        let n = self.values.len();
        for p in 0..n
            invariant
                n == self.values.len(),
                self.col_indices@ == old(self).col_indices@,
                self.row_ptr@ == old(self).row_ptr@,
                self.nrows == old(self).nrows,
                self.ncols == old(self).ncols,
                n == old(self).values@.len(),
                forall|q: int| 0 <= q < n ==> (#[trigger] old(self)@.values[q]).can_mul(factor),
                forall|q: int| 0 <= q < p ==> self.values@[q] == (#[trigger] old(self)@.values[q]).times(factor),
                forall|q: int| p <= q < n ==> self.values@[q] == #[trigger] old(self)@.values[q],
        {
            proof {
                assert(self.values@[p as int] == old(self)@.values[p as int]);
            }
            let v = self.values[p].mul(factor);
            self.values.set(p, v);
        }
        proof {
            assert(self.values@ =~= Seq::new(n as nat, |p: int| old(self)@.values[p].times(factor)));
        }
    }

    /// Scale each row `i` by `scaling[i]`.
    ///
    /// Fails with `ShapeMismatch { lhs: [nrows], rhs: [scaling.len()] }`, leaving
    /// the matrix unchanged, when the lengths differ.
    pub fn scale_rows(&mut self, scaling: &[T]) -> (r: Result<(), LetoError>)
        requires
            old(self)@.wf(),
            scaling@.len() == old(self)@.nrows ==> forall|i: int, p: int|
                0 <= i < old(self)@.nrows && old(self)@.row_ptr[i] <= p < old(self)@.row_ptr[i + 1]
                    ==> (#[trigger] old(self)@.values[p]).can_mul(#[trigger] scaling@[i]),
        ensures
            scaling@.len() != old(self)@.nrows ==> (r matches Err(LetoError::ShapeMismatch { lhs, rhs }) && lhs@ == seq![old(self)@.nrows]
                && rhs@ == seq![scaling@.len() as usize]) && final(self)@ == old(self)@,
            scaling@.len() == old(self)@.nrows ==> r is Ok && final(self)@.wf() && final(self)@.row_ptr
                == old(self)@.row_ptr && final(self)@.col_indices == old(self)@.col_indices
                && final(self)@.nrows == old(self)@.nrows && final(self)@.ncols == old(self)@.ncols
                && final(self)@.values.len() == old(self)@.values.len() && forall|i: int, p: int|
                #![trigger final(self)@.values[p], scaling@[i]]
                0 <= i < old(self)@.nrows && old(self)@.row_ptr[i] <= p < old(self)@.row_ptr[i + 1]
                    ==> final(self)@.values[p] == old(self)@.values[p].times(scaling@[i]),
    {
        if scaling.len() != self.nrows {
            return Err(LetoError::ShapeMismatch { lhs: extent(self.nrows), rhs: extent(scaling.len()) });
        }
        let n = self.nrows;
        for row in 0..n
            invariant
                n == self.nrows,
                scaling@.len() == n,
                old(self)@.wf(),
                self.values@.len() == old(self).values@.len(),
                self.col_indices@ == old(self).col_indices@,
                self.row_ptr@ == old(self).row_ptr@,
                self.nrows == old(self).nrows,
                self.ncols == old(self).ncols,
                forall|i: int, p: int|
                    0 <= i < n && old(self)@.row_ptr[i] <= p < old(self)@.row_ptr[i + 1] ==> (
                    #[trigger] old(self)@.values[p]).can_mul(#[trigger] scaling@[i]),
                forall|i: int, p: int|
                    #![trigger self.values@[p], scaling@[i]]
                    0 <= i < row && old(self)@.row_ptr[i] <= p < old(self)@.row_ptr[i + 1]
                        ==> self.values@[p] == old(self)@.values[p].times(scaling@[i]),
                forall|p: int|
                    old(self)@.row_ptr[row as int] <= p < old(self)@.values.len()
                        ==> #[trigger] self.values@[p] == old(self)@.values[p],
        {
            let start = self.row_ptr[row];
            let end = self.row_ptr[row + 1];
            let scale = scaling[row];
            proof {
                assert(self.row_ptr@[row as int] <= self.row_ptr@[row + 1] <= self.row_ptr@[n as int]);
            }
            for p in start..end
                invariant
                    n == self.nrows,
                    scaling@.len() == n,
                    row < n,
                    old(self)@.wf(),
                    start == old(self)@.row_ptr[row as int],
                    end == old(self)@.row_ptr[row + 1],
                    end <= old(self)@.values.len(),
                    scale == scaling@[row as int],
                    self.values@.len() == old(self).values@.len(),
                    self.col_indices@ == old(self).col_indices@,
                    self.row_ptr@ == old(self).row_ptr@,
                    self.nrows == old(self).nrows,
                    self.ncols == old(self).ncols,
                    forall|i: int, q: int|
                        0 <= i < n && old(self)@.row_ptr[i] <= q < old(self)@.row_ptr[i + 1] ==> (
                        #[trigger] old(self)@.values[q]).can_mul(#[trigger] scaling@[i]),
                    forall|i: int, q: int|
                        #![trigger self.values@[q], scaling@[i]]
                        0 <= i < row && old(self)@.row_ptr[i] <= q < old(self)@.row_ptr[i + 1]
                            ==> self.values@[q] == old(self)@.values[q].times(scaling@[i]),
                    forall|q: int| start <= q < p ==> #[trigger] self.values@[q] == old(self)@.values[q].times(scale),
                    forall|q: int|
                        p <= q < old(self)@.values.len() ==> #[trigger] self.values@[q] == old(self)@.values[q],
            {
                proof {
                    assert(old(self)@.values[p as int].can_mul(scaling@[row as int]));
                }
                let v = self.values[p].mul(scale);
                self.values.set(p, v);
            }
            proof {
                assert forall|i: int, q: int|
                    #![trigger self.values@[q], scaling@[i]]
                    0 <= i < row + 1 && old(self)@.row_ptr[i] <= q < old(self)@.row_ptr[i + 1]
                        implies self.values@[q] == old(self)@.values[q].times(scaling@[i]) by {
                    if i < row {
                        assert(old(self)@.row_ptr[i + 1] <= old(self)@.row_ptr[row as int]);
                    }
                }
            }
        }
        Ok(())
    }

    /// Scale each column `j` by `scaling[j]`.
    ///
    /// Fails with `ShapeMismatch { lhs: [ncols], rhs: [scaling.len()] }`, leaving
    /// the matrix unchanged, when the lengths differ.
    pub fn scale_columns(&mut self, scaling: &[T]) -> (r: Result<(), LetoError>)
        requires
            old(self)@.wf(),
            scaling@.len() == old(self)@.ncols ==> forall|p: int|
                0 <= p < old(self)@.values.len() ==> (#[trigger] old(self)@.values[p]).can_mul(
                    scaling@[old(self)@.col_indices[p] as int],
                ),
        ensures
            scaling@.len() != old(self)@.ncols ==> (r matches Err(LetoError::ShapeMismatch { lhs, rhs }) && lhs@ == seq![old(self)@.ncols]
                && rhs@ == seq![scaling@.len() as usize]) && final(self)@ == old(self)@,
            scaling@.len() == old(self)@.ncols ==> r is Ok && final(self)@ == (CsrView {
                values: Seq::new(
                    old(self)@.values.len(),
                    |p: int| old(self)@.values[p].times(scaling@[old(self)@.col_indices[p] as int]),
                ),
                ..old(self)@
            }),
    {
        if scaling.len() != self.ncols {
            return Err(LetoError::ShapeMismatch { lhs: extent(self.ncols), rhs: extent(scaling.len()) });
        }
        let n = self.values.len();
        for p in 0..n
            invariant
                n == self.values.len(),
                n == old(self).values@.len(),
                scaling@.len() == self.ncols,
                old(self)@.wf(),
                self.col_indices@ == old(self).col_indices@,
                self.row_ptr@ == old(self).row_ptr@,
                self.nrows == old(self).nrows,
                self.ncols == old(self).ncols,
                forall|q: int|
                    0 <= q < n ==> (#[trigger] old(self)@.values[q]).can_mul(
                        scaling@[old(self)@.col_indices[q] as int],
                    ),
                forall|q: int|
                    0 <= q < p ==> self.values@[q] == (#[trigger] old(self).values@[q]).times(
                        scaling@[old(self)@.col_indices[q] as int],
                    ),
                forall|q: int| p <= q < n ==> self.values@[q] == #[trigger] old(self).values@[q],
        {
            let column = self.col_indices[p];
            proof {
                assert(column < self.ncols);
                assert(self.values@[p as int] == old(self)@.values[p as int]);
                assert(old(self)@.values[p as int].can_mul(scaling@[column as int]));
            }
            let v = self.values[p].mul(scaling[column]);
            self.values.set(p, v);
        }
        proof {
            assert(self.values@ =~= Seq::new(
                n as nat,
                |p: int| old(self)@.values[p].times(scaling@[old(self)@.col_indices[p] as int]),
            ));
        }
        Ok(())
    }

    /// Whether every row is strictly diagonally dominant by absolute row sum:
    /// `|a_ii| > sum_{j != i} |a_ij|`. Non-square matrices are not.
    pub fn is_strictly_diagonally_dominant(&self) -> (r: bool)
        requires
            self@.wf(),
            forall|i: int| 0 <= i < self@.nrows ==> off_ok(#[trigger] self@.row(i), i as usize),
        ensures
            r == (self@.nrows == self@.ncols && forall|i: int|
                0 <= i < self@.nrows ==> dominant(#[trigger] self@.row(i), i as usize)),
    {
        if self.nrows != self.ncols {
            return false;
        }
        for row in 0..self.nrows
            invariant
                self@.wf(),
                self@.nrows == self@.ncols,
                forall|i: int| 0 <= i < self@.nrows ==> off_ok(#[trigger] self@.row(i), i as usize),
                forall|i: int| 0 <= i < row ==> dominant(#[trigger] self@.row(i), i as usize),
        {
            proof {
                assert(self.row_ptr@[row as int] <= self.row_ptr@[row + 1] <= self.row_ptr@[self.nrows as int]);
                assert(off_ok(self@.row(row as int), row));
            }
            let (diagonal, off) = lane_dominance(
                &self.col_indices,
                &self.values,
                self.row_ptr[row],
                self.row_ptr[row + 1],
                row,
            );
            if diagonal.le(off) {
                return false;
            }
        }
        true
    }

    /// The transpose `A^T`: row `k` of the result lists, by increasing row
    /// index `i` of `A`, the entries `A[i, k]` that `A` stores.
    pub fn transpose(&self) -> (r: Self)
        requires
            self@.wf(),
            self@.ncols < usize::MAX,
        ensures
            r@.wf(),
            r@.nrows == self@.ncols,
            r@.ncols == self@.nrows,
            forall|k: int|
                0 <= k < self@.ncols ==> #[trigger] r@.row(k) == gathered(
                    self@.row_ptr,
                    self@.col_indices,
                    self@.values,
                    k as usize,
                    self@.nrows as int,
                ),
            forall|j: int, i: usize|
                0 <= j < self@.ncols && i < self@.nrows ==> #[trigger] r@.entry(j, i) == self@.entry(
                    i as int,
                    j as usize,
                ),
            r@.values.len() == self@.values.len(),
    {
        let (row_ptr, col_indices, values) = transpose_parts(
            &self.row_ptr,
            &self.col_indices,
            &self.values,
            self.nrows,
            self.ncols,
        );
        let r = CsrMatrix { values, col_indices, row_ptr, nrows: self.ncols, ncols: self.nrows };
        proof {
            lemma_gathered_layout_count(self@.row_ptr, self@.col_indices, self@.values, self@.nrows as int,
                self@.ncols as int, r@.row_ptr, r@.col_indices, r@.values, r@.values.len() as int);
            assert forall|j: int, i: usize| 0 <= j < self@.ncols && i < self@.nrows implies #[trigger] r@.entry(
                j,
                i,
            ) == self@.entry(i as int, j as usize) by {
                lemma_gathered_value(
                    self@.row_ptr,
                    self@.col_indices,
                    self@.values,
                    self@.values.len() as int,
                    self@.nrows as int,
                    self@.ncols as int,
                    j as usize,
                    self@.nrows as int,
                    i,
                );
            }
        }
        r
    }
}


impl<T: Scalar> CsrMatrix<T> {
    /// Compress a dense two-axis array, keeping its nonzero elements.
    pub fn from_dense(matrix: &Tensor<T>) -> (r: Self)
        requires
            matrix@.wf(),
            matrix@.shape.len() == 2,
            matrix@.shape[0] < usize::MAX,
        ensures
            r@.wf(),
            r@.nrows == matrix@.shape[0],
            r@.ncols == matrix@.shape[1],
            forall|i: int| 0 <= i < r@.nrows ==> #[trigger] r@.row(i) == nonzeros(matrix_row(matrix@, i)),
            forall|i: int, j: usize| 0 <= i < r@.nrows && j < r@.ncols ==> #[trigger] r@.entry(i, j) == matrix_at(matrix@, i, j as int),
    {
        let shape = matrix.shape();
        let nrows = shape[0];
        let ncols = shape[1];
        let ghost m = matrix@;
        proof {
            lemma_matrix_lanes(m);
        }
        let lanes = dense_lanes(matrix.data(), nrows, ncols, true);
        let (offsets, indices, values) = flatten(&lanes);
        let r = CsrMatrix::from_valid_parts(values, indices, offsets, nrows, ncols);
        proof {
            r.lemma_view();
            let dense = |i: int| matrix_row(m, i);
            assert forall|k: int| 0 <= k < nrows implies #[trigger] lane(offsets@, indices@, values@, k) == nonzeros(
                dense(k),
            ) by {
                assert(lanes[k]@ == lanes@[k]@);
            }
            lemma_nonzero_lanes_ok(offsets@, indices@, values@, nrows as int, ncols as int, dense);
            assert forall|i: int, j: usize| 0 <= i < m.shape[0] && j < m.shape[1] implies #[trigger] r@.entry(i, j)
                == matrix_at(m, i, j as int) by {
                assert(value_at(lane(r@.row_ptr, r@.col_indices, r@.values, i), j) == matrix_row(m, i)[j as int]);
            }
        }
        r
    }

    /// The dense row-major array of the matrix.
    pub fn to_dense(&self) -> (r: Tensor<T>)
        requires
            self@.wf(),
            self@.nrows * self@.ncols <= usize::MAX,
        ensures
            r@.wf(),
            r@.shape == seq![self@.nrows, self@.ncols],
            forall|i: int, j: int| 0 <= i < self@.nrows && 0 <= j < self@.ncols ==> #[trigger] matrix_at(r@, i, j) == self@.entry(i, j as usize),
    {
        proof {
            self.lemma_view();
        }
        let data = dense_of(&self.row_ptr, &self.col_indices, &self.values, self.nrows, self.ncols, true);
        proof {
            lemma_matrix_layout(0, 0, self.nrows, self.ncols);
        }
        let r = Tensor::from_valid(matrix_shape(self.nrows, self.ncols), data);
        proof {
            lemma_matrix_lanes(r@);
            assert forall|i: int, j: int| 0 <= i < self@.nrows && 0 <= j < self@.ncols implies #[trigger] position(
                i, j, self.nrows as int, self.ncols as int, true) == i * self.ncols + j && position(j, i, self.ncols as int, self.nrows as int, false) == i * self.ncols + j by {
            }
            assert forall|i: int, j: int| 0 <= i < self@.nrows && 0 <= j < self@.ncols implies #[trigger] matrix_at(r@, i, j)
                == self@.entry(i, j as usize) by {
                assert(data@[position(i, j, self.nrows as int, self.ncols as int, true)] == value_at(
                    lane(self@.row_ptr, self@.col_indices, self@.values, i),
                    j as usize,
                ));
            }
        }
        r
    }
}


/// Compressing a dense matrix to CSR and expanding it back gives the
/// matrix: whatever `from_dense` and `to_dense` return, as their contracts
/// state them, composes to the identity.
pub proof fn lemma_csr_dense_round_trip<T: Scalar>(m: TensorView<T>, a: CsrView<T>, d: TensorView<T>)
    requires
        m.wf(),
        m.shape.len() == 2,
        a.nrows == m.shape[0],
        a.ncols == m.shape[1],
        forall|i: int, j: int|
            0 <= i < a.nrows && 0 <= j < a.ncols ==> #[trigger] a.entry(i, j as usize) == matrix_at(m, i, j),
        d.wf(),
        d.shape == seq![a.nrows, a.ncols],
        forall|i: int, j: int|
            0 <= i < a.nrows && 0 <= j < a.ncols ==> #[trigger] matrix_at(d, i, j) == a.entry(i, j as usize),
    ensures
        d == m,
{
    assert(m.shape =~= seq![a.nrows, a.ncols]);
    assert forall|i: int, j: int| 0 <= i < m.shape[0] && 0 <= j < m.shape[1] implies #[trigger] matrix_at(d, i, j)
        == matrix_at(m, i, j) by {
        assert(a.entry(i, j as usize) == matrix_at(m, i, j));
    }
    lemma_matrix_ext(d, m);
}


/// The dense row-major array of a CSR matrix (the bridge to dense kernels).
pub fn csr_to_dense<T: Scalar>(matrix: &CsrMatrix<T>) -> (r: Tensor<T>)
    requires
        matrix@.wf(),
        matrix@.nrows * matrix@.ncols <= usize::MAX,
    ensures
        r@.wf(),
        r@.shape == seq![matrix@.nrows, matrix@.ncols],
        forall|i: int, j: int|
            0 <= i < matrix@.nrows && 0 <= j < matrix@.ncols ==> #[trigger] matrix_at(r@, i, j) == matrix@.entry(
                i,
                j as usize,
            ),
{
    matrix.to_dense()
}


/// Transposing twice gives back every entry: whatever two calls of
/// `transpose` return, as their contracts state them, `(Aᵀ)ᵀ[i, j] == A[i, j]`.
pub proof fn lemma_transpose_involution<T: Scalar>(a: CsrView<T>, t: CsrView<T>, tt: CsrView<T>)
    requires
        t.nrows == a.ncols,
        t.ncols == a.nrows,
        forall|j: int, i: usize| 0 <= j < a.ncols && i < a.nrows ==> #[trigger] t.entry(j, i) == a.entry(i as int, j as usize),
        tt.nrows == t.ncols,
        tt.ncols == t.nrows,
        forall|i: int, j: usize| 0 <= i < t.ncols && j < t.nrows ==> #[trigger] tt.entry(i, j) == t.entry(j as int, i as usize),
    ensures
        tt.nrows == a.nrows,
        tt.ncols == a.ncols,
        forall|i: int, j: usize| 0 <= i < a.nrows && j < a.ncols ==> #[trigger] tt.entry(i, j) == a.entry(i, j),
{
    assert forall|i: int, j: usize| 0 <= i < a.nrows && j < a.ncols implies #[trigger] tt.entry(i, j) == a.entry(i, j) by {
        assert(tt.entry(i, j) == t.entry(j as int, i as usize));
        assert(t.entry(j as int, i as usize) == a.entry(i, j));
    }
}

} // verus!
