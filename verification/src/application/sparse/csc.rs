//! Compressed Sparse Column (CSC) storage — the column-major sparse format.
//!
//! CSC is the column-major analogue of CSR: column `j` occupies positions
//! `col_ptr[j] .. col_ptr[j + 1]` of `(values, row_indices)`.
use vstd::prelude::*;
use crate::domain::error::{extent, LetoError, StorageFault};
use crate::domain::scalar::Scalar;
use crate::application::tensor::{Tensor, TensorView};
use super::dense::{
    dense_lanes, dense_of, lemma_matrix_ext, lemma_matrix_lanes, lemma_matrix_layout, lemma_nonzero_lanes_ok, matrix_at, matrix_column,
    matrix_row, matrix_shape, nonzeros, position,
};
use super::compressed::{flatten, 
    compressed_fault, compressed_ok, copy_vec, diag_mag, dominant, find_fault, find_key, gathered,
    hits, lane, lemma_fault_free_is_valid, lemma_gathered_prefix, lemma_gathered_value, lemma_lane_keyed,
    lemma_off_ok_prefix, lemma_value_at_found, off_ok, off_sum, transpose_parts, value_at,
};
use super::csr::{CsrMatrix, CsrView};
use super::conversions::lemma_from_csr_keeps_nnz;

verus! {

/// Compressed Sparse Column matrix: stores only the `nnz` nonzero entries in
/// column-major order.
///
/// Invariants (checked by [`CscMatrix::from_parts`]): `col_ptr.len() == ncols + 1`,
/// `col_ptr` is non-decreasing with `col_ptr[0] == 0` and
/// `col_ptr[ncols] == values.len()`, `row_indices.len() == values.len()`,
/// every row index is below `nrows`, and row indices strictly increase
/// within each column.
#[derive(Clone, Debug, PartialEq)]
pub struct CscMatrix<T> {
    pub(crate) values: Vec<T>,
    pub(crate) row_indices: Vec<usize>,
    pub(crate) col_ptr: Vec<usize>,
    pub(crate) nrows: usize,
    pub(crate) ncols: usize,
}

/// The mathematical content of a [`CscMatrix`].
pub struct CscView<T> {
    pub values: Seq<T>,
    pub row_indices: Seq<usize>,
    pub col_ptr: Seq<usize>,
    pub nrows: usize,
    pub ncols: usize,
}

impl<T> CscView<T> {
    /// The CSC invariants.
    pub open spec fn wf(self) -> bool {
        &&& compressed_ok(
            self.col_ptr,
            self.row_indices,
            self.values.len() as int,
            self.ncols as int,
            self.nrows as int,
        )
        &&& self.values.len() == self.row_indices.len()
        &&& self.ncols < usize::MAX
    }

    /// The `(row, value)` entries of column `j`, by increasing row.
    pub open spec fn column(self, j: int) -> Seq<(usize, T)> {
        lane(self.col_ptr, self.row_indices, self.values, j)
    }

    /// The `(column, value)` entries of row `i`, by increasing column.
    pub open spec fn row(self, i: usize) -> Seq<(usize, T)> {
        gathered(self.col_ptr, self.row_indices, self.values, i, self.ncols as int)
    }
}

impl<T: Scalar> CscView<T> {
    /// The matrix entry `A[i, j]`: the stored value, or zero when not stored.
    pub open spec fn entry(self, i: usize, j: int) -> T {
        value_at(self.column(j), i)
    }
}

impl<T> View for CscMatrix<T> {
    type V = CscView<T>;

    closed spec fn view(&self) -> CscView<T> {
        CscView {
            values: self.values@,
            row_indices: self.row_indices@,
            col_ptr: self.col_ptr@,
            nrows: self.nrows,
            ncols: self.ncols,
        }
    }
}

/// Borrowed view over one CSC column.
#[derive(Clone, Copy, Debug)]
pub struct CscColumn<'a, T> {
    row_indices: &'a [usize],
    values: &'a [T],
}

impl<'a, T> View for CscColumn<'a, T> {
    type V = (Seq<usize>, Seq<T>);

    closed spec fn view(&self) -> (Seq<usize>, Seq<T>) {
        (self.row_indices@, self.values@)
    }
}

impl<'a, T> CscColumn<'a, T> {
    /// Borrow the column row indices.
    pub fn row_indices(&self) -> (r: &'a [usize])
        ensures
            r@ == self@.0,
    {
        self.row_indices
    }

    /// Borrow the column values.
    pub fn values(&self) -> (r: &'a [T])
        ensures
            r@ == self@.1,
    {
        self.values
    }

    /// Number of stored entries in this column.
    pub fn nnz(&self) -> (r: usize)
        ensures
            r == self@.1.len(),
    {
        self.values.len()
    }
}

impl<T> CscMatrix<T> {
    /// The view lists the stored arrays.
    pub(crate) proof fn lemma_view(&self)
        ensures
            self@ == (CscView {
                values: self.values@,
                row_indices: self.row_indices@,
                col_ptr: self.col_ptr@,
                nrows: self.nrows,
                ncols: self.ncols,
            }),
    {
    }

    /// Assembles a matrix from arrays already known to be valid.
    pub(crate) fn from_valid_parts(
        values: Vec<T>,
        row_indices: Vec<usize>,
        col_ptr: Vec<usize>,
        nrows: usize,
        ncols: usize,
    ) -> (r: Self)
        ensures
            r@ == (CscView { values: values@, row_indices: row_indices@, col_ptr: col_ptr@, nrows, ncols }),
    {
        CscMatrix { values, row_indices, col_ptr, nrows, ncols }
    }

    /// Construct CSC from raw parts, validating the structural invariants.
    ///
    /// Fails with the first violated invariant, in this order: `ncols + 1`
    /// overflows, `col_ptr` length, `row_indices`/`values` lengths, `col_ptr`
    /// endpoints, `col_ptr` monotonicity, row range, strictly increasing rows
    /// within each column.
    pub fn from_parts(
        values: Vec<T>,
        row_indices: Vec<usize>,
        col_ptr: Vec<usize>,
        nrows: usize,
        ncols: usize,
    ) -> (r: Result<Self, LetoError>)
        ensures
            match compressed_fault(
                col_ptr@,
                row_indices@,
                values.len() as int,
                ncols as int,
                nrows as int,
                StorageFault::RowIndexOutOfRange,
            ) {
                Some(fault) => r == Err::<Self, LetoError>(LetoError::StorageError { reason: fault }),
                None => r is Ok && r->Ok_0@ == (CscView {
                    values: values@,
                    row_indices: row_indices@,
                    col_ptr: col_ptr@,
                    nrows,
                    ncols,
                }) && r->Ok_0@.wf(),
            },
    {
        let fault = find_fault(
            &col_ptr,
            &row_indices,
            values.len(),
            ncols,
            nrows,
            StorageFault::RowIndexOutOfRange,
        );
        proof {
            lemma_fault_free_is_valid(
                col_ptr@,
                row_indices@,
                values.len() as int,
                ncols as int,
                nrows as int,
                StorageFault::RowIndexOutOfRange,
            );
        }
        match fault {
            Some(reason) => Err(LetoError::StorageError { reason }),
            None => Ok(CscMatrix { values, row_indices, col_ptr, nrows, ncols }),
        }
    }

    /// Construct an all-zero CSC matrix with shape `(nrows, ncols)`.
    pub fn zeros(nrows: usize, ncols: usize) -> (r: Self)
        requires
            ncols < usize::MAX,
        ensures
            r@.wf(),
            r@.nrows == nrows,
            r@.ncols == ncols,
            r@.values.len() == 0,
            r@.col_ptr == Seq::new((ncols + 1) as nat, |j: int| 0usize),
    {
        let mut col_ptr: Vec<usize> = Vec::new();
        for j in 0..ncols + 1
            invariant
                col_ptr@ == Seq::new(j as nat, |k: int| 0usize),
        {
            col_ptr.push(0);
            proof {
                assert(col_ptr@ =~= Seq::new((j + 1) as nat, |k: int| 0usize));
            }
        }
        let r = CscMatrix { values: Vec::new(), row_indices: Vec::new(), col_ptr, nrows, ncols };
        proof {
            assert(r@.col_ptr[0] == 0);
        }
        r
    }

    /// `(nrows, ncols)`.
    pub fn shape(&self) -> (r: (usize, usize))
        ensures
            r == (self@.nrows, self@.ncols),
    {
        (self.nrows, self.ncols)
    }

    /// Number of stored nonzero entries.
    pub fn nnz(&self) -> (r: usize)
        ensures
            r == self@.values.len(),
    {
        self.values.len()
    }

    /// Number of rows.
    pub fn nrows(&self) -> (r: usize)
        ensures
            r == self@.nrows,
    {
        self.nrows
    }

    /// Number of columns.
    pub fn ncols(&self) -> (r: usize)
        ensures
            r == self@.ncols,
    {
        self.ncols
    }

    /// Borrowed CSC arrays `(values, row_indices, col_ptr)`.
    pub fn as_parts(&self) -> (r: (&[T], &[usize], &[usize]))
        ensures
            r.0@ == self@.values,
            r.1@ == self@.row_indices,
            r.2@ == self@.col_ptr,
    {
        (self.values.as_slice(), self.row_indices.as_slice(), self.col_ptr.as_slice())
    }

    /// CSC column-pointer array.
    pub fn col_ptr(&self) -> (r: &[usize])
        ensures
            r@ == self@.col_ptr,
    {
        self.col_ptr.as_slice()
    }

    /// CSC row-index array.
    pub fn row_indices(&self) -> (r: &[usize])
        ensures
            r@ == self@.row_indices,
    {
        self.row_indices.as_slice()
    }

    /// CSC nonzero value array.
    pub fn values(&self) -> (r: &[T])
        ensures
            r@ == self@.values,
    {
        self.values.as_slice()
    }

    /// Borrow one matrix column in CSC form.
    pub fn column(&self, col: usize) -> (r: CscColumn<'_, T>)
        requires
            self@.wf(),
            col < self@.ncols,
        ensures
            r@.0 == self@.row_indices.subrange(
                self@.col_ptr[col as int] as int,
                self@.col_ptr[col + 1] as int,
            ),
            r@.1 == self@.values.subrange(
                self@.col_ptr[col as int] as int,
                self@.col_ptr[col + 1] as int,
            ),
    {
        let start = self.col_ptr[col];
        let end = self.col_ptr[col + 1];
        proof {
            assert(self.col_ptr@[col as int] <= self.col_ptr@[col + 1] <= self.col_ptr@[self.ncols as int]);
        }
        CscColumn {
            row_indices: &self.row_indices.as_slice()[start..end],
            values: &self.values.as_slice()[start..end],
        }
    }

    /// Mutably borrow the stored nonzero values; the sparsity structure
    /// cannot change through it.
    pub fn values_mut(&mut self) -> (r: &mut [T])
        ensures
            r@ == old(self)@.values,
            final(self)@ == (CscView { values: final(r)@, ..old(self)@ }),
    {
        self.values.as_mut_slice()
    }
}

impl<T: Scalar> CscMatrix<T> {
    /// Build the CSC form of the matrix a CSR matrix holds (`O(nnz)`): column
    /// `j` lists, by increasing row `i`, the entries `A[i, j]` the CSR stores.
    pub fn from_csr(csr: &CsrMatrix<T>) -> (r: Self)
        requires
            csr@.wf(),
            csr@.ncols < usize::MAX,
        ensures
            r@.wf(),
            r@.nrows == csr@.nrows,
            r@.ncols == csr@.ncols,
            forall|j: int|
                0 <= j < csr@.ncols ==> #[trigger] r@.column(j) == gathered(
                    csr@.row_ptr,
                    csr@.col_indices,
                    csr@.values,
                    j as usize,
                    csr@.nrows as int,
                ),
            forall|i: usize, j: int|
                i < csr@.nrows && 0 <= j < csr@.ncols ==> #[trigger] r@.entry(i, j) == csr@.entry(
                    i as int,
                    j as usize,
                ),
            r@.values.len() == csr@.values.len(),
    {
        proof {
            csr.lemma_view();
        }
        let (col_ptr, row_indices, values) = transpose_parts(
            &csr.row_ptr,
            &csr.col_indices,
            &csr.values,
            csr.nrows,
            csr.ncols,
        );
        let r = CscMatrix { values, row_indices, col_ptr, nrows: csr.nrows, ncols: csr.ncols };
        proof {
            Self::lemma_from_csr_entries(csr@, r@);
            lemma_from_csr_keeps_nnz(csr@, r@);
        }
        r
    }
}

impl<T: Scalar> CscMatrix<T> {
    /// Converting from CSR preserves every matrix entry.
    proof fn lemma_from_csr_entries(csr: CsrView<T>, csc: CscView<T>)
        requires
            csr.wf(),
            csc.nrows == csr.nrows,
            csc.ncols == csr.ncols,
            forall|j: int|
                0 <= j < csr.ncols ==> #[trigger] csc.column(j) == gathered(
                    csr.row_ptr,
                    csr.col_indices,
                    csr.values,
                    j as usize,
                    csr.nrows as int,
                ),
        ensures
            forall|i: usize, j: int|
                i < csr.nrows && 0 <= j < csr.ncols ==> #[trigger] csc.entry(i, j) == csr.entry(
                    i as int,
                    j as usize,
                ),
    {
        assert forall|i: usize, j: int| i < csr.nrows && 0 <= j < csr.ncols implies #[trigger] csc.entry(
            i,
            j,
        ) == csr.entry(i as int, j as usize) by {
            lemma_gathered_value(
                csr.row_ptr,
                csr.col_indices,
                csr.values,
                csr.values.len() as int,
                csr.nrows as int,
                csr.ncols as int,
                j as usize,
                csr.nrows as int,
                i,
            );
        }
    }

    /// The transpose `A^T` as a CSR matrix. The CSC arrays of `A` are exactly
    /// the CSR arrays of `A^T`, so row `j` of the result is column `j` of `A`.
    pub fn transpose(&self) -> (r: CsrMatrix<T>)
        requires
            self@.wf(),
        ensures
            r@ == (CsrView {
                values: self@.values,
                col_indices: self@.row_indices,
                row_ptr: self@.col_ptr,
                nrows: self@.ncols,
                ncols: self@.nrows,
            }),
            r@.wf(),
            forall|j: int, i: usize|
                0 <= j < self@.ncols && i < self@.nrows ==> #[trigger] r@.entry(j, i) == self@.entry(i, j),
    {
        CsrMatrix::from_valid_parts(
            copy_vec(&self.values),
            copy_vec(&self.row_indices),
            copy_vec(&self.col_ptr),
            self.ncols,
            self.nrows,
        )
    }

    /// Convert to CSR by transposition (delegates to [`transpose`](Self::transpose)).
    pub fn to_csr(&self) -> (r: CsrMatrix<T>)
        requires
            self@.wf(),
        ensures
            r@ == (CsrView {
                values: self@.values,
                col_indices: self@.row_indices,
                row_ptr: self@.col_ptr,
                nrows: self@.ncols,
                ncols: self@.nrows,
            }),
            r@.wf(),
    {
        self.transpose()
    }
}


impl<T: Scalar> CscMatrix<T> {
    /// Extract the diagonal `A[j, j]`, `j < min(nrows, ncols)`, as a dense vector.
    pub fn diagonal(&self) -> (r: Vec<T>)
        requires
            self@.wf(),
        ensures
            r.len() == if self@.nrows < self@.ncols { self@.nrows } else { self@.ncols },
            forall|j: int| 0 <= j < r.len() ==> r@[j] == #[trigger] self@.entry(j as usize, j),
    {
        let n = if self.nrows < self.ncols { self.nrows } else { self.ncols };
        let mut diag: Vec<T> = Vec::new();
        for col in 0..n
            invariant
                self@.wf(),
                n <= self.ncols,
                diag.len() == col,
                forall|j: int| 0 <= j < col ==> diag@[j] == #[trigger] self@.entry(j as usize, j),
        {
            proof {
                assert(self.col_ptr@[col as int] <= self.col_ptr@[col + 1] <= self.col_ptr@[self.ncols as int]);
                lemma_lane_keyed(
                    self.col_ptr@,
                    self.row_indices@,
                    self.values@,
                    self.values.len() as int,
                    self.ncols as int,
                    self.nrows as int,
                    col as int,
                );
            }
            let start = self.col_ptr[col];
            let end = self.col_ptr[col + 1];
            let ghost s = self@.column(col as int);
            match find_key(&self.row_indices, start, end, col) {
                Some(p) => {
                    proof {
                        assert(s[p - start].0 == col);
                        lemma_value_at_found(s, self.nrows as int, p - start);
                    }
                    diag.push(self.values[p]);
                },
                None => {
                    proof {
                        assert(!exists|a: int| 0 <= a < s.len() && (#[trigger] s[a]).0 == col) by {
                            assert forall|a: int| 0 <= a < s.len() implies (#[trigger] s[a]).0 != col by {
                                assert(s[a].0 == self.row_indices@[start + a]);
                            }
                        }
                    }
                    diag.push(T::zero());
                },
            }
        }
        diag
    }

    /// Scale every stored value by `factor`; the structure is unchanged.
    pub fn scale_values(&mut self, factor: T)
        requires
            forall|p: int| 0 <= p < old(self)@.values.len() ==> (#[trigger] old(self)@.values[p]).can_mul(factor),
        ensures
            final(self)@ == (CscView {
                values: Seq::new(old(self)@.values.len(), |p: int| old(self)@.values[p].times(factor)),
                ..old(self)@
            }),
    {
        let n = self.values.len();
        for p in 0..n
            invariant
                n == self.values.len(),
                self.row_indices@ == old(self).row_indices@,
                self.col_ptr@ == old(self).col_ptr@,
                self.nrows == old(self).nrows,
                self.ncols == old(self).ncols,
                n == old(self).values@.len(),
                forall|q: int| 0 <= q < n ==> (#[trigger] old(self)@.values[q]).can_mul(factor),
                forall|q: int| 0 <= q < p ==> self.values@[q] == (#[trigger] old(self)@.values[q]).times(factor),
                forall|q: int| p <= q < n ==> self.values@[q] == #[trigger] old(self)@.values[q],
        {
            proof {
                assert(self.values@[p as int] == old(self)@.values[p as int]);
            }
            let v = self.values[p].mul(factor);
            self.values.set(p, v);
        }
        proof {
            assert(self.values@ =~= Seq::new(n as nat, |p: int| old(self)@.values[p].times(factor)));
        }
    }

    /// Scale each row `i` by `scaling[i]`.
    ///
    /// Fails with `ShapeMismatch { lhs: [nrows], rhs: [scaling.len()] }`, leaving
    /// the matrix unchanged, when the lengths differ.
    pub fn scale_rows(&mut self, scaling: &[T]) -> (r: Result<(), LetoError>)
        requires
            old(self)@.wf(),
            scaling@.len() == old(self)@.nrows ==> forall|p: int|
                0 <= p < old(self)@.values.len() ==> (#[trigger] old(self)@.values[p]).can_mul(
                    scaling@[old(self)@.row_indices[p] as int],
                ),
        ensures
            scaling@.len() != old(self)@.nrows ==> (r matches Err(LetoError::ShapeMismatch { lhs, rhs }) && lhs@ == seq![old(self)@.nrows]
                && rhs@ == seq![scaling@.len() as usize]) && final(self)@ == old(self)@,
            scaling@.len() == old(self)@.nrows ==> r is Ok && final(self)@ == (CscView {
                values: Seq::new(
                    old(self)@.values.len(),
                    |p: int| old(self)@.values[p].times(scaling@[old(self)@.row_indices[p] as int]),
                ),
                ..old(self)@
            }),
    {
        if scaling.len() != self.nrows {
            return Err(LetoError::ShapeMismatch { lhs: extent(self.nrows), rhs: extent(scaling.len()) });
        }
        let n = self.values.len();
        for p in 0..n
            invariant
                n == self.values.len(),
                n == old(self).values@.len(),
                scaling@.len() == self.nrows,
                old(self)@.wf(),
                self.row_indices@ == old(self).row_indices@,
                self.col_ptr@ == old(self).col_ptr@,
                self.nrows == old(self).nrows,
                self.ncols == old(self).ncols,
                forall|q: int|
                    0 <= q < n ==> (#[trigger] old(self)@.values[q]).can_mul(
                        scaling@[old(self)@.row_indices[q] as int],
                    ),
                forall|q: int|
                    0 <= q < p ==> self.values@[q] == (#[trigger] old(self)@.values[q]).times(
                        scaling@[old(self)@.row_indices[q] as int],
                    ),
                forall|q: int| p <= q < n ==> self.values@[q] == #[trigger] old(self)@.values[q],
        {
            let row = self.row_indices[p];
            proof {
                assert(row < self.nrows);
                assert(self.values@[p as int] == old(self)@.values[p as int]);
                assert(old(self)@.values[p as int].can_mul(scaling@[row as int]));
            }
            let v = self.values[p].mul(scaling[row]);
            self.values.set(p, v);
        }
        proof {
            assert(self.values@ =~= Seq::new(
                n as nat,
                |p: int| old(self)@.values[p].times(scaling@[old(self)@.row_indices[p] as int]),
            ));
        }
        Ok(())
    }

    /// Scale each column `j` by `scaling[j]`.
    ///
    /// Fails with `ShapeMismatch { lhs: [ncols], rhs: [scaling.len()] }`, leaving
    /// the matrix unchanged, when the lengths differ.
    pub fn scale_columns(&mut self, scaling: &[T]) -> (r: Result<(), LetoError>)
        requires
            old(self)@.wf(),
            scaling@.len() == old(self)@.ncols ==> forall|j: int, p: int|
                0 <= j < old(self)@.ncols && old(self)@.col_ptr[j] <= p < old(self)@.col_ptr[j + 1]
                    ==> (#[trigger] old(self)@.values[p]).can_mul(#[trigger] scaling@[j]),
        ensures
            scaling@.len() != old(self)@.ncols ==> (r matches Err(LetoError::ShapeMismatch { lhs, rhs }) && lhs@ == seq![old(self)@.ncols]
                && rhs@ == seq![scaling@.len() as usize]) && final(self)@ == old(self)@,
            scaling@.len() == old(self)@.ncols ==> r is Ok && final(self)@.wf() && final(self)@.col_ptr
                == old(self)@.col_ptr && final(self)@.row_indices == old(self)@.row_indices
                && final(self)@.nrows == old(self)@.nrows && final(self)@.ncols == old(self)@.ncols
                && final(self)@.values.len() == old(self)@.values.len() && forall|j: int, p: int|
                #![trigger final(self)@.values[p], scaling@[j]]
                0 <= j < old(self)@.ncols && old(self)@.col_ptr[j] <= p < old(self)@.col_ptr[j + 1]
                    ==> final(self)@.values[p] == old(self)@.values[p].times(scaling@[j]),
    {
        if scaling.len() != self.ncols {
            return Err(LetoError::ShapeMismatch { lhs: extent(self.ncols), rhs: extent(scaling.len()) });
        }
        let n = self.ncols;
        for col in 0..n
            invariant
                n == self.ncols,
                scaling@.len() == n,
                old(self)@.wf(),
                self.values@.len() == old(self).values@.len(),
                self.row_indices@ == old(self).row_indices@,
                self.col_ptr@ == old(self).col_ptr@,
                self.nrows == old(self).nrows,
                self.ncols == old(self).ncols,
                forall|j: int, p: int|
                    0 <= j < n && old(self)@.col_ptr[j] <= p < old(self)@.col_ptr[j + 1] ==> (
                    #[trigger] old(self)@.values[p]).can_mul(#[trigger] scaling@[j]),
                forall|j: int, p: int|
                    #![trigger self.values@[p], scaling@[j]]
                    0 <= j < col && old(self)@.col_ptr[j] <= p < old(self)@.col_ptr[j + 1]
                        ==> self.values@[p] == old(self)@.values[p].times(scaling@[j]),
                forall|p: int|
                    old(self)@.col_ptr[col as int] <= p < old(self)@.values.len()
                        ==> #[trigger] self.values@[p] == old(self)@.values[p],
        {
            let start = self.col_ptr[col];
            let end = self.col_ptr[col + 1];
            let scale = scaling[col];
            proof {
                assert(self.col_ptr@[col as int] <= self.col_ptr@[col + 1] <= self.col_ptr@[n as int]);
            }
            for p in start..end
                invariant
                    n == self.ncols,
                    scaling@.len() == n,
                    col < n,
                    old(self)@.wf(),
                    start == old(self)@.col_ptr[col as int],
                    end == old(self)@.col_ptr[col + 1],
                    end <= old(self)@.values.len(),
                    scale == scaling@[col as int],
                    self.values@.len() == old(self).values@.len(),
                    self.row_indices@ == old(self).row_indices@,
                    self.col_ptr@ == old(self).col_ptr@,
                    self.nrows == old(self).nrows,
                    self.ncols == old(self).ncols,
                    forall|j: int, q: int|
                        0 <= j < n && old(self)@.col_ptr[j] <= q < old(self)@.col_ptr[j + 1] ==> (
                        #[trigger] old(self)@.values[q]).can_mul(#[trigger] scaling@[j]),
                    forall|j: int, q: int|
                        #![trigger self.values@[q], scaling@[j]]
                        0 <= j < col && old(self)@.col_ptr[j] <= q < old(self)@.col_ptr[j + 1]
                            ==> self.values@[q] == old(self)@.values[q].times(scaling@[j]),
                    forall|q: int| start <= q < p ==> #[trigger] self.values@[q] == old(self)@.values[q].times(scale),
                    forall|q: int|
                        p <= q < old(self)@.values.len() ==> #[trigger] self.values@[q] == old(self)@.values[q],
            {
                proof {
                    assert(old(self)@.values[p as int].can_mul(scaling@[col as int]));
                }
                let v = self.values[p].mul(scale);
                self.values.set(p, v);
            }
            proof {
                assert forall|j: int, q: int|
                    #![trigger self.values@[q], scaling@[j]]
                    0 <= j < col + 1 && old(self)@.col_ptr[j] <= q < old(self)@.col_ptr[j + 1]
                        implies self.values@[q] == old(self)@.values[q].times(scaling@[j]) by {
                    if j < col {
                        assert(old(self)@.col_ptr[j + 1] <= old(self)@.col_ptr[col as int]);
                    }
                }
            }
        }
        Ok(())
    }

    /// Whether every row is strictly diagonally dominant by absolute row sum:
    /// `|a_ii| > sum_{j != i} |a_ij|`, the row read across all columns in
    /// order. Non-square matrices are not.
    pub fn is_strictly_diagonally_dominant(&self) -> (r: bool)
        requires
            self@.wf(),
            forall|i: usize| i < self@.nrows ==> off_ok(#[trigger] self@.row(i), i),
        ensures
            r == (self@.nrows == self@.ncols && forall|i: usize|
                i < self@.nrows ==> dominant(#[trigger] self@.row(i), i)),
    {
        if self.nrows != self.ncols {
            return false;
        }
        for row in 0..self.nrows
            invariant
                self@.wf(),
                self@.nrows == self@.ncols,
                forall|i: usize| i < self@.nrows ==> off_ok(#[trigger] self@.row(i), i),
                forall|i: usize| i < row ==> dominant(#[trigger] self@.row(i), i),
        {
            let (diagonal, off) = self.row_dominance(row);
            if diagonal.le(off) {
                return false;
            }
        }
        true
    }

    /// `(diag_mag, off_sum)` of row `row`, scanning every column in order.
    fn row_dominance(&self, row: usize) -> (r: (T, T))
        requires
            self@.wf(),
            row < self@.nrows,
            off_ok(self@.row(row), row),
        ensures
            r.0 == diag_mag(self@.row(row), row),
            r.1 == off_sum(self@.row(row), row),
    {
        let ghost cp = self.col_ptr@;
        let ghost ri = self.row_indices@;
        let ghost vs = self.values@;
        let mut diagonal = T::zero();
        let mut off = T::zero();
        for col in 0..self.ncols
            invariant
                self@.wf(),
                row < self@.nrows,
                cp == self.col_ptr@,
                ri == self.row_indices@,
                vs == self.values@,
                off_ok(self@.row(row), row),
                diagonal == diag_mag(gathered(cp, ri, vs, row, col as int), row),
                off == off_sum(gathered(cp, ri, vs, row, col as int), row),
        {
            let start = self.col_ptr[col];
            let end = self.col_ptr[col + 1];
            proof {
                assert(cp[col as int] <= cp[col + 1] <= cp[self.ncols as int]);
            }
            let ghost l = lane(cp, ri, vs, col as int);
            for p in start..end
                invariant
                    self@.wf(),
                    row < self@.nrows,
                    col < self.ncols,
                    cp == self.col_ptr@,
                    ri == self.row_indices@,
                    vs == self.values@,
                    start == cp[col as int],
                    end == cp[col + 1],
                    end <= vs.len(),
                    l == lane(cp, ri, vs, col as int),
                    off_ok(self@.row(row), row),
                    diagonal == diag_mag(
                        gathered(cp, ri, vs, row, col as int) + hits(l.take(p - start), row, col),
                        row,
                    ),
                    off == off_sum(
                        gathered(cp, ri, vs, row, col as int) + hits(l.take(p - start), row, col),
                        row,
                    ),
            {
                let ghost t = (p - start) as int;
                let ghost g = gathered(cp, ri, vs, row, col as int);
                let ghost before = g + hits(l.take(t), row, col);
                proof {
                    assert(l.take(t + 1).drop_last() =~= l.take(t));
                    assert(l.take(t + 1).last() == l[t]);
                }
                if self.row_indices[p] == row {
                    let ghost after = g + hits(l.take(t + 1), row, col);
                    proof {
                        assert(after =~= before.push((col, vs[p as int])));
                        assert(after.drop_last() =~= before);
                        lemma_gathered_prefix(cp, ri, vs, row, col as int, t + 1, self.ncols as int);
                        lemma_off_ok_prefix(self@.row(row), row, after.len() as int);
                        assert(self@.row(row).take(after.len() as int) == after);
                    }
                    let magnitude = self.values[p].abs();
                    if col == row {
                        diagonal = magnitude;
                    } else {
                        off = off.add(magnitude);
                    }
                } else {
                    proof {
                        assert(g + hits(l.take(t + 1), row, col) =~= before);
                    }
                }
            }
            proof {
                assert(l.take(end - start) =~= l);
            }
        }
        (diagonal, off)
    }
}


impl<T: Scalar> CscMatrix<T> {
    /// Compress a dense two-axis array, keeping its nonzero elements.
    pub fn from_dense(matrix: &Tensor<T>) -> (r: Self)
        requires
            matrix@.wf(),
            matrix@.shape.len() == 2,
            matrix@.shape[1] < usize::MAX,
        ensures
            r@.wf(),
            r@.nrows == matrix@.shape[0],
            r@.ncols == matrix@.shape[1],
            forall|j: int| 0 <= j < r@.ncols ==> #[trigger] r@.column(j) == nonzeros(matrix_column(matrix@, j)),
            forall|i: usize, j: int| i < r@.nrows && 0 <= j < r@.ncols ==> #[trigger] r@.entry(i, j) == matrix_at(matrix@, i as int, j),
    {
        let shape = matrix.shape();
        let nrows = shape[0];
        let ncols = shape[1];
        let ghost m = matrix@;
        proof {
            lemma_matrix_lanes(m);
        }
        let lanes = dense_lanes(matrix.data(), ncols, nrows, false);
        let (offsets, indices, values) = flatten(&lanes);
        let r = CscMatrix::from_valid_parts(values, indices, offsets, nrows, ncols);
        proof {
            r.lemma_view();
            let dense = |j: int| matrix_column(m, j);
            assert forall|k: int| 0 <= k < ncols implies #[trigger] lane(offsets@, indices@, values@, k) == nonzeros(
                dense(k),
            ) by {
                assert(lanes[k]@ == lanes@[k]@);
            }
            lemma_nonzero_lanes_ok(offsets@, indices@, values@, ncols as int, nrows as int, dense);
            assert forall|i: usize, j: int| i < m.shape[0] && 0 <= j < m.shape[1] implies #[trigger] r@.entry(i, j)
                == matrix_at(m, i as int, j) by {
                assert(value_at(lane(r@.col_ptr, r@.row_indices, r@.values, j), i) == matrix_column(m, j)[i as int]);
            }
        }
        r
    }

    /// The dense row-major array of the matrix.
    pub fn to_dense(&self) -> (r: Tensor<T>)
        requires
            self@.wf(),
            self@.nrows * self@.ncols <= usize::MAX,
        ensures
            r@.wf(),
            r@.shape == seq![self@.nrows, self@.ncols],
            forall|i: int, j: int| 0 <= i < self@.nrows && 0 <= j < self@.ncols ==> #[trigger] matrix_at(r@, i, j) == self@.entry(i as usize, j),
    {
        proof {
            self.lemma_view();
            assert(self.ncols * self.nrows == self.nrows * self.ncols) by (nonlinear_arith);
        }
        let data = dense_of(&self.col_ptr, &self.row_indices, &self.values, self.ncols, self.nrows, false);
        proof {
            lemma_matrix_layout(0, 0, self.nrows, self.ncols);
        }
        let r = Tensor::from_valid(matrix_shape(self.nrows, self.ncols), data);
        proof {
            lemma_matrix_lanes(r@);
            assert forall|i: int, j: int| 0 <= i < self@.nrows && 0 <= j < self@.ncols implies #[trigger] position(
                i, j, self.nrows as int, self.ncols as int, true) == i * self.ncols + j && position(j, i, self.ncols as int, self.nrows as int, false) == i * self.ncols + j by {
            }
            assert forall|i: int, j: int| 0 <= i < self@.nrows && 0 <= j < self@.ncols implies #[trigger] matrix_at(r@, i, j)
                == self@.entry(i as usize, j) by {
                assert(data@[position(j, i, self.ncols as int, self.nrows as int, false)] == value_at(
                    lane(self@.col_ptr, self@.row_indices, self@.values, j),
                    i as usize,
                ));
            }
        }
        r
    }
}


/// Compressing a dense matrix to CSC and expanding it back gives the
/// matrix: whatever `from_dense` and `to_dense` return, as their contracts
/// state them, composes to the identity.
pub proof fn lemma_csc_dense_round_trip<T: Scalar>(m: TensorView<T>, a: CscView<T>, d: TensorView<T>)
    requires
        m.wf(),
        m.shape.len() == 2,
        a.nrows == m.shape[0],
        a.ncols == m.shape[1],
        forall|i: int, j: int|
            0 <= i < a.nrows && 0 <= j < a.ncols ==> #[trigger] a.entry(i as usize, j) == matrix_at(m, i, j),
        d.wf(),
        d.shape == seq![a.nrows, a.ncols],
        forall|i: int, j: int|
            0 <= i < a.nrows && 0 <= j < a.ncols ==> #[trigger] matrix_at(d, i, j) == a.entry(i as usize, j),
    ensures
        d == m,
{
    assert(m.shape =~= seq![a.nrows, a.ncols]);
    assert forall|i: int, j: int| 0 <= i < m.shape[0] && 0 <= j < m.shape[1] implies #[trigger] matrix_at(d, i, j)
        == matrix_at(m, i, j) by {
        assert(a.entry(i as usize, j) == matrix_at(m, i, j));
    }
    lemma_matrix_ext(d, m);
}

} // verus!
