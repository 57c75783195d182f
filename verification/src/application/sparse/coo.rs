//! Coordinate-list (COO) storage — the assembly-facing sparse format.
//!
//! COO holds an unordered list of `(row, col, value)` triplets; duplicates at
//! the same `(i, j)` are permitted and accumulate when the list is compressed
//! with [`to_csr`](CooMatrix::to_csr) or [`to_csc`](CooMatrix::to_csc).
use vstd::prelude::*;
use crate::domain::error::{LetoError, StorageFault};
use crate::domain::scalar::Scalar;
use super::compressed::{
    assembled, compress, duplicates, lemma_assembled_value, lemma_duplicates_swap, lemma_matching_prefix,
    lemma_picked_positions, lemma_total_ok_prefix, lane, matching, sums_ok, total, total_ok,
};
use crate::application::tensor::Tensor;
use super::dense::{
    lemma_assembled_is_nonzeros, lemma_lanes_determine, lemma_matrix_lanes, lemma_matrix_layout, lemma_position,
    matrix_at, matrix_row, matrix_shape, nonzeros, position,
};
use super::csr::CsrView;
use crate::application::tensor::TensorView;
use super::csc::CscMatrix;
use super::conversions::lemma_assembled_layout_count;
use super::csr::CsrMatrix;

verus! {

/// Coordinate-list sparse matrix: an unordered, duplicate-tolerant triplet
/// list for assembly.
#[derive(Clone, Debug, PartialEq)]
pub struct CooMatrix<T> {
    row_indices: Vec<usize>,
    col_indices: Vec<usize>,
    values: Vec<T>,
    nrows: usize,
    ncols: usize,
}

/// The mathematical content of a [`CooMatrix`].
pub struct CooView<T> {
    pub row_indices: Seq<usize>,
    pub col_indices: Seq<usize>,
    pub values: Seq<T>,
    pub nrows: usize,
    pub ncols: usize,
}

impl<T> CooView<T> {
    /// The triplet arrays are parallel and every index is in range.
    pub open spec fn wf(self) -> bool {
        &&& self.row_indices.len() == self.values.len()
        &&& self.col_indices.len() == self.values.len()
        &&& forall|p: int| 0 <= p < self.values.len() ==> #[trigger] self.row_indices[p] < self.nrows
        &&& forall|p: int| 0 <= p < self.values.len() ==> #[trigger] self.col_indices[p] < self.ncols
    }
}

impl<T: Scalar> CooView<T> {
    /// The assembled entry `A[i, j]`: the sum of the triplets at `(i, j)` in
    /// triplet order (zero when there are none).
    pub open spec fn entry(self, i: usize, j: usize) -> T {
        total(duplicates(self.row_indices, self.col_indices, self.values, i, j))
    }
}

impl<T> View for CooMatrix<T> {
    type V = CooView<T>;

    closed spec fn view(&self) -> CooView<T> {
        CooView {
            row_indices: self.row_indices@,
            col_indices: self.col_indices@,
            values: self.values@,
            nrows: self.nrows,
            ncols: self.ncols,
        }
    }
}

impl<T> CooMatrix<T> {
    /// An empty `nrows × ncols` matrix ready for assembly.
    pub fn new(nrows: usize, ncols: usize) -> (r: Self)
        ensures
            r@.wf(),
            r@.nrows == nrows,
            r@.ncols == ncols,
            r@.values.len() == 0,
    {
        CooMatrix {
            row_indices: Vec::new(),
            col_indices: Vec::new(),
            values: Vec::new(),
            nrows,
            ncols,
        }
    }

    /// An empty matrix pre-sized for `cap` triplets.
    pub fn with_capacity(nrows: usize, ncols: usize, cap: usize) -> (r: Self)
        ensures
            r@.wf(),
            r@.nrows == nrows,
            r@.ncols == ncols,
            r@.values.len() == 0,
    {
        CooMatrix {
            row_indices: Vec::with_capacity(cap),
            col_indices: Vec::with_capacity(cap),
            values: Vec::with_capacity(cap),
            nrows,
            ncols,
        }
    }

    /// Append a `(row, col, value)` contribution. Duplicates accumulate on
    /// compression.
    pub fn push(&mut self, row: usize, col: usize, value: T)
        requires
            old(self)@.wf(),
            row < old(self)@.nrows,
            col < old(self)@.ncols,
        ensures
            final(self)@ == (CooView {
                row_indices: old(self)@.row_indices.push(row),
                col_indices: old(self)@.col_indices.push(col),
                values: old(self)@.values.push(value),
                ..old(self)@
            }),
            final(self)@.wf(),
    {
        self.row_indices.push(row);
        self.col_indices.push(col);
        self.values.push(value);
        proof {
            let v = self@;
            assert forall|p: int| 0 <= p < v.values.len() implies #[trigger] v.row_indices[p] < v.nrows by {
                if p < old(self)@.values.len() {
                    assert(v.row_indices[p] == old(self)@.row_indices[p]);
                }
            }
            assert forall|p: int| 0 <= p < v.values.len() implies #[trigger] v.col_indices[p] < v.ncols by {
                if p < old(self)@.values.len() {
                    assert(v.col_indices[p] == old(self)@.col_indices[p]);
                }
            }
        }
    }

    /// Build from parallel triplet arrays, validating them.
    ///
    /// Fails with `LengthMismatch` when the three arrays differ in length,
    /// otherwise with `RowIndexOutOfRange` when a row index is not below
    /// `nrows`, otherwise with `ColumnIndexOutOfRange` when a column index is
    /// not below `ncols`.
    pub fn from_triplets(
        nrows: usize,
        ncols: usize,
        row_indices: Vec<usize>,
        col_indices: Vec<usize>,
        values: Vec<T>,
    ) -> (r: Result<Self, LetoError>)
        ensures
            row_indices.len() != values.len() || col_indices.len() != values.len() ==> r == Err::<
                Self,
                LetoError,
            >(LetoError::StorageError { reason: StorageFault::LengthMismatch }),
            row_indices.len() == values.len() && col_indices.len() == values.len() && (exists|p: int|
                0 <= p < values.len() && #[trigger] row_indices@[p] >= nrows) ==> r == Err::<
                Self,
                LetoError,
            >(LetoError::StorageError { reason: StorageFault::RowIndexOutOfRange }),
            row_indices.len() == values.len() && col_indices.len() == values.len() && (forall|p: int|
                0 <= p < values.len() ==> #[trigger] row_indices@[p] < nrows) && (exists|p: int|
                0 <= p < values.len() && #[trigger] col_indices@[p] >= ncols) ==> r == Err::<
                Self,
                LetoError,
            >(LetoError::StorageError { reason: StorageFault::ColumnIndexOutOfRange }),
            r is Ok ==> r->Ok_0@ == (CooView {
                row_indices: row_indices@,
                col_indices: col_indices@,
                values: values@,
                nrows,
                ncols,
            }) && r->Ok_0@.wf(),
            (CooView { row_indices: row_indices@, col_indices: col_indices@, values: values@, nrows, ncols }).wf()
                ==> r is Ok,
    {
        if row_indices.len() != values.len() || col_indices.len() != values.len() {
            return Err(LetoError::StorageError { reason: StorageFault::LengthMismatch });
        }
        for p in 0..row_indices.len()
            invariant
                row_indices.len() == values.len(),
                col_indices.len() == values.len(),
                forall|q: int| 0 <= q < p ==> #[trigger] row_indices@[q] < nrows,
        {
            if row_indices[p] >= nrows {
                return Err(LetoError::StorageError { reason: StorageFault::RowIndexOutOfRange });
            }
        }
        for p in 0..col_indices.len()
            invariant
                row_indices.len() == values.len(),
                col_indices.len() == values.len(),
                forall|q: int| 0 <= q < values.len() ==> #[trigger] row_indices@[q] < nrows,
                forall|q: int| 0 <= q < p ==> #[trigger] col_indices@[q] < ncols,
        {
            if col_indices[p] >= ncols {
                return Err(LetoError::StorageError { reason: StorageFault::ColumnIndexOutOfRange });
            }
        }
        Ok(CooMatrix { row_indices, col_indices, values, nrows, ncols })
    }

    /// `(nrows, ncols)`.
    pub fn shape(&self) -> (r: (usize, usize))
        ensures
            r == (self@.nrows, self@.ncols),
    {
        (self.nrows, self.ncols)
    }

    /// Number of stored triplets (before duplicate accumulation).
    pub fn len(&self) -> (r: usize)
        ensures
            r == self@.values.len(),
    {
        self.values.len()
    }

    /// Whether no triplets have been pushed.
    pub fn is_empty(&self) -> (r: bool)
        ensures
            r == (self@.values.len() == 0),
    {
        self.values.len() == 0
    }
}

impl<T: Scalar> CooMatrix<T> {
    /// Compress to CSR, summing duplicate `(i, j)` triplets in triplet order
    /// and dropping sums equal to zero: row `i` lists, by increasing column,
    /// each nonzero assembled entry.
    pub fn to_csr(&self) -> (r: CsrMatrix<T>)
        requires
            self@.wf(),
            self@.nrows < usize::MAX,
            sums_ok(
                self@.row_indices,
                self@.col_indices,
                self@.values,
                self@.nrows as int,
                self@.ncols as int,
            ),
        ensures
            r@.wf(),
            r@.nrows == self@.nrows,
            r@.ncols == self@.ncols,
            forall|i: int|
                0 <= i < self@.nrows ==> #[trigger] r@.row(i) == assembled(
                    self@.row_indices,
                    self@.col_indices,
                    self@.values,
                    i as usize,
                    self@.ncols as int,
                ),
            forall|i: int, j: usize|
                0 <= i < self@.nrows && j < self@.ncols ==> #[trigger] r@.entry(i, j) == self@.entry(
                    i as usize,
                    j,
                ),
            r@.values.len() <= self@.values.len(),
    {
        let (row_ptr, col_indices, values) = compress(
            &self.row_indices,
            &self.col_indices,
            &self.values,
            self.nrows,
            self.ncols,
        );
        let r = CsrMatrix::from_valid_parts(values, col_indices, row_ptr, self.nrows, self.ncols);
        proof {
            assert forall|i: int, j: usize| 0 <= i < self@.nrows && j < self@.ncols implies #[trigger] r@.entry(
                i,
                j,
            ) == self@.entry(i as usize, j) by {
                lemma_assembled_value(
                    self@.row_indices,
                    self@.col_indices,
                    self@.values,
                    i as usize,
                    self@.ncols as int,
                    j,
                );
            }
            assert(self@.values.len() == self.values.len());
            assert forall|m: int| 0 <= m < self@.nrows implies #[trigger] lane(r@.row_ptr, r@.col_indices, r@.values, m)
                == assembled(self@.row_indices, self@.col_indices, self@.values, m as usize, self@.ncols as int) by {
                assert(r@.row(m) == lane(r@.row_ptr, r@.col_indices, r@.values, m));
            }
            lemma_assembled_layout_count(r@.row_ptr, r@.col_indices, r@.values, r@.values.len() as int,
                self@.row_indices, self@.col_indices, self@.values, self@.nrows as int, self@.ncols as int);
        }
        r
    }

    /// Compress to CSC, summing duplicate `(i, j)` triplets in triplet order
    /// and dropping sums equal to zero: column `j` lists, by increasing row,
    /// each nonzero assembled entry.
    pub fn to_csc(&self) -> (r: CscMatrix<T>)
        requires
            self@.wf(),
            self@.ncols < usize::MAX,
            sums_ok(
                self@.row_indices,
                self@.col_indices,
                self@.values,
                self@.nrows as int,
                self@.ncols as int,
            ),
        ensures
            r@.wf(),
            r@.nrows == self@.nrows,
            r@.ncols == self@.ncols,
            forall|j: int|
                0 <= j < self@.ncols ==> #[trigger] r@.column(j) == assembled(
                    self@.col_indices,
                    self@.row_indices,
                    self@.values,
                    j as usize,
                    self@.nrows as int,
                ),
            forall|i: usize, j: int|
                i < self@.nrows && 0 <= j < self@.ncols ==> #[trigger] r@.entry(i, j) == self@.entry(
                    i,
                    j as usize,
                ),
            r@.values.len() <= self@.values.len(),
    {
        proof {
            assert(self@.row_indices.len() == self.row_indices.len());
            assert forall|m: usize, k: usize| m < self@.ncols && k < self@.nrows implies total_ok(
                #[trigger] duplicates(self@.col_indices, self@.row_indices, self@.values, m, k),
            ) by {
                lemma_duplicates_swap(self@.col_indices, self@.row_indices, self@.values, m, k);
                assert(total_ok(duplicates(self@.row_indices, self@.col_indices, self@.values, k, m)));
            }
        }
        let (col_ptr, row_indices, values) = compress(
            &self.col_indices,
            &self.row_indices,
            &self.values,
            self.ncols,
            self.nrows,
        );
        let r = CscMatrix::from_valid_parts(values, row_indices, col_ptr, self.nrows, self.ncols);
        proof {
            assert(self@.row_indices.len() == self.row_indices.len());
            assert forall|i: usize, j: int| i < self@.nrows && 0 <= j < self@.ncols implies #[trigger] r@.entry(
                i,
                j,
            ) == self@.entry(i, j as usize) by {
                lemma_assembled_value(
                    self@.col_indices,
                    self@.row_indices,
                    self@.values,
                    j as usize,
                    self@.nrows as int,
                    i,
                );
                lemma_duplicates_swap(self@.col_indices, self@.row_indices, self@.values, j as usize, i);
            }
            assert(self@.values.len() == self.values.len());
            assert forall|m: int| 0 <= m < self@.ncols implies #[trigger] lane(r@.col_ptr, r@.row_indices, r@.values, m)
                == assembled(self@.col_indices, self@.row_indices, self@.values, m as usize, self@.nrows as int) by {
                assert(r@.column(m) == lane(r@.col_ptr, r@.row_indices, r@.values, m));
            }
            lemma_assembled_layout_count(r@.col_ptr, r@.row_indices, r@.values, r@.values.len() as int,
                self@.col_indices, self@.row_indices, self@.values, self@.ncols as int, self@.nrows as int);
        }
        r
    }
}


impl<T: Scalar> CooMatrix<T> {
    /// The dense row-major array of the assembled matrix: every triplet is
    /// added, in triplet order, into its element.
    pub fn to_dense(&self) -> (r: Tensor<T>)
        requires
            self@.wf(),
            self@.nrows * self@.ncols <= usize::MAX,
            sums_ok(
                self@.row_indices,
                self@.col_indices,
                self@.values,
                self@.nrows as int,
                self@.ncols as int,
            ),
        ensures
            r@.wf(),
            r@.shape == seq![self@.nrows, self@.ncols],
            forall|i: int, j: int|
                0 <= i < self@.nrows && 0 <= j < self@.ncols ==> #[trigger] matrix_at(r@, i, j) == self@.entry(
                    i as usize,
                    j as usize,
                ),
    {
        let ghost v = self@;
        let ghost (nr, nc) = (self.nrows as int, self.ncols as int);
        let (rows, cols, vals) = (&self.row_indices, &self.col_indices, &self.values);
        let total_len = self.nrows * self.ncols;
        let mut dense: Vec<T> = Vec::with_capacity(total_len);
        for q in 0..total_len
            invariant
                dense@.len() == q,
                forall|q2: int| 0 <= q2 < q ==> #[trigger] dense@[q2] == T::zero_value(),
        {
            dense.push(T::zero());
        }
        proof {
            assert forall|i: int, j: int| 0 <= i < nr && 0 <= j < nc implies #[trigger] dense@[position(i, j, nr, nc, true)]
                == total(matching(v.row_indices, v.col_indices, v.values, i as usize, j as usize, 0)) by {
                lemma_position(i, j, i, j, nr, nc, true);
            }
        }
        let n = vals.len();
        for p in 0..n
            invariant
                v == self@,
                v.wf(),
                nr == v.nrows,
                nc == v.ncols,
                n == v.values.len(),
                rows@ == v.row_indices,
                cols@ == v.col_indices,
                vals@ == v.values,
                total_len == nr * nc,
                dense@.len() == total_len,
                sums_ok(v.row_indices, v.col_indices, v.values, nr, nc),
                forall|i: int, j: int|
                    0 <= i < nr && 0 <= j < nc ==> #[trigger] dense@[position(i, j, nr, nc, true)] == total(
                        matching(v.row_indices, v.col_indices, v.values, i as usize, j as usize, p as int),
                    ),
        {
            let i = rows[p];
            let j = cols[p];
            let x = vals[p];
            let ghost prev = matching(v.row_indices, v.col_indices, v.values, i, j, p as int);
            let ghost next = matching(v.row_indices, v.col_indices, v.values, i, j, p + 1);
            proof {
                lemma_position(i as int, j as int, i as int, j as int, nr, nc, true);
                assert(next == prev.push(x));
                lemma_picked_positions(v.row_indices, v.col_indices, v.values, i, j, n as int);
                lemma_matching_prefix(v.row_indices, v.col_indices, v.values, i, j, p + 1, n as int);
                let all = matching(v.row_indices, v.col_indices, v.values, i, j, n as int);
                assert(total_ok(duplicates(v.row_indices, v.col_indices, v.values, i, j)));
                lemma_total_ok_prefix(all, next.len() as int);
                assert(next.drop_last() =~= prev);
                T::lemma_zero_plus(x);
                if prev.len() == 0 {
                    assert(total(next) == x);
                }
                assert(0 <= i * self.ncols <= i * self.ncols + j) by (nonlinear_arith)
                    requires
                        i >= 0,
                        self.ncols >= 0,
                        j >= 0,
                ;
            }
            let at = i * self.ncols + j;
            let ghost before = dense@;
            dense.set(at, dense[at].add(x));
            proof {
                assert forall|a: int, b: int| 0 <= a < nr && 0 <= b < nc implies #[trigger] dense@[position(
                    a,
                    b,
                    nr,
                    nc,
                    true,
                )] == total(matching(v.row_indices, v.col_indices, v.values, a as usize, b as usize, p + 1)) by {
                    lemma_position(a, b, i as int, j as int, nr, nc, true);
                }
            }
        }
        proof {
            lemma_matrix_layout(0, 0, self.nrows, self.ncols);
        }
        let r = Tensor::from_valid(matrix_shape(self.nrows, self.ncols), dense);
        proof {
            lemma_matrix_lanes(r@);
            assert forall|i: int, j: int| 0 <= i < nr && 0 <= j < nc implies #[trigger] matrix_at(r@, i, j) == v.entry(
                i as usize,
                j as usize,
            ) by {
                lemma_picked_positions(v.row_indices, v.col_indices, v.values, i as usize, j as usize, n as int);
                assert(position(i, j, nr, nc, true) == i * nc + j);
            }
        }
        r
    }
}


/// Expanding an assembled COO matrix to dense and compressing that to CSR
/// gives exactly the CSR that `to_csr` builds from the triplets: whatever
/// `to_dense`, `CsrMatrix::from_dense` and `to_csr` return, as their
/// contracts state them, agree array for array.
pub proof fn lemma_dense_path_matches_to_csr<T: Scalar>(
    c: CooView<T>,
    d: TensorView<T>,
    a: CsrView<T>,
    b: CsrView<T>,
)
    requires
        c.wf(),
        c.ncols <= usize::MAX,
        d.wf(),
        d.shape == seq![c.nrows, c.ncols],
        forall|i: int, j: int| 0 <= i < c.nrows && 0 <= j < c.ncols ==> #[trigger] matrix_at(d, i, j) == c.entry(
            i as usize,
            j as usize,
        ),
        a.wf(),
        a.nrows == d.shape[0],
        a.ncols == d.shape[1],
        forall|i: int| 0 <= i < a.nrows ==> #[trigger] a.row(i) == nonzeros(matrix_row(d, i)),
        b.wf(),
        b.nrows == c.nrows,
        b.ncols == c.ncols,
        forall|i: int|
            0 <= i < c.nrows ==> #[trigger] b.row(i) == assembled(
                c.row_indices,
                c.col_indices,
                c.values,
                i as usize,
                c.ncols as int,
            ),
    ensures
        a == b,
{
    assert forall|i: int| 0 <= i < c.nrows implies #[trigger] a.row(i) == b.row(i) by {
        lemma_assembled_is_nonzeros(c.row_indices, c.col_indices, c.values, i as usize, c.ncols as int);
        assert(matrix_row(d, i) =~= Seq::new(
            c.ncols as nat,
            |k: int| total(duplicates(c.row_indices, c.col_indices, c.values, i as usize, k as usize)),
        ));
    }
    assert forall|m: int| 0 <= m < c.nrows implies #[trigger] lane(a.row_ptr, a.col_indices, a.values, m) == lane(
        b.row_ptr,
        b.col_indices,
        b.values,
        m,
    ) by {
        assert(a.row(m) == b.row(m));
    }
    lemma_lanes_determine(a.row_ptr, a.col_indices, a.values, b.row_ptr, b.col_indices, b.values, c.nrows as int);
}

} // verus!
