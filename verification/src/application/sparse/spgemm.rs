//! Sparse–sparse matrix product `C = A B` over CSR storage.
//!
//! Row `i` of `C` is accumulated from the products `A[i, k] · B[k, j]`,
//! visiting the entries of row `i` of `A` in order and, for each, the entries
//! of row `k` of `B` in order. Products equal to zero are skipped; the
//! products landing on one column are summed in visiting order, and columns
//! whose sum is zero are dropped.
use vstd::prelude::*;
use crate::domain::error::LetoError;
use crate::domain::scalar::Scalar;
use super::compressed::{assembled, compress, lemma_lane_keyed, sums_ok};
use super::csr::CsrMatrix;

verus! {

/// The nonzero products `(j, av · v)` over the entries `(j, v)` of `l`, in order.
pub open spec fn scaled_lane<T: Scalar>(l: Seq<(usize, T)>, av: T) -> Seq<(usize, T)>
    decreases l.len(),
{
    if l.len() == 0 {
        Seq::empty()
    } else {
        let prev = scaled_lane(l.drop_last(), av);
        let p = av.times(l.last().1);
        if p != T::zero_value() {
            prev.push((l.last().0, p))
        } else {
            prev
        }
    }
}

/// The nonzero products of row `i` of `A B`, in visiting order, from the
/// first `t` entries of row `i` of `A`.
pub open spec fn row_products<T: Scalar>(
    a: super::csr::CsrView<T>,
    b: super::csr::CsrView<T>,
    i: int,
    t: int,
) -> Seq<(usize, T)>
    decreases t,
{
    if t <= 0 {
        Seq::empty()
    } else {
        row_products(a, b, i, t - 1) + scaled_lane(b.row(a.row(i)[t - 1].0 as int), a.row(i)[t - 1].1)
    }
}

/// The `(row, column, product)` triplets of rows `0 .. r` of `A B`, in
/// visiting order.
pub open spec fn product_triplets<T: Scalar>(
    a: super::csr::CsrView<T>,
    b: super::csr::CsrView<T>,
    r: int,
) -> Seq<(usize, usize, T)>
    decreases r,
{
    if r <= 0 {
        Seq::empty()
    } else {
        product_triplets(a, b, r - 1) + tagged((r - 1) as usize, row_products(a, b, r - 1, a.row(r - 1).len() as int))
    }
}

/// The entries of `s` as triplets in row `i`.
pub open spec fn tagged<T>(i: usize, s: Seq<(usize, T)>) -> Seq<(usize, usize, T)> {
    Seq::new(s.len(), |q: int| (i, s[q].0, s[q].1))
}

/// Row coordinates of a triplet list.
pub open spec fn triplet_rows<T>(t: Seq<(usize, usize, T)>) -> Seq<usize> {
    Seq::new(t.len(), |q: int| t[q].0)
}

/// Column coordinates of a triplet list.
pub open spec fn triplet_cols<T>(t: Seq<(usize, usize, T)>) -> Seq<usize> {
    Seq::new(t.len(), |q: int| t[q].1)
}

/// Values of a triplet list.
pub open spec fn triplet_vals<T>(t: Seq<(usize, usize, T)>) -> Seq<T> {
    Seq::new(t.len(), |q: int| t[q].2)
}

/// Every product `A[i, k] · B[k, j]` is representable.
pub open spec fn products_ok<T: Scalar>(a: super::csr::CsrView<T>, b: super::csr::CsrView<T>) -> bool {
    forall|i: int, t: int, q: int|
        0 <= i < a.nrows && 0 <= t < a.row(i).len() && 0 <= q < b.row(a.row(i)[t].0 as int).len() ==> (
        #[trigger] a.row(i)[t]).1.can_mul(#[trigger] b.row(a.row(i)[t].0 as int)[q].1)
}

/// Sparse–sparse product `C = A B` in CSR.
///
/// Fails with `ShapeMismatch { lhs: [a rows, a cols], rhs: [b rows, b cols]
/// }` when the inner dimensions differ. Otherwise row `i` of the result
/// lists, by increasing column, each nonzero sum of the nonzero products
/// landing on that column, summed in visiting order.
pub fn spgemm<T: Scalar>(a: &CsrMatrix<T>, b: &CsrMatrix<T>) -> (r: Result<CsrMatrix<T>, LetoError>)
    requires
        a@.wf(),
        b@.wf(),
        a@.ncols == b@.nrows ==> products_ok(a@, b@),
        a@.ncols == b@.nrows ==> ({
            let t = product_triplets(a@, b@, a@.nrows as int);
            sums_ok(triplet_rows(t), triplet_cols(t), triplet_vals(t), a@.nrows as int, b@.ncols as int)
        }),
    ensures
        a@.ncols != b@.nrows ==> (r matches Err(LetoError::ShapeMismatch { lhs, rhs }) && lhs@ == seq![
            a@.nrows,
            a@.ncols,
        ] && rhs@ == seq![b@.nrows, b@.ncols]),
        a@.ncols == b@.nrows ==> r is Ok && r->Ok_0@.wf() && r->Ok_0@.nrows == a@.nrows && r->Ok_0@.ncols
            == b@.ncols && ({
            let t = product_triplets(a@, b@, a@.nrows as int);
            forall|i: int|
                0 <= i < a@.nrows ==> #[trigger] r->Ok_0@.row(i) == assembled(
                    triplet_rows(t),
                    triplet_cols(t),
                    triplet_vals(t),
                    i as usize,
                    b@.ncols as int,
                )
        }),
{
    let (a_rows, a_cols) = a.shape();
    let (b_rows, b_cols) = b.shape();
    if a_cols != b_rows {
        let mut lhs: Vec<usize> = Vec::new();
        lhs.push(a_rows);
        lhs.push(a_cols);
        let mut rhs: Vec<usize> = Vec::new();
        rhs.push(b_rows);
        rhs.push(b_cols);
        return Err(LetoError::ShapeMismatch { lhs, rhs });
    }
    let (a_values, a_col_indices, a_row_ptr) = a.as_parts();
    let (b_values, b_col_indices, b_row_ptr) = b.as_parts();
    let ghost (av, bv) = (a@, b@);
    let mut rows: Vec<usize> = Vec::new();
    let mut cols: Vec<usize> = Vec::new();
    let mut vals: Vec<T> = Vec::new();
    let ghost mut trip: Seq<(usize, usize, T)> = Seq::empty();
    for row in 0..a_rows
        invariant
            av == a@,
            bv == b@,
            av.wf(),
            bv.wf(),
            a_rows == av.nrows,
            av.ncols == bv.nrows,
            b_cols == bv.ncols,
            products_ok(av, bv),
            a_values@ == av.values,
            a_col_indices@ == av.col_indices,
            a_row_ptr@ == av.row_ptr,
            b_values@ == bv.values,
            b_col_indices@ == bv.col_indices,
            b_row_ptr@ == bv.row_ptr,
            trip == product_triplets(av, bv, row as int),
            rows@ == triplet_rows(trip),
            cols@ == triplet_cols(trip),
            vals@ == triplet_vals(trip),
            forall|q: int| 0 <= q < trip.len() ==> (#[trigger] trip[q]).0 < a_rows && trip[q].1 < b_cols,
    {
        let ghost la = av.row(row as int);
        let ghost base = trip;
        proof {
            assert(a_row_ptr@[row as int] <= a_row_ptr@[row + 1] <= a_row_ptr@[a_rows as int]);
            lemma_lane_keyed(av.row_ptr, av.col_indices, av.values, av.values.len() as int, av.nrows as int, av.ncols as int, row as int);
            assert(base + tagged(row, row_products(av, bv, row as int, 0)) =~= base);
        }
        let a_start = a_row_ptr[row];
        let a_end = a_row_ptr[row + 1];
        for a_index in a_start..a_end
            invariant
                av.wf(),
                bv.wf(),
                a_rows == av.nrows,
                av.ncols == bv.nrows,
                b_cols == bv.ncols,
                products_ok(av, bv),
                row < a_rows,
                a_start == av.row_ptr[row as int],
                a_end == av.row_ptr[row + 1],
                a_end <= av.values.len(),
                a_values@ == av.values,
                a_col_indices@ == av.col_indices,
                b_values@ == bv.values,
                b_col_indices@ == bv.col_indices,
                b_row_ptr@ == bv.row_ptr,
                la == av.row(row as int),
                base == product_triplets(av, bv, row as int),
                forall|q: int| 0 <= q < base.len() ==> (#[trigger] base[q]).0 < a_rows && base[q].1 < b_cols,
                trip == base + tagged(row, row_products(av, bv, row as int, a_index - a_start)),
                rows@ == triplet_rows(trip),
                cols@ == triplet_cols(trip),
                vals@ == triplet_vals(trip),
                forall|q: int| 0 <= q < trip.len() ==> (#[trigger] trip[q]).0 < a_rows && trip[q].1 < b_cols,
        {
            let ghost t = a_index - a_start;
            let inner = a_col_indices[a_index];
            let a_value = a_values[a_index];
            let ghost lb = bv.row(inner as int);
            let ghost mid = trip;
            proof {
                assert(la[t] == (inner, a_value));
                assert(b_row_ptr@[inner as int] <= b_row_ptr@[inner + 1] <= b_row_ptr@[bv.nrows as int]);
                lemma_lane_keyed(bv.row_ptr, bv.col_indices, bv.values, bv.values.len() as int, bv.nrows as int, bv.ncols as int, inner as int);
                assert(lb.take(0) =~= Seq::<(usize, T)>::empty());
                assert(mid + tagged(row, scaled_lane(lb.take(0), a_value)) =~= mid);
                assert forall|q: int| 0 <= q < lb.len() implies a_value.can_mul(#[trigger] lb[q].1) by {
                    assert(av.row(row as int)[t].1.can_mul(bv.row(av.row(row as int)[t].0 as int)[q].1));
                }
            }
            let b_start = b_row_ptr[inner];
            let b_end = b_row_ptr[inner + 1];
            for b_index in b_start..b_end
                invariant
                    bv.wf(),
                    b_cols == bv.ncols,
                    inner < bv.nrows,
                    b_start == bv.row_ptr[inner as int],
                    b_end == bv.row_ptr[inner + 1],
                    b_end <= bv.values.len(),
                    b_values@ == bv.values,
                    b_col_indices@ == bv.col_indices,
                    lb == bv.row(inner as int),
                    row < a_rows,
                    forall|q: int| 0 <= q < lb.len() ==> a_value.can_mul(#[trigger] lb[q].1),
                    forall|q: int| 0 <= q < lb.len() ==> (#[trigger] lb[q]).0 < b_cols,
                    forall|q: int| 0 <= q < mid.len() ==> (#[trigger] mid[q]).0 < a_rows && mid[q].1 < b_cols,
                    trip == mid + tagged(row, scaled_lane(lb.take(b_index - b_start), a_value)),
                    rows@ == triplet_rows(trip),
                    cols@ == triplet_cols(trip),
                    vals@ == triplet_vals(trip),
                    forall|q: int| 0 <= q < trip.len() ==> (#[trigger] trip[q]).0 < a_rows && trip[q].1 < b_cols,
            {
                let ghost s = b_index - b_start;
                proof {
                    assert(lb[s] == (b_col_indices@[b_index as int], b_values@[b_index as int]));
                    assert(lb.take(s + 1).drop_last() =~= lb.take(s));
                    assert(a_value.can_mul(lb[s].1));
                }
                let product = a_value.mul(b_values[b_index]);
                if !product.is_zero() {
                    let col = b_col_indices[b_index];
                    rows.push(row);
                    cols.push(col);
                    vals.push(product);
                    proof {
                        let old_trip = trip;
                        trip = mid + tagged(row, scaled_lane(lb.take(s + 1), a_value));
                        assert(trip =~= old_trip.push((row, col, product)));
                        assert(rows@ =~= triplet_rows(trip));
                        assert(cols@ =~= triplet_cols(trip));
                        assert(vals@ =~= triplet_vals(trip));
                    }
                } else {
                    proof {
                        assert(scaled_lane(lb.take(s + 1), a_value) == scaled_lane(lb.take(s), a_value));
                        trip = mid + tagged(row, scaled_lane(lb.take(s + 1), a_value));
                    }
                }
            }
            proof {
                assert(lb.take(b_end - b_start) =~= lb);
                assert(row_products(av, bv, row as int, t + 1) == row_products(av, bv, row as int, t)
                    + scaled_lane(lb, a_value));
                assert(tagged(row, row_products(av, bv, row as int, t + 1)) =~= tagged(
                    row,
                    row_products(av, bv, row as int, t),
                ) + tagged(row, scaled_lane(lb, a_value)));
                assert(trip =~= base + tagged(row, row_products(av, bv, row as int, t + 1)));
            }
        }
        proof {
            assert(product_triplets(av, bv, row + 1) == base + tagged(
                row,
                row_products(av, bv, row as int, la.len() as int),
            ));
        }
    }
    let (row_ptr, col_indices, values) = compress(&rows, &cols, &vals, a_rows, b_cols);
    Ok(CsrMatrix::from_valid_parts(values, col_indices, row_ptr, a_rows, b_cols))
}

} // verus!
