//! Conversions between compressed layouts and dense row-major storage.
//!
//! A compressed lane `m` of a `n_major × n_minor` layout reads the dense
//! elements at [`position`]`(m, k)`: the row `m` of a row-major buffer when
//! the lanes are rows, its column `m` when the lanes are columns.
use vstd::prelude::*;
use crate::domain::scalar::Scalar;
use crate::application::tensor::{flat_of, size, TensorView};
use super::compressed::{
    assembled, compressed_ok, duplicates, lane, lemma_keyed_lanes_ok, lemma_lane_keyed, lemma_offsets_locate,
    lemma_value_at_found, offsets_ok, strictly_keyed, total, value_at,
};

verus! {

/// Dense position of lane entry `(m, k)`.
pub open spec fn position(m: int, k: int, n_major: int, n_minor: int, rows: bool) -> int {
    if rows {
        m * n_minor + k
    } else {
        k * n_major + m
    }
}

/// The dense elements of lane `m`, by increasing minor index.
pub open spec fn dense_lane<T>(data: Seq<T>, n_major: int, n_minor: int, rows: bool, m: int) -> Seq<T> {
    Seq::new(n_minor as nat, |k: int| data[position(m, k, n_major, n_minor, rows)])
}

/// Element `(i, j)` of a two-axis array.
pub open spec fn matrix_at<T>(m: TensorView<T>, i: int, j: int) -> T {
    m.at(seq![i as usize, j as usize])
}

/// Row `i` of a two-axis array.
pub open spec fn matrix_row<T>(m: TensorView<T>, i: int) -> Seq<T> {
    Seq::new(m.shape[1] as nat, |j: int| matrix_at(m, i, j))
}

/// Column `j` of a two-axis array.
pub open spec fn matrix_column<T>(m: TensorView<T>, j: int) -> Seq<T> {
    Seq::new(m.shape[0] as nat, |i: int| matrix_at(m, i, j))
}

/// The shape `[nrows, ncols]` as an owned vector.
pub fn matrix_shape(nrows: usize, ncols: usize) -> (r: Vec<usize>)
    ensures
        r@ == seq![nrows, ncols],
{
    let mut r: Vec<usize> = Vec::new();
    r.push(nrows);
    r.push(ncols);
    r
}

/// The `(index, value)` pairs of the nonzero elements of `s`, by increasing index.
pub open spec fn nonzeros<T: Scalar>(s: Seq<T>) -> Seq<(usize, T)>
    decreases s.len(),
{
    if s.len() == 0 {
        Seq::empty()
    } else {
        let prev = nonzeros(s.drop_last());
        if s.last() != T::zero_value() {
            prev.push(((s.len() - 1) as usize, s.last()))
        } else {
            prev
        }
    }
}

proof fn lemma_mul_mono(a: int, b: int, c: int)
    by (nonlinear_arith)
    requires
        0 <= a <= b,
        0 <= c,
    ensures
        a * c <= b * c,
{
}

/// Positions of distinct in-range entries are distinct and below the size.
pub proof fn lemma_position(m: int, k: int, m2: int, k2: int, n_major: int, n_minor: int, rows: bool)
    requires
        0 <= m < n_major,
        0 <= k < n_minor,
        0 <= m2 < n_major,
        0 <= k2 < n_minor,
    ensures
        0 <= position(m, k, n_major, n_minor, rows) < n_major * n_minor,
        position(m, k, n_major, n_minor, rows) == position(m2, k2, n_major, n_minor, rows) ==> m == m2
            && k == k2,
{
    if rows {
        lemma_mul_mono(m + 1, n_major, n_minor);
        lemma_mul_mono(0, m, n_minor);
        assert((m + 1) * n_minor == m * n_minor + n_minor) by (nonlinear_arith);
        if m < m2 {
            lemma_mul_mono(m + 1, m2, n_minor);
            assert((m + 1) * n_minor == m * n_minor + n_minor) by (nonlinear_arith);
        } else if m2 < m {
            lemma_mul_mono(m2 + 1, m, n_minor);
            assert((m2 + 1) * n_minor == m2 * n_minor + n_minor) by (nonlinear_arith);
        }
    } else {
        lemma_mul_mono(k + 1, n_minor, n_major);
        lemma_mul_mono(0, k, n_major);
        assert((k + 1) * n_major == k * n_major + n_major) by (nonlinear_arith);
        assert(n_minor * n_major == n_major * n_minor) by (nonlinear_arith);
        if k < k2 {
            lemma_mul_mono(k + 1, k2, n_major);
            assert((k + 1) * n_major == k * n_major + n_major) by (nonlinear_arith);
        } else if k2 < k {
            lemma_mul_mono(k2 + 1, k, n_major);
            assert((k2 + 1) * n_major == k2 * n_major + n_major) by (nonlinear_arith);
        }
    }
}

/// The nonzero pairs of `s` are strictly keyed below its length.
pub proof fn lemma_nonzeros_keyed<T: Scalar>(s: Seq<T>)
    requires
        s.len() <= usize::MAX,
    ensures
        strictly_keyed(nonzeros(s), s.len() as int),
        forall|a: int| 0 <= a < nonzeros(s).len() ==> (#[trigger] nonzeros(s)[a]).1 != T::zero_value(),
    decreases s.len(),
{
    if s.len() > 0 {
        lemma_nonzeros_keyed(s.drop_last());
        let prev = nonzeros(s.drop_last());
        let cur = nonzeros(s);
        assert forall|a: int, b: int| 0 <= a < b < cur.len() implies (#[trigger] cur[a]).0 < (#[trigger] cur[b]).0 by {
            if s.last() != T::zero_value() {
                assert(cur == prev.push(((s.len() - 1) as usize, s.last())));
                assert(cur[a] == prev[a]);
                if b < prev.len() {
                    assert(cur[b] == prev[b]);
                } else {
                    assert(prev[a].0 < s.len() - 1);
                }
            } else {
                assert(cur == prev);
            }
        }
        assert forall|a: int| 0 <= a < cur.len() implies (#[trigger] cur[a]).0 < s.len() && cur[a].1
            != T::zero_value() by {
            if s.last() != T::zero_value() {
                assert(cur == prev.push(((s.len() - 1) as usize, s.last())));
                if a < prev.len() {
                    assert(cur[a] == prev[a]);
                }
            } else {
                assert(cur == prev);
            }
        }
    }
}

/// Reading index `k` of the nonzero pairs of `s` gives `s[k]`.
pub proof fn lemma_nonzeros_value<T: Scalar>(s: Seq<T>, k: usize)
    requires
        k < s.len(),
        s.len() <= usize::MAX,
    ensures
        value_at(nonzeros(s), k) == s[k as int],
    decreases s.len(),
{
    let prev = nonzeros(s.drop_last());
    let cur = nonzeros(s);
    lemma_nonzeros_keyed(s);
    lemma_nonzeros_keyed(s.drop_last());
    if k == s.len() - 1 {
        if s.last() != T::zero_value() {
            lemma_value_at_found(cur, s.len() as int, prev.len() as int);
        } else {
            assert(!exists|a: int| 0 <= a < cur.len() && (#[trigger] cur[a]).0 == k);
        }
    } else {
        lemma_nonzeros_value(s.drop_last(), k);
        if exists|a: int| 0 <= a < prev.len() && (#[trigger] prev[a]).0 == k {
            let a = choose|a: int| 0 <= a < prev.len() && (#[trigger] prev[a]).0 == k;
            lemma_value_at_found(prev, s.len() - 1, a);
            assert(cur[a] == prev[a]);
            lemma_value_at_found(cur, s.len() as int, a);
        } else {
            assert(!exists|a: int| 0 <= a < cur.len() && (#[trigger] cur[a]).0 == k) by {
                assert forall|a: int| 0 <= a < cur.len() implies (#[trigger] cur[a]).0 != k by {
                    if s.last() != T::zero_value() {
                        assert(cur == prev.push(((s.len() - 1) as usize, s.last())));
                        if a < prev.len() {
                            assert(cur[a] == prev[a]);
                        }
                    } else {
                        assert(cur == prev);
                    }
                }
            }
        }
    }
}

/// Row-major position and element count of a two-axis array.
pub proof fn lemma_matrix_layout(i: usize, j: usize, nrows: usize, ncols: usize)
    ensures
        size(seq![nrows, ncols]) == nrows * ncols,
        flat_of(seq![i, j], seq![nrows, ncols]) == i * ncols + j,
{
    let (s, x) = (seq![nrows, ncols], seq![i, j]);
    let (s1, x1) = (seq![nrows], seq![i]);
    assert(s.drop_last() =~= s1);
    assert(s1.drop_last() =~= Seq::<usize>::empty());
    assert(x.drop_last() =~= x1);
    assert(x1.drop_last() =~= Seq::<usize>::empty());
    assert(size(Seq::<usize>::empty()) == 1);
    assert(size(s1) == 1 * (nrows as nat));
    assert(size(s) == size(s1) * (ncols as nat));
    assert(flat_of(Seq::<usize>::empty(), Seq::<usize>::empty()) == 0);
    assert(flat_of(x1, s1) == 0 * nrows + i);
    assert(flat_of(x, s) == flat_of(x1, s1) * ncols + j);
}

/// The nonzero pairs of each dense lane.
pub fn dense_lanes<T: Scalar>(data: &[T], n_major: usize, n_minor: usize, rows: bool) -> (r: Vec<Vec<(usize, T)>>)
    requires
        data@.len() == n_major * n_minor,
    ensures
        r.len() == n_major,
        forall|m: int|
            0 <= m < n_major ==> (#[trigger] r[m])@ == nonzeros(
                dense_lane(data@, n_major as int, n_minor as int, rows, m),
            ),
{
    let dl = data.len();
    let mut lanes: Vec<Vec<(usize, T)>> = Vec::new();
    for m in 0..n_major
        invariant
            data@.len() == n_major * n_minor,
            dl == data@.len(),
            lanes.len() == m,
            forall|a: int|
                0 <= a < m ==> (#[trigger] lanes[a])@ == nonzeros(
                    dense_lane(data@, n_major as int, n_minor as int, rows, a),
                ),
    {
        let ghost full = dense_lane(data@, n_major as int, n_minor as int, rows, m as int);
        let mut entries: Vec<(usize, T)> = Vec::new();
        proof {
            assert(full.take(0) =~= Seq::<T>::empty());
        }
        for k in 0..n_minor
            invariant
                data@.len() == n_major * n_minor,
                dl == data@.len(),
                m < n_major,
                full == dense_lane(data@, n_major as int, n_minor as int, rows, m as int),
                entries@ == nonzeros(full.take(k as int)),
        {
            proof {
                lemma_position(m as int, k as int, m as int, k as int, n_major as int, n_minor as int, rows);
                assert(full.take(k + 1).drop_last() =~= full.take(k as int));
                assert(0 <= m * n_minor <= m * n_minor + k) by (nonlinear_arith)
                    requires
                        m >= 0,
                        n_minor >= 0,
                        k >= 0,
                ;
                assert(0 <= k * n_major <= k * n_major + m) by (nonlinear_arith)
                    requires
                        m >= 0,
                        n_major >= 0,
                        k >= 0,
                ;
            }
            let p = if rows {
                m * n_minor + k
            } else {
                k * n_major + m
            };
            let v = data[p];
            if !v.is_zero() {
                entries.push((k, v));
            }
        }
        proof {
            assert(full.take(n_minor as int) =~= full);
        }
        lanes.push(entries);
        proof {
            assert forall|a: int| 0 <= a < m + 1 implies (#[trigger] lanes[a])@ == nonzeros(
                dense_lane(data@, n_major as int, n_minor as int, rows, a),
            ) by {
            }
        }
    }
    lanes
}

/// The dense buffer of a valid layout: the element at `position(m, k)` is the
/// entry `k` of lane `m` (zero where none is stored).
pub fn dense_of<T: Scalar>(
    offsets: &[usize],
    indices: &[usize],
    values: &[T],
    n_major: usize,
    n_minor: usize,
    rows: bool,
) -> (r: Vec<T>)
    requires
        compressed_ok(offsets@, indices@, values@.len() as int, n_major as int, n_minor as int),
        values@.len() == indices@.len(),
        n_major * n_minor <= usize::MAX,
    ensures
        r@.len() == n_major * n_minor,
        forall|m: int, k: int|
            0 <= m < n_major && 0 <= k < n_minor ==> r@[position(m, k, n_major as int, n_minor as int, rows)]
                == #[trigger] value_at(lane(offsets@, indices@, values@, m), k as usize),
{
    let total = n_major * n_minor;
    let mut data: Vec<T> = Vec::with_capacity(total);
    for q in 0..total
        invariant
            data@.len() == q,
            forall|a: int| 0 <= a < q ==> #[trigger] data@[a] == T::zero_value(),
    {
        data.push(T::zero());
    }
    let ghost (nm, nk) = (n_major as int, n_minor as int);
    proof {
        assert forall|a: int, k: int| 0 <= a < nm && 0 <= k < nk implies #[trigger] data@[position(a, k, nm, nk, rows)]
            == T::zero_value() by {
            lemma_position(a, k, a, k, nm, nk, rows);
        }
    }
    for m in 0..n_major
        invariant
            compressed_ok(offsets@, indices@, values@.len() as int, nm, nk),
            values@.len() == indices@.len(),
            nm == n_major,
            nk == n_minor,
            n_major * n_minor <= usize::MAX,
            data@.len() == nm * nk,
            forall|a: int, k: int|
                0 <= a < m && 0 <= k < nk ==> data@[position(a, k, nm, nk, rows)] == #[trigger] value_at(
                    lane(offsets@, indices@, values@, a),
                    k as usize,
                ),
            forall|a: int, k: int|
                m <= a < nm && 0 <= k < nk ==> #[trigger] data@[position(a, k, nm, nk, rows)]
                    == T::zero_value(),
    {
        let start = offsets[m];
        let end = offsets[m + 1];
        let ghost l = lane(offsets@, indices@, values@, m as int);
        proof {
            assert(offsets@[m as int] <= offsets@[m + 1] <= offsets@[nm]);
            lemma_lane_keyed(offsets@, indices@, values@, values@.len() as int, nm, nk, m as int);
        }
        for p in start..end
            invariant
                compressed_ok(offsets@, indices@, values@.len() as int, nm, nk),
                values@.len() == indices@.len(),
                nm == n_major,
                nk == n_minor,
                n_major * n_minor <= usize::MAX,
                m < nm,
                start == offsets@[m as int],
                end == offsets@[m + 1],
                end <= values@.len(),
                l == lane(offsets@, indices@, values@, m as int),
                strictly_keyed(l, nk),
                data@.len() == nm * nk,
                forall|a: int, k: int|
                    0 <= a < m && 0 <= k < nk ==> data@[position(a, k, nm, nk, rows)] == #[trigger] value_at(
                        lane(offsets@, indices@, values@, a),
                        k as usize,
                    ),
                forall|a: int, k: int|
                    m < a < nm && 0 <= k < nk ==> #[trigger] data@[position(a, k, nm, nk, rows)]
                        == T::zero_value(),
                forall|k: int|
                    0 <= k < nk ==> #[trigger] data@[position(m as int, k, nm, nk, rows)] == if exists|t: int|
                        0 <= t < p - start && (#[trigger] l[t]).0 == k {
                        value_at(l, k as usize)
                    } else {
                        T::zero_value()
                    },
        {
            let k = indices[p];
            let ghost t0 = p - start;
            proof {
                assert(l[t0] == (indices@[p as int], values@[p as int]));
                lemma_position(m as int, k as int, m as int, k as int, nm, nk, rows);
                lemma_value_at_found(l, nk, t0);
                assert(0 <= m * n_minor <= m * n_minor + k) by (nonlinear_arith)
                    requires
                        m >= 0,
                        n_minor >= 0,
                        k >= 0,
                ;
                assert(0 <= k * n_major <= k * n_major + m) by (nonlinear_arith)
                    requires
                        m >= 0,
                        n_major >= 0,
                        k >= 0,
                ;
            }
            let pos = if rows {
                m * n_minor + k
            } else {
                k * n_major + m
            };
            let ghost before = data@;
            data.set(pos, values[p]);
            proof {
                assert forall|a: int, kk: int| 0 <= a < nm && 0 <= kk < nk && (a, kk) != (m as int, k as int) implies #[trigger] data@[position(
                    a,
                    kk,
                    nm,
                    nk,
                    rows,
                )] == before[position(a, kk, nm, nk, rows)] by {
                    lemma_position(a, kk, m as int, k as int, nm, nk, rows);
                }
                assert forall|kk: int| 0 <= kk < nk implies #[trigger] data@[position(m as int, kk, nm, nk, rows)]
                    == if exists|t: int| 0 <= t < p + 1 - start && (#[trigger] l[t]).0 == kk {
                    value_at(l, kk as usize)
                } else {
                    T::zero_value()
                } by {
                    if kk == k {
                        assert(l[t0].0 == kk);
                    } else {
                        lemma_position(m as int, kk, m as int, k as int, nm, nk, rows);
                        if exists|t: int| 0 <= t < p + 1 - start && (#[trigger] l[t]).0 == kk {
                            let t = choose|t: int| 0 <= t < p + 1 - start && (#[trigger] l[t]).0 == kk;
                            assert(t != t0);
                        }
                    }
                }
            }
        }
        proof {
            assert forall|k: int| 0 <= k < nk implies data@[position(m as int, k, nm, nk, rows)]
                == #[trigger] value_at(lane(offsets@, indices@, values@, m as int), k as usize) by {
                if !exists|t: int| 0 <= t < end - start && (#[trigger] l[t]).0 == k {
                    assert(!exists|t: int| 0 <= t < l.len() && (#[trigger] l[t]).0 == k as usize);
                }
            }
        }
    }
    data
}


/// The dense lanes of a two-axis array's data are its rows (or columns).
pub proof fn lemma_matrix_lanes<T>(m: TensorView<T>)
    requires
        m.wf(),
        m.shape.len() == 2,
    ensures
        m.data.len() == m.shape[0] * m.shape[1],
        forall|i: int|
            0 <= i < m.shape[0] ==> #[trigger] dense_lane(m.data, m.shape[0] as int, m.shape[1] as int, true, i)
                == matrix_row(m, i),
        forall|j: int|
            0 <= j < m.shape[1] ==> #[trigger] dense_lane(m.data, m.shape[1] as int, m.shape[0] as int, false, j)
                == matrix_column(m, j),
        forall|i: int, j: int|
            0 <= i < m.shape[0] && 0 <= j < m.shape[1] ==> #[trigger] matrix_at(m, i, j) == m.data[i
                * m.shape[1] + j],
{
    let (r, c) = (m.shape[0], m.shape[1]);
    assert(m.shape =~= seq![r, c]);
    lemma_matrix_layout(0, 0, r, c);
    assert forall|i: int, j: int| 0 <= i < r && 0 <= j < c implies #[trigger] matrix_at(m, i, j) == m.data[i * c
        + j] by {
        lemma_matrix_layout(i as usize, j as usize, r, c);
    }
    assert forall|i: int| 0 <= i < r implies #[trigger] dense_lane(m.data, r as int, c as int, true, i) == matrix_row(
        m,
        i,
    ) by {
        assert forall|j: int| 0 <= j < c implies dense_lane(m.data, r as int, c as int, true, i)[j] == #[trigger] matrix_row(
            m,
            i,
        )[j] by {
            lemma_matrix_layout(i as usize, j as usize, r, c);
        }
        assert(dense_lane(m.data, r as int, c as int, true, i) =~= matrix_row(m, i));
    }
    assert forall|j: int| 0 <= j < c implies #[trigger] dense_lane(m.data, c as int, r as int, false, j)
        == matrix_column(m, j) by {
        assert forall|i: int| 0 <= i < r implies dense_lane(m.data, c as int, r as int, false, j)[i] == #[trigger] matrix_column(
            m,
            j,
        )[i] by {
            lemma_matrix_layout(i as usize, j as usize, r, c);
        }
        assert(dense_lane(m.data, c as int, r as int, false, j) =~= matrix_column(m, j));
    }
}

/// A compressed layout with lanes `nonzeros(lanes[m])` stores value
/// `lanes[m][k]` at `(m, k)`, and it is valid.
pub proof fn lemma_nonzero_lanes_ok<T: Scalar>(
    offsets: Seq<usize>,
    indices: Seq<usize>,
    values: Seq<T>,
    n_major: int,
    n_minor: int,
    dense: spec_fn(int) -> Seq<T>,
)
    requires
        offsets_ok(offsets, n_major, indices.len() as int),
        0 <= n_major,
        0 <= n_minor <= usize::MAX,
        values.len() == indices.len(),
        forall|m: int| 0 <= m < n_major ==> (#[trigger] dense(m)).len() == n_minor,
        forall|m: int| 0 <= m < n_major ==> #[trigger] lane(offsets, indices, values, m) == nonzeros(dense(m)),
    ensures
        compressed_ok(offsets, indices, indices.len() as int, n_major, n_minor),
        forall|m: int, k: usize|
            0 <= m < n_major && k < n_minor ==> #[trigger] value_at(lane(offsets, indices, values, m), k)
                == dense(m)[k as int],
{
    assert forall|m: int| 0 <= m < n_major implies strictly_keyed(
        #[trigger] lane(offsets, indices, values, m),
        n_minor,
    ) by {
        lemma_nonzeros_keyed(dense(m));
    }
    lemma_keyed_lanes_ok(offsets, indices, values, n_major, n_minor);
    assert forall|m: int, k: usize| 0 <= m < n_major && k < n_minor implies #[trigger] value_at(
        lane(offsets, indices, values, m),
        k,
    ) == dense(m)[k as int] by {
        lemma_nonzeros_value(dense(m), k);
    }
}


/// A two-axis array is determined by its shape and its elements.
pub proof fn lemma_matrix_ext<T>(d: TensorView<T>, m: TensorView<T>)
    requires
        d.wf(),
        m.wf(),
        m.shape.len() == 2,
        d.shape == m.shape,
        forall|i: int, j: int|
            0 <= i < m.shape[0] && 0 <= j < m.shape[1] ==> #[trigger] matrix_at(d, i, j) == matrix_at(m, i, j),
    ensures
        d == m,
{
    lemma_matrix_lanes(d);
    lemma_matrix_lanes(m);
    let (r, c) = (m.shape[0] as int, m.shape[1] as int);
    assert forall|q: int| 0 <= q < d.data.len() implies d.data[q] == m.data[q] by {
        assert(c > 0) by (nonlinear_arith)
            requires
                0 <= q < r * c,
                r >= 0,
                c >= 0,
        ;
        let (i, j) = (q / c, q % c);
        assert(q == i * c + j && 0 <= j < c && 0 <= i < r) by (nonlinear_arith)
            requires
                0 <= q < r * c,
                c > 0,
                i == q / c,
                j == q % c,
        ;
        assert(matrix_at(d, i, j) == matrix_at(m, i, j));
    }
    assert(d.data =~= m.data);
}


/// An assembled lane lists the nonzero duplicate sums of its keys: the
/// nonzero elements of the dense lane `k ↦ total(duplicates(m, k))`.
pub proof fn lemma_assembled_is_nonzeros<T: Scalar>(
    major: Seq<usize>,
    minor: Seq<usize>,
    values: Seq<T>,
    m: usize,
    c: int,
)
    requires
        0 <= c <= usize::MAX,
    ensures
        assembled(major, minor, values, m, c) == nonzeros(
            Seq::new(c as nat, |k: int| total(duplicates(major, minor, values, m, k as usize))),
        ),
    decreases c,
{
    let s = Seq::new(c as nat, |k: int| total(duplicates(major, minor, values, m, k as usize)));
    if c > 0 {
        lemma_assembled_is_nonzeros(major, minor, values, m, c - 1);
        let s0 = Seq::new((c - 1) as nat, |k: int| total(duplicates(major, minor, values, m, k as usize)));
        assert(s.drop_last() =~= s0);
        let d = duplicates(major, minor, values, m, (c - 1) as usize);
        if d.len() == 0 {
            assert(total(d) == T::zero_value());
        }
    } else {
        assert(s =~= Seq::<T>::empty());
    }
}

/// Two valid layouts with the same lanes have the same arrays.
pub proof fn lemma_lanes_determine<T>(
    o1: Seq<usize>,
    i1: Seq<usize>,
    v1: Seq<T>,
    o2: Seq<usize>,
    i2: Seq<usize>,
    v2: Seq<T>,
    n_major: int,
)
    requires
        0 <= n_major,
        offsets_ok(o1, n_major, i1.len() as int),
        offsets_ok(o2, n_major, i2.len() as int),
        v1.len() == i1.len(),
        v2.len() == i2.len(),
        forall|m: int| 0 <= m < n_major ==> #[trigger] lane(o1, i1, v1, m) == lane(o2, i2, v2, m),
    ensures
        o1 == o2,
        i1 == i2,
        v1 == v2,
{
    assert forall|m: int| 0 <= m <= n_major implies #[trigger] o1[m] == o2[m] by {
        lemma_offsets_agree(o1, i1, v1, o2, i2, v2, n_major, m);
    }
    assert(o1 =~= o2);
    assert(i1.len() == i2.len());
    assert forall|p: int| 0 <= p < i1.len() implies i1[p] == i2[p] && v1[p] == v2[p] by {
        lemma_offsets_locate(o1, n_major, i1.len() as int, p);
        let m = choose|m: int| 0 <= m < n_major && #[trigger] o1[m] <= p < o1[m + 1];
        lemma_lane_entry(o1, i1, v1, o2, i2, v2, m, p);
    }
    assert(i1 =~= i2);
    assert(v1.len() == v2.len());
    assert forall|p: int| 0 <= p < v1.len() implies v1[p] == v2[p] by {
        lemma_offsets_locate(o1, n_major, i1.len() as int, p);
        let m = choose|m: int| 0 <= m < n_major && #[trigger] o1[m] <= p < o1[m + 1];
        lemma_lane_entry(o1, i1, v1, o2, i2, v2, m, p);
    }
    assert(v1 =~= v2);
}

proof fn lemma_lane_entry<T>(
    o1: Seq<usize>,
    i1: Seq<usize>,
    v1: Seq<T>,
    o2: Seq<usize>,
    i2: Seq<usize>,
    v2: Seq<T>,
    m: int,
    p: int,
)
    requires
        o1 == o2,
        o1[m] <= p < o1[m + 1],
        lane(o1, i1, v1, m) == lane(o2, i2, v2, m),
    ensures
        i1[p] == i2[p],
        v1[p] == v2[p],
{
    let q = p - o1[m];
    assert(lane(o1, i1, v1, m)[q] == (i1[p], v1[p]));
    assert(lane(o2, i2, v2, m)[q] == (i2[p], v2[p]));
}

proof fn lemma_offsets_agree<T>(
    o1: Seq<usize>,
    i1: Seq<usize>,
    v1: Seq<T>,
    o2: Seq<usize>,
    i2: Seq<usize>,
    v2: Seq<T>,
    n_major: int,
    m: int,
)
    requires
        0 <= m <= n_major,
        offsets_ok(o1, n_major, i1.len() as int),
        offsets_ok(o2, n_major, i2.len() as int),
        forall|k: int| 0 <= k < n_major ==> #[trigger] lane(o1, i1, v1, k) == lane(o2, i2, v2, k),
    ensures
        o1[m] == o2[m],
    decreases m,
{
    if m > 0 {
        lemma_offsets_agree(o1, i1, v1, o2, i2, v2, n_major, m - 1);
        assert(o1[m - 1] <= o1[m]);
        assert(o2[m - 1] <= o2[m]);
        assert(lane(o1, i1, v1, m - 1).len() == lane(o2, i2, v2, m - 1).len());
    }
}

} // verus!
