//! How the conversions between sparse formats fit together: round trips
//! through transposition, and the agreement of the COO compressions.
use vstd::prelude::*;
use crate::domain::scalar::Scalar;
use super::compressed::{
    assembled, compressed_ok, duplicates, gathered, hits, lane, lemma_duplicates_swap, lemma_gathered_keyed,
    lemma_gathered_value, lemma_hits_value, lemma_lane_keyed, lemma_picked_positions, lemma_value_at_found,
    matching, offsets_ok, strictly_keyed, sums_ok, total, value_at,
};
use super::dense::{
    lemma_assembled_is_nonzeros, lemma_lanes_determine, lemma_matrix_ext, lemma_nonzeros_keyed, lemma_nonzeros_value,
    matrix_at, nonzeros,
};
use crate::application::tensor::TensorView;
use super::coo::CooView;
use super::csc::CscView;
use super::csr::CsrView;

verus! {

/// Some entry of `s` has key `k`.
pub open spec fn has_key<T>(s: Seq<(usize, T)>, k: usize) -> bool {
    exists|a: int| 0 <= a < s.len() && (#[trigger] s[a]).0 == k
}

/// Two strictly keyed entry lists holding the same keys, with the same value
/// at each, are the same list.
pub proof fn lemma_keyed_ext<T: Scalar>(s1: Seq<(usize, T)>, s2: Seq<(usize, T)>, bound: int)
    requires
        strictly_keyed(s1, bound),
        strictly_keyed(s2, bound),
        forall|k: usize| (k as int) < bound ==> #[trigger] has_key(s1, k) == has_key(s2, k),
        forall|k: usize| (k as int) < bound && has_key(s1, k) ==> #[trigger] value_at(s1, k) == value_at(s2, k),
    ensures
        s1 == s2,
    decreases s1.len(),
{
    if s1.len() == 0 {
        if s2.len() > 0 {
            let k = s2[0].0;
            assert(has_key(s2, k));
            assert(!has_key(s1, k));
        }
        assert(s1 =~= s2);
    } else {
        if s2.len() == 0 {
            let k = s1[0].0;
            assert(has_key(s1, k));
            assert(!has_key(s2, k));
        }
        let (n1, n2) = (s1.len() - 1, s2.len() - 1);
        let (k1, k2) = (s1[n1].0, s2[n2].0);
        assert(has_key(s1, k1));
        assert(has_key(s2, k2));
        assert(has_key(s2, k1) == has_key(s1, k1));
        assert(has_key(s1, k2) == has_key(s2, k2));
        let b = choose|a: int| 0 <= a < s2.len() && (#[trigger] s2[a]).0 == k1;
        let c = choose|a: int| 0 <= a < s1.len() && (#[trigger] s1[a]).0 == k2;
        if b < n2 {
            assert(s2[b].0 < s2[n2].0);
        }
        if c < n1 {
            assert(s1[c].0 < s1[n1].0);
        }
        assert(k1 == k2);
        lemma_value_at_found(s1, bound, n1);
        lemma_value_at_found(s2, bound, n2);
        let (d1, d2) = (s1.drop_last(), s2.drop_last());
        assert(strictly_keyed(d1, k1 as int)) by {
            assert forall|a: int, x: int| 0 <= a < x < d1.len() implies (#[trigger] d1[a]).0 < (#[trigger] d1[x]).0 by {
                assert(s1[a].0 < s1[x].0);
            }
            assert forall|a: int| 0 <= a < d1.len() implies (#[trigger] d1[a]).0 < k1 as int by {
                assert(s1[a].0 < s1[n1].0);
            }
        }
        assert(strictly_keyed(d2, k1 as int)) by {
            assert forall|a: int, x: int| 0 <= a < x < d2.len() implies (#[trigger] d2[a]).0 < (#[trigger] d2[x]).0 by {
                assert(s2[a].0 < s2[x].0);
            }
            assert forall|a: int| 0 <= a < d2.len() implies (#[trigger] d2[a]).0 < k1 as int by {
                assert(s2[a].0 < s2[n2].0);
            }
        }
        assert forall|k: usize| (k as int) < k1 as int implies #[trigger] has_key(d1, k) == has_key(d2, k) by {
            assert(has_key(d1, k) == has_key(s1, k)) by {
                if has_key(s1, k) {
                    let a = choose|a: int| 0 <= a < s1.len() && (#[trigger] s1[a]).0 == k;
                    assert(d1[a] == s1[a]);
                }
                if has_key(d1, k) {
                    let a = choose|a: int| 0 <= a < d1.len() && (#[trigger] d1[a]).0 == k;
                    assert(s1[a] == d1[a]);
                }
            }
            assert(has_key(d2, k) == has_key(s2, k)) by {
                if has_key(s2, k) {
                    let a = choose|a: int| 0 <= a < s2.len() && (#[trigger] s2[a]).0 == k;
                    assert(d2[a] == s2[a]);
                }
                if has_key(d2, k) {
                    let a = choose|a: int| 0 <= a < d2.len() && (#[trigger] d2[a]).0 == k;
                    assert(s2[a] == d2[a]);
                }
            }
            assert((k as int) < bound);
        }
        assert forall|k: usize| (k as int) < k1 as int && has_key(d1, k) implies #[trigger] value_at(d1, k) == value_at(
            d2,
            k,
        ) by {
            let a = choose|a: int| 0 <= a < d1.len() && (#[trigger] d1[a]).0 == k;
            assert(s1[a] == d1[a]);
            assert(has_key(s1, k));
            assert(has_key(d2, k));
            let x = choose|x: int| 0 <= x < d2.len() && (#[trigger] d2[x]).0 == k;
            assert(s2[x] == d2[x]);
            lemma_value_at_found(d1, k1 as int, a);
            lemma_value_at_found(s1, bound, a);
            lemma_value_at_found(d2, k1 as int, x);
            lemma_value_at_found(s2, bound, x);
            assert((k as int) < bound);
        }
        lemma_keyed_ext(d1, d2, k1 as int);
        assert(s1 =~= d1.push(s1[n1]));
        assert(s2 =~= d2.push(s2[n2]));
    }
}

/// Lane `k` of the transpose, collected from source lanes `0 .. c`, has key
/// `i` exactly when `i < c` and source lane `i` has key `k`.
pub proof fn lemma_gathered_has_key<T: Scalar>(
    offsets: Seq<usize>,
    indices: Seq<usize>,
    values: Seq<T>,
    nnz: int,
    n_major: int,
    n_minor: int,
    k: usize,
    c: int,
    i: usize,
)
    requires
        compressed_ok(offsets, indices, nnz, n_major, n_minor),
        values.len() == nnz,
        0 <= c <= n_major,
        n_major <= usize::MAX,
        n_minor <= usize::MAX,
    ensures
        has_key(gathered(offsets, indices, values, k, c), i) == ((i as int) < c && has_key(
            lane(offsets, indices, values, i as int),
            k,
        )),
    decreases c,
{
    let cur = gathered(offsets, indices, values, k, c);
    if c == 0 {
        assert(cur.len() == 0);
    } else {
        lemma_gathered_has_key(offsets, indices, values, nnz, n_major, n_minor, k, c - 1, i);
        let prev = gathered(offsets, indices, values, k, c - 1);
        let l = lane(offsets, indices, values, c - 1);
        lemma_lane_keyed(offsets, indices, values, nnz, n_major, n_minor, c - 1);
        lemma_hits_value(l, k, (c - 1) as usize);
        if has_key(l, k) {
            assert(cur =~= prev.push(((c - 1) as usize, value_at(l, k))));
            if i as int == c - 1 {
                assert(cur[prev.len() as int].0 == i);
            } else {
                if has_key(cur, i) {
                    let a = choose|a: int| 0 <= a < cur.len() && (#[trigger] cur[a]).0 == i;
                    assert(a < prev.len());
                    assert(prev[a] == cur[a]);
                }
                if has_key(prev, i) {
                    let a = choose|a: int| 0 <= a < prev.len() && (#[trigger] prev[a]).0 == i;
                    assert(prev[a] == cur[a]);
                }
            }
        } else {
            assert(cur =~= prev);
        }
    }
}

/// Transposing a compressed layout twice gives it back: if the lanes of the
/// second layout are gathered from the first, and the lanes of the third
/// from the second, the third is the first, array for array.
pub proof fn lemma_double_gather<T: Scalar>(
    o: Seq<usize>,
    ix: Seq<usize>,
    v: Seq<T>,
    n_major: int,
    n_minor: int,
    o2: Seq<usize>,
    ix2: Seq<usize>,
    v2: Seq<T>,
    o3: Seq<usize>,
    ix3: Seq<usize>,
    v3: Seq<T>,
)
    requires
        0 <= n_major <= usize::MAX,
        0 <= n_minor <= usize::MAX,
        compressed_ok(o, ix, ix.len() as int, n_major, n_minor),
        v.len() == ix.len(),
        compressed_ok(o2, ix2, ix2.len() as int, n_minor, n_major),
        v2.len() == ix2.len(),
        forall|k: int| 0 <= k < n_minor ==> #[trigger] lane(o2, ix2, v2, k) == gathered(o, ix, v, k as usize, n_major),
        compressed_ok(o3, ix3, ix3.len() as int, n_major, n_minor),
        v3.len() == ix3.len(),
        forall|m: int|
            0 <= m < n_major ==> #[trigger] lane(o3, ix3, v3, m) == gathered(o2, ix2, v2, m as usize, n_minor),
    ensures
        o3 == o,
        ix3 == ix,
        v3 == v,
{
    assert forall|m: int| 0 <= m < n_major implies #[trigger] lane(o3, ix3, v3, m) == lane(o, ix, v, m) by {
        let s1 = lane(o3, ix3, v3, m);
        let s2 = lane(o, ix, v, m);
        lemma_gathered_keyed(o2, ix2, v2, ix2.len() as int, n_minor, n_major, m as usize, n_minor);
        lemma_lane_keyed(o, ix, v, ix.len() as int, n_major, n_minor, m);
        assert forall|k: usize| (k as int) < n_minor implies #[trigger] has_key(s1, k) == has_key(s2, k) by {
            lemma_gathered_has_key(o2, ix2, v2, ix2.len() as int, n_minor, n_major, m as usize, n_minor, k);
            lemma_gathered_has_key(o, ix, v, ix.len() as int, n_major, n_minor, k, n_major, m as usize);
        }
        assert forall|k: usize| (k as int) < n_minor && has_key(s1, k) implies #[trigger] value_at(s1, k)
            == value_at(s2, k) by {
            lemma_gathered_value(o2, ix2, v2, ix2.len() as int, n_minor, n_major, m as usize, n_minor, k);
            lemma_gathered_value(o, ix, v, ix.len() as int, n_major, n_minor, k, n_major, m as usize);
        }
        lemma_keyed_ext(s1, s2, n_minor);
    }
    lemma_lanes_determine(o3, ix3, v3, o, ix, v, n_major);
}

/// Transposing a CSR matrix twice gives it back, array for array: whatever
/// two calls of `transpose` return, as their contracts state them.
pub proof fn lemma_transpose_round_trip<T: Scalar>(a: CsrView<T>, t: CsrView<T>, tt: CsrView<T>)
    requires
        a.wf(),
        a.ncols < usize::MAX,
        t.wf(),
        t.nrows == a.ncols,
        t.ncols == a.nrows,
        forall|k: int|
            0 <= k < a.ncols ==> #[trigger] t.row(k) == gathered(
                a.row_ptr,
                a.col_indices,
                a.values,
                k as usize,
                a.nrows as int,
            ),
        tt.wf(),
        tt.nrows == t.ncols,
        tt.ncols == t.nrows,
        forall|k: int|
            0 <= k < t.ncols ==> #[trigger] tt.row(k) == gathered(
                t.row_ptr,
                t.col_indices,
                t.values,
                k as usize,
                t.nrows as int,
            ),
    ensures
        tt == a,
{
    assert forall|k: int| 0 <= k < a.ncols implies #[trigger] lane(t.row_ptr, t.col_indices, t.values, k) == gathered(
        a.row_ptr,
        a.col_indices,
        a.values,
        k as usize,
        a.nrows as int,
    ) by {
        assert(t.row(k) == lane(t.row_ptr, t.col_indices, t.values, k));
    }
    assert forall|m: int| 0 <= m < a.nrows implies #[trigger] lane(tt.row_ptr, tt.col_indices, tt.values, m)
        == gathered(t.row_ptr, t.col_indices, t.values, m as usize, t.nrows as int) by {
        assert(tt.row(m) == lane(tt.row_ptr, tt.col_indices, tt.values, m));
    }
    lemma_double_gather(
        a.row_ptr,
        a.col_indices,
        a.values,
        a.nrows as int,
        a.ncols as int,
        t.row_ptr,
        t.col_indices,
        t.values,
        tt.row_ptr,
        tt.col_indices,
        tt.values,
    );
}

/// A CSC matrix converted to the CSR form of the same matrix (the
/// transpose of its `transpose`) and back with `CscMatrix::from_csr` is the
/// matrix again, array for array.
pub proof fn lemma_csc_round_trip<T: Scalar>(c: CscView<T>, u: CsrView<T>, c2: CscView<T>)
    requires
        c.wf(),
        c.nrows < usize::MAX,
        u.wf(),
        u.nrows == c.nrows,
        u.ncols == c.ncols,
        forall|i: int|
            0 <= i < c.nrows ==> #[trigger] u.row(i) == gathered(
                c.col_ptr,
                c.row_indices,
                c.values,
                i as usize,
                c.ncols as int,
            ),
        c2.wf(),
        c2.nrows == u.nrows,
        c2.ncols == u.ncols,
        forall|j: int|
            0 <= j < u.ncols ==> #[trigger] c2.column(j) == gathered(
                u.row_ptr,
                u.col_indices,
                u.values,
                j as usize,
                u.nrows as int,
            ),
    ensures
        c2 == c,
{
    assert forall|i: int| 0 <= i < c.nrows implies #[trigger] lane(u.row_ptr, u.col_indices, u.values, i) == gathered(
        c.col_ptr,
        c.row_indices,
        c.values,
        i as usize,
        c.ncols as int,
    ) by {
        assert(u.row(i) == lane(u.row_ptr, u.col_indices, u.values, i));
    }
    assert forall|j: int| 0 <= j < c.ncols implies #[trigger] lane(c2.col_ptr, c2.row_indices, c2.values, j)
        == gathered(u.row_ptr, u.col_indices, u.values, j as usize, u.nrows as int) by {
        assert(c2.column(j) == lane(c2.col_ptr, c2.row_indices, c2.values, j));
    }
    lemma_double_gather(
        c.col_ptr,
        c.row_indices,
        c.values,
        c.ncols as int,
        c.nrows as int,
        u.row_ptr,
        u.col_indices,
        u.values,
        c2.col_ptr,
        c2.row_indices,
        c2.values,
    );
}

/// The nonzero entries of a dense lane have key `k` exactly when element `k`
/// is not zero.
proof fn lemma_nonzeros_has_key<T: Scalar>(s: Seq<T>, k: usize)
    requires
        s.len() <= usize::MAX,
    ensures
        has_key(nonzeros(s), k) == ((k as int) < s.len() && s[k as int] != T::zero_value()),
    decreases s.len(),
{
    if s.len() > 0 {
        let d = s.drop_last();
        let n = d.len() as int;
        lemma_nonzeros_has_key(d, k);
        lemma_nonzeros_keyed(d);
        let prev = nonzeros(d);
        let cur = nonzeros(s);
        if s.last() != T::zero_value() {
            assert(cur =~= prev.push((n as usize, s.last())));
            if k as int == n {
                assert(cur[prev.len() as int].0 == k);
            } else {
                if has_key(cur, k) {
                    let a = choose|a: int| 0 <= a < cur.len() && (#[trigger] cur[a]).0 == k;
                    assert(a < prev.len());
                    assert(prev[a] == cur[a]);
                }
                if has_key(prev, k) {
                    let a = choose|a: int| 0 <= a < prev.len() && (#[trigger] prev[a]).0 == k;
                    assert(prev[a] == cur[a]);
                }
            }
        } else {
            assert(cur == prev);
        }
        if (k as int) < n {
            assert(d[k as int] == s[k as int]);
        }
    }
}

/// Compressing a triplet list straight to CSC gives, array for array, what
/// compressing it to CSR and converting that with `CscMatrix::from_csr`
/// gives: whatever `to_csc`, `to_csr` and `from_csr` return, as their
/// contracts state them.
pub proof fn lemma_to_csc_matches_from_csr<T: Scalar>(c: CooView<T>, r: CsrView<T>, s: CscView<T>, q: CscView<T>)
    requires
        c.wf(),
        c.values.len() <= usize::MAX,
        c.nrows < usize::MAX,
        c.ncols < usize::MAX,
        sums_ok(c.row_indices, c.col_indices, c.values, c.nrows as int, c.ncols as int),
        r.wf(),
        r.nrows == c.nrows,
        r.ncols == c.ncols,
        forall|i: int|
            0 <= i < c.nrows ==> #[trigger] r.row(i) == assembled(
                c.row_indices,
                c.col_indices,
                c.values,
                i as usize,
                c.ncols as int,
            ),
        s.wf(),
        s.nrows == r.nrows,
        s.ncols == r.ncols,
        forall|j: int|
            0 <= j < r.ncols ==> #[trigger] s.column(j) == gathered(
                r.row_ptr,
                r.col_indices,
                r.values,
                j as usize,
                r.nrows as int,
            ),
        q.wf(),
        q.nrows == c.nrows,
        q.ncols == c.ncols,
        forall|j: int|
            0 <= j < c.ncols ==> #[trigger] q.column(j) == assembled(
                c.col_indices,
                c.row_indices,
                c.values,
                j as usize,
                c.nrows as int,
            ),
    ensures
        q == s,
{
    let (nr, nc) = (c.nrows as int, c.ncols as int);
    assert forall|j: int| 0 <= j < nc implies #[trigger] lane(q.col_ptr, q.row_indices, q.values, j) == lane(
        s.col_ptr,
        s.row_indices,
        s.values,
        j,
    ) by {
        let s1 = q.column(j);
        let s2 = s.column(j);
        let qd = Seq::new(nr as nat, |k: int| total(duplicates(c.col_indices, c.row_indices, c.values, j as usize, k as usize)));
        lemma_assembled_is_nonzeros(c.col_indices, c.row_indices, c.values, j as usize, nr);
        lemma_lane_keyed(q.col_ptr, q.row_indices, q.values, q.values.len() as int, nc, nr, j);
        lemma_lane_keyed(s.col_ptr, s.row_indices, s.values, s.values.len() as int, nc, nr, j);
        assert forall|i: usize| (i as int) < nr implies #[trigger] has_key(s1, i) == has_key(s2, i) && value_at(s1, i)
            == value_at(s2, i) by {
            let rd = Seq::new(nc as nat, |k: int| total(duplicates(c.row_indices, c.col_indices, c.values, i, k as usize)));
            lemma_assembled_is_nonzeros(c.row_indices, c.col_indices, c.values, i, nc);
            assert(r.row(i as int) == nonzeros(rd));
            lemma_gathered_has_key(r.row_ptr, r.col_indices, r.values, r.values.len() as int, nr, nc, j as usize, nr, i);
            lemma_gathered_value(r.row_ptr, r.col_indices, r.values, r.values.len() as int, nr, nc, j as usize, nr, i);
            lemma_nonzeros_has_key(rd, j as usize);
            lemma_nonzeros_value(rd, j as usize);
            lemma_nonzeros_has_key(qd, i);
            lemma_nonzeros_value(qd, i);
            lemma_duplicates_swap(c.row_indices, c.col_indices, c.values, i, j as usize);
        }
        lemma_keyed_ext(s1, s2, nr);
    }
    lemma_lanes_determine(q.col_ptr, q.row_indices, q.values, s.col_ptr, s.row_indices, s.values, nc);
}

/// Stored entries in lanes `0 .. c`.
spec fn lane_total<T>(o: Seq<usize>, ix: Seq<usize>, v: Seq<T>, c: int) -> int
    decreases c,
{
    if c <= 0 {
        0
    } else {
        lane_total(o, ix, v, c - 1) + lane(o, ix, v, c - 1).len()
    }
}

proof fn lemma_lane_total<T>(o: Seq<usize>, ix: Seq<usize>, v: Seq<T>, n_major: int, nnz: int, c: int)
    requires
        offsets_ok(o, n_major, nnz),
        0 <= c <= n_major,
    ensures
        lane_total(o, ix, v, c) == o[c],
    decreases c,
{
    if c > 0 {
        lemma_lane_total(o, ix, v, n_major, nnz, c - 1);
        assert(o[c - 1] <= o[c]);
    }
}

/// Entries of `hits(l, k, tag)` over keys `k < kn`.
spec fn hits_total<T>(l: Seq<(usize, T)>, tag: usize, kn: int) -> int
    decreases kn,
{
    if kn <= 0 {
        0
    } else {
        hits_total(l, tag, kn - 1) + hits(l, (kn - 1) as usize, tag).len()
    }
}

proof fn lemma_hits_total_empty<T>(l: Seq<(usize, T)>, tag: usize, kn: int)
    requires
        l.len() == 0,
    ensures
        hits_total(l, tag, kn) == 0,
    decreases kn,
{
    if kn > 0 {
        lemma_hits_total_empty(l, tag, kn - 1);
    }
}

proof fn lemma_hits_total_step<T>(l: Seq<(usize, T)>, tag: usize, kn: int)
    requires
        l.len() > 0,
        0 <= kn <= usize::MAX as int + 1,
    ensures
        hits_total(l, tag, kn) == hits_total(l.drop_last(), tag, kn) + (if (l.last().0 as int) < kn {
            1int
        } else {
            0
        }),
    decreases kn,
{
    if kn > 0 {
        lemma_hits_total_step(l, tag, kn - 1);
    }
}

/// A strictly keyed lane with keys below `n` hits each of its keys once.
proof fn lemma_hits_total<T>(l: Seq<(usize, T)>, tag: usize, n: int)
    requires
        strictly_keyed(l, n),
        0 <= n <= usize::MAX as int + 1,
    ensures
        hits_total(l, tag, n) == l.len(),
    decreases l.len(),
{
    if l.len() == 0 {
        lemma_hits_total_empty(l, tag, n);
    } else {
        let d = l.drop_last();
        assert(strictly_keyed(d, n)) by {
            assert forall|a: int, b: int| 0 <= a < b < d.len() implies (#[trigger] d[a]).0 < (#[trigger] d[b]).0 by {
                assert(l[a].0 < l[b].0);
            }
            assert forall|a: int| 0 <= a < d.len() implies (#[trigger] d[a]).0 < n by {
                assert(l[a].0 < n);
            }
        }
        lemma_hits_total(d, tag, n);
        lemma_hits_total_step(l, tag, n);
        assert(l[l.len() - 1].0 < n);
    }
}

/// Entries of the transposed lanes `k < kn`, collected from source lanes
/// `0 .. c`.
spec fn gathered_total<T>(o: Seq<usize>, ix: Seq<usize>, v: Seq<T>, c: int, kn: int) -> int
    decreases kn,
{
    if kn <= 0 {
        0
    } else {
        gathered_total(o, ix, v, c, kn - 1) + gathered(o, ix, v, (kn - 1) as usize, c).len()
    }
}

proof fn lemma_gathered_total_zero<T>(o: Seq<usize>, ix: Seq<usize>, v: Seq<T>, kn: int)
    ensures
        gathered_total(o, ix, v, 0, kn) == 0,
    decreases kn,
{
    if kn > 0 {
        lemma_gathered_total_zero(o, ix, v, kn - 1);
    }
}

proof fn lemma_gathered_total_step<T>(o: Seq<usize>, ix: Seq<usize>, v: Seq<T>, c: int, kn: int)
    requires
        c > 0,
    ensures
        gathered_total(o, ix, v, c, kn) == gathered_total(o, ix, v, c - 1, kn) + hits_total(
            lane(o, ix, v, c - 1),
            (c - 1) as usize,
            kn,
        ),
    decreases kn,
{
    if kn > 0 {
        lemma_gathered_total_step(o, ix, v, c, kn - 1);
    }
}

/// The transposed lanes hold as many entries together as the source lanes
/// `0 .. c`.
proof fn lemma_gathered_total<T>(o: Seq<usize>, ix: Seq<usize>, v: Seq<T>, nnz: int, n_major: int, n_minor: int, c: int)
    requires
        compressed_ok(o, ix, nnz, n_major, n_minor),
        v.len() == nnz,
        0 <= c <= n_major,
        0 <= n_minor <= usize::MAX,
    ensures
        gathered_total(o, ix, v, c, n_minor) == o[c],
    decreases c,
{
    if c == 0 {
        lemma_gathered_total_zero(o, ix, v, n_minor);
    } else {
        lemma_gathered_total(o, ix, v, nnz, n_major, n_minor, c - 1);
        lemma_gathered_total_step(o, ix, v, c, n_minor);
        lemma_lane_keyed(o, ix, v, nnz, n_major, n_minor, c - 1);
        lemma_hits_total(lane(o, ix, v, c - 1), (c - 1) as usize, n_minor);
        assert(o[c - 1] <= o[c]);
    }
}

proof fn lemma_lanes_are_gathered<T>(
    o: Seq<usize>,
    ix: Seq<usize>,
    v: Seq<T>,
    m_src: int,
    o2: Seq<usize>,
    ix2: Seq<usize>,
    v2: Seq<T>,
    n: int,
    c: int,
)
    requires
        0 <= c <= n,
        forall|k: int| 0 <= k < n ==> #[trigger] lane(o2, ix2, v2, k) == gathered(o, ix, v, k as usize, m_src),
    ensures
        lane_total(o2, ix2, v2, c) == gathered_total(o, ix, v, m_src, c),
    decreases c,
{
    if c > 0 {
        lemma_lanes_are_gathered(o, ix, v, m_src, o2, ix2, v2, n, c - 1);
        assert(lane(o2, ix2, v2, c - 1) == gathered(o, ix, v, (c - 1) as usize, m_src));
    }
}

/// A compressed layout whose lanes are gathered from another layout (its
/// transpose) stores as many entries as that layout.
pub proof fn lemma_gathered_layout_count<T>(
    o: Seq<usize>,
    ix: Seq<usize>,
    v: Seq<T>,
    n_major: int,
    n_minor: int,
    o2: Seq<usize>,
    ix2: Seq<usize>,
    v2: Seq<T>,
    nnz2: int,
)
    requires
        compressed_ok(o, ix, v.len() as int, n_major, n_minor),
        v.len() == ix.len(),
        0 <= n_major,
        0 <= n_minor <= usize::MAX,
        offsets_ok(o2, n_minor, nnz2),
        forall|k: int| 0 <= k < n_minor ==> #[trigger] lane(o2, ix2, v2, k) == gathered(o, ix, v, k as usize, n_major),
    ensures
        nnz2 == v.len(),
{
    lemma_lanes_are_gathered(o, ix, v, n_major, o2, ix2, v2, n_minor, n_minor);
    lemma_lane_total(o2, ix2, v2, n_minor, nnz2, n_minor);
    lemma_gathered_total(o, ix, v, v.len() as int, n_major, n_minor, n_major);
}

/// Converting CSR to CSC keeps the number of stored entries: whatever
/// `CscMatrix::from_csr` returns, as its contract states it.
pub proof fn lemma_from_csr_keeps_nnz<T>(r: CsrView<T>, s: CscView<T>)
    requires
        r.wf(),
        r.ncols < usize::MAX,
        s.wf(),
        s.nrows == r.nrows,
        s.ncols == r.ncols,
        forall|j: int|
            0 <= j < r.ncols ==> #[trigger] s.column(j) == gathered(
                r.row_ptr,
                r.col_indices,
                r.values,
                j as usize,
                r.nrows as int,
            ),
    ensures
        s.values.len() == r.values.len(),
{
    let (nr, nc) = (r.nrows as int, r.ncols as int);
    assert forall|k: int| 0 <= k < nc implies #[trigger] lane(s.col_ptr, s.row_indices, s.values, k) == gathered(
        r.row_ptr,
        r.col_indices,
        r.values,
        k as usize,
        nr,
    ) by {
        assert(s.column(k) == lane(s.col_ptr, s.row_indices, s.values, k));
    }
    lemma_gathered_layout_count(r.row_ptr, r.col_indices, r.values, nr, nc, s.col_ptr, s.row_indices, s.values,
        s.values.len() as int);
}

/// Triplets at `(m, k)` over minor keys `k < c`, among the first `n`.
spec fn pair_total<T>(major: Seq<usize>, minor: Seq<usize>, values: Seq<T>, m: usize, c: int, n: int) -> int
    decreases c,
{
    if c <= 0 {
        0
    } else {
        pair_total(major, minor, values, m, c - 1, n) + matching(major, minor, values, m, (c - 1) as usize, n).len()
    }
}

/// Triplets with major key below `rows` and minor key below `c`, among the
/// first `n`.
spec fn grid_total<T>(major: Seq<usize>, minor: Seq<usize>, values: Seq<T>, rows: int, c: int, n: int) -> int
    decreases rows,
{
    if rows <= 0 {
        0
    } else {
        grid_total(major, minor, values, rows - 1, c, n) + pair_total(major, minor, values, (rows - 1) as usize, c, n)
    }
}

proof fn lemma_pair_step<T>(major: Seq<usize>, minor: Seq<usize>, values: Seq<T>, m: usize, c: int, n: int)
    requires
        n > 0,
        0 <= c <= usize::MAX as int + 1,
    ensures
        pair_total(major, minor, values, m, c, n) == pair_total(major, minor, values, m, c, n - 1) + (if major[n - 1]
            == m && (minor[n - 1] as int) < c {
            1int
        } else {
            0
        }),
    decreases c,
{
    if c > 0 {
        lemma_pair_step(major, minor, values, m, c - 1, n);
    }
}

proof fn lemma_grid_step<T>(major: Seq<usize>, minor: Seq<usize>, values: Seq<T>, rows: int, c: int, n: int)
    requires
        n > 0,
        0 <= rows <= usize::MAX as int + 1,
        0 <= c <= usize::MAX as int + 1,
    ensures
        grid_total(major, minor, values, rows, c, n) == grid_total(major, minor, values, rows, c, n - 1) + (if (major[n
            - 1] as int) < rows && (minor[n - 1] as int) < c {
            1int
        } else {
            0
        }),
    decreases rows,
{
    if rows > 0 {
        lemma_grid_step(major, minor, values, rows - 1, c, n);
        lemma_pair_step(major, minor, values, (rows - 1) as usize, c, n);
    }
}

proof fn lemma_grid_zero<T>(major: Seq<usize>, minor: Seq<usize>, values: Seq<T>, rows: int, c: int)
    ensures
        grid_total(major, minor, values, rows, c, 0) == 0,
    decreases rows,
{
    if rows > 0 {
        lemma_grid_zero(major, minor, values, rows - 1, c);
        lemma_pair_zero(major, minor, values, (rows - 1) as usize, c);
    }
}

proof fn lemma_pair_zero<T>(major: Seq<usize>, minor: Seq<usize>, values: Seq<T>, m: usize, c: int)
    ensures
        pair_total(major, minor, values, m, c, 0) == 0,
    decreases c,
{
    if c > 0 {
        lemma_pair_zero(major, minor, values, m, c - 1);
    }
}

/// Every one of the first `n` triplets lies in the grid, once.
proof fn lemma_grid_total<T>(major: Seq<usize>, minor: Seq<usize>, values: Seq<T>, rows: int, c: int, n: int)
    requires
        0 <= n <= major.len(),
        n <= minor.len(),
        0 <= rows <= usize::MAX as int + 1,
        0 <= c <= usize::MAX as int + 1,
        forall|p: int| 0 <= p < n ==> (#[trigger] major[p] as int) < rows,
        forall|p: int| 0 <= p < n ==> (#[trigger] minor[p] as int) < c,
    ensures
        grid_total(major, minor, values, rows, c, n) == n,
    decreases n,
{
    if n == 0 {
        lemma_grid_zero(major, minor, values, rows, c);
    } else {
        lemma_grid_total(major, minor, values, rows, c, n - 1);
        lemma_grid_step(major, minor, values, rows, c, n);
        assert((major[n - 1] as int) < rows);
        assert((minor[n - 1] as int) < c);
    }
}

/// An assembled lane holds at most one entry per key with triplets.
proof fn lemma_assembled_len<T: Scalar>(major: Seq<usize>, minor: Seq<usize>, values: Seq<T>, m: usize, c: int)
    requires
        0 <= c <= usize::MAX as int + 1,
        minor.len() <= usize::MAX,
    ensures
        assembled(major, minor, values, m, c).len() <= pair_total(major, minor, values, m, c, minor.len() as int),
    decreases c,
{
    if c > 0 {
        lemma_assembled_len(major, minor, values, m, c - 1);
        lemma_picked_positions(major, minor, values, m, (c - 1) as usize, minor.len() as int);
        assert(duplicates(major, minor, values, m, (c - 1) as usize) == matching(
            major,
            minor,
            values,
            m,
            (c - 1) as usize,
            minor.len() as int,
        ));
    }
}

proof fn lemma_assembled_lanes_bound<T: Scalar>(
    o: Seq<usize>,
    ix: Seq<usize>,
    v: Seq<T>,
    major: Seq<usize>,
    minor: Seq<usize>,
    values: Seq<T>,
    n_major: int,
    n_minor: int,
    c: int,
)
    requires
        0 <= c <= n_major,
        0 <= n_minor <= usize::MAX,
        minor.len() <= usize::MAX,
        forall|m: int| 0 <= m < n_major ==> #[trigger] lane(o, ix, v, m) == assembled(major, minor, values, m as usize, n_minor),
    ensures
        lane_total(o, ix, v, c) <= grid_total(major, minor, values, c, n_minor, minor.len() as int),
    decreases c,
{
    if c > 0 {
        lemma_assembled_lanes_bound(o, ix, v, major, minor, values, n_major, n_minor, c - 1);
        assert(lane(o, ix, v, c - 1) == assembled(major, minor, values, (c - 1) as usize, n_minor));
        lemma_assembled_len(major, minor, values, (c - 1) as usize, n_minor);
    }
}

/// A compressed layout whose lanes are assembled from `n` triplets, all in
/// range, stores at most `n` entries.
pub proof fn lemma_assembled_layout_count<T: Scalar>(
    o: Seq<usize>,
    ix: Seq<usize>,
    v: Seq<T>,
    nnz: int,
    major: Seq<usize>,
    minor: Seq<usize>,
    values: Seq<T>,
    n_major: int,
    n_minor: int,
)
    requires
        offsets_ok(o, n_major, nnz),
        0 <= n_major <= usize::MAX,
        0 <= n_minor <= usize::MAX,
        major.len() == minor.len(),
        minor.len() <= usize::MAX,
        forall|p: int| 0 <= p < minor.len() ==> (#[trigger] major[p] as int) < n_major,
        forall|p: int| 0 <= p < minor.len() ==> (#[trigger] minor[p] as int) < n_minor,
        forall|m: int|
            0 <= m < n_major ==> #[trigger] lane(o, ix, v, m) == assembled(major, minor, values, m as usize, n_minor),
    ensures
        nnz <= minor.len(),
{
    lemma_lane_total(o, ix, v, n_major, nnz, n_major);
    lemma_assembled_lanes_bound(o, ix, v, major, minor, values, n_major, n_minor, n_major);
    lemma_grid_total(major, minor, values, n_major, n_minor, minor.len() as int);
}

/// Compressing a triplet list to CSR or to CSC stores at most as many
/// entries as there are triplets: duplicates are summed into one entry and
/// zero sums dropped. Whatever `to_csr` and `to_csc` return, as their
/// contracts state them.
pub proof fn lemma_compressed_count_bound<T: Scalar>(c: CooView<T>, r: CsrView<T>, q: CscView<T>)
    requires
        c.wf(),
        c.values.len() <= usize::MAX,
        c.nrows < usize::MAX,
        c.ncols < usize::MAX,
        r.wf(),
        r.nrows == c.nrows,
        r.ncols == c.ncols,
        forall|i: int|
            0 <= i < c.nrows ==> #[trigger] r.row(i) == assembled(
                c.row_indices,
                c.col_indices,
                c.values,
                i as usize,
                c.ncols as int,
            ),
        q.wf(),
        q.nrows == c.nrows,
        q.ncols == c.ncols,
        forall|j: int|
            0 <= j < c.ncols ==> #[trigger] q.column(j) == assembled(
                c.col_indices,
                c.row_indices,
                c.values,
                j as usize,
                c.nrows as int,
            ),
    ensures
        r.values.len() <= c.values.len(),
        q.values.len() <= c.values.len(),
{
    let (nr, nc) = (c.nrows as int, c.ncols as int);
    assert forall|m: int| 0 <= m < nr implies #[trigger] lane(r.row_ptr, r.col_indices, r.values, m) == assembled(
        c.row_indices,
        c.col_indices,
        c.values,
        m as usize,
        nc,
    ) by {
        assert(r.row(m) == lane(r.row_ptr, r.col_indices, r.values, m));
    }
    assert forall|m: int| 0 <= m < nc implies #[trigger] lane(q.col_ptr, q.row_indices, q.values, m) == assembled(
        c.col_indices,
        c.row_indices,
        c.values,
        m as usize,
        nr,
    ) by {
        assert(q.column(m) == lane(q.col_ptr, q.row_indices, q.values, m));
    }
    lemma_assembled_layout_count(r.row_ptr, r.col_indices, r.values, r.values.len() as int, c.row_indices,
        c.col_indices, c.values, nr, nc);
    lemma_assembled_layout_count(q.col_ptr, q.row_indices, q.values, q.values.len() as int, c.col_indices,
        c.row_indices, c.values, nc, nr);
}

/// The dense form of a triplet list is the dense form of its CSR and of its
/// CSC compression: whatever `CooMatrix::to_dense`, `to_csr`, `to_csc` and
/// the two `to_dense` of the compressed formats return, as their contracts
/// state them.
pub proof fn lemma_compressions_keep_dense<T: Scalar>(
    c: CooView<T>,
    r: CsrView<T>,
    q: CscView<T>,
    d: TensorView<T>,
    dr: TensorView<T>,
    dq: TensorView<T>,
)
    requires
        forall|i: int, j: usize|
            0 <= i < c.nrows && j < c.ncols ==> #[trigger] r.entry(i, j) == c.entry(i as usize, j),
        forall|i: usize, j: int|
            i < c.nrows && 0 <= j < c.ncols ==> #[trigger] q.entry(i, j) == c.entry(i, j as usize),
        d.wf(),
        d.shape == seq![c.nrows, c.ncols],
        forall|i: int, j: int|
            0 <= i < c.nrows && 0 <= j < c.ncols ==> #[trigger] matrix_at(d, i, j) == c.entry(i as usize, j as usize),
        dr.wf(),
        dr.shape == seq![c.nrows, c.ncols],
        forall|i: int, j: int|
            0 <= i < c.nrows && 0 <= j < c.ncols ==> #[trigger] matrix_at(dr, i, j) == r.entry(i, j as usize),
        dq.wf(),
        dq.shape == seq![c.nrows, c.ncols],
        forall|i: int, j: int|
            0 <= i < c.nrows && 0 <= j < c.ncols ==> #[trigger] matrix_at(dq, i, j) == q.entry(i as usize, j),
    ensures
        dr == d,
        dq == d,
{
    assert forall|i: int, j: int| 0 <= i < d.shape[0] && 0 <= j < d.shape[1] implies #[trigger] matrix_at(dr, i, j)
        == matrix_at(d, i, j) by {
        assert(r.entry(i, j as usize) == c.entry(i as usize, j as usize));
    }
    lemma_matrix_ext(dr, d);
    assert forall|i: int, j: int| 0 <= i < d.shape[0] && 0 <= j < d.shape[1] implies #[trigger] matrix_at(dq, i, j)
        == matrix_at(d, i, j) by {
        assert(q.entry(i as usize, j) == c.entry(i as usize, j as usize));
    }
    lemma_matrix_ext(dq, d);
}

} // verus!
