//! Shared model and kernels of compressed sparse storage.
//!
//! A compressed layout stores `n_major` lanes (rows for CSR, columns for CSC).
//! Lane `m` occupies positions `offsets[m] .. offsets[m + 1]` of the parallel
//! arrays `indices` (the minor coordinate of each entry) and `values`.
use vstd::prelude::*;
use crate::domain::error::StorageFault;
use crate::domain::scalar::Scalar;

verus! {

/// `offsets` delimits `n_major` lanes covering exactly `nnz` stored entries.
pub open spec fn offsets_ok(offsets: Seq<usize>, n_major: int, nnz: int) -> bool {
    &&& offsets.len() == n_major + 1
    &&& offsets[0] == 0
    &&& offsets[n_major] == nnz
    &&& forall|a: int, b: int|
        0 <= a <= b <= n_major ==> #[trigger] offsets[a] <= #[trigger] offsets[b]
}

/// The minor indices of lane `m` are strictly increasing.
pub open spec fn lane_sorted(offsets: Seq<usize>, indices: Seq<usize>, m: int) -> bool {
    forall|p: int, q: int|
        offsets[m] <= p < q < offsets[m + 1] ==> #[trigger] indices[p] < #[trigger] indices[q]
}

/// The structural invariant of a compressed layout.
pub open spec fn compressed_ok(
    offsets: Seq<usize>,
    indices: Seq<usize>,
    nnz: int,
    n_major: int,
    n_minor: int,
) -> bool {
    &&& offsets_ok(offsets, n_major, nnz)
    &&& indices.len() == nnz
    &&& forall|p: int| 0 <= p < nnz ==> #[trigger] indices[p] < n_minor
    &&& forall|m: int| 0 <= m < n_major ==> #[trigger] lane_sorted(offsets, indices, m)
}

/// The `(minor index, value)` entries of lane `m`, in storage order.
pub open spec fn lane<T>(
    offsets: Seq<usize>,
    indices: Seq<usize>,
    values: Seq<T>,
    m: int,
) -> Seq<(usize, T)> {
    Seq::new(
        (offsets[m + 1] - offsets[m]) as nat,
        |q: int| (indices[offsets[m] + q], values[offsets[m] + q]),
    )
}

/// `s` lists its entries by strictly increasing key, every key below `bound`.
pub open spec fn strictly_keyed<T>(s: Seq<(usize, T)>, bound: int) -> bool {
    &&& forall|a: int, b: int| 0 <= a < b < s.len() ==> (#[trigger] s[a]).0 < (#[trigger] s[b]).0
    &&& forall|a: int| 0 <= a < s.len() ==> (#[trigger] s[a]).0 < bound
}

/// The entries of `s` whose key is `k`, each re-keyed by `tag`.
pub open spec fn hits<T>(s: Seq<(usize, T)>, k: usize, tag: usize) -> Seq<(usize, T)>
    decreases s.len(),
{
    if s.len() == 0 {
        Seq::empty()
    } else {
        let prev = hits(s.drop_last(), k, tag);
        if s.last().0 == k {
            prev.push((tag, s.last().1))
        } else {
            prev
        }
    }
}

/// Lane `k` of the transposed layout, collected from source lanes `0 .. m`.
pub open spec fn gathered<T>(
    offsets: Seq<usize>,
    indices: Seq<usize>,
    values: Seq<T>,
    k: usize,
    m: int,
) -> Seq<(usize, T)>
    decreases m,
{
    if m <= 0 {
        Seq::empty()
    } else {
        gathered(offsets, indices, values, k, m - 1) + hits(
            lane(offsets, indices, values, m - 1),
            k,
            (m - 1) as usize,
        )
    }
}

proof fn lemma_hits_shape<T>(s: Seq<(usize, T)>, k: usize, tag: usize)
    requires
        strictly_keyed(s, usize::MAX as int + 1),
    ensures
        hits(s, k, tag).len() <= 1,
        forall|a: int| 0 <= a < hits(s, k, tag).len() ==> (#[trigger] hits(s, k, tag)[a]).0 == tag,
        hits(s, k, tag).len() == 1 ==> s.len() > 0,
    decreases s.len(),
{
    if s.len() > 0 {
        let d = s.drop_last();
        assert(strictly_keyed(d, usize::MAX as int + 1)) by {
            assert forall|a: int, b: int| 0 <= a < b < d.len() implies (#[trigger] d[a]).0 < (#[trigger] d[b]).0 by {
                assert(d[a] == s[a] && d[b] == s[b]);
            }
            assert forall|a: int| 0 <= a < d.len() implies (#[trigger] d[a]).0 < usize::MAX as int + 1 by {
                assert(d[a] == s[a]);
            }
        }
        lemma_hits_shape(d, k, tag);
        if s.last().0 == k {
            if hits(d, k, tag).len() > 0 {
                lemma_hits_witness(d, k, tag);
                let w = choose|a: int| 0 <= a < d.len() && d[a].0 == k;
                assert(s[w] == d[w]);
                assert(s[w].0 < s[s.len() - 1].0);
            }
        }
    }
}

proof fn lemma_hits_witness<T>(s: Seq<(usize, T)>, k: usize, tag: usize)
    requires
        hits(s, k, tag).len() > 0,
    ensures
        exists|a: int| 0 <= a < s.len() && s[a].0 == k,
    decreases s.len(),
{
    if s.len() > 0 {
        let d = s.drop_last();
        if s.last().0 == k {
            assert(s[s.len() - 1].0 == k);
        } else {
            lemma_hits_witness(d, k, tag);
            let w = choose|a: int| 0 <= a < d.len() && d[a].0 == k;
            assert(s[w] == d[w]);
        }
    }
}

/// Lane `m` of a valid layout is strictly keyed.
pub proof fn lemma_lane_keyed<T>(
    offsets: Seq<usize>,
    indices: Seq<usize>,
    values: Seq<T>,
    nnz: int,
    n_major: int,
    n_minor: int,
    m: int,
)
    requires
        compressed_ok(offsets, indices, nnz, n_major, n_minor),
        values.len() == nnz,
        0 <= m < n_major,
    ensures
        strictly_keyed(lane(offsets, indices, values, m), n_minor),
        n_minor <= usize::MAX as int + 1 ==> strictly_keyed(
            lane(offsets, indices, values, m),
            usize::MAX as int + 1,
        ),
{
    let l = lane(offsets, indices, values, m);
    assert(offsets[m] <= offsets[m + 1] <= offsets[n_major]);
    assert(lane_sorted(offsets, indices, m));
    assert forall|a: int, b: int| 0 <= a < b < l.len() implies (#[trigger] l[a]).0 < (#[trigger] l[b]).0 by {
        assert(indices[offsets[m] + a] < indices[offsets[m] + b]);
    }
    assert forall|a: int| 0 <= a < l.len() implies (#[trigger] l[a]).0 < n_minor by {
        assert(indices[offsets[m] + a] < n_minor);
    }
}

/// The transposed lane built from source lanes `0 .. m` is strictly keyed below `m`.
pub proof fn lemma_gathered_keyed<T>(
    offsets: Seq<usize>,
    indices: Seq<usize>,
    values: Seq<T>,
    nnz: int,
    n_major: int,
    n_minor: int,
    k: usize,
    m: int,
)
    requires
        compressed_ok(offsets, indices, nnz, n_major, n_minor),
        values.len() == nnz,
        0 <= m <= n_major,
        n_major <= usize::MAX,
    ensures
        strictly_keyed(gathered(offsets, indices, values, k, m), m),
    decreases m,
{
    if m > 0 {
        lemma_gathered_keyed(offsets, indices, values, nnz, n_major, n_minor, k, m - 1);
        let prev = gathered(offsets, indices, values, k, m - 1);
        let l = lane(offsets, indices, values, m - 1);
        lemma_lane_keyed(offsets, indices, values, nnz, n_major, n_minor, m - 1);
        assert(strictly_keyed(l, usize::MAX as int + 1)) by {
            assert forall|a: int| 0 <= a < l.len() implies (#[trigger] l[a]).0 < usize::MAX as int + 1 by {
            }
        }
        lemma_hits_shape(l, k, (m - 1) as usize);
        let h = hits(l, k, (m - 1) as usize);
        let g = prev + h;
        assert forall|a: int, b: int| 0 <= a < b < g.len() implies (#[trigger] g[a]).0 < (#[trigger] g[b]).0 by {
            if b >= prev.len() {
                assert(g[b] == h[b - prev.len()]);
                if a >= prev.len() {
                    assert(false);
                } else {
                    assert(g[a] == prev[a]);
                }
            } else {
                assert(g[a] == prev[a] && g[b] == prev[b]);
            }
        }
        assert forall|a: int| 0 <= a < g.len() implies (#[trigger] g[a]).0 < m by {
            if a >= prev.len() {
                assert(g[a] == h[a - prev.len()]);
            } else {
                assert(g[a] == prev[a]);
            }
        }
    }
}

/// Lays the given lanes out contiguously.
pub fn flatten<T: Copy>(lanes: &Vec<Vec<(usize, T)>>) -> (r: (Vec<usize>, Vec<usize>, Vec<T>))
    ensures
        offsets_ok(r.0@, lanes.len() as int, r.1.len() as int),
        r.2.len() == r.1.len(),
        forall|m: int|
            0 <= m < lanes.len() ==> #[trigger] lane(r.0@, r.1@, r.2@, m) == lanes[m]@,
{
    let mut offsets: Vec<usize> = Vec::new();
    let mut indices: Vec<usize> = Vec::new();
    let mut values: Vec<T> = Vec::new();
    offsets.push(0);
    let n = lanes.len();
    for m in 0..n
        invariant
            n == lanes.len(),
            offsets@.len() == m + 1,
            offsets@[0] == 0,
            offsets@[m as int] == indices.len(),
            values.len() == indices.len(),
            forall|a: int, b: int|
                0 <= a <= b <= m ==> #[trigger] offsets@[a] <= #[trigger] offsets@[b],
            forall|a: int|
                0 <= a < m ==> offsets@[a + 1] - offsets@[a] == #[trigger] lanes@[a]@.len(),
            forall|a: int, q: int|
                0 <= a < m && 0 <= q < lanes@[a]@.len() ==> indices@[offsets@[a] + q] == (
                #[trigger] lanes@[a]@[q]).0 && values@[offsets@[a] + q] == lanes@[a]@[q].1,
    {
        let len = lanes[m].len();
        for q in 0..len
            invariant
                n == lanes.len(),
                m < n,
                len == lanes@[m as int]@.len(),
                offsets@.len() == m + 1,
                offsets@[0] == 0,
                indices.len() == offsets@[m as int] + q,
                values.len() == indices.len(),
                forall|a: int, b: int|
                    0 <= a <= b <= m ==> #[trigger] offsets@[a] <= #[trigger] offsets@[b],
                forall|a: int|
                    0 <= a < m ==> offsets@[a + 1] - offsets@[a] == #[trigger] lanes@[a]@.len(),
                forall|a: int, q2: int|
                    0 <= a < m && 0 <= q2 < lanes@[a]@.len() ==> indices@[offsets@[a] + q2] == (
                    #[trigger] lanes@[a]@[q2]).0 && values@[offsets@[a] + q2] == lanes@[a]@[q2].1,
                forall|q2: int|
                    0 <= q2 < q ==> indices@[offsets@[m as int] + q2] == (
                    #[trigger] lanes@[m as int]@[q2]).0 && values@[offsets@[m as int] + q2]
                        == lanes@[m as int]@[q2].1,
        {
            let e = lanes[m][q];
            indices.push(e.0);
            values.push(e.1);
        }
        offsets.push(indices.len());
    }
    proof {
        assert forall|m: int| 0 <= m < lanes.len() implies #[trigger] lane(
            offsets@,
            indices@,
            values@,
            m,
        ) == lanes[m]@ by {
            assert(lane(offsets@, indices@, values@, m) =~= lanes[m]@);
        }
    }
    (offsets, indices, values)
}


/// `n` empty lanes.
pub fn empty_lanes<E>(n: usize) -> (r: Vec<Vec<E>>)
    ensures
        r.len() == n,
        forall|k: int| 0 <= k < n ==> (#[trigger] r[k])@.len() == 0,
{
    let mut r: Vec<Vec<E>> = Vec::new();
    for i in 0..n
        invariant
            r.len() == i,
            forall|k: int| 0 <= k < i ==> (#[trigger] r[k])@.len() == 0,
    {
        r.push(Vec::new());
    }
    r
}

/// Transposes a compressed layout: source entry `(m, k, v)` becomes entry
/// `(k, m, v)`. Lane `k` of the result lists the source lanes holding minor
/// index `k`, in increasing lane order.
#[verifier::spinoff_prover]
#[verifier::rlimit(40)]
pub fn transpose_parts<T: Copy>(
    offsets: &Vec<usize>,
    indices: &Vec<usize>,
    values: &Vec<T>,
    n_major: usize,
    n_minor: usize,
) -> (r: (Vec<usize>, Vec<usize>, Vec<T>))
    requires
        compressed_ok(offsets@, indices@, indices.len() as int, n_major as int, n_minor as int),
        values.len() == indices.len(),
    ensures
        compressed_ok(r.0@, r.1@, r.1.len() as int, n_minor as int, n_major as int),
        r.2.len() == r.1.len(),
        forall|k: int|
            0 <= k < n_minor ==> #[trigger] lane(r.0@, r.1@, r.2@, k) == gathered(
                offsets@,
                indices@,
                values@,
                k as usize,
                n_major as int,
            ),
{
    let ghost nnz = indices.len() as int;
    let mut buckets: Vec<Vec<(usize, T)>> = empty_lanes(n_minor);
    proof {
        assert forall|k: int| 0 <= k < n_minor implies (#[trigger] buckets[k])@ == gathered(
            offsets@,
            indices@,
            values@,
            k as usize,
            0,
        ) by {
            assert(buckets[k]@ =~= gathered(offsets@, indices@, values@, k as usize, 0));
        }
    }
    for m in 0..n_major
        invariant
            compressed_ok(offsets@, indices@, nnz, n_major as int, n_minor as int),
            values.len() == nnz,
            indices.len() == nnz,
            buckets.len() == n_minor,
            forall|k: int|
                0 <= k < n_minor ==> (#[trigger] buckets[k])@ == gathered(
                    offsets@,
                    indices@,
                    values@,
                    k as usize,
                    m as int,
                ),
    {
        let start = offsets[m];
        let end = offsets[m + 1];
        proof {
            assert(offsets@[m as int] <= offsets@[m + 1] <= offsets@[n_major as int]);
        }
        let ghost l = lane(offsets@, indices@, values@, m as int);
        for p in start..end
            invariant
                compressed_ok(offsets@, indices@, nnz, n_major as int, n_minor as int),
                values.len() == nnz,
                indices.len() == nnz,
                m < n_major,
                start == offsets@[m as int],
                end == offsets@[m + 1],
                end <= nnz,
                l == lane(offsets@, indices@, values@, m as int),
                buckets.len() == n_minor,
                forall|k: int|
                    0 <= k < n_minor ==> (#[trigger] buckets[k])@ == gathered(
                        offsets@,
                        indices@,
                        values@,
                        k as usize,
                        m as int,
                    ) + hits(l.take(p - start), k as usize, m),
        {
            let k = indices[p];
            let v = values[p];
            proof {
                assert(k < n_minor);
            }
            let ghost old_buckets = buckets@;
            buckets[k].push((m, v));
            proof {
                let ghost t = (p - start) as int;
                assert(l.take(t + 1).drop_last() =~= l.take(t));
                assert(l.take(t + 1).last() == (k, v));
                assert forall|k2: int| 0 <= k2 < n_minor implies (#[trigger] buckets[k2])@
                    == gathered(offsets@, indices@, values@, k2 as usize, m as int) + hits(
                    l.take(t + 1),
                    k2 as usize,
                    m,
                ) by {
                    let g = gathered(offsets@, indices@, values@, k2 as usize, m as int);
                    if k2 == k {
                        assert(buckets[k2]@ =~= g + hits(l.take(t + 1), k2 as usize, m));
                    } else {
                        assert(buckets[k2] == old_buckets[k2]);
                    }
                }
            }
        }
        proof {
            assert(l.take(end - start) =~= l);
            assert forall|k: int| 0 <= k < n_minor implies (#[trigger] buckets[k])@ == gathered(
                offsets@,
                indices@,
                values@,
                k as usize,
                m + 1,
            ) by {
            }
        }
    }
    let r = flatten(&buckets);
    proof {
        let (o2, i2, v2) = r;
        assert forall|k: int| 0 <= k < n_minor implies #[trigger] lane(o2@, i2@, v2@, k)
            == gathered(offsets@, indices@, values@, k as usize, n_major as int) by {
        }
        // every output position lies in some lane whose keys are valid and sorted
        assert forall|k: int| 0 <= k < n_minor implies #[trigger] lane_sorted(o2@, i2@, k) by {
            lemma_gathered_keyed(
                offsets@,
                indices@,
                values@,
                nnz,
                n_major as int,
                n_minor as int,
                k as usize,
                n_major as int,
            );
            let g = lane(o2@, i2@, v2@, k);
            assert(o2@[k] <= o2@[k + 1]);
            assert forall|p: int, q: int| o2@[k] <= p < q < o2@[k + 1] implies #[trigger] i2@[p]
                < #[trigger] i2@[q] by {
                assert(g[p - o2@[k]].0 == i2@[p]);
                assert(g[q - o2@[k]].0 == i2@[q]);
            }
        }
        assert forall|p: int| 0 <= p < i2.len() implies #[trigger] i2@[p] < n_major by {
            lemma_offsets_locate(o2@, n_minor as int, i2.len() as int, p);
            let k = choose|k: int| 0 <= k < n_minor && #[trigger] o2@[k] <= p < o2@[k + 1];
            lemma_gathered_keyed(
                offsets@,
                indices@,
                values@,
                nnz,
                n_major as int,
                n_minor as int,
                k as usize,
                n_major as int,
            );
            let g = lane(o2@, i2@, v2@, k);
            assert(g[p - o2@[k]].0 == i2@[p]);
        }
    }
    r
}

/// Every stored position belongs to exactly one lane.
pub proof fn lemma_offsets_locate(offsets: Seq<usize>, n_major: int, nnz: int, p: int)
    requires
        offsets_ok(offsets, n_major, nnz),
        0 <= n_major,
        0 <= p < nnz,
    ensures
        exists|m: int| 0 <= m < n_major && #[trigger] offsets[m] <= p < offsets[m + 1],
    decreases n_major,
{
    if n_major > 0 {
        if p < offsets[n_major - 1] {
            let shorter = offsets.take(n_major);
            assert(offsets_ok(shorter, n_major - 1, offsets[n_major - 1] as int)) by {
                assert forall|a: int, b: int| 0 <= a <= b <= n_major - 1 implies #[trigger] shorter[a]
                    <= #[trigger] shorter[b] by {
                    assert(shorter[a] == offsets[a] && shorter[b] == offsets[b]);
                }
            }
            lemma_offsets_locate(shorter, n_major - 1, offsets[n_major - 1] as int, p);
            let m = choose|m: int| 0 <= m < n_major - 1 && #[trigger] shorter[m] <= p < shorter[m + 1];
            assert(shorter[m] == offsets[m] && shorter[m + 1] == offsets[m + 1]);
            assert(0 <= m < n_major && offsets[m] <= p < offsets[m + 1]);
        } else {
            let m = n_major - 1;
            assert(offsets[m] <= p < offsets[m + 1]);
        }
    }
}


/// A layout whose lanes are all strictly keyed below `n_minor` is valid.
pub proof fn lemma_keyed_lanes_ok<T>(
    offsets: Seq<usize>,
    indices: Seq<usize>,
    values: Seq<T>,
    n_major: int,
    n_minor: int,
)
    requires
        offsets_ok(offsets, n_major, indices.len() as int),
        0 <= n_major,
        values.len() == indices.len(),
        forall|m: int|
            0 <= m < n_major ==> strictly_keyed(#[trigger] lane(offsets, indices, values, m), n_minor),
    ensures
        compressed_ok(offsets, indices, indices.len() as int, n_major, n_minor),
{
    assert forall|m: int| 0 <= m < n_major implies #[trigger] lane_sorted(offsets, indices, m) by {
        let g = lane(offsets, indices, values, m);
        assert(offsets[m] <= offsets[m + 1]);
        assert(strictly_keyed(g, n_minor));
        assert forall|p: int, q: int| offsets[m] <= p < q < offsets[m + 1] implies #[trigger] indices[p]
            < #[trigger] indices[q] by {
            assert(g[p - offsets[m]].0 == indices[p]);
            assert(g[q - offsets[m]].0 == indices[q]);
        }
    }
    assert forall|p: int| 0 <= p < indices.len() implies #[trigger] indices[p] < n_minor by {
        lemma_offsets_locate(offsets, n_major, indices.len() as int, p);
        let m = choose|m: int| 0 <= m < n_major && #[trigger] offsets[m] <= p < offsets[m + 1];
        let g = lane(offsets, indices, values, m);
        assert(strictly_keyed(g, n_minor));
        assert(g[p - offsets[m]].0 == indices[p]);
    }
}

/// Positions `p < n` whose key is `k`, in increasing order.
pub open spec fn positions_with(keys: Seq<usize>, k: usize, n: int) -> Seq<usize>
    decreases n,
{
    if n <= 0 {
        Seq::empty()
    } else {
        let prev = positions_with(keys, k, n - 1);
        if keys[n - 1] == k {
            prev.push((n - 1) as usize)
        } else {
            prev
        }
    }
}

/// The values at the positions `ps` whose major key is `m`, in the order of `ps`.
pub open spec fn picked<T>(ps: Seq<usize>, major: Seq<usize>, values: Seq<T>, m: usize) -> Seq<T>
    decreases ps.len(),
{
    if ps.len() == 0 {
        Seq::empty()
    } else {
        let prev = picked(ps.drop_last(), major, values, m);
        if major[ps.last() as int] == m {
            prev.push(values[ps.last() as int])
        } else {
            prev
        }
    }
}

/// The values of all triplets at `(m, k)`, in triplet order.
pub open spec fn duplicates<T>(
    major: Seq<usize>,
    minor: Seq<usize>,
    values: Seq<T>,
    m: usize,
    k: usize,
) -> Seq<T> {
    picked(positions_with(minor, k, minor.len() as int), major, values, m)
}

/// Left-to-right sum of a non-empty sequence: `((s0 + s1) + s2) + ...`.
pub open spec fn total<T: Scalar>(s: Seq<T>) -> T
    decreases s.len(),
{
    if s.len() == 0 {
        T::zero_value()
    } else if s.len() == 1 {
        s[0]
    } else {
        total(s.drop_last()).plus(s.last())
    }
}

/// Every partial sum of `total(s)` is representable.
pub open spec fn total_ok<T: Scalar>(s: Seq<T>) -> bool
    decreases s.len(),
{
    s.len() <= 1 || (total_ok(s.drop_last()) && total(s.drop_last()).can_add(s.last()))
}

/// Lane `m` before cancelled entries are dropped: one summed entry for every
/// minor key below `c` that has triplets.
pub open spec fn grouped<T: Scalar>(
    major: Seq<usize>,
    minor: Seq<usize>,
    values: Seq<T>,
    m: usize,
    c: int,
) -> Seq<(usize, T)>
    decreases c,
{
    if c <= 0 {
        Seq::empty()
    } else {
        let prev = grouped(major, minor, values, m, c - 1);
        let d = duplicates(major, minor, values, m, (c - 1) as usize);
        if d.len() > 0 {
            prev.push(((c - 1) as usize, total(d)))
        } else {
            prev
        }
    }
}

/// The entries of `s` whose value is not zero.
pub open spec fn nonzero_part<T: Scalar>(s: Seq<(usize, T)>) -> Seq<(usize, T)>
    decreases s.len(),
{
    if s.len() == 0 {
        Seq::empty()
    } else {
        let prev = nonzero_part(s.drop_last());
        if s.last().1 != T::zero_value() {
            prev.push(s.last())
        } else {
            prev
        }
    }
}

/// Lane `m` of the compressed form of a triplet list, over minor keys below
/// `c`: for each key in increasing order, the sum of its duplicates, when
/// there are any and the sum is not zero.
pub open spec fn assembled<T: Scalar>(
    major: Seq<usize>,
    minor: Seq<usize>,
    values: Seq<T>,
    m: usize,
    c: int,
) -> Seq<(usize, T)>
    decreases c,
{
    if c <= 0 {
        Seq::empty()
    } else {
        let prev = assembled(major, minor, values, m, c - 1);
        let d = duplicates(major, minor, values, m, (c - 1) as usize);
        if d.len() > 0 && total(d) != T::zero_value() {
            prev.push(((c - 1) as usize, total(d)))
        } else {
            prev
        }
    }
}

/// Every duplicate sum of the triplet list is representable.
pub open spec fn sums_ok<T: Scalar>(
    major: Seq<usize>,
    minor: Seq<usize>,
    values: Seq<T>,
    n_major: int,
    n_minor: int,
) -> bool {
    forall|m: usize, k: usize|
        m < n_major && k < n_minor ==> total_ok(#[trigger] duplicates(major, minor, values, m, k))
}

proof fn lemma_grouped_keyed<T: Scalar>(
    major: Seq<usize>,
    minor: Seq<usize>,
    values: Seq<T>,
    m: usize,
    c: int,
)
    requires
        0 <= c <= usize::MAX,
    ensures
        strictly_keyed(grouped(major, minor, values, m, c), c),
    decreases c,
{
    if c > 0 {
        lemma_grouped_keyed(major, minor, values, m, c - 1);
        let prev = grouped(major, minor, values, m, c - 1);
        let g = grouped(major, minor, values, m, c);
        assert forall|a: int, b: int| 0 <= a < b < g.len() implies (#[trigger] g[a]).0 < (#[trigger] g[b]).0 by {
            if b < prev.len() {
                assert(g[a] == prev[a] && g[b] == prev[b]);
            } else {
                let d = duplicates(major, minor, values, m, (c - 1) as usize);
                assert(d.len() > 0);
                assert(g == prev.push(((c - 1) as usize, total(d))));
                assert(g[a] == prev[a]);
                assert(prev[a].0 < c - 1);
            }
        }
        assert forall|a: int| 0 <= a < g.len() implies (#[trigger] g[a]).0 < c by {
            if a < prev.len() {
                assert(g[a] == prev[a]);
            }
        }
    }
}

proof fn lemma_assembled_keyed<T: Scalar>(
    major: Seq<usize>,
    minor: Seq<usize>,
    values: Seq<T>,
    m: usize,
    c: int,
)
    requires
        0 <= c <= usize::MAX,
    ensures
        strictly_keyed(assembled(major, minor, values, m, c), c),
    decreases c,
{
    if c > 0 {
        lemma_assembled_keyed(major, minor, values, m, c - 1);
        let prev = assembled(major, minor, values, m, c - 1);
        let g = assembled(major, minor, values, m, c);
        assert forall|a: int, b: int| 0 <= a < b < g.len() implies (#[trigger] g[a]).0 < (#[trigger] g[b]).0 by {
            if b < prev.len() {
                assert(g[a] == prev[a] && g[b] == prev[b]);
            } else {
                let d = duplicates(major, minor, values, m, (c - 1) as usize);
                assert(d.len() > 0 && total(d) != T::zero_value());
                assert(g == prev.push(((c - 1) as usize, total(d))));
                assert(g[a] == prev[a]);
                assert(prev[a].0 < c - 1);
            }
        }
        assert forall|a: int| 0 <= a < g.len() implies (#[trigger] g[a]).0 < c by {
            if a < prev.len() {
                assert(g[a] == prev[a]);
            }
        }
    }
}

proof fn lemma_assembled_is_nonzero_part<T: Scalar>(
    major: Seq<usize>,
    minor: Seq<usize>,
    values: Seq<T>,
    m: usize,
    c: int,
)
    requires
        0 <= c,
    ensures
        assembled(major, minor, values, m, c) == nonzero_part(grouped(major, minor, values, m, c)),
    decreases c,
{
    if c > 0 {
        lemma_assembled_is_nonzero_part(major, minor, values, m, c - 1);
        let prev = grouped(major, minor, values, m, c - 1);
        let d = duplicates(major, minor, values, m, (c - 1) as usize);
        if d.len() > 0 {
            let e = ((c - 1) as usize, total(d));
            assert(prev.push(e).drop_last() =~= prev);
        }
    }
}

proof fn lemma_picked_prefix<T>(ps: Seq<usize>, major: Seq<usize>, values: Seq<T>, m: usize, t: int)
    requires
        0 <= t <= ps.len(),
    ensures
        picked(ps.take(t), major, values, m).len() <= picked(ps, major, values, m).len(),
        picked(ps, major, values, m).take(picked(ps.take(t), major, values, m).len() as int)
            == picked(ps.take(t), major, values, m),
    decreases ps.len(),
{
    let small = picked(ps.take(t), major, values, m);
    if t == ps.len() {
        assert(ps.take(t) =~= ps);
        assert(picked(ps, major, values, m).take(small.len() as int) =~= small);
    } else {
        let dl = ps.drop_last();
        assert(ps.take(t) =~= dl.take(t));
        lemma_picked_prefix(dl, major, values, m, t);
        let mid = picked(dl, major, values, m);
        let big = picked(ps, major, values, m);
        assert(big.take(small.len() as int) =~= mid.take(small.len() as int));
    }
}

/// Every prefix of a sum whose partial sums are representable is too.
pub proof fn lemma_total_ok_prefix<T: Scalar>(s: Seq<T>, i: int)
    requires
        total_ok(s),
        0 <= i <= s.len(),
    ensures
        total_ok(s.take(i)),
    decreases s.len(),
{
    if i == s.len() {
        assert(s.take(i) =~= s);
    } else if s.len() > 1 {
        assert(s.take(i) =~= s.drop_last().take(i));
        lemma_total_ok_prefix(s.drop_last(), i);
    }
}

/// The lane `m` under construction: the summed prefix of the bucket of minor key `k`.
pub open spec fn partial<T: Scalar>(
    bucket: Seq<usize>,
    major: Seq<usize>,
    values: Seq<T>,
    m: usize,
    k: usize,
    t: int,
) -> Seq<(usize, T)> {
    let d = picked(bucket.take(t), major, values, m);
    if d.len() > 0 {
        seq![(k, total(d))]
    } else {
        Seq::empty()
    }
}

/// The entries of `s` whose value is not zero.
pub fn keep_nonzero<T: Scalar>(s: &Vec<(usize, T)>) -> (r: Vec<(usize, T)>)
    ensures
        r@ == nonzero_part(s@),
{
    let mut r: Vec<(usize, T)> = Vec::new();
    let n = s.len();
    for q in 0..n
        invariant
            n == s.len(),
            r@ == nonzero_part(s@.take(q as int)),
    {
        let e = s[q];
        proof {
            assert(s@.take(q + 1).drop_last() =~= s@.take(q as int));
        }
        if !e.1.is_zero() {
            r.push(e);
        }
    }
    proof {
        assert(s@.take(n as int) =~= s@);
    }
    r
}

/// Compresses a triplet list: lane `m` of the result holds, for every minor
/// key in increasing order, the sum of the triplets at `(m, key)` in triplet
/// order, leaving out keys without triplets and sums equal to zero.
pub fn compress<T: Scalar>(
    major: &Vec<usize>,
    minor: &Vec<usize>,
    values: &Vec<T>,
    n_major: usize,
    n_minor: usize,
) -> (r: (Vec<usize>, Vec<usize>, Vec<T>))
    requires
        major.len() == values.len(),
        minor.len() == values.len(),
        forall|p: int| 0 <= p < major.len() ==> #[trigger] major[p] < n_major,
        forall|p: int| 0 <= p < minor.len() ==> #[trigger] minor[p] < n_minor,
        sums_ok(major@, minor@, values@, n_major as int, n_minor as int),
    ensures
        compressed_ok(r.0@, r.1@, r.1.len() as int, n_major as int, n_minor as int),
        r.2.len() == r.1.len(),
        forall|m: int|
            0 <= m < n_major ==> #[trigger] lane(r.0@, r.1@, r.2@, m) == assembled(
                major@,
                minor@,
                values@,
                m as usize,
                n_minor as int,
            ),
{
    let nnz = values.len();
    // Stable buckets of positions by minor key.
    let mut buckets: Vec<Vec<usize>> = empty_lanes(n_minor);
    proof {
        assert forall|k: int| 0 <= k < n_minor implies (#[trigger] buckets[k])@ == positions_with(
            minor@,
            k as usize,
            0,
        ) by {
            assert(buckets[k]@ =~= positions_with(minor@, k as usize, 0));
        }
    }
    for p in 0..nnz
        invariant
            nnz == values.len(),
            minor.len() == nnz,
            forall|q: int| 0 <= q < minor.len() ==> #[trigger] minor[q] < n_minor,
            buckets.len() == n_minor,
            forall|k: int|
                0 <= k < n_minor ==> (#[trigger] buckets[k])@ == positions_with(
                    minor@,
                    k as usize,
                    p as int,
                ),
    {
        let k = minor[p];
        let ghost old_buckets = buckets@;
        buckets[k].push(p);
        proof {
            assert forall|k2: int| 0 <= k2 < n_minor implies (#[trigger] buckets[k2])@
                == positions_with(minor@, k2 as usize, p + 1) by {
                if k2 != k {
                    assert(buckets[k2] == old_buckets[k2]);
                }
            }
        }
    }
    // Scatter by major key, visiting minor keys in increasing order and
    // summing duplicates as they arrive.
    let mut rows: Vec<Vec<(usize, T)>> = empty_lanes(n_major);
    proof {
        assert forall|m: int| 0 <= m < n_major implies (#[trigger] rows[m])@ == grouped(
            major@,
            minor@,
            values@,
            m as usize,
            0,
        ) by {
            assert(rows[m]@ =~= grouped(major@, minor@, values@, m as usize, 0));
        }
    }
    for k in 0..n_minor
        invariant
            nnz == values.len(),
            major.len() == nnz,
            minor.len() == nnz,
            forall|q: int| 0 <= q < major.len() ==> #[trigger] major[q] < n_major,
            sums_ok(major@, minor@, values@, n_major as int, n_minor as int),
            buckets.len() == n_minor,
            forall|k2: int|
                0 <= k2 < n_minor ==> (#[trigger] buckets[k2])@ == positions_with(
                    minor@,
                    k2 as usize,
                    nnz as int,
                ),
            rows.len() == n_major,
            forall|m: int|
                0 <= m < n_major ==> (#[trigger] rows[m])@ == grouped(
                    major@,
                    minor@,
                    values@,
                    m as usize,
                    k as int,
                ),
    {
        let len = buckets[k].len();
        let ghost bucket = buckets[k as int]@;
        for t in 0..len
            invariant
                nnz == values.len(),
                major.len() == nnz,
                minor.len() == nnz,
                forall|q: int| 0 <= q < major.len() ==> #[trigger] major[q] < n_major,
                sums_ok(major@, minor@, values@, n_major as int, n_minor as int),
                k < n_minor,
                buckets.len() == n_minor,
                bucket == buckets[k as int]@,
                len == bucket.len(),
                bucket == positions_with(minor@, k, nnz as int),
                rows.len() == n_major,
                forall|m: int|
                    0 <= m < n_major ==> (#[trigger] rows[m])@ == grouped(
                        major@,
                        minor@,
                        values@,
                        m as usize,
                        k as int,
                    ) + partial(bucket, major@, values@, m as usize, k, t as int),
        {
            let p = buckets[k][t];
            proof {
                lemma_positions_bounded(minor@, k, nnz as int);
            }
            let m = major[p];
            let v = values[p];
            let ghost old_rows = rows@;
            let ghost g = grouped(major@, minor@, values@, m, k as int);
            let ghost d_old = picked(bucket.take(t as int), major@, values@, m);
            let ghost d_new = picked(bucket.take(t + 1), major@, values@, m);
            proof {
                assert(bucket.take(t + 1).drop_last() =~= bucket.take(t as int));
                assert(bucket.take(t + 1).last() == p);
                assert(d_new == d_old.push(v));
                lemma_grouped_keyed(major@, minor@, values@, m, k as int);
                lemma_picked_prefix(bucket, major@, values@, m, t + 1);
                assert(bucket.take(len as int) =~= bucket);
                let full = duplicates(major@, minor@, values@, m, k);
                assert(full == picked(bucket, major@, values@, m));
                assert(total_ok(full));
                lemma_total_ok_prefix(full, d_new.len() as int);
                assert(full.take(d_new.len() as int) == d_new);
                assert(d_new.drop_last() =~= d_old);
            }
            let rlen = rows[m].len();
            if rlen > 0 && rows[m][rlen - 1].0 == k {
                proof {
                    if d_old.len() == 0 {
                        assert(rows[m as int]@ == g);
                        assert(g[rlen - 1].0 < k);
                    }
                    assert(rows[m as int]@[rlen - 1] == (k, total(d_old)));
                }
                let s = rows[m][rlen - 1].1;
                let s2 = s.add(v);
                rows[m].set(rlen - 1, (k, s2));
            } else {
                proof {
                    if d_old.len() > 0 {
                        assert(rows[m as int]@[rlen - 1] == (k, total(d_old)));
                    }
                    assert(d_old.len() == 0);
                    assert(total(d_new) == v);
                }
                rows[m].push((k, v));
            }
            proof {
                assert forall|m2: int| 0 <= m2 < n_major implies (#[trigger] rows[m2])@ == grouped(
                    major@,
                    minor@,
                    values@,
                    m2 as usize,
                    k as int,
                ) + partial(bucket, major@, values@, m2 as usize, k, t + 1) by {
                    let dn = picked(bucket.take(t + 1), major@, values@, m2 as usize);
                    let dold = picked(bucket.take(t as int), major@, values@, m2 as usize);
                    if m2 == m {
                        assert(rows[m2]@ =~= grouped(major@, minor@, values@, m2 as usize, k as int)
                            + partial(bucket, major@, values@, m2 as usize, k, t + 1));
                    } else {
                        assert(dn == dold);
                        assert(rows[m2] == old_rows[m2]);
                    }
                }
            }
        }
        proof {
            assert(bucket.take(len as int) =~= bucket);
            assert forall|m: int| 0 <= m < n_major implies (#[trigger] rows[m])@ == grouped(
                major@,
                minor@,
                values@,
                m as usize,
                k + 1,
            ) by {
                let d = duplicates(major@, minor@, values@, m as usize, k);
                assert(d == picked(bucket.take(len as int), major@, values@, m as usize));
                assert(rows[m]@ =~= grouped(major@, minor@, values@, m as usize, k + 1));
            }
        }
    }
    // Drop cancelled entries and lay the lanes out.
    let mut kept: Vec<Vec<(usize, T)>> = Vec::new();
    for m in 0..n_major
        invariant
            rows.len() == n_major,
            kept.len() == m,
            forall|m2: int|
                0 <= m2 < n_major ==> (#[trigger] rows[m2])@ == grouped(
                    major@,
                    minor@,
                    values@,
                    m2 as usize,
                    n_minor as int,
                ),
            forall|m2: int|
                0 <= m2 < m ==> (#[trigger] kept[m2])@ == assembled(
                    major@,
                    minor@,
                    values@,
                    m2 as usize,
                    n_minor as int,
                ),
    {
        let lane_m = keep_nonzero(&rows[m]);
        proof {
            lemma_assembled_is_nonzero_part(major@, minor@, values@, m as usize, n_minor as int);
        }
        kept.push(lane_m);
    }
    let r = flatten(&kept);
    proof {
        let (o2, i2, v2) = r;
        assert forall|m: int| 0 <= m < n_major implies strictly_keyed(
            #[trigger] lane(o2@, i2@, v2@, m),
            n_minor as int,
        ) by {
            lemma_assembled_keyed(major@, minor@, values@, m as usize, n_minor as int);
        }
        lemma_keyed_lanes_ok(o2@, i2@, v2@, n_major as int, n_minor as int);
    }
    r
}

proof fn lemma_positions_bounded(keys: Seq<usize>, k: usize, n: int)
    requires
        0 <= n <= keys.len(),
    ensures
        forall|a: int|
            0 <= a < positions_with(keys, k, n).len() ==> #[trigger] positions_with(keys, k, n)[a]
                < n,
    decreases n,
{
    if n > 0 {
        lemma_positions_bounded(keys, k, n - 1);
        let prev = positions_with(keys, k, n - 1);
        let cur = positions_with(keys, k, n);
        assert forall|a: int| 0 <= a < cur.len() implies #[trigger] cur[a] < n by {
            if a < prev.len() {
                assert(cur[a] == prev[a]);
            }
        }
    }
}


/// Consecutive entries of `indices[lo .. hi]` strictly increase.
pub open spec fn steps_up(indices: Seq<usize>, lo: int, hi: int) -> bool {
    forall|p: int| lo <= p && p + 1 < hi ==> #[trigger] indices[p] < indices[p + 1]
}

/// The first defect of a candidate compressed layout, in the order the
/// constructors check them; `None` when the layout is valid. `minor_fault`
/// names an out-of-range index (row or column, by format).
pub open spec fn compressed_fault(
    offsets: Seq<usize>,
    indices: Seq<usize>,
    nvalues: int,
    n_major: int,
    n_minor: int,
    minor_fault: StorageFault,
) -> Option<StorageFault> {
    if n_major + 1 > usize::MAX {
        Some(StorageFault::ExtentOverflow)
    } else if offsets.len() != n_major + 1 {
        Some(StorageFault::OffsetsLength)
    } else if indices.len() != nvalues {
        Some(StorageFault::LengthMismatch)
    } else if offsets[0] != 0 || offsets[n_major] != nvalues {
        Some(StorageFault::OffsetsEndpoints)
    } else if exists|a: int| 0 <= a < n_major && #[trigger] offsets[a] > offsets[a + 1] {
        Some(StorageFault::OffsetsDecreasing)
    } else if exists|p: int| 0 <= p < nvalues && #[trigger] indices[p] >= n_minor {
        Some(minor_fault)
    } else if exists|m: int|
        0 <= m < n_major && !steps_up(indices, #[trigger] offsets[m] as int, offsets[m + 1] as int) {
        Some(StorageFault::IndicesNotIncreasing)
    } else {
        None
    }
}

proof fn lemma_adjacent_monotone(offsets: Seq<usize>, n: int)
    requires
        offsets.len() == n + 1,
        forall|a: int| 0 <= a < n ==> #[trigger] offsets[a] <= offsets[a + 1],
    ensures
        forall|a: int, b: int| 0 <= a <= b <= n ==> #[trigger] offsets[a] <= #[trigger] offsets[b],
{
    assert forall|a: int, b: int| 0 <= a <= b <= n implies #[trigger] offsets[a] <= #[trigger] offsets[b] by {
        lemma_adjacent_monotone_from(offsets, n, a, b);
    }
}

proof fn lemma_adjacent_monotone_from(offsets: Seq<usize>, n: int, a: int, b: int)
    requires
        offsets.len() == n + 1,
        forall|c: int| 0 <= c < n ==> #[trigger] offsets[c] <= offsets[c + 1],
        0 <= a <= b <= n,
    ensures
        offsets[a] <= offsets[b],
    decreases b - a,
{
    if a < b {
        lemma_adjacent_monotone_from(offsets, n, a, b - 1);
        assert(offsets[b - 1] <= offsets[b]);
    }
}

proof fn lemma_adjacent_increasing(indices: Seq<usize>, lo: int, hi: int, p: int, q: int)
    requires
        0 <= lo <= p < q < hi <= indices.len(),
        steps_up(indices, lo, hi),
    ensures
        indices[p] < indices[q],
    decreases q - p,
{
    if p + 1 < q {
        lemma_adjacent_increasing(indices, lo, hi, p, q - 1);
        assert(indices[q - 1] < indices[q]);
    } else {
        assert(indices[p] < indices[p + 1]);
    }
}

/// A layout is valid exactly when it has no defect.
pub proof fn lemma_fault_free_is_valid(
    offsets: Seq<usize>,
    indices: Seq<usize>,
    nvalues: int,
    n_major: int,
    n_minor: int,
    minor_fault: StorageFault,
)
    requires
        0 <= n_major,
        0 <= nvalues,
    ensures
        compressed_fault(offsets, indices, nvalues, n_major, n_minor, minor_fault).is_none() <==> (
        n_major + 1 <= usize::MAX && compressed_ok(offsets, indices, nvalues, n_major, n_minor)),
{
    if compressed_fault(offsets, indices, nvalues, n_major, n_minor, minor_fault).is_none() {
        lemma_adjacent_monotone(offsets, n_major);
        assert forall|m: int| 0 <= m < n_major implies #[trigger] lane_sorted(offsets, indices, m) by {
            assert(steps_up(indices, offsets[m] as int, offsets[m + 1] as int));
            assert(offsets[m + 1] <= offsets[n_major]);
            assert forall|p: int, q: int| offsets[m] <= p < q < offsets[m + 1] implies #[trigger] indices[p]
                < #[trigger] indices[q] by {
                lemma_adjacent_increasing(indices, offsets[m] as int, offsets[m + 1] as int, p, q);
            }
        }
    }
    if n_major + 1 <= usize::MAX && compressed_ok(offsets, indices, nvalues, n_major, n_minor) {
        assert forall|m: int| 0 <= m < n_major implies steps_up(
            indices,
            #[trigger] offsets[m] as int,
            offsets[m + 1] as int,
        ) by {
            assert(lane_sorted(offsets, indices, m));
        }
    }
}

/// Whether the offsets never decrease.
fn offsets_monotone(offsets: &Vec<usize>, n_major: usize) -> (r: bool)
    requires
        offsets.len() == n_major + 1,
    ensures
        r == (forall|a: int| 0 <= a < n_major ==> #[trigger] offsets@[a] <= offsets@[a + 1]),
{
    for a in 0..n_major
        invariant
            offsets.len() == n_major + 1,
            forall|b: int| 0 <= b < a ==> #[trigger] offsets@[b] <= offsets@[b + 1],
    {
        if offsets[a] > offsets[a + 1] {
            return false;
        }
    }
    true
}

/// Whether every index is below `bound`.
fn indices_below(indices: &Vec<usize>, bound: usize) -> (r: bool)
    ensures
        r == (forall|p: int| 0 <= p < indices.len() ==> #[trigger] indices@[p] < bound),
{
    for p in 0..indices.len()
        invariant
            forall|q: int| 0 <= q < p ==> #[trigger] indices@[q] < bound,
    {
        if indices[p] >= bound {
            return false;
        }
    }
    true
}

/// Whether `indices[lo .. hi]` strictly increases.
fn run_increasing(indices: &Vec<usize>, lo: usize, hi: usize) -> (r: bool)
    requires
        lo <= hi <= indices.len(),
    ensures
        r == steps_up(indices@, lo as int, hi as int),
{
    for q in lo..hi
        invariant
            lo <= hi <= indices.len(),
            forall|p: int| lo <= p < q && p + 1 < hi ==> #[trigger] indices@[p] < indices@[p + 1],
    {
        if q + 1 < hi && indices[q] >= indices[q + 1] {
            return false;
        }
    }
    true
}

/// Whether every lane's indices strictly increase.
fn lanes_increasing(offsets: &Vec<usize>, indices: &Vec<usize>, n_major: usize) -> (r: bool)
    requires
        offsets.len() == n_major + 1,
        offsets@[n_major as int] == indices.len(),
        forall|a: int| 0 <= a < n_major ==> #[trigger] offsets@[a] <= offsets@[a + 1],
    ensures
        r == (forall|m: int|
            0 <= m < n_major ==> steps_up(
                indices@,
                #[trigger] offsets@[m] as int,
                offsets@[m + 1] as int,
            )),
{
    proof {
        lemma_adjacent_monotone(offsets@, n_major as int);
    }
    for m in 0..n_major
        invariant
            offsets.len() == n_major + 1,
            offsets@[n_major as int] == indices.len(),
            forall|a: int, b: int|
                0 <= a <= b <= n_major ==> #[trigger] offsets@[a] <= #[trigger] offsets@[b],
            forall|m2: int|
                0 <= m2 < m ==> steps_up(
                    indices@,
                    #[trigger] offsets@[m2] as int,
                    offsets@[m2 + 1] as int,
                ),
    {
        proof {
            assert(offsets@[m as int] <= offsets@[m + 1] <= offsets@[n_major as int]);
        }
        if !run_increasing(indices, offsets[m], offsets[m + 1]) {
            return false;
        }
    }
    true
}

/// Finds the first defect of a candidate compressed layout, checking in the
/// order of `compressed_fault`.
pub fn find_fault(
    offsets: &Vec<usize>,
    indices: &Vec<usize>,
    nvalues: usize,
    n_major: usize,
    n_minor: usize,
    minor_fault: StorageFault,
) -> (r: Option<StorageFault>)
    ensures
        r == compressed_fault(
            offsets@,
            indices@,
            nvalues as int,
            n_major as int,
            n_minor as int,
            minor_fault,
        ),
{
    if n_major == usize::MAX {
        return Some(StorageFault::ExtentOverflow);
    }
    if offsets.len() != n_major + 1 {
        return Some(StorageFault::OffsetsLength);
    }
    if indices.len() != nvalues {
        return Some(StorageFault::LengthMismatch);
    }
    if offsets[0] != 0 || offsets[n_major] != nvalues {
        return Some(StorageFault::OffsetsEndpoints);
    }
    if !offsets_monotone(offsets, n_major) {
        return Some(StorageFault::OffsetsDecreasing);
    }
    if !indices_below(indices, n_minor) {
        return Some(minor_fault);
    }
    if !lanes_increasing(offsets, indices, n_major) {
        return Some(StorageFault::IndicesNotIncreasing);
    }
    None
}


/// The value stored under key `k` in `s`, or zero when `k` is absent.
pub open spec fn value_at<T: Scalar>(s: Seq<(usize, T)>, k: usize) -> T {
    if exists|a: int| 0 <= a < s.len() && (#[trigger] s[a]).0 == k {
        s[choose|a: int| 0 <= a < s.len() && (#[trigger] s[a]).0 == k].1
    } else {
        T::zero_value()
    }
}

/// In a strictly keyed sequence, the entry with key `s[a].0` is `s[a]`.
pub proof fn lemma_value_at_found<T: Scalar>(s: Seq<(usize, T)>, bound: int, a: int)
    requires
        strictly_keyed(s, bound),
        0 <= a < s.len(),
    ensures
        value_at(s, s[a].0) == s[a].1,
{
    let k = s[a].0;
    let w = choose|b: int| 0 <= b < s.len() && (#[trigger] s[b]).0 == k;
    assert(0 <= w < s.len() && s[w].0 == k);
    if w < a {
        assert(s[w].0 < s[a].0);
    } else if w > a {
        assert(s[a].0 < s[w].0);
    }
}


/// Magnitude of the last entry of `s` keyed `i` (zero when there is none).
pub open spec fn diag_mag<T: Scalar>(s: Seq<(usize, T)>, i: usize) -> T
    decreases s.len(),
{
    if s.len() == 0 {
        T::zero_value()
    } else if s.last().0 == i {
        s.last().1.magnitude()
    } else {
        diag_mag(s.drop_last(), i)
    }
}

/// Left-to-right sum, from zero, of the magnitudes of the entries of `s`
/// not keyed `i`.
pub open spec fn off_sum<T: Scalar>(s: Seq<(usize, T)>, i: usize) -> T
    decreases s.len(),
{
    if s.len() == 0 {
        T::zero_value()
    } else if s.last().0 != i {
        off_sum(s.drop_last(), i).plus(s.last().1.magnitude())
    } else {
        off_sum(s.drop_last(), i)
    }
}

/// Every magnitude and every partial sum of `off_sum(s, i)` is representable.
pub open spec fn off_ok<T: Scalar>(s: Seq<(usize, T)>, i: usize) -> bool
    decreases s.len(),
{
    s.len() == 0 || {
        &&& off_ok(s.drop_last(), i)
        &&& s.last().1.can_abs()
        &&& s.last().0 != i ==> off_sum(s.drop_last(), i).can_add(s.last().1.magnitude())
    }
}

/// The line `s` (row `i` of a matrix) is strictly diagonally dominant:
/// `|a_ii| > sum_{j != i} |a_ij|`.
pub open spec fn dominant<T: Scalar>(s: Seq<(usize, T)>, i: usize) -> bool {
    !diag_mag(s, i).at_most(off_sum(s, i))
}

/// Position of key `k` in `indices[start .. end]`, if present.
pub fn find_key(indices: &Vec<usize>, start: usize, end: usize, k: usize) -> (r: Option<usize>)
    requires
        start <= end <= indices.len(),
    ensures
        match r {
            Some(p) => start <= p < end && indices@[p as int] == k,
            None => forall|q: int| start <= q < end ==> #[trigger] indices@[q] != k,
        },
{
    let mut p = start;
    while p < end
        invariant
            start <= p <= end <= indices.len(),
            forall|q: int| start <= q < p ==> #[trigger] indices@[q] != k,
        decreases end - p,
    {
        if indices[p] == k {
            return Some(p);
        }
        p = p + 1;
    }
    None
}

/// `(diag_mag, off_sum)` of the entries stored at `start .. end`.
pub fn lane_dominance<T: Scalar>(
    indices: &Vec<usize>,
    values: &Vec<T>,
    start: usize,
    end: usize,
    i: usize,
) -> (r: (T, T))
    requires
        start <= end <= indices.len(),
        values.len() == indices.len(),
        off_ok(
            Seq::new((end - start) as nat, |q: int| (indices@[start + q], values@[start + q])),
            i,
        ),
    ensures
        r.0 == diag_mag(
            Seq::new((end - start) as nat, |q: int| (indices@[start + q], values@[start + q])),
            i,
        ),
        r.1 == off_sum(
            Seq::new((end - start) as nat, |q: int| (indices@[start + q], values@[start + q])),
            i,
        ),
{
    let ghost s = Seq::new((end - start) as nat, |q: int| (indices@[start + q], values@[start + q]));
    let mut diagonal = T::zero();
    let mut off = T::zero();
    for p in start..end
        invariant
            start <= end <= indices.len(),
            values.len() == indices.len(),
            s == Seq::new((end - start) as nat, |q: int| (indices@[start + q], values@[start + q])),
            off_ok(s, i),
            diagonal == diag_mag(s.take(p - start), i),
            off == off_sum(s.take(p - start), i),
    {
        let ghost t = (p - start) as int;
        proof {
            assert(s.take(t + 1).drop_last() =~= s.take(t));
            assert(s.take(t + 1).last() == s[t]);
            lemma_off_ok_prefix(s, i, t + 1);
        }
        let v = values[p];
        let magnitude = v.abs();
        if indices[p] == i {
            diagonal = magnitude;
        } else {
            off = off.add(magnitude);
        }
    }
    proof {
        assert(s.take(end - start) =~= s);
    }
    (diagonal, off)
}

pub proof fn lemma_off_ok_prefix<T: Scalar>(s: Seq<(usize, T)>, i: usize, n: int)
    requires
        off_ok(s, i),
        0 <= n <= s.len(),
    ensures
        off_ok(s.take(n), i),
    decreases s.len(),
{
    if n == s.len() {
        assert(s.take(n) =~= s);
    } else {
        assert(s.take(n) =~= s.drop_last().take(n));
        lemma_off_ok_prefix(s.drop_last(), i, n);
    }
}


/// An element-by-element copy of `v`.
pub fn copy_vec<T: Copy>(v: &Vec<T>) -> (r: Vec<T>)
    ensures
        r@ == v@,
{
    let mut r: Vec<T> = Vec::new();
    for p in 0..v.len()
        invariant
            r@ == v@.take(p as int),
    {
        r.push(v[p]);
        proof {
            assert(r@ =~= v@.take(p + 1));
        }
    }
    proof {
        assert(v@.take(v.len() as int) =~= v@);
    }
    r
}

proof fn lemma_hits_prefix<T>(s: Seq<(usize, T)>, k: usize, tag: usize, t: int)
    requires
        0 <= t <= s.len(),
    ensures
        hits(s.take(t), k, tag).len() <= hits(s, k, tag).len(),
        hits(s, k, tag).take(hits(s.take(t), k, tag).len() as int) == hits(s.take(t), k, tag),
    decreases s.len(),
{
    let small = hits(s.take(t), k, tag);
    if t == s.len() {
        assert(s.take(t) =~= s);
        assert(hits(s, k, tag).take(small.len() as int) =~= small);
    } else {
        let dl = s.drop_last();
        assert(s.take(t) =~= dl.take(t));
        lemma_hits_prefix(dl, k, tag, t);
        let mid = hits(dl, k, tag);
        let big = hits(s, k, tag);
        assert(big.take(small.len() as int) =~= mid.take(small.len() as int));
    }
}

/// The transposed lane collected so far is a prefix of the complete one.
pub proof fn lemma_gathered_prefix<T>(
    offsets: Seq<usize>,
    indices: Seq<usize>,
    values: Seq<T>,
    k: usize,
    c: int,
    t: int,
    n: int,
)
    requires
        0 <= c < n,
        0 <= t <= lane(offsets, indices, values, c).len(),
    ensures
        ({
            let acc = gathered(offsets, indices, values, k, c) + hits(
                lane(offsets, indices, values, c).take(t),
                k,
                c as usize,
            );
            let all = gathered(offsets, indices, values, k, n);
            acc.len() <= all.len() && all.take(acc.len() as int) == acc
        }),
    decreases n - c,
{
    let l = lane(offsets, indices, values, c);
    let acc = gathered(offsets, indices, values, k, c) + hits(l.take(t), k, c as usize);
    let next = gathered(offsets, indices, values, k, c + 1);
    lemma_hits_prefix(l, k, c as usize, t);
    assert(next == gathered(offsets, indices, values, k, c) + hits(l, k, c as usize));
    assert(next.take(acc.len() as int) =~= acc);
    if c + 1 < n {
        lemma_gathered_prefix(offsets, indices, values, k, c + 1, 0, n);
        let l2 = lane(offsets, indices, values, c + 1);
        assert(hits(l2.take(0), k, (c + 1) as usize) =~= Seq::<(usize, T)>::empty());
        assert(gathered(offsets, indices, values, k, c + 1) + hits(l2.take(0), k, (c + 1) as usize)
            =~= next);
        let all = gathered(offsets, indices, values, k, n);
        assert(all.take(acc.len() as int) =~= next.take(acc.len() as int));
    } else {
        assert(n == c + 1);
    }
}


/// Reading key `k` from the compressed lane gives the assembled entry.
pub proof fn lemma_assembled_value<T: Scalar>(
    major: Seq<usize>,
    minor: Seq<usize>,
    values: Seq<T>,
    m: usize,
    c: int,
    k: usize,
)
    requires
        0 <= c <= usize::MAX,
    ensures
        value_at(assembled(major, minor, values, m, c), k) == if k < c {
            total(duplicates(major, minor, values, m, k))
        } else {
            T::zero_value()
        },
    decreases c,
{
    let cur = assembled(major, minor, values, m, c);
    lemma_assembled_keyed(major, minor, values, m, c);
    if c == 0 {
        assert(!exists|a: int| 0 <= a < cur.len() && (#[trigger] cur[a]).0 == k);
    } else {
        lemma_assembled_value(major, minor, values, m, c - 1, k);
        lemma_assembled_keyed(major, minor, values, m, c - 1);
        let prev = assembled(major, minor, values, m, c - 1);
        let d = duplicates(major, minor, values, m, (c - 1) as usize);
        let pushed = d.len() > 0 && total(d) != T::zero_value();
        if pushed {
            assert(cur == prev.push(((c - 1) as usize, total(d))));
            if k == c - 1 {
                lemma_value_at_found(cur, c, prev.len() as int);
            } else if exists|a: int| 0 <= a < prev.len() && (#[trigger] prev[a]).0 == k {
                let a = choose|a: int| 0 <= a < prev.len() && (#[trigger] prev[a]).0 == k;
                lemma_value_at_found(prev, c - 1, a);
                assert(cur[a] == prev[a]);
                lemma_value_at_found(cur, c, a);
            } else {
                assert(!exists|a: int| 0 <= a < cur.len() && (#[trigger] cur[a]).0 == k) by {
                    assert forall|a: int| 0 <= a < cur.len() implies (#[trigger] cur[a]).0 != k by {
                        if a < prev.len() {
                            assert(cur[a] == prev[a]);
                        }
                    }
                }
            }
        } else {
            assert(cur == prev);
            if k == c - 1 {
                assert(!exists|a: int| 0 <= a < prev.len() && (#[trigger] prev[a]).0 == k);
                if d.len() == 0 {
                    assert(total(d) == T::zero_value());
                }
            }
        }
    }
}

/// The values of positions `p < n` holding both major key `m` and minor key `k`.
pub open spec fn matching<T>(
    major: Seq<usize>,
    minor: Seq<usize>,
    values: Seq<T>,
    m: usize,
    k: usize,
    n: int,
) -> Seq<T>
    decreases n,
{
    if n <= 0 {
        Seq::empty()
    } else {
        let prev = matching(major, minor, values, m, k, n - 1);
        if major[n - 1] == m && minor[n - 1] == k {
            prev.push(values[n - 1])
        } else {
            prev
        }
    }
}

pub proof fn lemma_picked_positions<T>(
    major: Seq<usize>,
    minor: Seq<usize>,
    values: Seq<T>,
    m: usize,
    k: usize,
    n: int,
)
    requires
        0 <= n <= usize::MAX as int + 1,
    ensures
        picked(positions_with(minor, k, n), major, values, m) == matching(major, minor, values, m, k, n),
    decreases n,
{
    if n > 0 {
        lemma_picked_positions(major, minor, values, m, k, n - 1);
        let prev = positions_with(minor, k, n - 1);
        if minor[n - 1] == k {
            assert(prev.push((n - 1) as usize).drop_last() =~= prev);
        }
    }
}

proof fn lemma_matching_swap<T>(
    major: Seq<usize>,
    minor: Seq<usize>,
    values: Seq<T>,
    m: usize,
    k: usize,
    n: int,
)
    requires
        0 <= n,
    ensures
        matching(major, minor, values, m, k, n) == matching(minor, major, values, k, m, n),
    decreases n,
{
    if n > 0 {
        lemma_matching_swap(major, minor, values, m, k, n - 1);
    }
}

/// The duplicates at `(m, k)` do not depend on which coordinate is the major one.
pub proof fn lemma_duplicates_swap<T>(
    major: Seq<usize>,
    minor: Seq<usize>,
    values: Seq<T>,
    m: usize,
    k: usize,
)
    requires
        major.len() == minor.len(),
        minor.len() <= usize::MAX,
    ensures
        duplicates(major, minor, values, m, k) == duplicates(minor, major, values, k, m),
{
    lemma_picked_positions(major, minor, values, m, k, minor.len() as int);
    lemma_picked_positions(minor, major, values, k, m, major.len() as int);
    lemma_matching_swap(major, minor, values, m, k, minor.len() as int);
}

/// The entries hit by key `k` in a strictly keyed sequence: at most one, the
/// stored value.
pub proof fn lemma_hits_value<T: Scalar>(s: Seq<(usize, T)>, k: usize, tag: usize)
    requires
        strictly_keyed(s, usize::MAX as int + 1),
    ensures
        hits(s, k, tag) == if exists|a: int| 0 <= a < s.len() && (#[trigger] s[a]).0 == k {
            seq![(tag, value_at(s, k))]
        } else {
            Seq::<(usize, T)>::empty()
        },
    decreases s.len(),
{
    if s.len() > 0 {
        let d = s.drop_last();
        assert(strictly_keyed(d, usize::MAX as int + 1)) by {
            assert forall|a: int, b: int| 0 <= a < b < d.len() implies (#[trigger] d[a]).0 < (#[trigger] d[b]).0 by {
                assert(d[a] == s[a] && d[b] == s[b]);
            }
            assert forall|a: int| 0 <= a < d.len() implies (#[trigger] d[a]).0 < usize::MAX as int + 1 by {
                assert(d[a] == s[a]);
            }
        }
        lemma_hits_value(d, k, tag);
        let last = s.len() - 1;
        if s[last].0 == k {
            assert(!exists|a: int| 0 <= a < d.len() && (#[trigger] d[a]).0 == k) by {
                assert forall|a: int| 0 <= a < d.len() implies (#[trigger] d[a]).0 != k by {
                    assert(d[a] == s[a]);
                    assert(s[a].0 < s[last].0);
                }
            }
            lemma_value_at_found(s, usize::MAX as int + 1, last);
            assert(hits(s, k, tag) =~= seq![(tag, value_at(s, k))]);
        } else if exists|a: int| 0 <= a < d.len() && (#[trigger] d[a]).0 == k {
            let a = choose|a: int| 0 <= a < d.len() && (#[trigger] d[a]).0 == k;
            assert(s[a] == d[a]);
            lemma_value_at_found(d, usize::MAX as int + 1, a);
            lemma_value_at_found(s, usize::MAX as int + 1, a);
        } else {
            assert(!exists|a: int| 0 <= a < s.len() && (#[trigger] s[a]).0 == k) by {
                assert forall|a: int| 0 <= a < s.len() implies (#[trigger] s[a]).0 != k by {
                    if a < d.len() {
                        assert(s[a] == d[a]);
                    }
                }
            }
        }
    } else {
        assert(!exists|a: int| 0 <= a < s.len() && (#[trigger] s[a]).0 == k);
    }
}

/// Reading key `i` from transposed lane `k` gives the entry `(i, k)` of the source.
pub proof fn lemma_gathered_value<T: Scalar>(
    offsets: Seq<usize>,
    indices: Seq<usize>,
    values: Seq<T>,
    nnz: int,
    n_major: int,
    n_minor: int,
    k: usize,
    c: int,
    i: usize,
)
    requires
        compressed_ok(offsets, indices, nnz, n_major, n_minor),
        values.len() == nnz,
        0 <= c <= n_major,
        n_major <= usize::MAX,
        n_minor <= usize::MAX,
    ensures
        value_at(gathered(offsets, indices, values, k, c), i) == if i < c {
            value_at(lane(offsets, indices, values, i as int), k)
        } else {
            T::zero_value()
        },
    decreases c,
{
    let cur = gathered(offsets, indices, values, k, c);
    lemma_gathered_keyed(offsets, indices, values, nnz, n_major, n_minor, k, c);
    if c == 0 {
        assert(!exists|a: int| 0 <= a < cur.len() && (#[trigger] cur[a]).0 == i);
    } else {
        lemma_gathered_value(offsets, indices, values, nnz, n_major, n_minor, k, c - 1, i);
        lemma_gathered_keyed(offsets, indices, values, nnz, n_major, n_minor, k, c - 1);
        let prev = gathered(offsets, indices, values, k, c - 1);
        let l = lane(offsets, indices, values, c - 1);
        lemma_lane_keyed(offsets, indices, values, nnz, n_major, n_minor, c - 1);
        assert(strictly_keyed(l, usize::MAX as int + 1)) by {
            assert forall|a: int| 0 <= a < l.len() implies (#[trigger] l[a]).0 < usize::MAX as int + 1 by {
            }
        }
        lemma_hits_value(l, k, (c - 1) as usize);
        let present = exists|a: int| 0 <= a < l.len() && (#[trigger] l[a]).0 == k;
        if present {
            assert(cur =~= prev.push(((c - 1) as usize, value_at(l, k))));
            if i == c - 1 {
                lemma_value_at_found(cur, c, prev.len() as int);
            } else if exists|a: int| 0 <= a < prev.len() && (#[trigger] prev[a]).0 == i {
                let a = choose|a: int| 0 <= a < prev.len() && (#[trigger] prev[a]).0 == i;
                lemma_value_at_found(prev, c - 1, a);
                assert(cur[a] == prev[a]);
                lemma_value_at_found(cur, c, a);
            } else {
                assert(!exists|a: int| 0 <= a < cur.len() && (#[trigger] cur[a]).0 == i) by {
                    assert forall|a: int| 0 <= a < cur.len() implies (#[trigger] cur[a]).0 != i by {
                        if a < prev.len() {
                            assert(cur[a] == prev[a]);
                        }
                    }
                }
            }
        } else {
            assert(cur =~= prev);
            if i == c - 1 {
                assert(!exists|a: int| 0 <= a < prev.len() && (#[trigger] prev[a]).0 == i);
                assert(!exists|a: int| 0 <= a < l.len() && (#[trigger] l[a]).0 == k);
            }
        }
    }
}


/// When no two of the first `n` triplets share a position, the duplicates at
/// `(m, k)` are the single matching triplet's value, or none.
pub proof fn lemma_matching_single<T>(
    major: Seq<usize>,
    minor: Seq<usize>,
    values: Seq<T>,
    m: usize,
    k: usize,
    n: int,
)
    requires
        0 <= n,
        forall|q1: int, q2: int|
            0 <= q1 < q2 < n ==> !(#[trigger] major[q1] == #[trigger] major[q2] && minor[q1] == minor[q2]),
    ensures
        forall|q: int|
            0 <= q < n && major[q] == m && minor[q] == k ==> #[trigger] matching(
                major,
                minor,
                values,
                m,
                k,
                n,
            ) == seq![values[q]],
        (forall|q: int| 0 <= q < n ==> !(major[q] == m && minor[q] == k)) ==> matching(
            major,
            minor,
            values,
            m,
            k,
            n,
        ) == Seq::<T>::empty(),
    decreases n,
{
    if n > 0 {
        lemma_matching_single(major, minor, values, m, k, n - 1);
        let prev = matching(major, minor, values, m, k, n - 1);
        if major[n - 1] == m && minor[n - 1] == k {
            assert(forall|q: int| 0 <= q < n - 1 ==> !(major[q] == m && minor[q] == k)) by {
                assert forall|q: int| 0 <= q < n - 1 implies !(major[q] == m && minor[q] == k) by {
                    assert(!(major[q] == major[n - 1] && minor[q] == minor[n - 1]));
                }
            }
            assert(prev == Seq::<T>::empty());
            assert(matching(major, minor, values, m, k, n) =~= seq![values[n - 1]]);
            assert forall|q: int| 0 <= q < n && major[q] == m && minor[q] == k implies #[trigger] matching(
                major,
                minor,
                values,
                m,
                k,
                n,
            ) == seq![values[q]] by {
                if q < n - 1 {
                    assert(!(major[q] == major[n - 1] && minor[q] == minor[n - 1]));
                }
            }
        }
    }
}

/// The matching values of the first `n1` triplets are a prefix of those of
/// the first `n2`.
pub proof fn lemma_matching_prefix<T>(
    major: Seq<usize>,
    minor: Seq<usize>,
    values: Seq<T>,
    m: usize,
    k: usize,
    n1: int,
    n2: int,
)
    requires
        0 <= n1 <= n2,
    ensures
        matching(major, minor, values, m, k, n1).len() <= matching(major, minor, values, m, k, n2).len(),
        matching(major, minor, values, m, k, n2).take(matching(major, minor, values, m, k, n1).len() as int)
            == matching(major, minor, values, m, k, n1),
    decreases n2,
{
    let small = matching(major, minor, values, m, k, n1);
    if n1 == n2 {
        assert(small.take(small.len() as int) =~= small);
    } else {
        lemma_matching_prefix(major, minor, values, m, k, n1, n2 - 1);
        let mid = matching(major, minor, values, m, k, n2 - 1);
        let big = matching(major, minor, values, m, k, n2);
        assert(big.take(small.len() as int) =~= mid.take(small.len() as int));
    }
}

/// Every entry of an assembled lane is nonzero.
pub proof fn lemma_assembled_nonzero<T: Scalar>(
    major: Seq<usize>,
    minor: Seq<usize>,
    values: Seq<T>,
    m: usize,
    c: int,
)
    requires
        0 <= c,
    ensures
        forall|a: int|
            0 <= a < assembled(major, minor, values, m, c).len() ==> (#[trigger] assembled(
                major,
                minor,
                values,
                m,
                c,
            )[a]).1 != T::zero_value(),
    decreases c,
{
    if c > 0 {
        lemma_assembled_nonzero(major, minor, values, m, c - 1);
        let prev = assembled(major, minor, values, m, c - 1);
        let cur = assembled(major, minor, values, m, c);
        assert forall|a: int| 0 <= a < cur.len() implies (#[trigger] cur[a]).1 != T::zero_value() by {
            if a < prev.len() {
                assert(cur[a] == prev[a]);
            }
        }
    }
}

} // verus!
