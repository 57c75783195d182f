//! Approximate Minimum Degree (AMD) column ordering for fill reduction.
//!
//! Simplified variant (no aggressive absorption, no supervariables): the next
//! vertex eliminated is the uneliminated one of minimum current degree, ties
//! broken by smaller index; eliminating `v` joins every pair of its
//! uneliminated neighbours (fill), and a degree counts every neighbour ever
//! joined, eliminated or not.
use vstd::prelude::*;
use super::csc::{CscMatrix, CscView};
use super::lu_symbolic::{below, segment};

verus! {

/// `s` is strictly increasing.
pub open spec fn ascending(s: Seq<usize>) -> bool {
    forall|a: int, b: int| 0 <= a < b < s.len() ==> #[trigger] s[a] < #[trigger] s[b]
}

/// Binary search of an ascending slice: `Ok(i)` with `sorted[i] == target`,
/// or `Err(i)` with `i` the position where `target` would be inserted.
fn search(sorted: &[usize], target: usize) -> (r: Result<usize, usize>)
    requires
        ascending(sorted@),
    ensures
        match r {
            Ok(i) => i < sorted@.len() && sorted@[i as int] == target,
            Err(i) => i <= sorted@.len() && (forall|a: int| 0 <= a < i ==> #[trigger] sorted@[a] < target)
                && (forall|a: int| i <= a < sorted@.len() ==> #[trigger] sorted@[a] > target),
        },
{
    let mut lo: usize = 0;
    let mut hi: usize = sorted.len();
    while lo < hi
        invariant
            ascending(sorted@),
            lo <= hi <= sorted@.len(),
            forall|a: int| 0 <= a < lo ==> #[trigger] sorted@[a] < target,
            forall|a: int| hi <= a < sorted@.len() ==> #[trigger] sorted@[a] > target,
        decreases hi - lo,
    {
        let mid = lo + (hi - lo) / 2;
        let x = sorted[mid];
        if x == target {
            return Ok(mid);
        } else if x < target {
            lo = mid + 1;
        } else {
            hi = mid;
        }
    }
    Err(lo)
}

/// Binary-search the ascending slice `sorted` for `target`.
pub fn contains_sorted(sorted: &[usize], target: usize) -> (r: bool)
    requires
        ascending(sorted@),
    ensures
        r == sorted@.contains(target),
{
    match search(sorted, target) {
        Ok(i) => {
            proof {
                assert(sorted@[i as int] == target);
            }
            true
        },
        Err(i) => {
            proof {
                assert(!sorted@.contains(target)) by {
                    if sorted@.contains(target) {
                        let a = choose|a: int| 0 <= a < sorted@.len() && sorted@[a] == target;
                        if a < i {
                            assert(sorted@[a] < target);
                        } else {
                            assert(sorted@[a] > target);
                        }
                    }
                }
            }
            false
        },
    }
}

/// Insert `value` into the ascending `sorted`, keeping it ascending; no-op
/// when already present.
pub fn insert_sorted(sorted: &mut Vec<usize>, value: usize)
    requires
        ascending(old(sorted)@),
    ensures
        ascending(final(sorted)@),
        final(sorted)@.to_set() == old(sorted)@.to_set().insert(value),
        old(sorted)@.contains(value) ==> final(sorted)@ == old(sorted)@,
        !old(sorted)@.contains(value) ==> final(sorted)@.len() == old(sorted)@.len() + 1,
{
    match search(sorted.as_slice(), value) {
        Ok(i) => {
            proof {
                assert(old(sorted)@[i as int] == value);
                assert(sorted@.to_set() =~= old(sorted)@.to_set().insert(value));
            }
        },
        Err(i) => {
            proof {
                assert(!old(sorted)@.contains(value)) by {
                    if old(sorted)@.contains(value) {
                        let a = choose|a: int| 0 <= a < old(sorted)@.len() && old(sorted)@[a] == value;
                        if a < i {
                            assert(old(sorted)@[a] < value);
                        } else {
                            assert(old(sorted)@[a] > value);
                        }
                    }
                }
            }
            sorted.insert(i, value);
            proof {
                let o = old(sorted)@;
                let s = sorted@;
                assert(s == o.insert(i as int, value));
                assert forall|a: int, b: int| 0 <= a < b < s.len() implies #[trigger] s[a] < #[trigger] s[b] by {
                    if b < i {
                        assert(s[a] == o[a] && s[b] == o[b]);
                    } else if b == i {
                        assert(s[a] == o[a]);
                    } else if a < i {
                        assert(s[a] == o[a] && s[b] == o[b - 1]);
                    } else if a == i {
                        assert(s[b] == o[b - 1]);
                    } else {
                        assert(s[a] == o[a - 1] && s[b] == o[b - 1]);
                    }
                }
                assert forall|x: usize| s.to_set().contains(x) <==> o.to_set().insert(value).contains(x) by {
                    if s.contains(x) {
                        let a = choose|a: int| 0 <= a < s.len() && s[a] == x;
                        if a < i {
                            assert(o[a] == x);
                        } else if a > i {
                            assert(o[a - 1] == x);
                        }
                    }
                    if o.contains(x) {
                        let a = choose|a: int| 0 <= a < o.len() && o[a] == x;
                        if a < i {
                            assert(s[a] == x);
                        } else {
                            assert(s[a + 1] == x);
                        }
                    }
                    if x == value {
                        assert(s[i as int] == x);
                    }
                }
                assert(s.to_set() =~= o.to_set().insert(value));
            }
        },
    }
}


/// Vertices `u` and `v` are adjacent in the symmetric pattern `|A| + |A^T|`
/// of the CSC pattern `(col_ptr, row_indices)`, self-loops excluded.
pub open spec fn linked(col_ptr: Seq<usize>, row_indices: Seq<usize>, u: usize, v: usize) -> bool {
    u != v && (segment(col_ptr, row_indices, v as int).contains(u) || segment(
        col_ptr,
        row_indices,
        u as int,
    ).contains(v))
}

/// A state of the elimination: the current adjacency (original edges plus
/// fill), the eliminated vertices, and the elimination order so far.
pub struct Elimination {
    pub adj: Seq<Set<usize>>,
    pub eliminated: Set<usize>,
    pub order: Seq<usize>,
}

/// The elimination graph before any vertex is eliminated.
pub open spec fn initial_graph(col_ptr: Seq<usize>, row_indices: Seq<usize>, n: usize) -> Elimination {
    Elimination {
        adj: Seq::new(
            n as nat,
            |v: int| Set::new(|u: usize| u < n && linked(col_ptr, row_indices, u, v as usize)),
        ),
        eliminated: Set::empty(),
        order: Seq::empty(),
    }
}

/// The uneliminated vertex below `c` of least degree, the smaller index
/// winning ties.
pub open spec fn min_degree_vertex(g: Elimination, c: int) -> Option<usize>
    decreases c,
{
    if c <= 0 {
        None
    } else {
        let best = min_degree_vertex(g, c - 1);
        let v = (c - 1) as usize;
        if g.eliminated.contains(v) {
            best
        } else {
            match best {
                None => Some(v),
                Some(b) => if g.adj[v as int].len() < g.adj[b as int].len() {
                    Some(v)
                } else {
                    best
                },
            }
        }
    }
}

/// Eliminates `v`: every uneliminated neighbour of `v` becomes adjacent to
/// every other one.
pub open spec fn eliminate(g: Elimination, v: usize) -> Elimination {
    let nb = g.adj[v as int].difference(g.eliminated.insert(v));
    Elimination {
        adj: Seq::new(
            g.adj.len(),
            |u: int|
                if nb.contains(u as usize) {
                    g.adj[u] + nb.remove(u as usize)
                } else {
                    g.adj[u]
                },
        ),
        eliminated: g.eliminated.insert(v),
        order: g.order.push(v),
    }
}

/// The elimination state after `k` minimum-degree steps.
pub open spec fn elimination_after(
    col_ptr: Seq<usize>,
    row_indices: Seq<usize>,
    n: usize,
    k: nat,
) -> Elimination
    decreases k,
{
    if k == 0 {
        initial_graph(col_ptr, row_indices, n)
    } else {
        let g = elimination_after(col_ptr, row_indices, n, (k - 1) as nat);
        match min_degree_vertex(g, n as int) {
            Some(v) => eliminate(g, v),
            None => g,
        }
    }
}

/// The minimum-degree elimination order of the pattern.
pub open spec fn min_degree_order(col_ptr: Seq<usize>, row_indices: Seq<usize>, n: usize) -> Seq<usize> {
    elimination_after(col_ptr, row_indices, n, n as nat).order
}

/// The pattern entries seen after the first `j` columns and `t` entries of column `j`.
pub open spec fn seen_rows(
    col_ptr: Seq<usize>,
    row_indices: Seq<usize>,
    c: usize,
    j: usize,
    t: int,
) -> Seq<usize> {
    if c < j {
        segment(col_ptr, row_indices, c as int)
    } else if c == j {
        segment(col_ptr, row_indices, c as int).take(t)
    } else {
        Seq::empty()
    }
}

/// Adjacency through the pattern entries seen so far.
pub open spec fn linked_so_far(
    col_ptr: Seq<usize>,
    row_indices: Seq<usize>,
    u: usize,
    v: usize,
    j: usize,
    t: int,
) -> bool {
    u != v && (seen_rows(col_ptr, row_indices, v, j, t).contains(u) || seen_rows(
        col_ptr,
        row_indices,
        u,
        j,
        t,
    ).contains(v))
}

/// The adjacency lists of the symmetric pattern, ascending.
fn pattern_graph<T>(csc: &CscMatrix<T>) -> (adj: Vec<Vec<usize>>)
    requires
        csc@.wf(),
        csc@.nrows == csc@.ncols,
    ensures
        adj.len() == csc@.nrows,
        forall|v: int| 0 <= v < adj.len() ==> ascending(#[trigger] adj[v]@),
        forall|v: int|
            0 <= v < adj.len() ==> (#[trigger] adj[v])@.to_set() == initial_graph(
                csc@.col_ptr,
                csc@.row_indices,
                csc@.nrows,
            ).adj[v],
{
    let n = csc.nrows();
    let col_ptr = csc.col_ptr();
    let row_indices = csc.row_indices();
    let ghost cp = csc@.col_ptr;
    let ghost ri = csc@.row_indices;
    let mut adj: Vec<Vec<usize>> = Vec::new();
    for v in 0..n
        invariant
            adj.len() == v,
            forall|x: int| 0 <= x < v ==> (#[trigger] adj[x])@.len() == 0,
    {
        adj.push(Vec::new());
    }
    proof {
        assert forall|x: int| 0 <= x < n implies (#[trigger] adj[x])@.to_set() == Set::new(
            |u: usize| u < n && linked_so_far(cp, ri, u, x as usize, 0, 0),
        ) by {
            assert(adj[x]@.to_set() =~= Set::new(|u: usize| u < n && linked_so_far(cp, ri, u, x as usize, 0, 0)));
        }
    }
    for j in 0..n
        invariant
            csc@.wf(),
            n == csc@.nrows,
            csc@.nrows == csc@.ncols,
            col_ptr@ == cp,
            row_indices@ == ri,
            cp == csc@.col_ptr,
            ri == csc@.row_indices,
            adj.len() == n,
            forall|x: int| 0 <= x < n ==> ascending(#[trigger] adj[x]@),
            forall|x: int|
                0 <= x < n ==> (#[trigger] adj[x])@.to_set() == Set::new(
                    |u: usize| u < n && linked_so_far(cp, ri, u, x as usize, j, 0),
                ),
    {
        let start = col_ptr[j];
        let end = col_ptr[j + 1];
        proof {
            assert(cp[j as int] <= cp[j + 1] <= cp[n as int]);
        }
        for p in start..end
            invariant
                csc@.wf(),
                n == csc@.nrows,
                csc@.nrows == csc@.ncols,
                j < n,
                col_ptr@ == cp,
                row_indices@ == ri,
                cp == csc@.col_ptr,
                ri == csc@.row_indices,
                start == cp[j as int],
                end == cp[j + 1],
                end <= ri.len(),
                adj.len() == n,
                forall|x: int| 0 <= x < n ==> ascending(#[trigger] adj[x]@),
                forall|x: int|
                    0 <= x < n ==> (#[trigger] adj[x])@.to_set() == Set::new(
                        |u: usize| u < n && linked_so_far(cp, ri, u, x as usize, j, p - start),
                    ),
        {
            let i = row_indices[p];
            let ghost t = (p - start) as int;
            let ghost seg = segment(cp, ri, j as int);
            proof {
                assert(i < n);
                assert(seg.take(t + 1) =~= seg.take(t).push(i));
            }
            let ghost before = adj@;
            if i != j {
                insert_sorted(&mut adj[i], j);
                let ghost mid = adj@;
                insert_sorted(&mut adj[j], i);
                proof {
                    assert forall|x: int| 0 <= x < n implies (#[trigger] adj[x])@.to_set() == Set::new(
                        |u: usize| u < n && linked_so_far(cp, ri, u, x as usize, j, t + 1),
                    ) by {
                        let want = Set::new(|u: usize| u < n && linked_so_far(cp, ri, u, x as usize, j, t + 1));
                        let had = Set::new(|u: usize| u < n && linked_so_far(cp, ri, u, x as usize, j, t));
                        assert(before[x]@.to_set() == had);
                        if x == i {
                            assert(adj[x]@.to_set() =~= had.insert(j as usize));
                            assert(want =~= had.insert(j as usize)) by {
                                assert(seen_rows(cp, ri, j, j, t + 1).contains(i)) by {
                                    assert(seen_rows(cp, ri, j, j, t + 1)[t] == i);
                                }
                            }
                        } else if x == j {
                            assert(adj[x]@.to_set() =~= had.insert(i));
                            assert(want =~= had.insert(i)) by {
                                assert(seen_rows(cp, ri, j, j, t + 1)[t] == i);
                            }
                        } else {
                            assert(adj[x] == before[x]);
                            assert(want =~= had);
                        }
                    }
                }
            } else {
                proof {
                    assert forall|x: int| 0 <= x < n implies (#[trigger] adj[x])@.to_set() == Set::new(
                        |u: usize| u < n && linked_so_far(cp, ri, u, x as usize, j, t + 1),
                    ) by {
                        let want = Set::new(|u: usize| u < n && linked_so_far(cp, ri, u, x as usize, j, t + 1));
                        let had = Set::new(|u: usize| u < n && linked_so_far(cp, ri, u, x as usize, j, t));
                        assert(want =~= had);
                    }
                }
            }
        }
        proof {
            let seg = segment(cp, ri, j as int);
            assert(seg.take(end - start) =~= seg);
            assert forall|x: int| 0 <= x < n implies (#[trigger] adj[x])@.to_set() == Set::new(
                |u: usize| u < n && linked_so_far(cp, ri, u, x as usize, (j + 1) as usize, 0),
            ) by {
                assert(Set::new(|u: usize| u < n && linked_so_far(cp, ri, u, x as usize, j, end - start))
                    =~= Set::new(|u: usize| u < n && linked_so_far(cp, ri, u, x as usize, (j + 1) as usize, 0)));
            }
        }
    }
    proof {
        assert forall|x: int| 0 <= x < n implies (#[trigger] adj[x])@.to_set() == initial_graph(cp, ri, n).adj[x] by {
            assert(Set::new(|u: usize| u < n && linked_so_far(cp, ri, u, x as usize, n, 0)) =~= initial_graph(
                cp,
                ri,
                n,
            ).adj[x]);
        }
    }
    adj
}


/// An ascending sequence has no duplicates, so its length is its set's size.
proof fn lemma_ascending_len(s: Seq<usize>)
    requires
        ascending(s),
    ensures
        s.no_duplicates(),
        s.len() == s.to_set().len(),
{
    assert forall|a: int, b: int| 0 <= a < s.len() && 0 <= b < s.len() && a != b implies s[a] != s[b] by {
        if a < b {
            assert(s[a] < s[b]);
        } else {
            assert(s[b] < s[a]);
        }
    }
    s.unique_seq_to_set();
}

/// The current adjacency mirrors the elimination state `g` on `0 .. n`.
pub open spec fn mirrors(adj: Seq<Vec<usize>>, eliminated: Seq<bool>, g: Elimination, n: usize) -> bool {
    &&& adj.len() == n
    &&& eliminated.len() == n
    &&& g.adj.len() == n
    &&& forall|u: int| 0 <= u < n ==> ascending(#[trigger] adj[u]@)
    &&& forall|u: int| 0 <= u < n ==> (#[trigger] adj[u])@.to_set() == g.adj[u]
    &&& forall|u: int| 0 <= u < n ==> (#[trigger] eliminated[u] <==> g.eliminated.contains(u as usize))
}

/// The uneliminated vertex of least degree, the smaller index winning ties.
fn pick_min(
    adj: &Vec<Vec<usize>>,
    eliminated: &Vec<bool>,
    n: usize,
    Ghost(g): Ghost<Elimination>,
) -> (r: Option<usize>)
    requires
        mirrors(adj@, eliminated@, g, n),
    ensures
        r == min_degree_vertex(g, n as int),
{
    let mut best: Option<usize> = None;
    for c in 0..n
        invariant
            mirrors(adj@, eliminated@, g, n),
            best == min_degree_vertex(g, c as int),
            best matches Some(b) ==> b < c,
    {
        if !eliminated[c] {
            match best {
                None => {
                    best = Some(c);
                },
                Some(b) => {
                    proof {
                        lemma_ascending_len(adj[c as int]@);
                        lemma_ascending_len(adj[b as int]@);
                    }
                    if adj[c].len() < adj[b].len() {
                        best = Some(c);
                    }
                },
            }
        }
    }
    best
}

/// The pair `(a, b)`, `a < b`, of positions in the neighbour list has been joined.
pub open spec fn pair_done(a: int, b: int, idx: int, jdx: int) -> bool {
    a < idx || (a == idx && b < jdx)
}

/// The neighbours joined so far to the vertex at position `c` of `nv`.
pub open spec fn joined(nv: Seq<usize>, c: int, idx: int, jdx: int) -> Set<usize> {
    Set::new(
        |y: usize|
            exists|b: int|
                0 <= b < nv.len() && #[trigger] nv[b] == y && b != c && (if b < c {
                    pair_done(b, c, idx, jdx)
                } else {
                    pair_done(c, b, idx, jdx)
                }),
    )
}

/// The adjacency sets are symmetric, without self-loops, and below `n`.
pub open spec fn graph_ok(adj: Seq<Set<usize>>, n: usize) -> bool {
    &&& adj.len() == n
    &&& forall|u: usize, w: usize|
        u < n && w < n ==> (#[trigger] adj[u as int].contains(w) <==> #[trigger] adj[w as int].contains(u))
    &&& forall|u: usize| u < n ==> !(#[trigger] adj[u as int]).contains(u)
    &&& forall|u: usize, w: usize| u < n && #[trigger] adj[u as int].contains(w) ==> w < n
}

/// Joins every pair of vertices of the ascending list `nv`.
fn fill(
    adj: &mut Vec<Vec<usize>>,
    nv: &Vec<usize>,
    n: usize,
    Ghost(g_adj): Ghost<Seq<Set<usize>>>,
)
    requires
        old(adj).len() == n,
        graph_ok(g_adj, n),
        forall|u: int| 0 <= u < n ==> ascending(#[trigger] old(adj)[u]@),
        forall|u: int| 0 <= u < n ==> (#[trigger] old(adj)[u])@.to_set() == g_adj[u],
        ascending(nv@),
        forall|a: int| 0 <= a < nv.len() ==> #[trigger] nv@[a] < n,
    ensures
        final(adj).len() == n,
        forall|u: int| 0 <= u < n ==> ascending(#[trigger] final(adj)[u]@),
        forall|u: int|
            0 <= u < n ==> (#[trigger] final(adj)[u])@.to_set() == if nv@.to_set().contains(u as usize) {
                g_adj[u] + nv@.to_set().remove(u as usize)
            } else {
                g_adj[u]
            },
{
    let len = nv.len();
    proof {
        lemma_ascending_len(nv@);
        assert forall|c: int| 0 <= c < len implies (#[trigger] adj[nv@[c] as int])@.to_set() == g_adj[nv@[c] as int]
            + joined(nv@, c, 0, 1) by {
            assert(joined(nv@, c, 0, 1) =~= Set::empty());
        }
    }
    for idx in 0..len
        invariant
            len == nv.len(),
            adj.len() == n,
            graph_ok(g_adj, n),
            ascending(nv@),
            nv@.no_duplicates(),
            forall|a: int| 0 <= a < nv.len() ==> #[trigger] nv@[a] < n,
            forall|u: int| 0 <= u < n ==> ascending(#[trigger] adj[u]@),
            forall|u: int| 0 <= u < n && !nv@.contains(u as usize) ==> #[trigger] adj[u] == old(adj)[u],
            forall|u: int| 0 <= u < n ==> (#[trigger] old(adj)[u])@.to_set() == g_adj[u],
            forall|c: int|
                0 <= c < len ==> (#[trigger] adj[nv@[c] as int])@.to_set() == g_adj[nv@[c] as int] + joined(
                    nv@,
                    c,
                    idx as int,
                    idx + 1,
                ),
    {
        let u = nv[idx];
        for jdx in idx + 1..len
            invariant
                len == nv.len(),
                idx < len,
                u == nv@[idx as int],
                adj.len() == n,
                graph_ok(g_adj, n),
                ascending(nv@),
                nv@.no_duplicates(),
                forall|a: int| 0 <= a < nv.len() ==> #[trigger] nv@[a] < n,
                forall|x: int| 0 <= x < n ==> ascending(#[trigger] adj[x]@),
                forall|x: int| 0 <= x < n && !nv@.contains(x as usize) ==> #[trigger] adj[x] == old(adj)[x],
                forall|x: int| 0 <= x < n ==> (#[trigger] old(adj)[x])@.to_set() == g_adj[x],
                forall|c: int|
                    0 <= c < len ==> (#[trigger] adj[nv@[c] as int])@.to_set() == g_adj[nv@[c] as int]
                        + joined(nv@, c, idx as int, jdx as int),
        {
            let w = nv[jdx];
            let ghost before = adj@;
            proof {
                assert(u < w);
            }
            if !contains_sorted(adj[u].as_slice(), w) {
                insert_sorted(&mut adj[u], w);
                insert_sorted(&mut adj[w], u);
            } else {
                proof {
                    // w is an original neighbour of u, so u is one of w
                    let cu = idx as int;
                    assert(adj[nv@[cu] as int]@.to_set().contains(w));
                    if joined(nv@, cu, idx as int, jdx as int).contains(w) {
                        let b = choose|b: int|
                            0 <= b < nv.len() && #[trigger] nv@[b] == w && b != cu && (if b < cu {
                                pair_done(b, cu, idx as int, jdx as int)
                            } else {
                                pair_done(cu, b, idx as int, jdx as int)
                            });
                        assert(b == jdx);
                        assert(false);
                    }
                    assert(g_adj[u as int].contains(w));
                    assert(g_adj[w as int].contains(u));
                    assert(adj[nv@[jdx as int] as int]@.to_set().contains(u));
                    assert(adj[w as int]@.to_set().insert(u) =~= adj[w as int]@.to_set());
                    assert(adj[u as int]@.to_set().insert(w) =~= adj[u as int]@.to_set());
                }
            }
            proof {
                let cu = idx as int;
                let cw = jdx as int;
                assert forall|c: int| 0 <= c < len implies (#[trigger] adj[nv@[c] as int])@.to_set()
                    == g_adj[nv@[c] as int] + joined(nv@, c, idx as int, jdx + 1) by {
                    let x = nv@[c] as int;
                    let old_j = joined(nv@, c, idx as int, jdx as int);
                    let new_j = joined(nv@, c, idx as int, jdx + 1);
                    if c == cu {
                        assert(new_j =~= old_j.insert(w)) by {
                            assert(nv@[cw] == w);
                        }
                        assert(adj[x]@.to_set() =~= before[x]@.to_set().insert(w));
                    } else if c == cw {
                        assert(new_j =~= old_j.insert(u)) by {
                            assert(nv@[cu] == u);
                        }
                        assert(adj[x]@.to_set() =~= before[x]@.to_set().insert(u));
                    } else {
                        assert(nv@[c] != u && nv@[c] != w);
                        assert(adj[x] == before[x]);
                        assert(new_j =~= old_j) by {
                            assert forall|y: usize| new_j.contains(y) implies old_j.contains(y) by {
                                let b = choose|b: int|
                                    0 <= b < nv.len() && #[trigger] nv@[b] == y && b != c && (if b < c {
                                        pair_done(b, c, idx as int, jdx + 1)
                                    } else {
                                        pair_done(c, b, idx as int, jdx + 1)
                                    });
                                assert(nv@[b] == y);
                            }
                        }
                    }
                }
                assert forall|x: int| 0 <= x < n && !nv@.contains(x as usize) implies #[trigger] adj[x] == old(adj)[x] by {
                    assert(x != u as int) by {
                        assert(nv@[cu] == u);
                    }
                    assert(x != w as int) by {
                        assert(nv@[cw] == w);
                    }
                    assert(adj[x] == before[x]);
                }
            }
        }
        proof {
            assert forall|c: int| 0 <= c < len implies (#[trigger] adj[nv@[c] as int])@.to_set() == g_adj[nv@[c] as int]
                + joined(nv@, c, idx + 1, idx + 2) by {
                assert(joined(nv@, c, idx as int, len as int) =~= joined(nv@, c, idx + 1, idx + 2));
            }
        }
    }
    proof {
        assert forall|u: int| 0 <= u < n implies (#[trigger] adj[u])@.to_set() == if nv@.to_set().contains(u as usize) {
            g_adj[u] + nv@.to_set().remove(u as usize)
        } else {
            g_adj[u]
        } by {
            if nv@.to_set().contains(u as usize) {
                let c = choose|c: int| 0 <= c < nv.len() && nv@[c] == u as usize;
                assert(joined(nv@, c, len as int, len + 1) =~= nv@.to_set().remove(u as usize)) by {
                    assert forall|y: usize| #[trigger] nv@.to_set().remove(u as usize).contains(y) implies joined(
                        nv@,
                        c,
                        len as int,
                        len + 1,
                    ).contains(y) by {
                        let b = choose|b: int| 0 <= b < nv.len() && nv@[b] == y;
                        assert(b != c);
                        assert(nv@[b] == y);
                    }
                }
            } else {
                assert(!nv@.contains(u as usize));
            }
        }
    }
}


proof fn lemma_eliminate_graph_ok(g: Elimination, v: usize, n: usize)
    requires
        graph_ok(g.adj, n),
        v < n,
    ensures
        graph_ok(eliminate(g, v).adj, n),
{
    let h = eliminate(g, v);
    let nb = g.adj[v as int].difference(g.eliminated.insert(v));
    assert forall|u: usize, w: usize| u < n && w < n implies (#[trigger] h.adj[u as int].contains(w)
        <==> #[trigger] h.adj[w as int].contains(u)) by {
        assert(g.adj[u as int].contains(w) <==> g.adj[w as int].contains(u));
    }
    assert forall|u: usize, w: usize| u < n && #[trigger] h.adj[u as int].contains(w) implies w < n by {
        if !g.adj[u as int].contains(w) {
            assert(nb.contains(w));
            assert(g.adj[v as int].contains(w));
        }
    }
}

proof fn lemma_min_degree_vertex(g: Elimination, c: int)
    requires
        0 <= c <= usize::MAX,
    ensures
        min_degree_vertex(g, c) matches Some(v) ==> v < c && !g.eliminated.contains(v),
        min_degree_vertex(g, c) is None ==> forall|u: usize| u < c ==> #[trigger] g.eliminated.contains(u),
    decreases c,
{
    if c > 0 {
        lemma_min_degree_vertex(g, c - 1);
    }
}

/// Compute the minimum-degree elimination order of the symmetric pattern
/// `|A| + |A^T|` of a square CSC matrix (values are ignored): `perm[i]` is
/// the vertex eliminated at step `i`, always a permutation of `0 .. n`.
pub fn amd_order<T>(csc: &CscMatrix<T>) -> (perm: Vec<usize>)
    requires
        csc@.wf(),
        csc@.nrows == csc@.ncols,
    ensures
        perm@ == min_degree_order(csc@.col_ptr, csc@.row_indices, csc@.nrows),
        perm.len() == csc@.nrows,
        perm@.no_duplicates(),
        forall|a: int| 0 <= a < perm.len() ==> #[trigger] perm@[a] < csc@.nrows,
{
    let n = csc.nrows();
    let ghost cp = csc@.col_ptr;
    let ghost ri = csc@.row_indices;
    let mut adj = pattern_graph(csc);
    let mut eliminated: Vec<bool> = Vec::new();
    for x in 0..n
        invariant
            eliminated.len() == x,
            forall|y: int| 0 <= y < x ==> !(#[trigger] eliminated@[y]),
    {
        eliminated.push(false);
    }
    let mut perm: Vec<usize> = Vec::with_capacity(n);
    let ghost mut g = initial_graph(cp, ri, n);
    proof {
        assert(mirrors(adj@, eliminated@, g, n));
        assert(graph_ok(g.adj, n)) by {
            assert forall|u: usize, w: usize| u < n && w < n implies (#[trigger] g.adj[u as int].contains(w)
                <==> #[trigger] g.adj[w as int].contains(u)) by {
            }
        }
        assert(g.eliminated =~= perm@.to_set());
    }
    for k in 0..n
        invariant
            n == csc@.nrows,
            cp == csc@.col_ptr,
            ri == csc@.row_indices,
            g == elimination_after(cp, ri, n, k as nat),
            mirrors(adj@, eliminated@, g, n),
            graph_ok(g.adj, n),
            perm@ == g.order,
            perm.len() == k,
            perm@.no_duplicates(),
            forall|a: int| 0 <= a < perm.len() ==> #[trigger] perm@[a] < n,
            g.eliminated == perm@.to_set(),
    {
        let picked = pick_min(&adj, &eliminated, n, Ghost(g));
        proof {
            lemma_min_degree_vertex(g, n as int);
            if picked is None {
                perm@.unique_seq_to_set();
                crate::application::sparse::lu_symbolic::lemma_below_len(n as nat);
                assert(below(n as nat).subset_of(g.eliminated)) by {
                    assert forall|u: usize| below(n as nat).contains(u) implies g.eliminated.contains(u) by {
                    }
                }
                vstd::set_lib::lemma_len_subset(below(n as nat), g.eliminated);
                assert(false);
            }
        }
        let v = picked.unwrap();
        let ghost before_perm = perm@;
        eliminated.set(v, true);
        perm.push(v);
        let mut nv: Vec<usize> = Vec::new();
        let ghost nb = g.adj[v as int].difference(g.eliminated.insert(v));
        let deg_v = adj[v].len();
        for q in 0..deg_v
            invariant
                deg_v == adj[v as int]@.len(),
                v < n,
                adj.len() == n,
                eliminated.len() == n,
                ascending(adj[v as int]@),
                forall|u: int| 0 <= u < n ==> (#[trigger] eliminated@[u] <==> g.eliminated.insert(v).contains(u as usize)),
                forall|u: usize, w: usize| u < n && #[trigger] g.adj[u as int].contains(w) ==> w < n,
                adj[v as int]@.to_set() == g.adj[v as int],
                ascending(nv@),
                nv@.to_set() == adj[v as int]@.take(q as int).to_set().difference(g.eliminated.insert(v)),
                forall|a: int| 0 <= a < nv.len() ==> adj[v as int]@.take(q as int).contains(#[trigger] nv@[a]),
        {
            let u = adj[v][q];
            let ghost pre = nv@;
            proof {
                assert(adj[v as int]@.take(q + 1) =~= adj[v as int]@.take(q as int).push(u));
                adj[v as int]@.take(q as int).lemma_push_to_set_commute(u);
                assert(g.adj[v as int].contains(u)) by {
                    assert(adj[v as int]@[q as int] == u);
                }
                assert(u < n);
            }
            if !eliminated[u] {
                nv.push(u);
                proof {
                    pre.lemma_push_to_set_commute(u);
                    assert forall|a: int, b: int| 0 <= a < b < nv@.len() implies #[trigger] nv@[a] < #[trigger] nv@[b] by {
                        if b == pre.len() {
                            let c = choose|c: int| 0 <= c < q && adj[v as int]@.take(q as int)[c] == nv@[a];
                            assert(adj[v as int]@[c] < adj[v as int]@[q as int]);
                        } else {
                            assert(nv@[a] == pre[a] && nv@[b] == pre[b]);
                        }
                    }
                    assert(nv@.to_set() =~= adj[v as int]@.take(q + 1).to_set().difference(g.eliminated.insert(v)));
                    assert forall|a: int| 0 <= a < nv.len() implies adj[v as int]@.take(q + 1).contains(#[trigger] nv@[a]) by {
                        if a < pre.len() {
                            let c = choose|c: int| 0 <= c < q && adj[v as int]@.take(q as int)[c] == pre[a];
                            assert(adj[v as int]@.take(q + 1)[c] == pre[a]);
                        } else {
                            assert(adj[v as int]@.take(q + 1)[q as int] == u);
                        }
                    }
                }
            } else {
                proof {
                    assert(nv@.to_set() =~= adj[v as int]@.take(q + 1).to_set().difference(g.eliminated.insert(v)));
                    assert forall|a: int| 0 <= a < nv.len() implies adj[v as int]@.take(q + 1).contains(#[trigger] nv@[a]) by {
                        let c = choose|c: int| 0 <= c < q && adj[v as int]@.take(q as int)[c] == nv@[a];
                        assert(adj[v as int]@.take(q + 1)[c] == nv@[a]);
                    }
                }
            }
        }
        proof {
            assert(adj[v as int]@.take(deg_v as int) =~= adj[v as int]@);
            assert(nv@.to_set() =~= nb);
            assert forall|a: int| 0 <= a < nv.len() implies #[trigger] nv@[a] < n by {
                assert(adj[v as int]@.contains(nv@[a]));
                assert(g.adj[v as int].contains(nv@[a]));
            }
        }
        fill(&mut adj, &nv, n, Ghost(g.adj));
        proof {
            let h = eliminate(g, v);
            lemma_eliminate_graph_ok(g, v, n);
            assert(h == elimination_after(cp, ri, n, (k + 1) as nat));
            assert(mirrors(adj@, eliminated@, h, n)) by {
                assert forall|u: int| 0 <= u < n implies (#[trigger] adj[u])@.to_set() == h.adj[u] by {
                }
            }
            assert(!before_perm.to_set().contains(v));
            lemma_push_distinct(before_perm, v);
            before_perm.lemma_push_to_set_commute(v);
            g = h;
        }
    }
    perm
}

proof fn lemma_push_distinct(s: Seq<usize>, x: usize)
    requires
        s.no_duplicates(),
        !s.to_set().contains(x),
    ensures
        s.push(x).no_duplicates(),
{
    let t = s.push(x);
    assert forall|a: int, b: int| 0 <= a < t.len() && 0 <= b < t.len() && a != b implies t[a] != t[b] by {
        if a < s.len() && b < s.len() {
            assert(t[a] == s[a] && t[b] == s[b]);
        } else if a < s.len() {
            assert(t[a] == s[a]);
            assert(s.contains(s[a]));
        } else {
            assert(t[b] == s[b]);
            assert(s.contains(s[b]));
        }
    }
}

} // verus!
