//! Symbolic factorization phase of sparse LU over CSC.
//!
//! For each column `j`, the structural pattern of `(L \ I) ∪ U` at column
//! `j` is the left-looking reach of the already computed `L` columns:
//! starting from the rows of `A[:, j]` and the diagonal `j`, every reached
//! row `k < j` brings in the rows of `L` column `k`. Rows `≤ j` form `U`
//! column `j`, rows `> j` form `L` column `j`, both ascending. This is the
//! pivoting-free upper bound on fill under natural column ordering.
use vstd::prelude::*;
use crate::domain::scalar::Scalar;
use super::amd::{amd_order, ascending, insert_sorted, min_degree_order};
use super::compressed::{
    assembled, duplicates, lane, lane_sorted, lemma_assembled_nonzero, lemma_lane_keyed, lemma_matching_single,
    lemma_picked_positions, lemma_value_at_found, matching, sums_ok, total, total_ok,
};
use super::coo::CooMatrix;
use super::csc::{CscMatrix, CscView};

verus! {

/// Entries `ptr[k] .. ptr[k + 1]` of `rows`.
pub open spec fn segment(ptr: Seq<usize>, rows: Seq<usize>, k: int) -> Seq<usize> {
    rows.subrange(ptr[k] as int, ptr[k + 1] as int)
}

/// The rows every column `j` of the pattern starts from: those of `A[:, j]`
/// and the diagonal.
pub open spec fn pattern_seed(col_ptr: Seq<usize>, row_indices: Seq<usize>, j: usize) -> Set<usize> {
    segment(col_ptr, row_indices, j as int).to_set().insert(j)
}

/// `r` contains the rows of every `L` column `k` it reaches (`lower[k]`,
/// `k < lower.len()`).
pub open spec fn fan_closed(r: Set<usize>, lower: Seq<Seq<usize>>) -> bool {
    forall|k: usize, x: usize|
        #![trigger r.contains(k), lower[k as int].contains(x)]
        k < lower.len() && r.contains(k) && lower[k as int].contains(x) ==> r.contains(x)
}

/// `s` is the least set containing `seed` and closed under the fan-out of
/// the `L` columns in `lower`.
pub open spec fn least_reach(s: Set<usize>, seed: Set<usize>, lower: Seq<Seq<usize>>) -> bool {
    &&& seed.subset_of(s)
    &&& fan_closed(s, lower)
    &&& forall|r: Set<usize>| seed.subset_of(r) && #[trigger] fan_closed(r, lower) ==> s.subset_of(r)
}

/// `ptr` delimits `n` runs covering `rows`.
pub open spec fn ptr_ok(ptr: Seq<usize>, rows: Seq<usize>, n: int) -> bool {
    &&& ptr.len() == n + 1
    &&& ptr[0] == 0
    &&& ptr[n] == rows.len()
    &&& forall|a: int, b: int| 0 <= a <= b <= n ==> #[trigger] ptr[a] <= #[trigger] ptr[b]
}

/// Column `j` of the symbolic factors: `upper` ascending rows `≤ j`, `lower_j`
/// ascending rows in `(j, n)`, together the least reach of column `j` given
/// the `L` columns before it.
pub open spec fn column_ok(
    upper: Seq<usize>,
    lower_j: Seq<usize>,
    seed: Set<usize>,
    before: Seq<Seq<usize>>,
    j: usize,
    n: usize,
) -> bool {
    &&& ascending(upper)
    &&& ascending(lower_j)
    &&& forall|a: int| 0 <= a < upper.len() ==> #[trigger] upper[a] <= j
    &&& forall|a: int| 0 <= a < lower_j.len() ==> j < #[trigger] lower_j[a] < n
    &&& least_reach(upper.to_set() + lower_j.to_set(), seed, before)
}

/// Symbolic factorization result: the static sparsity pattern of `L ∪ U`
/// under natural column ordering, as paired CSC index arrays.
///
/// `l_row_indices[l_col_ptr[j] .. l_col_ptr[j + 1]]` are the rows `i > j` of
/// `L` column `j` (unit diagonal implicit); `u_row_indices[u_col_ptr[j] ..
/// u_col_ptr[j + 1]]` are the rows `i ≤ j` of `U` column `j`; both ascending.
/// `amd_col_perm` is `Some(perm)` when the pattern refers to `A[perm, perm]`.
#[derive(Debug, Clone)]
pub struct SymbolicLu {
    /// Matrix order `n`.
    pub n: usize,
    /// CSC column pointers for the strictly-lower part of `L`.
    pub l_col_ptr: Vec<usize>,
    /// CSC row indices for the strictly-lower part of `L`.
    pub l_row_indices: Vec<usize>,
    /// CSC column pointers for the upper-triangular part of `U`.
    pub u_col_ptr: Vec<usize>,
    /// CSC row indices for the upper-triangular part of `U`.
    pub u_row_indices: Vec<usize>,
    /// Optional fill-reducing column permutation the pattern refers to.
    pub amd_col_perm: Option<Vec<usize>>,
}

impl SymbolicLu {
    /// The `L` columns of the result, in order.
    pub open spec fn lower_columns(&self) -> Seq<Seq<usize>> {
        Seq::new(self.n as nat, |k: int| segment(self.l_col_ptr@, self.l_row_indices@, k))
    }

    /// The `U` columns of the result, in order.
    pub open spec fn upper_columns(&self) -> Seq<Seq<usize>> {
        Seq::new(self.n as nat, |k: int| segment(self.u_col_ptr@, self.u_row_indices@, k))
    }

    /// `self` is the symbolic factorization of the square pattern
    /// `(col_ptr, row_indices)` of order `self.n`.
    pub open spec fn factors(&self, col_ptr: Seq<usize>, row_indices: Seq<usize>) -> bool {
        &&& ptr_ok(self.l_col_ptr@, self.l_row_indices@, self.n as int)
        &&& ptr_ok(self.u_col_ptr@, self.u_row_indices@, self.n as int)
        &&& forall|j: int|
            0 <= j < self.n ==> column_ok(
                #[trigger] self.upper_columns()[j],
                self.lower_columns()[j],
                pattern_seed(col_ptr, row_indices, j as usize),
                self.lower_columns().take(j),
                j as usize,
                self.n,
            )
    }

    /// Returns the matrix order `n`.
    pub fn n(&self) -> (r: usize)
        ensures
            r == self.n,
    {
        self.n
    }

    /// Number of structural entries in the strictly lower part of `L`.
    pub fn l_nnz(&self) -> (r: usize)
        ensures
            r == self.l_row_indices@.len(),
    {
        self.l_row_indices.len()
    }

    /// Number of structural entries in `U` (diagonal included).
    pub fn u_nnz(&self) -> (r: usize)
        ensures
            r == self.u_row_indices@.len(),
    {
        self.u_row_indices.len()
    }
}


proof fn lemma_push_fresh(s: Seq<usize>, x: usize)
    requires
        s.no_duplicates(),
        !s.contains(x),
    ensures
        s.push(x).no_duplicates(),
{
    let t = s.push(x);
    assert forall|a: int, b: int| 0 <= a < t.len() && 0 <= b < t.len() && a != b implies t[a] != t[b] by {
        if a < s.len() && b < s.len() {
            assert(t[a] == s[a] && t[b] == s[b]);
        } else if a < s.len() {
            assert(t[a] == s[a]);
        } else {
            assert(t[b] == s[b]);
        }
    }
}

/// The set of indices below `n`.
pub open spec fn below(n: nat) -> Set<usize> {
    Set::new(|x: usize| x < n)
}

pub proof fn lemma_below_len(n: nat)
    requires
        n <= usize::MAX as nat + 1,
    ensures
        below(n).finite(),
        below(n).len() == n,
    decreases n,
{
    if n == 0 {
        assert(below(n) =~= Set::<usize>::empty());
    } else {
        lemma_below_len((n - 1) as nat);
        assert(below(n) =~= below((n - 1) as nat).insert((n - 1) as usize));
    }
}

/// Distinct indices below `n` number at most `n`.
proof fn lemma_distinct_below(s: Seq<usize>, n: nat)
    requires
        s.no_duplicates(),
        forall|a: int| 0 <= a < s.len() ==> #[trigger] s[a] < n,
        n <= usize::MAX as nat + 1,
    ensures
        s.len() <= n,
{
    s.unique_seq_to_set();
    lemma_below_len(n);
    assert(s.to_set().subset_of(below(n))) by {
        assert forall|x: usize| s.to_set().contains(x) implies below(n).contains(x) by {
            let a = choose|a: int| 0 <= a < s.len() && s[a] == x;
        }
    }
    vstd::set_lib::lemma_len_subset(s.to_set(), below(n));
}

/// The rows of `reach` in ascending order.
fn sorted_rows(reach: &Vec<usize>) -> (r: Vec<usize>)
    ensures
        ascending(r@),
        r@.to_set() == reach@.to_set(),
{
    let mut sweep: Vec<usize> = Vec::new();
    for q in 0..reach.len()
        invariant
            ascending(sweep@),
            sweep@.to_set() == reach@.take(q as int).to_set(),
    {
        insert_sorted(&mut sweep, reach[q]);
        proof {
            assert(reach@.take(q + 1) =~= reach@.take(q as int).push(reach@[q as int]));
            assert(reach@.take(q + 1).to_set() =~= reach@.take(q as int).to_set().insert(reach@[q as int]))
                by {
                reach@.take(q as int).lemma_push_to_set_commute(reach@[q as int]);
            }
        }
    }
    proof {
        assert(reach@.take(reach.len() as int) =~= reach@);
    }
    sweep
}

/// Resets every mark set by `reach`.
fn clear_marks(marked: &mut Vec<bool>, reach: &Vec<usize>, n: usize)
    requires
        old(marked).len() == n,
        forall|a: int| 0 <= a < reach.len() ==> #[trigger] reach@[a] < n,
        forall|x: int| 0 <= x < n && old(marked)@[x] ==> reach@.contains(x as usize),
    ensures
        final(marked).len() == n,
        forall|x: int| 0 <= x < n ==> !(#[trigger] final(marked)@[x]),
{
    proof {
        assert(reach@.subrange(0, reach.len() as int) =~= reach@);
    }
    for q in 0..reach.len()
        invariant
            marked.len() == n,
            forall|a: int| 0 <= a < reach.len() ==> #[trigger] reach@[a] < n,
            forall|x: int|
                0 <= x < n && #[trigger] marked@[x] ==> reach@.subrange(q as int, reach.len() as int).contains(
                    x as usize,
                ),
    {
        let ghost before = marked@;
        marked.set(reach[q], false);
        proof {
            assert forall|x: int| 0 <= x < n && #[trigger] marked@[x] implies reach@.subrange(
                q + 1,
                reach.len() as int,
            ).contains(x as usize) by {
                assert(before[x]);
                let tail = reach@.subrange(q as int, reach.len() as int);
                let a = choose|a: int| 0 <= a < tail.len() && tail[a] == x as usize;
                assert(a != 0);
                assert(reach@.subrange(q + 1, reach.len() as int)[a - 1] == tail[a]);
            }
        }
    }
}

/// Builds the least reach of column `j`: the rows `col_rows` of `A[:, j]`,
/// the diagonal, and transitively the rows of every reached `L` column
/// `k < j`. On return `marked` flags exactly the reached rows.
fn column_reach(
    col_rows: &[usize],
    j: usize,
    n: usize,
    l_ptr: &Vec<usize>,
    l_rows: &Vec<usize>,
    marked: &mut Vec<bool>,
    Ghost(lower): Ghost<Seq<Seq<usize>>>,
) -> (reach: Vec<usize>)
    requires
        j < n,
        old(marked).len() == n,
        forall|x: int| 0 <= x < n ==> !(#[trigger] old(marked)@[x]),
        forall|a: int| 0 <= a < col_rows@.len() ==> #[trigger] col_rows@[a] < n,
        lower.len() == j,
        l_ptr@.len() == j + 1,
        l_ptr@[j as int] == l_rows@.len(),
        forall|a: int, b: int| 0 <= a <= b <= j ==> #[trigger] l_ptr@[a] <= #[trigger] l_ptr@[b],
        forall|k: int| 0 <= k < j ==> #[trigger] segment(l_ptr@, l_rows@, k) == lower[k],
        forall|k: int, a: int| 0 <= k < j && 0 <= a < lower[k].len() ==> #[trigger] lower[k][a] < n,
    ensures
        final(marked).len() == n,
        least_reach(reach@.to_set(), col_rows@.to_set().insert(j), lower),
        forall|a: int| 0 <= a < reach.len() ==> #[trigger] reach@[a] < n,
        forall|x: int| 0 <= x < n ==> (#[trigger] final(marked)@[x] <==> reach@.contains(x as usize)),
{
    let ghost seed = col_rows@.to_set().insert(j);
    let mut reach: Vec<usize> = Vec::new();
    // Seed with the rows of A[:, j].
    for q in 0..col_rows.len()
        invariant
            j < n,
            marked.len() == n,
            forall|a: int| 0 <= a < col_rows@.len() ==> #[trigger] col_rows@[a] < n,
            forall|a: int| 0 <= a < reach.len() ==> #[trigger] reach@[a] < n,
            forall|x: int| 0 <= x < n ==> (#[trigger] marked@[x] <==> reach@.contains(x as usize)),
            reach@.no_duplicates(),
            reach@.to_set() == col_rows@.take(q as int).to_set(),
    {
        let r = col_rows[q];
        let ghost before = reach@;
        proof {
            assert(col_rows@.take(q + 1) =~= col_rows@.take(q as int).push(r));
            col_rows@.take(q as int).lemma_push_to_set_commute(r);
        }
        if !marked[r] {
            marked.set(r, true);
            reach.push(r);
            proof {
                lemma_push_fresh(before, r);
                before.lemma_push_to_set_commute(r);
                assert forall|x: int| 0 <= x < n implies (#[trigger] marked@[x] <==> reach@.contains(x as usize)) by {
                    if reach@.contains(x as usize) && x != r {
                        let a = choose|a: int| 0 <= a < reach@.len() && reach@[a] == x as usize;
                        assert(before[a] == x);
                    }
                    if before.contains(x as usize) {
                        let a = choose|a: int| 0 <= a < before.len() && before[a] == x as usize;
                        assert(reach@[a] == x);
                    }
                    if x == r {
                        assert(reach@[before.len() as int] == r);
                    }
                }
            }
        } else {
            proof {
                assert(before.to_set().contains(r));
                assert(before.to_set().insert(r) =~= before.to_set());
            }
        }
    }
    proof {
        assert(col_rows@.take(col_rows@.len() as int) =~= col_rows@);
    }
    // The diagonal is always part of the pattern.
    let ghost before = reach@;
    if !marked[j] {
        marked.set(j, true);
        reach.push(j);
        proof {
            lemma_push_fresh(before, j);
            before.lemma_push_to_set_commute(j);
            assert forall|x: int| 0 <= x < n implies (#[trigger] marked@[x] <==> reach@.contains(x as usize)) by {
                if reach@.contains(x as usize) && x != j {
                    let a = choose|a: int| 0 <= a < reach@.len() && reach@[a] == x as usize;
                    assert(before[a] == x);
                }
                if before.contains(x as usize) {
                    let a = choose|a: int| 0 <= a < before.len() && before[a] == x as usize;
                    assert(reach@[a] == x);
                }
                if x == j {
                    assert(reach@[before.len() as int] == j);
                }
            }
        }
    } else {
        proof {
            assert(before.to_set().insert(j) =~= before.to_set());
        }
    }
    proof {
        assert(reach@.to_set() =~= seed);
    }
    // Left-looking fan-out through the L columns reached so far.
    let mut head: usize = 0;
    while head < reach.len()
        invariant
            j < n,
            marked.len() == n,
            lower.len() == j,
            l_ptr@.len() == j + 1,
            l_ptr@[j as int] == l_rows@.len(),
            forall|a: int, b: int| 0 <= a <= b <= j ==> #[trigger] l_ptr@[a] <= #[trigger] l_ptr@[b],
            forall|k: int| 0 <= k < j ==> #[trigger] segment(l_ptr@, l_rows@, k) == lower[k],
            forall|k: int, a: int| 0 <= k < j && 0 <= a < lower[k].len() ==> #[trigger] lower[k][a] < n,
            head <= reach.len(),
            reach@.no_duplicates(),
            forall|a: int| 0 <= a < reach.len() ==> #[trigger] reach@[a] < n,
            forall|x: int| 0 <= x < n ==> (#[trigger] marked@[x] <==> reach@.contains(x as usize)),
            seed.subset_of(reach@.to_set()),
            forall|r: Set<usize>| seed.subset_of(r) && #[trigger] fan_closed(r, lower) ==> reach@.to_set().subset_of(r),
            forall|h: int, x: usize|
                #![trigger reach@[h], lower[reach@[h] as int].contains(x)]
                0 <= h < head && reach@[h] < j && lower[reach@[h] as int].contains(x) ==> reach@.contains(x),
        decreases n - head, n - reach.len(),
    {
        proof {
            lemma_distinct_below(reach@, n as nat);
        }
        let k = reach[head];
        let ghost reach_before = reach@;
        if k < j {
            let start = l_ptr[k];
            let end = l_ptr[k + 1];
            proof {
                assert(l_ptr@[k as int] <= l_ptr@[k + 1] <= l_ptr@[j as int]);
            }
            let ghost col = lower[k as int];
            proof {
                assert(segment(l_ptr@, l_rows@, k as int) == col);
            }
            for q in start..end
                invariant
                    j < n,
                    k < j,
                    marked.len() == n,
                    lower.len() == j,
                    start == l_ptr@[k as int],
                    end == l_ptr@[k + 1],
                    end <= l_rows@.len(),
                    col == lower[k as int],
                    col == l_rows@.subrange(start as int, end as int),
                    forall|a: int| 0 <= a < col.len() ==> #[trigger] col[a] < n,
                    head < reach.len(),
                    reach@[head as int] == k,
                    reach_before.is_prefix_of(reach@),
                    reach@.no_duplicates(),
                    forall|a: int| 0 <= a < reach.len() ==> #[trigger] reach@[a] < n,
                    forall|x: int| 0 <= x < n ==> (#[trigger] marked@[x] <==> reach@.contains(x as usize)),
                    seed.subset_of(reach@.to_set()),
                    forall|r: Set<usize>|
                        seed.subset_of(r) && #[trigger] fan_closed(r, lower) ==> reach@.to_set().subset_of(r),
                    forall|a: int| 0 <= a < q - start ==> reach@.contains(#[trigger] col[a]),
            {
                let x = l_rows[q];
                proof {
                    assert(x == col[q - start]);
                }
                let ghost before = reach@;
                if !marked[x] {
                    marked.set(x, true);
                    reach.push(x);
                    proof {
                        lemma_push_fresh(before, x);
                        before.lemma_push_to_set_commute(x);
                        assert forall|y: int| 0 <= y < n implies (#[trigger] marked@[y] <==> reach@.contains(y as usize)) by {
                            if reach@.contains(y as usize) && y != x {
                                let a = choose|a: int| 0 <= a < reach@.len() && reach@[a] == y as usize;
                                assert(before[a] == y);
                            }
                            if before.contains(y as usize) {
                                let a = choose|a: int| 0 <= a < before.len() && before[a] == y as usize;
                                assert(reach@[a] == y);
                            }
                            if y == x {
                                assert(reach@[before.len() as int] == x);
                            }
                        }
                        assert forall|r: Set<usize>| seed.subset_of(r) && #[trigger] fan_closed(r, lower) implies reach@.to_set().subset_of(r) by {
                            assert(before.to_set().subset_of(r));
                            assert(before.contains(k)) by {
                                assert(before[head as int] == k);
                            }
                            assert(before.to_set().contains(k));
                            assert(r.contains(k));
                            assert(lower[k as int].contains(x)) by {
                                assert(col[q - start] == x);
                            }
                            assert(r.contains(x));
                        }
                        assert(reach_before.is_prefix_of(reach@)) by {
                            assert forall|a: int| 0 <= a < reach_before.len() implies reach@[a] == reach_before[a] by {
                                assert(before[a] == reach_before[a]);
                            }
                        }
                        assert forall|a: int| 0 <= a < q + 1 - start implies reach@.contains(#[trigger] col[a]) by {
                            if a < q - start {
                                let b = choose|b: int| 0 <= b < before.len() && before[b] == col[a];
                                assert(reach@[b] == col[a]);
                            } else {
                                assert(reach@[before.len() as int] == x);
                            }
                        }
                    }
                } else {
                    proof {
                        assert(reach@.contains(x));
                    }
                }
            }
            proof {
                assert forall|x: usize| lower[k as int].contains(x) implies reach@.contains(x) by {
                    let a = choose|a: int| 0 <= a < col.len() && col[a] == x;
                }
            }
        }
        proof {
            assert forall|h: int, x: usize|
                #![trigger reach@[h], lower[reach@[h] as int].contains(x)]
                0 <= h < head + 1 && reach@[h] < j && lower[reach@[h] as int].contains(x) implies reach@.contains(x) by {
                assert(reach@[h] == reach_before[h]);
                if h < head {
                    let b = choose|b: int| 0 <= b < reach_before.len() && reach_before[b] == x;
                    assert(reach@[b] == x);
                }
            }
        }
        head = head + 1;
    }
    proof {
        assert(fan_closed(reach@.to_set(), lower)) by {
            assert forall|k: usize, x: usize|
                #![trigger reach@.to_set().contains(k), lower[k as int].contains(x)]
                k < lower.len() && reach@.to_set().contains(k) && lower[k as int].contains(x) implies reach@.to_set().contains(x) by {
                let h = choose|h: int| 0 <= h < reach@.len() && reach@[h] == k;
                assert(reach@[h] < j && lower[reach@[h] as int].contains(x));
            }
        }
    }
    reach
}


/// Compute the symbolic LU pattern of the square CSC pattern under natural
/// column ordering (the pivoting-free upper bound on `L`/`U` fill).
pub fn factor_symbolic<T>(csc: &CscMatrix<T>) -> (r: SymbolicLu)
    requires
        csc@.wf(),
        csc@.nrows == csc@.ncols,
    ensures
        r.n == csc@.nrows,
        r.amd_col_perm is None,
        r.factors(csc@.col_ptr, csc@.row_indices),
{
    let n = csc.nrows();
    let col_ptr = csc.col_ptr();
    let row_indices = csc.row_indices();
    let ghost cp = csc@.col_ptr;
    let ghost ri = csc@.row_indices;
    let mut marked: Vec<bool> = Vec::new();
    for x in 0..n
        invariant
            marked.len() == x,
            forall|y: int| 0 <= y < x ==> !(#[trigger] marked@[y]),
    {
        marked.push(false);
    }
    let mut u_col_ptr: Vec<usize> = Vec::new();
    let mut u_row_indices: Vec<usize> = Vec::new();
    let mut l_col_ptr: Vec<usize> = Vec::new();
    let mut l_row_indices: Vec<usize> = Vec::new();
    u_col_ptr.push(0);
    l_col_ptr.push(0);
    let ghost mut uppers: Seq<Seq<usize>> = Seq::empty();
    let ghost mut lowers: Seq<Seq<usize>> = Seq::empty();
    for j in 0..n
        invariant
            csc@.wf(),
            n == csc@.nrows,
            csc@.nrows == csc@.ncols,
            col_ptr@ == cp,
            row_indices@ == ri,
            cp == csc@.col_ptr,
            ri == csc@.row_indices,
            marked.len() == n,
            forall|x: int| 0 <= x < n ==> !(#[trigger] marked@[x]),
            uppers.len() == j,
            lowers.len() == j,
            l_col_ptr@.len() == j + 1,
            u_col_ptr@.len() == j + 1,
            l_col_ptr@[0] == 0,
            u_col_ptr@[0] == 0,
            l_col_ptr@[j as int] == l_row_indices@.len(),
            u_col_ptr@[j as int] == u_row_indices@.len(),
            forall|a: int, b: int| 0 <= a <= b <= j ==> #[trigger] l_col_ptr@[a] <= #[trigger] l_col_ptr@[b],
            forall|a: int, b: int| 0 <= a <= b <= j ==> #[trigger] u_col_ptr@[a] <= #[trigger] u_col_ptr@[b],
            forall|k: int| 0 <= k < j ==> #[trigger] segment(l_col_ptr@, l_row_indices@, k) == lowers[k],
            forall|k: int| 0 <= k < j ==> #[trigger] segment(u_col_ptr@, u_row_indices@, k) == uppers[k],
            forall|k: int| 0 <= k < j ==> column_ok(
                #[trigger] uppers[k],
                lowers[k],
                pattern_seed(cp, ri, k as usize),
                lowers.take(k),
                k as usize,
                n,
            ),
    {
        proof {
            assert(cp[j as int] <= cp[j + 1] <= cp[n as int]);
            assert forall|k: int, a: int| 0 <= k < j && 0 <= a < lowers[k].len() implies #[trigger] lowers[k][a] < n by {
                assert(column_ok(uppers[k], lowers[k], pattern_seed(cp, ri, k as usize), lowers.take(k), k as usize, n));
            }
        }
        let col_rows = &row_indices[col_ptr[j]..col_ptr[j + 1]];
        proof {
            assert forall|a: int| 0 <= a < col_rows@.len() implies #[trigger] col_rows@[a] < n by {
                assert(col_rows@[a] == ri[cp[j as int] + a]);
            }
            assert(col_rows@ == segment(cp, ri, j as int));
        }
        let reach = column_reach(col_rows, j, n, &l_col_ptr, &l_row_indices, &mut marked, Ghost(lowers));
        let sweep = sorted_rows(&reach);
        let ghost old_u = u_row_indices@;
        let ghost old_l = l_row_indices@;
        let ghost mut up: Seq<usize> = Seq::empty();
        let ghost mut lo: Seq<usize> = Seq::empty();
        for q in 0..sweep.len()
            invariant
                ascending(sweep@),
                u_row_indices@ == old_u + up,
                l_row_indices@ == old_l + lo,
                ascending(up),
                ascending(lo),
                forall|a: int| 0 <= a < up.len() ==> #[trigger] up[a] <= j,
                forall|a: int| 0 <= a < lo.len() ==> j < #[trigger] lo[a],
                forall|a: int| 0 <= a < up.len() ==> sweep@.take(q as int).contains(#[trigger] up[a]),
                forall|a: int| 0 <= a < lo.len() ==> sweep@.take(q as int).contains(#[trigger] lo[a]),
                up.to_set() + lo.to_set() == sweep@.take(q as int).to_set(),
        {
            let r = sweep[q];
            proof {
                assert(sweep@.take(q + 1) =~= sweep@.take(q as int).push(r));
                sweep@.take(q as int).lemma_push_to_set_commute(r);
            }
            if r <= j {
                u_row_indices.push(r);
                proof {
                    let ghost prev = up;
                    up = up.push(r);
                    assert forall|a: int, b: int| 0 <= a < b < up.len() implies #[trigger] up[a] < #[trigger] up[b] by {
                        if b == prev.len() {
                            let c = choose|c: int| 0 <= c < q && sweep@.take(q as int)[c] == up[a];
                            assert(sweep@[c] < sweep@[q as int]);
                        } else {
                            assert(up[a] == prev[a] && up[b] == prev[b]);
                        }
                    }
                    prev.lemma_push_to_set_commute(r);
                    assert(up.to_set() + lo.to_set() =~= sweep@.take(q + 1).to_set());
                    assert forall|a: int| 0 <= a < up.len() implies sweep@.take(q + 1).contains(#[trigger] up[a]) by {
                        if a < prev.len() {
                            assert(up[a] == prev[a]);
                            let c = choose|c: int| 0 <= c < q && sweep@.take(q as int)[c] == prev[a];
                            assert(sweep@.take(q + 1)[c] == prev[a]);
                        } else {
                            assert(sweep@.take(q + 1)[q as int] == r);
                        }
                    }
                    assert forall|a: int| 0 <= a < lo.len() implies sweep@.take(q + 1).contains(#[trigger] lo[a]) by {
                        let c = choose|c: int| 0 <= c < q && sweep@.take(q as int)[c] == lo[a];
                        assert(sweep@.take(q + 1)[c] == lo[a]);
                    }
                    assert(u_row_indices@ =~= old_u + up);
                }
            } else {
                l_row_indices.push(r);
                proof {
                    let ghost prev = lo;
                    lo = lo.push(r);
                    assert forall|a: int, b: int| 0 <= a < b < lo.len() implies #[trigger] lo[a] < #[trigger] lo[b] by {
                        if b == prev.len() {
                            let c = choose|c: int| 0 <= c < q && sweep@.take(q as int)[c] == lo[a];
                            assert(sweep@[c] < sweep@[q as int]);
                        } else {
                            assert(lo[a] == prev[a] && lo[b] == prev[b]);
                        }
                    }
                    prev.lemma_push_to_set_commute(r);
                    assert(up.to_set() + lo.to_set() =~= sweep@.take(q + 1).to_set());
                    assert forall|a: int| 0 <= a < lo.len() implies sweep@.take(q + 1).contains(#[trigger] lo[a]) by {
                        if a < prev.len() {
                            assert(lo[a] == prev[a]);
                            let c = choose|c: int| 0 <= c < q && sweep@.take(q as int)[c] == prev[a];
                            assert(sweep@.take(q + 1)[c] == prev[a]);
                        } else {
                            assert(sweep@.take(q + 1)[q as int] == r);
                        }
                    }
                    assert forall|a: int| 0 <= a < up.len() implies sweep@.take(q + 1).contains(#[trigger] up[a]) by {
                        let c = choose|c: int| 0 <= c < q && sweep@.take(q as int)[c] == up[a];
                        assert(sweep@.take(q + 1)[c] == up[a]);
                    }
                    assert(l_row_indices@ =~= old_l + lo);
                }
            }
        }
        proof {
            assert(sweep@.take(sweep.len() as int) =~= sweep@);
        }
        let ghost old_uptr = u_col_ptr@;
        let ghost old_lptr = l_col_ptr@;
        u_col_ptr.push(u_row_indices.len());
        l_col_ptr.push(l_row_indices.len());
        clear_marks(&mut marked, &reach, n);
        proof {
            // the new column
            assert(segment(u_col_ptr@, u_row_indices@, j as int) =~= up);
            assert(segment(l_col_ptr@, l_row_indices@, j as int) =~= lo);
            assert forall|a: int| 0 <= a < lo.len() implies j < #[trigger] lo[a] < n by {
                let c = choose|c: int| 0 <= c < sweep@.len() && sweep@[c] == lo[a];
                assert(sweep@.to_set().contains(lo[a]));
                assert(reach@.to_set().contains(lo[a]));
                let d = choose|d: int| 0 <= d < reach@.len() && reach@[d] == lo[a];
            }
            assert(column_ok(up, lo, pattern_seed(cp, ri, j), lowers, j, n));
            // earlier columns are untouched
            assert forall|k: int| 0 <= k < j implies #[trigger] segment(l_col_ptr@, l_row_indices@, k) == lowers[k] by {
                assert(old_lptr[k + 1] <= old_lptr[j as int]);
                assert(segment(l_col_ptr@, l_row_indices@, k) =~= segment(old_lptr, old_l, k));
            }
            assert forall|k: int| 0 <= k < j implies #[trigger] segment(u_col_ptr@, u_row_indices@, k) == uppers[k] by {
                assert(old_uptr[k + 1] <= old_uptr[j as int]);
                assert(segment(u_col_ptr@, u_row_indices@, k) =~= segment(old_uptr, old_u, k));
            }
            let new_lowers = lowers.push(lo);
            let new_uppers = uppers.push(up);
            assert forall|k: int| 0 <= k < j + 1 implies column_ok(
                #[trigger] new_uppers[k],
                new_lowers[k],
                pattern_seed(cp, ri, k as usize),
                new_lowers.take(k),
                k as usize,
                n,
            ) by {
                if k < j {
                    assert(new_lowers.take(k) =~= lowers.take(k));
                } else {
                    assert(new_lowers.take(k) =~= lowers);
                }
            }
            lowers = new_lowers;
            uppers = new_uppers;
        }
    }
    let r = SymbolicLu {
        n,
        l_col_ptr,
        l_row_indices,
        u_col_ptr,
        u_row_indices,
        amd_col_perm: None,
    };
    proof {
        assert(r.lower_columns() =~= lowers);
        assert(r.upper_columns() =~= uppers);
        assert forall|j: int| 0 <= j < r.n implies column_ok(
            #[trigger] r.upper_columns()[j],
            r.lower_columns()[j],
            pattern_seed(cp, ri, j as usize),
            r.lower_columns().take(j),
            j as usize,
            r.n,
        ) by {
        }
    }
    r
}


/// `perm` lists each index below `n` exactly once.
pub open spec fn is_permutation(perm: Seq<usize>, n: nat) -> bool {
    &&& perm.len() == n
    &&& perm.no_duplicates()
    &&& forall|a: int| 0 <= a < perm.len() ==> #[trigger] perm[a] < n
}

/// A permutation of the indices below `n` reaches every one of them.
pub proof fn lemma_permutation_onto(perm: Seq<usize>, n: nat)
    requires
        is_permutation(perm, n),
        n <= usize::MAX as nat + 1,
    ensures
        forall|x: usize| x < n ==> #[trigger] perm.contains(x),
{
    perm.unique_seq_to_set();
    lemma_below_len(n);
    assert(perm.to_set().subset_of(below(n))) by {
        assert forall|x: usize| perm.to_set().contains(x) implies below(n).contains(x) by {
            let a = choose|a: int| 0 <= a < perm.len() && perm[a] == x;
        }
    }
    vstd::set_lib::lemma_subset_equality(perm.to_set(), below(n));
    assert forall|x: usize| x < n implies #[trigger] perm.contains(x) by {
        assert(below(n).contains(x));
        assert(perm.to_set().contains(x));
    }
}


/// `p` is `a` with rows and columns renumbered by `perm`:
/// `p[x, y] == a[perm[x], perm[y]]`, storing only nonzero entries.
pub open spec fn symmetric_permutation<T: Scalar>(p: CscView<T>, a: CscView<T>, perm: Seq<usize>) -> bool {
    &&& p.wf()
    &&& p.nrows == a.nrows
    &&& p.ncols == a.ncols
    &&& forall|x: usize, y: int|
        x < p.nrows && 0 <= y < p.ncols ==> #[trigger] p.entry(x, y) == a.entry(
            perm[x as int],
            perm[y] as int,
        )
    &&& forall|y: int, k: int|
        0 <= y < p.ncols && 0 <= k < p.column(y).len() ==> (#[trigger] p.column(y)[k]).1
            != T::zero_value()
}

/// The triplets `(inv[row], inv[col], value)` of the stored entries of `a`,
/// where `inv` inverts the permutation `perm`, sit at distinct positions and
/// assemble to `a[perm[x], perm[y]]`.
proof fn lemma_permuted_triplets<T: Scalar>(
    a: CscView<T>,
    perm: Seq<usize>,
    inv: Seq<usize>,
    colof: Seq<usize>,
    rows: Seq<usize>,
    cols: Seq<usize>,
    vals: Seq<T>,
)
    requires
        a.wf(),
        a.nrows == a.ncols,
        is_permutation(perm, a.nrows as nat),
        inv.len() == a.nrows,
        forall|t: int| 0 <= t < a.nrows ==> #[trigger] inv[perm[t] as int] == t,
        forall|x: int| 0 <= x < a.nrows ==> #[trigger] perm[inv[x] as int] == x,
        forall|x: int| 0 <= x < a.nrows ==> #[trigger] inv[x] < a.nrows,
        rows.len() == a.values.len(),
        cols.len() == a.values.len(),
        vals == a.values,
        colof.len() == a.values.len(),
        forall|q: int|
            0 <= q < a.values.len() ==> {
                &&& #[trigger] colof[q] < a.ncols
                &&& a.col_ptr[colof[q] as int] <= q < a.col_ptr[colof[q] + 1]
                &&& rows[q] == inv[a.row_indices[q] as int]
                &&& cols[q] == inv[colof[q] as int]
            },
    ensures
        sums_ok(rows, cols, vals, a.nrows as int, a.ncols as int),
        forall|x: usize, y: usize|
            x < a.nrows && y < a.ncols ==> #[trigger] total(duplicates(rows, cols, vals, x, y)) == a.entry(
                perm[x as int],
                perm[y as int] as int,
            ),
{
    let n = a.nrows;
    let nnz = a.values.len() as int;
    let cp = a.col_ptr;
    let ri = a.row_indices;
    // Lanes are disjoint: a position lies in exactly one column.
    assert forall|q: int, m: int| 0 <= q < nnz && 0 <= m < n && #[trigger] cp[m] <= q < cp[m + 1] implies #[trigger] colof[q]
        == m by {
        let c = colof[q] as int;
        if c < m {
            assert(cp[c + 1] <= cp[m]);
        } else if m < c {
            assert(cp[m + 1] <= cp[c]);
        }
    }
    // No two triplets share a position.
    assert forall|q1: int, q2: int| 0 <= q1 < q2 < nnz implies !(#[trigger] rows[q1] == #[trigger] rows[q2]
        && cols[q1] == cols[q2]) by {
        if rows[q1] == rows[q2] && cols[q1] == cols[q2] {
            assert(ri[q1] < n && ri[q2] < n);
            assert(perm[inv[ri[q1] as int] as int] == ri[q1]);
            assert(perm[inv[ri[q2] as int] as int] == ri[q2]);
            assert(perm[inv[colof[q1] as int] as int] == colof[q1]);
            assert(perm[inv[colof[q2] as int] as int] == colof[q2]);
            assert(colof[q1] == colof[q2]);
            let m = colof[q1] as int;
            assert(lane_sorted(cp, ri, m));
            assert(ri[q1] < ri[q2]);
        }
    }
    assert forall|x: usize, y: usize| x < n && y < n implies #[trigger] total(duplicates(rows, cols, vals, x, y))
        == a.entry(perm[x as int], perm[y as int] as int) && total_ok(duplicates(rows, cols, vals, x, y)) by {
        lemma_picked_positions(rows, cols, vals, x, y, nnz);
        lemma_matching_single(rows, cols, vals, x, y, nnz);
        let px = perm[x as int];
        let py = perm[y as int] as int;
        let l = lane(cp, ri, a.values, py);
        lemma_lane_keyed(cp, ri, a.values, nnz, n as int, n as int, py);
        if exists|q: int| 0 <= q < nnz && rows[q] == x && cols[q] == y {
            let q = choose|q: int| 0 <= q < nnz && rows[q] == x && cols[q] == y;
            assert(perm[inv[colof[q] as int] as int] == colof[q]);
            assert(perm[inv[ri[q] as int] as int] == ri[q]);
            assert(colof[q] == py);
            assert(matching(rows, cols, vals, x, y, nnz) == seq![vals[q]]);
            let t = q - cp[py];
            assert(l[t] == (ri[q], vals[q]));
            lemma_value_at_found(l, n as int, t);
        } else {
            assert(matching(rows, cols, vals, x, y, nnz) == Seq::<T>::empty());
            if exists|t: int| 0 <= t < l.len() && (#[trigger] l[t]).0 == px {
                let t = choose|t: int| 0 <= t < l.len() && (#[trigger] l[t]).0 == px;
                let q = cp[py] + t;
                assert(cp[py] <= cp[py + 1] <= cp[n as int]);
                assert(colof[q] == py);
                assert(ri[q] == px);
                assert(rows[q] == x && cols[q] == y);
            }
        }
    }
    assert forall|x: usize, y: usize| x < n && y < n implies total_ok(#[trigger] duplicates(rows, cols, vals, x, y)) by {
        assert(total(duplicates(rows, cols, vals, x, y)) == a.entry(perm[x as int], perm[y as int] as int));
    }
}


/// Applies the symmetric permutation `A_perm[x, y] = A[perm[x], perm[y]]`:
/// every stored entry `(i, j, v)` is scattered to `(inv[i], inv[j])`, `inv`
/// the inverse of `perm`, through a COO intermediary compressed to CSC
/// (which drops entries equal to zero).
pub fn apply_symmetric_perm<T: Scalar>(csc: &CscMatrix<T>, perm: &[usize]) -> (r: CscMatrix<T>)
    requires
        csc@.wf(),
        csc@.nrows == csc@.ncols,
        is_permutation(perm@, csc@.nrows as nat),
    ensures
        symmetric_permutation(r@, csc@, perm@),
{
    let n = csc.nrows();
    let mut inv: Vec<usize> = Vec::new();
    for x in 0..n
        invariant
            inv.len() == x,
            forall|y: int| 0 <= y < x ==> #[trigger] inv@[y] == 0,
    {
        inv.push(0);
    }
    for s in 0..n
        invariant
            n == csc@.nrows,
            is_permutation(perm@, n as nat),
            inv.len() == n,
            forall|y: int| 0 <= y < n ==> #[trigger] inv@[y] < n,
            forall|t: int| 0 <= t < s ==> #[trigger] inv@[perm@[t] as int] == t,
    {
        let ghost before = inv@;
        inv.set(perm[s], s);
        proof {
            assert forall|t: int| 0 <= t < s + 1 implies #[trigger] inv@[perm@[t] as int] == t by {
                if t < s {
                    assert(perm@[t] != perm@[s as int]);
                    assert(inv@[perm@[t] as int] == before[perm@[t] as int]);
                }
            }
        }
    }
    proof {
        lemma_permutation_onto(perm@, n as nat);
        assert forall|x: int| 0 <= x < n implies #[trigger] perm@[inv@[x] as int] == x by {
            assert(perm@.contains(x as usize));
            let t = choose|t: int| 0 <= t < perm@.len() && perm@[t] == x as usize;
            assert(inv@[perm@[t] as int] == t);
        }
    }
    let col_ptr = csc.col_ptr();
    let row_indices = csc.row_indices();
    let values = csc.values();
    let ghost a = csc@;
    let mut coo: CooMatrix<T> = CooMatrix::with_capacity(n, n, values.len());
    let ghost mut colof: Seq<usize> = Seq::empty();
    for j in 0..n
        invariant
            a == csc@,
            a.wf(),
            n == a.nrows,
            a.nrows == a.ncols,
            col_ptr@ == a.col_ptr,
            row_indices@ == a.row_indices,
            values@ == a.values,
            inv.len() == n,
            forall|y: int| 0 <= y < n ==> #[trigger] inv@[y] < n,
            coo@.wf(),
            coo@.nrows == n,
            coo@.ncols == n,
            coo@.values.len() == a.col_ptr[j as int],
            colof.len() == a.col_ptr[j as int],
            forall|q: int|
                0 <= q < a.col_ptr[j as int] ==> {
                    &&& #[trigger] colof[q] < j
                    &&& a.col_ptr[colof[q] as int] <= q < a.col_ptr[colof[q] + 1]
                    &&& coo@.values[q] == a.values[q]
                    &&& coo@.row_indices[q] == inv@[a.row_indices[q] as int]
                    &&& coo@.col_indices[q] == inv@[colof[q] as int]
                },
    {
        let start = col_ptr[j];
        let end = col_ptr[j + 1];
        proof {
            assert(a.col_ptr[j as int] <= a.col_ptr[j + 1] <= a.col_ptr[n as int]);
        }
        for p in start..end
            invariant
                a.wf(),
                n == a.nrows,
                a.nrows == a.ncols,
                j < n,
                start == a.col_ptr[j as int],
                end == a.col_ptr[j + 1],
                end <= a.values.len(),
                row_indices@ == a.row_indices,
                values@ == a.values,
                inv.len() == n,
                forall|y: int| 0 <= y < n ==> #[trigger] inv@[y] < n,
                coo@.wf(),
                coo@.nrows == n,
                coo@.ncols == n,
                coo@.values.len() == p,
                colof.len() == p,
                forall|q: int|
                    0 <= q < p ==> {
                        &&& #[trigger] colof[q] <= j
                        &&& a.col_ptr[colof[q] as int] <= q < a.col_ptr[colof[q] + 1]
                        &&& coo@.values[q] == a.values[q]
                        &&& coo@.row_indices[q] == inv@[a.row_indices[q] as int]
                        &&& coo@.col_indices[q] == inv@[colof[q] as int]
                    },
        {
            let i = row_indices[p];
            coo.push(inv[i], inv[j], values[p]);
            proof {
                colof = colof.push(j);
            }
        }
    }
    let ghost rows = coo@.row_indices;
    let ghost cols = coo@.col_indices;
    let ghost vals = coo@.values;
    proof {
        assert(a.col_ptr[n as int] == a.values.len());
        assert(vals.len() == a.values.len());
        assert forall|q: int| 0 <= q < vals.len() implies vals[q] == a.values[q] by {
            assert(colof[q] < n);
        }
        assert(vals =~= a.values);
        lemma_permuted_triplets(a, perm@, inv@, colof, rows, cols, vals);
    }
    let r = coo.to_csc();
    proof {
        assert forall|y: int, k: int| 0 <= y < n && 0 <= k < r@.column(y).len() implies (#[trigger] r@.column(
            y,
        )[k]).1 != T::zero_value() by {
            lemma_assembled_nonzero(cols, rows, vals, y as usize, n as int);
        }
        assert forall|x: usize, y: int| x < n && 0 <= y < n implies #[trigger] r@.entry(x, y) == a.entry(
            perm@[x as int],
            perm@[y] as int,
        ) by {
            assert(total(duplicates(rows, cols, vals, x, y as usize)) == a.entry(
                perm@[x as int],
                perm@[y] as int,
            ));
        }
    }
    r
}


/// Fill-reducing column-ordering strategy for the sparse LU path.
#[derive(Debug, Clone, Copy, PartialEq, Eq, Structural)]
pub enum OrderingStrategy {
    /// Natural column ordering `0, 1, …, n - 1` (the default).
    Natural,
    /// Minimum-degree ordering: the pattern is computed on `A[perm, perm]`
    /// for the elimination order `perm`.
    AmdApproxMinDegree,
}

impl Default for OrderingStrategy {
    fn default() -> (r: Self)
        ensures
            r == OrderingStrategy::Natural,
    {
        OrderingStrategy::Natural
    }
}

/// Symbolic LU pattern of `A` under a column-ordering strategy.
///
/// `Natural` is [`factor_symbolic`] on `A` itself, with no permutation.
/// `AmdApproxMinDegree` computes the minimum-degree order `perm` of `A`,
/// factors the symmetrically permuted `A[perm, perm]`, and records `perm`
/// in `amd_col_perm`.
pub fn factor_symbolic_with_ordering<T: Scalar>(csc: &CscMatrix<T>, strategy: OrderingStrategy) -> (r:
    SymbolicLu)
    requires
        csc@.wf(),
        csc@.nrows == csc@.ncols,
    ensures
        r.n == csc@.nrows,
        strategy is Natural ==> r.amd_col_perm is None && r.factors(csc@.col_ptr, csc@.row_indices),
        strategy is AmdApproxMinDegree ==> {
            let perm = min_degree_order(csc@.col_ptr, csc@.row_indices, csc@.nrows);
            &&& r.amd_col_perm is Some
            &&& r.amd_col_perm->Some_0@ == perm
            &&& exists|p: CscView<T>|
                #[trigger] symmetric_permutation(p, csc@, perm) && r.factors(p.col_ptr, p.row_indices)
        },
{
    match strategy {
        OrderingStrategy::Natural => factor_symbolic(csc),
        OrderingStrategy::AmdApproxMinDegree => {
            let perm = amd_order(csc);
            let permuted = apply_symmetric_perm(csc, &perm);
            let mut symbolic = factor_symbolic(&permuted);
            let ghost before = symbolic;
            symbolic.amd_col_perm = Some(perm);
            proof {
                assert(symbolic.lower_columns() == before.lower_columns());
                assert(symbolic.upper_columns() == before.upper_columns());
                assert(symbolic.factors(permuted@.col_ptr, permuted@.row_indices));
                assert(symmetric_permutation(permuted@, csc@, symbolic.amd_col_perm->Some_0@));
            }
            symbolic
        },
    }
}


/// The symbolic pattern covers the matrix and the diagonal: every stored row
/// `i` of column `j` of `A`, and the diagonal `j` itself, appear in column `j`
/// of `U` (when `i ≤ j`) or of `L` (when `i > j`).
pub proof fn lemma_pattern_covers_matrix(r: SymbolicLu, col_ptr: Seq<usize>, row_indices: Seq<usize>)
    requires
        r.factors(col_ptr, row_indices),
    ensures
        forall|j: int| 0 <= j < r.n ==> #[trigger] r.upper_columns()[j].contains(j as usize),
        forall|j: int, i: usize|
            0 <= j < r.n && #[trigger] segment(col_ptr, row_indices, j).contains(i) ==> (i <= j && r.upper_columns()[j].contains(i))
                || (i > j && r.lower_columns()[j].contains(i)),
{
    assert forall|j: int| 0 <= j < r.n implies #[trigger] r.upper_columns()[j].contains(j as usize) by {
        let (u, l) = (r.upper_columns()[j], r.lower_columns()[j]);
        assert(column_ok(u, l, pattern_seed(col_ptr, row_indices, j as usize), r.lower_columns().take(j), j as usize, r.n));
        assert(pattern_seed(col_ptr, row_indices, j as usize).contains(j as usize));
        assert((u.to_set() + l.to_set()).contains(j as usize));
        if l.to_set().contains(j as usize) {
            let a = choose|a: int| 0 <= a < l.len() && l[a] == j as usize;
        }
    }
    assert forall|j: int, i: usize|
        0 <= j < r.n && #[trigger] segment(col_ptr, row_indices, j).contains(i) implies (i <= j && r.upper_columns()[j].contains(i))
            || (i > j && r.lower_columns()[j].contains(i)) by {
        let (u, l) = (r.upper_columns()[j], r.lower_columns()[j]);
        assert(column_ok(u, l, pattern_seed(col_ptr, row_indices, j as usize), r.lower_columns().take(j), j as usize, r.n));
        assert(pattern_seed(col_ptr, row_indices, j as usize).contains(i));
        assert((u.to_set() + l.to_set()).contains(i));
        if u.to_set().contains(i) {
            let a = choose|a: int| 0 <= a < u.len() && u[a] == i;
        } else {
            let a = choose|a: int| 0 <= a < l.len() && l[a] == i;
        }
    }
}

} // verus!
