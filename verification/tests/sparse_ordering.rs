use leto_ops::application::sparse::amd::{contains_sorted, insert_sorted};
use leto_ops::application::sparse::{
    amd_order, apply_symmetric_perm, factor_symbolic, factor_symbolic_with_ordering, CooMatrix, CscMatrix,
    OrderingStrategy,
};

/// 2-D 5-point Poisson stencil on a `k × k` grid flattened to `n = k²`.
fn poisson_2d_csc(k: usize) -> CscMatrix<i64> {
    let n = k * k;
    let mut coo = CooMatrix::new(n, n);
    let at = |i: i64, j: i64| (i * k as i64 + j) as usize;
    for di in 0..k as i64 {
        for dj in 0..k as i64 {
            let idx = at(di, dj);
            coo.push(idx, idx, 4);
            if di > 0 {
                coo.push(idx, at(di - 1, dj), -1);
            }
            if di + 1 < k as i64 {
                coo.push(idx, at(di + 1, dj), -1);
            }
            if dj > 0 {
                coo.push(idx, at(di, dj - 1), -1);
            }
            if dj + 1 < k as i64 {
                coo.push(idx, at(di, dj + 1), -1);
            }
        }
    }
    coo.to_csc()
}

fn csc2(entries: &[(usize, usize, i64)]) -> CscMatrix<i64> {
    let mut coo = CooMatrix::new(2, 2);
    for &(i, j, v) in entries {
        coo.push(i, j, v);
    }
    coo.to_csc()
}

fn csc3(entries: &[(usize, usize, i64)]) -> CscMatrix<i64> {
    let mut coo = CooMatrix::new(3, 3);
    for &(i, j, v) in entries {
        coo.push(i, j, v);
    }
    coo.to_csc()
}

#[test]
fn amd_returns_permutation() {
    for n in [1, 2, 4, 7, 16, 32, 100] {
        let mut coo = CooMatrix::new(n, n);
        for i in 0..n {
            coo.push(i, i, 1_i64);
        }
        let csc = coo.to_csc();
        let perm = amd_order(&csc);
        assert_eq!(perm.len(), n, "len mismatch at n={n}");
        let mut sorted = perm.clone();
        sorted.sort_unstable();
        let expected: Vec<usize> = (0..n).collect();
        assert_eq!(sorted, expected, "not a permutation at n={n}: {perm:?}");
    }
}

#[test]
fn amd_returns_identity_on_diagonal() {
    let n = 8;
    let mut coo = CooMatrix::new(n, n);
    for i in 0..n {
        coo.push(i, i, 1_i64);
    }
    let csc = coo.to_csc();
    let perm = amd_order(&csc);
    let expected: Vec<usize> = (0..n).collect();
    assert_eq!(perm, expected, "diagonal should yield identity: {perm:?}");
}

#[test]
fn amd_reduces_fill_on_poisson_32() {
    let k = 6usize;
    let csc = poisson_2d_csc(k);
    let n = csc.nrows();
    assert_eq!(n, 36, "6×6 grid must flatten to n=36");

    let symbolic_natural = factor_symbolic(&csc);
    let natural_fill = symbolic_natural.l_nnz() + symbolic_natural.u_nnz();

    let perm = amd_order(&csc);
    {
        let mut sorted = perm.clone();
        sorted.sort_unstable();
        assert_eq!(sorted, (0..n).collect::<Vec<_>>(), "amd perm invalid");
    }

    let permuted_csc = apply_symmetric_perm(&csc, &perm);
    let symbolic_amd = factor_symbolic(&permuted_csc);
    let amd_fill = symbolic_amd.l_nnz() + symbolic_amd.u_nnz();

    let reduction_ratio = (natural_fill as f64 - amd_fill as f64) / natural_fill as f64;
    assert!(
        amd_fill < natural_fill,
        "amd_fill ({amd_fill}) must be < natural_fill ({natural_fill}); reduction = {reduction_ratio:.3}"
    );
    assert!(
        reduction_ratio >= 0.10,
        "reduction {reduction_ratio:.3} below 10% (natural_fill={natural_fill}, amd_fill={amd_fill})"
    );
}

#[test]
fn amd_reduces_fill_on_tridiagonal_64() {
    let n = 64usize;
    let mut coo = CooMatrix::new(n, n);
    for i in 0..n {
        coo.push(i, i, 2_i64);
        if i + 1 < n {
            coo.push(i, i + 1, -1);
            coo.push(i + 1, i, -1);
        }
    }
    let csc = coo.to_csc();
    let symbolic_natural = factor_symbolic(&csc);
    let natural_fill = symbolic_natural.l_nnz() + symbolic_natural.u_nnz();

    let perm = amd_order(&csc);
    let permuted_csc = apply_symmetric_perm(&csc, &perm);
    let symbolic_amd = factor_symbolic(&permuted_csc);
    let amd_fill = symbolic_amd.l_nnz() + symbolic_amd.u_nnz();

    assert!(
        amd_fill <= natural_fill,
        "tridiagonal n=64: amd_fill ({amd_fill}) must not exceed natural_fill ({natural_fill})"
    );
}

#[test]
fn exists_and_insert_sorted_round_trip() {
    let mut s: Vec<usize> = vec![];
    insert_sorted(&mut s, 3);
    insert_sorted(&mut s, 1);
    insert_sorted(&mut s, 5);
    insert_sorted(&mut s, 1); // duplicate, no-op
    assert_eq!(s, vec![1, 3, 5]);
    assert!(contains_sorted(&s, 3));
    assert!(!contains_sorted(&s, 4));
}

#[test]
fn storage_convention_holds_for_a_full_column() {
    let csc = csc3(&[(0, 0, 2), (1, 0, 3), (2, 0, 5)]);
    let sym = factor_symbolic(&csc);
    assert_eq!(sym.n(), 3);
    assert_eq!(sym.u_row_indices, vec![0, 1, 2]);
    assert_eq!(sym.l_row_indices, vec![1, 2]);
    assert_eq!(sym.u_col_ptr, vec![0, 1, 2, 3]);
    assert_eq!(sym.l_col_ptr, vec![0, 2, 2, 2]);
}

#[test]
fn diagonal_is_always_structurally_present_in_u() {
    let csc = csc2(&[(1, 0, 4)]);
    let sym = factor_symbolic(&csc);
    assert_eq!(sym.u_row_indices, vec![0, 1]);
    assert_eq!(sym.l_row_indices, vec![1]);
    assert_eq!(sym.u_col_ptr, vec![0, 1, 2]);
    assert_eq!(sym.l_col_ptr, vec![0, 1, 1]);
    assert_eq!(sym.u_nnz(), 2);
    assert_eq!(sym.l_nnz(), 1);
}

#[test]
fn identity_has_no_l_fill() {
    let csc = csc3(&[(0, 0, 1), (1, 1, 1), (2, 2, 1)]);
    let sym = factor_symbolic(&csc);
    assert_eq!(sym.u_nnz(), 3);
    assert_eq!(sym.l_nnz(), 0);
    assert_eq!(sym.u_row_indices, vec![0, 1, 2]);
}

#[test]
fn fill_upper_bound_on_dense_2x2() {
    let csc = csc2(&[(0, 1, 1), (1, 0, 1)]);
    let sym = factor_symbolic(&csc);
    assert_eq!(sym.u_row_indices, vec![0, 0, 1]);
    assert_eq!(sym.l_row_indices, vec![1]);
    assert_eq!(sym.u_nnz(), 3);
    assert_eq!(sym.l_nnz(), 1);
}

#[test]
fn symmetric_perm_preserves_identity_pattern() {
    let csc = csc3(&[(0, 0, 1), (1, 1, 1), (2, 2, 1)]);
    let perm = vec![2usize, 0, 1];
    let permuted = apply_symmetric_perm(&csc, &perm);
    let sym = factor_symbolic(&permuted);
    assert_eq!(sym.u_nnz(), 3);
    assert_eq!(sym.l_nnz(), 0);
}

#[test]
fn amd_ordering_produces_valid_permuted_pattern() {
    let csc = csc3(&[(0, 2, 1), (2, 0, 1), (1, 1, 1)]);
    let sym = factor_symbolic_with_ordering(&csc, OrderingStrategy::AmdApproxMinDegree);
    let perm = sym.amd_col_perm.as_ref().expect("AMD yields a perm");
    assert_eq!(perm.len(), 3);
    let mut seen = [false; 3];
    for &p in perm {
        assert!(!seen[p], "AMD permutation must be a bijection");
        seen[p] = true;
    }
    for j in 0..sym.n() {
        let u = &sym.u_row_indices[sym.u_col_ptr[j]..sym.u_col_ptr[j + 1]];
        let l = &sym.l_row_indices[sym.l_col_ptr[j]..sym.l_col_ptr[j + 1]];
        assert!(u.iter().all(|&r| r <= j), "U col {j} rows must be ≤ {j}");
        assert!(l.iter().all(|&r| r > j), "L col {j} rows must be > {j}");
        assert!(u.windows(2).all(|w| w[0] <= w[1]), "U col {j} rows must be ascending");
        assert!(l.windows(2).all(|w| w[0] <= w[1]), "L col {j} rows must be ascending");
    }
}

#[test]
fn natural_ordering_has_no_col_perm() {
    let csc = csc2(&[(0, 1, 1), (1, 0, 1)]);
    let sym = factor_symbolic_with_ordering(&csc, OrderingStrategy::Natural);
    assert!(sym.amd_col_perm.is_none());
}

#[test]
fn default_ordering_is_natural() {
    assert_eq!(OrderingStrategy::default(), OrderingStrategy::Natural);
}

#[test]
fn symmetric_perm_moves_entries_to_the_inverse_slots() {
    // A[perm[x], perm[y]] lands at (x, y); the explicit zero is dropped.
    let mut coo = CooMatrix::new(3, 3);
    coo.push(0, 1, 7_i64);
    coo.push(2, 2, 9);
    coo.push(1, 0, 0);
    let csc = coo.to_csc();
    let perm = vec![1usize, 2, 0];
    let p = apply_symmetric_perm(&csc, &perm);
    // (0, 1) -> (inv 0, inv 1) = (2, 0); (2, 2) -> (1, 1).
    let d = p.to_dense();
    assert_eq!(d.data(), &[0, 0, 0, 0, 9, 0, 7, 0, 0]);
}
