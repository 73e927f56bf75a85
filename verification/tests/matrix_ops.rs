use pallet_subspace::dense::{
    inplace_col_normalize, inplace_mask_diag, inplace_mask_matrix, inplace_row_normalize,
    mat_ema, matmul, matmul_transpose, row_hadamard,
};
use pallet_subspace::fixed::ONE;
use pallet_subspace::sparse::{
    inplace_col_normalize_sparse, inplace_row_normalize_sparse, mask_diag_sparse,
    vec_mask_sparse_matrix,
};
use pallet_subspace::sparse_ema::mat_ema_sparse;
use pallet_subspace::sparse_product::{matmul_sparse, matmul_transpose_sparse, row_hadamard_sparse};

#[test]
fn sparse_mask_diagonal() {
    let m = vec![vec![(0, 5), (1, 6)], vec![(1, 7), (0, 8)], vec![]];
    assert_eq!(mask_diag_sparse(&m), vec![vec![(1, 6)], vec![(0, 8)], vec![]]);
}

#[test]
fn sparse_mask_outdated() {
    let m = vec![vec![(0, 5), (1, 6)], vec![(1, 7)]];
    // Row 0 updated at 10: entry 1 (registered at 10) is outdated.
    let r = vec_mask_sparse_matrix(&m, &vec![10, 30], &vec![5, 10]);
    assert_eq!(r, vec![vec![(0, 5)], vec![(1, 7)]]);
}

#[test]
fn sparse_row_normalize() {
    let mut m = vec![vec![(1, ONE), (2, 3 * ONE)], vec![], vec![(0, 0)]];
    inplace_row_normalize_sparse(&mut m);
    assert_eq!(m, vec![vec![(1, ONE / 4), (2, 3 * ONE / 4)], vec![], vec![(0, 0)]]);
}

#[test]
fn sparse_col_normalize() {
    let mut m = vec![vec![(0, ONE), (1, ONE)], vec![(0, 3 * ONE)], vec![(2, 0)]];
    inplace_col_normalize_sparse(&mut m, 3);
    assert_eq!(
        m,
        vec![vec![(0, ONE / 4), (1, ONE)], vec![(0, 3 * ONE / 4)], vec![(2, 0)]]
    );
}

#[test]
fn sparse_products() {
    let w = vec![vec![(1, ONE / 2), (2, ONE / 2)], vec![(0, ONE)], vec![]];
    let v = vec![ONE / 2, ONE / 4, ONE / 4];
    assert_eq!(matmul_sparse(&w, &v, 3), vec![ONE / 4, ONE / 4, ONE / 4]);
    let b = vec![vec![(1, ONE / 2), (2, ONE)], vec![(0, ONE)], vec![]];
    let inc = vec![ONE / 2, ONE / 4, ONE / 8];
    assert_eq!(matmul_transpose_sparse(&b, &inc), vec![ONE / 4, ONE / 2, 0]);
    assert_eq!(
        row_hadamard_sparse(&w, &v),
        vec![vec![(1, ONE / 4), (2, ONE / 4)], vec![(0, ONE / 4)], vec![]]
    );
}

#[test]
fn dense_masks() {
    let mut m = vec![vec![1, 2, 3], vec![4, 5, 6], vec![7, 8, 9]];
    inplace_mask_diag(&mut m);
    assert_eq!(m, vec![vec![0, 2, 3], vec![4, 0, 6], vec![7, 8, 0]]);
    let mask = vec![
        vec![false, true, false],
        vec![false, false, false],
        vec![true, false, false],
    ];
    inplace_mask_matrix(&mask, &mut m);
    assert_eq!(m, vec![vec![0, 0, 3], vec![4, 0, 6], vec![0, 8, 0]]);
}

#[test]
fn dense_row_and_col_normalize() {
    let mut m = vec![vec![ONE, ONE, 2 * ONE], vec![0, 0, 0], vec![ONE, 3 * ONE, 0]];
    inplace_row_normalize(&mut m);
    assert_eq!(
        m,
        vec![vec![ONE / 4, ONE / 4, ONE / 2], vec![0, 0, 0], vec![ONE / 4, 3 * ONE / 4, 0]]
    );
    let mut c = vec![vec![ONE, ONE, 2 * ONE], vec![0, 0, 0], vec![ONE, 3 * ONE, 0]];
    inplace_col_normalize(&mut c);
    assert_eq!(
        c,
        vec![vec![ONE / 2, ONE / 4, ONE], vec![0, 0, 0], vec![ONE / 2, 3 * ONE / 4, 0]]
    );
}

#[test]
fn dense_products() {
    let u = vec![vec![ONE / 2, ONE / 4], vec![0, ONE]];
    let v = vec![ONE / 2, ONE / 2];
    assert_eq!(matmul(&u, &v), vec![ONE / 4, 2684354560]);
    assert_eq!(matmul_transpose(&u, &v), vec![1610612736, ONE / 2]);
    assert_eq!(row_hadamard(&u, &v), vec![vec![ONE / 4, ONE / 8], vec![0, ONE / 2]]);
    let empty: Vec<Vec<i64>> = vec![];
    assert_eq!(row_hadamard(&empty, &v), vec![Vec::<i64>::new()]);
    assert_eq!(matmul(&empty, &v), Vec::<i64>::new());
}

#[test]
fn dense_moving_average() {
    let new = vec![vec![ONE / 2, ONE / 4], vec![0, ONE]];
    let old = vec![vec![ONE, 0], vec![0, ONE / 2]];
    let alpha = ONE / 10;
    assert_eq!(
        mat_ema(&new, &old, alpha),
        vec![vec![4080218931, 107374182], vec![0, 2362232012]]
    );
    assert_eq!(mat_ema(&new, &old, ONE), new);
    assert_eq!(mat_ema(&new, &old, 0), old);
}

#[test]
fn sparse_moving_average() {
    let new = vec![vec![(1, ONE)], vec![(0, ONE / 2)], vec![]];
    let old = vec![vec![(2, ONE)], vec![(0, ONE / 2)], vec![]];
    // alpha = 1/4: row 0 gets 1/4 in column 1 and 3/4 in column 2.
    assert_eq!(
        mat_ema_sparse(&new, &old, ONE / 4),
        vec![vec![(1, ONE / 4), (2, 3 * ONE / 4)], vec![(0, ONE / 2)], vec![]]
    );
    // Columns come out in order, and zero entries are dropped.
    let new = vec![vec![(1, ONE), (0, 0)], vec![]];
    let old = vec![vec![], vec![]];
    assert_eq!(mat_ema_sparse(&new, &old, ONE), vec![vec![(1, ONE)], vec![]]);
}
