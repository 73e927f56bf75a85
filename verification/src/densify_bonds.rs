//! How the sparse operations on bonds and dividends match the dense ones:
//! column normalization, scaling each row, the moving average, and the
//! product of a matrix with a vector.

use crate::dense::{cols_normalized, dense_col_sum, dense_row_dot, spec_mat_ema, spec_matmul_transpose, spec_row_hadamard};
use crate::densify::{densify, densify_row, lemma_col_sum_unit_row, lemma_no_col_zero, lemma_row_col_dot_single};
use crate::fixed::{fdiv, fmul, scale32, ONE};
use crate::sparse::{col_normalized, col_sum, col_sum_upto, distinct_cols, nonneg_sparse, row_col_sum, unit_row, unit_sparse};
use crate::sparse_ema::{ema_dense_row, lemma_positive_entries_col_sum, lemma_positive_entries_unit, lemma_row_col_dot_unit, spec_mat_ema_sparse};
use crate::sparse_product::{row_dot, spec_matmul_transpose_sparse, spec_row_hadamard_sparse};
use vstd::prelude::*;

verus! {

proof fn lemma_fmul_zero(s: int)
    ensures
        fmul(s, 0) == 0,
        fmul(0, s) == 0,
{
    assert(s * 0 == 0);
    assert(0 * s == 0);
    vstd::arithmetic::div_mod::lemma_basic_div(0, scale32());
}

proof fn lemma_distinct_drop_last(row: Seq<(u16, i64)>)
    requires
        distinct_cols(row),
        row.len() > 0,
    ensures
        distinct_cols(row.drop_last()),
        forall|k: int|
            0 <= k < row.len() - 1 ==> (#[trigger] row.drop_last()[k]).0 != row[row.len() - 1].0,
{
    let rest = row.drop_last();
    assert forall|a: int, b: int| 0 <= a < b < rest.len() implies #[trigger] rest[a].0
        != #[trigger] rest[b].0 by {
        assert(rest[a] == row[a] && rest[b] == row[b]);
    }
    assert forall|k: int| 0 <= k < row.len() - 1 implies (#[trigger] rest[k]).0 != row[row.len()
        - 1].0 by {
        assert(rest[k] == row[k]);
    }
}

/// In a row with distinct columns, mapping each value by `f` of its column
/// and value, with `f(c, 0) == 0`, maps each column sum by `f`.
pub proof fn lemma_row_col_sum_map_col(
    a: Seq<(u16, i64)>,
    b: Seq<(u16, i64)>,
    j: int,
    f: spec_fn(int, int) -> int,
)
    requires
        a.len() == b.len(),
        distinct_cols(a),
        forall|k: int| 0 <= k < a.len() ==> (#[trigger] a[k]).0 == b[k].0,
        forall|k: int| 0 <= k < a.len() ==> (#[trigger] b[k]).1 as int == f(a[k].0 as int, a[k].1 as int),
        forall|c: int| #[trigger] f(c, 0) == 0,
    ensures
        row_col_sum(b, j) == f(j, row_col_sum(a, j)),
    decreases a.len(),
{
    if a.len() == 0 {
        assert(f(j, 0) == 0);
    } else {
        let a2 = a.drop_last();
        let b2 = b.drop_last();
        let last = a.len() - 1;
        lemma_distinct_drop_last(a);
        assert forall|k: int| 0 <= k < a2.len() implies (#[trigger] a2[k]).0 == b2[k].0 by {
            assert(a2[k] == a[k] && b2[k] == b[k]);
        }
        assert forall|k: int| 0 <= k < a2.len() implies (#[trigger] b2[k]).1 as int == f(
            a2[k].0 as int,
            a2[k].1 as int,
        ) by {
            assert(a2[k] == a[k] && b2[k] == b[k]);
        }
        assert(a.last() == a[last] && b.last() == b[last]);
        if a[last].0 as int == j {
            assert forall|k: int| 0 <= k < a2.len() implies (#[trigger] a2[k]).0 as int != j by {}
            assert forall|k: int| 0 <= k < b2.len() implies (#[trigger] b2[k]).0 as int != j by {
                assert(a2[k].0 == b2[k].0);
            }
            lemma_no_col_zero(a2, j);
            lemma_no_col_zero(b2, j);
        } else {
            lemma_row_col_sum_map_col(a2, b2, j, f);
        }
    }
}

proof fn lemma_dense_col_sum_densify(m: Seq<Seq<(u16, i64)>>, n: int, j: int, r: int)
    requires
        unit_sparse(m, n),
        0 <= r <= m.len(),
        0 <= j < n,
    ensures
        dense_col_sum(densify(m, n), j, r) == col_sum_upto(m, j, r),
    decreases r,
{
    if r > 0 {
        lemma_dense_col_sum_densify(m, n, j, r - 1);
        assert(unit_row(m[r - 1], n));
        lemma_col_sum_unit_row(m[r - 1], n, j);
    }
}

/// Each value of a nonnegative matrix is at most the sum of its column.
proof fn lemma_value_le_col_sum(m: Seq<Seq<(u16, i64)>>, i: int, k: int)
    requires
        nonneg_sparse(m),
        0 <= i < m.len(),
        0 <= k < m[i].len(),
    ensures
        m[i][k].1 <= col_sum(m, m[i][k].0 as int),
{
    let c = m[i][k].0 as int;
    assert forall|x: int| 0 <= x < m[i].len() implies 0 <= #[trigger] m[i][x].1 by {}
    crate::sparse::lemma_row_col_sum_mono(m[i], c, k);
    crate::sparse::lemma_col_sum_mono(m, c, i);
}

/// Normalizing the columns of the dense matrix normalizes the columns of
/// the sparse one, and the result is again a unit matrix.
pub proof fn lemma_densify_col_normalized(m: Seq<Seq<(u16, i64)>>, n: int)
    requires
        unit_sparse(m, n),
        m.len() == n,
        0 < n,
    ensures
        cols_normalized(densify(m, n)) == densify(col_normalized(m), n),
        unit_sparse(col_normalized(m), n),
{
    let d = densify(m, n);
    let cn = col_normalized(m);
    assert(d[0].len() == n);
    assert(nonneg_sparse(m)) by {
        assert forall|i: int, k: int| 0 <= i < m.len() && 0 <= k < m[i].len() implies 0
            <= #[trigger] m[i][k].1 by {
            assert(unit_row(m[i], n));
        }
    }
    let f = |c: int, x: int|
        if col_sum(m, c) == 0 {
            x
        } else {
            (fdiv(x, col_sum(m, c)) as i64) as int
        };
    assert forall|c: int| #[trigger] f(c, 0) == 0 by {
        if col_sum(m, c) != 0 {
            vstd::arithmetic::div_mod::lemma_basic_div(0, crate::fixed::abs(col_sum(m, c)));
        }
    }
    let a = cols_normalized(d);
    let b = densify(cn, n);
    assert forall|i: int| 0 <= i < n implies #[trigger] a[i] == b[i] && unit_row(cn[i], n) by {
        assert(unit_row(m[i], n));
        assert forall|j: int| 0 <= j < n implies #[trigger] a[i][j] == b[i][j] by {
            lemma_dense_col_sum_densify(m, n, j, n);
            lemma_col_sum_unit_row(m[i], n, j);
            lemma_row_col_sum_map_col(m[i], cn[i], j, f);
        }
        assert(a[i] =~= b[i]);
        assert forall|k: int| 0 <= k < cn[i].len() implies 0 <= (#[trigger] cn[i][k]).1 <= ONE by {
            let c = m[i][k].0 as int;
            if col_sum(m, c) != 0 {
                lemma_value_le_col_sum(m, i, k);
                crate::sums::lemma_fdiv_unit(m[i][k].1 as int, col_sum(m, c));
            }
        }
        assert forall|p: int, q: int| 0 <= p < q < cn[i].len() implies #[trigger] cn[i][p].0
            != #[trigger] cn[i][q].0 by {
            assert(m[i][p].0 != m[i][q].0);
        }
    }
    assert forall|i: int| 0 <= i < cn.len() implies unit_row(#[trigger] cn[i], n) by {
        assert(a[i] == b[i]);
    }
    assert(a =~= b);
}

/// Scaling the rows of the dense matrix scales the rows of the sparse one,
/// and the result is again a unit matrix.
pub proof fn lemma_densify_row_hadamard(m: Seq<Seq<(u16, i64)>>, v: Seq<i64>, n: int)
    requires
        unit_sparse(m, n),
        m.len() == n,
        v.len() == n,
        forall|i: int| 0 <= i < v.len() ==> 0 <= #[trigger] v[i] <= ONE,
        0 < n,
    ensures
        spec_row_hadamard(densify(m, n), v) == densify(spec_row_hadamard_sparse(m, v), n),
        unit_sparse(spec_row_hadamard_sparse(m, v), n),
{
    let d = densify(m, n);
    let h = spec_row_hadamard_sparse(m, v);
    assert(d[0].len() == n);
    let a = spec_row_hadamard(d, v);
    let b = densify(h, n);
    assert forall|i: int| 0 <= i < n implies #[trigger] a[i] == b[i] && unit_row(h[i], n) by {
        assert(unit_row(m[i], n));
        let s = v[i] as int;
        let f = |c: int, x: int| (fmul(x, s) as i64) as int;
        assert forall|c: int| #[trigger] f(c, 0) == 0 by {
            lemma_fmul_zero(s);
        }
        assert forall|j: int| 0 <= j < n implies #[trigger] a[i][j] == b[i][j] by {
            lemma_col_sum_unit_row(m[i], n, j);
            lemma_row_col_sum_map_col(m[i], h[i], j, f);
            let x = row_col_sum(m[i], j);
            assert(fmul(x, s) == fmul(s, x)) by {
                assert(x * s == s * x) by (nonlinear_arith);
            }
        }
        assert(a[i] =~= b[i]);
        assert forall|k: int| 0 <= k < h[i].len() implies 0 <= (#[trigger] h[i][k]).1 <= ONE by {
            crate::sums::lemma_fmul_le(m[i][k].1 as int, s);
        }
        assert forall|p: int, q: int| 0 <= p < q < h[i].len() implies #[trigger] h[i][p].0
            != #[trigger] h[i][q].0 by {
            assert(m[i][p].0 != m[i][q].0);
        }
    }
    assert forall|i: int| 0 <= i < h.len() implies unit_row(#[trigger] h[i], n) by {
        assert(a[i] == b[i]);
    }
    assert(a =~= b);
}

/// The moving average of the dense matrices is the dense matrix of the
/// sparse moving average, which is again a unit matrix.
pub proof fn lemma_densify_mat_ema(
    new: Seq<Seq<(u16, i64)>>,
    old: Seq<Seq<(u16, i64)>>,
    alpha: int,
    n: int,
)
    requires
        unit_sparse(new, n),
        unit_sparse(old, n),
        new.len() == n,
        old.len() == n,
        0 < n <= 65536,
        0 <= alpha <= ONE,
    ensures
        spec_mat_ema(densify(new, n), densify(old, n), alpha) == densify(
            spec_mat_ema_sparse(new, old, alpha),
            n,
        ),
        unit_sparse(spec_mat_ema_sparse(new, old, alpha), n),
{
    let dn = densify(new, n);
    let dd = densify(old, n);
    let e = spec_mat_ema_sparse(new, old, alpha);
    assert(dn[0].len() == n);
    let a = spec_mat_ema(dn, dd, alpha);
    let b = densify(e, n);
    assert forall|i: int| 0 <= i < n implies #[trigger] a[i] == b[i] && unit_row(e[i], n) by {
        assert(unit_row(new[i], n));
        assert(unit_row(old[i], n));
        let r = ema_dense_row(new[i], old[i], alpha, n);
        assert forall|j: int| 0 <= j < n implies 0 <= #[trigger] r[j] <= ONE && r[j] as int
            == fmul(alpha, row_col_sum(new[i], j)) + fmul(ONE - alpha, row_col_sum(old[i], j)) by {
            lemma_row_col_dot_unit(new[i], n, alpha, j);
            lemma_row_col_dot_unit(old[i], n, ONE - alpha, j);
            lemma_row_col_dot_single(new[i], alpha, j);
            lemma_row_col_dot_single(old[i], ONE - alpha, j);
        }
        assert forall|j: int| 0 <= j < n implies #[trigger] a[i][j] == b[i][j] by {
            lemma_col_sum_unit_row(new[i], n, j);
            lemma_col_sum_unit_row(old[i], n, j);
            lemma_positive_entries_col_sum(r, j);
            assert(0 <= r[j] <= ONE);
        }
        assert(a[i] =~= b[i]);
        assert forall|j: int| 0 <= j < r.len() implies #[trigger] r[j] <= ONE by {
            assert(0 <= r[j] <= ONE);
        }
        lemma_positive_entries_unit(r);
    }
    assert forall|i: int| 0 <= i < e.len() implies unit_row(#[trigger] e[i], n) by {
        assert(a[i] == b[i]);
    }
    assert(a =~= b);
}

proof fn lemma_dense_row_dot_update(x: Seq<i64>, v: Seq<i64>, c: int, val: i64, cols: int)
    requires
        0 <= c < x.len(),
        0 <= cols <= x.len(),
    ensures
        dense_row_dot(x.update(c, val), v, cols) == dense_row_dot(x, v, cols) + (if c < cols {
            fmul(v[c] as int, val as int) - fmul(v[c] as int, x[c] as int)
        } else {
            0
        }),
    decreases cols,
{
    if cols > 0 {
        lemma_dense_row_dot_update(x, v, c, val, cols - 1);
    }
}

proof fn lemma_dense_row_dot_zeros(x: Seq<i64>, v: Seq<i64>, cols: int)
    requires
        0 <= cols <= x.len(),
        forall|j: int| 0 <= j < x.len() ==> #[trigger] x[j] == 0,
    ensures
        dense_row_dot(x, v, cols) == 0,
    decreases cols,
{
    if cols > 0 {
        lemma_dense_row_dot_zeros(x, v, cols - 1);
        lemma_fmul_zero(v[cols - 1] as int);
    }
}

/// The product of the dense row of a unit row with a vector is the product
/// of the sparse row with it.
pub proof fn lemma_densify_row_dot(row: Seq<(u16, i64)>, v: Seq<i64>, n: int)
    requires
        unit_row(row, n),
        0 <= n,
    ensures
        dense_row_dot(densify_row(row, n), v, n) == row_dot(row, v),
    decreases row.len(),
{
    if row.len() == 0 {
        lemma_dense_row_dot_zeros(densify_row(row, n), v, n);
    } else {
        let rest = row.drop_last();
        let last = row.len() - 1;
        let c = row[last].0 as int;
        let val = row[last].1;
        lemma_distinct_drop_last(row);
        assert(unit_row(rest, n)) by {
            assert forall|k: int| 0 <= k < rest.len() implies (#[trigger] rest[k]).0 < n && 0
                <= rest[k].1 <= ONE by {
                assert(rest[k] == row[k]);
            }
        }
        lemma_densify_row_dot(rest, v, n);
        assert(row.last() == row[last]);
        assert forall|k: int| 0 <= k < rest.len() implies (#[trigger] rest[k]).0 as int != c by {}
        lemma_no_col_zero(rest, c);
        let dr = densify_row(rest, n);
        assert forall|j: int| 0 <= j < n implies #[trigger] densify_row(rest, n)[j] == row_col_sum(
            rest,
            j,
        ) by {
            lemma_col_sum_unit_row(rest, n, j);
        }
        assert forall|j: int| 0 <= j < n implies #[trigger] densify_row(row, n)[j] == row_col_sum(
            row,
            j,
        ) by {
            lemma_col_sum_unit_row(row, n, j);
        }
        assert(densify_row(row, n) =~= dr.update(c, val));
        lemma_dense_row_dot_update(dr, v, c, val, n);
        lemma_fmul_zero(v[c] as int);
    }
}

/// The product of the dense matrix with a vector is the product of the
/// sparse matrix with it.
pub proof fn lemma_densify_matmul_transpose(m: Seq<Seq<(u16, i64)>>, v: Seq<i64>, n: int)
    requires
        unit_sparse(m, n),
        0 < m.len(),
        0 < n,
    ensures
        spec_matmul_transpose(densify(m, n), v) == spec_matmul_transpose_sparse(m, v),
{
    let d = densify(m, n);
    assert(d[0].len() == n);
    assert forall|i: int| 0 <= i < m.len() implies #[trigger] spec_matmul_transpose(d, v)[i]
        == spec_matmul_transpose_sparse(m, v)[i] by {
        assert(unit_row(m[i], n));
        lemma_densify_row_dot(m[i], v, n);
    }
    assert(spec_matmul_transpose(d, v) =~= spec_matmul_transpose_sparse(m, v));
}

} // verus!
