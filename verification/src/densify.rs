//! The dense matrix of a sparse one: entry `(i, j)` is the sum of the values
//! of row `i` in column `j`.  Relates each sparse operation of the epoch to
//! the dense one.

use crate::dense::{dense_col_dot, diag_zeroed, mask_applied, rows_normalized, spec_matmul};
use crate::epoch_dense::outdated_matrix;
use crate::fixed::{fdiv, fmul, scale32, ONE};
use crate::sparse::{diag_masked, distinct_cols, off_diagonal, not_outdated, outdated_masked, row_col_sum, row_normalized, row_sum, row_values, unit_row, unit_sparse};
use crate::sparse_product::{matmul_col_upto, row_col_dot, spec_matmul_sparse};
use crate::storage::{converted, dense_entry, gathered_row, last_entry, spec_dense_from_store, spec_sparse_from_store, stored_rows_wf};
use crate::sums::{bounded32, sum32};
use crate::vector::spec_u16_proportion_to_fixed;
use vstd::prelude::*;

verus! {

/// The dense `m.len()` by `n` matrix of a sparse matrix.
pub open spec fn densify(m: Seq<Seq<(u16, i64)>>, n: int) -> Seq<Seq<i64>> {
    Seq::new(m.len(), |i: int| densify_row(m[i], n))
}

/// The dense row of `n` entries of a sparse row.
pub open spec fn densify_row(row: Seq<(u16, i64)>, n: int) -> Seq<i64> {
    Seq::new(n as nat, |j: int| row_col_sum(row, j) as i64)
}

/// A row that lists no entry in column `j` sums to zero there.
pub proof fn lemma_no_col_zero(row: Seq<(u16, i64)>, j: int)
    requires
        forall|k: int| 0 <= k < row.len() ==> (#[trigger] row[k]).0 as int != j,
    ensures
        row_col_sum(row, j) == 0,
    decreases row.len(),
{
    if row.len() > 0 {
        let rest = row.drop_last();
        assert forall|k: int| 0 <= k < rest.len() implies (#[trigger] rest[k]).0 as int != j by {
            assert(rest[k] == row[k]);
        }
        lemma_no_col_zero(rest, j);
        assert(row.last() == row[row.len() - 1]);
    }
}

proof fn lemma_distinct_drop_last(row: Seq<(u16, i64)>)
    requires
        distinct_cols(row),
        row.len() > 0,
    ensures
        distinct_cols(row.drop_last()),
        forall|k: int|
            0 <= k < row.len() - 1 ==> (#[trigger] row.drop_last()[k]).0 != row[row.len() - 1].0,
{
    let rest = row.drop_last();
    assert forall|a: int, b: int| 0 <= a < b < rest.len() implies #[trigger] rest[a].0
        != #[trigger] rest[b].0 by {
        assert(rest[a] == row[a] && rest[b] == row[b]);
    }
    assert forall|k: int| 0 <= k < row.len() - 1 implies (#[trigger] rest[k]).0 != row[row.len()
        - 1].0 by {
        assert(rest[k] == row[k]);
    }
}

/// In a row with distinct columns, mapping each value by `f` with
/// `f(0) == 0` maps each column sum by `f`.
pub proof fn lemma_row_col_sum_map(
    a: Seq<(u16, i64)>,
    b: Seq<(u16, i64)>,
    j: int,
    f: spec_fn(int) -> int,
)
    requires
        a.len() == b.len(),
        distinct_cols(a),
        forall|k: int| 0 <= k < a.len() ==> (#[trigger] a[k]).0 == b[k].0,
        forall|k: int| 0 <= k < a.len() ==> (#[trigger] b[k]).1 as int == f(a[k].1 as int),
        f(0) == 0,
    ensures
        row_col_sum(b, j) == f(row_col_sum(a, j)),
    decreases a.len(),
{
    if a.len() > 0 {
        let a2 = a.drop_last();
        let b2 = b.drop_last();
        let last = a.len() - 1;
        lemma_distinct_drop_last(a);
        assert forall|k: int| 0 <= k < a2.len() implies (#[trigger] a2[k]).0 == b2[k].0 by {
            assert(a2[k] == a[k] && b2[k] == b[k]);
        }
        assert forall|k: int| 0 <= k < a2.len() implies (#[trigger] b2[k]).1 as int == f(
            a2[k].1 as int,
        ) by {
            assert(a2[k] == a[k] && b2[k] == b[k]);
        }
        assert(a.last() == a[last] && b.last() == b[last]);
        if a[last].0 as int == j {
            assert forall|k: int| 0 <= k < a2.len() implies (#[trigger] a2[k]).0 as int != j by {}
            assert forall|k: int| 0 <= k < b2.len() implies (#[trigger] b2[k]).0 as int != j by {
                assert(a2[k].0 == b2[k].0);
            }
            lemma_no_col_zero(a2, j);
            lemma_no_col_zero(b2, j);
        } else {
            lemma_row_col_sum_map(a2, b2, j, f);
        }
    }
}

/// In a row with distinct columns, the contribution of `s * row` to column
/// `j` is `s` times the row's value there.
pub proof fn lemma_row_col_dot_single(row: Seq<(u16, i64)>, s: int, j: int)
    requires
        distinct_cols(row),
    ensures
        row_col_dot(row, s, j) == fmul(s, row_col_sum(row, j)),
    decreases row.len(),
{
    if row.len() == 0 {
        assert(fmul(s, 0) == 0) by {
            assert(s * 0 == 0);
            vstd::arithmetic::div_mod::lemma_basic_div(0, scale32());
        }
    } else {
        let rest = row.drop_last();
        let last = row.len() - 1;
        lemma_distinct_drop_last(row);
        assert(row.last() == row[last]);
        if row[last].0 as int == j {
            assert forall|k: int| 0 <= k < rest.len() implies (#[trigger] rest[k]).0 as int != j by {}
            lemma_no_col_zero(rest, j);
            lemma_row_col_dot_single(rest, s, j);
            assert(fmul(s, 0) == 0) by {
                assert(s * 0 == 0);
                vstd::arithmetic::div_mod::lemma_basic_div(0, scale32());
            }
        } else {
            lemma_row_col_dot_single(rest, s, j);
        }
    }
}

/// Filtering by a condition on the column keeps the column sums of the kept
/// columns and empties the others.
pub proof fn lemma_filter_row_col_sum(
    row: Seq<(u16, i64)>,
    p: spec_fn((u16, i64)) -> bool,
    keep: spec_fn(int) -> bool,
    j: int,
)
    requires
        forall|e: (u16, i64)| #[trigger] p(e) == keep(e.0 as int),
    ensures
        row_col_sum(row.filter(p), j) == (if keep(j) {
            row_col_sum(row, j)
        } else {
            0
        }),
    decreases row.len(),
{
    reveal(Seq::filter);
    if row.len() > 0 {
        let rest = row.drop_last();
        lemma_filter_row_col_sum(rest, p, keep, j);
        let f = rest.filter(p);
        if p(row.last()) {
            assert(row.filter(p) == f.push(row.last()));
            assert(f.push(row.last()).drop_last() =~= f);
        }
    }
}

/// The dense row of a unit row sums to the row's sum.
pub proof fn lemma_densify_row_sum(row: Seq<(u16, i64)>, n: int)
    requires
        unit_row(row, n),
        0 <= n,
    ensures
        sum32(densify_row(row, n)) == row_sum(row),
    decreases row.len(),
{
    if row.len() == 0 {
        assert(row_values(row) =~= Seq::<i64>::empty());
        lemma_sum_zeros(densify_row(row, n));
    } else {
        let rest = row.drop_last();
        let last = row.len() - 1;
        let c = row[last].0 as int;
        let v = row[last].1;
        lemma_distinct_drop_last(row);
        assert(unit_row(rest, n)) by {
            assert forall|k: int| 0 <= k < rest.len() implies (#[trigger] rest[k]).0 < n && 0
                <= rest[k].1 <= ONE by {
                assert(rest[k] == row[k]);
            }
        }
        lemma_densify_row_sum(rest, n);
        assert(row.last() == row[last]);
        assert forall|k: int| 0 <= k < rest.len() implies (#[trigger] rest[k]).0 as int != c by {}
        lemma_no_col_zero(rest, c);
        let dr = densify_row(rest, n);
        assert(c < n);
        assert forall|j: int| 0 <= j < n implies #[trigger] densify_row(rest, n)[j] == row_col_sum(
            rest,
            j,
        ) by {
            lemma_col_sum_unit_row(rest, n, j);
        }
        assert forall|j: int| 0 <= j < n implies #[trigger] densify_row(row, n)[j] == row_col_sum(
            row,
            j,
        ) by {
            lemma_col_sum_unit_row(row, n, j);
        }
        assert(densify_row(row, n) =~= dr.update(c, v));
        crate::sums::lemma_sum32_update(dr, c, v);
        assert(row_values(row).drop_last() =~= row_values(rest));
    }
}

/// The column sums of a unit row lie in `[0, 1]`.
pub proof fn lemma_col_sum_unit_row(row: Seq<(u16, i64)>, n: int, j: int)
    requires
        unit_row(row, n),
    ensures
        0 <= row_col_sum(row, j) <= ONE,
{
    crate::sparse::lemma_row_col_sum_distinct(row, j, ONE as int);
}

proof fn lemma_sum_zeros(s: Seq<i64>)
    requires
        forall|i: int| 0 <= i < s.len() ==> #[trigger] s[i] == 0,
    ensures
        sum32(s) == 0,
    decreases s.len(),
{
    if s.len() > 0 {
        lemma_sum_zeros(s.drop_last());
    }
}

/// With distinct columns, the converted entries of a stored row sum in
/// column `j` to the last proportion stored for `j`, converted, or zero.
pub proof fn lemma_converted_col_sum(e: Seq<(u16, u16)>, j: int)
    requires
        forall|k1: int, k2: int| 0 <= k1 < k2 < e.len() ==> #[trigger] e[k1].0 != #[trigger] e[k2].0,
    ensures
        row_col_sum(converted(e), j) == (if last_entry(e, j) is Some {
            spec_u16_proportion_to_fixed(last_entry(e, j)->0 as int)
        } else {
            0
        }),
    decreases e.len(),
{
    if e.len() > 0 {
        let rest = e.drop_last();
        let last = e.len() - 1;
        assert(converted(e).drop_last() =~= converted(rest));
        assert(e.last() == e[last]);
        assert(converted(e).last() == converted(e)[last]);
        crate::vector::lemma_u16_proportion_unit(e[last].1 as int);
        if e[last].0 as int == j {
            assert forall|k: int| 0 <= k < converted(rest).len() implies (
            #[trigger] converted(rest)[k]).0 as int != j by {
                assert(rest[k] == e[k]);
                assert(e[k].0 != e[last].0);
            }
            lemma_no_col_zero(converted(rest), j);
        } else {
            assert forall|k1: int, k2: int| 0 <= k1 < k2 < rest.len() implies #[trigger] rest[k1].0
                != #[trigger] rest[k2].0 by {
                assert(rest[k1] == e[k1] && rest[k2] == e[k2]);
            }
            lemma_converted_col_sum(rest, j);
        }
    }
}

proof fn lemma_dense_entry_none(stored: Seq<(u16, Vec<(u16, u16)>)>, i: int, j: int, r: int)
    requires
        0 <= r <= stored.len(),
        forall|a: int| 0 <= a < r ==> (#[trigger] stored[a]).0 as int != i,
    ensures
        dense_entry(stored, i, j, r) == 0,
    decreases r,
{
    if r > 0 {
        lemma_dense_entry_none(stored, i, j, r - 1);
    }
}

proof fn lemma_dense_entry_gathered(stored: Seq<(u16, Vec<(u16, u16)>)>, n: int, i: int, j: int, r: int)
    requires
        stored_rows_wf(stored, n),
        0 <= r <= stored.len(),
    ensures
        dense_entry(stored, i, j, r) == row_col_sum(gathered_row(stored, i, r), j),
    decreases r,
{
    if r > 0 {
        let e = stored[r - 1].1@;
        if stored[r - 1].0 as int == i {
            assert forall|a: int| 0 <= a < r - 1 implies (#[trigger] stored[a]).0 as int != i by {
                assert(stored[a].0 != stored[r - 1].0);
            }
            crate::storage::lemma_gathered_row_none(stored, i, r - 1);
            lemma_dense_entry_none(stored, i, j, r - 1);
            assert(gathered_row(stored, i, r) =~= converted(e));
            assert forall|k1: int, k2: int| 0 <= k1 < k2 < e.len() implies #[trigger] e[k1].0
                != #[trigger] e[k2].0 by {
                assert(stored[r - 1].1@[k1].0 != stored[r - 1].1@[k2].0);
            }
            lemma_converted_col_sum(e, j);
        } else {
            lemma_dense_entry_gathered(stored, n, i, j, r - 1);
            assert(gathered_row(stored, i, r) =~= gathered_row(stored, i, r - 1));
        }
    }
}

/// Read from well-formed stored rows, the dense matrix is the dense matrix
/// of the sparse one.
pub proof fn lemma_store_densify(stored: Seq<(u16, Vec<(u16, u16)>)>, n: int)
    requires
        stored_rows_wf(stored, n),
        0 <= n,
    ensures
        spec_dense_from_store(stored, n) == densify(spec_sparse_from_store(stored, n), n),
{
    let d = spec_dense_from_store(stored, n);
    let s = densify(spec_sparse_from_store(stored, n), n);
    assert forall|i: int| 0 <= i < n implies #[trigger] d[i] == s[i] by {
        assert forall|j: int| 0 <= j < n implies #[trigger] d[i][j] == s[i][j] by {
            lemma_dense_entry_gathered(stored, n, i, j, stored.len() as int);
            crate::storage::lemma_gathered_row_unit(stored, n, i, stored.len() as int);
            lemma_col_sum_unit_row(gathered_row(stored, i, stored.len() as int), n, j);
            crate::storage::lemma_dense_from_store_unit(stored, n);
        }
        assert(d[i] =~= s[i]);
    }
    assert(d =~= s);
}


/// Zeroing the diagonal of the dense matrix drops the diagonal entries of
/// the sparse one.
pub proof fn lemma_densify_diag(m: Seq<Seq<(u16, i64)>>, n: int)
    requires
        m.len() == n,
        0 < n,
    ensures
        diag_zeroed(densify(m, n)) == densify(diag_masked(m), n),
{
    let d = densify(m, n);
    assert(d[0].len() == n);
    let a = diag_zeroed(d);
    let b = densify(diag_masked(m), n);
    assert forall|i: int| 0 <= i < n implies #[trigger] a[i] == b[i] by {
        assert forall|j: int| 0 <= j < n implies #[trigger] a[i][j] == b[i][j] by {
            lemma_filter_row_col_sum(m[i], off_diagonal(i), |c: int| c != i, j);
        }
        assert(a[i] =~= b[i]);
    }
    assert(a =~= b);
}

/// Zeroing the outdated entries of the dense matrix drops the outdated
/// entries of the sparse one.
pub proof fn lemma_densify_outdated(
    m: Seq<Seq<(u16, i64)>>,
    first: Seq<u64>,
    second: Seq<u64>,
    n: int,
)
    requires
        m.len() == n,
        first.len() == n,
        second.len() == n,
        0 < n,
    ensures
        mask_applied(outdated_matrix(first, second), densify(m, n)) == densify(
            outdated_masked(m, first, second),
            n,
        ),
{
    let mask = outdated_matrix(first, second);
    let d = densify(m, n);
    assert(mask[0].len() == n);
    let a = mask_applied(mask, d);
    let b = densify(outdated_masked(m, first, second), n);
    assert forall|i: int| 0 <= i < n implies #[trigger] a[i] == b[i] by {
        assert forall|j: int| 0 <= j < n implies #[trigger] a[i][j] == b[i][j] by {
            lemma_filter_row_col_sum(
                m[i],
                not_outdated(first[i], second),
                |c: int| !(first[i] <= second[c]),
                j,
            );
        }
        assert(a[i] =~= b[i]);
    }
    assert(a =~= b);
}

/// Normalizing the rows of the dense matrix normalizes the rows of the
/// sparse one, and the normalized sparse rows are unit rows.
pub proof fn lemma_densify_row_normalized(m: Seq<Seq<(u16, i64)>>, n: int)
    requires
        unit_sparse(m, n),
        0 <= n,
    ensures
        rows_normalized(densify(m, n)) == densify(row_normalized(m), n),
        unit_sparse(row_normalized(m), n),
{
    let w = row_normalized(m);
    let a = rows_normalized(densify(m, n));
    let b = densify(w, n);
    assert forall|i: int| 0 <= i < m.len() implies #[trigger] a[i] == b[i] && unit_row(w[i], n) by {
        let row = m[i];
        let s = row_sum(row);
        assert(unit_row(row, n));
        lemma_densify_row_sum(row, n);
        let x = row_values(row);
        assert(bounded32(x, i64::MAX as int)) by {
            assert forall|k: int| 0 <= k < x.len() implies 0 <= #[trigger] x[k] <= i64::MAX by {
                assert(x[k] == row[k].1);
            }
        }
        if s > 0 {
            assert forall|k: int| 0 <= k < row.len() implies 0 <= #[trigger] fdiv(
                row[k].1 as int,
                s,
            ) <= ONE by {
                assert(x[k] == row[k].1);
                crate::sums::lemma_elem_le_sum32(x, k);
                crate::sums::lemma_fdiv_unit(x[k] as int, s);
            }
            let f = |v: int| fdiv(v, s);
            assert(f(0) == 0) by {
                vstd::arithmetic::div_mod::lemma_basic_div(0, crate::fixed::abs(s));
            }
            assert forall|j: int| 0 <= j < n implies #[trigger] a[i][j] == b[i][j] by {
                lemma_col_sum_unit_row(row, n, j);
                lemma_row_col_sum_map(row, w[i], j, f);
            }
        } else {
            assert(w[i] =~= row);
            assert forall|j: int| 0 <= j < n implies #[trigger] a[i][j] == b[i][j] by {}
        }
        assert(a[i] =~= b[i]);
        assert(unit_row(w[i], n)) by {
            assert forall|p: int, q: int| 0 <= p < q < w[i].len() implies #[trigger] w[i][p].0
                != #[trigger] w[i][q].0 by {
                assert(row[p].0 != row[q].0);
            }
        }
    }
    assert forall|i: int| 0 <= i < w.len() implies unit_row(#[trigger] w[i], n) by {
        assert(a[i] == b[i]);
    }
    assert(a =~= b);
}

proof fn lemma_densify_col_dot(m: Seq<Seq<(u16, i64)>>, v: Seq<i64>, n: int, j: int, r: int)
    requires
        unit_sparse(m, n),
        0 <= r <= m.len(),
        0 <= j < n,
    ensures
        dense_col_dot(densify(m, n), v, j, r) == matmul_col_upto(m, v, j, r),
    decreases r,
{
    if r > 0 {
        lemma_densify_col_dot(m, v, n, j, r - 1);
        assert(unit_row(m[r - 1], n));
        lemma_col_sum_unit_row(m[r - 1], n, j);
        lemma_row_col_dot_single(m[r - 1], v[r - 1] as int, j);
    }
}

/// The product of a vector with the dense matrix is its product with the
/// sparse one.
pub proof fn lemma_densify_matmul(m: Seq<Seq<(u16, i64)>>, v: Seq<i64>, n: int)
    requires
        unit_sparse(m, n),
        0 < m.len(),
        0 < n,
    ensures
        spec_matmul(densify(m, n), v) == spec_matmul_sparse(m, v, n),
{
    let d = densify(m, n);
    assert(d[0].len() == n);
    assert forall|j: int| 0 <= j < n implies #[trigger] spec_matmul(d, v)[j] == spec_matmul_sparse(
        m,
        v,
        n,
    )[j] by {
        lemma_densify_col_dot(m, v, n, j, m.len() as int);
    }
    assert(spec_matmul(d, v) =~= spec_matmul_sparse(m, v, n));
}

} // verus!
