//! The exponential moving average of two sparse matrices with as many
//! columns as rows: `alpha * new + (1 - alpha) * old`, keeping the positive
//! entries of each row in column order.  `alpha` is at most one and may be
//! negative.

use crate::densify::{lemma_col_sum_unit_row, lemma_row_col_dot_single};
use crate::fixed::{fmul, fx32_add, fx32_mul, fx32_sub, scale32, ONE};
use crate::sparse::{col_sum, col_sum_upto, nonneg_row, row_col_sum, rows, unit_row, unit_sparse};
use crate::sparse_product::{lemma_row_col_dot_take_step, lemma_unit_row_take, row_col_dot};
use crate::sums::{lemma_fmul_floor, lemma_fmul_le};
use vstd::arithmetic::div_mod::{lemma_div_is_ordered, lemma_div_multiples_vanish};
use vstd::prelude::*;

verus! {

/// The positive entries of a dense row, as `(column, value)` pairs in
/// column order.
pub open spec fn positive_entries(row: Seq<i64>) -> Seq<(u16, i64)>
    decreases row.len(),
{
    if row.len() == 0 {
        Seq::empty()
    } else {
        positive_entries(row.drop_last()) + (if row.last() > 0 {
            seq![((row.len() - 1) as u16, row.last())]
        } else {
            Seq::empty()
        })
    }
}

/// The least contribution of a value in `[0, 1]` times `s`: `s` when it is
/// negative, else zero.
pub open spec fn lo(s: int) -> int {
    if s < 0 {
        s
    } else {
        0
    }
}

/// The greatest contribution of a value in `[0, 1]` times `s`: `s` when it
/// is nonnegative, else zero.
pub open spec fn hi(s: int) -> int {
    if s < 0 {
        0
    } else {
        s
    }
}

/// Column `j` of `alpha * new_row + (1 - alpha) * old_row`, each product
/// taken entry by entry.
pub open spec fn ema_value(
    new_row: Seq<(u16, i64)>,
    old_row: Seq<(u16, i64)>,
    alpha: int,
    j: int,
) -> int {
    row_col_dot(new_row, alpha, j) + row_col_dot(old_row, ONE - alpha, j)
}

/// The moving average of two rows as a dense row of `n` entries.
pub open spec fn ema_dense_row(
    new_row: Seq<(u16, i64)>,
    old_row: Seq<(u16, i64)>,
    alpha: int,
    n: int,
) -> Seq<i64> {
    Seq::new(n as nat, |j: int| ema_value(new_row, old_row, alpha, j) as i64)
}

/// The moving average of two sparse matrices with `new.len()` columns: row
/// `i` holds the positive entries of the average of the two rows `i`.
pub open spec fn spec_mat_ema_sparse(
    new: Seq<Seq<(u16, i64)>>,
    old: Seq<Seq<(u16, i64)>>,
    alpha: int,
) -> Seq<Seq<(u16, i64)>> {
    Seq::new(
        new.len(),
        |i: int| positive_entries(ema_dense_row(new[i], old[i], alpha, new.len() as int)),
    )
}

/// For `s <= 0` and `x` in `[0, 1]`, `fmul(s, x)` lies in `[s, 0]`.
pub proof fn lemma_fmul_neg(s: int, x: int)
    requires
        s <= 0,
        0 <= x <= scale32(),
    ensures
        s <= fmul(s, x) <= 0,
{
    assert(s * scale32() <= s * x && s * x <= 0) by (nonlinear_arith)
        requires
            s <= 0,
            0 <= x <= scale32(),
    ;
    lemma_div_is_ordered(s * scale32(), s * x, scale32());
    lemma_div_multiples_vanish(s, scale32());
    lemma_div_is_ordered(s * x, 0, scale32());
}

/// The contribution of a unit row times `s` to any column lies between
/// zero and `s`.
pub proof fn lemma_row_col_dot_unit(row: Seq<(u16, i64)>, cols: int, s: int, j: int)
    requires
        unit_row(row, cols),
    ensures
        0 <= s ==> 0 <= row_col_dot(row, s, j) <= s,
        s < 0 ==> s <= row_col_dot(row, s, j) <= 0,
        row_col_dot(row, s, j) == fmul(s, crate::sparse::row_col_sum(row, j)),
{
    lemma_row_col_dot_single(row, s, j);
    lemma_col_sum_unit_row(row, cols, j);
    if 0 <= s {
        lemma_fmul_le(s, crate::sparse::row_col_sum(row, j));
    } else {
        lemma_fmul_neg(s, crate::sparse::row_col_sum(row, j));
    }
}

/// The positive entries of a row of at most `2^16` values have distinct
/// columns below the row's length and positive values.
pub proof fn lemma_positive_entries_pattern(row: Seq<i64>)
    requires
        row.len() <= 65536,
    ensures
        nonneg_row(positive_entries(row), row.len() as int),
    decreases row.len(),
{
    if row.len() > 0 {
        let rest = row.drop_last();
        lemma_positive_entries_pattern(rest);
        let p = positive_entries(rest);
        let last = row.len() - 1;
        assert(row.last() == row[last]);
        if row.last() > 0 {
            let q = p + seq![(last as u16, row.last())];
            assert(positive_entries(row) == q);
            assert forall|k: int| 0 <= k < q.len() implies (#[trigger] q[k]).0 < row.len() && 0
                <= q[k].1 by {
                if k < p.len() {
                    assert(q[k] == p[k]);
                }
            }
            assert forall|a: int, b: int| 0 <= a < b < q.len() implies #[trigger] q[a].0
                != #[trigger] q[b].0 by {
                assert(q[a] == p[a]);
                if b < p.len() {
                    assert(q[b] == p[b]);
                }
            }
        } else {
            assert(positive_entries(row) =~= p);
        }
    }
}

/// The positive entries of a row of at most `2^16` values in `[0, 1]` form
/// a unit row, each column below the row's length.
pub proof fn lemma_positive_entries_unit(row: Seq<i64>)
    requires
        row.len() <= 65536,
        forall|j: int| 0 <= j < row.len() ==> #[trigger] row[j] <= ONE,
    ensures
        unit_row(positive_entries(row), row.len() as int),
    decreases row.len(),
{
    if row.len() > 0 {
        let rest = row.drop_last();
        assert forall|j: int| 0 <= j < rest.len() implies #[trigger] rest[j] <= ONE by {
            assert(rest[j] == row[j]);
        }
        lemma_positive_entries_unit(rest);
        let p = positive_entries(rest);
        let last = row.len() - 1;
        assert(row.last() == row[last]);
        if row.last() > 0 {
            let q = p + seq![(last as u16, row.last())];
            assert(positive_entries(row) == q);
            assert forall|k: int| 0 <= k < q.len() implies (#[trigger] q[k]).0 < row.len() && 0
                <= q[k].1 <= ONE by {
                if k < p.len() {
                    assert(q[k] == p[k]);
                }
            }
            assert forall|a: int, b: int| 0 <= a < b < q.len() implies #[trigger] q[a].0
                != #[trigger] q[b].0 by {
                assert(q[a] == p[a]);
                if b < p.len() {
                    assert(q[b] == p[b]);
                }
            }
        } else {
            assert(positive_entries(row) =~= p);
        }
    }
}

/// The positive entries of a row, summed in column `j`, give the row's
/// value there when it is positive, and zero otherwise.
pub proof fn lemma_positive_entries_col_sum(row: Seq<i64>, j: int)
    requires
        row.len() <= 65536,
    ensures
        crate::sparse::row_col_sum(positive_entries(row), j) == (if 0 <= j < row.len() && row[j]
            > 0 {
            row[j] as int
        } else {
            0
        }),
    decreases row.len(),
{
    if row.len() > 0 {
        let rest = row.drop_last();
        lemma_positive_entries_col_sum(rest, j);
        let p = positive_entries(rest);
        let last = row.len() - 1;
        assert(row.last() == row[last]);
        if 0 <= j < rest.len() {
            assert(rest[j] == row[j]);
        }
        if row.last() > 0 {
            let q = p + seq![(last as u16, row.last())];
            assert(positive_entries(row) == q);
            assert(q.drop_last() =~= p);
        } else {
            assert(positive_entries(row) =~= p);
        }
    }
}

proof fn lemma_ema_sparse_col_sum_upto(
    new: Seq<Seq<(u16, i64)>>,
    old: Seq<Seq<(u16, i64)>>,
    alpha: int,
    j: int,
    r: int,
)
    requires
        unit_sparse(new, new.len() as int),
        unit_sparse(old, new.len() as int),
        old.len() == new.len(),
        new.len() <= 65536,
        alpha < 0,
        ONE - alpha <= i64::MAX,
        0 <= j < new.len(),
        0 <= r <= new.len(),
    ensures
        col_sum_upto(spec_mat_ema_sparse(new, old, alpha), j, r) * ONE <= (ONE - alpha) * col_sum_upto(
            old,
            j,
            r,
        ),
    decreases r,
{
    if r > 0 {
        let n = new.len() as int;
        let i = r - 1;
        lemma_ema_sparse_col_sum_upto(new, old, alpha, j, i);
        let e = spec_mat_ema_sparse(new, old, alpha);
        let row = ema_dense_row(new[i], old[i], alpha, n);
        lemma_positive_entries_col_sum(row, j);
        assert(unit_row(new[i], n));
        assert(unit_row(old[i], n));
        lemma_row_col_dot_unit(new[i], n, alpha, j);
        lemma_row_col_dot_unit(old[i], n, ONE - alpha, j);
        let b = row_col_sum(old[i], j);
        lemma_col_sum_unit_row(old[i], n, j);
        lemma_fmul_floor(ONE - alpha, b);
        let c = row_col_sum(e[i], j);
        let f = fmul(ONE - alpha, b);
        assert(0 <= c <= f);
        let x = col_sum_upto(e, j, i);
        let y = col_sum_upto(old, j, i);
        assert((x + c) * ONE <= (ONE - alpha) * (y + b)) by (nonlinear_arith)
            requires
                x * ONE <= (ONE - alpha) * y,
                c <= f,
                f * ONE <= (ONE - alpha) * b,
        ;
    }
}

/// With a negative `alpha`, each column of the moving average sums to at
/// most `1 - alpha` when the column of `old` sums to at most one.
pub proof fn lemma_ema_sparse_col_sum(
    new: Seq<Seq<(u16, i64)>>,
    old: Seq<Seq<(u16, i64)>>,
    alpha: int,
    j: int,
)
    requires
        unit_sparse(new, new.len() as int),
        unit_sparse(old, new.len() as int),
        old.len() == new.len(),
        new.len() <= 65536,
        alpha < 0,
        ONE - alpha <= i64::MAX,
        0 <= j < new.len(),
        col_sum(old, j) <= ONE,
    ensures
        col_sum(spec_mat_ema_sparse(new, old, alpha), j) <= ONE - alpha,
{
    lemma_ema_sparse_col_sum_upto(new, old, alpha, j, new.len() as int);
    let x = col_sum(spec_mat_ema_sparse(new, old, alpha), j);
    let y = col_sum(old, j);
    assert(x <= ONE - alpha) by (nonlinear_arith)
        requires
            x * ONE <= (ONE - alpha) * y,
            y <= ONE,
            ONE - alpha > 0,
            ONE > 0,
    ;
}

proof fn lemma_positive_entries_take_step(row: Seq<i64>, j: int)
    requires
        0 <= j < row.len(),
    ensures
        positive_entries(row.take(j + 1)) == positive_entries(row.take(j)) + (if row[j] > 0 {
            seq![(j as u16, row[j])]
        } else {
            Seq::<(u16, i64)>::empty()
        }),
{
    assert(row.take(j + 1).drop_last() =~= row.take(j));
}

/// One row of the moving average, before its positive entries are kept.
fn ema_row(
    new_row: &Vec<(u16, i64)>,
    old_row: &Vec<(u16, i64)>,
    alpha: i64,
    one_minus_alpha: i64,
    n: usize,
) -> (r: Vec<i64>)
    requires
        unit_row(new_row@, n as int),
        unit_row(old_row@, n as int),
        alpha <= ONE,
        one_minus_alpha == ONE - alpha,
    ensures
        r@ == ema_dense_row(new_row@, old_row@, alpha as int, n as int),
        0 <= alpha ==> forall|j: int| 0 <= j < n ==> 0 <= #[trigger] r@[j] <= ONE,
{
    let mut row: Vec<i64> = Vec::new();
    let mut c: usize = 0;
    while c < n
        invariant
            0 <= c <= n,
            row@ =~= Seq::new(c as nat, |j: int| 0i64),
        decreases n - c,
    {
        row.push(0);
        c = c + 1;
    }
    let mut k: usize = 0;
    while k < new_row.len()
        invariant
            0 <= k <= new_row@.len(),
            unit_row(new_row@, n as int),
            alpha <= ONE,
            one_minus_alpha == ONE - alpha,
            row@ =~= Seq::new(n as nat, |j: int| row_col_dot(new_row@.take(k as int), alpha as int, j) as i64),
            forall|j: int| 0 <= j < n ==> lo(alpha as int) <= #[trigger] row_col_dot(new_row@.take(k as int), alpha as int, j) <= hi(alpha as int),
        decreases new_row.len() - k,
    {
        let (j, v) = new_row[k];
        proof {
            assert(new_row@[k as int] == (j, v));
            assert(j < n && 0 <= v <= ONE);
            if alpha >= 0 {
                lemma_fmul_le(alpha as int, v as int);
            } else {
                lemma_fmul_neg(alpha as int, v as int);
            }
            lemma_unit_row_take(new_row@, n as int, k as int + 1);
            assert forall|c2: int| 0 <= c2 < n implies lo(alpha as int) <= #[trigger] row_col_dot(
                new_row@.take(k as int + 1),
                alpha as int,
                c2,
            ) <= hi(alpha as int) by {
                lemma_row_col_dot_unit(new_row@.take(k as int + 1), n as int, alpha as int, c2);
            }
            lemma_row_col_dot_take_step(new_row@, alpha as int, j as int, k as int);
        }
        let p = fx32_mul(alpha, v);
        let cur = row[j as usize];
        let sum = fx32_add(cur, p);
        row.set(j as usize, sum);
        proof {
            assert forall|c2: int| 0 <= c2 < n implies #[trigger] row@[c2] == row_col_dot(
                new_row@.take(k as int + 1),
                alpha as int,
                c2,
            ) as i64 by {
                lemma_row_col_dot_take_step(new_row@, alpha as int, c2, k as int);
            }
        }
        k = k + 1;
    }
    proof {
        assert(new_row@.take(new_row@.len() as int) =~= new_row@);
    }
    let ghost base = row@;
    let mut k: usize = 0;
    while k < old_row.len()
        invariant
            0 <= k <= old_row@.len(),
            unit_row(new_row@, n as int),
            unit_row(old_row@, n as int),
            alpha <= ONE,
            one_minus_alpha == ONE - alpha,
            row@ =~= Seq::new(
                n as nat,
                |j: int|
                    (row_col_dot(new_row@, alpha as int, j) + row_col_dot(
                        old_row@.take(k as int),
                        one_minus_alpha as int,
                        j,
                    )) as i64,
            ),
            forall|j: int| 0 <= j < n ==> lo(alpha as int) <= #[trigger] row_col_dot(new_row@, alpha as int, j) <= hi(alpha as int),
            forall|j: int|
                0 <= j < n ==> 0 <= #[trigger] row_col_dot(old_row@.take(k as int), one_minus_alpha as int, j)
                    <= one_minus_alpha,
        decreases old_row.len() - k,
    {
        let (j, v) = old_row[k];
        proof {
            assert(old_row@[k as int] == (j, v));
            assert(j < n && 0 <= v <= ONE);
            lemma_fmul_le(one_minus_alpha as int, v as int);
            lemma_unit_row_take(old_row@, n as int, k as int + 1);
            assert forall|c2: int| 0 <= c2 < n implies 0 <= #[trigger] row_col_dot(
                old_row@.take(k as int + 1),
                one_minus_alpha as int,
                c2,
            ) <= one_minus_alpha by {
                lemma_row_col_dot_unit(old_row@.take(k as int + 1), n as int, one_minus_alpha as int, c2);
            }
            lemma_row_col_dot_take_step(old_row@, one_minus_alpha as int, j as int, k as int);
        }
        let p = fx32_mul(one_minus_alpha, v);
        let cur = row[j as usize];
        let sum = fx32_add(cur, p);
        row.set(j as usize, sum);
        proof {
            assert forall|c2: int| 0 <= c2 < n implies #[trigger] row@[c2] == (row_col_dot(
                new_row@,
                alpha as int,
                c2,
            ) + row_col_dot(old_row@.take(k as int + 1), one_minus_alpha as int, c2)) as i64 by {
                lemma_row_col_dot_take_step(old_row@, one_minus_alpha as int, c2, k as int);
            }
        }
        k = k + 1;
    }
    proof {
        assert(old_row@.take(old_row@.len() as int) =~= old_row@);
        assert(row@ =~= ema_dense_row(new_row@, old_row@, alpha as int, n as int));
    }
    row
}

/// The moving average `alpha * new + (1 - alpha) * old` of two sparse
/// matrices of unit rows with as many columns as `new` has rows: row `i`
/// of the result holds the positive entries of the average of the rows
/// `i`, in column order.
pub fn mat_ema_sparse(
    new: &Vec<Vec<(u16, i64)>>,
    old: &Vec<Vec<(u16, i64)>>,
    alpha: i64,
) -> (r: Vec<Vec<(u16, i64)>>)
    requires
        new@.len() == old@.len(),
        unit_sparse(rows(new@), new@.len() as int),
        unit_sparse(rows(old@), new@.len() as int),
        alpha <= ONE,
        ONE - alpha <= i64::MAX,
    ensures
        rows(r@) == spec_mat_ema_sparse(rows(new@), rows(old@), alpha as int),
        new@.len() <= 65536 ==> forall|i: int|
            0 <= i < r@.len() ==> nonneg_row(#[trigger] rows(r@)[i], new@.len() as int),
        new@.len() <= 65536 && 0 <= alpha ==> unit_sparse(rows(r@), new@.len() as int),
{
    let n = new.len();
    let one_minus_alpha = fx32_sub(ONE, alpha);
    let mut result: Vec<Vec<(u16, i64)>> = Vec::new();
    let mut i: usize = 0;
    while i < n
        invariant
            0 <= i <= n,
            n == new@.len(),
            new@.len() == old@.len(),
            unit_sparse(rows(new@), n as int),
            unit_sparse(rows(old@), n as int),
            alpha <= ONE,
            one_minus_alpha == ONE - alpha,
            result@.len() == i,
            forall|a: int|
                0 <= a < i ==> #[trigger] result@[a]@ == spec_mat_ema_sparse(
                    rows(new@),
                    rows(old@),
                    alpha as int,
                )[a],
            n <= 65536 ==> forall|a: int| 0 <= a < i ==> nonneg_row(#[trigger] result@[a]@, n as int),
            n <= 65536 && 0 <= alpha ==> forall|a: int| 0 <= a < i ==> unit_row(#[trigger] result@[a]@, n as int),
        decreases n - i,
    {
        proof {
            assert(unit_row(rows(new@)[i as int], n as int));
            assert(unit_row(rows(old@)[i as int], n as int));
        }
        let row = ema_row(&new[i], &old[i], alpha, one_minus_alpha, n);
        let mut out: Vec<(u16, i64)> = Vec::new();
        let mut j: usize = 0;
        while j < n
            invariant
                0 <= j <= n,
                row@.len() == n,
                out@ == positive_entries(row@.take(j as int)),
            decreases n - j,
        {
            proof {
                lemma_positive_entries_take_step(row@, j as int);
            }
            let v = row[j];
            if v > 0 {
                out.push((j as u16, v));
            }
            proof {
                assert(out@ =~= positive_entries(row@.take(j as int + 1)));
            }
            j = j + 1;
        }
        proof {
            assert(row@.take(n as int) =~= row@);
            if n <= 65536 {
                lemma_positive_entries_pattern(row@);
                if 0 <= alpha {
                    lemma_positive_entries_unit(row@);
                }
            }
        }
        result.push(out);
        i = i + 1;
    }
    proof {
        assert(rows(result@) =~= spec_mat_ema_sparse(rows(new@), rows(old@), alpha as int));
        if n <= 65536 {
            assert forall|a: int| 0 <= a < result@.len() implies nonneg_row(#[trigger] rows(result@)[a], n as int) by {
                assert(rows(result@)[a] == result@[a]@);
            }
            if 0 <= alpha {
                assert forall|a: int| 0 <= a < result@.len() implies unit_row(#[trigger] rows(result@)[a], n as int) by {
                    assert(rows(result@)[a] == result@[a]@);
                }
            }
        }
    }
    result
}

} // verus!
