//! Dense matrices of fixed-point numbers, held row by row.

use crate::fixed::{fdiv, fits_i64, fmul, fx32_add, fx32_div, fx32_mul, fx32_sub, scale32, ONE};
use crate::sums::{bounded32, lemma_fdiv_unit, lemma_fmul_le, lemma_sum32_bounded, lemma_sum32_take_le, lemma_sum32_take_step, proportions, sum32, sums_fit32};
use crate::vector::{lemma_normalized_proportions, lemma_zero_sum_zeros};
use vstd::prelude::*;

verus! {

/// The rows of a dense matrix.
pub open spec fn dense_rows(m: Seq<Vec<i64>>) -> Seq<Seq<i64>> {
    Seq::new(m.len(), |i: int| m[i]@)
}

/// Every row has `cols` entries.
pub open spec fn rect(m: Seq<Seq<i64>>, cols: int) -> bool {
    forall|i: int| 0 <= i < m.len() ==> (#[trigger] m[i]).len() == cols
}

/// Every entry lies in `[0, 1]`.
pub open spec fn unit_dense(m: Seq<Seq<i64>>) -> bool {
    forall|i: int, j: int| 0 <= i < m.len() && 0 <= j < m[i].len() ==> 0 <= #[trigger] m[i][j] <= ONE
}

/// Every entry is nonnegative.
pub open spec fn nonneg_dense(m: Seq<Seq<i64>>) -> bool {
    forall|i: int, j: int| 0 <= i < m.len() && 0 <= j < m[i].len() ==> 0 <= #[trigger] m[i][j]
}

/// Whether the matrix has no rows, or its first row has no entries: the
/// matrices on which the dense operations do nothing.
pub open spec fn degenerate(m: Seq<Seq<i64>>) -> bool {
    m.len() == 0 || m[0].len() == 0
}

/// The matrix with its diagonal set to zero.
pub open spec fn diag_zeroed(m: Seq<Seq<i64>>) -> Seq<Seq<i64>> {
    if degenerate(m) {
        m
    } else {
        Seq::new(m.len(), |i: int| m[i].update(i, 0))
    }
}

/// The rows of a mask.
pub open spec fn mask_rows(mask: Seq<Vec<bool>>) -> Seq<Seq<bool>> {
    Seq::new(mask.len(), |i: int| mask[i]@)
}

/// The matrix with zero wherever the mask is set.
pub open spec fn mask_applied(mask: Seq<Seq<bool>>, m: Seq<Seq<i64>>) -> Seq<Seq<i64>> {
    if mask.len() == 0 || mask[0].len() == 0 {
        m
    } else {
        Seq::new(
            m.len(),
            |i: int| Seq::new(m[i].len(), |j: int| if j < mask[i].len() && mask[i][j] { 0 } else { m[i][j] }),
        )
    }
}

/// Each row divided by its sum, where that sum is positive.
pub open spec fn rows_normalized(m: Seq<Seq<i64>>) -> Seq<Seq<i64>> {
    Seq::new(
        m.len(),
        |i: int|
            if sum32(m[i]) > 0 {
                Seq::new(m[i].len(), |j: int| fdiv(m[i][j] as int, sum32(m[i])) as i64)
            } else {
                m[i]
            },
    )
}

/// The sum of column `j` over the first `rows` rows.
pub open spec fn dense_col_sum(m: Seq<Seq<i64>>, j: int, rows: int) -> int
    decreases rows,
{
    if rows <= 0 {
        0
    } else {
        dense_col_sum(m, j, rows - 1) + m[rows - 1][j]
    }
}

/// Each entry divided by the sum of its column, where that sum is not zero.
pub open spec fn cols_normalized(m: Seq<Seq<i64>>) -> Seq<Seq<i64>> {
    if degenerate(m) {
        m
    } else {
        Seq::new(
            m.len(),
            |i: int|
                Seq::new(
                    m[i].len(),
                    |j: int|
                        if dense_col_sum(m, j, m.len() as int) == 0 {
                            m[i][j]
                        } else {
                            fdiv(m[i][j] as int, dense_col_sum(m, j, m.len() as int)) as i64
                        },
                ),
        )
    }
}

/// Column `j` of `vector * m` over the first `rows` rows.
pub open spec fn dense_col_dot(m: Seq<Seq<i64>>, v: Seq<i64>, j: int, rows: int) -> int
    decreases rows,
{
    if rows <= 0 {
        0
    } else {
        dense_col_dot(m, v, j, rows - 1) + fmul(v[rows - 1] as int, m[rows - 1][j] as int)
    }
}

/// `vector * m`: `result[j] = SUM(i) vector[i] * m[i][j]`.
pub open spec fn spec_matmul(m: Seq<Seq<i64>>, v: Seq<i64>) -> Seq<i64> {
    if degenerate(m) {
        Seq::empty()
    } else {
        Seq::new(m[0].len(), |j: int| dense_col_dot(m, v, j, m.len() as int) as i64)
    }
}

/// The product of the first `cols` entries of a row with a vector.
pub open spec fn dense_row_dot(row: Seq<i64>, v: Seq<i64>, cols: int) -> int
    decreases cols,
{
    if cols <= 0 {
        0
    } else {
        dense_row_dot(row, v, cols - 1) + fmul(v[cols - 1] as int, row[cols - 1] as int)
    }
}

/// `m * vector`: `result[i] = SUM(j) vector[j] * m[i][j]`.
pub open spec fn spec_matmul_transpose(m: Seq<Seq<i64>>, v: Seq<i64>) -> Seq<i64> {
    if degenerate(m) {
        Seq::empty()
    } else {
        Seq::new(m.len(), |i: int| dense_row_dot(m[i], v, m[i].len() as int) as i64)
    }
}

/// Row `i` of `m` multiplied by `vector[i]`; a degenerate matrix gives one
/// empty row.
pub open spec fn spec_row_hadamard(m: Seq<Seq<i64>>, v: Seq<i64>) -> Seq<Seq<i64>> {
    if degenerate(m) {
        seq![Seq::empty()]
    } else {
        Seq::new(
            m.len(),
            |i: int| Seq::new(m[i].len(), |j: int| fmul(v[i] as int, m[i][j] as int) as i64),
        )
    }
}

/// The exponential moving average `alpha * new + (1 - alpha) * old`; a
/// degenerate `new` gives one empty row.
pub open spec fn spec_mat_ema(new: Seq<Seq<i64>>, old: Seq<Seq<i64>>, alpha: int) -> Seq<Seq<i64>> {
    if degenerate(new) {
        seq![Seq::empty()]
    } else {
        Seq::new(
            new.len(),
            |i: int|
                Seq::new(
                    new[i].len(),
                    |j: int|
                        (fmul(alpha, new[i][j] as int) + fmul(ONE - alpha, old[i][j] as int)) as i64,
                ),
        )
    }
}

/// Sets the diagonal of a square matrix to zero.
pub fn inplace_mask_diag(matrix: &mut Vec<Vec<i64>>)
    requires
        degenerate(dense_rows(old(matrix)@)) || rect(
            dense_rows(old(matrix)@),
            old(matrix)@.len() as int,
        ),
    ensures
        dense_rows(final(matrix)@) == diag_zeroed(dense_rows(old(matrix)@)),
{
    let ghost m0 = dense_rows(matrix@);
    if matrix.len() == 0 {
        return;
    }
    if matrix[0].len() == 0 {
        return;
    }
    let mut i: usize = 0;
    while i < matrix.len()
        invariant
            0 <= i <= matrix@.len(),
            matrix@.len() == m0.len(),
            !degenerate(m0),
            rect(m0, m0.len() as int),
            forall|a: int| 0 <= a < i ==> #[trigger] matrix@[a]@ == m0[a].update(a, 0),
            forall|a: int| i <= a < m0.len() ==> #[trigger] matrix@[a]@ == m0[a],
        decreases matrix.len() - i,
    {
        let ghost before = matrix@;
        proof {
            assert(matrix@[i as int]@.len() == m0.len());
        }
        matrix[i].set(i, 0);
        proof {
            assert forall|a: int| 0 <= a < m0.len() && a != i implies #[trigger] matrix@[a] == before[a] by {}
        }
        i = i + 1;
    }
    proof {
        assert(dense_rows(matrix@) =~= diag_zeroed(m0));
    }
}

/// Sets to zero each entry whose mask is set.
pub fn inplace_mask_matrix(mask: &Vec<Vec<bool>>, matrix: &mut Vec<Vec<i64>>)
    requires
        mask@.len() == 0 || mask@[0]@.len() == 0 || (mask@.len() == old(matrix)@.len() && forall|
            i: int,
        | 0 <= i < mask@.len() ==> (#[trigger] mask@[i])@.len() <= old(matrix)@[i]@.len()),
    ensures
        dense_rows(final(matrix)@) == mask_applied(mask_rows(mask@), dense_rows(old(matrix)@)),
{
    let ghost m0 = dense_rows(matrix@);
    let ghost mk = mask_rows(mask@);
    if mask.len() == 0 {
        proof {
            assert(dense_rows(matrix@) =~= mask_applied(mk, m0));
        }
        return;
    }
    if mask[0].len() == 0 {
        proof {
            assert(dense_rows(matrix@) =~= mask_applied(mk, m0));
        }
        return;
    }
    let mut i: usize = 0;
    while i < mask.len()
        invariant
            0 <= i <= mask@.len(),
            mk == mask_rows(mask@),
            mask@.len() == m0.len(),
            matrix@.len() == m0.len(),
            mask@.len() > 0 && mask@[0]@.len() > 0,
            forall|x: int| 0 <= x < mask@.len() ==> (#[trigger] mask@[x])@.len() <= m0[x].len(),
            forall|a: int| 0 <= a < i ==> #[trigger] matrix@[a]@ == mask_applied(mk, m0)[a],
            forall|a: int| i <= a < m0.len() ==> #[trigger] matrix@[a]@ == m0[a],
        decreases mask.len() - i,
    {
        let mask_row = &mask[i];
        let ghost row0 = m0[i as int];
        let ghost before = matrix@;
        let mut j: usize = 0;
        while j < mask_row.len()
            invariant
                0 <= j <= mask_row@.len(),
                i < mask@.len(),
                mask@.len() == m0.len(),
                mask_row@ == mask@[i as int]@,
                mask_row@.len() <= row0.len(),
                row0 == m0[i as int],
                matrix@.len() == m0.len(),
                before.len() == m0.len(),
                forall|a: int| 0 <= a < m0.len() && a != i ==> #[trigger] matrix@[a] == before[a],
                matrix@[i as int]@.len() == row0.len(),
                forall|c: int|
                    0 <= c < row0.len() ==> #[trigger] matrix@[i as int]@[c] == (if c < j
                        && mask_row@[c] {
                        0
                    } else {
                        row0[c]
                    }),
            decreases mask_row.len() - j,
        {
            if mask_row[j] {
                matrix[i].set(j, 0);
            }
            j = j + 1;
        }
        proof {
            assert(matrix@[i as int]@ =~= mask_applied(mk, m0)[i as int]);
        }
        i = i + 1;
    }
    proof {
        assert(dense_rows(matrix@) =~= mask_applied(mk, m0));
    }
}

/// Normalizes each row of a dense matrix so that it sums to one.  A row
/// whose sum is not positive is left as it is.
pub fn inplace_row_normalize(x: &mut Vec<Vec<i64>>)
    requires
        forall|i: int| 0 <= i < old(x)@.len() ==> sums_fit32(#[trigger] old(x)@[i]@),
        forall|i: int, j: int|
            0 <= i < old(x)@.len() && 0 <= j < old(x)@[i]@.len() && sum32(old(x)@[i]@) > 0
                ==> fits_i64(fdiv(#[trigger] old(x)@[i]@[j] as int, sum32(old(x)@[i]@))),
    ensures
        dense_rows(final(x)@) == rows_normalized(dense_rows(old(x)@)),
        nonneg_dense(dense_rows(old(x)@)) ==> unit_dense(dense_rows(final(x)@)) && forall|i: int|
            0 <= i < final(x)@.len() ==> proportions(#[trigger] final(x)@[i]@),
{
    let ghost m0 = dense_rows(x@);
    let mut result: Vec<Vec<i64>> = Vec::new();
    let mut i: usize = 0;
    while i < x.len()
        invariant
            0 <= i <= x@.len(),
            dense_rows(x@) == m0,
            forall|a: int| 0 <= a < m0.len() ==> sums_fit32(#[trigger] m0[a]),
            forall|a: int, j: int|
                0 <= a < m0.len() && 0 <= j < m0[a].len() && sum32(m0[a]) > 0 ==> fits_i64(
                    fdiv(#[trigger] m0[a][j] as int, sum32(m0[a])),
                ),
            result@.len() == i,
            forall|a: int| 0 <= a < i ==> #[trigger] result@[a]@ == rows_normalized(m0)[a],
        decreases x.len() - i,
    {
        let row = &x[i];
        proof {
            assert(row@ == m0[i as int]);
        }
        let row_sum = crate::vector::fixed_sum(row);
        let mut new_row: Vec<i64> = Vec::new();
        let mut j: usize = 0;
        while j < row.len()
            invariant
                0 <= j <= row@.len(),
                row@ == m0[i as int],
                i < m0.len(),
                row_sum == sum32(row@),
                forall|c: int|
                    0 <= c < row@.len() && sum32(row@) > 0 ==> fits_i64(
                        fdiv(#[trigger] row@[c] as int, sum32(row@)),
                    ),
                new_row@.len() == j,
                forall|c: int|
                    0 <= c < j ==> #[trigger] new_row@[c] == (if row_sum > 0 {
                        fdiv(row@[c] as int, row_sum as int)
                    } else {
                        row@[c] as int
                    }),
            decreases row.len() - j,
        {
            if row_sum > 0 {
                new_row.push(fx32_div(row[j], row_sum));
            } else {
                new_row.push(row[j]);
            }
            j = j + 1;
        }
        proof {
            assert(new_row@ =~= rows_normalized(m0)[i as int]);
        }
        result.push(new_row);
        i = i + 1;
    }
    proof {
        assert(dense_rows(result@) =~= rows_normalized(m0));
        if nonneg_dense(m0) {
            assert forall|a: int| 0 <= a < result@.len() implies proportions(#[trigger] result@[a]@) by {
                let r = m0[a];
                assert(bounded32(r, i64::MAX as int)) by {
                    assert forall|c: int| 0 <= c < r.len() implies 0 <= #[trigger] r[c] <= i64::MAX by {}
                }
                if sum32(r) > 0 {
                    lemma_normalized_proportions(r, result@[a]@, sum32(r));
                } else {
                    lemma_sum32_bounded(r, i64::MAX as int);
                    lemma_zero_sum_zeros(r);
                }
            }
            assert forall|a: int, c: int|
                0 <= a < result@.len() && 0 <= c < result@[a]@.len() implies 0
                    <= #[trigger] dense_rows(result@)[a][c] <= ONE by {
                assert(proportions(result@[a]@));
            }
        }
    }
    *x = result;
}

/// With nonnegative entries, the partial sums of column `j` grow with the
/// rows, and each entry is at most the column sum.
pub proof fn lemma_dense_col_sum_mono(m: Seq<Seq<i64>>, j: int, rows: int, total: int)
    requires
        nonneg_dense(m),
        rect(m, total),
        0 <= j < total,
        0 <= rows <= m.len(),
    ensures
        0 <= dense_col_sum(m, j, rows) <= dense_col_sum(m, j, m.len() as int),
        rows < m.len() ==> dense_col_sum(m, j, rows) + m[rows][j] <= dense_col_sum(
            m,
            j,
            m.len() as int,
        ),
    decreases m.len() - rows,
{
    lemma_dense_col_sum_nonneg(m, j, rows, total);
    if rows < m.len() {
        assert(m[rows].len() == total);
        lemma_dense_col_sum_mono(m, j, rows + 1, total);
    }
}

proof fn lemma_dense_col_sum_nonneg(m: Seq<Seq<i64>>, j: int, rows: int, total: int)
    requires
        nonneg_dense(m),
        rect(m, total),
        0 <= j < total,
        0 <= rows <= m.len(),
    ensures
        0 <= dense_col_sum(m, j, rows),
    decreases rows,
{
    if rows > 0 {
        assert(m[rows - 1].len() == total);
        lemma_dense_col_sum_nonneg(m, j, rows - 1, total);
    }
}

/// In a unit matrix, each column sums to at most the number of rows.
pub proof fn lemma_dense_col_sum_unit(m: Seq<Seq<i64>>, j: int, rows: int, total: int)
    requires
        unit_dense(m),
        rect(m, total),
        0 <= j < total,
        0 <= rows <= m.len(),
    ensures
        0 <= dense_col_sum(m, j, rows) <= rows * ONE,
    decreases rows,
{
    if rows > 0 {
        assert(m[rows - 1].len() == total);
        lemma_dense_col_sum_unit(m, j, rows - 1, total);
    }
}

/// Column `j` has entries of one sign, all nonnegative or all nonpositive,
/// and a sum that fits, above `i64::MIN`.
pub open spec fn col_ok(m: Seq<Seq<i64>>, j: int) -> bool {
    &&& col_one_sign(m, j)
    &&& i64::MIN < dense_col_sum(m, j, m.len() as int) <= i64::MAX
}

/// Column `j` has entries of one sign: all nonnegative or all nonpositive.
pub open spec fn col_one_sign(m: Seq<Seq<i64>>, j: int) -> bool {
    ||| forall|i: int| 0 <= i < m.len() ==> 0 <= #[trigger] m[i][j]
    ||| forall|i: int| 0 <= i < m.len() ==> #[trigger] m[i][j] <= 0
}

/// With a negative `alpha`, the partial column sums of the moving average
/// lie between `alpha` times those of `new`, less one unit per row, and
/// `1 - alpha` times those of `old`.
pub proof fn lemma_ema_dense_col_bounds(
    new: Seq<Seq<i64>>,
    old: Seq<Seq<i64>>,
    alpha: int,
    j: int,
    r: int,
    cols: int,
)
    requires
        !degenerate(new),
        rect(new, cols),
        rect(old, cols),
        old.len() == new.len(),
        unit_dense(new),
        unit_dense(old),
        alpha < 0,
        ONE - alpha <= i64::MAX,
        0 <= j < cols,
        0 <= r <= new.len(),
    ensures
        dense_col_sum(spec_mat_ema(new, old, alpha), j, r) * ONE <= (ONE - alpha) * dense_col_sum(
            old,
            j,
            r,
        ),
        dense_col_sum(spec_mat_ema(new, old, alpha), j, r) * ONE >= alpha * dense_col_sum(new, j, r)
            - r * ONE,
    decreases r,
{
    if r > 0 {
        let i = r - 1;
        lemma_ema_dense_col_bounds(new, old, alpha, j, i, cols);
        let e = spec_mat_ema(new, old, alpha);
        assert(new[i].len() == cols && old[i].len() == cols);
        let a = new[i][j] as int;
        let b = old[i][j] as int;
        crate::sparse_ema::lemma_fmul_neg(alpha, a);
        lemma_fmul_le(ONE - alpha, b);
        crate::sums::lemma_fmul_floor(ONE - alpha, b);
        crate::sums::lemma_fmul_floor(alpha, a);
        let fa = fmul(alpha, a);
        let fb = fmul(ONE - alpha, b);
        assert(e[i][j] == fa + fb);
        let x = dense_col_sum(e, j, i);
        let yb = dense_col_sum(old, j, i);
        let ya = dense_col_sum(new, j, i);
        assert((x + fa + fb) * ONE <= (ONE - alpha) * (yb + b)) by (nonlinear_arith)
            requires
                x * ONE <= (ONE - alpha) * yb,
                fa <= 0,
                fb * ONE <= (ONE - alpha) * b,
        ;
        assert((x + fa + fb) * ONE >= alpha * (ya + a) - (i + 1) * ONE) by (nonlinear_arith)
            requires
                x * ONE >= alpha * ya - i * ONE,
                fb >= 0,
                alpha * a < fa * ONE + ONE,
        ;
    }
}

/// With a negative `alpha`, a column of the moving average of one sign has
/// a sum that fits, when the columns of `new` and `old` sum to at most one
/// and there are at most `2^16` rows.
pub proof fn lemma_ema_dense_col_ok(new: Seq<Seq<i64>>, old: Seq<Seq<i64>>, alpha: int, j: int, cols: int)
    requires
        !degenerate(new),
        rect(new, cols),
        rect(old, cols),
        old.len() == new.len(),
        new.len() <= 65536,
        unit_dense(new),
        unit_dense(old),
        alpha < 0,
        ONE - alpha <= i64::MAX,
        0 <= j < cols,
        dense_col_sum(new, j, new.len() as int) <= ONE,
        dense_col_sum(old, j, new.len() as int) <= ONE,
        col_one_sign(spec_mat_ema(new, old, alpha), j),
    ensures
        col_ok(spec_mat_ema(new, old, alpha), j),
{
    let e = spec_mat_ema(new, old, alpha);
    let n = new.len() as int;
    lemma_ema_dense_col_bounds(new, old, alpha, j, n, cols);
    lemma_dense_col_sum_nonneg(new, j, n, cols);
    lemma_dense_col_sum_nonneg(old, j, n, cols);
    let x = dense_col_sum(e, j, n);
    let ya = dense_col_sum(new, j, n);
    let yb = dense_col_sum(old, j, n);
    assert(x <= ONE - alpha) by (nonlinear_arith)
        requires
            x * ONE <= (ONE - alpha) * yb,
            yb <= ONE,
            ONE - alpha > 0,
    ;
    assert(x > alpha - n - 1) by (nonlinear_arith)
        requires
            x * ONE >= alpha * ya - n * ONE,
            0 <= ya <= ONE,
            alpha < 0,
    ;
}

/// The matrix with column `j` of `m`, negated when `neg`, and zero
/// elsewhere.
pub open spec fn signed_col(m: Seq<Seq<i64>>, j: int, neg: bool) -> Seq<Seq<i64>> {
    Seq::new(
        m.len(),
        |i: int|
            Seq::new(
                m[i].len(),
                |c: int|
                    if c == j {
                        if neg {
                            (-m[i][j]) as i64
                        } else {
                            m[i][j]
                        }
                    } else {
                        0i64
                    },
            ),
    )
}

proof fn lemma_dense_col_sum_nonpos(m: Seq<Seq<i64>>, j: int, rows: int, cols: int)
    requires
        rect(m, cols),
        0 <= j < cols,
        0 <= rows <= m.len(),
        forall|i: int| 0 <= i < m.len() ==> #[trigger] m[i][j] <= 0,
    ensures
        dense_col_sum(m, j, rows) <= 0,
    decreases rows,
{
    if rows > 0 {
        lemma_dense_col_sum_nonpos(m, j, rows - 1, cols);
    }
}

/// With nonpositive entries in column `j`, its partial sums shrink with the
/// rows down to the column sum.
proof fn lemma_dense_col_sum_mono_nonpos(m: Seq<Seq<i64>>, j: int, rows: int, cols: int)
    requires
        rect(m, cols),
        0 <= j < cols,
        0 <= rows <= m.len(),
        forall|i: int| 0 <= i < m.len() ==> #[trigger] m[i][j] <= 0,
    ensures
        dense_col_sum(m, j, m.len() as int) <= dense_col_sum(m, j, rows) <= 0,
        rows < m.len() ==> dense_col_sum(m, j, m.len() as int) <= dense_col_sum(m, j, rows)
            + m[rows][j],
    decreases m.len() - rows,
{
    lemma_dense_col_sum_nonpos(m, j, rows, cols);
    if rows < m.len() {
        lemma_dense_col_sum_mono_nonpos(m, j, rows + 1, cols);
    }
}

proof fn lemma_signed_col_sum(m: Seq<Seq<i64>>, j: int, neg: bool, r: int, cols: int)
    requires
        rect(m, cols),
        0 <= j < cols,
        0 <= r <= m.len(),
        neg ==> forall|i: int| 0 <= i < m.len() ==> i64::MIN < #[trigger] m[i][j],
    ensures
        dense_col_sum(signed_col(m, j, neg), j, r) == (if neg {
            -dense_col_sum(m, j, r)
        } else {
            dense_col_sum(m, j, r)
        }),
    decreases r,
{
    if r > 0 {
        lemma_signed_col_sum(m, j, neg, r - 1, cols);
        assert(m[r - 1].len() == cols);
    }
}

/// Negating both operands leaves a quotient unchanged.
proof fn lemma_fdiv_neg(x: int, d: int)
    requires
        d != 0,
    ensures
        fdiv(-x, -d) == fdiv(x, d),
{
    assert((-x) * scale32() == -(x * scale32())) by (nonlinear_arith);
    vstd::arithmetic::div_mod::lemma_basic_div(0, crate::fixed::abs(d));
}

proof fn lemma_signed_cols_normalized(m: Seq<Seq<i64>>, j: int, neg: bool, cols: int, r: int)
    requires
        rect(m, cols),
        !degenerate(m),
        0 <= j < cols,
        0 <= r <= m.len(),
        neg ==> forall|i: int| 0 <= i < m.len() ==> i64::MIN < #[trigger] m[i][j] <= 0,
        neg && dense_col_sum(m, j, m.len() as int) == 0 ==> forall|i: int|
            0 <= i < m.len() ==> #[trigger] m[i][j] == 0,
    ensures
        dense_col_sum(cols_normalized(signed_col(m, j, neg)), j, r) == dense_col_sum(
            cols_normalized(m),
            j,
            r,
        ),
    decreases r,
{
    if r > 0 {
        lemma_signed_cols_normalized(m, j, neg, cols, r - 1);
        let ms = signed_col(m, j, neg);
        let i = r - 1;
        assert(m[i].len() == cols);
        assert(m[0].len() == cols);
        lemma_signed_col_sum(m, j, neg, m.len() as int, cols);
        if neg && dense_col_sum(m, j, m.len() as int) != 0 {
            lemma_fdiv_neg(m[i][j] as int, dense_col_sum(m, j, m.len() as int));
        }
    }
}

/// On a column of one sign whose sum fits, normalizing does not overflow:
/// the partial sums fit, each quotient lies in `[0, 1]` (each entry is zero
/// where the sum is), and the normalized column sums to at most one.
pub proof fn lemma_col_ok(m: Seq<Seq<i64>>, j: int, cols: int)
    requires
        rect(m, cols),
        !degenerate(m),
        0 <= j < cols,
        col_ok(m, j),
    ensures
        forall|r: int| 0 <= r <= m.len() ==> fits_i64(#[trigger] dense_col_sum(m, j, r)),
        forall|i: int|
            0 <= i < m.len() && dense_col_sum(m, j, m.len() as int) != 0 ==> 0 <= #[trigger] fdiv(
                m[i][j] as int,
                dense_col_sum(m, j, m.len() as int),
            ) <= ONE,
        forall|i: int|
            0 <= i < m.len() && dense_col_sum(m, j, m.len() as int) == 0 ==> #[trigger] m[i][j]
                == 0,
        dense_col_sum(cols_normalized(m), j, m.len() as int) <= ONE,
{
    let t = dense_col_sum(m, j, m.len() as int);
    if forall|i: int| 0 <= i < m.len() ==> 0 <= #[trigger] m[i][j] {
        let ms = signed_col(m, j, false);
        assert(rect(ms, cols)) by {
            assert forall|i: int| 0 <= i < ms.len() implies (#[trigger] ms[i]).len() == cols by {
                assert(m[i].len() == cols);
            }
        }
        assert(nonneg_dense(ms));
        assert(ms[0].len() == cols);
        lemma_signed_col_sum(m, j, false, m.len() as int, cols);
        assert forall|r: int| 0 <= r <= m.len() implies fits_i64(#[trigger] dense_col_sum(m, j, r)) by {
            lemma_dense_col_sum_mono(ms, j, r, cols);
            lemma_signed_col_sum(m, j, false, r, cols);
        }
        assert forall|i: int| 0 <= i < m.len() implies (t != 0 ==> 0 <= #[trigger] fdiv(
            m[i][j] as int,
            t,
        ) <= ONE) && (t == 0 ==> m[i][j] == 0) by {
            lemma_dense_col_sum_mono(ms, j, i, cols);
            lemma_signed_col_sum(m, j, false, i, cols);
            assert(ms[i][j] == m[i][j]);
            if t != 0 {
                lemma_fdiv_unit(m[i][j] as int, t);
            }
        }
        assert forall|i: int| 0 <= i < m.len() && t == 0 implies #[trigger] m[i][j] == 0 by {
            lemma_dense_col_sum_mono(ms, j, i, cols);
            lemma_signed_col_sum(m, j, false, i, cols);
            assert(ms[i][j] == m[i][j]);
        }
        lemma_cols_normalized_col_sum(ms, j, cols);
        lemma_signed_cols_normalized(m, j, false, cols, m.len() as int);
    } else {
        assert(forall|i: int| 0 <= i < m.len() ==> #[trigger] m[i][j] <= 0);
        assert forall|i: int| 0 <= i < m.len() implies i64::MIN < #[trigger] m[i][j] <= 0 && (t
            == 0 ==> m[i][j] == 0) by {
            lemma_dense_col_sum_mono_nonpos(m, j, i, cols);
        }
        let ms = signed_col(m, j, true);
        assert(rect(ms, cols)) by {
            assert forall|i: int| 0 <= i < ms.len() implies (#[trigger] ms[i]).len() == cols by {
                assert(m[i].len() == cols);
            }
        }
        assert(nonneg_dense(ms));
        assert(ms[0].len() == cols);
        lemma_signed_col_sum(m, j, true, m.len() as int, cols);
        assert forall|r: int| 0 <= r <= m.len() implies fits_i64(#[trigger] dense_col_sum(m, j, r)) by {
            lemma_dense_col_sum_mono_nonpos(m, j, r, cols);
        }
        assert forall|i: int| 0 <= i < m.len() && t != 0 implies 0 <= #[trigger] fdiv(
            m[i][j] as int,
            t,
        ) <= ONE by {
            lemma_dense_col_sum_mono(ms, j, i, cols);
            lemma_signed_col_sum(m, j, true, i, cols);
            assert(ms[i][j] == -m[i][j]);
            lemma_fdiv_unit(-m[i][j], -t);
            lemma_fdiv_neg(m[i][j] as int, t);
        }
        assert forall|i: int| 0 <= i < m.len() && t == 0 implies #[trigger] m[i][j] == 0 by {
            lemma_dense_col_sum_mono_nonpos(m, j, i, cols);
        }
        lemma_cols_normalized_col_sum(ms, j, cols);
        lemma_signed_cols_normalized(m, j, true, cols, m.len() as int);
    }
}

/// A nonnegative rectangular matrix whose column sums fit has every column
/// of one sign.
pub proof fn lemma_nonneg_cols_ok(m: Seq<Seq<i64>>, cols: int)
    requires
        rect(m, cols),
        nonneg_dense(m),
        forall|j: int| 0 <= j < cols ==> #[trigger] dense_col_sum(m, j, m.len() as int) <= i64::MAX,
    ensures
        forall|j: int| 0 <= j < cols ==> #[trigger] col_ok(m, j),
{
    assert forall|j: int| 0 <= j < cols implies #[trigger] col_ok(m, j) by {
        lemma_dense_col_sum_nonneg(m, j, m.len() as int, cols);
        assert forall|i: int| 0 <= i < m.len() implies 0 <= #[trigger] m[i][j] by {
            assert(m[i].len() == cols);
        }
    }
}

/// Normalizes each column of a rectangular dense matrix so that it sums to
/// one.  A column that sums to zero is left as it is.  The entries of each
/// column must be of one sign, and every column sum must fit.
pub fn inplace_col_normalize(x: &mut Vec<Vec<i64>>)
    requires
        !degenerate(dense_rows(old(x)@)) ==> rect(dense_rows(old(x)@), old(x)@[0]@.len() as int),
        !degenerate(dense_rows(old(x)@)) ==> forall|j: int|
            0 <= j < old(x)@[0]@.len() ==> #[trigger] col_ok(dense_rows(old(x)@), j),
    ensures
        dense_rows(final(x)@) == cols_normalized(dense_rows(old(x)@)),
        !degenerate(dense_rows(old(x)@)) ==> unit_dense(dense_rows(final(x)@)),
        !degenerate(dense_rows(old(x)@)) ==> forall|j: int|
            0 <= j < old(x)@[0]@.len() ==> #[trigger] dense_col_sum(
                dense_rows(final(x)@),
                j,
                old(x)@.len() as int,
            ) <= ONE,
{
    let ghost m0 = dense_rows(x@);
    if x.len() == 0 {
        return;
    }
    if x[0].len() == 0 {
        return;
    }
    let cols = x[0].len();
    let n = x.len();
    let mut col_sum: Vec<i64> = Vec::new();
    let mut c: usize = 0;
    while c < cols
        invariant
            0 <= c <= cols,
            col_sum@.len() == c,
            forall|y: int| 0 <= y < c ==> #[trigger] col_sum@[y] == 0,
        decreases cols - c,
    {
        col_sum.push(0);
        c = c + 1;
    }
    let mut i: usize = 0;
    while i < n
        invariant
            0 <= i <= n,
            n == m0.len(),
            dense_rows(x@) == m0,
            cols == m0[0].len(),
            !degenerate(m0),
            rect(m0, cols as int),
            forall|j: int| 0 <= j < cols ==> #[trigger] col_ok(m0, j),
            col_sum@.len() == cols,
            forall|y: int| 0 <= y < cols ==> #[trigger] col_sum@[y] == dense_col_sum(m0, y, i as int),
        decreases n - i,
    {
        let row = &x[i];
        proof {
            assert(row@ == m0[i as int]);
            assert(row@.len() == cols);
        }
        let mut j: usize = 0;
        while j < cols
            invariant
                0 <= j <= cols,
                i < n,
                n == m0.len(),
                row@ == m0[i as int],
                row@.len() == cols,
                !degenerate(m0),
                rect(m0, cols as int),
                forall|y: int| 0 <= y < cols ==> #[trigger] col_ok(m0, y),
                col_sum@.len() == cols,
                forall|y: int|
                    0 <= y < cols ==> #[trigger] col_sum@[y] == dense_col_sum(m0, y, i as int) + (if y
                        < j {
                        row@[y] as int
                    } else {
                        0
                    }),
            decreases cols - j,
        {
            proof {
                lemma_col_ok(m0, j as int, cols as int);
                assert(fits_i64(dense_col_sum(m0, j as int, i as int + 1)));
            }
            let updated = fx32_add(col_sum[j], row[j]);
            col_sum.set(j, updated);
            j = j + 1;
        }
        i = i + 1;
    }
    let mut result: Vec<Vec<i64>> = Vec::new();
    let mut i: usize = 0;
    while i < n
        invariant
            0 <= i <= n,
            n == m0.len(),
            dense_rows(x@) == m0,
            !degenerate(m0),
            cols == m0[0].len(),
            rect(m0, cols as int),
            forall|y: int| 0 <= y < cols ==> #[trigger] col_ok(m0, y),
            col_sum@.len() == cols,
            forall|y: int| 0 <= y < cols ==> #[trigger] col_sum@[y] == dense_col_sum(m0, y, n as int),
            result@.len() == i,
            forall|a: int| 0 <= a < i ==> #[trigger] result@[a]@ == cols_normalized(m0)[a],
        decreases n - i,
    {
        let row = &x[i];
        proof {
            assert(row@ == m0[i as int]);
            assert(row@.len() == cols);
        }
        let mut new_row: Vec<i64> = Vec::new();
        let mut j: usize = 0;
        while j < cols
            invariant
                0 <= j <= cols,
                i < n,
                n == m0.len(),
                row@ == m0[i as int],
                row@.len() == cols,
                !degenerate(m0),
                rect(m0, cols as int),
                forall|y: int| 0 <= y < cols ==> #[trigger] col_ok(m0, y),
                col_sum@.len() == cols,
                forall|y: int| 0 <= y < cols ==> #[trigger] col_sum@[y] == dense_col_sum(m0, y, n as int),
                new_row@.len() == j,
                forall|y: int|
                    0 <= y < j ==> #[trigger] new_row@[y] == (if col_sum@[y] == 0 {
                        row@[y] as int
                    } else {
                        fdiv(row@[y] as int, col_sum@[y] as int)
                    }),
            decreases cols - j,
        {
            if col_sum[j] == 0 {
                new_row.push(row[j]);
            } else {
                proof {
                    lemma_col_ok(m0, j as int, cols as int);
                    assert(row@[j as int] == m0[i as int][j as int]);
                }
                new_row.push(fx32_div(row[j], col_sum[j]));
            }
            j = j + 1;
        }
        proof {
            assert(new_row@ =~= cols_normalized(m0)[i as int]);
        }
        result.push(new_row);
        i = i + 1;
    }
    proof {
        assert(dense_rows(result@) =~= cols_normalized(m0));
        assert forall|j: int| 0 <= j < cols implies #[trigger] dense_col_sum(
            dense_rows(result@),
            j,
            n as int,
        ) <= ONE by {
            lemma_col_ok(m0, j, cols as int);
        }
        assert forall|a: int, y: int|
            0 <= a < result@.len() && 0 <= y < dense_rows(result@)[a].len() implies 0
                <= #[trigger] dense_rows(result@)[a][y] <= ONE by {
            assert(m0[a].len() == cols);
            lemma_col_ok(m0, y, cols as int);
        }
    }
    *x = result;
}

/// Column `j` of `vector * m` over the first rows is at most the sum of
/// the first elements of `vector`.
pub proof fn lemma_dense_col_dot_bound(m: Seq<Seq<i64>>, v: Seq<i64>, j: int, rows: int, cols: int)
    requires
        unit_dense(m),
        rect(m, cols),
        0 <= j < cols,
        bounded32(v, i64::MAX as int),
        m.len() == v.len(),
        0 <= rows <= m.len(),
    ensures
        0 <= dense_col_dot(m, v, j, rows) <= sum32(v.take(rows)),
    decreases rows,
{
    if rows > 0 {
        lemma_dense_col_dot_bound(m, v, j, rows - 1, cols);
        lemma_sum32_take_step(v, rows - 1);
        assert(m[rows - 1].len() == cols);
        lemma_fmul_le(v[rows - 1] as int, m[rows - 1][j] as int);
    } else {
        assert(v.take(0) =~= Seq::<i64>::empty());
    }
}

/// Computes `vector * m` for a rectangular dense matrix:
/// `result[j] = SUM(i) vector[i] * m[i][j]`.
pub fn matmul(matrix: &Vec<Vec<i64>>, vector: &Vec<i64>) -> (r: Vec<i64>)
    requires
        !degenerate(dense_rows(matrix@)) ==> rect(dense_rows(matrix@), matrix@[0]@.len() as int)
            && matrix@.len() == vector@.len(),
        unit_dense(dense_rows(matrix@)),
        bounded32(vector@, i64::MAX as int),
        sum32(vector@) <= i64::MAX,
    ensures
        r@ == spec_matmul(dense_rows(matrix@), vector@),
        bounded32(r@, sum32(vector@)),
{
    let ghost m = dense_rows(matrix@);
    if matrix.len() == 0 {
        let r: Vec<i64> = Vec::new();
        proof {
            assert(r@ =~= spec_matmul(m, vector@));
        }
        return r;
    }
    if matrix[0].len() == 0 {
        let r: Vec<i64> = Vec::new();
        proof {
            assert(r@ =~= spec_matmul(m, vector@));
        }
        return r;
    }
    let cols = matrix[0].len();
    let mut result: Vec<i64> = Vec::new();
    let mut c: usize = 0;
    while c < cols
        invariant
            0 <= c <= cols,
            result@.len() == c,
            forall|y: int| 0 <= y < c ==> #[trigger] result@[y] == 0,
        decreases cols - c,
    {
        result.push(0);
        c = c + 1;
    }
    let mut i: usize = 0;
    while i < matrix.len()
        invariant
            0 <= i <= m.len(),
            m == dense_rows(matrix@),
            !degenerate(m),
            cols == m[0].len(),
            rect(m, cols as int),
            unit_dense(m),
            m.len() == vector@.len(),
            bounded32(vector@, i64::MAX as int),
            sum32(vector@) <= i64::MAX,
            result@.len() == cols,
            forall|y: int| 0 <= y < cols ==> #[trigger] result@[y] == dense_col_dot(m, vector@, y, i as int),
        decreases m.len() - i,
    {
        let row = &matrix[i];
        let s = vector[i];
        proof {
            assert(row@ == m[i as int]);
            assert(row@.len() == cols);
        }
        let mut j: usize = 0;
        while j < row.len()
            invariant
                0 <= j <= cols,
                i < m.len(),
                row@ == m[i as int],
                row@.len() == cols,
                s == vector@[i as int],
                rect(m, cols as int),
                unit_dense(m),
                m.len() == vector@.len(),
                bounded32(vector@, i64::MAX as int),
                sum32(vector@) <= i64::MAX,
                result@.len() == cols,
                forall|y: int|
                    0 <= y < cols ==> #[trigger] result@[y] == dense_col_dot(m, vector@, y, i as int)
                        + (if y < j {
                        fmul(s as int, row@[y] as int)
                    } else {
                        0
                    }),
            decreases cols - j,
        {
            proof {
                lemma_dense_col_dot_bound(m, vector@, j as int, i as int + 1, cols as int);
                lemma_sum32_take_le(vector@, i as int + 1);
                lemma_fmul_le(s as int, row@[j as int] as int);
            }
            let p = fx32_mul(s, row[j]);
            let updated = fx32_add(result[j], p);
            result.set(j, updated);
            j = j + 1;
        }
        i = i + 1;
    }
    proof {
        assert(result@ =~= spec_matmul(m, vector@));
        assert forall|y: int| 0 <= y < result@.len() implies 0 <= #[trigger] result@[y] <= sum32(
            vector@,
        ) by {
            lemma_dense_col_dot_bound(m, vector@, y, m.len() as int, cols as int);
            lemma_sum32_take_le(vector@, m.len() as int);
        }
    }
    result
}

/// The product of the first entries of a unit row with a vector is at most
/// the sum of the first elements of the vector.
pub proof fn lemma_dense_row_dot_bound(row: Seq<i64>, v: Seq<i64>, cols: int)
    requires
        forall|j: int| 0 <= j < row.len() ==> 0 <= #[trigger] row[j] <= ONE,
        bounded32(v, i64::MAX as int),
        row.len() == v.len(),
        0 <= cols <= row.len(),
    ensures
        0 <= dense_row_dot(row, v, cols) <= sum32(v.take(cols)),
    decreases cols,
{
    if cols > 0 {
        lemma_dense_row_dot_bound(row, v, cols - 1);
        lemma_sum32_take_step(v, cols - 1);
        lemma_fmul_le(v[cols - 1] as int, row[cols - 1] as int);
    } else {
        assert(v.take(0) =~= Seq::<i64>::empty());
    }
}

/// Computes `m * vector` for a rectangular dense matrix:
/// `result[i] = SUM(j) vector[j] * m[i][j]`.
pub fn matmul_transpose(matrix: &Vec<Vec<i64>>, vector: &Vec<i64>) -> (r: Vec<i64>)
    requires
        !degenerate(dense_rows(matrix@)) ==> rect(dense_rows(matrix@), vector@.len() as int),
        unit_dense(dense_rows(matrix@)),
        bounded32(vector@, i64::MAX as int),
        sum32(vector@) <= i64::MAX,
    ensures
        r@ == spec_matmul_transpose(dense_rows(matrix@), vector@),
        bounded32(r@, sum32(vector@)),
{
    let ghost m = dense_rows(matrix@);
    if matrix.len() == 0 {
        let r: Vec<i64> = Vec::new();
        proof {
            assert(r@ =~= spec_matmul_transpose(m, vector@));
        }
        return r;
    }
    if matrix[0].len() == 0 {
        let r: Vec<i64> = Vec::new();
        proof {
            assert(r@ =~= spec_matmul_transpose(m, vector@));
        }
        return r;
    }
    let mut result: Vec<i64> = Vec::new();
    let mut i: usize = 0;
    while i < matrix.len()
        invariant
            0 <= i <= m.len(),
            m == dense_rows(matrix@),
            !degenerate(m),
            rect(m, vector@.len() as int),
            unit_dense(m),
            bounded32(vector@, i64::MAX as int),
            sum32(vector@) <= i64::MAX,
            result@.len() == i,
            forall|a: int| 0 <= a < i ==> #[trigger] result@[a] == dense_row_dot(m[a], vector@, m[a].len() as int),
            forall|a: int| 0 <= a < i ==> 0 <= #[trigger] result@[a] <= sum32(vector@),
        decreases m.len() - i,
    {
        let row = &matrix[i];
        proof {
            assert(row@ == m[i as int]);
            assert(row@.len() == vector@.len());
            assert forall|j: int| 0 <= j < row@.len() implies 0 <= #[trigger] row@[j] <= ONE by {
                assert(row@[j] == m[i as int][j]);
            }
        }
        let mut acc: i64 = 0;
        let mut j: usize = 0;
        while j < row.len()
            invariant
                0 <= j <= row@.len(),
                row@.len() == vector@.len(),
                forall|y: int| 0 <= y < row@.len() ==> 0 <= #[trigger] row@[y] <= ONE,
                bounded32(vector@, i64::MAX as int),
                sum32(vector@) <= i64::MAX,
                acc == dense_row_dot(row@, vector@, j as int),
            decreases row.len() - j,
        {
            proof {
                lemma_dense_row_dot_bound(row@, vector@, j as int + 1);
                lemma_sum32_take_le(vector@, j as int + 1);
                lemma_fmul_le(vector@[j as int] as int, row@[j as int] as int);
            }
            let p = fx32_mul(vector[j], row[j]);
            acc = fx32_add(acc, p);
            j = j + 1;
        }
        proof {
            lemma_dense_row_dot_bound(row@, vector@, row@.len() as int);
            lemma_sum32_take_le(vector@, row@.len() as int);
        }
        result.push(acc);
        i = i + 1;
    }
    proof {
        assert(result@ =~= spec_matmul_transpose(m, vector@));
    }
    result
}

/// Multiplies row `i` of a rectangular dense matrix by `vector[i]`; a
/// degenerate matrix gives one empty row.
pub fn row_hadamard(matrix: &Vec<Vec<i64>>, vector: &Vec<i64>) -> (r: Vec<Vec<i64>>)
    requires
        !degenerate(dense_rows(matrix@)) ==> rect(dense_rows(matrix@), matrix@[0]@.len() as int)
            && matrix@.len() <= vector@.len(),
        forall|i: int, j: int|
            0 <= i < matrix@.len() && 0 <= j < matrix@[i]@.len() ==> fits_i64(
                fmul(vector@[i] as int, #[trigger] matrix@[i]@[j] as int),
            ),
    ensures
        dense_rows(r@) == spec_row_hadamard(dense_rows(matrix@), vector@),
        unit_dense(dense_rows(matrix@)) && bounded32(vector@, ONE as int) ==> unit_dense(
            dense_rows(r@),
        ),
{
    let ghost m = dense_rows(matrix@);
    if matrix.len() == 0 || matrix[0].len() == 0 {
        let mut r: Vec<Vec<i64>> = Vec::new();
        r.push(Vec::new());
        proof {
            assert(dense_rows(r@) =~= spec_row_hadamard(m, vector@));
        }
        return r;
    }
    let mut result: Vec<Vec<i64>> = Vec::new();
    let mut i: usize = 0;
    while i < matrix.len()
        invariant
            0 <= i <= m.len(),
            m == dense_rows(matrix@),
            !degenerate(m),
            rect(m, m[0].len() as int),
            m.len() <= vector@.len(),
            forall|a: int, j: int|
                0 <= a < m.len() && 0 <= j < m[a].len() ==> fits_i64(
                    fmul(vector@[a] as int, #[trigger] m[a][j] as int),
                ),
            result@.len() == i,
            forall|a: int| 0 <= a < i ==> #[trigger] result@[a]@ == spec_row_hadamard(m, vector@)[a],
        decreases m.len() - i,
    {
        let row = &matrix[i];
        let s = vector[i];
        proof {
            assert(row@ == m[i as int]);
        }
        let mut new_row: Vec<i64> = Vec::new();
        let mut j: usize = 0;
        while j < row.len()
            invariant
                0 <= j <= row@.len(),
                i < m.len(),
                row@ == m[i as int],
                s == vector@[i as int],
                forall|a: int, y: int|
                    0 <= a < m.len() && 0 <= y < m[a].len() ==> fits_i64(
                        fmul(vector@[a] as int, #[trigger] m[a][y] as int),
                    ),
                new_row@ =~= Seq::new(
                    row@.len(),
                    |y: int| fmul(s as int, row@[y] as int) as i64,
                ).take(j as int),
            decreases row.len() - j,
        {
            proof {
                assert(fits_i64(fmul(vector@[i as int] as int, m[i as int][j as int] as int)));
            }
            new_row.push(fx32_mul(s, row[j]));
            j = j + 1;
        }
        proof {
            assert(new_row@ =~= spec_row_hadamard(m, vector@)[i as int]);
        }
        result.push(new_row);
        i = i + 1;
    }
    proof {
        assert(dense_rows(result@) =~= spec_row_hadamard(m, vector@));
        if unit_dense(m) && bounded32(vector@, ONE as int) {
            assert forall|a: int, y: int|
                0 <= a < result@.len() && 0 <= y < dense_rows(result@)[a].len() implies 0
                    <= #[trigger] dense_rows(result@)[a][y] <= ONE by {
                lemma_fmul_le(m[a][y] as int, vector@[a] as int);
                assert(fmul(m[a][y] as int, vector@[a] as int) == fmul(vector@[a] as int, m[a][y] as int)) by (nonlinear_arith);
            }
        }
    }
    result
}

/// Computes the exponential moving average `alpha * new + (1 - alpha) * old`
/// of two matrices of the same rectangular shape; a degenerate `new` gives
/// one empty row.
pub fn mat_ema(new: &Vec<Vec<i64>>, old: &Vec<Vec<i64>>, alpha: i64) -> (r: Vec<Vec<i64>>)
    requires
        !degenerate(dense_rows(new@)) ==> rect(dense_rows(new@), new@[0]@.len() as int)
            && old@.len() == new@.len() && rect(dense_rows(old@), new@[0]@.len() as int),
        alpha <= ONE,
        ONE - alpha <= i64::MAX,
        unit_dense(dense_rows(new@)),
        unit_dense(dense_rows(old@)),
    ensures
        dense_rows(r@) == spec_mat_ema(dense_rows(new@), dense_rows(old@), alpha as int),
        0 <= alpha ==> unit_dense(dense_rows(r@)),
{
    let ghost mn = dense_rows(new@);
    let ghost mo = dense_rows(old@);
    if new.len() == 0 || new[0].len() == 0 {
        let mut r: Vec<Vec<i64>> = Vec::new();
        r.push(Vec::new());
        proof {
            assert(dense_rows(r@) =~= spec_mat_ema(mn, mo, alpha as int));
        }
        return r;
    }
    let one_minus_alpha = fx32_sub(ONE, alpha);
    let mut result: Vec<Vec<i64>> = Vec::new();
    let mut i: usize = 0;
    while i < new.len()
        invariant
            0 <= i <= mn.len(),
            mn == dense_rows(new@),
            mo == dense_rows(old@),
            !degenerate(mn),
            rect(mn, mn[0].len() as int),
            rect(mo, mn[0].len() as int),
            mo.len() == mn.len(),
            alpha <= ONE,
            one_minus_alpha == ONE - alpha,
            unit_dense(mn),
            unit_dense(mo),
            result@.len() == i,
            forall|a: int| 0 <= a < i ==> #[trigger] result@[a]@ == spec_mat_ema(mn, mo, alpha as int)[a],
            0 <= alpha ==> forall|a: int, y: int|
                0 <= a < i && 0 <= y < result@[a]@.len() ==> 0 <= #[trigger] result@[a]@[y] <= ONE,
        decreases mn.len() - i,
    {
        let new_row = &new[i];
        let old_row = &old[i];
        proof {
            assert(new_row@ == mn[i as int]);
            assert(old_row@ == mo[i as int]);
            assert(new_row@.len() == old_row@.len());
        }
        let mut row: Vec<i64> = Vec::new();
        let mut j: usize = 0;
        while j < new_row.len()
            invariant
                0 <= j <= new_row@.len(),
                new_row@.len() == old_row@.len(),
                i < mn.len(),
                mo.len() == mn.len(),
                new_row@ == mn[i as int],
                old_row@ == mo[i as int],
                alpha <= ONE,
                one_minus_alpha == ONE - alpha,
                unit_dense(mn),
                unit_dense(mo),
                row@ =~= Seq::new(
                    new_row@.len(),
                    |y: int|
                        (fmul(alpha as int, new_row@[y] as int) + fmul(
                            ONE - alpha,
                            old_row@[y] as int,
                        )) as i64,
                ).take(j as int),
                0 <= alpha ==> forall|y: int| 0 <= y < j ==> 0 <= #[trigger] row@[y] <= ONE,
            decreases new_row.len() - j,
        {
            let a = new_row[j];
            let b = old_row[j];
            proof {
                assert(0 <= a <= ONE && 0 <= b <= ONE) by {
                    assert(a == mn[i as int][j as int]);
                    assert(b == mo[i as int][j as int]);
                }
                if alpha >= 0 {
                    lemma_fmul_le(alpha as int, a as int);
                } else {
                    crate::sparse_ema::lemma_fmul_neg(alpha as int, a as int);
                }
                lemma_fmul_le(one_minus_alpha as int, b as int);
            }
            let x = fx32_mul(alpha, a);
            let y = fx32_mul(one_minus_alpha, b);
            row.push(fx32_add(x, y));
            j = j + 1;
        }
        proof {
            assert(row@ =~= spec_mat_ema(mn, mo, alpha as int)[i as int]);
        }
        result.push(row);
        i = i + 1;
    }
    proof {
        assert(dense_rows(result@) =~= spec_mat_ema(mn, mo, alpha as int));
    }
    result
}

/// Zeroing the diagonal keeps an `n` by `n` unit matrix one.
pub proof fn lemma_diag_zeroed_unit(m: Seq<Seq<i64>>, n: int)
    requires
        m.len() == n,
        rect(m, n),
        unit_dense(m),
    ensures
        diag_zeroed(m).len() == n,
        rect(diag_zeroed(m), n),
        unit_dense(diag_zeroed(m)),
{
    let d = diag_zeroed(m);
    if !degenerate(m) {
        assert forall|i: int| 0 <= i < d.len() implies (#[trigger] d[i]).len() == n by {}
        assert forall|i: int, j: int| 0 <= i < d.len() && 0 <= j < d[i].len() implies 0
            <= #[trigger] d[i][j] <= ONE by {
            if i != j {
                assert(d[i][j] == m[i][j]);
            }
        }
    }
}

/// Masking keeps a rectangular unit matrix one.
pub proof fn lemma_mask_applied_unit(mask: Seq<Seq<bool>>, m: Seq<Seq<i64>>, n: int)
    requires
        rect(m, n),
        unit_dense(m),
    ensures
        mask_applied(mask, m).len() == m.len(),
        rect(mask_applied(mask, m), n),
        unit_dense(mask_applied(mask, m)),
{
    let d = mask_applied(mask, m);
    if !(mask.len() == 0 || mask[0].len() == 0) {
        assert forall|i: int| 0 <= i < d.len() implies (#[trigger] d[i]).len() == n by {}
        assert forall|i: int, j: int| 0 <= i < d.len() && 0 <= j < d[i].len() implies 0
            <= #[trigger] d[i][j] <= ONE by {}
    }
}

/// Normalizing rows keeps the shape of a rectangular matrix.
pub proof fn lemma_rows_normalized_shape(m: Seq<Seq<i64>>, n: int)
    requires
        rect(m, n),
    ensures
        rows_normalized(m).len() == m.len(),
        rect(rows_normalized(m), n),
{
    let d = rows_normalized(m);
    assert forall|i: int| 0 <= i < d.len() implies (#[trigger] d[i]).len() == n by {}
}

/// Normalizing columns keeps the shape of a rectangular matrix.
pub proof fn lemma_cols_normalized_shape(m: Seq<Seq<i64>>, n: int)
    requires
        rect(m, n),
    ensures
        cols_normalized(m).len() == m.len(),
        rect(cols_normalized(m), n),
        degenerate(m) ==> cols_normalized(m) == m,
{
    let d = cols_normalized(m);
    assert forall|i: int| 0 <= i < d.len() implies (#[trigger] d[i]).len() == n by {}
}

/// A unit matrix with at most `2^16` rows, all of `n` entries, can have
/// its columns normalized without overflow.
pub proof fn lemma_cols_normalize_ok(m: Seq<Seq<i64>>, n: int)
    requires
        rect(m, n),
        unit_dense(m),
        m.len() <= 65536,
    ensures
        nonneg_dense(m),
        forall|j: int| 0 <= j < n ==> #[trigger] dense_col_sum(m, j, m.len() as int) <= i64::MAX,
{
    assert forall|j: int| 0 <= j < n implies #[trigger] dense_col_sum(m, j, m.len() as int)
        <= i64::MAX by {
        lemma_dense_col_sum_unit(m, j, m.len() as int, n);
        assert(m.len() * ONE <= 65536 * ONE) by (nonlinear_arith)
            requires
                m.len() <= 65536,
        ;
    }
}

proof fn lemma_dense_col_sums_scaled(m: Seq<Seq<i64>>, j: int, rows: int, cols: int)
    requires
        !degenerate(m),
        rect(m, cols),
        nonneg_dense(m),
        0 <= j < cols,
        0 <= rows <= m.len(),
        dense_col_sum(m, j, m.len() as int) > 0,
    ensures
        dense_col_sum(cols_normalized(m), j, rows) * dense_col_sum(m, j, m.len() as int)
            <= dense_col_sum(m, j, rows) * ONE,
    decreases rows,
{
    if rows > 0 {
        let i = rows - 1;
        let s = dense_col_sum(m, j, m.len() as int);
        let c = cols_normalized(m);
        lemma_dense_col_sums_scaled(m, j, i, cols);
        assert(m[i].len() == cols);
        lemma_dense_col_sum_mono(m, j, i, cols);
        lemma_fdiv_unit(m[i][j] as int, s);
        let x = dense_col_sum(c, j, i);
        let y = dense_col_sum(m, j, i);
        let cv = c[i][j] as int;
        let mv = m[i][j] as int;
        assert(cv * s <= mv * ONE);
        assert((x + cv) * s <= (y + mv) * ONE) by (nonlinear_arith)
            requires
                x * s <= y * ONE,
                cv * s <= mv * ONE,
        ;
    }
}

proof fn lemma_dense_col_sums_same(m: Seq<Seq<i64>>, j: int, rows: int, cols: int)
    requires
        !degenerate(m),
        rect(m, cols),
        0 <= j < cols,
        0 <= rows <= m.len(),
        dense_col_sum(m, j, m.len() as int) == 0,
    ensures
        dense_col_sum(cols_normalized(m), j, rows) == dense_col_sum(m, j, rows),
    decreases rows,
{
    if rows > 0 {
        lemma_dense_col_sums_same(m, j, rows - 1, cols);
        assert(m[rows - 1].len() == cols);
    }
}

/// After normalizing the columns of a nonnegative rectangular matrix, each
/// column sums to at most one.
pub proof fn lemma_cols_normalized_col_sum(m: Seq<Seq<i64>>, j: int, cols: int)
    requires
        !degenerate(m),
        rect(m, cols),
        nonneg_dense(m),
        0 <= j < cols,
    ensures
        dense_col_sum(cols_normalized(m), j, m.len() as int) <= ONE,
{
    let s = dense_col_sum(m, j, m.len() as int);
    lemma_dense_col_sum_nonneg(m, j, m.len() as int, cols);
    if s == 0 {
        lemma_dense_col_sums_same(m, j, m.len() as int, cols);
    } else {
        lemma_dense_col_sums_scaled(m, j, m.len() as int, cols);
        let c = dense_col_sum(cols_normalized(m), j, m.len() as int);
        assert(c <= ONE) by (nonlinear_arith)
            requires
                c * s <= s * ONE,
                s > 0,
        ;
    }
}

} // verus!
