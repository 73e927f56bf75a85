//! Products of sparse matrices with vectors.

use crate::fixed::{fits_i64, fmul, fx32_add, fx32_mul, ONE};
use crate::sparse::{nonneg_sparse, rows, same_pattern, unit_row, unit_sparse};
use crate::sums::{bounded32, lemma_fmul_le, lemma_sum32_take_le, lemma_sum32_take_step, lemma_sum32_update, sum32};
use vstd::prelude::*;

verus! {

/// The contribution of one row to column `j` of `s * row`: the products of
/// `s` with the row's values in column `j`.
pub open spec fn row_col_dot(row: Seq<(u16, i64)>, s: int, j: int) -> int
    decreases row.len(),
{
    if row.len() == 0 {
        0
    } else {
        row_col_dot(row.drop_last(), s, j) + (if row.last().0 as int == j {
            fmul(s, row.last().1 as int)
        } else {
            0
        })
    }
}

/// Column `j` of `vector * m` over the first `rows` rows:
/// `SUM(i < rows) vector[i] * m[i][j]`.
pub open spec fn matmul_col_upto(m: Seq<Seq<(u16, i64)>>, vector: Seq<i64>, j: int, rows: int) -> int
    decreases rows,
{
    if rows <= 0 {
        0
    } else {
        matmul_col_upto(m, vector, j, rows - 1) + row_col_dot(
            m[rows - 1],
            vector[rows - 1] as int,
            j,
        )
    }
}

/// Column `j` of `vector * m`: `SUM(i) vector[i] * m[i][j]`.
pub open spec fn matmul_col(m: Seq<Seq<(u16, i64)>>, vector: Seq<i64>, j: int) -> int {
    matmul_col_upto(m, vector, j, m.len() as int)
}

/// The product of a row with a vector: `SUM(j) vector[j] * row[j]`.
pub open spec fn row_dot(row: Seq<(u16, i64)>, vector: Seq<i64>) -> int
    decreases row.len(),
{
    if row.len() == 0 {
        0
    } else {
        row_dot(row.drop_last(), vector) + fmul(
            vector[row.last().0 as int] as int,
            row.last().1 as int,
        )
    }
}

/// `vector * m` for a matrix with `cols` columns.
pub open spec fn spec_matmul_sparse(m: Seq<Seq<(u16, i64)>>, vector: Seq<i64>, cols: int) -> Seq<
    i64,
> {
    Seq::new(cols as nat, |j: int| matmul_col(m, vector, j) as i64)
}

/// `m * vector`.
pub open spec fn spec_matmul_transpose_sparse(m: Seq<Seq<(u16, i64)>>, vector: Seq<i64>) -> Seq<
    i64,
> {
    Seq::new(m.len(), |i: int| row_dot(m[i], vector) as i64)
}

/// Row `i` of `m` multiplied by `vector[i]`.
pub open spec fn spec_row_hadamard_sparse(m: Seq<Seq<(u16, i64)>>, vector: Seq<i64>) -> Seq<
    Seq<(u16, i64)>,
> {
    Seq::new(
        m.len(),
        |i: int|
            Seq::new(m[i].len(), |k: int| (m[i][k].0, fmul(m[i][k].1 as int, vector[i] as int) as i64)),
    )
}

/// The sum of the first `rows` elements of `v`, or of all of `v` when it is
/// shorter.
pub open spec fn prefix_sum(v: Seq<i64>, rows: int) -> int {
    if rows <= v.len() {
        sum32(v.take(rows))
    } else {
        sum32(v)
    }
}

pub proof fn lemma_unit_row_take(row: Seq<(u16, i64)>, cols: int, k: int)
    requires
        unit_row(row, cols),
        0 <= k <= row.len(),
    ensures
        unit_row(row.take(k), cols),
{
    let t = row.take(k);
    assert forall|a: int, b: int| 0 <= a < b < t.len() implies #[trigger] t[a].0
        != #[trigger] t[b].0 by {
        assert(t[a] == row[a] && t[b] == row[b]);
    }
    assert forall|c: int| 0 <= c < t.len() implies (#[trigger] t[c]).0 < cols && 0 <= t[c].1
        <= ONE by {
        assert(t[c] == row[c]);
    }
}

pub proof fn lemma_unit_row_drop_last(row: Seq<(u16, i64)>, cols: int)
    requires
        unit_row(row, cols),
        row.len() > 0,
    ensures
        unit_row(row.drop_last(), cols),
{
    lemma_unit_row_take(row, cols, row.len() - 1);
    assert(row.drop_last() =~= row.take(row.len() - 1));
}

pub proof fn lemma_row_col_dot_take_step(row: Seq<(u16, i64)>, s: int, j: int, k: int)
    requires
        0 <= k < row.len(),
    ensures
        row_col_dot(row.take(k + 1), s, j) == row_col_dot(row.take(k), s, j) + (if row[k].0 as int
            == j {
            fmul(s, row[k].1 as int)
        } else {
            0
        }),
{
    assert(row.take(k + 1).drop_last() =~= row.take(k));
}

pub proof fn lemma_row_dot_take_step(row: Seq<(u16, i64)>, v: Seq<i64>, k: int)
    requires
        0 <= k < row.len(),
    ensures
        row_dot(row.take(k + 1), v) == row_dot(row.take(k), v) + fmul(
            v[row[k].0 as int] as int,
            row[k].1 as int,
        ),
{
    assert(row.take(k + 1).drop_last() =~= row.take(k));
}

/// A unit row contributes at most `s` to each column of `s * row`; nothing
/// to a column it does not list.
pub proof fn lemma_row_col_dot_bound(row: Seq<(u16, i64)>, cols: int, s: int, j: int)
    requires
        unit_row(row, cols),
        0 <= s,
    ensures
        0 <= row_col_dot(row, s, j) <= s,
        (forall|c: int| 0 <= c < row.len() ==> (#[trigger] row[c]).0 as int != j) ==> row_col_dot(
            row,
            s,
            j,
        ) == 0,
    decreases row.len(),
{
    if row.len() > 0 {
        let rest = row.drop_last();
        lemma_unit_row_drop_last(row, cols);
        lemma_row_col_dot_bound(rest, cols, s, j);
        assert(row.last() == row[row.len() - 1]);
        lemma_fmul_le(s, row[row.len() - 1].1 as int);
        if row.last().0 as int == j {
            assert forall|c: int| 0 <= c < rest.len() implies (#[trigger] rest[c]).0 as int != j by {
                assert(rest[c] == row[c]);
                assert(row[c].0 != row[row.len() - 1].0);
            }
            assert(row_col_dot(rest, s, j) == 0);
        }
        if forall|c: int| 0 <= c < row.len() ==> (#[trigger] row[c]).0 as int != j {
            assert forall|c: int| 0 <= c < rest.len() implies (#[trigger] rest[c]).0 as int != j by {
                assert(rest[c] == row[c]);
            }
            assert(row[row.len() - 1].0 as int != j);
        }
    }
}

/// The contributions of the prefixes of a row grow up to that of the row.
pub proof fn lemma_row_col_dot_mono(row: Seq<(u16, i64)>, cols: int, s: int, j: int, k: int)
    requires
        unit_row(row, cols),
        0 <= s,
        0 <= k <= row.len(),
    ensures
        row_col_dot(row.take(k), s, j) <= row_col_dot(row, s, j),
    decreases row.len() - k,
{
    if k == row.len() {
        assert(row.take(k) =~= row);
    } else {
        lemma_row_col_dot_take_step(row, s, j, k);
        lemma_fmul_le(s, row[k].1 as int);
        lemma_row_col_dot_mono(row, cols, s, j, k + 1);
    }
}

/// Each column of `vector * m` over the first rows is at most the sum of
/// the matching elements of `vector`.
pub proof fn lemma_matmul_col_bound(
    m: Seq<Seq<(u16, i64)>>,
    v: Seq<i64>,
    cols: int,
    j: int,
    rows: int,
)
    requires
        unit_sparse(m, cols),
        bounded32(v, i64::MAX as int),
        forall|i: int| 0 <= i < m.len() && (#[trigger] m[i]).len() > 0 ==> i < v.len(),
        0 <= rows <= m.len(),
    ensures
        0 <= matmul_col_upto(m, v, j, rows) <= prefix_sum(v, rows),
        prefix_sum(v, rows) <= sum32(v),
    decreases rows,
{
    if rows <= v.len() {
        lemma_sum32_take_le(v, rows);
    } else {
        lemma_sum32_take_le(v, v.len() as int);
    }
    if rows > 0 {
        lemma_matmul_col_bound(m, v, cols, j, rows - 1);
        assert(unit_row(m[rows - 1], cols));
        if rows - 1 < v.len() {
            lemma_row_col_dot_bound(m[rows - 1], cols, v[rows - 1] as int, j);
            lemma_sum32_take_step(v, rows - 1);
        } else {
            assert(m[rows - 1].len() == 0);
        }
    }
}

/// Computes `vector * m` for a sparse matrix `m` with `columns` columns:
/// `result[j] = SUM(i) vector[i] * m[i][j]` (ranks from weights and stake).
pub fn matmul_sparse(sparse_matrix: &Vec<Vec<(u16, i64)>>, vector: &Vec<i64>, columns: u16) -> (r:
    Vec<i64>)
    requires
        unit_sparse(rows(sparse_matrix@), columns as int),
        forall|i: int|
            0 <= i < sparse_matrix@.len() && (#[trigger] rows(sparse_matrix@)[i]).len() > 0 ==> i
                < vector@.len(),
        bounded32(vector@, i64::MAX as int),
        sum32(vector@) <= i64::MAX,
    ensures
        r@.len() == columns,
        forall|j: int| 0 <= j < columns ==> #[trigger] r@[j] == matmul_col(rows(sparse_matrix@), vector@, j),
        forall|j: int| 0 <= j < columns ==> 0 <= #[trigger] r@[j] <= sum32(vector@),
        r@ == spec_matmul_sparse(rows(sparse_matrix@), vector@, columns as int),
{
    let ghost m = rows(sparse_matrix@);
    let mut result: Vec<i64> = Vec::new();
    let mut c: usize = 0;
    while c < columns as usize
        invariant
            0 <= c <= columns,
            result@.len() == c,
            forall|x: int| 0 <= x < c ==> #[trigger] result@[x] == 0,
        decreases columns - c,
    {
        result.push(0);
        c = c + 1;
    }
    let n = sparse_matrix.len();
    let mut i: usize = 0;
    while i < n
        invariant
            0 <= i <= n,
            n == m.len(),
            m == rows(sparse_matrix@),
            unit_sparse(m, columns as int),
            forall|a: int| 0 <= a < m.len() && (#[trigger] m[a]).len() > 0 ==> a < vector@.len(),
            bounded32(vector@, i64::MAX as int),
            sum32(vector@) <= i64::MAX,
            result@.len() == columns,
            forall|j: int|
                0 <= j < columns ==> #[trigger] result@[j] == matmul_col_upto(m, vector@, j, i as int),
        decreases n - i,
    {
        let row = &sparse_matrix[i];
        proof {
            assert(row@ == m[i as int]);
            assert(unit_row(row@, columns as int));
        }
        let mut k: usize = 0;
        while k < row.len()
            invariant
                0 <= k <= row.len(),
                row@ == m[i as int],
                i < n,
                n == m.len(),
                unit_sparse(m, columns as int),
                unit_row(row@, columns as int),
                forall|a: int| 0 <= a < m.len() && (#[trigger] m[a]).len() > 0 ==> a < vector@.len(),
                bounded32(vector@, i64::MAX as int),
                sum32(vector@) <= i64::MAX,
                result@.len() == columns,
                forall|j: int|
                    0 <= j < columns ==> #[trigger] result@[j] == matmul_col_upto(
                        m,
                        vector@,
                        j,
                        i as int,
                    ) + row_col_dot(row@.take(k as int), vector@[i as int] as int, j),
            decreases row.len() - k,
        {
            let (j, value) = row[k];
            let s = vector[i];
            proof {
                let jj = j as int;
                lemma_fmul_le(s as int, value as int);
                lemma_row_col_dot_take_step(row@, s as int, jj, k as int);
                lemma_row_col_dot_mono(row@, columns as int, s as int, jj, k as int + 1);
                lemma_matmul_col_bound(m, vector@, columns as int, jj, i as int + 1);
                lemma_unit_row_take(row@, columns as int, k as int);
                lemma_row_col_dot_bound(row@.take(k as int), columns as int, s as int, jj);
                assert forall|x: int| 0 <= x < columns && x != jj implies row_col_dot(
                    row@.take(k as int + 1),
                    s as int,
                    x,
                ) == row_col_dot(row@.take(k as int), s as int, x) by {
                    lemma_row_col_dot_take_step(row@, s as int, x, k as int);
                }
            }
            let p = fx32_mul(s, value);
            let updated = fx32_add(result[j as usize], p);
            result.set(j as usize, updated);
            k = k + 1;
        }
        proof {
            assert(row@.take(row@.len() as int) =~= row@);
        }
        i = i + 1;
    }
    proof {
        assert forall|j: int| 0 <= j < columns implies 0 <= #[trigger] result@[j] <= sum32(
            vector@,
        ) by {
            lemma_matmul_col_bound(m, vector@, columns as int, j, m.len() as int);
        }
        assert(result@ =~= spec_matmul_sparse(m, vector@, columns as int));
    }
    result
}

/// `row_dot` does not see an element of the vector whose index the row
/// does not list.
pub proof fn lemma_row_dot_update(row: Seq<(u16, i64)>, v: Seq<i64>, x: int, val: i64)
    requires
        0 <= x < v.len(),
        forall|c: int| 0 <= c < row.len() ==> (#[trigger] row[c]).0 as int != x,
        forall|c: int| 0 <= c < row.len() ==> (#[trigger] row[c]).0 < v.len(),
    ensures
        row_dot(row, v.update(x, val)) == row_dot(row, v),
    decreases row.len(),
{
    if row.len() > 0 {
        let rest = row.drop_last();
        assert forall|c: int| 0 <= c < rest.len() implies (#[trigger] rest[c]).0 as int != x by {
            assert(rest[c] == row[c]);
        }
        assert forall|c: int| 0 <= c < rest.len() implies (#[trigger] rest[c]).0 < v.len() by {
            assert(rest[c] == row[c]);
        }
        lemma_row_dot_update(rest, v, x, val);
        assert(row.last() == row[row.len() - 1]);
    }
}

/// The product of a unit row with a nonnegative vector is at most the sum
/// of the vector.
pub proof fn lemma_row_dot_bound(row: Seq<(u16, i64)>, v: Seq<i64>)
    requires
        unit_row(row, v.len() as int),
        bounded32(v, i64::MAX as int),
    ensures
        0 <= row_dot(row, v) <= sum32(v),
    decreases row.len(),
{
    if row.len() == 0 {
        crate::sums::lemma_sum32_bounded(v, i64::MAX as int);
    } else {
        let rest = row.drop_last();
        let last = row[row.len() - 1];
        assert(row.last() == last);
        let x = last.0 as int;
        let v2 = v.update(x, 0);
        lemma_unit_row_drop_last(row, v.len() as int);
        assert forall|c: int| 0 <= c < rest.len() implies (#[trigger] rest[c]).0 as int != x by {
            assert(rest[c] == row[c]);
            assert(row[c].0 != row[row.len() - 1].0);
        }
        lemma_row_dot_update(rest, v, x, 0);
        assert(bounded32(v2, i64::MAX as int)) by {
            assert forall|c: int| 0 <= c < v2.len() implies 0 <= #[trigger] v2[c] <= i64::MAX by {
                if c != x {
                    assert(v2[c] == v[c]);
                }
            }
        }
        assert(v2.len() == v.len());
        lemma_row_dot_bound(rest, v2);
        lemma_sum32_update(v, x, 0);
        lemma_fmul_le(v[x] as int, last.1 as int);
    }
}

/// Computes `m * vector` for a sparse matrix `m`:
/// `result[i] = SUM(j) vector[j] * m[i][j]` (dividends from bonds and
/// incentive).
pub fn matmul_transpose_sparse(sparse_matrix: &Vec<Vec<(u16, i64)>>, vector: &Vec<i64>) -> (r: Vec<
    i64,
>)
    requires
        unit_sparse(rows(sparse_matrix@), vector@.len() as int),
        bounded32(vector@, i64::MAX as int),
        sum32(vector@) <= i64::MAX,
    ensures
        r@.len() == sparse_matrix@.len(),
        forall|i: int|
            0 <= i < r@.len() ==> #[trigger] r@[i] == row_dot(rows(sparse_matrix@)[i], vector@),
        forall|i: int| 0 <= i < r@.len() ==> 0 <= #[trigger] r@[i] <= sum32(vector@),
        r@ == spec_matmul_transpose_sparse(rows(sparse_matrix@), vector@),
{
    let ghost m = rows(sparse_matrix@);
    let n = sparse_matrix.len();
    let mut result: Vec<i64> = Vec::new();
    let mut i: usize = 0;
    while i < n
        invariant
            0 <= i <= n,
            n == m.len(),
            m == rows(sparse_matrix@),
            unit_sparse(m, vector@.len() as int),
            bounded32(vector@, i64::MAX as int),
            sum32(vector@) <= i64::MAX,
            result@.len() == i,
            forall|a: int| 0 <= a < i ==> #[trigger] result@[a] == row_dot(m[a], vector@),
            forall|a: int| 0 <= a < i ==> 0 <= #[trigger] result@[a] <= sum32(vector@),
        decreases n - i,
    {
        let row = &sparse_matrix[i];
        proof {
            assert(row@ == m[i as int]);
            assert(unit_row(row@, vector@.len() as int));
        }
        let mut acc: i64 = 0;
        let mut k: usize = 0;
        while k < row.len()
            invariant
                0 <= k <= row.len(),
                row@ == m[i as int],
                unit_row(row@, vector@.len() as int),
                bounded32(vector@, i64::MAX as int),
                sum32(vector@) <= i64::MAX,
                acc == row_dot(row@.take(k as int), vector@),
            decreases row.len() - k,
        {
            let (j, value) = row[k];
            proof {
                assert(row@[k as int].0 < vector@.len());
                lemma_row_dot_take_step(row@, vector@, k as int);
                lemma_unit_row_take(row@, vector@.len() as int, k as int + 1);
                lemma_row_dot_bound(row@.take(k as int + 1), vector@);
                lemma_fmul_le(vector@[j as int] as int, value as int);
            }
            let p = fx32_mul(vector[j as usize], value);
            acc = fx32_add(acc, p);
            k = k + 1;
        }
        proof {
            assert(row@.take(row@.len() as int) =~= row@);
            lemma_row_dot_bound(row@, vector@);
        }
        result.push(acc);
        i = i + 1;
    }
    proof {
        assert(result@ =~= spec_matmul_transpose_sparse(m, vector@));
    }
    result
}

/// Multiplies row `i` of a sparse matrix by `vector[i]`:
/// `result[i][j] = m[i][j] * vector[i]` (the bonds delta `W o S`).
pub fn row_hadamard_sparse(sparse_matrix: &Vec<Vec<(u16, i64)>>, vector: &Vec<i64>) -> (r: Vec<
    Vec<(u16, i64)>,
>)
    requires
        forall|i: int|
            0 <= i < sparse_matrix@.len() && (#[trigger] rows(sparse_matrix@)[i]).len() > 0 ==> i
                < vector@.len(),
        forall|i: int, k: int|
            0 <= i < sparse_matrix@.len() && 0 <= k < rows(sparse_matrix@)[i].len() ==> fits_i64(
                fmul((#[trigger] rows(sparse_matrix@)[i][k]).1 as int, vector@[i] as int),
            ),
    ensures
        same_pattern(rows(sparse_matrix@), rows(r@)),
        forall|i: int, k: int|
            0 <= i < r@.len() && 0 <= k < rows(r@)[i].len() ==> (#[trigger] rows(r@)[i][k]).1 == fmul(
                rows(sparse_matrix@)[i][k].1 as int,
                vector@[i] as int,
            ),
        nonneg_sparse(rows(sparse_matrix@)) && bounded32(vector@, ONE as int) ==> forall|i: int, k: int|
            0 <= i < r@.len() && 0 <= k < rows(r@)[i].len() ==> 0 <= (#[trigger] rows(r@)[i][k]).1
                <= rows(sparse_matrix@)[i][k].1,
        rows(r@) == spec_row_hadamard_sparse(rows(sparse_matrix@), vector@),
{
    let ghost m = rows(sparse_matrix@);
    let n = sparse_matrix.len();
    let mut result: Vec<Vec<(u16, i64)>> = Vec::new();
    let mut i: usize = 0;
    while i < n
        invariant
            0 <= i <= n,
            n == m.len(),
            m == rows(sparse_matrix@),
            forall|a: int| 0 <= a < m.len() && (#[trigger] m[a]).len() > 0 ==> a < vector@.len(),
            forall|a: int, k: int|
                0 <= a < m.len() && 0 <= k < m[a].len() ==> fits_i64(
                    fmul((#[trigger] m[a][k]).1 as int, vector@[a] as int),
                ),
            result@.len() == i,
            forall|a: int| 0 <= a < i ==> (#[trigger] result@[a]@).len() == m[a].len(),
            forall|a: int, k: int|
                0 <= a < i && 0 <= k < m[a].len() ==> (#[trigger] result@[a]@[k]).0 == m[a][k].0
                    && result@[a]@[k].1 == fmul(m[a][k].1 as int, vector@[a] as int),
        decreases n - i,
    {
        let row = &sparse_matrix[i];
        let mut new_row: Vec<(u16, i64)> = Vec::new();
        let mut k: usize = 0;
        while k < row.len()
            invariant
                0 <= k <= row.len(),
                row@ == m[i as int],
                i < n,
                n == m.len(),
                forall|a: int| 0 <= a < m.len() && (#[trigger] m[a]).len() > 0 ==> a
                    < vector@.len(),
                forall|a: int, c: int|
                    0 <= a < m.len() && 0 <= c < m[a].len() ==> fits_i64(
                        fmul((#[trigger] m[a][c]).1 as int, vector@[a] as int),
                    ),
                new_row@.len() == k,
                forall|c: int|
                    0 <= c < k ==> (#[trigger] new_row@[c]).0 == row@[c].0 && new_row@[c].1
                        == fmul(row@[c].1 as int, vector@[i as int] as int),
            decreases row.len() - k,
        {
            let (j, value) = row[k];
            proof {
                assert(fits_i64(fmul(m[i as int][k as int].1 as int, vector@[i as int] as int)));
            }
            let v = fx32_mul(value, vector[i]);
            new_row.push((j, v));
            k = k + 1;
        }
        result.push(new_row);
        i = i + 1;
    }
    proof {
        assert forall|a: int| 0 <= a < n implies #[trigger] result@[a]@
            == spec_row_hadamard_sparse(m, vector@)[a] by {
            assert(result@[a]@ =~= spec_row_hadamard_sparse(m, vector@)[a]);
        }
        assert(rows(result@) =~= spec_row_hadamard_sparse(m, vector@));
        if nonneg_sparse(m) && bounded32(vector@, ONE as int) {
            assert forall|a: int, k: int|
                0 <= a < result@.len() && 0 <= k < result@[a]@.len() implies 0 <= (
                #[trigger] result@[a]@[k]).1 <= m[a][k].1 by {
                assert(a < vector@.len());
                lemma_fmul_le(m[a][k].1 as int, vector@[a] as int);
            }
        }
    }
    result
}

} // verus!
