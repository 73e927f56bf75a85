//! Sparse matrices of fixed-point numbers.  Row `i` of a sparse matrix lists
//! its nonzero entries as pairs `(j, value)`: column index and `I32F32` bits.

use crate::fixed::{fdiv, fits_i64, fx32_add, fx32_div, ONE};
use crate::sums::{bounded32, lemma_fdiv_unit, lemma_sum32_take_all, lemma_sum32_take_step, proportions, sum32, sums_fit32};
use crate::vector::{lemma_normalized_proportions, lemma_zero_sum_zeros};
use vstd::prelude::*;

verus! {

/// The rows of a sparse matrix, each as a sequence of entries.
pub open spec fn rows(m: Seq<Vec<(u16, i64)>>) -> Seq<Seq<(u16, i64)>> {
    Seq::new(m.len(), |i: int| m[i]@)
}

/// No column index occurs twice in the row.
pub open spec fn distinct_cols(row: Seq<(u16, i64)>) -> bool {
    forall|a: int, b: int| 0 <= a < b < row.len() ==> #[trigger] row[a].0 != #[trigger] row[b].0
}

/// A row whose column indices are distinct and below `cols`, and whose
/// values lie in `[0, 1]`.
pub open spec fn unit_row(row: Seq<(u16, i64)>, cols: int) -> bool {
    &&& distinct_cols(row)
    &&& forall|k: int| 0 <= k < row.len() ==> (#[trigger] row[k]).0 < cols
    &&& forall|k: int| 0 <= k < row.len() ==> 0 <= (#[trigger] row[k]).1 <= ONE
}

/// A row whose column indices are distinct and below `cols`, and whose
/// values are nonnegative.
pub open spec fn nonneg_row(row: Seq<(u16, i64)>, cols: int) -> bool {
    &&& distinct_cols(row)
    &&& forall|k: int| 0 <= k < row.len() ==> (#[trigger] row[k]).0 < cols
    &&& forall|k: int| 0 <= k < row.len() ==> 0 <= (#[trigger] row[k]).1
}

/// Every row of `m` is a unit row for `cols` columns.
pub open spec fn unit_sparse(m: Seq<Seq<(u16, i64)>>, cols: int) -> bool {
    forall|i: int| 0 <= i < m.len() ==> unit_row(#[trigger] m[i], cols)
}

/// Every value of `m` is nonnegative.
pub open spec fn nonneg_sparse(m: Seq<Seq<(u16, i64)>>) -> bool {
    forall|i: int, k: int|
        0 <= i < m.len() && 0 <= k < m[i].len() ==> 0 <= #[trigger] m[i][k].1
}

/// The values of a row.
pub open spec fn row_values(row: Seq<(u16, i64)>) -> Seq<i64> {
    row.map_values(|e: (u16, i64)| e.1)
}

/// The sum of the values of a row.
pub open spec fn row_sum(row: Seq<(u16, i64)>) -> int {
    sum32(row_values(row))
}

/// Entries of row `i` that are not on the diagonal.
pub open spec fn off_diagonal(i: int) -> spec_fn((u16, i64)) -> bool {
    |e: (u16, i64)| e.0 as int != i
}

/// Entries `(j, _)` of a row whose `first` value is greater than
/// `second[j]`: the entries kept by `vec_mask_sparse_matrix`.
pub open spec fn not_outdated(first: u64, second: Seq<u64>) -> spec_fn((u16, i64)) -> bool {
    |e: (u16, i64)| !(first <= second[e.0 as int])
}

/// The matrix without its diagonal entries.
pub open spec fn diag_masked(m: Seq<Seq<(u16, i64)>>) -> Seq<Seq<(u16, i64)>> {
    Seq::new(m.len(), |i: int| m[i].filter(off_diagonal(i)))
}

/// The matrix without the entries `(i, j)` with `first[i] <= second[j]`.
pub open spec fn outdated_masked(
    m: Seq<Seq<(u16, i64)>>,
    first: Seq<u64>,
    second: Seq<u64>,
) -> Seq<Seq<(u16, i64)>> {
    Seq::new(m.len(), |i: int| m[i].filter(not_outdated(first[i], second)))
}

/// Filtering a unit row gives a unit row.
pub proof fn lemma_filter_unit_row(row: Seq<(u16, i64)>, p: spec_fn((u16, i64)) -> bool, cols: int)
    requires
        unit_row(row, cols),
    ensures
        unit_row(row.filter(p), cols),
        row.filter(p).len() <= row.len(),
    decreases row.len(),
{
    reveal(Seq::filter);
    if row.len() > 0 {
        let rest = row.drop_last();
        assert(unit_row(rest, cols)) by {
            assert forall|a: int, b: int| 0 <= a < b < rest.len() implies #[trigger] rest[a].0
                != #[trigger] rest[b].0 by {
                assert(rest[a] == row[a] && rest[b] == row[b]);
            }
            assert forall|k: int| 0 <= k < rest.len() implies (#[trigger] rest[k]).0 < cols && 0
                <= rest[k].1 <= ONE by {
                assert(rest[k] == row[k]);
            }
        }
        lemma_filter_unit_row(rest, p, cols);
        let fr = rest.filter(p);
        if p(row.last()) {
            let f = fr.push(row.last());
            assert forall|a: int, b: int| 0 <= a < b < f.len() implies #[trigger] f[a].0
                != #[trigger] f[b].0 by {
                if b == f.len() - 1 {
                    assert(fr.contains(fr[a]));
                    rest.lemma_filter_contains_rev(p, fr[a]);
                    let c = choose|c: int| 0 <= c < rest.len() && rest[c] == fr[a];
                    assert(row[c] == fr[a]);
                    assert(row[c].0 != row[row.len() - 1].0);
                } else {
                    assert(f[a] == fr[a] && f[b] == fr[b]);
                }
            }
            assert forall|k: int| 0 <= k < f.len() implies (#[trigger] f[k]).0 < cols && 0
                <= f[k].1 <= ONE by {
                if k < fr.len() {
                    assert(f[k] == fr[k]);
                } else {
                    assert(f[k] == row[row.len() - 1]);
                }
            }
        }
    }
}

/// The filtered prefix of length `k + 1` extends that of length `k`.
pub proof fn lemma_filter_take_step(row: Seq<(u16, i64)>, p: spec_fn((u16, i64)) -> bool, k: int)
    requires
        0 <= k < row.len(),
    ensures
        row.take(k + 1).filter(p) == (if p(row[k]) {
            row.take(k).filter(p).push(row[k])
        } else {
            row.take(k).filter(p)
        }),
{
    reveal_with_fuel(Seq::filter, 1);
    assert(row.take(k + 1).drop_last() =~= row.take(k));
    assert(row.take(k + 1).last() == row[k]);
}

/// Removes the diagonal entries `(i, i)` of a sparse matrix.
pub fn mask_diag_sparse(sparse_matrix: &Vec<Vec<(u16, i64)>>) -> (r: Vec<Vec<(u16, i64)>>)
    ensures
        r@.len() == sparse_matrix@.len(),
        forall|i: int|
            0 <= i < r@.len() ==> #[trigger] rows(r@)[i] == rows(sparse_matrix@)[i].filter(off_diagonal(i)),
        rows(r@) == diag_masked(rows(sparse_matrix@)),
{
    let n = sparse_matrix.len();
    let mut result: Vec<Vec<(u16, i64)>> = Vec::new();
    let mut i: usize = 0;
    while i < n
        invariant
            0 <= i <= n,
            n == sparse_matrix@.len(),
            result@.len() == i,
            forall|a: int|
                0 <= a < i ==> #[trigger] result@[a]@ == rows(sparse_matrix@)[a].filter(
                    off_diagonal(a),
                ),
        decreases n - i,
    {
        let row = &sparse_matrix[i];
        let mut kept: Vec<(u16, i64)> = Vec::new();
        let mut k: usize = 0;
        while k < row.len()
            invariant
                0 <= k <= row.len(),
                kept@ == row@.take(k as int).filter(off_diagonal(i as int)),
            decreases row.len() - k,
        {
            let (j, value) = row[k];
            proof {
                lemma_filter_take_step(row@, off_diagonal(i as int), k as int);
            }
            if i != j as usize {
                kept.push((j, value));
            }
            k = k + 1;
        }
        proof {
            assert(row@.take(row@.len() as int) =~= row@);
        }
        result.push(kept);
        i = i + 1;
    }
    proof {
        assert(rows(result@) =~= diag_masked(rows(sparse_matrix@)));
    }
    result
}

/// Removes the entries `(i, j)` of a sparse matrix for which
/// `first_vector[i] <= second_vector[j]`: in the epoch, the weights and
/// bonds that row `i` last set no later than `j` was registered.
pub fn vec_mask_sparse_matrix(
    sparse_matrix: &Vec<Vec<(u16, i64)>>,
    first_vector: &Vec<u64>,
    second_vector: &Vec<u64>,
) -> (r: Vec<Vec<(u16, i64)>>)
    requires
        forall|i: int|
            0 <= i < sparse_matrix@.len() && #[trigger] rows(sparse_matrix@)[i].len() > 0 ==> i
                < first_vector@.len(),
        forall|i: int, k: int|
            0 <= i < sparse_matrix@.len() && 0 <= k < rows(sparse_matrix@)[i].len() ==> (
            #[trigger] rows(sparse_matrix@)[i][k]).0 < second_vector@.len(),
    ensures
        r@.len() == sparse_matrix@.len(),
        forall|i: int|
            0 <= i < r@.len() ==> #[trigger] rows(r@)[i] == rows(sparse_matrix@)[i].filter(
                not_outdated(first_vector@[i], second_vector@),
            ),
        rows(r@) == outdated_masked(rows(sparse_matrix@), first_vector@, second_vector@),
{
    let n = sparse_matrix.len();
    let mut result: Vec<Vec<(u16, i64)>> = Vec::new();
    let mut i: usize = 0;
    while i < n
        invariant
            0 <= i <= n,
            n == sparse_matrix@.len(),
            result@.len() == i,
            forall|a: int|
                0 <= a < n && #[trigger] rows(sparse_matrix@)[a].len() > 0 ==> a < first_vector@.len(),
            forall|a: int, k: int|
                0 <= a < n && 0 <= k < rows(sparse_matrix@)[a].len() ==> (
                #[trigger] rows(sparse_matrix@)[a][k]).0 < second_vector@.len(),
            forall|a: int|
                0 <= a < i ==> #[trigger] result@[a]@ == rows(sparse_matrix@)[a].filter(
                    not_outdated(first_vector@[a], second_vector@),
                ),
        decreases n - i,
    {
        let row = &sparse_matrix[i];
        let mut kept: Vec<(u16, i64)> = Vec::new();
        let mut k: usize = 0;
        while k < row.len()
            invariant
                0 <= k <= row.len(),
                row@ == rows(sparse_matrix@)[i as int],
                i < n,
                n == sparse_matrix@.len(),
                forall|a: int|
                    0 <= a < n && #[trigger] rows(sparse_matrix@)[a].len() > 0 ==> a
                        < first_vector@.len(),
                forall|a: int, c: int|
                    0 <= a < n && 0 <= c < rows(sparse_matrix@)[a].len() ==> (
                    #[trigger] rows(sparse_matrix@)[a][c]).0 < second_vector@.len(),
                kept@ == row@.take(k as int).filter(
                    not_outdated(first_vector@[i as int], second_vector@),
                ),
            decreases row.len() - k,
        {
            let (j, value) = row[k];
            proof {
                lemma_filter_take_step(
                    row@,
                    not_outdated(first_vector@[i as int], second_vector@),
                    k as int,
                );
                assert(rows(sparse_matrix@)[i as int][k as int].0 < second_vector@.len());
            }
            if !(first_vector[i] <= second_vector[j as usize]) {
                kept.push((j, value));
            }
            k = k + 1;
        }
        proof {
            assert(row@.take(row@.len() as int) =~= row@);
        }
        result.push(kept);
        i = i + 1;
    }
    proof {
        assert(rows(result@) =~= outdated_masked(rows(sparse_matrix@), first_vector@, second_vector@));
    }
    result
}

/// Two sparse matrices have the same shape and the same column indices.
pub open spec fn same_pattern(a: Seq<Seq<(u16, i64)>>, b: Seq<Seq<(u16, i64)>>) -> bool {
    &&& a.len() == b.len()
    &&& forall|i: int| 0 <= i < a.len() ==> (#[trigger] a[i]).len() == b[i].len()
    &&& forall|i: int, k: int|
        0 <= i < a.len() && 0 <= k < a[i].len() ==> (#[trigger] a[i][k]).0 == b[i][k].0
}

/// A matrix with the pattern of a unit matrix and values in `[0, 1]` is a
/// unit matrix.
pub proof fn lemma_same_pattern_unit(a: Seq<Seq<(u16, i64)>>, b: Seq<Seq<(u16, i64)>>, cols: int)
    requires
        same_pattern(a, b),
        unit_sparse(a, cols),
        forall|i: int, k: int|
            0 <= i < b.len() && 0 <= k < b[i].len() ==> 0 <= #[trigger] b[i][k].1 <= ONE,
    ensures
        unit_sparse(b, cols),
{
    assert forall|i: int| 0 <= i < b.len() implies unit_row(#[trigger] b[i], cols) by {
        let ra = a[i];
        let rb = b[i];
        assert(unit_row(ra, cols));
        assert forall|x: int, y: int| 0 <= x < y < rb.len() implies #[trigger] rb[x].0
            != #[trigger] rb[y].0 by {
            assert(ra[x].0 == rb[x].0 && ra[y].0 == rb[y].0);
        }
        assert forall|k: int| 0 <= k < rb.len() implies (#[trigger] rb[k]).0 < cols && 0
            <= rb[k].1 <= ONE by {
            assert(ra[k].0 == rb[k].0);
        }
    }
}

/// A matrix of nonnegative rows with the pattern of `a` and values in
/// `[0, 1]` is a unit matrix.
pub proof fn lemma_same_pattern_nonneg_unit(a: Seq<Seq<(u16, i64)>>, b: Seq<Seq<(u16, i64)>>, cols: int)
    requires
        same_pattern(a, b),
        forall|i: int| 0 <= i < a.len() ==> nonneg_row(#[trigger] a[i], cols),
        forall|i: int, k: int|
            0 <= i < b.len() && 0 <= k < b[i].len() ==> 0 <= #[trigger] b[i][k].1 <= ONE,
    ensures
        unit_sparse(b, cols),
{
    assert forall|i: int| 0 <= i < b.len() implies unit_row(#[trigger] b[i], cols) by {
        let ra = a[i];
        let rb = b[i];
        assert(nonneg_row(ra, cols));
        assert forall|x: int, y: int| 0 <= x < y < rb.len() implies #[trigger] rb[x].0
            != #[trigger] rb[y].0 by {
            assert(ra[x].0 == rb[x].0 && ra[y].0 == rb[y].0);
        }
        assert forall|k: int| 0 <= k < rb.len() implies (#[trigger] rb[k]).0 < cols && 0
            <= rb[k].1 <= ONE by {
            assert(ra[k].0 == rb[k].0);
        }
    }
}

/// Each row divided by its sum, where that sum is positive.
pub open spec fn row_normalized(m: Seq<Seq<(u16, i64)>>) -> Seq<Seq<(u16, i64)>> {
    Seq::new(
        m.len(),
        |i: int|
            Seq::new(
                m[i].len(),
                |k: int|
                    (
                        m[i][k].0,
                        if row_sum(m[i]) > 0 {
                            fdiv(m[i][k].1 as int, row_sum(m[i])) as i64
                        } else {
                            m[i][k].1
                        },
                    ),
            ),
    )
}

/// The sum of the values of a row.
pub fn row_sum_of(row: &Vec<(u16, i64)>) -> (r: i64)
    requires
        sums_fit32(row_values(row@)),
    ensures
        r == row_sum(row@),
{
    let ghost vals = row_values(row@);
    let mut acc: i64 = 0;
    let mut k: usize = 0;
    while k < row.len()
        invariant
            0 <= k <= row.len(),
            vals == row_values(row@),
            vals.len() == row@.len(),
            sums_fit32(vals),
            acc == sum32(vals.take(k as int)),
        decreases row.len() - k,
    {
        proof {
            lemma_sum32_take_step(vals, k as int);
            assert(fits_i64(sum32(vals.take(k + 1))));
        }
        let (_j, value) = row[k];
        acc = fx32_add(acc, value);
        k = k + 1;
    }
    proof {
        lemma_sum32_take_all(vals);
    }
    acc
}

/// Normalizes each row of a sparse matrix so that its values sum to one.
/// A row whose values do not sum to a positive number is left as it is.
pub fn inplace_row_normalize_sparse(sparse_matrix: &mut Vec<Vec<(u16, i64)>>)
    requires
        forall|i: int|
            0 <= i < old(sparse_matrix)@.len() ==> sums_fit32(
                row_values(#[trigger] rows(old(sparse_matrix)@)[i]),
            ),
        forall|i: int, k: int|
            0 <= i < old(sparse_matrix)@.len() && 0 <= k < rows(old(sparse_matrix)@)[i].len() && row_sum(
                rows(old(sparse_matrix)@)[i],
            ) > 0 ==> fits_i64(
                fdiv(
                    (#[trigger] rows(old(sparse_matrix)@)[i][k]).1 as int,
                    row_sum(rows(old(sparse_matrix)@)[i]),
                ),
            ),
    ensures
        same_pattern(rows(old(sparse_matrix)@), rows(final(sparse_matrix)@)),
        forall|i: int, k: int|
            0 <= i < old(sparse_matrix)@.len() && 0 <= k < rows(old(sparse_matrix)@)[i].len() ==> (
            #[trigger] rows(final(sparse_matrix)@)[i][k]).1 == (if row_sum(rows(old(sparse_matrix)@)[i])
                > 0 {
                fdiv(rows(old(sparse_matrix)@)[i][k].1 as int, row_sum(rows(old(sparse_matrix)@)[i]))
            } else {
                rows(old(sparse_matrix)@)[i][k].1 as int
            }),
        rows(final(sparse_matrix)@) == row_normalized(rows(old(sparse_matrix)@)),
        nonneg_sparse(rows(old(sparse_matrix)@)) ==> forall|i: int|
            0 <= i < final(sparse_matrix)@.len() ==> proportions(
                row_values(#[trigger] rows(final(sparse_matrix)@)[i]),
            ),
{
    let ghost m0 = rows(sparse_matrix@);
    let n = sparse_matrix.len();
    let mut result: Vec<Vec<(u16, i64)>> = Vec::new();
    let mut i: usize = 0;
    while i < n
        invariant
            0 <= i <= n,
            n == m0.len(),
            rows(sparse_matrix@) == m0,
            result@.len() == i,
            forall|a: int| 0 <= a < n ==> sums_fit32(row_values(#[trigger] m0[a])),
            forall|a: int, k: int|
                0 <= a < n && 0 <= k < m0[a].len() && row_sum(m0[a]) > 0 ==> fits_i64(
                    fdiv((#[trigger] m0[a][k]).1 as int, row_sum(m0[a])),
                ),
            forall|a: int| 0 <= a < i ==> (#[trigger] result@[a]@).len() == m0[a].len(),
            forall|a: int, k: int|
                0 <= a < i && 0 <= k < m0[a].len() ==> (#[trigger] result@[a]@[k]).0 == m0[a][k].0
                    && result@[a]@[k].1 == (if row_sum(m0[a]) > 0 {
                    fdiv(m0[a][k].1 as int, row_sum(m0[a]))
                } else {
                    m0[a][k].1 as int
                }),
        decreases n - i,
    {
        let row = &sparse_matrix[i];
        proof {
            assert(row@ == m0[i as int]);
        }
        let row_sum_i = row_sum_of(row);
        let mut new_row: Vec<(u16, i64)> = Vec::new();
        let mut k: usize = 0;
        while k < row.len()
            invariant
                0 <= k <= row.len(),
                row@ == m0[i as int],
                i < n,
                n == m0.len(),
                row_sum_i == row_sum(m0[i as int]),
                forall|c: int|
                    0 <= c < row@.len() && row_sum(m0[i as int]) > 0 ==> fits_i64(
                        fdiv((#[trigger] m0[i as int][c]).1 as int, row_sum(m0[i as int])),
                    ),
                new_row@.len() == k,
                forall|c: int|
                    0 <= c < k ==> (#[trigger] new_row@[c]).0 == row@[c].0 && new_row@[c].1 == (
                    if row_sum_i > 0 {
                        fdiv(row@[c].1 as int, row_sum_i as int)
                    } else {
                        row@[c].1 as int
                    }),
            decreases row.len() - k,
        {
            let (j, value) = row[k];
            if row_sum_i > 0 {
                proof {
                    assert(fits_i64(fdiv(m0[i as int][k as int].1 as int, row_sum_i as int)));
                }
                let v = fx32_div(value, row_sum_i);
                new_row.push((j, v));
            } else {
                new_row.push((j, value));
            }
            k = k + 1;
        }
        result.push(new_row);
        i = i + 1;
    }
    proof {
        assert forall|a: int| 0 <= a < n implies #[trigger] result@[a]@ == row_normalized(m0)[a] by {
            assert(result@[a]@ =~= row_normalized(m0)[a]);
        }
        assert(rows(result@) =~= row_normalized(m0));
        if nonneg_sparse(m0) {
            assert forall|a: int| 0 <= a < result@.len() implies proportions(
                row_values(#[trigger] result@[a]@),
            ) by {
                let x = row_values(m0[a]);
                let y = row_values(result@[a]@);
                assert(bounded32(x, i64::MAX as int)) by {
                    assert forall|k: int| 0 <= k < x.len() implies 0 <= #[trigger] x[k] <= i64::MAX by {
                        assert(x[k] == m0[a][k].1);
                    }
                }
                if row_sum(m0[a]) > 0 {
                    assert forall|k: int| 0 <= k < x.len() implies #[trigger] y[k] == fdiv(
                        x[k] as int,
                        sum32(x),
                    ) by {
                        assert(y[k] == result@[a]@[k].1);
                    }
                    lemma_normalized_proportions(x, y, sum32(x));
                } else {
                    crate::sums::lemma_sum32_bounded(x, i64::MAX as int);
                    lemma_zero_sum_zeros(x);
                    assert(y =~= x) by {
                        assert forall|k: int| 0 <= k < x.len() implies #[trigger] y[k] == x[k] by {
                            assert(y[k] == result@[a]@[k].1);
                        }
                    }
                }
            }
        }
    }
    *sparse_matrix = result;
}

/// The sum of the values of a row that lie in column `j`.
pub open spec fn row_col_sum(row: Seq<(u16, i64)>, j: int) -> int
    decreases row.len(),
{
    if row.len() == 0 {
        0
    } else {
        row_col_sum(row.drop_last(), j) + (if row.last().0 as int == j {
            row.last().1 as int
        } else {
            0
        })
    }
}

/// The sum of the values in column `j` of the first `rows` rows.
pub open spec fn col_sum_upto(m: Seq<Seq<(u16, i64)>>, j: int, rows: int) -> int
    decreases rows,
{
    if rows <= 0 {
        0
    } else {
        col_sum_upto(m, j, rows - 1) + row_col_sum(m[rows - 1], j)
    }
}

/// The sum of the values in column `j`.
pub open spec fn col_sum(m: Seq<Seq<(u16, i64)>>, j: int) -> int {
    col_sum_upto(m, j, m.len() as int)
}

pub proof fn lemma_row_col_sum_take_step(row: Seq<(u16, i64)>, j: int, k: int)
    requires
        0 <= k < row.len(),
    ensures
        row_col_sum(row.take(k + 1), j) == row_col_sum(row.take(k), j) + (if row[k].0 as int
            == j {
            row[k].1 as int
        } else {
            0
        }),
{
    assert(row.take(k + 1).drop_last() =~= row.take(k));
}

/// With nonnegative values, the column sums of prefixes of a row grow up to
/// the column sum of the row, and each value in column `j` is at most it.
pub proof fn lemma_row_col_sum_mono(row: Seq<(u16, i64)>, j: int, k: int)
    requires
        forall|c: int| 0 <= c < row.len() ==> 0 <= #[trigger] row[c].1,
        0 <= k <= row.len(),
    ensures
        0 <= row_col_sum(row.take(k), j) <= row_col_sum(row, j),
        k < row.len() && row[k].0 as int == j ==> row[k].1 <= row_col_sum(row, j),
    decreases row.len() - k,
{
    if k == row.len() {
        assert(row.take(k) =~= row);
        lemma_row_col_sum_nonneg(row, j);
    } else {
        lemma_row_col_sum_take_step(row, j, k);
        lemma_row_col_sum_mono(row, j, k + 1);
        lemma_row_col_sum_nonneg(row.take(k), j);
    }
}

pub proof fn lemma_row_col_sum_nonneg(row: Seq<(u16, i64)>, j: int)
    requires
        forall|c: int| 0 <= c < row.len() ==> 0 <= #[trigger] row[c].1,
    ensures
        0 <= row_col_sum(row, j),
    decreases row.len(),
{
    if row.len() > 0 {
        lemma_row_col_sum_nonneg(row.drop_last(), j);
    }
}

/// In a row with distinct columns, the values in column `j` sum to at most
/// one value: `row_col_sum` is at most `bound` when every value is.
pub proof fn lemma_row_col_sum_distinct(row: Seq<(u16, i64)>, j: int, bound: int)
    requires
        distinct_cols(row),
        0 <= bound,
        forall|c: int| 0 <= c < row.len() ==> 0 <= #[trigger] row[c].1 <= bound,
    ensures
        0 <= row_col_sum(row, j) <= bound,
        (forall|c: int| 0 <= c < row.len() ==> (#[trigger] row[c]).0 as int != j) ==> row_col_sum(
            row,
            j,
        ) == 0,
    decreases row.len(),
{
    if row.len() > 0 {
        let rest = row.drop_last();
        assert(distinct_cols(rest)) by {
            assert forall|a: int, b: int| 0 <= a < b < rest.len() implies #[trigger] rest[a].0
                != #[trigger] rest[b].0 by {
                assert(rest[a] == row[a] && rest[b] == row[b]);
            }
        }
        assert forall|c: int| 0 <= c < rest.len() implies 0 <= #[trigger] rest[c].1 <= bound by {
            assert(rest[c] == row[c]);
        }
        lemma_row_col_sum_distinct(rest, j, bound);
        assert(row.last() == row[row.len() - 1]);
        assert(0 <= row[row.len() - 1].1 <= bound);
        if row.last().0 as int == j {
            assert forall|c: int| 0 <= c < rest.len() implies (#[trigger] rest[c]).0 as int != j by {
                assert(rest[c] == row[c]);
                assert(row[c].0 != row[row.len() - 1].0);
            }
            assert(row_col_sum(rest, j) == 0);
        }
        if forall|c: int| 0 <= c < row.len() ==> (#[trigger] row[c]).0 as int != j {
            assert forall|c: int| 0 <= c < rest.len() implies (#[trigger] rest[c]).0 as int != j by {
                assert(rest[c] == row[c]);
            }
            assert(row[row.len() - 1].0 as int != j);
        }
    }
}

/// With nonnegative values, column sums of the first rows grow up to the
/// column sum, and the column sum of each row is at most it.
pub proof fn lemma_col_sum_mono(m: Seq<Seq<(u16, i64)>>, j: int, rows: int)
    requires
        nonneg_sparse(m),
        0 <= rows <= m.len(),
    ensures
        0 <= col_sum_upto(m, j, rows) <= col_sum(m, j),
        rows < m.len() ==> col_sum_upto(m, j, rows) + row_col_sum(m[rows], j) <= col_sum(m, j),
    decreases m.len() - rows,
{
    lemma_col_sum_nonneg(m, j, rows);
    if rows < m.len() {
        assert forall|c: int| 0 <= c < m[rows].len() implies 0 <= #[trigger] m[rows][c].1 by {}
        lemma_row_col_sum_nonneg(m[rows], j);
        lemma_col_sum_mono(m, j, rows + 1);
    }
}

pub proof fn lemma_col_sum_nonneg(m: Seq<Seq<(u16, i64)>>, j: int, rows: int)
    requires
        nonneg_sparse(m),
        0 <= rows <= m.len(),
    ensures
        0 <= col_sum_upto(m, j, rows),
    decreases rows,
{
    if rows > 0 {
        lemma_col_sum_nonneg(m, j, rows - 1);
        assert forall|c: int| 0 <= c < m[rows - 1].len() implies 0 <= #[trigger] m[rows
            - 1][c].1 by {}
        lemma_row_col_sum_nonneg(m[rows - 1], j);
    }
}

/// In a unit matrix, each column sums to at most the number of rows.
pub proof fn lemma_col_sum_unit(m: Seq<Seq<(u16, i64)>>, cols: int, j: int, rows: int)
    requires
        unit_sparse(m, cols),
        0 <= rows <= m.len(),
    ensures
        0 <= col_sum_upto(m, j, rows) <= rows * ONE,
    decreases rows,
{
    if rows > 0 {
        lemma_col_sum_unit(m, cols, j, rows - 1);
        assert(unit_row(m[rows - 1], cols));
        lemma_row_col_sum_distinct(m[rows - 1], j, ONE as int);
    }
}

/// Each value divided by the sum of its column, where that sum is not zero.
pub open spec fn col_normalized(m: Seq<Seq<(u16, i64)>>) -> Seq<Seq<(u16, i64)>> {
    Seq::new(
        m.len(),
        |i: int|
            Seq::new(
                m[i].len(),
                |k: int|
                    (
                        m[i][k].0,
                        if col_sum(m, m[i][k].0 as int) == 0 {
                            m[i][k].1
                        } else {
                            fdiv(m[i][k].1 as int, col_sum(m, m[i][k].0 as int)) as i64
                        },
                    ),
            ),
    )
}

/// Normalizes each column of a sparse matrix with `columns` columns so that
/// its values sum to one.  A column whose values sum to zero is left as it
/// is.  The values must be nonnegative and every column sum must fit.
pub fn inplace_col_normalize_sparse(sparse_matrix: &mut Vec<Vec<(u16, i64)>>, columns: u16)
    requires
        nonneg_sparse(rows(old(sparse_matrix)@)),
        forall|i: int, k: int|
            0 <= i < old(sparse_matrix)@.len() && 0 <= k < rows(old(sparse_matrix)@)[i].len() ==> (
            #[trigger] rows(old(sparse_matrix)@)[i][k]).0 < columns,
        forall|j: int| 0 <= j < columns ==> #[trigger] col_sum(rows(old(sparse_matrix)@), j) <= i64::MAX,
    ensures
        same_pattern(rows(old(sparse_matrix)@), rows(final(sparse_matrix)@)),
        forall|i: int, k: int|
            0 <= i < old(sparse_matrix)@.len() && 0 <= k < rows(old(sparse_matrix)@)[i].len() ==> (
            #[trigger] rows(final(sparse_matrix)@)[i][k]).1 == (if col_sum(rows(old(sparse_matrix)@),
                rows(old(sparse_matrix)@)[i][k].0 as int,
            ) == 0 {
                rows(old(sparse_matrix)@)[i][k].1 as int
            } else {
                fdiv(
                    rows(old(sparse_matrix)@)[i][k].1 as int,
                    col_sum(rows(old(sparse_matrix)@), rows(old(sparse_matrix)@)[i][k].0 as int),
                )
            }),
        forall|i: int, k: int|
            0 <= i < final(sparse_matrix)@.len() && 0 <= k < rows(final(sparse_matrix)@)[i].len() ==> 0
                <= (#[trigger] rows(final(sparse_matrix)@)[i][k]).1 <= ONE,
        rows(final(sparse_matrix)@) == col_normalized(rows(old(sparse_matrix)@)),
        forall|j: int| #[trigger] col_sum(rows(final(sparse_matrix)@), j) <= ONE,
{
    let ghost m0 = rows(sparse_matrix@);
    let n = sparse_matrix.len();
    let mut col_sums: Vec<i64> = Vec::new();
    let mut c: usize = 0;
    while c < columns as usize
        invariant
            0 <= c <= columns,
            col_sums@.len() == c,
            forall|x: int| 0 <= x < c ==> #[trigger] col_sums@[x] == 0,
        decreases columns - c,
    {
        col_sums.push(0);
        c = c + 1;
    }
    let mut i: usize = 0;
    while i < n
        invariant
            0 <= i <= n,
            n == m0.len(),
            rows(sparse_matrix@) == m0,
            nonneg_sparse(m0),
            col_sums@.len() == columns,
            forall|a: int, k: int|
                0 <= a < n && 0 <= k < m0[a].len() ==> (#[trigger] m0[a][k]).0 < columns,
            forall|j: int| 0 <= j < columns ==> #[trigger] col_sum(m0, j) <= i64::MAX,
            forall|j: int| 0 <= j < columns ==> #[trigger] col_sums@[j] == col_sum_upto(m0, j, i as int),
        decreases n - i,
    {
        let row = &sparse_matrix[i];
        let mut k: usize = 0;
        while k < row.len()
            invariant
                0 <= k <= row.len(),
                row@ == m0[i as int],
                i < n,
                n == m0.len(),
                nonneg_sparse(m0),
                col_sums@.len() == columns,
                forall|a: int, c: int|
                    0 <= a < n && 0 <= c < m0[a].len() ==> (#[trigger] m0[a][c]).0 < columns,
                forall|j: int| 0 <= j < columns ==> #[trigger] col_sum(m0, j) <= i64::MAX,
                forall|j: int|
                    0 <= j < columns ==> #[trigger] col_sums@[j] == col_sum_upto(m0, j, i as int)
                        + row_col_sum(row@.take(k as int), j),
            decreases row.len() - k,
        {
            let (j, value) = row[k];
            proof {
                assert(m0[i as int][k as int].0 < columns);
                assert forall|c: int| 0 <= c < row@.len() implies 0 <= #[trigger] row@[c].1 by {
                    assert(row@[c] == m0[i as int][c]);
                }
                lemma_row_col_sum_take_step(row@, j as int, k as int);
                lemma_row_col_sum_mono(row@, j as int, k as int + 1);
                lemma_col_sum_mono(m0, j as int, i as int);
                assert forall|x: int| 0 <= x < columns implies #[trigger] col_sums@[x]
                    == col_sum_upto(m0, x, i as int) + row_col_sum(row@.take(k as int), x) by {}
                assert forall|x: int| 0 <= x < columns && x != j implies row_col_sum(
                    row@.take(k as int + 1),
                    x,
                ) == row_col_sum(row@.take(k as int), x) by {
                    lemma_row_col_sum_take_step(row@, x, k as int);
                }
            }
            let updated = fx32_add(col_sums[j as usize], value);
            col_sums.set(j as usize, updated);
            k = k + 1;
        }
        proof {
            assert(row@.take(row@.len() as int) =~= row@);
        }
        i = i + 1;
    }
    let mut result: Vec<Vec<(u16, i64)>> = Vec::new();
    let mut i: usize = 0;
    while i < n
        invariant
            0 <= i <= n,
            n == m0.len(),
            rows(sparse_matrix@) == m0,
            nonneg_sparse(m0),
            col_sums@.len() == columns,
            forall|a: int, k: int|
                0 <= a < n && 0 <= k < m0[a].len() ==> (#[trigger] m0[a][k]).0 < columns,
            forall|j: int| 0 <= j < columns ==> #[trigger] col_sums@[j] == col_sum(m0, j),
            result@.len() == i,
            forall|a: int| 0 <= a < i ==> (#[trigger] result@[a]@).len() == m0[a].len(),
            forall|a: int, k: int|
                0 <= a < i && 0 <= k < m0[a].len() ==> (#[trigger] result@[a]@[k]).0 == m0[a][k].0
                    && result@[a]@[k].1 == (if col_sum(m0, m0[a][k].0 as int) == 0 {
                    m0[a][k].1 as int
                } else {
                    fdiv(m0[a][k].1 as int, col_sum(m0, m0[a][k].0 as int))
                }),
        decreases n - i,
    {
        let row = &sparse_matrix[i];
        let mut new_row: Vec<(u16, i64)> = Vec::new();
        let mut k: usize = 0;
        while k < row.len()
            invariant
                0 <= k <= row.len(),
                row@ == m0[i as int],
                i < n,
                n == m0.len(),
                nonneg_sparse(m0),
                col_sums@.len() == columns,
                forall|a: int, c: int|
                    0 <= a < n && 0 <= c < m0[a].len() ==> (#[trigger] m0[a][c]).0 < columns,
                forall|j: int| 0 <= j < columns ==> #[trigger] col_sums@[j] == col_sum(m0, j),
                new_row@.len() == k,
                forall|c: int|
                    0 <= c < k ==> (#[trigger] new_row@[c]).0 == row@[c].0 && new_row@[c].1 == (
                    if col_sum(m0, row@[c].0 as int) == 0 {
                        row@[c].1 as int
                    } else {
                        fdiv(row@[c].1 as int, col_sum(m0, row@[c].0 as int))
                    }),
            decreases row.len() - k,
        {
            let (j, value) = row[k];
            proof {
                assert(m0[i as int][k as int].0 < columns);
            }
            let s = col_sums[j as usize];
            if s == 0 {
                new_row.push((j, value));
            } else {
                proof {
                    assert forall|c: int| 0 <= c < row@.len() implies 0 <= #[trigger] row@[c].1 by {
                        assert(row@[c] == m0[i as int][c]);
                    }
                    lemma_row_col_sum_mono(row@, j as int, k as int);
                    lemma_col_sum_mono(m0, j as int, i as int);
                    lemma_fdiv_unit(value as int, s as int);
                }
                let v = fx32_div(value, s);
                new_row.push((j, v));
            }
            k = k + 1;
        }
        result.push(new_row);
        i = i + 1;
    }
    proof {
        assert forall|a: int, k: int|
            0 <= a < result@.len() && 0 <= k < result@[a]@.len() implies 0 <= (
            #[trigger] result@[a]@[k]).1 <= ONE by {
            let j = m0[a][k].0 as int;
            assert forall|c: int| 0 <= c < m0[a].len() implies 0 <= #[trigger] m0[a][c].1 by {}
            lemma_row_col_sum_mono(m0[a], j, k);
            lemma_col_sum_mono(m0, j, a);
            lemma_col_sum_nonneg(m0, j, a);
            if col_sum(m0, j) != 0 {
                lemma_fdiv_unit(m0[a][k].1 as int, col_sum(m0, j));
            }
        }
        assert forall|a: int| 0 <= a < n implies #[trigger] result@[a]@ == col_normalized(m0)[a] by {
            assert(result@[a]@ =~= col_normalized(m0)[a]);
        }
        assert(rows(result@) =~= col_normalized(m0));
        assert forall|j: int| #[trigger] col_sum(rows(result@), j) <= ONE by {
            lemma_col_normalized_col_sum(m0, j);
        }
    }
    *sparse_matrix = result;
}

/// Two rows with the same columns whose values in column `j` relate as
/// `b * s <= a * 2^32` have column sums that relate the same way.
proof fn lemma_row_col_sum_scaled(a: Seq<(u16, i64)>, b: Seq<(u16, i64)>, j: int, s: int)
    requires
        a.len() == b.len(),
        forall|k: int| 0 <= k < a.len() ==> (#[trigger] a[k]).0 == b[k].0,
        forall|k: int|
            0 <= k < a.len() && a[k].0 as int == j ==> (#[trigger] b[k]).1 * s <= a[k].1 * ONE,
    ensures
        row_col_sum(b, j) * s <= row_col_sum(a, j) * ONE,
    decreases a.len(),
{
    if a.len() > 0 {
        let a2 = a.drop_last();
        let b2 = b.drop_last();
        assert forall|k: int| 0 <= k < a2.len() implies (#[trigger] a2[k]).0 == b2[k].0 by {
            assert(a2[k] == a[k] && b2[k] == b[k]);
        }
        assert forall|k: int| 0 <= k < a2.len() && a2[k].0 as int == j implies (
        #[trigger] b2[k]).1 * s <= a2[k].1 * ONE by {
            assert(a2[k] == a[k] && b2[k] == b[k]);
        }
        lemma_row_col_sum_scaled(a2, b2, j, s);
        let last = a.len() - 1;
        assert(a.last() == a[last] && b.last() == b[last]);
        let x = row_col_sum(b2, j);
        let y = row_col_sum(a2, j);
        if a[last].0 as int == j {
            let bv = b[last].1 as int;
            let av = a[last].1 as int;
            assert((x + bv) * s <= (y + av) * ONE) by (nonlinear_arith)
                requires
                    x * s <= y * ONE,
                    bv * s <= av * ONE,
            ;
        }
    }
}

/// Two rows with the same columns and the same values in column `j` have
/// the same column sum.
proof fn lemma_row_col_sum_same(a: Seq<(u16, i64)>, b: Seq<(u16, i64)>, j: int)
    requires
        a.len() == b.len(),
        forall|k: int| 0 <= k < a.len() ==> (#[trigger] a[k]).0 == b[k].0,
        forall|k: int| 0 <= k < a.len() && a[k].0 as int == j ==> (#[trigger] b[k]).1 == a[k].1,
    ensures
        row_col_sum(b, j) == row_col_sum(a, j),
    decreases a.len(),
{
    if a.len() > 0 {
        let a2 = a.drop_last();
        let b2 = b.drop_last();
        assert forall|k: int| 0 <= k < a2.len() implies (#[trigger] a2[k]).0 == b2[k].0 by {
            assert(a2[k] == a[k] && b2[k] == b[k]);
        }
        assert forall|k: int| 0 <= k < a2.len() && a2[k].0 as int == j implies (
        #[trigger] b2[k]).1 == a2[k].1 by {
            assert(a2[k] == a[k] && b2[k] == b[k]);
        }
        lemma_row_col_sum_same(a2, b2, j);
        assert(a.last() == a[a.len() - 1] && b.last() == b[b.len() - 1]);
    }
}

/// After normalizing the columns of a nonnegative matrix, each column sums
/// to at most one.
pub proof fn lemma_col_normalized_col_sum(m: Seq<Seq<(u16, i64)>>, j: int)
    requires
        nonneg_sparse(m),
    ensures
        col_sum(col_normalized(m), j) <= ONE,
{
    let c = col_normalized(m);
    let s = col_sum(m, j);
    lemma_col_sum_nonneg(m, j, m.len() as int);
    if s == 0 {
        lemma_col_sums_same(m, c, j, m.len() as int);
    } else {
        lemma_col_sums_scaled(m, c, j, m.len() as int);
        assert(col_sum(c, j) <= ONE) by (nonlinear_arith)
            requires
                col_sum(c, j) * s <= s * ONE,
                s > 0,
        ;
    }
}

proof fn lemma_col_sums_same(m: Seq<Seq<(u16, i64)>>, c: Seq<Seq<(u16, i64)>>, j: int, rows: int)
    requires
        nonneg_sparse(m),
        c == col_normalized(m),
        col_sum(m, j) == 0,
        0 <= rows <= m.len(),
    ensures
        col_sum_upto(c, j, rows) == col_sum_upto(m, j, rows),
    decreases rows,
{
    if rows > 0 {
        lemma_col_sums_same(m, c, j, rows - 1);
        let i = rows - 1;
        assert forall|k: int| 0 <= k < m[i].len() && m[i][k].0 as int == j implies (
        #[trigger] c[i][k]).1 == m[i][k].1 by {}
        assert forall|k: int| 0 <= k < m[i].len() implies (#[trigger] m[i][k]).0 == c[i][k].0 by {}
        lemma_row_col_sum_same(m[i], c[i], j);
    }
}

proof fn lemma_col_sums_scaled(m: Seq<Seq<(u16, i64)>>, c: Seq<Seq<(u16, i64)>>, j: int, rows: int)
    requires
        nonneg_sparse(m),
        c == col_normalized(m),
        col_sum(m, j) > 0,
        0 <= rows <= m.len(),
    ensures
        col_sum_upto(c, j, rows) * col_sum(m, j) <= col_sum_upto(m, j, rows) * ONE,
    decreases rows,
{
    if rows > 0 {
        lemma_col_sums_scaled(m, c, j, rows - 1);
        let i = rows - 1;
        let s = col_sum(m, j);
        assert forall|k: int| 0 <= k < m[i].len() implies (#[trigger] m[i][k]).0 == c[i][k].0 by {}
        assert forall|k: int| 0 <= k < m[i].len() && m[i][k].0 as int == j implies (
        #[trigger] c[i][k]).1 * s <= m[i][k].1 * ONE by {
            assert forall|x: int| 0 <= x < m[i].len() implies 0 <= #[trigger] m[i][x].1 by {}
            lemma_row_col_sum_mono(m[i], j, k);
            lemma_col_sum_mono(m, j, i);
            lemma_fdiv_unit(m[i][k].1 as int, s);
        }
        lemma_row_col_sum_scaled(m[i], c[i], j, s);
        let x = col_sum_upto(c, j, i);
        let y = col_sum_upto(m, j, i);
        let bx = row_col_sum(c[i], j);
        let by = row_col_sum(m[i], j);
        assert((x + bx) * s <= (y + by) * ONE) by (nonlinear_arith)
            requires
                x * s <= y * ONE,
                bx * s <= by * ONE,
        ;
    }
}

} // verus!
