//! The epoch: from the stake, weights and bonds of a network, the ranks,
//! incentive, dividends, pruning scores, emission and new bonds of every
//! uid.

use crate::fixed::{fx64_from_u64, fx96_from_fx32, fx96_from_u64, fx96_mul, fx96_to_u64, fmul, fx32_add, scale32, scale64, ONE};
use crate::sparse::{
    col_normalized, diag_masked, inplace_col_normalize_sparse, inplace_row_normalize_sparse,
    mask_diag_sparse, outdated_masked, row_normalized, rows, unit_sparse, vec_mask_sparse_matrix,
};
use crate::epoch_dense::{alpha_fits, alpha_of, spec_alpha};
use crate::sparse_ema::{mat_ema_sparse, spec_mat_ema_sparse};
use crate::sparse_product::{
    matmul_sparse, matmul_transpose_sparse, row_hadamard_sparse, spec_matmul_sparse,
    spec_matmul_transpose_sparse, spec_row_hadamard_sparse,
};
use crate::storage::{
    dense_from_store, sparse_from_store, spec_dense_from_store, spec_sparse_from_store,
    stored_indices_below, stored_rows_wf, stored_uids_below, StoredRows,
};
use crate::sums::{bounded32, nonneg64, proportions, sum32, sum64};
use crate::vector::{
    inplace_mask_vector, inplace_normalize, inplace_normalize_64, is_zero, masked, normalized,
    normalized64, proportions_to_u16, spec_fixed_proportion_to_u16, to_fixed32,
    vec_fixed64_to_fixed32, vec_fixed_proportions_to_u16,
};
use vstd::arithmetic::div_mod::*;
use vstd::arithmetic::mul::*;
use vstd::prelude::*;

verus! {

/// Whether each uid is inactive: it last updated more than `cutoff` blocks
/// before `current`.
pub open spec fn inactive_mask(last_update: Seq<u64>, cutoff: int, current: int) -> Seq<bool> {
    Seq::new(last_update.len(), |i: int| last_update[i] + cutoff < current)
}

/// The stake of uid `i` after the first `r` keys: the stake of the last of
/// them registered at `i`, or zero.
pub open spec fn key_stake(keys: Seq<(u16, u64)>, i: int, r: int) -> int
    decreases r,
{
    if r <= 0 {
        0
    } else if keys[r - 1].0 as int == i {
        keys[r - 1].1 as int
    } else {
        key_stake(keys, i, r - 1)
    }
}

/// The stake of each of the `n` uids as `I64F64` bits.
pub open spec fn stake_bits(n: int, keys: Seq<(u16, u64)>) -> Seq<i128> {
    Seq::new(n as nat, |i: int| (key_stake(keys, i, keys.len() as int) * scale64()) as i128)
}

/// Computes the inactive mask: `last_update[i] + cutoff < current_block`.
pub(crate) fn inactive_of(last_update: &Vec<u64>, cutoff: u64, current_block: u64) -> (r: Vec<bool>)
    requires
        forall|i: int| 0 <= i < last_update@.len() ==> #[trigger] last_update@[i] + cutoff <= u64::MAX,
    ensures
        r@ == inactive_mask(last_update@, cutoff as int, current_block as int),
{
    let mut r: Vec<bool> = Vec::new();
    let mut i: usize = 0;
    while i < last_update.len()
        invariant
            0 <= i <= last_update.len(),
            forall|x: int| 0 <= x < last_update@.len() ==> #[trigger] last_update@[x] + cutoff <= u64::MAX,
            r@ =~= inactive_mask(last_update@, cutoff as int, current_block as int).take(i as int),
        decreases last_update.len() - i,
    {
        let updated = last_update[i];
        r.push(updated + cutoff < current_block);
        i = i + 1;
    }
    proof {
        assert(r@ =~= inactive_mask(last_update@, cutoff as int, current_block as int));
    }
    r
}

/// The logical negation of each element.
pub(crate) fn negation(mask: &Vec<bool>) -> (r: Vec<bool>)
    ensures
        r@ == Seq::new(mask@.len(), |i: int| !mask@[i]),
{
    let mut r: Vec<bool> = Vec::new();
    let mut i: usize = 0;
    while i < mask.len()
        invariant
            0 <= i <= mask.len(),
            r@ =~= Seq::new(mask@.len(), |x: int| !mask@[x]).take(i as int),
        decreases mask.len() - i,
    {
        r.push(!mask[i]);
        i = i + 1;
    }
    proof {
        assert(r@ =~= Seq::new(mask@.len(), |x: int| !mask@[x]));
    }
    r
}

/// The stake of each uid as `I64F64` bits, from the keys and their stake.
fn stake_of(n: u16, keys: &Vec<(u16, u64)>) -> (r: Vec<i128>)
    requires
        forall|k: int| 0 <= k < keys@.len() ==> (#[trigger] keys@[k]).0 < n && keys@[k].1 <= i64::MAX,
    ensures
        r@ == stake_bits(n as int, keys@),
{
    let mut r: Vec<i128> = Vec::new();
    let mut c: usize = 0;
    while c < n as usize
        invariant
            0 <= c <= n,
            r@ =~= stake_bits(n as int, keys@.take(0)).take(c as int),
        decreases n - c,
    {
        r.push(0);
        c = c + 1;
    }
    let mut k: usize = 0;
    while k < keys.len()
        invariant
            0 <= k <= keys.len(),
            forall|x: int| 0 <= x < keys@.len() ==> (#[trigger] keys@[x]).0 < n && keys@[x].1 <= i64::MAX,
            r@.len() == n,
            forall|i: int| 0 <= i < n ==> #[trigger] r@[i] == key_stake(keys@, i, k as int) * scale64(),
        decreases keys.len() - k,
    {
        let (uid, stake) = keys[k];
        let v = fx64_from_u64(stake);
        r.set(uid as usize, v);
        k = k + 1;
    }
    proof {
        assert(r@ =~= stake_bits(n as int, keys@));
    }
    r
}

proof fn lemma_key_stake_range(keys: Seq<(u16, u64)>, i: int, r: int)
    requires
        r <= keys.len(),
        forall|k: int| 0 <= k < keys.len() ==> (#[trigger] keys[k]).1 <= i64::MAX,
    ensures
        0 <= key_stake(keys, i, r) <= i64::MAX,
    decreases r,
{
    if r > 0 {
        lemma_key_stake_range(keys, i, r - 1);
    }
}

/// Stake bits are nonnegative, and each is the stake of its uid times
/// `2^64`.
pub proof fn lemma_stake_bits_nonneg(n: int, keys: Seq<(u16, u64)>)
    requires
        0 <= n,
        forall|k: int| 0 <= k < keys.len() ==> (#[trigger] keys[k]).1 <= i64::MAX,
    ensures
        nonneg64(stake_bits(n, keys)),
        forall|i: int|
            0 <= i < n ==> #[trigger] stake_bits(n, keys)[i] == key_stake(keys, i, keys.len() as int)
                * scale64(),
{
    assert forall|i: int| 0 <= i < n implies 0 <= #[trigger] stake_bits(n, keys)[i]
        && stake_bits(n, keys)[i] == key_stake(keys, i, keys.len() as int) * scale64() by {
        let v = key_stake(keys, i, keys.len() as int);
        lemma_key_stake_range(keys, i, keys.len() as int);
        lemma_mul_nonnegative(v, scale64());
        lemma_mul_inequality(v, i64::MAX as int, scale64());
    }
}

/// The normalized stake from the `I64F64` stake bits: each stake divided
/// by the total, truncated to `I32F32`.
fn normalize_stake_bits(stake_64: Vec<i128>) -> (r: Vec<i64>)
    requires
        nonneg64(stake_64@),
        sum64(stake_64@) <= i128::MAX,
    ensures
        r@ == to_fixed32(normalized64(stake_64@)),
        proportions(r@),
{
    let mut stake_64 = stake_64;
    proof {
        crate::vector::lemma_normalize64_ok(stake_64@);
    }
    let ghost before = stake_64@;
    inplace_normalize_64(&mut stake_64);
    proof {
        assert forall|i: int| 0 <= i < stake_64@.len() implies crate::fixed::fits_i64(
            #[trigger] stake_64@[i] as int / scale32(),
        ) by {
            lemma_div_is_ordered(stake_64@[i] as int, scale64(), scale32());
            lemma_div_pos_is_pos(stake_64@[i] as int, scale32());
        }
    }
    vec_fixed64_to_fixed32(stake_64)
}

/// A nonnegative vector in `[0, bound]` with at most `2^16` elements, for
/// `bound <= 2^33`, can be normalized without overflow.
pub(crate) proof fn lemma_normalize_small(x: Seq<i64>, bound: int)
    requires
        bounded32(x, bound),
        0 <= bound <= 2 * ONE,
        x.len() <= 65536,
    ensures
        bounded32(x, i64::MAX as int),
        sum32(x) <= i64::MAX,
{
    crate::sums::lemma_sum32_bounded(x, bound);
    assert(x.len() * bound <= 65536 * (2 * ONE)) by (nonlinear_arith)
        requires
            x.len() <= 65536,
            0 <= bound <= 2 * ONE,
    ;
}

/// The normalized stake of each of the `n` uids, from the keys and their
/// stake.
pub(crate) fn stake_stage(n: u16, keys: &Vec<(u16, u64)>) -> (r: Vec<i64>)
    requires
        forall|k: int| 0 <= k < keys@.len() ==> (#[trigger] keys@[k]).0 < n && keys@[k].1 <= i64::MAX,
        sum64(stake_bits(n as int, keys@)) <= i128::MAX,
    ensures
        r@ == to_fixed32(normalized64(stake_bits(n as int, keys@))),
        r@.len() == n,
        proportions(r@),
{
    let stake_64 = stake_of(n, keys);
    proof {
        lemma_stake_bits_nonneg(n as int, keys@);
    }
    normalize_stake_bits(stake_64)
}

/// The stake of the active uids, normalized.
pub(crate) fn active_stake_stage(stake: &Vec<i64>, inactive: &Vec<bool>) -> (r: Vec<i64>)
    requires
        proportions(stake@),
        inactive@.len() == stake@.len(),
    ensures
        r@ == normalized(masked(inactive@, stake@)),
        proportions(r@),
{
    let mut active_stake = stake.clone();
    proof {
        assert(active_stake@ =~= stake@);
    }
    inplace_mask_vector(inactive, &mut active_stake);
    proof {
        crate::sums::lemma_sum32_bounded(active_stake@, ONE as int);
        crate::vector::lemma_normalize_ok(active_stake@);
    }
    inplace_normalize(&mut active_stake);
    active_stake
}

/// Normalizing a unit matrix's rows, each row having at most `2^16`
/// entries, does not overflow and gives a unit matrix.
proof fn lemma_row_normalize_unit(m: Seq<Seq<(u16, i64)>>, cols: int)
    requires
        unit_sparse(m, cols),
        forall|i: int| 0 <= i < m.len() ==> (#[trigger] m[i]).len() <= 65536,
    ensures
        forall|i: int|
            0 <= i < m.len() ==> crate::sums::sums_fit32(
                crate::sparse::row_values(#[trigger] m[i]),
            ),
        forall|i: int, k: int|
            0 <= i < m.len() && 0 <= k < m[i].len() && crate::sparse::row_sum(m[i]) > 0
                ==> crate::fixed::fits_i64(
                crate::fixed::fdiv(
                    (#[trigger] m[i][k]).1 as int,
                    crate::sparse::row_sum(m[i]),
                ),
            ),
        crate::sparse::nonneg_sparse(m),
{
    assert forall|i: int| 0 <= i < m.len() implies crate::sums::sums_fit32(
        crate::sparse::row_values(#[trigger] m[i]),
    ) by {
        let x = crate::sparse::row_values(m[i]);
        assert(crate::sparse::unit_row(m[i], cols));
        assert(bounded32(x, ONE as int)) by {
            assert forall|k: int| 0 <= k < x.len() implies 0 <= #[trigger] x[k] <= ONE by {
                assert(x[k] == m[i][k].1);
            }
        }
        crate::sums::lemma_sums_fit32_small(x);
    }
    assert forall|i: int, k: int|
        0 <= i < m.len() && 0 <= k < m[i].len() && crate::sparse::row_sum(m[i]) > 0
            implies crate::fixed::fits_i64(
        crate::fixed::fdiv((#[trigger] m[i][k]).1 as int, crate::sparse::row_sum(m[i])),
    ) by {
        let x = crate::sparse::row_values(m[i]);
        assert(crate::sparse::unit_row(m[i], cols));
        assert(bounded32(x, i64::MAX as int)) by {
            assert forall|c: int| 0 <= c < x.len() implies 0 <= #[trigger] x[c] <= i64::MAX by {
                assert(x[c] == m[i][c].1);
            }
        }
        assert(x[k] == m[i][k].1);
        crate::sums::lemma_elem_le_sum32(x, k);
        crate::sums::lemma_fdiv_unit(x[k] as int, sum32(x));
    }
    assert forall|i: int, k: int|
        0 <= i < m.len() && 0 <= k < m[i].len() implies 0 <= #[trigger] m[i][k].1 by {
        assert(crate::sparse::unit_row(m[i], cols));
    }
}

/// The weights of the network: read from the store, without self-weights
/// and without weights that a uid set no later than its target was
/// registered, each row normalized.
fn weights_stage(
    n: u16,
    stored: &StoredRows,
    last_update: &Vec<u64>,
    block_at_registration: &Vec<u64>,
) -> (r: Vec<Vec<(u16, i64)>>)
    requires
        stored_rows_wf(stored@, n as int),
        last_update@.len() == n,
        block_at_registration@.len() == n,
    ensures
        rows(r@) == row_normalized(
            outdated_masked(
                diag_masked(spec_sparse_from_store(stored@, n as int)),
                last_update@,
                block_at_registration@,
            ),
        ),
        r@.len() == n,
        unit_sparse(rows(r@), n as int),
{
    let mut weights = sparse_from_store(n, stored);
    proof {
        crate::storage::lemma_sparse_from_store_unit(stored@, n as int);
    }
    let w1 = mask_diag_sparse(&weights);
    proof {
        let m = rows(weights@);
        assert forall|i: int| 0 <= i < n implies crate::sparse::unit_row(#[trigger] rows(w1@)[i], n as int)
            && rows(w1@)[i].len() <= n by {
            assert(crate::sparse::unit_row(m[i], n as int));
            crate::sparse::lemma_filter_unit_row(m[i], crate::sparse::off_diagonal(i), n as int);
        }
        assert forall|i: int, k: int|
            0 <= i < w1@.len() && 0 <= k < rows(w1@)[i].len() implies (#[trigger] rows(w1@)[i][k]).0
                < block_at_registration@.len() by {
            assert(crate::sparse::unit_row(rows(w1@)[i], n as int));
        }
    }
    let w2 = vec_mask_sparse_matrix(&w1, last_update, block_at_registration);
    proof {
        let m = rows(w1@);
        assert forall|i: int| 0 <= i < n implies crate::sparse::unit_row(#[trigger] rows(w2@)[i], n as int)
            && rows(w2@)[i].len() <= n by {
            assert(crate::sparse::unit_row(m[i], n as int));
            crate::sparse::lemma_filter_unit_row(
                m[i],
                crate::sparse::not_outdated(last_update@[i], block_at_registration@),
                n as int,
            );
        }
        lemma_row_normalize_unit(rows(w2@), n as int);
    }
    let mut w3 = w2;
    inplace_row_normalize_sparse(&mut w3);
    proof {
        assert forall|i: int, k: int|
            0 <= i < rows(w3@).len() && 0 <= k < rows(w3@)[i].len() implies 0
                <= #[trigger] rows(w3@)[i][k].1 <= ONE by {
            let x = crate::sparse::row_values(rows(w3@)[i]);
            assert(proportions(x));
            assert(x[k] == rows(w3@)[i][k].1);
        }
        crate::sparse::lemma_same_pattern_unit(rows(w2@), rows(w3@), n as int);
    }
    w3
}

/// The ranks: `r_j = SUM(i) w_ij * s_i`, normalized.
fn ranks_stage(weights: &Vec<Vec<(u16, i64)>>, active_stake: &Vec<i64>, n: u16) -> (r: Vec<i64>)
    requires
        unit_sparse(rows(weights@), n as int),
        weights@.len() == n,
        active_stake@.len() == n,
        proportions(active_stake@),
    ensures
        r@ == normalized(spec_matmul_sparse(rows(weights@), active_stake@, n as int)),
        r@.len() == n,
        proportions(r@),
{
    proof {
        crate::sums::lemma_sum32_bounded(active_stake@, ONE as int);
    }
    let mut ranks = matmul_sparse(weights, active_stake, n);
    proof {
        lemma_normalize_small(ranks@, ONE as int);
        crate::vector::lemma_normalize_ok(ranks@);
    }
    inplace_normalize(&mut ranks);
    ranks
}

/// A unit matrix with at most `2^16` rows can have its columns normalized
/// without overflow.
proof fn lemma_col_normalize_ok(m: Seq<Seq<(u16, i64)>>, n: int)
    requires
        unit_sparse(m, n),
        m.len() <= 65536,
    ensures
        crate::sparse::nonneg_sparse(m),
        forall|i: int, k: int| 0 <= i < m.len() && 0 <= k < m[i].len() ==> (#[trigger] m[i][k]).0 < n,
        forall|j: int| 0 <= j < n ==> #[trigger] crate::sparse::col_sum(m, j) <= i64::MAX,
{
    assert forall|i: int, k: int| 0 <= i < m.len() && 0 <= k < m[i].len() implies (
    #[trigger] m[i][k]).0 < n && 0 <= m[i][k].1 by {
        assert(crate::sparse::unit_row(m[i], n));
    }
    assert forall|j: int| 0 <= j < n implies #[trigger] crate::sparse::col_sum(m, j) <= i64::MAX by {
        crate::sparse::lemma_col_sum_unit(m, n, j, m.len() as int);
        assert(m.len() * ONE <= 65536 * ONE) by (nonlinear_arith)
            requires
                m.len() <= 65536,
        ;
    }
}

/// Normalizes the columns of a unit matrix with at most `2^16` rows; the
/// result is again a unit matrix.
fn col_normalize_unit(m: &mut Vec<Vec<(u16, i64)>>, n: u16)
    requires
        unit_sparse(rows(old(m)@), n as int),
        old(m)@.len() <= 65536,
    ensures
        rows(final(m)@) == col_normalized(rows(old(m)@)),
        final(m)@.len() == old(m)@.len(),
        unit_sparse(rows(final(m)@), n as int),
        forall|j: int| #[trigger] crate::sparse::col_sum(rows(final(m)@), j) <= ONE,
{
    proof {
        lemma_col_normalize_ok(rows(m@), n as int);
    }
    let ghost before = rows(m@);
    inplace_col_normalize_sparse(m, n);
    proof {
        crate::sparse::lemma_same_pattern_unit(before, rows(m@), n as int);
    }
}

/// The bonds delta `W o S`, its columns normalized.
fn bonds_delta_stage(weights: &Vec<Vec<(u16, i64)>>, active_stake: &Vec<i64>, n: u16) -> (r: Vec<
    Vec<(u16, i64)>,
>)
    requires
        unit_sparse(rows(weights@), n as int),
        weights@.len() == n,
        active_stake@.len() == n,
        proportions(active_stake@),
    ensures
        rows(r@) == col_normalized(spec_row_hadamard_sparse(rows(weights@), active_stake@)),
        r@.len() == n,
        unit_sparse(rows(r@), n as int),
{
    proof {
        assert forall|i: int, k: int|
            0 <= i < weights@.len() && 0 <= k < rows(weights@)[i].len() implies crate::fixed::fits_i64(
            fmul((#[trigger] rows(weights@)[i][k]).1 as int, active_stake@[i] as int),
        ) by {
            assert(crate::sparse::unit_row(rows(weights@)[i], n as int));
            crate::sums::lemma_fmul_le(rows(weights@)[i][k].1 as int, active_stake@[i] as int);
        }
        assert(crate::sparse::nonneg_sparse(rows(weights@))) by {
            assert forall|i: int, k: int|
                0 <= i < weights@.len() && 0 <= k < rows(weights@)[i].len() implies 0
                    <= #[trigger] rows(weights@)[i][k].1 by {
                assert(crate::sparse::unit_row(rows(weights@)[i], n as int));
            }
        }
    }
    let mut bonds = row_hadamard_sparse(weights, active_stake);
    proof {
        assert forall|i: int, k: int|
            0 <= i < bonds@.len() && 0 <= k < rows(bonds@)[i].len() implies 0
                <= #[trigger] rows(bonds@)[i][k].1 <= ONE by {
            assert(crate::sparse::unit_row(rows(weights@)[i], n as int));
        }
        crate::sparse::lemma_same_pattern_unit(rows(weights@), rows(bonds@), n as int);
    }
    col_normalize_unit(&mut bonds, n);
    bonds
}

/// The moving average `alpha * delta + (1 - alpha) * bonds`, columns
/// normalized.
fn ema_bonds_stage(delta: &Vec<Vec<(u16, i64)>>, bonds: &Vec<Vec<(u16, i64)>>, alpha: i64, n: u16) -> (r: Vec<
    Vec<(u16, i64)>,
>)
    requires
        delta@.len() == n,
        bonds@.len() == n,
        unit_sparse(rows(delta@), n as int),
        unit_sparse(rows(bonds@), n as int),
        forall|j: int| #[trigger] crate::sparse::col_sum(rows(bonds@), j) <= ONE,
        alpha <= ONE,
        ONE - alpha <= i64::MAX,
    ensures
        rows(r@) == col_normalized(spec_mat_ema_sparse(rows(delta@), rows(bonds@), alpha as int)),
        r@.len() == n,
        unit_sparse(rows(r@), n as int),
        forall|j: int| #[trigger] crate::sparse::col_sum(rows(r@), j) <= ONE,
{
    let mut ema = mat_ema_sparse(delta, bonds, alpha);
    let ghost e0 = rows(ema@);
    proof {
        assert(rows(ema@).len() == ema@.len());
        assert(spec_mat_ema_sparse(rows(delta@), rows(bonds@), alpha as int).len() == n);
        assert(crate::sparse::nonneg_sparse(e0)) by {
            assert forall|i: int, k: int| 0 <= i < e0.len() && 0 <= k < e0[i].len() implies 0
                <= #[trigger] e0[i][k].1 by {
                assert(crate::sparse::nonneg_row(e0[i], n as int));
            }
        }
        assert forall|i: int, k: int| 0 <= i < ema@.len() && 0 <= k < e0[i].len() implies (
        #[trigger] e0[i][k]).0 < n by {
            assert(crate::sparse::nonneg_row(e0[i], n as int));
        }
        if alpha >= 0 {
            lemma_col_normalize_ok(e0, n as int);
        } else {
            assert forall|j: int| 0 <= j < n implies #[trigger] crate::sparse::col_sum(e0, j)
                <= i64::MAX by {
                crate::sparse_ema::lemma_ema_sparse_col_sum(rows(delta@), rows(bonds@), alpha as int, j);
            }
        }
    }
    inplace_col_normalize_sparse(&mut ema, n);
    proof {
        crate::sparse::lemma_same_pattern_nonneg_unit(e0, rows(ema@), n as int);
    }
    ema
}

/// The dividends: `d_i = SUM(j) b_ij * inc_j`, normalized.
fn dividends_stage(bonds: &Vec<Vec<(u16, i64)>>, incentive: &Vec<i64>) -> (r: Vec<i64>)
    requires
        unit_sparse(rows(bonds@), incentive@.len() as int),
        bonds@.len() <= 65536,
        proportions(incentive@),
    ensures
        r@ == normalized(spec_matmul_transpose_sparse(rows(bonds@), incentive@)),
        r@.len() == bonds@.len(),
        proportions(r@),
{
    proof {
        crate::sums::lemma_sum32_bounded(incentive@, ONE as int);
    }
    let mut dividends = matmul_transpose_sparse(bonds, incentive);
    proof {
        lemma_normalize_small(dividends@, ONE as int);
        crate::vector::lemma_normalize_ok(dividends@);
    }
    inplace_normalize(&mut dividends);
    dividends
}

/// The element-wise sum of two vectors, as long as the shorter one.
pub open spec fn added(a: Seq<i64>, b: Seq<i64>) -> Seq<i64> {
    Seq::new(
        if a.len() <= b.len() {
            a.len()
        } else {
            b.len()
        },
        |i: int| (a[i] + b[i]) as i64,
    )
}

/// The emission scores: `combined` where it is not all zero; else the
/// active stake, or the stake where there is no active stake.
pub open spec fn emission_scores(combined: Seq<i64>, active_stake: Seq<i64>, stake: Seq<i64>) -> Seq<
    i64,
> {
    if sum32(combined) == 0 {
        if sum32(active_stake) == 0 {
            stake
        } else {
            active_stake
        }
    } else {
        combined
    }
}

/// The emission scores sum to one up to truncation, at least `1 - n / 2^32`,
/// when the stake does and the active stake does wherever it is not zero.
pub proof fn lemma_scores_sum_lower(
    incentive: Seq<i64>,
    dividends: Seq<i64>,
    active_stake: Seq<i64>,
    stake: Seq<i64>,
    n: int,
)
    requires
        proportions(incentive),
        proportions(dividends),
        incentive.len() == n,
        dividends.len() == n,
        sum32(stake) >= ONE - n,
        sum32(active_stake) != 0 ==> sum32(active_stake) >= ONE - n,
    ensures
        sum32(emission_scores(normalized(added(incentive, dividends)), active_stake, stake)) >= ONE
            - n,
{
    let a = added(incentive, dividends);
    assert(bounded32(a, i64::MAX as int)) by {
        assert forall|i: int| 0 <= i < a.len() implies 0 <= #[trigger] a[i] <= i64::MAX by {
            assert(0 <= incentive[i] <= ONE && 0 <= dividends[i] <= ONE);
        }
    }
    crate::sums::lemma_sum32_bounded(a, i64::MAX as int);
    if sum32(a) > 0 {
        crate::vector::lemma_normalized_sum_lower(a);
    }
}

proof fn lemma_emission_sum_lower_rec(scores: Seq<i64>, r: int)
    requires
        proportions(scores),
        0 <= r <= u64::MAX,
    ensures
        sum_u64(spec_rao_emission(scores, r)) * scale32() + scores.len() * scale32() >= r * sum32(
            scores,
        ),
    decreases scores.len(),
{
    if scores.len() > 0 {
        let s2 = scores.drop_last();
        assert(proportions(s2)) by {
            assert forall|i: int| 0 <= i < s2.len() implies 0 <= #[trigger] s2[i] <= ONE by {
                assert(s2[i] == scores[i]);
            }
            crate::sums::lemma_sum32_le(s2, scores.take(s2.len() as int));
            assert(scores.take(s2.len() as int) =~= s2);
            crate::sums::lemma_sum32_take_le(scores, s2.len() as int);
        }
        lemma_emission_sum_lower_rec(s2, r);
        let l = scores.len() - 1;
        let e = scores[l] as int;
        assert(0 <= e <= scale32());
        assert(spec_rao_emission(scores, r).drop_last() =~= spec_rao_emission(s2, r));
        lemma_mul_nonnegative(e, r);
        lemma_fundamental_div_mod(e * r, scale32());
        lemma_mod_bound(e * r, scale32());
        assert(e * r <= scale32() * u64::MAX) by (nonlinear_arith)
            requires
                0 <= e <= scale32(),
                0 <= r <= u64::MAX,
        ;
        lemma_div_is_ordered(e * r, scale32() * u64::MAX, scale32());
        lemma_div_multiples_vanish(u64::MAX as int, scale32());
        lemma_div_pos_is_pos(e * r, scale32());
        let q = (e * r) / scale32();
        assert(spec_rao_emission(scores, r).last() == q);
        assert(scores.last() == scores[l]);
        let se = sum_u64(spec_rao_emission(s2, r));
        let ss = sum32(s2);
        assert((se + q) * scale32() + (l + 1) * scale32() >= r * (ss + e)) by (nonlinear_arith)
            requires
                se * scale32() + l * scale32() >= r * ss,
                q * scale32() + scale32() > e * r,
        ;
    }
}

/// Scores that sum to one up to truncation hand out almost all of the
/// emission: what stays undistributed is at most `n * (1 + rao / 2^32)`.
pub proof fn lemma_emission_sum_lower(scores: Seq<i64>, r: int)
    requires
        proportions(scores),
        sum32(scores) >= ONE - scores.len(),
        0 <= r <= u64::MAX,
    ensures
        (r - sum_u64(spec_rao_emission(scores, r))) * scale32() <= scores.len() * scale32()
            + scores.len() * r,
{
    lemma_emission_sum_lower_rec(scores, r);
    let se = sum_u64(spec_rao_emission(scores, r));
    let n = scores.len() as int;
    let ss = sum32(scores);
    assert((r - se) * scale32() <= n * scale32() + n * r) by (nonlinear_arith)
        requires
            se * scale32() + n * scale32() >= r * ss,
            ss >= scale32() - n,
            0 <= r,
    ;
}

/// The normalized emission scores: incentive plus dividends, normalized;
/// if that is all zero, the active stake, or the stake where there is no
/// active stake.
pub(crate) fn scores_stage(
    incentive: &Vec<i64>,
    dividends: &Vec<i64>,
    active_stake: &Vec<i64>,
    stake: &Vec<i64>,
) -> (r: Vec<i64>)
    requires
        proportions(incentive@),
        proportions(dividends@),
        proportions(active_stake@),
        proportions(stake@),
        incentive@.len() <= 65536,
    ensures
        r@ == emission_scores(
            normalized(added(incentive@, dividends@)),
            active_stake@,
            stake@,
        ),
        proportions(r@),
{
    let mut normalized_emission: Vec<i64> = Vec::new();
    let mut i: usize = 0;
    while i < incentive.len() && i < dividends.len()
        invariant
            0 <= i <= incentive@.len(),
            i <= dividends@.len(),
            proportions(incentive@),
            proportions(dividends@),
            normalized_emission@ =~= added(incentive@, dividends@).take(i as int),
        decreases incentive.len() - i,
    {
        let x = fx32_add(incentive[i], dividends[i]);
        normalized_emission.push(x);
        i = i + 1;
    }
    proof {
        assert(normalized_emission@ =~= added(incentive@, dividends@));
        assert(bounded32(normalized_emission@, 2 * ONE)) by {
            assert forall|k: int| 0 <= k < normalized_emission@.len() implies 0
                <= #[trigger] normalized_emission@[k] <= 2 * ONE by {
                assert(normalized_emission@[k] == incentive@[k] + dividends@[k]);
            }
        }
        lemma_normalize_small(normalized_emission@, 2 * ONE);
        crate::vector::lemma_normalize_ok(normalized_emission@);
    }
    inplace_normalize(&mut normalized_emission);
    proof {
        crate::sums::lemma_proportions_fit(normalized_emission@);
        crate::sums::lemma_proportions_fit(active_stake@);
    }
    if is_zero(&normalized_emission) {
        if is_zero(active_stake) {
            normalized_emission = stake.clone();
            proof {
                assert(normalized_emission@ =~= stake@);
            }
        } else {
            normalized_emission = active_stake.clone();
            proof {
                assert(normalized_emission@ =~= active_stake@);
            }
        }
    }
    normalized_emission
}

/// The sum of a sequence of `u64`.
pub open spec fn sum_u64(s: Seq<u64>) -> int
    decreases s.len(),
{
    if s.len() == 0 {
        0
    } else {
        sum_u64(s.drop_last()) + s.last()
    }
}

/// The second components of a sequence of pairs.
pub open spec fn pair_values(s: Seq<(u16, u64)>) -> Seq<u64> {
    Seq::new(s.len(), |k: int| s[k].1)
}

/// The values of `e` at the indices `idx`, in order.
pub open spec fn selected(e: Seq<u64>, idx: Seq<u16>) -> Seq<u64> {
    Seq::new(idx.len(), |k: int| e[idx[k] as int])
}

pub proof fn lemma_sum_u64_nonneg(e: Seq<u64>)
    ensures
        0 <= sum_u64(e),
    decreases e.len(),
{
    if e.len() > 0 {
        lemma_sum_u64_nonneg(e.drop_last());
    }
}

proof fn lemma_sum_u64_update(e: Seq<u64>, p: int, v: u64)
    requires
        0 <= p < e.len(),
    ensures
        sum_u64(e.update(p, v)) == sum_u64(e) - e[p] + v,
    decreases e.len(),
{
    if p == e.len() - 1 {
        assert(e.update(p, v).drop_last() =~= e.drop_last());
    } else {
        assert(e.update(p, v).drop_last() =~= e.drop_last().update(p, v));
        lemma_sum_u64_update(e.drop_last(), p, v);
    }
}

/// The values at distinct indices sum to at most the whole sum.
pub proof fn lemma_selected_sum_le(e: Seq<u64>, idx: Seq<u16>)
    requires
        forall|k: int| 0 <= k < idx.len() ==> (#[trigger] idx[k]) < e.len(),
        forall|a: int, b: int| 0 <= a < b < idx.len() ==> #[trigger] idx[a] != #[trigger] idx[b],
    ensures
        sum_u64(selected(e, idx)) <= sum_u64(e),
    decreases idx.len(),
{
    if idx.len() == 0 {
        lemma_sum_u64_nonneg(e);
    } else {
        let last = idx.len() - 1;
        let p = idx[last] as int;
        let e2 = e.update(p, 0);
        let idx2 = idx.drop_last();
        assert forall|k: int| 0 <= k < idx2.len() implies (#[trigger] idx2[k]) < e2.len() by {
            assert(idx2[k] == idx[k]);
        }
        assert forall|a: int, b: int| 0 <= a < b < idx2.len() implies #[trigger] idx2[a]
            != #[trigger] idx2[b] by {
            assert(idx2[a] == idx[a] && idx2[b] == idx[b]);
        }
        lemma_selected_sum_le(e2, idx2);
        lemma_sum_u64_update(e, p, 0);
        assert(selected(e2, idx2) =~= selected(e, idx).drop_last()) by {
            assert forall|k: int| 0 <= k < idx2.len() implies #[trigger] selected(e2, idx2)[k]
                == selected(e, idx).drop_last()[k] by {
                assert(idx[k] != idx[last]);
            }
        }
        assert(selected(e, idx).last() == e[p]);
    }
}

/// The emission of each uid: its score times `rao_emission`, truncated.
pub open spec fn spec_rao_emission(scores: Seq<i64>, rao_emission: int) -> Seq<u64> {
    Seq::new(scores.len(), |i: int| ((scores[i] * rao_emission) / scale32()) as u64)
}

/// The emission of each uid from its normalized score: `score * rao_emission`
/// on `I96F32`, truncated to `u64`.  The emissions sum to at most
/// `rao_emission`.
pub(crate) fn emission_stage(scores: &Vec<i64>, rao_emission: u64) -> (r: Vec<u64>)
    requires
        proportions(scores@),
    ensures
        r@ == spec_rao_emission(scores@, rao_emission as int),
        sum_u64(r@) <= rao_emission,
        forall|i: int| 0 <= i < r@.len() ==> #[trigger] r@[i] <= rao_emission,
{
    let float_rao_emission = fx96_from_u64(rao_emission);
    let mut emission: Vec<u64> = Vec::new();
    let mut i: usize = 0;
    while i < scores.len()
        invariant
            0 <= i <= scores@.len(),
            proportions(scores@),
            float_rao_emission == rao_emission * scale32(),
            emission@ =~= spec_rao_emission(scores@, rao_emission as int).take(i as int),
            sum_u64(emission@) * scale32() <= sum32(scores@.take(i as int)) * rao_emission,
            forall|k: int| 0 <= k < i ==> #[trigger] emission@[k] <= rao_emission,
        decreases scores.len() - i,
    {
        let e = scores[i];
        let ghost ei = e as int;
        let ghost ri = rao_emission as int;
        proof {
            assert(0 <= ei <= scale32());
            assert(ei * (ri * scale32()) == scale32() * (ei * ri)) by (nonlinear_arith);
            lemma_div_multiples_vanish(ei * ri, scale32());
            lemma_mul_inequality(ei, scale32(), ri);
            lemma_mul_nonnegative(ei, ri);
            assert(ei * ri <= 18446744073709551615 * scale32()) by (nonlinear_arith)
                requires
                    ei <= scale32(),
                    0 <= ri <= 18446744073709551615,
                    0 <= ei,
            ;
            lemma_div_is_ordered(ei * ri, scale32() * ri, scale32());
            lemma_div_multiples_vanish(ri, scale32());
            lemma_div_pos_is_pos(ei * ri, scale32());
        }
        let e96 = fx96_from_fx32(e);
        let p = fx96_mul(e96, float_rao_emission);
        let v = fx96_to_u64(p);
        proof {
            let q = (ei * ri) / scale32();
            assert(v == q);
            lemma_fundamental_div_mod(ei * ri, scale32());
            lemma_mod_bound(ei * ri, scale32());
            crate::sums::lemma_sum32_take_step(scores@, i as int);
            let es = emission@.push(v);
            assert(es.drop_last() =~= emission@);
            let a = sum_u64(emission@);
            let b = sum32(scores@.take(i as int));
            assert((a + q) * scale32() <= (b + ei) * ri) by (nonlinear_arith)
                requires
                    a * scale32() <= b * ri,
                    q * scale32() <= ei * ri,
            ;
        }
        emission.push(v);
        i = i + 1;
    }
    proof {
        assert(scores@.take(scores@.len() as int) =~= scores@);
        let a = sum_u64(emission@);
        let b = sum32(scores@);
        let ri = rao_emission as int;
        assert(a <= ri) by (nonlinear_arith)
            requires
                a * scale32() <= b * ri,
                b <= scale32(),
                0 <= ri,
                scale32() > 0,
        ;
    }
    emission
}

/// A sparse matrix of fixed-point proportions as `u16` fractions of 65535.
pub open spec fn bonds_to_u16(m: Seq<Seq<(u16, i64)>>) -> Seq<Seq<(u16, u16)>> {
    Seq::new(
        m.len(),
        |i: int|
            Seq::new(
                m[i].len(),
                |k: int| (m[i][k].0, spec_fixed_proportion_to_u16(m[i][k].1 as int) as u16),
            ),
    )
}

/// The rows of a matrix of `u16` proportions.
pub open spec fn rows_u16(m: Seq<Vec<(u16, u16)>>) -> Seq<Seq<(u16, u16)>> {
    Seq::new(m.len(), |i: int| m[i]@)
}

/// Converts the values of a unit sparse matrix to `u16` proportions.
fn bonds_to_u16_stage(bonds: &Vec<Vec<(u16, i64)>>, n: u16) -> (r: Vec<Vec<(u16, u16)>>)
    requires
        unit_sparse(rows(bonds@), n as int),
    ensures
        rows_u16(r@) == bonds_to_u16(rows(bonds@)),
{
    let mut result: Vec<Vec<(u16, u16)>> = Vec::new();
    let mut i: usize = 0;
    while i < bonds.len()
        invariant
            0 <= i <= bonds@.len(),
            unit_sparse(rows(bonds@), n as int),
            result@.len() == i,
            forall|a: int| 0 <= a < i ==> #[trigger] result@[a]@ == bonds_to_u16(rows(bonds@))[a],
        decreases bonds.len() - i,
    {
        let row = &bonds[i];
        proof {
            assert(row@ == rows(bonds@)[i as int]);
            assert(crate::sparse::unit_row(row@, n as int));
        }
        let mut new_row: Vec<(u16, u16)> = Vec::new();
        let mut k: usize = 0;
        while k < row.len()
            invariant
                0 <= k <= row@.len(),
                crate::sparse::unit_row(row@, n as int),
                new_row@ =~= Seq::new(
                    row@.len(),
                    |c: int| (row@[c].0, spec_fixed_proportion_to_u16(row@[c].1 as int) as u16),
                ).take(k as int),
            decreases row.len() - k,
        {
            let (j, value) = row[k];
            proof {
                crate::vector::lemma_proportion_to_u16_ok(value as int);
            }
            let v = crate::vector::fixed_proportion_to_u16(value);
            new_row.push((j, v));
            k = k + 1;
        }
        proof {
            assert(new_row@ =~= bonds_to_u16(rows(bonds@))[i as int]);
        }
        result.push(new_row);
        i = i + 1;
    }
    proof {
        assert(rows_u16(result@) =~= bonds_to_u16(rows(bonds@)));
    }
    result
}

/// What the epoch reads of one network.
pub struct NetworkState {
    /// The number of uids.
    pub n: u16,
    /// The current block.
    pub current_block: u64,
    /// How many blocks a uid may go without setting weights before it is
    /// inactive.
    pub activity_cutoff: u16,
    /// The bonds moving average, in millionths.
    pub bonds_moving_average: u64,
    /// The block at which each uid last set weights.
    pub last_update: Vec<u64>,
    /// For each uid, the block at which it was registered, if a key holds it.
    pub registrations: Vec<Option<u64>>,
    /// The keys of the network, in store order: the uid of each and the
    /// total stake of the key.
    pub keys: Vec<(u16, u64)>,
    /// The stored weights, row by row.
    pub weights: StoredRows,
    /// The stored bonds, row by row.
    pub bonds: StoredRows,
}

/// What the epoch writes back for one network.
pub struct EpochOutput {
    /// Whether each uid is active.
    pub active: Vec<bool>,
    /// The emission of each uid.
    pub emission: Vec<u64>,
    /// The rank of each uid, as a fraction of 65535.
    pub ranks: Vec<u16>,
    /// The incentive of each uid, as a fraction of 65535.
    pub incentive: Vec<u16>,
    /// The dividends of each uid, as a fraction of 65535.
    pub dividends: Vec<u16>,
    /// The pruning score of each uid, as a fraction of 65535.
    pub pruning_scores: Vec<u16>,
    /// The new bonds, row by row, as fractions of 65535.
    pub bonds: Vec<Vec<(u16, u16)>>,
    /// For each key in order, its uid and its emission.
    pub key_emission: Vec<(u16, u64)>,
}

impl NetworkState {
    /// The state the network keeps: one last-update block and one
    /// registration entry per uid, block counts that do not overflow, keys
    /// on distinct uids below `n` (the store holds one key per uid) whose
    /// stake fits the fixed-point stake, a total stake that fits,
    /// well-formed stored weights and bonds, and a bonds moving average
    /// whose weight for the new bonds can be computed.
    pub open spec fn wf(&self) -> bool {
        &&& self.last_update@.len() == self.n
        &&& self.registrations@.len() == self.n
        &&& forall|i: int|
            0 <= i < self.last_update@.len() ==> #[trigger] self.last_update@[i]
                + self.activity_cutoff <= u64::MAX
        &&& forall|k: int|
            0 <= k < self.keys@.len() ==> (#[trigger] self.keys@[k]).0 < self.n && self.keys@[k].1
                <= i64::MAX
        &&& forall|a: int, b: int|
            0 <= a < b < self.keys@.len() ==> #[trigger] self.keys@[a].0 != #[trigger] self.keys@[b].0
        &&& sum64(stake_bits(self.n as int, self.keys@)) <= i128::MAX
        &&& stored_rows_wf(self.weights@, self.n as int)
        &&& stored_rows_wf(self.bonds@, self.n as int)
        &&& alpha_fits(self.bonds_moving_average as int)
    }

    /// Whether each uid is inactive.
    pub open spec fn spec_inactive(&self) -> Seq<bool> {
        inactive_mask(self.last_update@, self.activity_cutoff as int, self.current_block as int)
    }

    /// The block at which each uid was registered, zero where no key holds it.
    pub open spec fn spec_block_at_registration(&self) -> Seq<u64> {
        spec_block_at_registration(self.n as int, self.registrations@)
    }

    /// The normalized stake.
    pub open spec fn spec_stake(&self) -> Seq<i64> {
        to_fixed32(normalized64(stake_bits(self.n as int, self.keys@)))
    }

    /// The stake of the active uids, normalized.
    pub open spec fn spec_active_stake(&self) -> Seq<i64> {
        normalized(masked(self.spec_inactive(), self.spec_stake()))
    }

    /// The weights without self-weights and outdated weights, rows
    /// normalized.
    pub open spec fn spec_weights(&self) -> Seq<Seq<(u16, i64)>> {
        row_normalized(
            outdated_masked(
                diag_masked(spec_sparse_from_store(self.weights@, self.n as int)),
                self.last_update@,
                self.spec_block_at_registration(),
            ),
        )
    }

    /// The ranks, normalized; the incentive is the same.
    pub open spec fn spec_ranks(&self) -> Seq<i64> {
        normalized(spec_matmul_sparse(self.spec_weights(), self.spec_active_stake(), self.n as int))
    }

    /// The stored bonds without outdated bonds, columns normalized.
    pub open spec fn spec_stored_bonds(&self) -> Seq<Seq<(u16, i64)>> {
        col_normalized(
            outdated_masked(
                spec_sparse_from_store(self.bonds@, self.n as int),
                self.last_update@,
                self.spec_block_at_registration(),
            ),
        )
    }

    /// The bonds delta `W o S`, columns normalized.
    pub open spec fn spec_new_bonds(&self) -> Seq<Seq<(u16, i64)>> {
        col_normalized(spec_row_hadamard_sparse(self.spec_weights(), self.spec_active_stake()))
    }

    /// The new bonds: the moving average of the bonds delta and the stored
    /// bonds, columns normalized.
    pub open spec fn spec_bonds(&self) -> Seq<Seq<(u16, i64)>> {
        col_normalized(
            spec_mat_ema_sparse(
                self.spec_new_bonds(),
                self.spec_stored_bonds(),
                spec_alpha(self.bonds_moving_average as int),
            ),
        )
    }

    /// The dividends, normalized.
    pub open spec fn spec_dividends(&self) -> Seq<i64> {
        normalized(spec_matmul_transpose_sparse(self.spec_bonds(), self.spec_ranks()))
    }

    /// The normalized emission scores, which are also the pruning scores.
    pub open spec fn spec_scores(&self) -> Seq<i64> {
        emission_scores(
            normalized(added(self.spec_ranks(), self.spec_dividends())),
            self.spec_active_stake(),
            self.spec_stake(),
        )
    }
}

/// The block at which each of the `n` uids was registered, or zero.
pub open spec fn spec_block_at_registration(n: int, registrations: Seq<Option<u64>>) -> Seq<u64> {
    Seq::new(
        n as nat,
        |i: int|
            match registrations[i] {
                Some(b) => b,
                None => 0u64,
            },
    )
}

/// The stake of each uid as `I64F64` bits, from the stake of each uid.
pub open spec fn uid_stake_bits(stakes: Seq<u64>) -> Seq<i128> {
    Seq::new(stakes.len(), |i: int| (stakes[i] * scale64()) as i128)
}

/// The consensus of the subspace network, on values read from its store.
pub struct Pallet;

impl Pallet {
    /// The block at which each of the `n` uids was registered, zero for a
    /// uid that no key holds.
    pub fn get_block_at_registration(n: u16, registrations: &Vec<Option<u64>>) -> (r: Vec<u64>)
        requires
            registrations@.len() >= n,
        ensures
            r@ == spec_block_at_registration(n as int, registrations@),
    {
        let mut block_at_registration: Vec<u64> = Vec::new();
        let mut module_uid: usize = 0;
        while module_uid < n as usize
            invariant
                0 <= module_uid <= n,
                registrations@.len() >= n,
                block_at_registration@ =~= spec_block_at_registration(
                    n as int,
                    registrations@,
                ).take(module_uid as int),
            decreases n - module_uid,
        {
            let b = match registrations[module_uid] {
                Some(b) => b,
                None => 0,
            };
            block_at_registration.push(b);
            module_uid = module_uid + 1;
        }
        proof {
            assert(block_at_registration@ =~= spec_block_at_registration(n as int, registrations@));
        }
        block_at_registration
    }

    /// The stake of each uid, normalized to sum to one.
    pub fn get_normalized_stake(stakes: &Vec<u64>) -> (r: Vec<i64>)
        requires
            forall|i: int| 0 <= i < stakes@.len() ==> #[trigger] stakes@[i] <= i64::MAX,
            sum64(uid_stake_bits(stakes@)) <= i128::MAX,
        ensures
            r@ == to_fixed32(normalized64(uid_stake_bits(stakes@))),
            proportions(r@),
            stakes@.len() <= 65536 && sum64(uid_stake_bits(stakes@)) > 0 ==> sum32(r@) >= ONE
                - stakes@.len(),
            r@.len() == stakes@.len(),
            forall|i: int|
                0 <= i < stakes@.len() ==> #[trigger] r@[i] == (if sum_u64(stakes@) == 0 {
                    0
                } else {
                    ((stakes@[i] * scale64()) * scale64() / (sum_u64(stakes@) * scale64()))
                        / scale32()
                }),
    {
        let mut stake_64: Vec<i128> = Vec::new();
        let mut module_uid: usize = 0;
        while module_uid < stakes.len()
            invariant
                0 <= module_uid <= stakes@.len(),
                forall|i: int| 0 <= i < stakes@.len() ==> #[trigger] stakes@[i] <= i64::MAX,
                stake_64@ =~= uid_stake_bits(stakes@).take(module_uid as int),
            decreases stakes.len() - module_uid,
        {
            let v = fx64_from_u64(stakes[module_uid]);
            stake_64.push(v);
            module_uid = module_uid + 1;
        }
        proof {
            assert(stake_64@ =~= uid_stake_bits(stakes@));
            assert forall|i: int| 0 <= i < stake_64@.len() implies 0 <= #[trigger] stake_64@[i] by {
                lemma_mul_nonnegative(stakes@[i] as int, scale64());
                lemma_mul_inequality(stakes@[i] as int, i64::MAX as int, scale64());
            }
        }
        proof {
            if stakes@.len() <= 65536 && sum64(uid_stake_bits(stakes@)) > 0 {
                crate::vector::lemma_normalized64_sum_lower(uid_stake_bits(stakes@));
            }
            crate::input_laws::lemma_normalized_stake_of_uids(stakes@);
        }
        normalize_stake_bits(stake_64)
    }

    /// The stored weights as a sparse matrix with `n` rows.
    pub fn get_weights_sparse(n: u16, stored: &StoredRows) -> (r: Vec<Vec<(u16, i64)>>)
        requires
            stored_uids_below(stored@, n as int),
        ensures
            rows(r@) == spec_sparse_from_store(stored@, n as int),
    {
        sparse_from_store(n, stored)
    }

    /// The stored weights as a dense `n` by `n` matrix.
    pub fn get_weights(n: u16, stored: &StoredRows) -> (r: Vec<Vec<i64>>)
        requires
            stored_indices_below(stored@, n as int),
        ensures
            r@.len() == n,
            forall|i: int|
                0 <= i < n ==> (#[trigger] r@[i])@ == spec_dense_from_store(stored@, n as int)[i],
    {
        dense_from_store(n, stored)
    }

    /// The stored bonds as a sparse matrix with `n` rows.
    pub fn get_bonds_sparse(n: u16, stored: &StoredRows) -> (r: Vec<Vec<(u16, i64)>>)
        requires
            stored_uids_below(stored@, n as int),
        ensures
            rows(r@) == spec_sparse_from_store(stored@, n as int),
    {
        sparse_from_store(n, stored)
    }

    /// The stored bonds as a dense `n` by `n` matrix.
    pub fn get_bonds(n: u16, stored: &StoredRows) -> (r: Vec<Vec<i64>>)
        requires
            stored_indices_below(stored@, n as int),
        ensures
            r@.len() == n,
            forall|i: int|
                0 <= i < n ==> (#[trigger] r@[i])@ == spec_dense_from_store(stored@, n as int)[i],
    {
        dense_from_store(n, stored)
    }
}

/// The stored bonds without outdated entries, columns normalized.
fn stored_bonds_stage(
    n: u16,
    stored: &StoredRows,
    last_update: &Vec<u64>,
    block_at_registration: &Vec<u64>,
) -> (r: Vec<Vec<(u16, i64)>>)
    requires
        stored_rows_wf(stored@, n as int),
        last_update@.len() == n,
        block_at_registration@.len() == n,
    ensures
        rows(r@) == col_normalized(
            outdated_masked(
                spec_sparse_from_store(stored@, n as int),
                last_update@,
                block_at_registration@,
            ),
        ),
        r@.len() == n,
        unit_sparse(rows(r@), n as int),
        forall|j: int| #[trigger] crate::sparse::col_sum(rows(r@), j) <= ONE,
{
    let bonds = Pallet::get_bonds_sparse(n, stored);
    proof {
        crate::storage::lemma_sparse_from_store_unit(stored@, n as int);
        assert forall|i: int, k: int|
            0 <= i < bonds@.len() && 0 <= k < rows(bonds@)[i].len() implies (
            #[trigger] rows(bonds@)[i][k]).0 < block_at_registration@.len() by {
            assert(crate::sparse::unit_row(rows(bonds@)[i], n as int));
        }
    }
    let mut masked_bonds = vec_mask_sparse_matrix(&bonds, last_update, block_at_registration);
    proof {
        let m = rows(bonds@);
        assert forall|i: int| 0 <= i < n implies crate::sparse::unit_row(
            #[trigger] rows(masked_bonds@)[i],
            n as int,
        ) by {
            assert(crate::sparse::unit_row(m[i], n as int));
            crate::sparse::lemma_filter_unit_row(
                m[i],
                crate::sparse::not_outdated(last_update@[i], block_at_registration@),
                n as int,
            );
        }
    }
    col_normalize_unit(&mut masked_bonds, n);
    masked_bonds
}

impl Pallet {
    /// Computes the consensus of a network for one epoch, on its sparse
    /// weights: active uids, ranks, incentive, dividends, pruning scores,
    /// the emission of `rao_emission` among the uids, and the new bonds.
    pub fn epoch(state: &NetworkState, rao_emission: u64) -> (out: EpochOutput)
        requires
            state.wf(),
        ensures
            out.active@ == Seq::new(state.n as nat, |i: int| !state.spec_inactive()[i]),
            out.active@.len() == state.n,
            forall|i: int|
                0 <= i < state.n ==> #[trigger] out.active@[i] == (state.last_update@[i]
                    + state.activity_cutoff >= state.current_block),
            out.emission@ == spec_rao_emission(state.spec_scores(), rao_emission as int),
            out.ranks@ == proportions_to_u16(state.spec_ranks()),
            out.incentive@ == proportions_to_u16(state.spec_ranks()),
            out.dividends@ == proportions_to_u16(state.spec_dividends()),
            out.pruning_scores@ == proportions_to_u16(state.spec_scores()),
            rows_u16(out.bonds@) == bonds_to_u16(state.spec_bonds()),
            out.key_emission@ == Seq::new(
                state.keys@.len(),
                |k: int|
                    (
                        state.keys@[k].0,
                        spec_rao_emission(state.spec_scores(), rao_emission as int)[state.keys@[k].0 as int],
                    ),
            ),
            out.emission@.len() == state.n,
            sum_u64(out.emission@) <= rao_emission,
            forall|i: int| 0 <= i < out.emission@.len() ==> #[trigger] out.emission@[i] <= rao_emission,
            sum_u64(pair_values(out.key_emission@)) <= rao_emission,
            sum64(stake_bits(state.n as int, state.keys@)) > 0 ==> (rao_emission - sum_u64(
                out.emission@,
            )) * scale32() <= state.n * scale32() + state.n * rao_emission,
            proportions(state.spec_stake()),
            proportions(state.spec_active_stake()),
            proportions(state.spec_ranks()),
            proportions(state.spec_dividends()),
            proportions(state.spec_scores()),
            forall|j: int| #[trigger] crate::sparse::col_sum(state.spec_bonds(), j) <= ONE,
    {
        let n: u16 = state.n;
        let current_block: u64 = state.current_block;
        let activity_cutoff: u64 = state.activity_cutoff as u64;
        let inactive = inactive_of(&state.last_update, activity_cutoff, current_block);
        let active = negation(&inactive);
        let block_at_registration = Self::get_block_at_registration(n, &state.registrations);

        // Stake, and the stake of the active uids.
        let stake = stake_stage(n, &state.keys);
        let active_stake = active_stake_stage(&stake, &inactive);
        proof {
            crate::sums::lemma_sum32_bounded(active_stake@, ONE as int);
        }

        // Weights without self-weights and outdated weights, rows normalized.
        let weights = weights_stage(n, &state.weights, &state.last_update, &block_at_registration);

        // Ranks and incentive.
        let _preranks = matmul_sparse(&weights, &active_stake, n);
        let ranks = ranks_stage(&weights, &active_stake, n);
        let incentive = ranks.clone();
        proof {
            assert(incentive@ =~= ranks@);
        }

        // Bonds: the stored bonds are masked and normalized; the bonds delta
        // W o S is normalized; the new bonds are their moving average.
        let stored_bonds = stored_bonds_stage(n, &state.bonds, &state.last_update, &block_at_registration);
        let delta = bonds_delta_stage(&weights, &active_stake, n);
        let alpha = alpha_of(state.bonds_moving_average);
        let bonds = ema_bonds_stage(&delta, &stored_bonds, alpha, n);
        let dividends = dividends_stage(&bonds, &incentive);

        // Emission and pruning scores.
        let normalized_emission = scores_stage(&incentive, &dividends, &active_stake, &stake);
        let emission = emission_stage(&normalized_emission, rao_emission);
        proof {
            if sum64(stake_bits(n as int, state.keys@)) > 0 {
                lemma_stake_bits_nonneg(n as int, state.keys@);
                crate::vector::lemma_normalized64_sum_lower(stake_bits(n as int, state.keys@));
                let m = crate::vector::masked(inactive@, stake@);
                if sum32(active_stake@) != 0 {
                    assert(bounded32(m, i64::MAX as int)) by {
                        assert forall|i: int| 0 <= i < m.len() implies 0 <= #[trigger] m[i] <= i64::MAX by {
                            assert(0 <= stake@[i] <= ONE);
                        }
                    }
                    crate::sums::lemma_sum32_bounded(m, i64::MAX as int);
                    crate::vector::lemma_normalized_sum_lower(m);
                }
                lemma_scores_sum_lower(incentive@, dividends@, active_stake@, stake@, n as int);
                lemma_emission_sum_lower(normalized_emission@, rao_emission as int);
            }
        }
        let pruning_scores = normalized_emission.clone();
        proof {
            assert(pruning_scores@ =~= normalized_emission@);
            assert(forall|i: int| 0 <= i < ranks@.len() ==> crate::vector::proportion_to_u16_ok(#[trigger] ranks@[i] as int)) by {
                assert forall|i: int| 0 <= i < ranks@.len() implies crate::vector::proportion_to_u16_ok(#[trigger] ranks@[i] as int) by {
                    crate::vector::lemma_proportion_to_u16_ok(ranks@[i] as int);
                }
            }
            assert forall|i: int| 0 <= i < dividends@.len() implies crate::vector::proportion_to_u16_ok(#[trigger] dividends@[i] as int) by {
                crate::vector::lemma_proportion_to_u16_ok(dividends@[i] as int);
            }
            assert forall|i: int| 0 <= i < pruning_scores@.len() implies crate::vector::proportion_to_u16_ok(#[trigger] pruning_scores@[i] as int) by {
                crate::vector::lemma_proportion_to_u16_ok(pruning_scores@[i] as int);
            }
        }
        let ranks_u16 = vec_fixed_proportions_to_u16(ranks.clone());
        let incentive_u16 = vec_fixed_proportions_to_u16(incentive);
        let dividends_u16 = vec_fixed_proportions_to_u16(dividends);
        let pruning_scores_u16 = vec_fixed_proportions_to_u16(pruning_scores);
        let bonds_u16 = bonds_to_u16_stage(&bonds, n);

        // Emission of each key.
        let mut key_emission: Vec<(u16, u64)> = Vec::new();
        let mut k: usize = 0;
        while k < state.keys.len()
            invariant
                0 <= k <= state.keys@.len(),
                state.wf(),
                emission@.len() == state.n,
                key_emission@ =~= Seq::new(
                    state.keys@.len(),
                    |x: int| (state.keys@[x].0, emission@[state.keys@[x].0 as int]),
                ).take(k as int),
            decreases state.keys.len() - k,
        {
            let (uid_i, _stake) = state.keys[k];
            key_emission.push((uid_i, emission[uid_i as usize]));
            k = k + 1;
        }
        proof {
            assert(key_emission@ =~= Seq::new(
                state.keys@.len(),
                |x: int| (state.keys@[x].0, emission@[state.keys@[x].0 as int]),
            ));
            let uids = Seq::new(state.keys@.len(), |x: int| state.keys@[x].0);
            assert(pair_values(key_emission@) =~= selected(emission@, uids));
            lemma_selected_sum_le(emission@, uids);
        }
        EpochOutput {
            active,
            emission,
            ranks: ranks_u16,
            incentive: incentive_u16,
            dividends: dividends_u16,
            pruning_scores: pruning_scores_u16,
            bonds: bonds_u16,
            key_emission,
        }
    }
}

} // verus!
