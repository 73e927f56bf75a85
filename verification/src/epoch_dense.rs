//! The epoch on dense weights and bonds, with an exponential moving average
//! of the bonds.

use crate::dense::{
    col_one_sign, cols_normalized, degenerate, dense_rows, diag_zeroed, inplace_col_normalize,
    inplace_mask_diag, inplace_mask_matrix, inplace_row_normalize, mask_applied, mask_rows, mat_ema,
    matmul, matmul_transpose, rect, row_hadamard, rows_normalized, spec_mat_ema, spec_matmul,
    spec_matmul_transpose, spec_row_hadamard, unit_dense,
};
use crate::epoch::{
    active_stake_stage, added, lemma_emission_sum_lower, lemma_scores_sum_lower, lemma_selected_sum_le, lemma_stake_bits_nonneg, pair_values, selected, emission_scores, emission_stage, inactive_of, lemma_normalize_small,
    negation, rows_u16, scores_stage, spec_rao_emission, stake_bits, stake_stage, sum_u64, EpochOutput,
    NetworkState, Pallet,
};
use crate::fixed::{
    fdiv64, fx32_from_fx64, fx32_from_u16, fx32_sub, fx64_div, fx64_from_u64, scale32, scale64, ONE,
};
use crate::storage::{spec_dense_from_store, stored_indices_below, StoredRows};
use crate::sums::{bounded32, proportions, sum32, sum64};
use crate::vector::{
    inplace_normalize, normalized, proportions_to_u16, spec_fixed_proportion_to_u16,
    vec_fixed_proportions_to_u16,
};
use vstd::arithmetic::div_mod::*;
use vstd::arithmetic::mul::*;
use vstd::prelude::*;

verus! {

/// `outdated[i][j]`: uid `i` last set weights no later than uid `j` was
/// registered.
pub open spec fn outdated_matrix(last_update: Seq<u64>, block_at_registration: Seq<u64>) -> Seq<
    Seq<bool>,
> {
    Seq::new(
        last_update.len(),
        |i: int|
            Seq::new(block_at_registration.len(), |j: int| last_update[i] <= block_at_registration[j]),
    )
}

/// The weight of the new bonds in their moving average: one minus the
/// bonds moving average (given in millionths), as `I32F32` bits.
pub open spec fn spec_alpha(bonds_moving_average: int) -> int {
    ONE - fdiv64(bonds_moving_average * scale64(), 1000000 * scale64()) / scale32()
}

/// The bonds of row `i` as `(j, u16 proportion)` pairs for the first `n`
/// columns.
pub open spec fn dense_bonds_row_u16(row: Seq<i64>, n: int) -> Seq<(u16, u16)> {
    Seq::new(
        if n <= row.len() {
            n as nat
        } else {
            row.len()
        },
        |j: int| (j as u16, spec_fixed_proportion_to_u16(row[j] as int) as u16),
    )
}

impl NetworkState {
    /// The state that the dense epoch needs: one last-update block and one
    /// registration entry per uid, block counts that do not overflow, keys
    /// on distinct uids below `n` whose stake fits, a total stake that fits,
    /// stored weights and bonds whose indices are below `n` (the uid of an
    /// empty row aside), a bonds moving average whose weight for the new
    /// bonds can be computed, and a moving average of the bonds whose
    /// columns can be normalized into proportions.
    pub open spec fn wf_dense(&self) -> bool {
        &&& self.last_update@.len() == self.n
        &&& self.registrations@.len() == self.n
        &&& forall|i: int|
            0 <= i < self.last_update@.len() ==> #[trigger] self.last_update@[i]
                + self.activity_cutoff <= u64::MAX
        &&& forall|k: int|
            0 <= k < self.keys@.len() ==> (#[trigger] self.keys@[k]).0 < self.n && self.keys@[k].1
                <= i64::MAX
        &&& forall|a: int, b: int|
            0 <= a < b < self.keys@.len() ==> #[trigger] self.keys@[a].0 != #[trigger] self.keys@[b].0
        &&& sum64(stake_bits(self.n as int, self.keys@)) <= i128::MAX
        &&& stored_indices_below(self.weights@, self.n as int)
        &&& stored_indices_below(self.bonds@, self.n as int)
        &&& alpha_fits(self.bonds_moving_average as int)
        &&& self.spec_ema_cols_of_one_sign()
    }

    /// Each column of the moving average of the bonds, before it is
    /// normalized, has entries of one sign.  Otherwise normalizing the
    /// column leaves a negative bond, which no `u16` proportion holds.
    pub open spec fn spec_ema_cols_of_one_sign(&self) -> bool {
        forall|j: int|
            0 <= j < self.n ==> #[trigger] col_one_sign(
                spec_mat_ema(
                    self.spec_bonds_delta(),
                    self.spec_dense_stored_bonds(),
                    spec_alpha(self.bonds_moving_average as int),
                ),
                j,
            )
    }

    /// The outdated mask.
    pub open spec fn spec_outdated(&self) -> Seq<Seq<bool>> {
        outdated_matrix(self.last_update@, self.spec_block_at_registration())
    }

    /// The dense weights: self-weights and outdated weights set to zero,
    /// rows normalized.
    pub open spec fn spec_dense_weights(&self) -> Seq<Seq<i64>> {
        rows_normalized(
            mask_applied(
                self.spec_outdated(),
                diag_zeroed(spec_dense_from_store(self.weights@, self.n as int)),
            ),
        )
    }

    /// The ranks on dense weights, normalized; the incentive is the same.
    pub open spec fn spec_dense_ranks(&self) -> Seq<i64> {
        normalized(spec_matmul(self.spec_dense_weights(), self.spec_active_stake()))
    }

    /// The stored bonds with outdated bonds set to zero, columns normalized.
    pub open spec fn spec_dense_stored_bonds(&self) -> Seq<Seq<i64>> {
        cols_normalized(
            mask_applied(self.spec_outdated(), spec_dense_from_store(self.bonds@, self.n as int)),
        )
    }

    /// The bonds delta `W o S`, columns normalized.
    pub open spec fn spec_bonds_delta(&self) -> Seq<Seq<i64>> {
        cols_normalized(spec_row_hadamard(self.spec_dense_weights(), self.spec_active_stake()))
    }

    /// The moving average of the bonds, columns normalized.
    pub open spec fn spec_ema_bonds(&self) -> Seq<Seq<i64>> {
        cols_normalized(
            spec_mat_ema(
                self.spec_bonds_delta(),
                self.spec_dense_stored_bonds(),
                spec_alpha(self.bonds_moving_average as int),
            ),
        )
    }

    /// The dividends on the moving average of the bonds, normalized.
    pub open spec fn spec_dense_dividends(&self) -> Seq<i64> {
        normalized(spec_matmul_transpose(self.spec_ema_bonds(), self.spec_dense_ranks()))
    }

    /// The normalized emission scores on dense weights.
    pub open spec fn spec_dense_scores(&self) -> Seq<i64> {
        emission_scores(
            normalized(added(self.spec_dense_ranks(), self.spec_dense_dividends())),
            self.spec_active_stake(),
            self.spec_stake(),
        )
    }
}

/// Computes the outdated mask.
fn outdated_of(last_update: &Vec<u64>, block_at_registration: &Vec<u64>) -> (r: Vec<Vec<bool>>)
    ensures
        mask_rows(r@) == outdated_matrix(last_update@, block_at_registration@),
{
    let mut r: Vec<Vec<bool>> = Vec::new();
    let mut i: usize = 0;
    while i < last_update.len()
        invariant
            0 <= i <= last_update@.len(),
            r@.len() == i,
            forall|a: int| 0 <= a < i ==> #[trigger] r@[a]@ == outdated_matrix(last_update@, block_at_registration@)[a],
        decreases last_update.len() - i,
    {
        let updated = last_update[i];
        let mut row: Vec<bool> = Vec::new();
        let mut j: usize = 0;
        while j < block_at_registration.len()
            invariant
                0 <= j <= block_at_registration@.len(),
                i < last_update@.len(),
                updated == last_update@[i as int],
                row@ =~= outdated_matrix(last_update@, block_at_registration@)[i as int].take(j as int),
            decreases block_at_registration.len() - j,
        {
            row.push(updated <= block_at_registration[j]);
            j = j + 1;
        }
        proof {
            assert(row@ =~= outdated_matrix(last_update@, block_at_registration@)[i as int]);
        }
        r.push(row);
        i = i + 1;
    }
    proof {
        assert(mask_rows(r@) =~= outdated_matrix(last_update@, block_at_registration@));
    }
    r
}

/// Whether the weight of the new bonds can be computed from the bonds
/// moving average: the average fits the integer bits of an `I64F64`, and
/// the average divided by one million fits an `I32F32`.
pub open spec fn alpha_fits(bonds_moving_average: int) -> bool {
    &&& bonds_moving_average <= i64::MAX
    &&& fdiv64(bonds_moving_average * scale64(), 1000000 * scale64()) / scale32() <= i64::MAX
}

/// `fdiv64(x * 2^64, 10^6 * 2^64)` is the quotient of `x * 2^64` by `10^6`,
/// nonnegative and at most `x * 2^64`.
proof fn lemma_ratio_range(x: int)
    requires
        0 <= x,
    ensures
        0 <= fdiv64(x * scale64(), 1000000 * scale64()) <= x * scale64(),
{
    let a = x * scale64() * scale64();
    assert(fdiv64(x * scale64(), 1000000 * scale64()) == a / (1000000 * scale64()));
    lemma_mul_nonnegative(x, scale64());
    lemma_mul_nonnegative(x * scale64(), scale64());
    lemma_div_pos_is_pos(a, 1000000 * scale64());
    lemma_div_is_ordered_by_denominator(a, scale64(), 1000000 * scale64());
    lemma_div_multiples_vanish(x * scale64(), scale64());
}

/// The weight of the new bonds in their moving average: one minus the
/// moving average divided by one million.
pub(crate) fn alpha_of(bonds_moving_average: u64) -> (r: i64)
    requires
        alpha_fits(bonds_moving_average as int),
    ensures
        r == spec_alpha(bonds_moving_average as int),
        r <= ONE,
        ONE - r <= i64::MAX,
        bonds_moving_average <= 1000000 ==> 0 <= r,
{
    let num = fx64_from_u64(bonds_moving_average);
    let den = fx64_from_u64(1000000);
    proof {
        lemma_ratio_range(bonds_moving_average as int);
        lemma_mul_inequality(bonds_moving_average as int, i64::MAX as int, scale64());
        if bonds_moving_average <= 1000000 {
            crate::sums::lemma_fdiv64_unit(bonds_moving_average * scale64(), 1000000 * scale64());
        }
    }
    let ratio = fx64_div(num, den);
    proof {
        lemma_div_pos_is_pos(ratio as int, scale32());
        if bonds_moving_average <= 1000000 {
            lemma_div_is_ordered(ratio as int, scale64(), scale32());
        }
    }
    let ratio32 = fx32_from_fx64(ratio);
    let one = fx32_from_u16(1);
    fx32_sub(one, ratio32)
}

/// The dense weights: read from the store, diagonal and outdated weights
/// set to zero, rows normalized.
fn dense_weights_stage(n: u16, stored: &StoredRows, outdated: &Vec<Vec<bool>>) -> (r: Vec<Vec<i64>>)
    requires
        stored_indices_below(stored@, n as int),
        outdated@.len() == n,
        forall|i: int| 0 <= i < n ==> (#[trigger] outdated@[i])@.len() == n,
    ensures
        dense_rows(r@) == rows_normalized(
            mask_applied(mask_rows(outdated@), diag_zeroed(spec_dense_from_store(stored@, n as int))),
        ),
        r@.len() == n,
        rect(dense_rows(r@), n as int),
        unit_dense(dense_rows(r@)),
{
    let mut weights = Pallet::get_weights(n, stored);
    proof {
        crate::storage::lemma_dense_from_store_unit(stored@, n as int);
        assert(dense_rows(weights@) =~= spec_dense_from_store(stored@, n as int));
    }
    inplace_mask_diag(&mut weights);
    proof {
        crate::dense::lemma_diag_zeroed_unit(spec_dense_from_store(stored@, n as int), n as int);
    }
    let ghost w1 = dense_rows(weights@);
    proof {
        assert forall|i: int| 0 <= i < outdated@.len() implies (#[trigger] outdated@[i])@.len()
            <= weights@[i]@.len() by {
            assert(weights@[i]@ == w1[i]);
        }
    }
    inplace_mask_matrix(outdated, &mut weights);
    let ghost w2 = dense_rows(weights@);
    proof {
        crate::dense::lemma_mask_applied_unit(mask_rows(outdated@), w1, n as int);
        assert forall|i: int| 0 <= i < w2.len() implies crate::sums::sums_fit32(#[trigger] weights@[i]@) by {
            assert(weights@[i]@ == w2[i]);
            assert(bounded32(w2[i], ONE as int)) by {
                assert forall|j: int| 0 <= j < w2[i].len() implies 0 <= #[trigger] w2[i][j] <= ONE by {}
            }
            crate::sums::lemma_sums_fit32_small(w2[i]);
        }
        assert forall|i: int, j: int|
            0 <= i < weights@.len() && 0 <= j < weights@[i]@.len() && sum32(weights@[i]@) > 0
                implies crate::fixed::fits_i64(crate::fixed::fdiv(#[trigger] weights@[i]@[j] as int, sum32(weights@[i]@))) by {
            assert(weights@[i]@ == w2[i]);
            assert(bounded32(w2[i], i64::MAX as int)) by {
                assert forall|c: int| 0 <= c < w2[i].len() implies 0 <= #[trigger] w2[i][c] <= i64::MAX by {
                    assert(0 <= w2[i][c] <= ONE);
                }
            }
            crate::sums::lemma_elem_le_sum32(w2[i], j);
            crate::sums::lemma_fdiv_unit(w2[i][j] as int, sum32(w2[i]));
        }
        assert(crate::dense::nonneg_dense(w2)) by {
            assert forall|i: int, j: int| 0 <= i < w2.len() && 0 <= j < w2[i].len() implies 0 <= #[trigger] w2[i][j] by {}
        }
    }
    inplace_row_normalize(&mut weights);
    proof {
        crate::dense::lemma_rows_normalized_shape(w2, n as int);
    }
    weights
}

/// The ranks on dense weights, normalized.
fn dense_ranks_stage(weights: &Vec<Vec<i64>>, active_stake: &Vec<i64>, n: u16) -> (r: Vec<i64>)
    requires
        weights@.len() == n,
        rect(dense_rows(weights@), n as int),
        unit_dense(dense_rows(weights@)),
        active_stake@.len() == n,
        proportions(active_stake@),
    ensures
        r@ == normalized(spec_matmul(dense_rows(weights@), active_stake@)),
        r@.len() == n,
        proportions(r@),
{
    proof {
        crate::sums::lemma_sum32_bounded(active_stake@, ONE as int);
        if n > 0 {
            assert(dense_rows(weights@)[0].len() == n);
        }
    }
    let mut ranks = matmul(weights, active_stake);
    proof {
        lemma_normalize_small(ranks@, ONE as int);
        crate::vector::lemma_normalize_ok(ranks@);
    }
    inplace_normalize(&mut ranks);
    ranks
}

/// The stored bonds: read from the store, outdated bonds set to zero,
/// columns normalized.
fn dense_stored_bonds_stage(n: u16, stored: &StoredRows, outdated: &Vec<Vec<bool>>) -> (r: Vec<
    Vec<i64>,
>)
    requires
        stored_indices_below(stored@, n as int),
        outdated@.len() == n,
        forall|i: int| 0 <= i < n ==> (#[trigger] outdated@[i])@.len() == n,
    ensures
        dense_rows(r@) == cols_normalized(
            mask_applied(mask_rows(outdated@), spec_dense_from_store(stored@, n as int)),
        ),
        r@.len() == n,
        rect(dense_rows(r@), n as int),
        unit_dense(dense_rows(r@)),
        n > 0 ==> forall|j: int|
            0 <= j < n ==> #[trigger] crate::dense::dense_col_sum(dense_rows(r@), j, n as int) <= ONE,
{
    let mut bonds = Pallet::get_bonds(n, stored);
    proof {
        crate::storage::lemma_dense_from_store_unit(stored@, n as int);
        assert(dense_rows(bonds@) =~= spec_dense_from_store(stored@, n as int));
    }
    inplace_mask_matrix(outdated, &mut bonds);
    let ghost b1 = dense_rows(bonds@);
    proof {
        crate::dense::lemma_mask_applied_unit(
            mask_rows(outdated@),
            spec_dense_from_store(stored@, n as int),
            n as int,
        );
        crate::dense::lemma_cols_normalize_ok(b1, n as int);
        crate::dense::lemma_nonneg_cols_ok(b1, n as int);
        if n > 0 {
            assert(b1[0].len() == n);
        }
    }
    inplace_col_normalize(&mut bonds);
    proof {
        crate::dense::lemma_cols_normalized_shape(b1, n as int);
    }
    bonds
}

/// The bonds delta `W o S`, columns normalized.
fn bonds_delta_stage(weights: &Vec<Vec<i64>>, active_stake: &Vec<i64>, n: u16) -> (r: Vec<Vec<i64>>)
    requires
        weights@.len() == n,
        rect(dense_rows(weights@), n as int),
        unit_dense(dense_rows(weights@)),
        active_stake@.len() == n,
        proportions(active_stake@),
    ensures
        dense_rows(r@) == cols_normalized(spec_row_hadamard(dense_rows(weights@), active_stake@)),
        unit_dense(dense_rows(r@)),
        n > 0 ==> r@.len() == n && rect(dense_rows(r@), n as int),
        n == 0 ==> degenerate(dense_rows(r@)),
        n > 0 ==> forall|j: int|
            0 <= j < n ==> #[trigger] crate::dense::dense_col_sum(dense_rows(r@), j, n as int) <= ONE,
{
    proof {
        if n > 0 {
            assert(dense_rows(weights@)[0].len() == n);
        }
        assert forall|i: int, j: int|
            0 <= i < weights@.len() && 0 <= j < weights@[i]@.len() implies crate::fixed::fits_i64(
            crate::fixed::fmul(active_stake@[i] as int, #[trigger] weights@[i]@[j] as int),
        ) by {
            assert(weights@[i]@ == dense_rows(weights@)[i]);
            crate::sums::lemma_fmul_le(active_stake@[i] as int, weights@[i]@[j] as int);
        }
    }
    let mut delta = row_hadamard(weights, active_stake);
    let ghost d0 = dense_rows(delta@);
    proof {
        if n > 0 {
            assert(rect(d0, n as int)) by {
                assert forall|i: int| 0 <= i < d0.len() implies (#[trigger] d0[i]).len() == n by {
                    assert(dense_rows(weights@)[i].len() == n);
                }
            }
            crate::dense::lemma_cols_normalize_ok(d0, n as int);
            crate::dense::lemma_nonneg_cols_ok(d0, n as int);
            assert(d0[0].len() == n);
        } else {
            assert(d0 =~= seq![Seq::<i64>::empty()]);
            assert(rect(d0, 0));
            crate::dense::lemma_cols_normalize_ok(d0, 0);
        }
    }
    inplace_col_normalize(&mut delta);
    proof {
        if n > 0 {
            crate::dense::lemma_cols_normalized_shape(d0, n as int);
        } else {
            crate::dense::lemma_cols_normalized_shape(d0, 0);
        }
    }
    delta
}

/// The moving average `alpha * delta + (1 - alpha) * bonds`, columns
/// normalized.
fn ema_stage(delta: &Vec<Vec<i64>>, bonds: &Vec<Vec<i64>>, alpha: i64, n: u16) -> (r: Vec<Vec<i64>>)
    requires
        unit_dense(dense_rows(delta@)),
        n > 0 ==> delta@.len() == n && rect(dense_rows(delta@), n as int),
        n == 0 ==> degenerate(dense_rows(delta@)),
        bonds@.len() == n,
        rect(dense_rows(bonds@), n as int),
        unit_dense(dense_rows(bonds@)),
        alpha <= ONE,
        ONE - alpha <= i64::MAX,
        n > 0 ==> forall|j: int|
            0 <= j < n ==> #[trigger] crate::dense::dense_col_sum(dense_rows(delta@), j, n as int) <= ONE
                && crate::dense::dense_col_sum(dense_rows(bonds@), j, n as int) <= ONE
                && col_one_sign(spec_mat_ema(dense_rows(delta@), dense_rows(bonds@), alpha as int), j),
    ensures
        dense_rows(r@) == cols_normalized(
            spec_mat_ema(dense_rows(delta@), dense_rows(bonds@), alpha as int),
        ),
        unit_dense(dense_rows(r@)),
        n > 0 ==> r@.len() == n && rect(dense_rows(r@), n as int),
        n == 0 ==> degenerate(dense_rows(r@)),
        n > 0 ==> forall|j: int|
            0 <= j < n ==> #[trigger] crate::dense::dense_col_sum(dense_rows(r@), j, n as int) <= ONE,
{
    proof {
        if n > 0 {
            assert(dense_rows(delta@)[0].len() == n);
        }
    }
    let mut ema = mat_ema(delta, bonds, alpha);
    let ghost e0 = dense_rows(ema@);
    proof {
        if n > 0 {
            assert(rect(e0, n as int)) by {
                assert forall|i: int| 0 <= i < e0.len() implies (#[trigger] e0[i]).len() == n by {
                    assert(dense_rows(delta@)[i].len() == n);
                }
            }
            assert(e0[0].len() == n);
            if alpha >= 0 {
                crate::dense::lemma_cols_normalize_ok(e0, n as int);
                crate::dense::lemma_nonneg_cols_ok(e0, n as int);
            } else {
                assert forall|j: int| 0 <= j < n implies #[trigger] crate::dense::col_ok(e0, j) by {
                    assert(crate::dense::dense_col_sum(dense_rows(delta@), j, n as int) <= ONE);
                    crate::dense::lemma_ema_dense_col_ok(
                        dense_rows(delta@),
                        dense_rows(bonds@),
                        alpha as int,
                        j,
                        n as int,
                    );
                }
            }
        } else {
            assert(e0 =~= seq![Seq::<i64>::empty()]);
        }
    }
    inplace_col_normalize(&mut ema);
    proof {
        if n > 0 {
            crate::dense::lemma_cols_normalized_shape(e0, n as int);
        } else {
            crate::dense::lemma_cols_normalized_shape(e0, 0);
        }
    }
    ema
}

/// The dividends on the moving average of the bonds, normalized.
fn dense_dividends_stage(ema: &Vec<Vec<i64>>, incentive: &Vec<i64>, n: u16) -> (r: Vec<i64>)
    requires
        unit_dense(dense_rows(ema@)),
        n > 0 ==> ema@.len() == n && rect(dense_rows(ema@), n as int),
        n == 0 ==> degenerate(dense_rows(ema@)),
        incentive@.len() == n,
        proportions(incentive@),
    ensures
        r@ == normalized(spec_matmul_transpose(dense_rows(ema@), incentive@)),
        r@.len() == n,
        proportions(r@),
{
    proof {
        crate::sums::lemma_sum32_bounded(incentive@, ONE as int);
    }
    let mut dividends = matmul_transpose(ema, incentive);
    proof {
        lemma_normalize_small(dividends@, ONE as int);
        crate::vector::lemma_normalize_ok(dividends@);
    }
    inplace_normalize(&mut dividends);
    dividends
}

/// The new bonds of the first `n` rows as `(j, u16 proportion)` pairs.
fn dense_bonds_to_u16_stage(ema: &Vec<Vec<i64>>, n: u16) -> (r: Vec<Vec<(u16, u16)>>)
    requires
        unit_dense(dense_rows(ema@)),
        n > 0 ==> ema@.len() == n,
    ensures
        rows_u16(r@) == Seq::new(n as nat, |i: int| dense_bonds_row_u16(dense_rows(ema@)[i], n as int)),
{
    let mut result: Vec<Vec<(u16, u16)>> = Vec::new();
    let mut i: u16 = 0;
    while i < n
        invariant
            0 <= i <= n,
            n > 0 ==> ema@.len() == n,
            unit_dense(dense_rows(ema@)),
            result@.len() == i,
            forall|a: int| 0 <= a < i ==> #[trigger] result@[a]@ == dense_bonds_row_u16(dense_rows(ema@)[a], n as int),
        decreases n - i,
    {
        let row = ema[i as usize].clone();
        proof {
            assert(row@ =~= dense_rows(ema@)[i as int]);
            assert forall|j: int| 0 <= j < row@.len() implies crate::vector::proportion_to_u16_ok(#[trigger] row@[j] as int) by {
                crate::vector::lemma_proportion_to_u16_ok(row@[j] as int);
            }
        }
        let converted = vec_fixed_proportions_to_u16(row);
        let mut new_row: Vec<(u16, u16)> = Vec::new();
        let mut j: u16 = 0;
        while j < n && (j as usize) < converted.len()
            invariant
                0 <= j <= n,
                j <= converted@.len(),
                converted@ == proportions_to_u16(dense_rows(ema@)[i as int]),
                new_row@ =~= dense_bonds_row_u16(dense_rows(ema@)[i as int], n as int).take(j as int),
            decreases n - j,
        {
            new_row.push((j, converted[j as usize]));
            j = j + 1;
        }
        proof {
            assert(new_row@ =~= dense_bonds_row_u16(dense_rows(ema@)[i as int], n as int));
        }
        result.push(new_row);
        i = i + 1;
    }
    proof {
        assert(rows_u16(result@) =~= Seq::new(n as nat, |a: int| dense_bonds_row_u16(dense_rows(ema@)[a], n as int)));
    }
    result
}

impl Pallet {
    /// Computes the consensus of a network for one epoch on its dense weights
    /// and bonds, with a moving average of the bonds: active uids, ranks,
    /// incentive, dividends, pruning scores, the emission of `rao_emission`
    /// among the uids, and the new bonds.
    pub fn epoch_dense(state: &NetworkState, rao_emission: u64) -> (out: EpochOutput)
        requires
            state.wf_dense(),
        ensures
            out.active@ == Seq::new(state.n as nat, |i: int| !state.spec_inactive()[i]),
            out.active@.len() == state.n,
            forall|i: int|
                0 <= i < state.n ==> #[trigger] out.active@[i] == (state.last_update@[i]
                    + state.activity_cutoff >= state.current_block),
            out.emission@ == spec_rao_emission(state.spec_dense_scores(), rao_emission as int),
            out.ranks@ == proportions_to_u16(state.spec_dense_ranks()),
            out.incentive@ == proportions_to_u16(state.spec_dense_ranks()),
            out.dividends@ == proportions_to_u16(state.spec_dense_dividends()),
            out.pruning_scores@ == proportions_to_u16(state.spec_dense_scores()),
            rows_u16(out.bonds@) == Seq::new(
                state.n as nat,
                |i: int| dense_bonds_row_u16(state.spec_ema_bonds()[i], state.n as int),
            ),
            out.key_emission@ == Seq::new(
                state.keys@.len(),
                |k: int|
                    (
                        state.keys@[k].0,
                        spec_rao_emission(state.spec_dense_scores(), rao_emission as int)[state.keys@[k].0 as int],
                    ),
            ),
            out.emission@.len() == state.n,
            sum_u64(out.emission@) <= rao_emission,
            forall|i: int| 0 <= i < out.emission@.len() ==> #[trigger] out.emission@[i] <= rao_emission,
            sum_u64(pair_values(out.key_emission@)) <= rao_emission,
            sum64(stake_bits(state.n as int, state.keys@)) > 0 ==> (rao_emission - sum_u64(
                out.emission@,
            )) * scale32() <= state.n * scale32() + state.n * rao_emission,
            proportions(state.spec_stake()),
            proportions(state.spec_active_stake()),
            proportions(state.spec_dense_ranks()),
            proportions(state.spec_dense_dividends()),
            proportions(state.spec_dense_scores()),
            state.n > 0 ==> forall|j: int|
                0 <= j < state.n ==> #[trigger] crate::dense::dense_col_sum(
                    state.spec_ema_bonds(),
                    j,
                    state.n as int,
                ) <= ONE,
    {
        let n: u16 = state.n;
        let current_block: u64 = state.current_block;
        let activity_cutoff: u64 = state.activity_cutoff as u64;
        let inactive = inactive_of(&state.last_update, activity_cutoff, current_block);
        let active = negation(&inactive);
        let block_at_registration = Self::get_block_at_registration(n, &state.registrations);
        let outdated = outdated_of(&state.last_update, &block_at_registration);
        proof {
            assert(outdated@.len() == mask_rows(outdated@).len());
            assert forall|i: int| 0 <= i < n implies (#[trigger] outdated@[i])@.len() == n by {
                assert(outdated@[i]@ == mask_rows(outdated@)[i]);
            }
        }

        // Stake, and the stake of the active uids.
        let stake = stake_stage(n, &state.keys);
        let active_stake = active_stake_stage(&stake, &inactive);

        // Weights: diagonal and outdated weights removed, rows normalized.
        let weights = dense_weights_stage(n, &state.weights, &outdated);

        // Ranks and incentive.
        proof {
            crate::sums::lemma_sum32_bounded(active_stake@, ONE as int);
            if n > 0 {
                assert(dense_rows(weights@)[0].len() == n);
            }
        }
        let _preranks = matmul(&weights, &active_stake);
        let ranks = dense_ranks_stage(&weights, &active_stake, n);
        let incentive = ranks.clone();
        proof {
            assert(incentive@ =~= ranks@);
        }

        // Bonds and their moving average.
        let bonds = dense_stored_bonds_stage(n, &state.bonds, &outdated);
        let bonds_delta = bonds_delta_stage(&weights, &active_stake, n);
        let alpha = alpha_of(state.bonds_moving_average);
        proof {
            assert(dense_rows(weights@) == state.spec_dense_weights());
            assert(dense_rows(bonds_delta@) == state.spec_bonds_delta());
            assert(dense_rows(bonds@) == state.spec_dense_stored_bonds());
            assert forall|j: int| 0 <= j < n implies #[trigger] crate::dense::dense_col_sum(
                dense_rows(bonds_delta@),
                j,
                n as int,
            ) <= ONE && crate::dense::dense_col_sum(dense_rows(bonds@), j, n as int) <= ONE
                && col_one_sign(spec_mat_ema(dense_rows(bonds_delta@), dense_rows(bonds@), alpha as int), j) by {
                assert(state.spec_ema_cols_of_one_sign());
            }
        }
        let ema_bonds = ema_stage(&bonds_delta, &bonds, alpha, n);
        let dividends = dense_dividends_stage(&ema_bonds, &incentive, n);

        // Emission and pruning scores.
        let normalized_emission = scores_stage(&incentive, &dividends, &active_stake, &stake);
        let emission = emission_stage(&normalized_emission, rao_emission);
        proof {
            if sum64(stake_bits(n as int, state.keys@)) > 0 {
                lemma_stake_bits_nonneg(n as int, state.keys@);
                crate::vector::lemma_normalized64_sum_lower(stake_bits(n as int, state.keys@));
                let m = crate::vector::masked(inactive@, stake@);
                if sum32(active_stake@) != 0 {
                    assert(bounded32(m, i64::MAX as int)) by {
                        assert forall|i: int| 0 <= i < m.len() implies 0 <= #[trigger] m[i] <= i64::MAX by {
                            assert(0 <= stake@[i] <= ONE);
                        }
                    }
                    crate::sums::lemma_sum32_bounded(m, i64::MAX as int);
                    crate::vector::lemma_normalized_sum_lower(m);
                }
                lemma_scores_sum_lower(incentive@, dividends@, active_stake@, stake@, n as int);
                lemma_emission_sum_lower(normalized_emission@, rao_emission as int);
            }
        }
        let pruning_scores = normalized_emission.clone();
        proof {
            assert(pruning_scores@ =~= normalized_emission@);
            assert forall|i: int| 0 <= i < ranks@.len() implies crate::vector::proportion_to_u16_ok(#[trigger] ranks@[i] as int) by {
                crate::vector::lemma_proportion_to_u16_ok(ranks@[i] as int);
            }
            assert forall|i: int| 0 <= i < dividends@.len() implies crate::vector::proportion_to_u16_ok(#[trigger] dividends@[i] as int) by {
                crate::vector::lemma_proportion_to_u16_ok(dividends@[i] as int);
            }
            assert forall|i: int| 0 <= i < pruning_scores@.len() implies crate::vector::proportion_to_u16_ok(#[trigger] pruning_scores@[i] as int) by {
                crate::vector::lemma_proportion_to_u16_ok(pruning_scores@[i] as int);
            }
        }
        let ranks_u16 = vec_fixed_proportions_to_u16(ranks.clone());
        let incentive_u16 = vec_fixed_proportions_to_u16(incentive);
        let dividends_u16 = vec_fixed_proportions_to_u16(dividends);
        let pruning_scores_u16 = vec_fixed_proportions_to_u16(pruning_scores);
        let bonds_u16 = dense_bonds_to_u16_stage(&ema_bonds, n);

        // Emission of each key.
        let mut key_emission: Vec<(u16, u64)> = Vec::new();
        let mut k: usize = 0;
        while k < state.keys.len()
            invariant
                0 <= k <= state.keys@.len(),
                state.wf_dense(),
                emission@.len() == state.n,
                key_emission@ =~= Seq::new(
                    state.keys@.len(),
                    |x: int| (state.keys@[x].0, emission@[state.keys@[x].0 as int]),
                ).take(k as int),
            decreases state.keys.len() - k,
        {
            let (uid_i, _stake) = state.keys[k];
            key_emission.push((uid_i, emission[uid_i as usize]));
            k = k + 1;
        }
        proof {
            assert(key_emission@ =~= Seq::new(
                state.keys@.len(),
                |x: int| (state.keys@[x].0, emission@[state.keys@[x].0 as int]),
            ));
            let uids = Seq::new(state.keys@.len(), |x: int| state.keys@[x].0);
            assert(pair_values(key_emission@) =~= selected(emission@, uids));
            lemma_selected_sum_le(emission@, uids);
        }
        EpochOutput {
            active,
            emission,
            ranks: ranks_u16,
            incentive: incentive_u16,
            dividends: dividends_u16,
            pruning_scores: pruning_scores_u16,
            bonds: bonds_u16,
            key_emission,
        }
    }
}

} // verus!
