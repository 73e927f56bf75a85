//! Properties of the epoch that hold for every network state.

use crate::dense::{col_one_sign, dense_col_dot, diag_zeroed, mask_applied, spec_matmul, spec_matmul_transpose, spec_row_hadamard};
use crate::densify::{densify, lemma_col_sum_unit_row, lemma_row_col_dot_single, lemma_densify_diag, lemma_densify_matmul, lemma_densify_outdated, lemma_densify_row_normalized, lemma_no_col_zero, lemma_store_densify};
use crate::densify_bonds::{lemma_densify_col_normalized, lemma_densify_mat_ema, lemma_densify_matmul_transpose, lemma_densify_row_hadamard};
use crate::epoch::{bonds_to_u16, key_stake, lemma_stake_bits_nonneg, spec_rao_emission, stake_bits, NetworkState};
use crate::epoch_dense::{dense_bonds_row_u16, spec_alpha};
use crate::fixed::{div_trunc, fdiv, fdiv64, fmul, scale32, scale64, ONE};
use crate::sparse::{diag_masked, distinct_cols, lemma_filter_unit_row, not_outdated, off_diagonal, outdated_masked, row_col_sum, unit_row, unit_sparse};
use crate::sparse_ema::{ema_dense_row, spec_mat_ema_sparse};
use crate::sparse_product::{spec_matmul_sparse, spec_matmul_transpose_sparse, spec_row_hadamard_sparse};
use crate::storage::{spec_dense_from_store, spec_sparse_from_store};
use crate::sums::{bounded32, lemma_elem_le_sum32, lemma_fdiv64_unit, lemma_fdiv_unit, lemma_sum32_bounded, proportions, sum32, sum64};
use crate::vector::{lemma_normalize64_ok, masked, normalized64, spec_fixed_proportion_to_u16};
use vstd::arithmetic::div_mod::{lemma_div_is_ordered, lemma_div_pos_is_pos};
use vstd::prelude::*;

verus! {

/// Division of zero gives zero.
proof fn lemma_fdiv_zero(s: int)
    requires
        s != 0,
    ensures
        fdiv(0, s) == 0,
{
    vstd::arithmetic::div_mod::lemma_basic_div(0, crate::fixed::abs(s));
    assert(div_trunc(0, s) == 0);
}

/// An inactive uid holds no active stake: masking removes its stake, and
/// normalizing keeps it at zero.
pub proof fn lemma_inactive_has_no_active_stake(state: NetworkState, i: int)
    requires
        state.last_update@.len() == state.n,
        0 <= i < state.n,
        state.spec_inactive()[i],
    ensures
        state.spec_active_stake()[i] == 0,
{
    let stake = state.spec_stake();
    let m = masked(state.spec_inactive(), stake);
    assert(stake.len() == state.n);
    assert(m[i] == 0);
    if sum32(m) != 0 {
        lemma_fdiv_zero(sum32(m));
    }
}

/// No uid keeps a weight on itself: the epoch's weights have no entry on
/// the diagonal.
pub proof fn lemma_weights_have_no_self_weight(state: NetworkState, i: int, k: int)
    requires
        state.wf(),
        0 <= i < state.n,
        0 <= k < state.spec_weights()[i].len(),
    ensures
        state.spec_weights()[i][k].0 as int != i,
{
    let d = diag_masked(spec_sparse_from_store_of(state));
    let o = outdated_masked(d, state.last_update@, state.spec_block_at_registration());
    let p = not_outdated(state.last_update@[i], state.spec_block_at_registration());
    assert(state.spec_weights()[i][k].0 == o[i][k].0);
    let e = o[i][k];
    assert(o[i] == d[i].filter(p));
    assert(d[i].filter(p).contains(e));
    d[i].lemma_filter_contains_rev(p, e);
    let idx = choose|idx: int| 0 <= idx < d[i].len() && d[i][idx] == e;
    let m = spec_sparse_from_store_of(state);
    assert(d[i] == m[i].filter(off_diagonal(i)));
    m[i].lemma_filter_pred(off_diagonal(i), idx);
}

/// The sparse weights read from the store of a network.
pub open spec fn spec_sparse_from_store_of(state: NetworkState) -> Seq<Seq<(u16, i64)>> {
    crate::storage::spec_sparse_from_store(state.weights@, state.n as int)
}

/// No uid keeps a weight that it set no later than its target was
/// registered.
pub proof fn lemma_weights_are_not_outdated(state: NetworkState, i: int, k: int)
    requires
        state.wf(),
        0 <= i < state.n,
        0 <= k < state.spec_weights()[i].len(),
    ensures
        state.last_update@[i] > state.spec_block_at_registration()[state.spec_weights()[i][k].0 as int],
{
    let d = diag_masked(spec_sparse_from_store_of(state));
    let o = outdated_masked(d, state.last_update@, state.spec_block_at_registration());
    let p = not_outdated(state.last_update@[i], state.spec_block_at_registration());
    assert(state.spec_weights()[i][k].0 == o[i][k].0);
    assert(o[i] == d[i].filter(p));
    d[i].lemma_filter_pred(p, k);
}

/// In the dense epoch, no uid keeps a weight on itself.
pub proof fn lemma_dense_weights_have_no_self_weight(state: NetworkState, i: int)
    requires
        state.wf_dense(),
        0 <= i < state.n,
    ensures
        state.spec_dense_weights()[i][i] == 0,
{
    let n = state.n as int;
    let m = spec_dense_from_store(state.weights@, n);
    crate::storage::lemma_dense_from_store_unit(state.weights@, n);
    let d = diag_zeroed(m);
    assert(m[0].len() == n);
    assert(d[i][i] == 0);
    let a = mask_applied(state.spec_outdated(), d);
    assert(a[i][i] == 0);
    if sum32(a[i]) > 0 {
        lemma_fdiv_zero(sum32(a[i]));
    }
}

/// In the dense epoch, a weight that a uid set no later than its target was
/// registered is zero.
pub proof fn lemma_dense_outdated_weights_are_zero(state: NetworkState, i: int, j: int)
    requires
        state.wf_dense(),
        0 <= i < state.n,
        0 <= j < state.n,
        state.last_update@[i] <= state.spec_block_at_registration()[j],
    ensures
        state.spec_dense_weights()[i][j] == 0,
{
    let n = state.n as int;
    let m = spec_dense_from_store(state.weights@, n);
    crate::storage::lemma_dense_from_store_unit(state.weights@, n);
    crate::dense::lemma_diag_zeroed_unit(m, n);
    let d = diag_zeroed(m);
    let mk = state.spec_outdated();
    assert(mk[i][j]);
    assert(mk[0].len() == n);
    let a = mask_applied(mk, d);
    assert(a[i][j] == 0);
    if sum32(a[i]) > 0 {
        lemma_fdiv_zero(sum32(a[i]));
    }
}

/// The stake of the active uids lies in `[0, 1]`, one value per uid.
proof fn lemma_active_stake_unit(state: NetworkState)
    requires
        state.wf(),
    ensures
        state.spec_active_stake().len() == state.n,
        forall|i: int|
            0 <= i < state.n ==> 0 <= #[trigger] state.spec_active_stake()[i] <= ONE,
{
    let n = state.n as int;
    let bits = stake_bits(n, state.keys@);
    lemma_stake_bits_nonneg(n, state.keys@);
    lemma_normalize64_ok(bits);
    let nb = normalized64(bits);
    let stake = state.spec_stake();
    assert forall|i: int| 0 <= i < n implies 0 <= #[trigger] stake[i] <= ONE by {
        lemma_div_is_ordered(nb[i] as int, scale64(), scale32());
        lemma_div_pos_is_pos(nb[i] as int, scale32());
        assert(scale64() / scale32() == scale32());
    }
    let m = masked(state.spec_inactive(), stake);
    assert(bounded32(m, ONE as int));
    assert(bounded32(m, i64::MAX as int));
    lemma_sum32_bounded(m, ONE as int);
    if sum32(m) != 0 {
        assert forall|i: int| 0 <= i < n implies 0 <= #[trigger] state.spec_active_stake()[i]
            <= ONE by {
            lemma_elem_le_sum32(m, i);
            lemma_fdiv_unit(m[i] as int, sum32(m));
        }
    }
}

/// The weight of the new bonds in their moving average lies in `[0, 1]`.
proof fn lemma_alpha_unit(bonds_moving_average: int)
    requires
        0 <= bonds_moving_average <= 1000000,
    ensures
        0 <= spec_alpha(bonds_moving_average) <= ONE,
{
    let q = fdiv64(bonds_moving_average * scale64(), 1000000 * scale64());
    lemma_fdiv64_unit(bonds_moving_average * scale64(), 1000000 * scale64());
    lemma_div_is_ordered(q, scale64(), scale32());
    lemma_div_pos_is_pos(q, scale32());
    assert(scale64() / scale32() == scale32());
}

/// On a network with uids, the dense weights are the sparse weights written
/// out in full.
proof fn lemma_dense_weights_densified(state: NetworkState)
    requires
        state.wf(),
        state.n > 0,
    ensures
        state.spec_dense_weights() == densify(state.spec_weights(), state.n as int),
        unit_sparse(state.spec_weights(), state.n as int),
        state.spec_weights().len() == state.n,
{
    let n = state.n as int;
    let m = spec_sparse_from_store_of(state);
    let lu = state.last_update@;
    let bar = state.spec_block_at_registration();
    crate::storage::lemma_sparse_from_store_unit(state.weights@, n);
    lemma_store_densify(state.weights@, n);
    let x1 = diag_masked(m);
    lemma_densify_diag(m, n);
    assert forall|i: int| 0 <= i < x1.len() implies unit_row(#[trigger] x1[i], n) by {
        assert(unit_row(m[i], n));
        lemma_filter_unit_row(m[i], off_diagonal(i), n);
    }
    let x2 = outdated_masked(x1, lu, bar);
    lemma_densify_outdated(x1, lu, bar, n);
    assert forall|i: int| 0 <= i < x2.len() implies unit_row(#[trigger] x2[i], n) by {
        assert(unit_row(x1[i], n));
        lemma_filter_unit_row(x1[i], not_outdated(lu[i], bar), n);
    }
    lemma_densify_row_normalized(x2, n);
}

/// On a network with uids, the dense stored bonds are the sparse stored
/// bonds written out in full.
proof fn lemma_dense_stored_bonds_densified(state: NetworkState)
    requires
        state.wf(),
        state.n > 0,
    ensures
        state.spec_dense_stored_bonds() == densify(state.spec_stored_bonds(), state.n as int),
        unit_sparse(state.spec_stored_bonds(), state.n as int),
        state.spec_stored_bonds().len() == state.n,
{
    let n = state.n as int;
    let m = spec_sparse_from_store(state.bonds@, n);
    let lu = state.last_update@;
    let bar = state.spec_block_at_registration();
    crate::storage::lemma_sparse_from_store_unit(state.bonds@, n);
    lemma_store_densify(state.bonds@, n);
    let x = outdated_masked(m, lu, bar);
    lemma_densify_outdated(m, lu, bar, n);
    assert forall|i: int| 0 <= i < x.len() implies unit_row(#[trigger] x[i], n) by {
        assert(unit_row(m[i], n));
        lemma_filter_unit_row(m[i], not_outdated(lu[i], bar), n);
    }
    lemma_densify_col_normalized(x, n);
}

/// Both epochs run on every well-formed network state whose bonds moving
/// average is at most one million millionths, and there they agree: the dense weights and the dense new bonds are the sparse ones
/// written out in full, and the ranks (so the incentive), the dividends and
/// the emission scores (so the emission, the pruning scores and the
/// emission of each key) are the same.
pub proof fn lemma_sparse_and_dense_epochs_agree(state: NetworkState)
    requires
        state.wf(),
        state.bonds_moving_average <= 1000000,
    ensures
        state.wf_dense(),
        state.n > 0 ==> state.spec_dense_weights() == densify(state.spec_weights(), state.n as int),
        state.n > 0 ==> state.spec_ema_bonds() == densify(state.spec_bonds(), state.n as int),
        state.spec_ranks() == state.spec_dense_ranks(),
        state.spec_dividends() == state.spec_dense_dividends(),
        state.spec_scores() == state.spec_dense_scores(),
{
    let n = state.n as int;
    let v = state.spec_active_stake();
    lemma_active_stake_unit(state);
    if n == 0 {
        let d = spec_dense_from_store(state.weights@, n);
        assert(d =~= Seq::<Seq<i64>>::empty());
        assert(state.spec_dense_weights() =~= Seq::<Seq<i64>>::empty());
        assert(spec_matmul(state.spec_dense_weights(), v) =~= spec_matmul_sparse(
            state.spec_weights(),
            v,
            n,
        ));
        let e: Seq<Seq<i64>> = seq![Seq::empty()];
        assert(spec_row_hadamard(state.spec_dense_weights(), v) =~= e);
        assert(state.spec_bonds_delta() =~= e);
        assert(state.spec_ema_bonds() =~= e);
        assert(state.spec_bonds().len() == 0);
        assert(spec_matmul_transpose(state.spec_ema_bonds(), state.spec_dense_ranks())
            =~= spec_matmul_transpose_sparse(state.spec_bonds(), state.spec_ranks()));
    } else {
        lemma_dense_weights_densified(state);
        let w = state.spec_weights();
        lemma_densify_matmul(w, v, n);
        let h = spec_row_hadamard_sparse(w, v);
        lemma_densify_row_hadamard(w, v, n);
        lemma_densify_col_normalized(h, n);
        assert(state.spec_bonds_delta() == densify(state.spec_new_bonds(), n));
        lemma_dense_stored_bonds_densified(state);
        let alpha = spec_alpha(state.bonds_moving_average as int);
        lemma_alpha_unit(state.bonds_moving_average as int);
        let e = spec_mat_ema_sparse(state.spec_new_bonds(), state.spec_stored_bonds(), alpha);
        lemma_densify_mat_ema(state.spec_new_bonds(), state.spec_stored_bonds(), alpha, n);
        lemma_densify_col_normalized(e, n);
        assert(state.spec_ema_bonds() == densify(state.spec_bonds(), n));
        lemma_densify_matmul_transpose(state.spec_bonds(), state.spec_ranks(), n);
        let de = densify(e, n);
        assert forall|j: int| 0 <= j < n implies #[trigger] col_one_sign(de, j) by {
            assert forall|i: int| 0 <= i < de.len() implies 0 <= #[trigger] de[i][j] by {
                assert(unit_row(e[i], n));
                lemma_col_sum_unit_row(e[i], n, j);
            }
        }
        assert(state.spec_ema_cols_of_one_sign());
    }
}

proof fn lemma_row_col_sum_at(row: Seq<(u16, i64)>, k: int)
    requires
        distinct_cols(row),
        0 <= k < row.len(),
    ensures
        row_col_sum(row, row[k].0 as int) == row[k].1,
    decreases row.len(),
{
    let rest = row.drop_last();
    let last = row.len() - 1;
    let j = row[k].0 as int;
    assert(row.last() == row[last]);
    if k == last {
        assert forall|x: int| 0 <= x < rest.len() implies (#[trigger] rest[x]).0 as int != j by {
            assert(rest[x] == row[x]);
            assert(row[x].0 != row[last].0);
        }
        lemma_no_col_zero(rest, j);
    } else {
        assert(distinct_cols(rest)) by {
            assert forall|a: int, b: int| 0 <= a < b < rest.len() implies #[trigger] rest[a].0
                != #[trigger] rest[b].0 by {
                assert(rest[a] == row[a] && rest[b] == row[b]);
            }
        }
        assert(rest[k] == row[k]);
        lemma_row_col_sum_at(rest, k);
        assert(row[last].0 != row[k].0);
    }
}

/// With a bonds moving average of at most one million millionths, for
/// each uid, the sparse epoch writes the bonds that the dense epoch writes
/// at the same targets, and the dense epoch writes zero at every
/// target that the sparse epoch leaves out.
pub proof fn lemma_sparse_and_dense_bonds_agree(state: NetworkState, i: int, j: int)
    requires
        state.wf(),
        state.bonds_moving_average <= 1000000,
        0 <= i < state.n,
        0 <= j < state.n,
    ensures
        forall|k: int|
            0 <= k < bonds_to_u16(state.spec_bonds())[i].len() && #[trigger] bonds_to_u16(
                state.spec_bonds(),
            )[i][k].0 == j ==> dense_bonds_row_u16(state.spec_ema_bonds()[i], state.n as int)[j]
                == bonds_to_u16(state.spec_bonds())[i][k],
        (forall|k: int|
            0 <= k < state.spec_bonds()[i].len() ==> (#[trigger] state.spec_bonds()[i][k]).0 != j)
            ==> dense_bonds_row_u16(state.spec_ema_bonds()[i], state.n as int)[j] == (
            j as u16,
            0u16,
        ),
{
    let n = state.n as int;
    lemma_sparse_and_dense_epochs_agree(state);
    let b = state.spec_bonds();
    let row = b[i];
    // The new bonds are a unit matrix.
    lemma_dense_weights_densified(state);
    lemma_active_stake_unit(state);
    let h = spec_row_hadamard_sparse(state.spec_weights(), state.spec_active_stake());
    lemma_densify_row_hadamard(state.spec_weights(), state.spec_active_stake(), n);
    lemma_densify_col_normalized(h, n);
    lemma_dense_stored_bonds_densified(state);
    let alpha = spec_alpha(state.bonds_moving_average as int);
    lemma_alpha_unit(state.bonds_moving_average as int);
    let e = spec_mat_ema_sparse(state.spec_new_bonds(), state.spec_stored_bonds(), alpha);
    lemma_densify_mat_ema(state.spec_new_bonds(), state.spec_stored_bonds(), alpha, n);
    lemma_densify_col_normalized(e, n);
    assert(unit_row(row, n));
    let er = state.spec_ema_bonds()[i];
    assert(er == densify(b, n)[i]);
    assert(er[j] == row_col_sum(row, j) as i64);
    lemma_col_sum_unit_row(row, n, j);
    assert forall|k: int|
        0 <= k < bonds_to_u16(b)[i].len() && #[trigger] bonds_to_u16(b)[i][k].0 == j implies dense_bonds_row_u16(er, n)[j]
        == bonds_to_u16(b)[i][k] by {
        assert(row[k].0 == bonds_to_u16(b)[i][k].0);
        lemma_row_col_sum_at(row, k);
    }
    if forall|k: int| 0 <= k < row.len() ==> (#[trigger] row[k]).0 != j {
        assert forall|k: int| 0 <= k < row.len() implies (#[trigger] row[k]).0 as int != j by {}
        lemma_no_col_zero(row, j);
        assert(spec_fixed_proportion_to_u16(0) == 0) by {
            assert(0 * crate::vector::u16_max_fixed() == 0);
            vstd::arithmetic::div_mod::lemma_basic_div(0, scale32());
        }
    }
}

/// `dense_col_dot` over rows that are equal wherever the vector is not
/// zero.
proof fn lemma_dense_col_dot_same(
    a: Seq<Seq<i64>>,
    b: Seq<Seq<i64>>,
    v: Seq<i64>,
    j: int,
    r: int,
)
    requires
        0 <= r <= a.len(),
        a.len() == b.len(),
        forall|i: int| 0 <= i < a.len() && v[i] != 0 ==> #[trigger] a[i] == b[i],
    ensures
        dense_col_dot(a, v, j, r) == dense_col_dot(b, v, j, r),
    decreases r,
{
    if r > 0 {
        lemma_dense_col_dot_same(a, b, v, j, r - 1);
        if v[r - 1] == 0 {
            assert(fmul(0, a[r - 1][j] as int) == 0 && fmul(0, b[r - 1][j] as int) == 0) by {
                assert(0 * a[r - 1][j] == 0);
                assert(0 * b[r - 1][j] == 0);
                vstd::arithmetic::div_mod::lemma_basic_div(0, scale32());
            }
        }
    }
}

/// The dense epoch does not depend on the weights that it sets aside: those
/// of inactive uids, self-weights, and weights set no later than their
/// target was registered.  Two networks that differ only there get the same
/// ranks (so incentive), new bonds, dividends and emission scores (so
/// emission, pruning scores and emission of each key).
pub proof fn lemma_dense_epoch_ignores_set_aside_weights(s1: NetworkState, s2: NetworkState)
    requires
        s1.last_update@.len() == s1.n,
        s1.n == s2.n,
        s1.current_block == s2.current_block,
        s1.activity_cutoff == s2.activity_cutoff,
        s1.bonds_moving_average == s2.bonds_moving_average,
        s1.last_update@ == s2.last_update@,
        s1.registrations@ == s2.registrations@,
        s1.keys@ == s2.keys@,
        s1.bonds@ == s2.bonds@,
        forall|i: int, j: int|
            0 <= i < s1.n && 0 <= j < s1.n && !s1.spec_inactive()[i] && j != i
                && !s1.spec_outdated()[i][j] ==> #[trigger] spec_dense_from_store(
                s1.weights@,
                s1.n as int,
            )[i][j] == spec_dense_from_store(s2.weights@, s1.n as int)[i][j],
    ensures
        s1.spec_dense_ranks() == s2.spec_dense_ranks(),
        s1.spec_ema_bonds() == s2.spec_ema_bonds(),
        s1.spec_dense_dividends() == s2.spec_dense_dividends(),
        s1.spec_dense_scores() == s2.spec_dense_scores(),
        s1.spec_bonds_delta() == s2.spec_bonds_delta(),
{
    let n = s1.n as int;
    let v = s1.spec_active_stake();
    assert(v == s2.spec_active_stake());
    assert(s1.spec_outdated() == s2.spec_outdated());
    let d1 = spec_dense_from_store(s1.weights@, n);
    let d2 = spec_dense_from_store(s2.weights@, n);
    crate::storage::lemma_dense_from_store_unit(s1.weights@, n);
    crate::storage::lemma_dense_from_store_unit(s2.weights@, n);
    let w1 = s1.spec_dense_weights();
    let w2 = s2.spec_dense_weights();
    assert(v.len() == n);
    if n > 0 {
        let mk = s1.spec_outdated();
        assert(mk[0].len() == n);
        assert(d1[0].len() == n && d2[0].len() == n);
        let m1 = mask_applied(mk, diag_zeroed(d1));
        let m2 = mask_applied(mk, diag_zeroed(d2));
        assert forall|i: int| 0 <= i < n && v[i] != 0 implies #[trigger] w1[i] == w2[i] by {
            if s1.spec_inactive()[i] {
                lemma_inactive_has_no_active_stake(s1, i);
            }
            assert(!s1.spec_inactive()[i]);
            assert forall|j: int| 0 <= j < n implies #[trigger] m1[i][j] == m2[i][j] by {
                if j != i && !mk[i][j] {
                    assert(d1[i][j] == d2[i][j]);
                }
            }
            assert(m1[i] =~= m2[i]);
        }
        assert forall|i: int| 0 <= i < n && v[i] == 0 implies #[trigger] spec_row_hadamard(w1, v)[i]
            == spec_row_hadamard(w2, v)[i] by {
            assert(w1[i].len() == n && w2[i].len() == n);
            assert forall|j: int| 0 <= j < n implies fmul(v[i] as int, #[trigger] w1[i][j] as int)
                == fmul(v[i] as int, w2[i][j] as int) by {
                assert(0 * w1[i][j] == 0);
                assert(0 * w2[i][j] == 0);
                vstd::arithmetic::div_mod::lemma_basic_div(0, scale32());
            }
            assert(spec_row_hadamard(w1, v)[i] =~= spec_row_hadamard(w2, v)[i]);
        }
        assert(w1[0].len() == n && w2[0].len() == n);
        assert(spec_row_hadamard(w1, v) =~= spec_row_hadamard(w2, v));
        assert forall|j: int| 0 <= j < n implies #[trigger] spec_matmul(w1, v)[j] == spec_matmul(
            w2,
            v,
        )[j] by {
            lemma_dense_col_dot_same(w1, w2, v, j, n);
        }
        assert(spec_matmul(w1, v) =~= spec_matmul(w2, v));
    } else {
        assert(w1 =~= w2);
    }
}

/// Two sparse matrices of unit rows whose dense matrices are equal have the
/// same moving average with any `old`.
proof fn lemma_mat_ema_sparse_dense_eq(
    a: Seq<Seq<(u16, i64)>>,
    b: Seq<Seq<(u16, i64)>>,
    old: Seq<Seq<(u16, i64)>>,
    alpha: int,
    n: int,
)
    requires
        unit_sparse(a, n),
        unit_sparse(b, n),
        a.len() == n,
        b.len() == n,
        densify(a, n) == densify(b, n),
    ensures
        spec_mat_ema_sparse(a, old, alpha) == spec_mat_ema_sparse(b, old, alpha),
{
    let ea = spec_mat_ema_sparse(a, old, alpha);
    let eb = spec_mat_ema_sparse(b, old, alpha);
    assert forall|i: int| 0 <= i < n implies #[trigger] ea[i] == eb[i] by {
        assert(unit_row(a[i], n) && unit_row(b[i], n));
        let ra = ema_dense_row(a[i], old[i], alpha, n);
        let rb = ema_dense_row(b[i], old[i], alpha, n);
        assert forall|j: int| 0 <= j < n implies #[trigger] ra[j] == rb[j] by {
            lemma_row_col_dot_single(a[i], alpha, j);
            lemma_row_col_dot_single(b[i], alpha, j);
            lemma_col_sum_unit_row(a[i], n, j);
            lemma_col_sum_unit_row(b[i], n, j);
            assert(densify(a, n)[i] == crate::densify::densify_row(a[i], n));
            assert(densify(b, n)[i] == crate::densify::densify_row(b[i], n));
            assert(densify(a, n)[i][j] == densify(b, n)[i][j]);
            assert(crate::densify::densify_row(a[i], n)[j] == row_col_sum(a[i], j) as i64);
            assert(crate::densify::densify_row(b[i], n)[j] == row_col_sum(b[i], j) as i64);
            assert(0 <= row_col_sum(a[i], j) <= ONE);
            assert(0 <= row_col_sum(b[i], j) <= ONE);
            assert(row_col_sum(a[i], j) == row_col_sum(b[i], j));
            assert(crate::sparse_product::row_col_dot(a[i], alpha, j) == crate::sparse_product::row_col_dot(b[i], alpha, j));
        }
        assert(ra =~= rb);
    }
    assert(ea =~= eb);
}

/// The sparse epoch does not depend on the weights that it sets aside
/// either: on two well-formed networks that differ only there, it gives the
/// same ranks (so incentive), new bonds, dividends and emission scores (so
/// emission, pruning scores and emission of each key).
pub proof fn lemma_epoch_ignores_set_aside_weights(s1: NetworkState, s2: NetworkState)
    requires
        s1.wf(),
        s2.wf(),
        s1.n == s2.n,
        s1.current_block == s2.current_block,
        s1.activity_cutoff == s2.activity_cutoff,
        s1.bonds_moving_average == s2.bonds_moving_average,
        s1.last_update@ == s2.last_update@,
        s1.registrations@ == s2.registrations@,
        s1.keys@ == s2.keys@,
        s1.bonds@ == s2.bonds@,
        forall|i: int, j: int|
            0 <= i < s1.n && 0 <= j < s1.n && !s1.spec_inactive()[i] && j != i
                && !s1.spec_outdated()[i][j] ==> #[trigger] spec_dense_from_store(
                s1.weights@,
                s1.n as int,
            )[i][j] == spec_dense_from_store(s2.weights@, s1.n as int)[i][j],
    ensures
        s1.spec_ranks() == s2.spec_ranks(),
        s1.spec_bonds() == s2.spec_bonds(),
        s1.spec_dividends() == s2.spec_dividends(),
        s1.spec_scores() == s2.spec_scores(),
{
    let n = s1.n as int;
    let v = s1.spec_active_stake();
    lemma_dense_epoch_ignores_set_aside_weights(s1, s2);
    if n == 0 {
        assert(s1.spec_ranks() =~= s2.spec_ranks());
        assert(s1.spec_bonds() =~= s2.spec_bonds());
    } else {
        lemma_active_stake_unit(s1);
        lemma_dense_weights_densified(s1);
        lemma_dense_weights_densified(s2);
        let w1 = s1.spec_weights();
        let w2 = s2.spec_weights();
        lemma_densify_matmul(w1, v, n);
        lemma_densify_matmul(w2, v, n);
        assert(s1.spec_ranks() == s2.spec_ranks());
        lemma_densify_row_hadamard(w1, v, n);
        lemma_densify_row_hadamard(w2, v, n);
        lemma_densify_col_normalized(spec_row_hadamard_sparse(w1, v), n);
        lemma_densify_col_normalized(spec_row_hadamard_sparse(w2, v), n);
        assert(densify(s1.spec_new_bonds(), n) == densify(s2.spec_new_bonds(), n));
        lemma_mat_ema_sparse_dense_eq(
            s1.spec_new_bonds(),
            s2.spec_new_bonds(),
            s1.spec_stored_bonds(),
            spec_alpha(s1.bonds_moving_average as int),
            n,
        );
        assert(s1.spec_stored_bonds() == s2.spec_stored_bonds());
        assert(s1.spec_bonds() == s2.spec_bonds());
    }
}

proof fn lemma_key_stake_scaled(k1: Seq<(u16, u64)>, k2: Seq<(u16, u64)>, c: int, i: int, r: int)
    requires
        k1.len() == k2.len(),
        0 <= r <= k1.len(),
        forall|x: int|
            0 <= x < k1.len() ==> (#[trigger] k2[x]).0 == k1[x].0 && k2[x].1 == c * k1[x].1,
    ensures
        key_stake(k2, i, r) == c * key_stake(k1, i, r),
    decreases r,
{
    if r > 0 {
        lemma_key_stake_scaled(k1, k2, c, i, r - 1);
        assert(k2[r - 1].0 == k1[r - 1].0);
    }
}

proof fn lemma_sum64_scaled(a: Seq<i128>, b: Seq<i128>, c: int)
    requires
        a.len() == b.len(),
        forall|i: int| 0 <= i < a.len() ==> #[trigger] b[i] == c * a[i],
    ensures
        sum64(b) == c * sum64(a),
    decreases a.len(),
{
    if a.len() > 0 {
        let a2 = a.drop_last();
        let b2 = b.drop_last();
        assert forall|i: int| 0 <= i < a2.len() implies #[trigger] b2[i] == c * a2[i] by {
            assert(b2[i] == b[i] && a2[i] == a[i]);
        }
        lemma_sum64_scaled(a2, b2, c);
        assert(b.last() == c * a.last());
        assert(c * sum64(a2) + c * a.last() == c * (sum64(a2) + a.last())) by (nonlinear_arith);
    }
}

/// Scaling the stake of every key by the same positive integer changes
/// nothing: the normalized stake stays the same, and with it every result
/// of both epochs.
pub proof fn lemma_stake_scale_invariant(s1: NetworkState, s2: NetworkState, c: int)
    requires
        1 <= c,
        s1.n == s2.n,
        s1.current_block == s2.current_block,
        s1.activity_cutoff == s2.activity_cutoff,
        s1.bonds_moving_average == s2.bonds_moving_average,
        s1.last_update@ == s2.last_update@,
        s1.registrations@ == s2.registrations@,
        s1.weights@ == s2.weights@,
        s1.bonds@ == s2.bonds@,
        s2.keys@.len() == s1.keys@.len(),
        forall|x: int|
            0 <= x < s1.keys@.len() ==> (#[trigger] s2.keys@[x]).0 == s1.keys@[x].0
                && s2.keys@[x].1 == c * s1.keys@[x].1,
        forall|x: int| 0 <= x < s2.keys@.len() ==> (#[trigger] s2.keys@[x]).1 <= i64::MAX,
    ensures
        s1.spec_stake() == s2.spec_stake(),
        s1.spec_active_stake() == s2.spec_active_stake(),
        s1.spec_ranks() == s2.spec_ranks(),
        s1.spec_bonds() == s2.spec_bonds(),
        s1.spec_dividends() == s2.spec_dividends(),
        s1.spec_scores() == s2.spec_scores(),
        s1.spec_dense_ranks() == s2.spec_dense_ranks(),
        s1.spec_ema_bonds() == s2.spec_ema_bonds(),
        s1.spec_dense_dividends() == s2.spec_dense_dividends(),
        s1.spec_dense_scores() == s2.spec_dense_scores(),
{
    let n = s1.n as int;
    let k1 = s1.keys@;
    let k2 = s2.keys@;
    assert forall|x: int| 0 <= x < k1.len() implies (#[trigger] k1[x]).1 <= i64::MAX by {
        assert(k2[x].1 == c * k1[x].1);
        assert(k1[x].1 <= c * k1[x].1) by (nonlinear_arith)
            requires
                1 <= c,
                0 <= k1[x].1,
        ;
    }
    let b1 = stake_bits(n, k1);
    let b2 = stake_bits(n, k2);
    lemma_stake_bits_nonneg(n, k1);
    lemma_stake_bits_nonneg(n, k2);
    assert forall|i: int| 0 <= i < n implies #[trigger] b2[i] == c * b1[i] by {
        lemma_key_stake_scaled(k1, k2, c, i, k1.len() as int);
        let ks = key_stake(k1, i, k1.len() as int);
        assert((c * ks) * scale64() == c * (ks * scale64())) by (nonlinear_arith);
    }
    lemma_sum64_scaled(b1, b2, c);
    let t = sum64(b1);
    crate::sums::lemma_sum64_nonneg(b1);
    if t == 0 {
        assert forall|i: int| 0 <= i < n implies #[trigger] b1[i] == b2[i] by {
            crate::sums::lemma_elem_le_sum64(b1, i);
            assert(b1[i] == 0);
            assert(b2[i] == c * b1[i]);
            assert(c * 0 == 0);
        }
        assert(b1 =~= b2);
    } else {
        assert(c * t > 0) by (nonlinear_arith)
            requires
                1 <= c,
                t > 0,
        ;
        assert forall|i: int| 0 <= i < n implies #[trigger] normalized64(b1)[i] == normalized64(
            b2,
        )[i] by {
            let x = b1[i] as int;
            assert(0 <= x);
            assert((c * x) * scale64() == c * (x * scale64())) by (nonlinear_arith);
            vstd::arithmetic::mul::lemma_mul_nonnegative(x, scale64());
            vstd::arithmetic::div_mod::lemma_div_multiples_vanish_quotient(c, x * scale64(), t);
            assert(fdiv64(x, t) == (x * scale64()) / t);
            assert(fdiv64(c * x, c * t) == (c * (x * scale64())) / (c * t)) by {
                vstd::arithmetic::mul::lemma_mul_nonnegative(c, x * scale64());
            }
        }
        assert(normalized64(b1) =~= normalized64(b2));
    }
    assert(s1.spec_stake() =~= s2.spec_stake());
}

/// The emission scores do not depend on the amount emitted, and the
/// emission of each uid grows with that amount.
pub proof fn lemma_emission_monotone(scores: Seq<i64>, r1: int, r2: int, i: int)
    requires
        proportions(scores),
        0 <= r1 <= r2 <= u64::MAX,
        0 <= i < scores.len(),
    ensures
        spec_rao_emission(scores, r1)[i] <= spec_rao_emission(scores, r2)[i],
{
    let e = scores[i] as int;
    assert(0 <= e <= scale32());
    assert(e * r1 <= e * r2) by (nonlinear_arith)
        requires
            0 <= e,
            r1 <= r2,
    ;
    assert(e * r2 <= scale32() * u64::MAX) by (nonlinear_arith)
        requires
            0 <= e <= scale32(),
            0 <= r2 <= u64::MAX,
    ;
    vstd::arithmetic::mul::lemma_mul_nonnegative(e, r1);
    lemma_div_is_ordered(e * r1, e * r2, scale32());
    lemma_div_pos_is_pos(e * r1, scale32());
    lemma_div_is_ordered(e * r2, scale32() * u64::MAX, scale32());
    vstd::arithmetic::div_mod::lemma_div_multiples_vanish(u64::MAX as int, scale32());
}

/// Two sparse matrices of unit rows whose dense matrices are equal give
/// the same moving average as the old bonds.
proof fn lemma_mat_ema_sparse_old_eq(
    new: Seq<Seq<(u16, i64)>>,
    a: Seq<Seq<(u16, i64)>>,
    b: Seq<Seq<(u16, i64)>>,
    alpha: int,
    n: int,
)
    requires
        new.len() == n,
        unit_sparse(a, n),
        unit_sparse(b, n),
        a.len() == n,
        b.len() == n,
        densify(a, n) == densify(b, n),
    ensures
        spec_mat_ema_sparse(new, a, alpha) == spec_mat_ema_sparse(new, b, alpha),
{
    let ea = spec_mat_ema_sparse(new, a, alpha);
    let eb = spec_mat_ema_sparse(new, b, alpha);
    assert forall|i: int| 0 <= i < n implies #[trigger] ea[i] == eb[i] by {
        assert(unit_row(a[i], n) && unit_row(b[i], n));
        let ra = ema_dense_row(new[i], a[i], alpha, n);
        let rb = ema_dense_row(new[i], b[i], alpha, n);
        assert forall|j: int| 0 <= j < n implies #[trigger] ra[j] == rb[j] by {
            lemma_row_col_dot_single(a[i], ONE - alpha, j);
            lemma_row_col_dot_single(b[i], ONE - alpha, j);
            lemma_col_sum_unit_row(a[i], n, j);
            lemma_col_sum_unit_row(b[i], n, j);
            assert(densify(a, n)[i] == crate::densify::densify_row(a[i], n));
            assert(densify(b, n)[i] == crate::densify::densify_row(b[i], n));
            assert(densify(a, n)[i][j] == densify(b, n)[i][j]);
            assert(crate::densify::densify_row(a[i], n)[j] == row_col_sum(a[i], j) as i64);
            assert(crate::densify::densify_row(b[i], n)[j] == row_col_sum(b[i], j) as i64);
            assert(row_col_sum(a[i], j) == row_col_sum(b[i], j));
        }
        assert(ra =~= rb);
    }
    assert(ea =~= eb);
}

/// The stored bonds that the sparse epoch uses hold no bond of a uid on a
/// uid registered no earlier than the first one last set weights.
pub proof fn lemma_stored_bonds_not_outdated(state: NetworkState, i: int, k: int)
    requires
        state.last_update@.len() == state.n,
        0 <= i < state.n,
        0 <= k < state.spec_stored_bonds()[i].len(),
    ensures
        state.last_update@[i] > state.spec_block_at_registration()[state.spec_stored_bonds()[i][k].0 as int],
{
    let n = state.n as int;
    let m = spec_sparse_from_store(state.bonds@, n);
    let bar = state.spec_block_at_registration();
    let o = outdated_masked(m, state.last_update@, bar);
    let p = not_outdated(state.last_update@[i], bar);
    assert(state.spec_stored_bonds()[i][k].0 == o[i][k].0);
    assert(o[i] == m[i].filter(p));
    m[i].lemma_filter_pred(p, k);
}

/// The stored bonds that the dense epoch uses are zero wherever a uid last
/// set weights no later than the other uid was registered.
pub proof fn lemma_dense_stored_bonds_not_outdated(state: NetworkState, i: int, j: int)
    requires
        state.last_update@.len() == state.n,
        0 <= i < state.n,
        0 <= j < state.n,
        state.last_update@[i] <= state.spec_block_at_registration()[j],
    ensures
        state.spec_dense_stored_bonds()[i][j] == 0,
{
    let n = state.n as int;
    let d = spec_dense_from_store(state.bonds@, n);
    crate::storage::lemma_dense_from_store_unit(state.bonds@, n);
    let mk = state.spec_outdated();
    assert(mk[0].len() == n);
    assert(d[0].len() == n);
    let a = mask_applied(mk, d);
    assert(a[i][j] == 0);
    assert(a[0].len() == n);
    let t = crate::dense::dense_col_sum(a, j, n);
    if t != 0 {
        lemma_fdiv_zero(t);
    }
}

/// Masking the outdated entries of two dense readings that agree on every
/// entry that is not outdated gives the same matrix.
proof fn lemma_masked_readings_eq(s1: NetworkState, s2: NetworkState)
    requires
        s1.last_update@.len() == s1.n,
        s1.n == s2.n,
        s1.last_update@ == s2.last_update@,
        s1.registrations@ == s2.registrations@,
        forall|i: int, j: int|
            0 <= i < s1.n && 0 <= j < s1.n && !(s1.last_update@[i]
                <= s1.spec_block_at_registration()[j]) ==> #[trigger] spec_dense_from_store(
                s1.bonds@,
                s1.n as int,
            )[i][j] == spec_dense_from_store(s2.bonds@, s1.n as int)[i][j],
    ensures
        s1.spec_dense_stored_bonds() == s2.spec_dense_stored_bonds(),
{
    let n = s1.n as int;
    let d1 = spec_dense_from_store(s1.bonds@, n);
    let d2 = spec_dense_from_store(s2.bonds@, n);
    crate::storage::lemma_dense_from_store_unit(s1.bonds@, n);
    crate::storage::lemma_dense_from_store_unit(s2.bonds@, n);
    let mk = s1.spec_outdated();
    assert(mk == s2.spec_outdated());
    if n > 0 {
        assert(mk[0].len() == n);
        let a1 = mask_applied(mk, d1);
        let a2 = mask_applied(mk, d2);
        assert forall|i: int| 0 <= i < n implies #[trigger] a1[i] == a2[i] by {
            assert forall|j: int| 0 <= j < n implies #[trigger] a1[i][j] == a2[i][j] by {
                if !mk[i][j] {
                    assert(d1[i][j] == d2[i][j]);
                }
            }
            assert(a1[i] =~= a2[i]);
        }
        assert(a1 =~= a2);
    } else {
        assert(d1 =~= d2);
    }
}

/// The dense epoch does not depend on the stored bonds that are outdated:
/// two networks that differ only in bonds of a uid on a uid registered no
/// earlier than the first one last set weights get the same new bonds,
/// dividends and emission scores.
pub proof fn lemma_dense_epoch_ignores_outdated_bonds(s1: NetworkState, s2: NetworkState)
    requires
        s1.last_update@.len() == s1.n,
        s1.n == s2.n,
        s1.current_block == s2.current_block,
        s1.activity_cutoff == s2.activity_cutoff,
        s1.bonds_moving_average == s2.bonds_moving_average,
        s1.last_update@ == s2.last_update@,
        s1.registrations@ == s2.registrations@,
        s1.keys@ == s2.keys@,
        s1.weights@ == s2.weights@,
        forall|i: int, j: int|
            0 <= i < s1.n && 0 <= j < s1.n && !(s1.last_update@[i]
                <= s1.spec_block_at_registration()[j]) ==> #[trigger] spec_dense_from_store(
                s1.bonds@,
                s1.n as int,
            )[i][j] == spec_dense_from_store(s2.bonds@, s1.n as int)[i][j],
    ensures
        s1.spec_ema_bonds() == s2.spec_ema_bonds(),
        s1.spec_dense_dividends() == s2.spec_dense_dividends(),
        s1.spec_dense_scores() == s2.spec_dense_scores(),
{
    lemma_masked_readings_eq(s1, s2);
}

/// The sparse epoch does not depend on the stored bonds that are outdated
/// either: on two well-formed networks that differ only there, it gives the
/// same new bonds, dividends and emission scores.
pub proof fn lemma_epoch_ignores_outdated_bonds(s1: NetworkState, s2: NetworkState)
    requires
        s1.wf(),
        s2.wf(),
        s1.n == s2.n,
        s1.current_block == s2.current_block,
        s1.activity_cutoff == s2.activity_cutoff,
        s1.bonds_moving_average == s2.bonds_moving_average,
        s1.last_update@ == s2.last_update@,
        s1.registrations@ == s2.registrations@,
        s1.keys@ == s2.keys@,
        s1.weights@ == s2.weights@,
        forall|i: int, j: int|
            0 <= i < s1.n && 0 <= j < s1.n && !(s1.last_update@[i]
                <= s1.spec_block_at_registration()[j]) ==> #[trigger] spec_dense_from_store(
                s1.bonds@,
                s1.n as int,
            )[i][j] == spec_dense_from_store(s2.bonds@, s1.n as int)[i][j],
    ensures
        s1.spec_bonds() == s2.spec_bonds(),
        s1.spec_dividends() == s2.spec_dividends(),
        s1.spec_scores() == s2.spec_scores(),
{
    let n = s1.n as int;
    if n == 0 {
        assert(s1.spec_bonds() =~= s2.spec_bonds());
    } else {
        lemma_masked_readings_eq(s1, s2);
        lemma_dense_stored_bonds_densified(s1);
        lemma_dense_stored_bonds_densified(s2);
        assert(s1.spec_new_bonds() == s2.spec_new_bonds());
        lemma_mat_ema_sparse_old_eq(
            s1.spec_new_bonds(),
            s1.spec_stored_bonds(),
            s2.spec_stored_bonds(),
            spec_alpha(s1.bonds_moving_average as int),
            n,
        );
        assert(s1.spec_new_bonds().len() == n);
    }
}

} // verus!
