//! What the epoch reads of a network, stated on the network's own values:
//! which uids are active, the stake of each uid, and the stored weights and
//! bonds as the readers hand them out.

use crate::epoch::{key_stake, stake_bits, sum_u64, uid_stake_bits, NetworkState};
use crate::fixed::{fdiv64, scale32, scale64};
use crate::storage::{
    converted, dense_entry, gathered_row, last_entry, spec_dense_from_store,
    spec_sparse_from_store,
};
use crate::sums::sum64;
use crate::vector::{
    lemma_normalize64_ok, normalized64, spec_u16_proportion_to_fixed, to_fixed32,
};
use vstd::arithmetic::div_mod::{lemma_div_is_ordered, lemma_div_pos_is_pos};
use vstd::arithmetic::mul::{lemma_mul_inequality, lemma_mul_nonnegative};
use vstd::prelude::*;

verus! {

/// A uid is inactive exactly when its last update plus the activity cutoff
/// falls below the current block.
pub proof fn lemma_inactive_iff(state: NetworkState, i: int)
    requires
        0 <= i < state.last_update@.len(),
    ensures
        state.spec_inactive()[i] <==> state.last_update@[i] + state.activity_cutoff
            < state.current_block,
{
}

proof fn lemma_key_stake_of_key(keys: Seq<(u16, u64)>, k: int, r: int)
    requires
        0 <= k < r <= keys.len(),
        forall|a: int, b: int| 0 <= a < b < keys.len() ==> #[trigger] keys[a].0 != #[trigger] keys[b].0,
    ensures
        key_stake(keys, keys[k].0 as int, r) == keys[k].1,
    decreases r,
{
    if r - 1 != k {
        assert(keys[r - 1].0 != keys[k].0);
        lemma_key_stake_of_key(keys, k, r - 1);
    }
}

proof fn lemma_key_stake_no_key(keys: Seq<(u16, u64)>, i: int, r: int)
    requires
        0 <= r <= keys.len(),
        forall|x: int| 0 <= x < keys.len() ==> (#[trigger] keys[x]).0 as int != i,
    ensures
        key_stake(keys, i, r) == 0,
    decreases r,
{
    if r > 0 {
        lemma_key_stake_no_key(keys, i, r - 1);
    }
}

/// The stake of a uid is the stake of the key registered on it, whatever
/// the order in which the store hands out the keys, and zero for a uid
/// that no key holds.
pub proof fn lemma_stake_of_keys(n: int, keys: Seq<(u16, u64)>)
    requires
        forall|x: int| 0 <= x < keys.len() ==> (#[trigger] keys[x]).0 < n && keys[x].1 <= i64::MAX,
        forall|a: int, b: int| 0 <= a < b < keys.len() ==> #[trigger] keys[a].0 != #[trigger] keys[b].0,
    ensures
        forall|k: int|
            0 <= k < keys.len() ==> stake_bits(n, keys)[(#[trigger] keys[k]).0 as int] == keys[k].1
                * scale64(),
        forall|i: int|
            0 <= i < n && (forall|x: int| 0 <= x < keys.len() ==> (#[trigger] keys[x]).0 as int != i)
                ==> stake_bits(n, keys)[i] == 0,
{
    assert forall|k: int| 0 <= k < keys.len() implies stake_bits(n, keys)[(#[trigger] keys[k]).0 as int]
        == keys[k].1 * scale64() by {
        lemma_key_stake_of_key(keys, k, keys.len() as int);
        lemma_mul_inequality(keys[k].1 as int, i64::MAX as int, scale64());
    }
    assert forall|i: int|
        0 <= i < n && (forall|x: int| 0 <= x < keys.len() ==> (#[trigger] keys[x]).0 as int != i)
            implies stake_bits(n, keys)[i] == 0 by {
        lemma_key_stake_no_key(keys, i, keys.len() as int);
    }
}

proof fn lemma_uid_stake_bits_sum(stakes: Seq<u64>)
    requires
        forall|x: int| 0 <= x < stakes.len() ==> #[trigger] stakes[x] <= i64::MAX,
    ensures
        sum64(uid_stake_bits(stakes)) == sum_u64(stakes) * scale64(),
        forall|x: int|
            0 <= x < stakes.len() ==> #[trigger] uid_stake_bits(stakes)[x] == stakes[x] * scale64(),
    decreases stakes.len(),
{
    assert forall|x: int| 0 <= x < stakes.len() implies #[trigger] uid_stake_bits(stakes)[x]
        == stakes[x] * scale64() by {
        lemma_mul_inequality(stakes[x] as int, i64::MAX as int, scale64());
        lemma_mul_nonnegative(stakes[x] as int, scale64());
    }
    if stakes.len() > 0 {
        let s2 = stakes.drop_last();
        assert forall|x: int| 0 <= x < s2.len() implies #[trigger] s2[x] <= i64::MAX by {
            assert(s2[x] == stakes[x]);
        }
        lemma_uid_stake_bits_sum(s2);
        assert(uid_stake_bits(stakes).drop_last() =~= uid_stake_bits(s2));
        let l = stakes.len() - 1;
        assert(uid_stake_bits(stakes).last() == stakes[l] * scale64());
        assert(sum_u64(s2) * scale64() + stakes[l] * scale64() == (sum_u64(s2) + stakes[l])
            * scale64()) by (nonlinear_arith);
    }
}

proof fn lemma_sum_u64_zero(stakes: Seq<u64>, i: int)
    requires
        sum_u64(stakes) == 0,
        0 <= i < stakes.len(),
    ensures
        stakes[i] == 0,
    decreases stakes.len(),
{
    crate::epoch::lemma_sum_u64_nonneg(stakes.drop_last());
    if i < stakes.len() - 1 {
        lemma_sum_u64_zero(stakes.drop_last(), i);
    }
}

/// The normalized stake of a uid is its stake over the total stake, with
/// the quotient truncated to 64 and then to 32 fractional bits; every uid
/// gets zero when there is no stake at all.
pub proof fn lemma_normalized_stake_of_uids(stakes: Seq<u64>)
    requires
        forall|x: int| 0 <= x < stakes.len() ==> #[trigger] stakes[x] <= i64::MAX,
        sum64(uid_stake_bits(stakes)) <= i128::MAX,
    ensures
        to_fixed32(normalized64(uid_stake_bits(stakes))).len() == stakes.len(),
        forall|i: int|
            0 <= i < stakes.len() ==> #[trigger] to_fixed32(normalized64(uid_stake_bits(stakes)))[i]
                == (if sum_u64(stakes) == 0 {
                0
            } else {
                ((stakes[i] * scale64()) * scale64() / (sum_u64(stakes) * scale64())) / scale32()
            }),
{
    let b = uid_stake_bits(stakes);
    lemma_uid_stake_bits_sum(stakes);
    let t = sum64(b);
    let r = to_fixed32(normalized64(b));
    crate::epoch::lemma_sum_u64_nonneg(stakes);
    assert(crate::sums::nonneg64(b)) by {
        assert forall|x: int| 0 <= x < b.len() implies 0 <= #[trigger] b[x] by {
            lemma_mul_nonnegative(stakes[x] as int, scale64());
        }
    }
    lemma_normalize64_ok(b);
    assert forall|i: int| 0 <= i < stakes.len() implies #[trigger] r[i] == (if sum_u64(stakes) == 0 {
        0
    } else {
        ((stakes[i] * scale64()) * scale64() / (sum_u64(stakes) * scale64())) / scale32()
    }) by {
        let y = normalized64(b)[i] as int;
        lemma_div_is_ordered(y, scale64(), scale32());
        lemma_div_pos_is_pos(y, scale32());
        if sum_u64(stakes) == 0 {
            lemma_sum_u64_zero(stakes, i);
            assert(t == 0);
            assert(y == 0);
        } else {
            lemma_mul_nonnegative(stakes[i] as int, scale64());
            lemma_mul_nonnegative(stakes[i] * scale64(), scale64());
            assert(t == sum_u64(stakes) * scale64());
            assert(t > 0) by {
                lemma_mul_nonnegative(sum_u64(stakes), scale64());
                assert(sum_u64(stakes) * scale64() >= scale64()) by (nonlinear_arith)
                    requires
                        sum_u64(stakes) >= 1,
                ;
            }
            assert(fdiv64(b[i] as int, t) == (stakes[i] * scale64()) * scale64() / t);
        }
    }
}

proof fn lemma_gathered_row_at(stored: Seq<(u16, Vec<(u16, u16)>)>, a: int, r: int)
    requires
        0 <= a < r <= stored.len(),
        forall|b: int| 0 <= b < stored.len() && b != a ==> (#[trigger] stored[b]).0 != stored[a].0,
    ensures
        gathered_row(stored, stored[a].0 as int, r) == converted(stored[a].1@),
    decreases r,
{
    let i = stored[a].0 as int;
    if r - 1 == a {
        crate::storage::lemma_gathered_row_none(stored, i, a);
        assert(gathered_row(stored, i, r) =~= converted(stored[a].1@));
    } else {
        lemma_gathered_row_at(stored, a, r - 1);
        assert(stored[r - 1].0 != stored[a].0);
        assert(gathered_row(stored, i, r) =~= gathered_row(stored, i, r - 1));
    }
}

/// A stored row is read whole: the sparse reading of its uid lists every
/// stored entry in order, the entry on the uid itself included, each
/// proportion converted to a fixed-point number; a uid with no stored row
/// reads as no entries.
pub proof fn lemma_sparse_read_keeps_entries(stored: Seq<(u16, Vec<(u16, u16)>)>, n: int)
    requires
        forall|b: int, c: int| 0 <= b < c < stored.len() ==> #[trigger] stored[b].0 != #[trigger] stored[c].0,
    ensures
        forall|a: int, k: int|
            0 <= a < stored.len() && stored[a].0 < n && 0 <= k < stored[a].1@.len() ==> (
            #[trigger] spec_sparse_from_store(stored, n)[stored[a].0 as int][k]) == (
                stored[a].1@[k].0,
                spec_u16_proportion_to_fixed(stored[a].1@[k].1 as int) as i64,
            ),
        forall|a: int|
            0 <= a < stored.len() && stored[a].0 < n ==> (#[trigger] spec_sparse_from_store(
                stored,
                n,
            )[stored[a].0 as int]).len() == stored[a].1@.len(),
        forall|i: int|
            0 <= i < n && (forall|b: int| 0 <= b < stored.len() ==> (#[trigger] stored[b]).0 != i)
                ==> spec_sparse_from_store(stored, n)[i].len() == 0,
{
    assert forall|a: int| 0 <= a < stored.len() && stored[a].0 < n implies #[trigger] spec_sparse_from_store(
        stored,
        n,
    )[stored[a].0 as int] == converted(stored[a].1@) by {
        assert forall|b: int| 0 <= b < stored.len() && b != a implies (#[trigger] stored[b]).0
            != stored[a].0 by {
            if b < a {
                assert(stored[b].0 != stored[a].0);
            } else {
                assert(stored[a].0 != stored[b].0);
            }
        }
        lemma_gathered_row_at(stored, a, stored.len() as int);
    }
    assert forall|i: int|
        0 <= i < n && (forall|b: int| 0 <= b < stored.len() ==> (#[trigger] stored[b]).0 != i)
            implies spec_sparse_from_store(stored, n)[i].len() == 0 by {
        crate::storage::lemma_gathered_row_none(stored, i, stored.len() as int);
    }
}

proof fn lemma_last_entry_at(entries: Seq<(u16, u16)>, k: int)
    requires
        0 <= k < entries.len(),
        forall|x: int, y: int| 0 <= x < y < entries.len() ==> #[trigger] entries[x].0 != #[trigger] entries[y].0,
    ensures
        last_entry(entries, entries[k].0 as int) == Some(entries[k].1),
    decreases entries.len(),
{
    let l = entries.len() - 1;
    assert(entries.last() == entries[l]);
    if k != l {
        let e2 = entries.drop_last();
        assert(entries[l].0 != entries[k].0);
        assert forall|x: int, y: int| 0 <= x < y < e2.len() implies #[trigger] e2[x].0
            != #[trigger] e2[y].0 by {
            assert(e2[x] == entries[x] && e2[y] == entries[y]);
        }
        assert(e2[k] == entries[k]);
        lemma_last_entry_at(e2, k);
    }
}

proof fn lemma_last_entry_none(entries: Seq<(u16, u16)>, j: int)
    requires
        forall|x: int| 0 <= x < entries.len() ==> (#[trigger] entries[x]).0 as int != j,
    ensures
        last_entry(entries, j) is None,
    decreases entries.len(),
{
    if entries.len() > 0 {
        let e2 = entries.drop_last();
        assert(entries.last() == entries[entries.len() - 1]);
        assert forall|x: int| 0 <= x < e2.len() implies (#[trigger] e2[x]).0 as int != j by {
            assert(e2[x] == entries[x]);
        }
        lemma_last_entry_none(e2, j);
    }
}

proof fn lemma_dense_entry_at(stored: Seq<(u16, Vec<(u16, u16)>)>, a: int, j: int, r: int)
    requires
        0 <= a < r <= stored.len(),
        forall|b: int| 0 <= b < stored.len() && b != a ==> (#[trigger] stored[b]).0 != stored[a].0,
    ensures
        dense_entry(stored, stored[a].0 as int, j, r) == dense_entry(stored, stored[a].0 as int, j, a + 1),
    decreases r,
{
    if r - 1 != a {
        lemma_dense_entry_at(stored, a, j, r - 1);
        assert(stored[r - 1].0 != stored[a].0);
    }
}

/// A stored row is read whole into the dense matrix: every stored entry
/// `(j, w)` of uid `i`, the one with `j == i` included, puts the converted
/// proportion `w` at `(i, j)`; a pair that no stored entry names reads as
/// zero.
pub proof fn lemma_dense_read_keeps_entries(stored: Seq<(u16, Vec<(u16, u16)>)>, n: int)
    requires
        0 <= n,
        forall|b: int, c: int| 0 <= b < c < stored.len() ==> #[trigger] stored[b].0 != #[trigger] stored[c].0,
        forall|b: int, x: int, y: int|
            0 <= b < stored.len() && 0 <= x < y < stored[b].1@.len() ==> #[trigger] stored[b].1@[x].0
                != #[trigger] stored[b].1@[y].0,
    ensures
        forall|a: int, k: int|
            0 <= a < stored.len() && stored[a].0 < n && 0 <= k < stored[a].1@.len()
                && stored[a].1@[k].0 < n ==> #[trigger] spec_dense_from_store(stored, n)[stored[a].0 as int][stored[a].1@[k].0 as int]
                == spec_u16_proportion_to_fixed(stored[a].1@[k].1 as int) as i64,
        forall|i: int, j: int|
            0 <= i < n && 0 <= j < n && (forall|b: int, k: int|
                0 <= b < stored.len() && 0 <= k < stored[b].1@.len() && #[trigger] stored[b].0 == i
                    ==> (#[trigger] stored[b].1@[k]).0 != j) ==> #[trigger] spec_dense_from_store(
                stored,
                n,
            )[i][j] == 0,
{
    assert forall|a: int, k: int|
        0 <= a < stored.len() && stored[a].0 < n && 0 <= k < stored[a].1@.len() && stored[a].1@[k].0
            < n implies #[trigger] spec_dense_from_store(stored, n)[stored[a].0 as int][stored[a].1@[k].0 as int]
        == spec_u16_proportion_to_fixed(stored[a].1@[k].1 as int) as i64 by {
        assert forall|b: int| 0 <= b < stored.len() && b != a implies (#[trigger] stored[b]).0
            != stored[a].0 by {
            if b < a {
                assert(stored[b].0 != stored[a].0);
            } else {
                assert(stored[a].0 != stored[b].0);
            }
        }
        let e = stored[a].1@;
        assert forall|x: int, y: int| 0 <= x < y < e.len() implies #[trigger] e[x].0 != #[trigger] e[y].0 by {
            assert(stored[a].1@[x].0 != stored[a].1@[y].0);
        }
        lemma_last_entry_at(e, k);
        lemma_dense_entry_at(stored, a, e[k].0 as int, stored.len() as int);
    }
    assert forall|i: int, j: int|
        0 <= i < n && 0 <= j < n && (forall|b: int, k: int|
            0 <= b < stored.len() && 0 <= k < stored[b].1@.len() && #[trigger] stored[b].0 == i
                ==> (#[trigger] stored[b].1@[k]).0 != j) implies #[trigger] spec_dense_from_store(
        stored,
        n,
    )[i][j] == 0 by {
        lemma_dense_entry_zero(stored, i, j, stored.len() as int);
    }
}

proof fn lemma_dense_entry_zero(stored: Seq<(u16, Vec<(u16, u16)>)>, i: int, j: int, r: int)
    requires
        0 <= r <= stored.len(),
        forall|b: int, k: int|
            0 <= b < stored.len() && 0 <= k < stored[b].1@.len() && #[trigger] stored[b].0 == i
                ==> (#[trigger] stored[b].1@[k]).0 != j,
    ensures
        dense_entry(stored, i, j, r) == 0,
    decreases r,
{
    if r > 0 {
        lemma_dense_entry_zero(stored, i, j, r - 1);
        if stored[r - 1].0 as int == i {
            let e = stored[r - 1].1@;
            assert forall|x: int| 0 <= x < e.len() implies (#[trigger] e[x]).0 as int != j by {
                assert(stored[r - 1].0 == i);
                assert(stored[r - 1].1@[x].0 != j);
            }
            lemma_last_entry_none(e, j);
        }
    }
}

} // verus!
