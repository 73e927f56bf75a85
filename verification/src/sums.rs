//! Sums of sequences of fixed-point bits, and the facts about them that the
//! vector and matrix operations need.

use crate::fixed::{fdiv, fdiv64, fits_i128, fits_i64, fmul, scale32, scale64, ONE};
use vstd::arithmetic::div_mod::*;
use vstd::arithmetic::mul::*;
use vstd::prelude::*;

verus! {

/// The sum of a sequence of `I32F32` bits.
pub open spec fn sum32(s: Seq<i64>) -> int
    decreases s.len(),
{
    if s.len() == 0 {
        0
    } else {
        sum32(s.drop_last()) + s.last()
    }
}

/// The sum of a sequence of `I64F64` bits.
pub open spec fn sum64(s: Seq<i128>) -> int
    decreases s.len(),
{
    if s.len() == 0 {
        0
    } else {
        sum64(s.drop_last()) + s.last()
    }
}

/// Every partial sum of `s`, taken from the front, fits in `i64`: summing
/// `s` one element after another never overflows.
pub open spec fn sums_fit32(s: Seq<i64>) -> bool {
    forall|k: int| 0 <= k <= s.len() ==> #[trigger] fits_i64(sum32(s.take(k)))
}

/// Every partial sum of `s`, taken from the front, fits in `i128`.
pub open spec fn sums_fit64(s: Seq<i128>) -> bool {
    forall|k: int| 0 <= k <= s.len() ==> #[trigger] fits_i128(sum64(s.take(k)))
}

/// Every element of `s` lies in `[0, bound]`.
pub open spec fn bounded32(s: Seq<i64>, bound: int) -> bool {
    forall|i: int| 0 <= i < s.len() ==> 0 <= #[trigger] s[i] <= bound
}

/// Every element of `s` is nonnegative.
pub open spec fn nonneg64(s: Seq<i128>) -> bool {
    forall|i: int| 0 <= i < s.len() ==> 0 <= #[trigger] s[i]
}

/// A proportion vector: each element is in `[0, 1]` and the elements sum
/// to at most one.
pub open spec fn proportions(s: Seq<i64>) -> bool {
    &&& bounded32(s, ONE as int)
    &&& sum32(s) <= ONE
}

pub proof fn lemma_sum32_take_step(s: Seq<i64>, k: int)
    requires
        0 <= k < s.len(),
    ensures
        sum32(s.take(k + 1)) == sum32(s.take(k)) + s[k],
{
    assert(s.take(k + 1).drop_last() =~= s.take(k));
}

pub proof fn lemma_sum64_take_step(s: Seq<i128>, k: int)
    requires
        0 <= k < s.len(),
    ensures
        sum64(s.take(k + 1)) == sum64(s.take(k)) + s[k],
{
    assert(s.take(k + 1).drop_last() =~= s.take(k));
}

pub proof fn lemma_sum32_take_all(s: Seq<i64>)
    ensures
        sum32(s.take(s.len() as int)) == sum32(s),
{
    assert(s.take(s.len() as int) =~= s);
}

pub proof fn lemma_sum64_take_all(s: Seq<i128>)
    ensures
        sum64(s.take(s.len() as int)) == sum64(s),
{
    assert(s.take(s.len() as int) =~= s);
}

/// A sum of elements in `[0, bound]` lies in `[0, len * bound]`.
pub proof fn lemma_sum32_bounded(s: Seq<i64>, bound: int)
    requires
        bounded32(s, bound),
    ensures
        0 <= sum32(s) <= s.len() * bound,
    decreases s.len(),
{
    if s.len() > 0 {
        lemma_sum32_bounded(s.drop_last(), bound);
        assert(s.len() * bound == (s.len() - 1) * bound + bound) by (nonlinear_arith);
    }
}

/// A sum of nonnegative elements is at least each partial sum.
pub proof fn lemma_sum32_take_le(s: Seq<i64>, k: int)
    requires
        bounded32(s, i64::MAX as int),
        0 <= k <= s.len(),
    ensures
        0 <= sum32(s.take(k)) <= sum32(s),
    decreases s.len() - k,
{
    if k == s.len() {
        lemma_sum32_take_all(s);
        lemma_sum32_bounded(s, i64::MAX as int);
    } else {
        lemma_sum32_take_step(s, k);
        lemma_sum32_take_le(s, k + 1);
        lemma_sum32_bounded(s.take(k), i64::MAX as int);
    }
}

/// Nonnegative elements whose total fits never overflow when summed.
pub proof fn lemma_sums_fit32(s: Seq<i64>)
    requires
        bounded32(s, i64::MAX as int),
        sum32(s) <= i64::MAX,
    ensures
        sums_fit32(s),
{
    assert forall|k: int| 0 <= k <= s.len() implies #[trigger] fits_i64(sum32(s.take(k))) by {
        lemma_sum32_take_le(s, k);
    }
}

/// Elements in `[0, 1]`, at most `2^16` of them, never overflow when summed.
pub proof fn lemma_sums_fit32_small(s: Seq<i64>)
    requires
        bounded32(s, ONE as int),
        s.len() <= 65536,
    ensures
        sums_fit32(s),
        0 <= sum32(s) <= 65536 * ONE,
{
    lemma_sum32_bounded(s, ONE as int);
    assert(s.len() * ONE <= 65536 * ONE) by (nonlinear_arith)
        requires
            s.len() <= 65536,
    ;
    assert forall|i: int| 0 <= i < s.len() implies 0 <= #[trigger] s[i] <= i64::MAX by {}
    lemma_sums_fit32(s);
}

pub proof fn lemma_sum64_nonneg(s: Seq<i128>)
    requires
        nonneg64(s),
    ensures
        0 <= sum64(s),
    decreases s.len(),
{
    if s.len() > 0 {
        lemma_sum64_nonneg(s.drop_last());
    }
}

pub proof fn lemma_sum64_take_le(s: Seq<i128>, k: int)
    requires
        nonneg64(s),
        0 <= k <= s.len(),
    ensures
        0 <= sum64(s.take(k)) <= sum64(s),
    decreases s.len() - k,
{
    if k == s.len() {
        lemma_sum64_take_all(s);
        lemma_sum64_nonneg(s);
    } else {
        lemma_sum64_take_step(s, k);
        lemma_sum64_take_le(s, k + 1);
        lemma_sum64_nonneg(s.take(k));
    }
}

/// Nonnegative elements whose total fits never overflow when summed.
pub proof fn lemma_sums_fit64(s: Seq<i128>)
    requires
        nonneg64(s),
        sum64(s) <= i128::MAX,
    ensures
        sums_fit64(s),
{
    assert forall|k: int| 0 <= k <= s.len() implies #[trigger] fits_i128(sum64(s.take(k))) by {
        lemma_sum64_take_le(s, k);
    }
}

/// Each element of a nonnegative sequence is at most its sum.
pub proof fn lemma_elem_le_sum32(s: Seq<i64>, i: int)
    requires
        bounded32(s, i64::MAX as int),
        0 <= i < s.len(),
    ensures
        s[i] <= sum32(s),
{
    lemma_sum32_take_step(s, i);
    lemma_sum32_take_le(s, i);
    lemma_sum32_take_le(s, i + 1);
}

/// Each element of a nonnegative sequence is at most its sum.
pub proof fn lemma_elem_le_sum64(s: Seq<i128>, i: int)
    requires
        nonneg64(s),
        0 <= i < s.len(),
    ensures
        s[i] <= sum64(s),
{
    lemma_sum64_take_step(s, i);
    lemma_sum64_take_le(s, i);
    lemma_sum64_take_le(s, i + 1);
}

/// Sum after replacing one element.
pub proof fn lemma_sum32_update(s: Seq<i64>, i: int, v: i64)
    requires
        0 <= i < s.len(),
    ensures
        sum32(s.update(i, v)) == sum32(s) - s[i] + v,
    decreases s.len(),
{
    if i == s.len() - 1 {
        assert(s.update(i, v).drop_last() =~= s.drop_last());
    } else {
        assert(s.update(i, v).drop_last() =~= s.drop_last().update(i, v));
        lemma_sum32_update(s.drop_last(), i, v);
    }
}

/// Sums of two sequences compared element by element.
pub proof fn lemma_sum32_le(s: Seq<i64>, t: Seq<i64>)
    requires
        s.len() == t.len(),
        forall|i: int| 0 <= i < s.len() ==> s[i] <= t[i],
    ensures
        sum32(s) <= sum32(t),
    decreases s.len(),
{
    if s.len() > 0 {
        lemma_sum32_le(s.drop_last(), t.drop_last());
    }
}

/// `fmul(a, b)` lies in `[0, a]` when `a >= 0` and `b` is in `[0, 1]`.
pub proof fn lemma_fmul_le(a: int, b: int)
    requires
        0 <= a,
        0 <= b <= scale32(),
    ensures
        0 <= fmul(a, b) <= a,
{
    lemma_mul_nonnegative(a, b);
    lemma_mul_inequality(b, scale32(), a);
    lemma_div_is_ordered(a * b, scale32() * a, scale32());
    lemma_div_multiples_vanish(a, scale32());
    lemma_div_pos_is_pos(a * b, scale32());
}

/// `fmul(a, b) * 2^32 <= a * b`.
pub proof fn lemma_fmul_floor(a: int, b: int)
    ensures
        fmul(a, b) * scale32() <= a * b,
        a * b < fmul(a, b) * scale32() + scale32(),
{
    lemma_fundamental_div_mod(a * b, scale32());
    lemma_mod_bound(a * b, scale32());
}

/// For `0 <= x <= s` and `s > 0`, `fdiv(x, s)` lies in `[0, 1]`, and
/// `fdiv(x, s) * s <= x * 2^32`.
pub proof fn lemma_fdiv_unit(x: int, s: int)
    requires
        0 <= x <= s,
        0 < s,
    ensures
        0 <= fdiv(x, s) <= scale32(),
        fdiv(x, s) * s <= x * scale32(),
{
    assert(fdiv(x, s) == (x * scale32()) / s);
    lemma_mul_nonnegative(x, scale32());
    lemma_div_pos_is_pos(x * scale32(), s);
    lemma_mul_inequality(x, s, scale32());
    lemma_div_is_ordered(x * scale32(), s * scale32(), s);
    lemma_div_multiples_vanish(scale32(), s);
    lemma_fundamental_div_mod(x * scale32(), s);
    lemma_mod_bound(x * scale32(), s);
}

/// For `0 <= x <= s` and `s > 0`, `fdiv64(x, s)` lies in `[0, 2^64]`, and
/// `fdiv64(x, s) * s <= x * 2^64`.
pub proof fn lemma_fdiv64_unit(x: int, s: int)
    requires
        0 <= x <= s,
        0 < s,
    ensures
        0 <= fdiv64(x, s) <= scale64(),
        fdiv64(x, s) * s <= x * scale64(),
{
    assert(fdiv64(x, s) == (x * scale64()) / s);
    lemma_mul_nonnegative(x, scale64());
    lemma_div_pos_is_pos(x * scale64(), s);
    lemma_mul_inequality(x, s, scale64());
    lemma_div_is_ordered(x * scale64(), s * scale64(), s);
    lemma_div_multiples_vanish(scale64(), s);
    lemma_fundamental_div_mod(x * scale64(), s);
    lemma_mod_bound(x * scale64(), s);
}

/// A proportion vector never overflows when summed.
pub proof fn lemma_proportions_fit(s: Seq<i64>)
    requires
        proportions(s),
    ensures
        sums_fit32(s),
        bounded32(s, i64::MAX as int),
{
    assert forall|i: int| 0 <= i < s.len() implies 0 <= #[trigger] s[i] <= i64::MAX by {}
    lemma_sums_fit32(s);
}

} // verus!
