//! Operations on vectors of fixed-point numbers: sums, normalization,
//! masking and conversion between fixed-point formats and `u16` proportions.

use crate::fixed::{
    fdiv, fdiv64, fits_i128, fits_i64, fmul, fx32_add, fx32_div, fx32_from_fx64, fx32_from_u16,
    fx32_mul, fx32_to_u16, fx64_add, fx64_div, scale32, scale64, ONE,
};
use crate::sums::{
    bounded32, lemma_elem_le_sum32, lemma_elem_le_sum64, lemma_fdiv64_unit, lemma_fdiv_unit,
    lemma_sum32_bounded, lemma_sum32_le, lemma_sum32_take_all, lemma_sum32_take_step,
    lemma_sum64_take_all, lemma_sum64_take_step, nonneg64, proportions, sum32, sum64, sums_fit32,
    sums_fit64,
};
use vstd::arithmetic::div_mod::*;
use vstd::arithmetic::mul::*;
use vstd::prelude::*;

verus! {

/// The largest `u16`, as the bits of an `I32F32` integer: `65535 * 2^32`.
pub open spec fn u16_max_fixed() -> int {
    65535 * scale32()
}

/// The value that `u16_proportion_to_fixed` gives for `x`: `x / 65535`,
/// rounded toward zero to 32 fractional bits.
pub open spec fn spec_u16_proportion_to_fixed(x: int) -> int {
    fdiv(x * scale32(), u16_max_fixed())
}

/// The value that `fixed_proportion_to_u16` gives for `x`: `x * 65535`,
/// truncated to an integer.
pub open spec fn spec_fixed_proportion_to_u16(x: int) -> int {
    fmul(x, u16_max_fixed()) / scale32()
}

/// `fixed_proportion_to_u16` does not overflow on `x`.
pub open spec fn proportion_to_u16_ok(x: int) -> bool {
    &&& fits_i64(fmul(x, u16_max_fixed()))
    &&& 0 <= spec_fixed_proportion_to_u16(x) <= u16::MAX
}

/// A vector divided by its sum; a vector that sums to zero is unchanged.
pub open spec fn normalized(x: Seq<i64>) -> Seq<i64> {
    if sum32(x) == 0 {
        x
    } else {
        Seq::new(x.len(), |i: int| fdiv(x[i] as int, sum32(x)) as i64)
    }
}

/// A vector of `I64F64` bits divided by its sum; a vector that sums to zero
/// is unchanged.
pub open spec fn normalized64(x: Seq<i128>) -> Seq<i128> {
    if sum64(x) == 0 {
        x
    } else {
        Seq::new(x.len(), |i: int| fdiv64(x[i] as int, sum64(x)) as i128)
    }
}

/// `I64F64` bits truncated to `I32F32` bits.
pub open spec fn to_fixed32(x: Seq<i128>) -> Seq<i64> {
    Seq::new(x.len(), |i: int| ((x[i] as int) / scale32()) as i64)
}

/// The elements whose mask is set replaced by zero; an empty mask changes
/// nothing.
pub open spec fn masked(mask: Seq<bool>, x: Seq<i64>) -> Seq<i64> {
    if mask.len() == 0 {
        x
    } else {
        Seq::new(x.len(), |i: int| if mask[i] { 0 } else { x[i] })
    }
}

/// Fixed-point proportions as `u16` fractions of 65535.
pub open spec fn proportions_to_u16(x: Seq<i64>) -> Seq<u16> {
    Seq::new(x.len(), |i: int| spec_fixed_proportion_to_u16(x[i] as int) as u16)
}

/// The sum of the elements of a vector of `I32F32` bits.
pub fn fixed_sum(x: &Vec<i64>) -> (r: i64)
    requires
        sums_fit32(x@),
    ensures
        r == sum32(x@),
{
    let mut acc: i64 = 0;
    let mut i: usize = 0;
    while i < x.len()
        invariant
            0 <= i <= x.len(),
            sums_fit32(x@),
            acc == sum32(x@.take(i as int)),
        decreases x.len() - i,
    {
        proof {
            lemma_sum32_take_step(x@, i as int);
            assert(fits_i64(sum32(x@.take(i + 1))));
        }
        acc = fx32_add(acc, x[i]);
        i = i + 1;
    }
    proof {
        lemma_sum32_take_all(x@);
    }
    acc
}

/// The sum of the elements of a vector of `I64F64` bits.
pub fn fixed_sum_64(x: &Vec<i128>) -> (r: i128)
    requires
        sums_fit64(x@),
    ensures
        r == sum64(x@),
{
    let mut acc: i128 = 0;
    let mut i: usize = 0;
    while i < x.len()
        invariant
            0 <= i <= x.len(),
            sums_fit64(x@),
            acc == sum64(x@.take(i as int)),
        decreases x.len() - i,
    {
        proof {
            lemma_sum64_take_step(x@, i as int);
            assert(fits_i128(sum64(x@.take(i + 1))));
        }
        acc = fx64_add(acc, x[i]);
        i = i + 1;
    }
    proof {
        lemma_sum64_take_all(x@);
    }
    acc
}

/// Whether the elements of a vector sum to zero.
pub fn is_zero(vector: &Vec<i64>) -> (r: bool)
    requires
        sums_fit32(vector@),
    ensures
        r == (sum32(vector@) == 0),
{
    let vector_sum = fixed_sum(vector);
    vector_sum == 0
}

/// `y[i] = fdiv(x[i], s)` for every `i`, with `x` nonnegative and
/// `s = sum(x) > 0`: then `y` is a proportion vector.
pub proof fn lemma_normalized_proportions(x: Seq<i64>, y: Seq<i64>, s: int)
    requires
        bounded32(x, i64::MAX as int),
        s == sum32(x),
        s > 0,
        y.len() == x.len(),
        forall|i: int| 0 <= i < x.len() ==> #[trigger] y[i] == fdiv(x[i] as int, s),
    ensures
        proportions(y),
{
    assert forall|i: int| 0 <= i < y.len() implies 0 <= #[trigger] y[i] <= ONE by {
        lemma_elem_le_sum32(x, i);
        lemma_fdiv_unit(x[i] as int, s);
    }
    lemma_sum_fdiv(x, y, s, x.len() as int);
    assert(x.take(x.len() as int) =~= x);
    assert(y.take(y.len() as int) =~= y);
    if sum32(y) > ONE {
        assert(sum32(y) * s > ONE * s) by (nonlinear_arith)
            requires
                sum32(y) > ONE,
                s > 0,
        ;
    }
}

proof fn lemma_sum_fdiv(x: Seq<i64>, y: Seq<i64>, s: int, k: int)
    requires
        bounded32(x, i64::MAX as int),
        s == sum32(x),
        s > 0,
        y.len() == x.len(),
        0 <= k <= x.len(),
        forall|i: int| 0 <= i < x.len() ==> #[trigger] y[i] == fdiv(x[i] as int, s),
    ensures
        sum32(y.take(k)) * s <= sum32(x.take(k)) * scale32(),
    decreases k,
{
    if k > 0 {
        lemma_sum_fdiv(x, y, s, k - 1);
        lemma_sum32_take_step(x, k - 1);
        lemma_sum32_take_step(y, k - 1);
        lemma_elem_le_sum32(x, k - 1);
        lemma_fdiv_unit(x[k - 1] as int, s);
        let a = sum32(y.take(k - 1));
        let b = sum32(x.take(k - 1));
        let yk = y[k - 1] as int;
        let xk = x[k - 1] as int;
        assert((a + yk) * s <= (b + xk) * scale32()) by (nonlinear_arith)
            requires
                a * s <= b * scale32(),
                yk * s <= xk * scale32(),
        ;
    } else {
        assert(x.take(0) =~= Seq::<i64>::empty());
        assert(y.take(0) =~= Seq::<i64>::empty());
    }
}

/// A nonnegative vector that sums to zero is all zeros.
pub proof fn lemma_zero_sum_zeros(x: Seq<i64>)
    requires
        bounded32(x, i64::MAX as int),
        sum32(x) == 0,
    ensures
        forall|i: int| 0 <= i < x.len() ==> #[trigger] x[i] == 0,
        proportions(x),
{
    assert forall|i: int| 0 <= i < x.len() implies #[trigger] x[i] == 0 by {
        lemma_elem_le_sum32(x, i);
    }
}

/// A nonnegative vector whose sum fits can be normalized without overflow.
pub proof fn lemma_normalize_ok(x: Seq<i64>)
    requires
        bounded32(x, i64::MAX as int),
        sum32(x) <= i64::MAX,
    ensures
        sums_fit32(x),
        sum32(x) != 0 ==> forall|i: int|
            0 <= i < x.len() ==> fits_i64(#[trigger] fdiv(x[i] as int, sum32(x))),
{
    crate::sums::lemma_sums_fit32(x);
    lemma_sum32_bounded(x, i64::MAX as int);
    if sum32(x) != 0 {
        assert forall|i: int| 0 <= i < x.len() implies fits_i64(#[trigger] fdiv(x[i] as int, sum32(x))) by {
            lemma_elem_le_sum32(x, i);
            lemma_fdiv_unit(x[i] as int, sum32(x));
        }
    }
}

/// A nonnegative vector of `I64F64` bits whose sum fits can be normalized
/// without overflow, and each element of the result lies in `[0, 2^64]`.
pub proof fn lemma_normalize64_ok(x: Seq<i128>)
    requires
        nonneg64(x),
        sum64(x) <= i128::MAX,
    ensures
        sums_fit64(x),
        sum64(x) != 0 ==> forall|i: int|
            0 <= i < x.len() ==> fits_i128(#[trigger] fdiv64(x[i] as int, sum64(x))),
        forall|i: int| 0 <= i < normalized64(x).len() ==> 0 <= #[trigger] normalized64(x)[i] <= scale64(),
        nonneg64(normalized64(x)),
        sum64(normalized64(x)) <= scale64(),
{
    crate::sums::lemma_sums_fit64(x);
    crate::sums::lemma_sum64_nonneg(x);
    if sum64(x) != 0 {
        assert forall|i: int| 0 <= i < x.len() implies fits_i128(#[trigger] fdiv64(x[i] as int, sum64(x))) by {
            lemma_elem_le_sum64(x, i);
            lemma_fdiv64_unit(x[i] as int, sum64(x));
        }
        let y = normalized64(x);
        assert forall|i: int| 0 <= i < x.len() implies #[trigger] y[i] == fdiv64(x[i] as int, sum64(x)) by {
            lemma_elem_le_sum64(x, i);
            lemma_fdiv64_unit(x[i] as int, sum64(x));
        }
        lemma_normalized64(x, y, sum64(x));
    } else {
        assert forall|i: int| 0 <= i < x.len() implies 0 <= #[trigger] x[i] <= scale64() by {
            lemma_elem_le_sum64(x, i);
        }
    }
}

/// Normalizes a vector so that its elements sum to one: each element is
/// divided by the sum.  A vector that sums to zero is left as it is.
pub fn inplace_normalize(x: &mut Vec<i64>)
    requires
        sums_fit32(old(x)@),
        sum32(old(x)@) != 0 ==> forall|i: int|
            0 <= i < old(x)@.len() ==> fits_i64(
                #[trigger] fdiv(old(x)@[i] as int, sum32(old(x)@)),
            ),
    ensures
        final(x)@.len() == old(x)@.len(),
        sum32(old(x)@) == 0 ==> final(x)@ == old(x)@,
        sum32(old(x)@) != 0 ==> forall|i: int|
            0 <= i < old(x)@.len() ==> #[trigger] final(x)@[i] == fdiv(
                old(x)@[i] as int,
                sum32(old(x)@),
            ),
        final(x)@ == normalized(old(x)@),
        bounded32(old(x)@, i64::MAX as int) ==> proportions(final(x)@),
{
    let x_sum = fixed_sum(x);
    if x_sum == 0 {
        proof {
            if bounded32(old(x)@, i64::MAX as int) {
                lemma_zero_sum_zeros(old(x)@);
            }
        }
        return;
    }
    let ghost x0 = x@;
    let n = x.len();
    let mut i: usize = 0;
    while i < n
        invariant
            0 <= i <= n,
            n == x0.len(),
            x@.len() == n,
            x_sum == sum32(x0),
            x_sum != 0,
            forall|k: int| 0 <= k < n ==> fits_i64(#[trigger] fdiv(x0[k] as int, x_sum as int)),
            forall|k: int| 0 <= k < i ==> #[trigger] x@[k] == fdiv(x0[k] as int, x_sum as int),
            forall|k: int| i <= k < n ==> #[trigger] x@[k] == x0[k],
        decreases n - i,
    {
        let v = fx32_div(x[i], x_sum);
        x.set(i, v);
        i = i + 1;
    }
    proof {
        assert(x@ =~= normalized(x0));
        if bounded32(x0, i64::MAX as int) {
            lemma_sum32_bounded(x0, i64::MAX as int);
            lemma_normalized_proportions(x0, x@, x_sum as int);
        }
    }
}

/// `y[i] = fdiv64(x[i], s)` for every `i`, with `x` nonnegative and
/// `s = sum(x) > 0`: each `y[i]` lies in `[0, 2^64]` and `y` sums to at
/// most `2^64`.
pub proof fn lemma_normalized64(x: Seq<i128>, y: Seq<i128>, s: int)
    requires
        nonneg64(x),
        s == sum64(x),
        s > 0,
        y.len() == x.len(),
        forall|i: int| 0 <= i < x.len() ==> #[trigger] y[i] == fdiv64(x[i] as int, s),
    ensures
        forall|i: int| 0 <= i < y.len() ==> 0 <= #[trigger] y[i] <= scale64(),
        sum64(y) <= scale64(),
{
    assert forall|i: int| 0 <= i < y.len() implies 0 <= #[trigger] y[i] <= scale64() by {
        lemma_elem_le_sum64(x, i);
        lemma_fdiv64_unit(x[i] as int, s);
    }
    lemma_sum_fdiv64(x, y, s, x.len() as int);
    assert(x.take(x.len() as int) =~= x);
    assert(y.take(y.len() as int) =~= y);
    if sum64(y) > scale64() {
        assert(sum64(y) * s > scale64() * s) by (nonlinear_arith)
            requires
                sum64(y) > scale64(),
                s > 0,
        ;
    }
}

proof fn lemma_sum_fdiv64(x: Seq<i128>, y: Seq<i128>, s: int, k: int)
    requires
        nonneg64(x),
        s == sum64(x),
        s > 0,
        y.len() == x.len(),
        0 <= k <= x.len(),
        forall|i: int| 0 <= i < x.len() ==> #[trigger] y[i] == fdiv64(x[i] as int, s),
    ensures
        sum64(y.take(k)) * s <= sum64(x.take(k)) * scale64(),
    decreases k,
{
    if k > 0 {
        lemma_sum_fdiv64(x, y, s, k - 1);
        lemma_sum64_take_step(x, k - 1);
        lemma_sum64_take_step(y, k - 1);
        lemma_elem_le_sum64(x, k - 1);
        lemma_fdiv64_unit(x[k - 1] as int, s);
        let a = sum64(y.take(k - 1));
        let b = sum64(x.take(k - 1));
        let yk = y[k - 1] as int;
        let xk = x[k - 1] as int;
        assert((a + yk) * s <= (b + xk) * scale64()) by (nonlinear_arith)
            requires
                a * s <= b * scale64(),
                yk * s <= xk * scale64(),
        ;
    } else {
        assert(x.take(0) =~= Seq::<i128>::empty());
        assert(y.take(0) =~= Seq::<i128>::empty());
    }
}

/// Normalizes a vector of `I64F64` bits so that its elements sum to one.
/// A vector that sums to zero is left as it is.
pub fn inplace_normalize_64(x: &mut Vec<i128>)
    requires
        sums_fit64(old(x)@),
        sum64(old(x)@) != 0 ==> forall|i: int|
            0 <= i < old(x)@.len() ==> fits_i128(
                #[trigger] fdiv64(old(x)@[i] as int, sum64(old(x)@)),
            ),
    ensures
        final(x)@.len() == old(x)@.len(),
        sum64(old(x)@) == 0 ==> final(x)@ == old(x)@,
        sum64(old(x)@) != 0 ==> forall|i: int|
            0 <= i < old(x)@.len() ==> #[trigger] final(x)@[i] == fdiv64(
                old(x)@[i] as int,
                sum64(old(x)@),
            ),
        final(x)@ == normalized64(old(x)@),
        nonneg64(old(x)@) && sum64(old(x)@) != 0 ==> sum64(final(x)@) <= scale64() && forall|
            i: int,
        |
            0 <= i < final(x)@.len() ==> 0 <= #[trigger] final(x)@[i] <= scale64(),
{
    let x_sum = fixed_sum_64(x);
    if x_sum == 0 {
        return;
    }
    let ghost x0 = x@;
    let n = x.len();
    let mut i: usize = 0;
    while i < n
        invariant
            0 <= i <= n,
            n == x0.len(),
            x@.len() == n,
            x_sum == sum64(x0),
            x_sum != 0,
            forall|k: int| 0 <= k < n ==> fits_i128(#[trigger] fdiv64(x0[k] as int, x_sum as int)),
            forall|k: int| 0 <= k < i ==> #[trigger] x@[k] == fdiv64(x0[k] as int, x_sum as int),
            forall|k: int| i <= k < n ==> #[trigger] x@[k] == x0[k],
        decreases n - i,
    {
        let v = fx64_div(x[i], x_sum);
        x.set(i, v);
        i = i + 1;
    }
    proof {
        assert(x@ =~= normalized64(x0));
        if nonneg64(x0) {
            crate::sums::lemma_sum64_nonneg(x0);
            lemma_normalized64(x0, x@, x_sum as int);
        }
    }
}

/// Converts a vector of `I64F64` bits to `I32F32` bits, truncating the
/// extra fractional bits.
pub fn vec_fixed64_to_fixed32(vec: Vec<i128>) -> (r: Vec<i64>)
    requires
        forall|i: int| 0 <= i < vec@.len() ==> fits_i64(#[trigger] (vec@[i] as int) / scale32()),
    ensures
        r@.len() == vec@.len(),
        forall|i: int| 0 <= i < vec@.len() ==> #[trigger] r@[i] == (vec@[i] as int) / scale32(),
        r@ == to_fixed32(vec@),
        nonneg64(vec@) && sum64(vec@) <= scale64() ==> proportions(r@),
{
    let mut r: Vec<i64> = Vec::new();
    let mut i: usize = 0;
    while i < vec.len()
        invariant
            0 <= i <= vec.len(),
            r@.len() == i,
            forall|k: int| 0 <= k < vec@.len() ==> fits_i64(#[trigger] (vec@[k] as int) / scale32()),
            forall|k: int| 0 <= k < i ==> #[trigger] r@[k] == (vec@[k] as int) / scale32(),
        decreases vec.len() - i,
    {
        let v = fx32_from_fx64(vec[i]);
        r.push(v);
        i = i + 1;
    }
    proof {
        assert(r@ =~= to_fixed32(vec@));
        if nonneg64(vec@) && sum64(vec@) <= scale64() {
            lemma_truncated_sum(vec@, r@, vec@.len() as int);
            assert(vec@.take(vec@.len() as int) =~= vec@);
            assert(r@.take(r@.len() as int) =~= r@);
            assert forall|k: int| 0 <= k < r@.len() implies 0 <= #[trigger] r@[k] <= ONE by {
                lemma_elem_le_sum64(vec@, k);
                lemma_div_is_ordered(vec@[k] as int, scale64(), scale32());
                lemma_div_pos_is_pos(vec@[k] as int, scale32());
            }
            if sum32(r@) > ONE {
                assert(sum32(r@) * scale32() > ONE * scale32()) by (nonlinear_arith)
                    requires
                        sum32(r@) > ONE,
                ;
            }
        }
    }
    r
}

proof fn lemma_truncated_sum(x: Seq<i128>, y: Seq<i64>, k: int)
    requires
        y.len() == x.len(),
        0 <= k <= x.len(),
        forall|i: int| 0 <= i < x.len() ==> #[trigger] y[i] == (x[i] as int) / scale32(),
    ensures
        sum32(y.take(k)) * scale32() <= sum64(x.take(k)),
    decreases k,
{
    if k > 0 {
        lemma_truncated_sum(x, y, k - 1);
        lemma_sum64_take_step(x, k - 1);
        lemma_sum32_take_step(y, k - 1);
        lemma_fundamental_div_mod(x[k - 1] as int, scale32());
        lemma_mod_bound(x[k - 1] as int, scale32());
        let a = sum32(y.take(k - 1));
        let yk = y[k - 1] as int;
        assert((a + yk) * scale32() == a * scale32() + yk * scale32()) by (nonlinear_arith);
        assert(yk * scale32() == scale32() * (x[k - 1] as int / scale32()));
    } else {
        assert(x.take(0) =~= Seq::<i128>::empty());
        assert(y.take(0) =~= Seq::<i64>::empty());
    }
}

/// Sets to zero each element whose mask is set.  An empty mask leaves the
/// vector as it is.
pub fn inplace_mask_vector(mask: &Vec<bool>, vector: &mut Vec<i64>)
    requires
        mask@.len() == 0 || mask@.len() == old(vector)@.len(),
    ensures
        final(vector)@.len() == old(vector)@.len(),
        mask@.len() == 0 ==> final(vector)@ == old(vector)@,
        mask@.len() != 0 ==> forall|i: int|
            0 <= i < old(vector)@.len() ==> #[trigger] final(vector)@[i] == (if mask@[i] {
                0
            } else {
                old(vector)@[i]
            }),
        final(vector)@ == masked(mask@, old(vector)@),
        proportions(old(vector)@) ==> proportions(final(vector)@),
{
    let ghost v0 = vector@;
    if mask.len() == 0 {
        proof {
            assert(vector@ =~= masked(mask@, v0));
        }
        return;
    }
    let mut i: usize = 0;
    while i < mask.len()
        invariant
            0 <= i <= mask.len(),
            mask@.len() == v0.len(),
            vector@.len() == v0.len(),
            forall|k: int| 0 <= k < i ==> #[trigger] vector@[k] == (if mask@[k] {
                0
            } else {
                v0[k]
            }),
            forall|k: int| i <= k < v0.len() ==> #[trigger] vector@[k] == v0[k],
        decreases mask.len() - i,
    {
        if mask[i] {
            vector.set(i, 0);
        }
        i = i + 1;
    }
    proof {
        assert(vector@ =~= masked(mask@, v0));
        if proportions(v0) {
            lemma_sum32_le(vector@, v0);
            lemma_sum32_bounded(vector@, ONE as int);
        }
    }
}

/// A `u16` proportion is a fixed-point number in `[0, 1]`.
pub proof fn lemma_u16_proportion_unit(x: int)
    requires
        0 <= x <= u16::MAX,
    ensures
        0 <= spec_u16_proportion_to_fixed(x) <= ONE,
{
    lemma_mul_inequality(x, 65535, scale32());
    lemma_fdiv_unit(x * scale32(), u16_max_fixed());
}

/// Converts a `u16` proportion (a fraction of 65535) to a fixed-point
/// number in `[0, 1]`.
pub fn u16_proportion_to_fixed(x: u16) -> (r: i64)
    ensures
        r == spec_u16_proportion_to_fixed(x as int),
        0 <= r <= ONE,
{
    let num = fx32_from_u16(x);
    let den = fx32_from_u16(u16::MAX);
    proof {
        lemma_u16_proportion_unit(x as int);
    }
    fx32_div(num, den)
}

/// `fixed_proportion_to_u16` does not overflow on a proportion in `[0, 1]`,
/// and gives at most 65535.
pub proof fn lemma_proportion_to_u16_ok(x: int)
    requires
        0 <= x <= scale32(),
    ensures
        proportion_to_u16_ok(x),
        fmul(x, u16_max_fixed()) == x * 65535,
{
    assert(x * u16_max_fixed() == (x * 65535) * scale32()) by (nonlinear_arith);
    lemma_div_multiples_vanish(x * 65535, scale32());
    assert(fmul(x, u16_max_fixed()) == x * 65535);
    lemma_mul_inequality(x, scale32(), 65535);
    lemma_div_is_ordered(x * 65535, scale32() * 65535, scale32());
    lemma_div_multiples_vanish(65535, scale32());
    lemma_div_pos_is_pos(x * 65535, scale32());
}

/// Converts a fixed-point proportion to a `u16` fraction of 65535,
/// truncating.
pub fn fixed_proportion_to_u16(x: i64) -> (r: u16)
    requires
        proportion_to_u16_ok(x as int),
    ensures
        r == spec_fixed_proportion_to_u16(x as int),
{
    let m = fx32_from_u16(u16::MAX);
    let p = fx32_mul(x, m);
    fx32_to_u16(p)
}

/// Converts each fixed-point proportion of a vector to a `u16` fraction of
/// 65535.
pub fn vec_fixed_proportions_to_u16(vec: Vec<i64>) -> (r: Vec<u16>)
    requires
        forall|i: int| 0 <= i < vec@.len() ==> proportion_to_u16_ok(#[trigger] vec@[i] as int),
    ensures
        r@.len() == vec@.len(),
        forall|i: int|
            0 <= i < vec@.len() ==> #[trigger] r@[i] == spec_fixed_proportion_to_u16(
                vec@[i] as int,
            ),
        r@ == proportions_to_u16(vec@),
{
    let mut r: Vec<u16> = Vec::new();
    let mut i: usize = 0;
    while i < vec.len()
        invariant
            0 <= i <= vec.len(),
            r@.len() == i,
            forall|k: int| 0 <= k < vec@.len() ==> proportion_to_u16_ok(#[trigger] vec@[k] as int),
            forall|k: int|
                0 <= k < i ==> #[trigger] r@[k] == spec_fixed_proportion_to_u16(vec@[k] as int),
        decreases vec.len() - i,
    {
        r.push(fixed_proportion_to_u16(vec[i]));
        i = i + 1;
    }
    proof {
        assert(r@ =~= proportions_to_u16(vec@));
    }
    r
}

proof fn lemma_fdiv_sum_lower(x: Seq<i64>, y: Seq<i64>, s: int)
    requires
        s > 0,
        bounded32(x, i64::MAX as int),
        y.len() == x.len(),
        forall|i: int| 0 <= i < x.len() ==> #[trigger] y[i] as int == fdiv(x[i] as int, s),
    ensures
        sum32(y) * s + y.len() * s >= scale32() * sum32(x),
    decreases x.len(),
{
    if x.len() > 0 {
        let x2 = x.drop_last();
        let y2 = y.drop_last();
        assert(bounded32(x2, i64::MAX as int)) by {
            assert forall|i: int| 0 <= i < x2.len() implies 0 <= #[trigger] x2[i] <= i64::MAX by {
                assert(x2[i] == x[i]);
            }
        }
        assert forall|i: int| 0 <= i < x2.len() implies #[trigger] y2[i] as int == fdiv(
            x2[i] as int,
            s,
        ) by {
            assert(x2[i] == x[i] && y2[i] == y[i]);
        }
        lemma_fdiv_sum_lower(x2, y2, s);
        let l = x.len() - 1;
        let a = x[l] as int;
        lemma_mul_nonnegative(a, scale32());
        let q = (a * scale32()) / s;
        assert(fdiv(a, s) == q);
        lemma_fundamental_div_mod(a * scale32(), s);
        lemma_mod_bound(a * scale32(), s);
        assert(y.last() == y[l] && x.last() == x[l]);
        let sy = sum32(y2);
        let sx = sum32(x2);
        assert((sy + q) * s + (l + 1) * s >= scale32() * (sx + a)) by (nonlinear_arith)
            requires
                sy * s + l * s >= scale32() * sx,
                q * s + s > a * scale32(),
        ;
    }
}

/// A nonnegative vector with a positive sum, once normalized, sums to one
/// up to the truncation of each of its values: to at least `1 - len / 2^32`.
pub proof fn lemma_normalized_sum_lower(x: Seq<i64>)
    requires
        bounded32(x, i64::MAX as int),
        sum32(x) > 0,
    ensures
        sum32(normalized(x)) >= ONE - x.len(),
{
    let s = sum32(x);
    let y = normalized(x);
    assert forall|i: int| 0 <= i < x.len() implies #[trigger] y[i] as int == fdiv(x[i] as int, s) by {
        lemma_elem_le_sum32(x, i);
        lemma_fdiv_unit(x[i] as int, s);
    }
    lemma_fdiv_sum_lower(x, y, s);
    let sy = sum32(y);
    let n = x.len() as int;
    assert(sy + n >= scale32()) by (nonlinear_arith)
        requires
            sy * s + n * s >= scale32() * s,
            s > 0,
    ;
}

proof fn lemma_fdiv64_sum_lower(x: Seq<i128>, y: Seq<i128>, t: int)
    requires
        t > 0,
        nonneg64(x),
        y.len() == x.len(),
        forall|i: int| 0 <= i < x.len() ==> #[trigger] y[i] as int == fdiv64(x[i] as int, t),
    ensures
        sum64(y) * t + y.len() * t >= scale64() * sum64(x),
    decreases x.len(),
{
    if x.len() > 0 {
        let x2 = x.drop_last();
        let y2 = y.drop_last();
        assert(nonneg64(x2)) by {
            assert forall|i: int| 0 <= i < x2.len() implies 0 <= #[trigger] x2[i] by {
                assert(x2[i] == x[i]);
            }
        }
        assert forall|i: int| 0 <= i < x2.len() implies #[trigger] y2[i] as int == fdiv64(
            x2[i] as int,
            t,
        ) by {
            assert(x2[i] == x[i] && y2[i] == y[i]);
        }
        lemma_fdiv64_sum_lower(x2, y2, t);
        let l = x.len() - 1;
        let a = x[l] as int;
        assert(0 <= a);
        lemma_mul_nonnegative(a, scale64());
        let q = (a * scale64()) / t;
        assert(fdiv64(a, t) == q);
        lemma_fundamental_div_mod(a * scale64(), t);
        lemma_mod_bound(a * scale64(), t);
        assert(y.last() == y[l] && x.last() == x[l]);
        let sy = sum64(y2);
        let sx = sum64(x2);
        assert((sy + q) * t + (l + 1) * t >= scale64() * (sx + a)) by (nonlinear_arith)
            requires
                sy * t + l * t >= scale64() * sx,
                q * t + t > a * scale64(),
        ;
    }
}

proof fn lemma_trunc32_sum_lower(y: Seq<i128>)
    requires
        nonneg64(y),
        forall|i: int| 0 <= i < y.len() ==> #[trigger] y[i] <= scale64(),
    ensures
        sum32(to_fixed32(y)) * scale32() + y.len() * scale32() >= sum64(y),
    decreases y.len(),
{
    if y.len() > 0 {
        let y2 = y.drop_last();
        assert(nonneg64(y2)) by {
            assert forall|i: int| 0 <= i < y2.len() implies 0 <= #[trigger] y2[i] by {
                assert(y2[i] == y[i]);
            }
        }
        assert forall|i: int| 0 <= i < y2.len() implies #[trigger] y2[i] <= scale64() by {
            assert(y2[i] == y[i]);
        }
        lemma_trunc32_sum_lower(y2);
        let l = y.len() - 1;
        let a = y[l] as int;
        assert(to_fixed32(y).drop_last() =~= to_fixed32(y2));
        lemma_fundamental_div_mod(a, scale32());
        lemma_mod_bound(a, scale32());
        lemma_div_is_ordered(a, scale64(), scale32());
        lemma_div_pos_is_pos(a, scale32());
        let q = a / scale32();
        assert(to_fixed32(y).last() == q);
        assert(y.last() == a);
        let sz = sum32(to_fixed32(y2));
        let sy = sum64(y2);
        assert((sz + q) * scale32() + (l + 1) * scale32() >= sy + a) by (nonlinear_arith)
            requires
                sz * scale32() + l * scale32() >= sy,
                q * scale32() + scale32() > a,
        ;
    }
}

/// A nonnegative vector of `I64F64` bits with a positive sum, normalized
/// and truncated to `I32F32`, sums to one up to the truncations: to at
/// least `1 - len / 2^32`.
pub proof fn lemma_normalized64_sum_lower(x: Seq<i128>)
    requires
        nonneg64(x),
        sum64(x) > 0,
        sum64(x) <= i128::MAX,
        x.len() <= 65536,
    ensures
        sum32(to_fixed32(normalized64(x))) >= ONE - x.len(),
{
    let t = sum64(x);
    let y = normalized64(x);
    lemma_normalize64_ok(x);
    assert forall|i: int| 0 <= i < x.len() implies #[trigger] y[i] as int == fdiv64(x[i] as int, t) by {}
    lemma_fdiv64_sum_lower(x, y, t);
    lemma_trunc32_sum_lower(y);
    let n = x.len() as int;
    let sy = sum64(y);
    let sz = sum32(to_fixed32(y));
    assert(sy + n >= scale64()) by (nonlinear_arith)
        requires
            sy * t + n * t >= scale64() * t,
            t > 0,
    ;
    assert(sz >= scale32() - n) by (nonlinear_arith)
        requires
            sz * scale32() + n * scale32() >= sy,
            sy + n >= scale64(),
            0 <= n <= 65536,
            scale64() == scale32() * scale32(),
            scale32() == 4294967296,
    ;
}

} // verus!
