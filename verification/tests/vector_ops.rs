use pallet_subspace::fixed::ONE;
use pallet_subspace::vector::{
    fixed_proportion_to_u16, fixed_sum, fixed_sum_64, inplace_mask_vector, inplace_normalize,
    inplace_normalize_64, is_zero, u16_proportion_to_fixed, vec_fixed64_to_fixed32,
    vec_fixed_proportions_to_u16,
};

const ONE64: i128 = 1i128 << 64;

#[test]
fn sum_of_fixed_vector() {
    assert_eq!(fixed_sum(&vec![ONE, 2 * ONE, 5]), 3 * ONE + 5);
    assert_eq!(fixed_sum(&vec![]), 0);
    assert_eq!(fixed_sum_64(&vec![ONE64, 3 * ONE64]), 4 * ONE64);
}

#[test]
fn normalize_divides_by_sum() {
    let mut x: Vec<i64> = vec![ONE, 3 * ONE];
    inplace_normalize(&mut x);
    assert_eq!(x, vec![ONE / 4, 3 * ONE / 4]);
}

#[test]
fn normalize_rounds_toward_zero() {
    let mut x: Vec<i64> = vec![ONE, ONE, ONE];
    inplace_normalize(&mut x);
    assert_eq!(x, vec![1431655765, 1431655765, 1431655765]);
    assert!(x.iter().sum::<i64>() <= ONE);
}

#[test]
fn normalize_leaves_zero_vector() {
    let mut x: Vec<i64> = vec![0, 0, 0];
    inplace_normalize(&mut x);
    assert_eq!(x, vec![0, 0, 0]);
    assert!(is_zero(&x));
    assert!(!is_zero(&vec![0, 1]));
}

#[test]
fn normalize_64_and_truncate_to_32() {
    let mut x: Vec<i128> = vec![1000 * ONE64, 3000 * ONE64, 6000 * ONE64];
    inplace_normalize_64(&mut x);
    let y = vec_fixed64_to_fixed32(x);
    assert_eq!(y, vec![429496729, 1288490188, 2576980377]);
    let mut z: Vec<i128> = vec![ONE64, 3 * ONE64];
    inplace_normalize_64(&mut z);
    assert_eq!(z, vec![ONE64 / 4, 3 * ONE64 / 4]);
    assert_eq!(vec_fixed64_to_fixed32(vec![ONE64 + 5]), vec![ONE]);
}

#[test]
fn mask_vector_zeroes_masked_elements() {
    let mut v: Vec<i64> = vec![1, 2, 3];
    inplace_mask_vector(&vec![false, true, false], &mut v);
    assert_eq!(v, vec![1, 0, 3]);
    let mut w: Vec<i64> = vec![1, 2, 3];
    inplace_mask_vector(&vec![], &mut w);
    assert_eq!(w, vec![1, 2, 3]);
}

#[test]
fn u16_proportions_to_fixed() {
    assert_eq!(u16_proportion_to_fixed(u16::MAX), ONE);
    assert_eq!(u16_proportion_to_fixed(0), 0);
    assert_eq!(u16_proportion_to_fixed(32768), 2147516416);
    assert_eq!(u16_proportion_to_fixed(1), 65537);
}

#[test]
fn fixed_proportions_to_u16() {
    assert_eq!(fixed_proportion_to_u16(ONE), u16::MAX);
    assert_eq!(fixed_proportion_to_u16(ONE / 2), 32767);
    assert_eq!(fixed_proportion_to_u16(ONE / 3), 21844);
    assert_eq!(fixed_proportion_to_u16(0), 0);
    assert_eq!(
        vec_fixed_proportions_to_u16(vec![ONE, ONE / 3, 0]),
        vec![65535, 21844, 0]
    );
}
