use kernel_core::exact::{ExactInteger, ExactNatural};
use std::cmp::Ordering;

#[test]
fn natural_promotes_multiplies_and_formats_without_bound() {
    let left = ExactNatural::from_u128(u128::MAX);
    let right = ExactNatural::from_u128(u128::MAX);
    let product = left.multiplied(&right);
    assert_eq!(
        product.to_decimal_string(),
        "115792089237316195423570985008687907852589419931798687112530834793049593217025"
    );
}

#[test]
fn integer_addition_cancels_exactly() {
    let magnitude = ExactNatural::from_u128(u128::MAX);
    let mut positive = ExactInteger::from_parts(false, magnitude.clone());
    positive.add_assign(&ExactInteger::from_parts(true, magnitude));
    assert!(positive.is_zero());
    assert!(!positive.is_negative());
}

#[test]
fn integer_scaling_stays_one_exact_coefficient() {
    let coefficient = ExactInteger::from_i64(i64::MAX);
    let multiplicity = ExactNatural::from_u128(u128::MAX);
    let scaled = coefficient.scale_by_natural(&multiplicity);
    assert!(!scaled.is_zero());
    assert_eq!(scaled.magnitude().bit_len(), 191);
}

#[test]
fn zero_and_one_are_recognised() {
    assert!(ExactNatural::zero().is_zero());
    assert!(ExactNatural::one().is_one());
    assert!(!ExactNatural::from_u64(2).is_one());
    assert_eq!(ExactNatural::zero().to_decimal_string(), "0");
    assert_eq!(ExactNatural::default().bit_len(), 0);
}

#[test]
fn addition_carries_across_limbs() {
    let mut value = ExactNatural::from_u64(u64::MAX);
    value.add_u128(1);
    assert_eq!(value.to_decimal_string(), "18446744073709551616");
    assert_eq!(value.bit_len(), 65);
    assert_eq!(value.to_u64(), None);
}

#[test]
fn word_multiplication_matches_decimal() {
    let mut value = ExactNatural::from_u64(1_000_000_007);
    value.multiply_u64_assign(1_000_000_009);
    assert_eq!(value.to_decimal_string(), "1000000016000000063");
    value.multiply_u64_assign(0);
    assert!(value.is_zero());
}

#[test]
fn subtraction_refuses_to_go_negative() {
    let mut small = ExactNatural::from_u64(5);
    let big = ExactNatural::from_u128(1_u128 << 70);
    assert!(!small.checked_sub_assign(&big));
    assert_eq!(small.to_u64(), Some(5));
    let mut big_copy = big.clone();
    assert!(big_copy.checked_sub_assign(&small));
    assert_eq!(big_copy.to_decimal_string(), "1180591620717411303419");
    assert!(big_copy.checked_sub_assign(&ExactNatural::from_u128((1_u128 << 70) - 5)));
    assert!(big_copy.is_zero());
}

#[test]
fn comparison_follows_value() {
    let a = ExactNatural::from_u128(1_u128 << 64);
    let b = ExactNatural::from_u64(u64::MAX);
    assert_eq!(a.cmp(&b), Ordering::Greater);
    assert_eq!(b.cmp(&a), Ordering::Less);
    assert_eq!(a.cmp(&a.clone()), Ordering::Equal);
    let c = ExactNatural::from_u128((1_u128 << 64) + 1);
    assert_eq!(a.cmp(&c), Ordering::Less);
}

#[test]
fn bits_and_shifts() {
    let value = ExactNatural::from_shifted_u64(0b1011, 70);
    assert_eq!(value.bit_len(), 74);
    assert!(value.bit(70));
    assert!(value.bit(71));
    assert!(!value.bit(72));
    assert!(value.bit(73));
    assert!(!value.bit(69));
    assert!(!value.bit(500));
    assert!(!value.any_bits_below(70));
    assert!(value.any_bits_below(71));
    assert!(!value.any_bits_below(0));
    assert_eq!(value.shr_to_u64(70), 0b1011);
    assert_eq!(value.shr_to_u64(68), 0b101100);
    assert_eq!(value.shr_to_u64(6), 0);
    assert_eq!(value.shr_to_u64(10), 0xB000_0000_0000_0000);
    assert_eq!(value.shr_to_u64(200), 0);
    assert_eq!(ExactNatural::from_shifted_u64(0, 99).to_decimal_string(), "0");
    assert_eq!(ExactNatural::from_shifted_u64(u64::MAX, 1).to_decimal_string(), "36893488147419103230");
}

#[test]
fn word_conversion_round_trips() {
    assert_eq!(ExactNatural::from_u64(42).to_u64(), Some(42));
    assert_eq!(ExactNatural::from_u64(u64::MAX).to_u64(), Some(u64::MAX));
    assert_eq!(ExactNatural::zero().to_u64(), Some(0));
}

#[test]
fn integer_signs_follow_arithmetic() {
    let mut value = ExactInteger::from_i64(-7);
    assert!(value.is_negative());
    value.add_assign(&ExactInteger::from_i64(10));
    assert!(!value.is_negative());
    assert_eq!(value.magnitude().to_u64(), Some(3));
    value.add_assign(&ExactInteger::from_i64(-5));
    assert!(value.is_negative());
    assert_eq!(value.magnitude().to_u64(), Some(2));
    let product = value.multiply(&ExactInteger::from_i64(-4));
    assert!(!product.is_negative());
    assert_eq!(product.magnitude().to_u64(), Some(8));
    let min = ExactInteger::from_i64(i64::MIN);
    assert!(min.is_negative());
    assert_eq!(min.magnitude().to_decimal_string(), "9223372036854775808");
    assert!(!ExactInteger::from_parts(true, ExactNatural::zero()).is_negative());
    assert!(ExactInteger::from_i64(3).multiply(&ExactInteger::default()).is_zero());
}
