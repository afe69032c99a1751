use math_lang::big_num::decimal::Decimal;
use math_lang::big_num::ubits::UintBits;
use math_lang::big_num::uint::BigUint;

fn n(v: u32) -> BigUint {
    BigUint::from_u32(v)
}

fn words(v: Vec<u64>) -> BigUint {
    BigUint::from_bits(UintBits::from(v))
}

#[test]
fn ord_and_partial_ord() {
    let a = n(1);
    let b = n(3);
    let c = words(vec![1, 1]);
    assert_eq!(a > b, false);
    assert_eq!(a >= b, false);
    assert_eq!(a < b, true);
    assert_eq!(a <= b, true);
    assert_eq!(a == b, false);
    assert_eq!(a == a, true);
    assert_eq!(b == b, true);
    assert_eq!(c == c, true);
    assert_eq!(a > c, false);
    assert_eq!(a >= c, false);
    assert_eq!(a < c, true);
    assert_eq!(a <= c, true);
}

#[test]
fn uint_add_assign() {
    let mut lhs = n(1);
    let rhs = n(2);
    lhs.add_assign(&rhs);
    assert_eq!(lhs, n(3));
}

#[test]
fn add() {
    let a = n(1);
    let b = n(2);
    let c = n(3);
    let not_a = BigUint::from_u64(u64::MAX - 1);
    let large1 = words(vec![1, 1]);
    let large2 = words(vec![u64::MAX]);
    assert_eq!(a.add(&b), n(3));
    assert_eq!(a.add(&b).add(&c), n(6));
    assert_eq!(a.add(&large1), words(vec![2, 1]));
    assert_eq!(not_a.add(&large1).add(&a), words(vec![0, 2]));
    assert_eq!(large2.add(&a), words(vec![0, 1]));
}

#[test]
fn uint_sub_assign() {
    let mut lhs = n(2);
    let rhs = n(1);
    lhs.sub_assign(&rhs);
    assert_eq!(lhs, n(1));
}

#[test]
fn sub() {
    let a = n(1);
    let b = n(2);
    let c = n(3);
    let large = words(vec![1, 1]);
    assert_eq!(b.sub(&a), n(1));
    assert_eq!(c.sub(&b).sub(&a), n(0));
    assert_eq!(a.sub(&b), BigUint::from_u64(u64::MAX));
    assert_eq!(large.sub(&a), words(vec![0, 1]));
    assert_eq!(a.sub(&large), words(vec![0, u64::MAX]));
}

#[test]
fn mul_assign() {
    let mut a = n(2);
    let b = n(3);
    a.mul_assign(&b);
    assert_eq!(a, n(6));
}

#[test]
fn uint_mul() {
    let a = n(2);
    let b = n(3);
    let c = n(1);
    let large = words(vec![1 | (1_u64 << 63), 1]);
    assert_eq!(a.mul(&b), n(6));
    assert_eq!(a.mul(&b).mul(&c), n(6));
    assert_eq!(b.mul(&large), words(vec![3 | (1_u64 << 63), 4]));
}

#[test]
fn div_rem() {
    let a = n(7);
    let b = n(3);
    let large = words(vec![1, 1]);
    assert_eq!(a.div_rem(&b), (n(2), n(1)));
    assert_eq!(
        large.div_rem(&b),
        (BigUint::from_u64(6148914691236517205_u64), n(2))
    );
}

#[test]
fn uint_div_assign() {
    let mut a = n(17);
    let b = n(4);
    let c = n(3);
    let mut lg1 = BigUint::from_decimal("378213101214913900000000000000000000");
    let lg2 = BigUint::from_decimal("9223372036854775808");
    let mut lg3 = BigUint::from_decimal("381371410412680000000000000000");
    let lg4 = BigUint::from_decimal("9007199254740992");
    a.div_assign(&b);
    a.div_assign(&c);
    lg1.div_assign(&lg2);
    lg3.div_assign(&lg4);
    assert_eq!(a, n(1));
    assert_eq!(lg1, BigUint::from_decimal("41005946599968962"));
    assert_eq!(lg3, BigUint::from_decimal("42340732077392"));
}

#[test]
fn div() {
    let a = n(17);
    let b = n(4);
    let c = n(3);
    let lg1 = BigUint::from_decimal("378213101214913900000000000000000000");
    let lg2 = BigUint::from_decimal("9223372036854775808");
    assert_eq!(a.div(&b).div(&c), n(1));
    assert_eq!(lg1.div(&lg2), BigUint::from_decimal("41005946599968962"))
}

#[test]
fn rem_assign() {
    let mut a = n(17);
    let b = n(6);
    let c = n(3);
    a.rem_assign(&b);
    a.rem_assign(&c);
    assert_eq!(a, n(2));
}

#[test]
fn rem() {
    let a = n(17);
    let b = n(6);
    let c = n(3);
    assert_eq!(a.rem(&b).rem(&c), n(2));
}

#[test]
fn div_decimal() {
    let a = n(1);
    let b = n(2);
    let c = n(7);
    assert_eq!(
        a.div_decimal(&b, 2),
        Decimal::new(UintBits::from(vec![64]), 7, 2)
    );
    assert_eq!(
        a.div_decimal(&c, 7),
        Decimal::new(UintBits::from(vec![9586980]), 26, 7)
    );
}

#[test]
fn div_decimal_of_a_longer_numerator_is_empty() {
    let a = n(8);
    let b = n(3);
    assert_eq!(a.div_decimal(&b, 4), Decimal::new(UintBits::from(vec![0]), 0, 0));
}

#[test]
fn uint_display_to_string() {
    let a = n(0);
    let b = n(1);
    let c = n(123456);
    let d = BigUint::from_u64(102304055008_u64);
    let large = words(vec![1, 1]);
    assert_eq!(a.to_string(), "0");
    assert_eq!(b.to_string(), "1");
    assert_eq!(c.to_string(), "123456");
    assert_eq!(d.to_string(), "102304055008");
    assert_eq!(large.to_string(), "18446744073709551617");
}

#[test]
fn from_and_to_string() {
    let a = "0";
    let b = "1";
    let c = "123456";
    let d = "102304055008";
    let large = "18446744073709551617";
    let lg1 = "378213101214913900000000000000000000";
    let lg2 = "9223372036854775808";
    assert_eq!(BigUint::from_decimal(a).to_string(), a);
    assert_eq!(BigUint::from_decimal(b).to_string(), b);
    assert_eq!(BigUint::from_decimal(c).to_string(), c);
    assert_eq!(BigUint::from_decimal(d).to_string(), d);
    assert_eq!(BigUint::from_decimal(large).to_string(), large);
    assert_eq!(BigUint::from_decimal(lg1).to_string(), lg1);
    assert_eq!(BigUint::from_decimal(lg2).to_string(), lg2);
}

#[test]
fn from_bits_drops_high_zero_words() {
    let x = words(vec![5, 0, 0]);
    assert_eq!(x.word_count(), 1);
    assert_eq!(x, n(5));
    let empty = BigUint::from_bits(UintBits::from(vec![]));
    assert!(empty.is_zero());
}

#[test]
fn compare_three_ways() {
    assert_eq!(n(4).compare(&n(9)), -1);
    assert_eq!(n(9).compare(&n(9)), 0);
    assert_eq!(words(vec![0, 1]).compare(&n(9)), 1);
    assert!(n(9).equals(&n(9)));
    assert!(!n(9).equals(&n(8)));
}

#[test]
fn sub_wraps_below_zero() {
    // 1 - 2 wraps around the width of the left operand's words.
    assert_eq!(n(1).sub(&n(2)), BigUint::from_u64(u64::MAX));
}

#[test]
fn shifts_by_bits() {
    let mut x = n(3);
    x.shl_assign(65);
    assert_eq!(x, words(vec![0, 6]));
    x.shr_assign(66);
    assert_eq!(x, n(1));
}

#[test]
fn ten_powers_and_small_conversions() {
    assert_eq!(BigUint::ten_pow(0), n(1));
    assert_eq!(BigUint::ten_pow(20).to_string(), "100000000000000000000");
    assert_eq!(BigUint::ten_pow_u32(3), n(1000));
    assert_eq!(n(77).to_u32(), Some(77));
    assert_eq!(words(vec![0, 1]).to_u32(), None);
    assert_eq!(BigUint::from_u8(200), n(200));
    assert_eq!(BigUint::from_u128((1u128 << 64) + 9), n(9));
    assert_eq!(words(vec![12, 3]).low_word(), 12);
}

#[test]
fn decimal_digits_round_trip() {
    let x = BigUint::from_decimal("000123");
    assert_eq!(x, n(123));
    assert_eq!(x.to_decimal(), b"123".to_vec());
    assert_eq!(BigUint::from_decimal("").to_string(), "0");
}

#[test]
fn bit_counts() {
    let x = words(vec![0, 1]);
    assert_eq!(x.bit_count(), 65);
    assert_eq!(x.bit_capacity(), 128);
    assert_eq!(n(0).bit_count(), 0);
}
