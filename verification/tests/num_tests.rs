use math_lang::big_num::num::BigNum;
use math_lang::big_num::uint::BigUint;

fn from_f64(value: f64) -> BigNum {
    let negative = value.signum() < 0.0;
    if value.is_infinite() {
        let mut r = BigNum::inf();
        r.set_sign(if negative { 1 } else { 0 });
        return r;
    }
    if value.is_nan() {
        return BigNum::nan();
    }
    let v = value.abs();
    let int = v.trunc() as u128;
    let dec = (v.fract() * 10f64.powi(19)).trunc() as u64;
    BigNum::from_float_parts(negative, int, dec, 19)
}

fn from_f32(value: f32) -> BigNum {
    let negative = value.signum() < 0.0;
    let v = value.abs();
    let int = v.trunc() as u128;
    let dec = (v.fract() * 10f32.powi(7)).trunc() as u64;
    BigNum::from_float_parts(negative, int, dec, 7)
}

fn num(sgn: u8, cff: u32, exp: u32) -> BigNum {
    BigNum::from_parts(sgn, BigUint::from_u32(cff), exp, 0, false)
}

fn pos_inf() -> BigNum {
    BigNum::from_parts(0, BigUint::new(), 0, 1, false)
}

fn neg_inf() -> BigNum {
    BigNum::from_parts(0, BigUint::new(), 0, -1, false)
}

#[test]
fn fract() {
    let a = 0.5_f64;
    let b = 1.234_f64;
    let c = 12345.6789_f64;
    assert_eq!(from_f64(a).fract(), from_f64(a.fract()));
    assert_eq!(from_f64(b).fract(), from_f64(b.fract()));
    assert_eq!(from_f64(c).fract(), from_f64(c.fract()));
}

#[test]
fn rem_euclid() {
    let neg_five = BigNum::from_i32(-5);
    let five = BigNum::from_i32(5);
    let two = BigNum::from_i32(2);
    assert_eq!(five.rem_euclid(&two), BigNum::from_i32(1));
    assert_eq!(neg_five.rem_euclid(&two), BigNum::from_i32(1));
}

#[test]
fn from_to_le_bytes() {
    let nan = BigNum::nan();
    let inf = BigNum::inf();
    let neg_inf = BigNum::neg_inf();
    let pi = from_f64(std::f64::consts::PI);
    assert_eq!(nan, BigNum::from_le_bytes(&nan.to_le_bytes()));
    assert_eq!(inf, BigNum::from_le_bytes(&inf.to_le_bytes()));
    assert_eq!(neg_inf, BigNum::from_le_bytes(&neg_inf.to_le_bytes()));
    assert_eq!(pi, BigNum::from_le_bytes(&pi.to_le_bytes()));
}

#[test]
fn from_float_to_str() {
    let a = BigNum::from_u64(1);
    let b = from_f32(-1.234_f32);
    let c = from_f64(1.234e-3_f64);
    let pi = from_f64(std::f64::consts::PI);
    assert_eq!(a.to_float_str(5), "1.00000");
    assert_eq!(b.to_float_str(5), "-1.23400");
    assert_eq!(c.to_float_str(7), "0.0012340");
    assert_eq!(pi.to_float_str(15), "3.141592653589793");
}

#[test]
fn try_from_str() {
    let eps = from_f64(1e-15_f64);

    let int_pos = BigNum::try_from_str("10").unwrap();
    let int_neg = BigNum::try_from_str("-10").unwrap();
    assert_eq!(int_pos, BigNum::from_i32(10));
    assert_eq!(int_neg, BigNum::from_i32(-10));

    let dec = BigNum::try_from_str("1.234").unwrap();
    assert!(dec.sub(&from_f64(1.234_f64)).abs() < eps);

    let sciu = BigNum::try_from_str("1.234E3").unwrap();
    let scil = BigNum::try_from_str("1.234e3").unwrap();
    let sci_epos = BigNum::try_from_str("1.234e+3").unwrap();
    let sci_eneg = BigNum::try_from_str("1.234e-3").unwrap();
    assert!(sciu.sub(&from_f64(1.234E3_f64)).abs() < eps);
    assert!(scil.sub(&from_f64(1.234e3_f64)).abs() < eps);
    assert!(sci_epos.sub(&from_f64(1.234e+3_f64)).abs() < eps);
    assert!(sci_eneg.sub(&from_f64(1.234e-3_f64)).abs() < eps);

    let int_sci = BigNum::try_from_str("1e5").unwrap();
    assert!(int_sci.sub(&BigNum::from_u64(100000)).abs() < eps);

    let full = BigNum::try_from_str("-1.234E+3").unwrap();
    assert!(full.sub(&from_f64(-1.234E+3_f64)).abs() < eps);

    let long_str =
        "100000000000000000000000000000000000000000000000000000000000000000000000000000000";
    assert_eq!(BigNum::try_from_str(long_str).unwrap().to_float_str(0), long_str);
}

#[test]
fn try_from_str_refuses_malformed_text() {
    assert!(BigNum::try_from_str("").is_err());
    assert!(BigNum::try_from_str("1.2.3").is_err());
    assert!(BigNum::try_from_str("12a").is_err());
    assert!(BigNum::try_from_str("1e2+3").is_err());
    // empty digit runs read as zero
    assert_eq!(BigNum::try_from_str("-").unwrap(), BigNum::new());
    assert_eq!(BigNum::try_from_str("7e").unwrap(), BigNum::from_i32(7));
    assert_eq!(BigNum::try_from_str("7e+").unwrap(), BigNum::from_i32(7));
}

#[test]
fn eq() {
    let a = num(0, 1, 0);
    let b = num(0, 2, 1);
    let c = num(1, 2, 1);
    let d = num(0, 1, 0);
    let e = num(0, 3, 0);
    assert_eq!(a == b, true);
    assert_eq!(a == c, false);
    assert_eq!(a == d, true);
    assert_eq!(a == d, true);
    assert_eq!(a == e, false);

    let pos_z = num(0, 0, 0);
    let neg_z = num(0, 0, 0);
    assert_eq!(pos_z == neg_z, true);

    let pos_inf = pos_inf();
    let neg_inf = neg_inf();
    assert_eq!(pos_inf == pos_inf, true);
    assert_eq!(pos_inf != neg_inf, true);
}

#[test]
fn ord() {
    let a = num(0, 1, 0);
    let b = num(0, 2, 0);
    let c = num(0, 1, 5);
    let d = num(1, 1000, 0);
    let e = num(1, 1, 0);
    assert_eq!(a < b, true);
    assert_eq!(a > b, false);
    assert_eq!(a < c, false);
    assert_eq!(a > c, true);
    assert_eq!(a < d, false);
    assert_eq!(a > d, true);
    assert_eq!(e > d, true);

    let pos_z = num(0, 0, 0);
    let neg_z = num(0, 0, 0);
    assert_eq!(pos_z <= neg_z, true);
    assert_eq!(pos_z >= neg_z, true);

    let pos_inf = pos_inf();
    let neg_inf = neg_inf();
    assert_eq!(pos_inf > pos_inf, false);
    assert_eq!(pos_inf < pos_inf, false);
    assert_eq!(pos_inf < neg_inf, false);
    assert_eq!(pos_inf > neg_inf, true);
}

#[test]
fn neg() {
    let n = num(0, 1, 0);
    let zero = BigNum::new();
    assert_eq!(n > zero, true);
    let n = n.neg();
    assert_eq!(n < zero, true);
}

#[test]
fn num_add_assign() {
    let mut a = num(0, 1, 0);
    let b = num(0, 1, 0);
    let c = num(0, 2, 1);
    let d = num(1, 2, 1);
    let e = num(1, 3, 0);
    a.add_assign(&b);
    assert_eq!(a, num(0, 2, 0));
    a.add_assign(&c);
    assert_eq!(a, num(0, 6, 1));
    a.add_assign(&d);
    assert_eq!(a, num(0, 4, 1));
    a.add_assign(&e);
    assert_eq!(a, num(1, 1, 0));

    let pos_inf = pos_inf();
    let neg_inf = neg_inf();
    a.add_assign(&pos_inf);
    assert_eq!(a, pos_inf);
    a.add_assign(&pos_inf);
    assert_eq!(a, pos_inf);
    a.add_assign(&neg_inf);
    assert_eq!(a, BigNum::new());
    a.add_assign(&neg_inf);
    assert_eq!(a, neg_inf);
}

#[test]
fn num_sub_assign() {
    let mut a = num(0, 1, 0);
    let b = num(0, 1, 0);
    let c = num(0, 2, 1);
    let d = num(1, 2, 1);
    a.sub_assign(&b);
    assert_eq!(a, num(0, 0, 0));
    a.sub_assign(&c);
    assert_eq!(a, num(1, 2, 1));
    a.sub_assign(&d);
    assert_eq!(a, num(0, 0, 1));

    let pos_inf = pos_inf();
    let neg_inf = neg_inf();
    a.sub_assign(&pos_inf);
    assert_eq!(a, neg_inf);
    a.sub_assign(&pos_inf);
    assert_eq!(a, neg_inf);
    a.sub_assign(&neg_inf);
    assert_eq!(a, BigNum::new());
    a.sub_assign(&neg_inf);
    assert_eq!(a, pos_inf);
}

#[test]
fn num_mul() {
    let mut a = num(0, 1, 0);
    let b = num(0, 2, 0);
    let c = num(1, 3, 0);
    let d = num(0, 1, 3);
    a.mul_assign(&b);
    assert_eq!(a, num(0, 2, 0));
    a.mul_assign(&c);
    assert_eq!(a, num(1, 6, 0));
    a.mul_assign(&d);
    assert_eq!(a, num(1, 6, 3));

    let pos_inf = pos_inf();
    let neg_inf = neg_inf();
    let mut zero = BigNum::new();
    a.mul_assign(&neg_inf);
    assert_eq!(a, pos_inf);
    a.mul_assign(&pos_inf);
    assert_eq!(a, pos_inf);
    a.mul_assign(&pos_inf);
    assert_eq!(a, pos_inf);
    a.mul_assign(&neg_inf);
    assert_eq!(a, neg_inf);
    a.mul_assign(&neg_inf);
    assert_eq!(a, pos_inf);
    a.mul_assign(&c);
    assert_eq!(a, neg_inf);
    a.mul_assign(&c);
    assert_eq!(a, pos_inf);
    a.mul_assign(&zero);
    assert_eq!(a, zero);
    zero.mul_assign(&pos_inf);
    assert_eq!(zero, BigNum::new());
}

#[test]
fn num_div_assign() {
    let mut a = num(0, 27, 1);
    let b = num(0, 3, 0);
    let c = num(1, 3, 0);
    let d = num(1, 3, 1);
    let e = num(0, 1, 3);
    a.div_assign_with_precision(&b, 15);
    assert_eq!(a, num(0, 9, 1));
    a.div_assign_with_precision(&c, 15);
    assert_eq!(a, num(1, 3, 1));
    a.div_assign_with_precision(&d, 15);
    assert_eq!(a, num(0, 1, 0));
    a.div_assign_with_precision(&e, 15);
    assert_eq!(a, num(0, 8, 0));

    let pos_inf = pos_inf();
    let neg_inf = neg_inf();
    let one = num(0, 1, 0);
    let mut zero = BigNum::new();

    a.div_assign_with_precision(&zero, 15);
    assert_eq!(a, pos_inf);
    a.div_assign_with_precision(&zero, 15);
    assert_eq!(a, pos_inf);
    a.div_assign_with_precision(&one.neg(), 15);
    assert_eq!(a, neg_inf);
    a.div_assign_with_precision(&pos_inf, 15);
    assert_eq!(a, one.neg());
    a.div_assign_with_precision(&pos_inf, 15);
    assert_eq!(a, zero);
    a.div_assign_with_precision(&pos_inf, 15);
    assert_eq!(a, zero);
    a.div_assign_with_precision(&zero, 15);
    assert_eq!(a, BigNum::nan());
    zero.div_assign_with_precision(&pos_inf, 15);
    assert_eq!(zero, BigNum::new());
}

#[test]
fn macro_impl_oper() {
    let n = num(0, 1, 1);
    assert_eq!(n.add(&n).add(&n), num(0, 3, 1));
    assert_eq!(n.sub(&n).sub(&n), num(1, 1, 1));
    assert_eq!(n.mul(&n).mul(&n), num(0, 1, 3));
    assert_eq!(
        n.div_with_precision(&n, 15).div_with_precision(&n, 15),
        num(0, 2, 0)
    );
    let deci = num(0, 3, 0);
    assert_eq!(
        n.div_with_precision(&n, 15).div_with_precision(&deci, 15),
        BigNum::from_parts(0, BigUint::from_u64(1501199875790165_u64), 52, 0, false)
    );
}

#[test]
fn trunc_floor_ceil() {
    let x = num(0, 7, 1); // 3.5
    assert_eq!(x.trunc(), BigNum::from_i32(3));
    assert_eq!(x.floor(), BigNum::from_i32(3));
    assert_eq!(x.ceil(), BigNum::from_i32(4));
    let y = num(1, 7, 1); // -3.5
    assert_eq!(y.trunc(), BigNum::from_i32(-3));
    assert_eq!(y.floor(), BigNum::from_i32(-4));
    assert_eq!(y.abs(), x);
    assert!(y.is_neg());
    assert!(!x.is_integer());
    assert!(BigNum::from_i32(-8).is_integer());
}

#[test]
fn precision_truncation_drops_low_bits() {
    let mut x = num(0, 0b1011, 3);
    x.trunc_with_precision(1);
    assert_eq!(x, num(0, 0b10, 1));
    assert_eq!(x.to_float_str(1), "1.0");
}

#[test]
fn float_text_rounds_half_up() {
    assert_eq!(num(0, 1, 1).to_float_str(0), "1");
    assert_eq!(num(0, 1, 2).to_float_str(1), "0.3");
    assert_eq!(BigNum::nan().to_float_str(3), "NaN");
    assert_eq!(BigNum::inf().to_float_str(3), "+INF");
    assert_eq!(BigNum::neg_inf().to_float_str(3), "-INF");
}

#[test]
fn small_integers() {
    assert_eq!(BigNum::from_i64(i64::MIN).to_float_str(0), "-9223372036854775808");
    assert_eq!(BigNum::from_i32(-12).to_float_str(2), "-12.00");
    assert!(BigNum::new().is_zero());
    assert!(BigNum::from_u64(3).is_finite_number());
    assert!(!BigNum::inf().is_finite_number());
}

#[test]
fn sqrt() {
    let eps = from_f64(1e-15_f64);

    let two = BigNum::from_u64(2);
    assert!(two.sqrt().sub(&from_f64(2_f64.sqrt())).abs() < eps);
    let normal = BigNum::from_u64(12345);
    assert!(normal.sqrt().sub(&from_f64(12345_f64.sqrt())).abs() < eps);
    let large = from_f64(1e18_f64);
    assert!(large.sqrt().sub(&from_f64(1e18_f64.sqrt())).abs() < eps);
}

#[test]
fn cbrt() {
    let eps = from_f64(1e-14_f64);

    let two = BigNum::from_u64(2);
    assert!(two.cbrt().sub(&from_f64(2_f64.cbrt())).abs() < eps);
    let normal = BigNum::from_u64(12345);
    assert!(normal.cbrt().sub(&from_f64(12345_f64.cbrt())).abs() < eps);
    let large = from_f64(1e18_f64);
    assert!(large.cbrt().sub(&from_f64(1e18_f64.cbrt())).abs() < eps);
}

#[test]
fn roots_of_special_values() {
    // NaN for negative numbers and negative infinity, infinity for itself
    assert!(BigNum::from_i32(-4).sqrt().is_nan());
    assert!(BigNum::from_i32(-8).cbrt().is_nan());
    assert!(neg_inf().sqrt().is_nan());
    assert!(BigNum::nan().cbrt().is_nan());
    assert_eq!(BigNum::inf().sqrt(), BigNum::inf());
    assert_eq!(BigNum::inf().cbrt(), BigNum::inf());
    // zero: fifteen halvings from one, and a 0/0 in the first Halley step
    assert_eq!(BigNum::new().sqrt(), num(0, 1, 15));
    assert!(BigNum::new().cbrt().is_nan());
}

#[test]
fn roots_of_squares_and_cubes() {
    let eps = from_f64(1e-15_f64);
    assert!(BigNum::from_u64(4).sqrt().sub(&BigNum::from_u64(2)).abs() < eps);
    assert!(BigNum::from_u64(1 << 40).sqrt().sub(&BigNum::from_u64(1 << 20)).abs() < eps);
    assert!(BigNum::from_u64(27).cbrt().sub(&BigNum::from_u64(3)).abs() < eps);
    assert!(num(0, 1, 2).sqrt().sub(&num(0, 1, 1)).abs() < eps);
}

#[test]
fn try_into_i32() {
    assert_eq!(BigNum::from_i32(5).try_into_i32().unwrap(), 5);
    assert_eq!(BigNum::from_i32(-5).try_into_i32().unwrap(), -5);
    assert_eq!(BigNum::from_i32(i32::MAX).try_into_i32().unwrap(), i32::MAX);
    // the coefficient's low bits, the exponent not applied
    assert_eq!(num(0, 5, 1).try_into_i32().unwrap(), 5);
    assert!(BigNum::from_i64(1 << 31).try_into_i32().is_err());
    assert!(BigNum::from_i64(-(1 << 31) - 1).try_into_i32().is_err());
    assert!(BigNum::nan().try_into_i32().is_err());
    let e = BigNum::inf().try_into_i32().unwrap_err();
    assert_eq!(e, BigNum::inf());
}
