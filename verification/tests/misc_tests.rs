use math_lang::big_num::decimal::Decimal;
use math_lang::big_num::ubits::UintBits;
use math_lang::big_num::uint::BigUint;
use math_lang::big_uint::BigUInt;
use math_lang::var::{Var, VarType};

#[test]
fn decimal_display_to_string() {
    let one = BigUint::from_u32(1);
    let a = BigUint::from_u32(2);
    let b = BigUint::from_u32(3);
    let c = BigUint::from_u32(7);
    let d = BigUint::from_u32(700);
    assert_eq!(one.div_decimal(&a, 6).to_string(), "500000");
    assert_eq!(one.div_decimal(&a, 15).to_string(), "500000000000000");
    assert_eq!(one.div_decimal(&b, 6).to_string(), "333333");
    assert_eq!(one.div_decimal(&b, 15).to_string(), "333333333333333");
    assert_eq!(one.div_decimal(&c, 6).to_string(), "142857");
    assert_eq!(one.div_decimal(&c, 15).to_string(), "142857142857142");
    assert_eq!(one.div_decimal(&d, 15).to_string(), "001428571428571");
    assert_eq!(one.div_decimal(&c, 255).to_string().len(), 255);
}

#[test]
fn decimal_of_no_places_is_empty() {
    let d = Decimal::new(UintBits::from(vec![5]), 3, 0);
    assert_eq!(d.to_string(), "");
}

#[test]
fn shr_return() {
    let mut num1 = BigUInt::new();
    num1.push_word(12345);
    let correct: Vec<u8> = vec![
        0, 0, 0, 0, 0, 0, 0, 0, 0, 0, 0, 0, 0, 0, 0, 0, 0, 0, 1, 1, 0, 0, 0, 0, 0, 0, 1, 1, 1, 0,
        0, 1,
    ];
    let answer: Vec<u8> = (0..correct.len()).map(|_| num1.shl_return()).collect();
    assert_eq!(answer, correct);
}

#[test]
fn display() {
    let mut num1 = BigUInt::new();
    num1.push_word(12345);
    assert_eq!(num1.to_string(), "12345");
}

#[test]
fn big_uint_words_above_carry_into_the_value() {
    let mut num1 = BigUInt::new();
    assert_eq!(num1.to_string(), "0");
    num1.push_word(0);
    num1.push_word(1);
    assert_eq!(num1.to_string(), "4294967296");
    assert_eq!(num1.shl_return(), 0);
}

#[test]
fn var_sequence() {
    let arr = Var::new_sequence((1, 5), (8, 9));
    let info = (arr.get_boundary(), arr.get_scope());
    assert_eq!(info, ((1, 5), (8, 9)));
    assert_eq!(arr.get_boundary(), (1, 5));
    assert_eq!(arr.get_scope(), (8, 9));
    assert_eq!(arr.type_, VarType::Sequence);
    assert!(!arr.is_num());
}

#[test]
fn var_reads_numbers_by_width() {
    let a = Var::new("12").unwrap();
    assert_eq!(a.type_, VarType::I32);
    assert_eq!(a.as_i32(), 12);
    let b = Var::new("-3000000000").unwrap();
    assert_eq!(b.type_, VarType::I64);
    assert_eq!(b.as_i64(), -3000000000);
    let c = Var::new("1.5").unwrap();
    assert_eq!(c.type_, VarType::Real);
    assert_eq!(c.as_num().to_float_str(2), "1.50");
    let big = Var::new("99999999999999999999").unwrap();
    assert_eq!(big.type_, VarType::Real);
    assert!(Var::new("abc").is_none());
}

#[test]
fn var_raw_bytes() {
    let mut v = Var::from_i32(-1);
    assert_eq!(v.as_raw_bytes(), &[255, 255, 255, 255]);
    v.write_data_unchecked(&[1, 0, 0, 0]);
    assert_eq!(v.as_i32(), 1);
    assert_eq!(Var::from_i64(2).as_i64(), 2);
    let s = Var::from_string("hi".to_string());
    assert_eq!(s.type_, VarType::Empty);
    assert_eq!(s.as_raw_bytes(), b"hi");
    assert_eq!(Var::none().as_raw_bytes().len(), 0);
}

#[test]
fn var_type_order_and_names() {
    assert_eq!(VarType::I32.max(VarType::Real), VarType::Real);
    assert_eq!(VarType::Sequence.rank(), 4);
    assert_eq!(VarType::I64.name(), "I64");
}

#[test]
fn value_equality_goes_by_the_higher_type() {
    assert!(Var::from_i32(3).equals(&Var::from_i32(3)));
    assert!(!Var::from_i32(3).equals(&Var::from_i32(4)));
    // an I32 and an I64 compare as integers
    assert!(Var::from_i32(-7).equals(&Var::from_i64(-7)));
    assert!(!Var::from_i64(1 << 40).equals(&Var::from_i32(0)));
    // reals compare as numbers: 1.5 written two ways
    let a = Var::new("1.5").unwrap();
    let b = Var::new("1.50").unwrap();
    assert!(a.equals(&b));
    assert!(!a.equals(&Var::new("2.5").unwrap()));
    // None values compare by their bytes
    assert!(Var::none().equals(&Var::none()));
    let s1 = Var::new_sequence((1, 5), (8, 9));
    assert!(s1.equals(&Var::new_sequence((1, 5), (8, 9))));
    assert!(!s1.equals(&Var::new_sequence((1, 6), (8, 9))));
}
