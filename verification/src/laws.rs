//! Laws of the library that relate several of its functions.
use vstd::prelude::*;
use vstd::arithmetic::power2::*;
use vstd::arithmetic::div_mod::*;
use crate::big_num::ubits::{le_byte, le_word, le_word_n, byte_at, words_for_bytes};
use crate::big_num::uint::{dec_digits, dec_value, all_digits, quotient, remainder};
use crate::big_num::words::{words_val, is_shrunk};
use crate::big_num::num::{BigNum, NumView, num_bytes, canon_words, lemma_canon_words, u32_le, le_u32};
use crate::var::{u64_le, le_u64_at, VarType, ArithOp, arith_view, is_number, var_i64, i32_le, i64_le, le_i32};
use crate::lexer::{number_len, digit_run, is_digit, at};
use crate::big_num::num::{div_spec, float_text, finite, rounded_scaled};
use crate::runtime::power_steps;
use crate::big_num::num::{strip, frac_base, add_spec, mul_spec, combine, max_exp, aligned};
use crate::big_num::parse::{parse_value, parse_ok, has_point, has_exp, int_digits, frac_digits_of, int_view, exp_value, exp_negative};
use crate::big_num::decimal::pow10;
use vstd::arithmetic::power::{pow, lemma_pow_adds, lemma_pow_multiplies, lemma_pow_positive};

verus! {

/// The byte of `w` at bit offset `s`, in place.
spec fn bpart(w: u64, s: u64) -> u64 {
    (((w >> s) as u8) as u64) << s
}

spec fn acc2(w: u64) -> u64 {
    (0u64 | bpart(w, 0)) | bpart(w, 8)
}

spec fn acc4(w: u64) -> u64 {
    (acc2(w) | bpart(w, 16)) | bpart(w, 24)
}

spec fn acc6(w: u64) -> u64 {
    (acc4(w) | bpart(w, 32)) | bpart(w, 40)
}

spec fn acc8(w: u64) -> u64 {
    (acc6(w) | bpart(w, 48)) | bpart(w, 56)
}

/// The eight bytes of a word, read back in order, give the word.
proof fn lemma_word_from_bytes(w: u64)
    ensures
        w == acc8(w),
{
    assert(w == acc8(w)) by (bit_vector);
}

/// Writing words as little-endian bytes (`UintBits::to_le_bytes`) and reading the bytes back as
/// words (`UintBits::from_le_bytes`) gives the same words, for any non-empty word list.
pub proof fn law_le_bytes_round_trip(s: Seq<u64>)
    requires
        s.len() >= 1,
    ensures
        ({
            let b = Seq::new(8 * s.len(), |j: int| le_byte(s, j));
            &&& words_for_bytes(b.len()) == s.len()
            &&& forall|k: int| 0 <= k < s.len() ==> #[trigger] le_word(b, k) == s[k]
        }),
{
    let b = Seq::new(8 * s.len(), |j: int| le_byte(s, j));
    assert(words_for_bytes(b.len()) == s.len());
    assert forall|k: int| 0 <= k < s.len() implies #[trigger] le_word(b, k) == s[k] by {
        let w = s[k];
        assert forall|i: int| 0 <= i < 8 implies #[trigger] byte_at(b, 8 * k + i) == ((w >> ((8 * i) as u64)) as u8) by {
            assert((8 * k + i) / 8 == k);
            assert((8 * k + i) % 8 == i);
        }
        reveal_with_fuel(le_word_n, 9);
        assert(byte_at(b, 8 * k + 0) == ((w >> 0u64) as u8));
        assert(byte_at(b, 8 * k + 1) == ((w >> 8u64) as u8));
        assert(byte_at(b, 8 * k + 2) == ((w >> 16u64) as u8));
        assert(byte_at(b, 8 * k + 3) == ((w >> 24u64) as u8));
        assert(byte_at(b, 8 * k + 4) == ((w >> 32u64) as u8));
        assert(byte_at(b, 8 * k + 5) == ((w >> 40u64) as u8));
        assert(byte_at(b, 8 * k + 6) == ((w >> 48u64) as u8));
        assert(byte_at(b, 8 * k + 7) == ((w >> 56u64) as u8));
        lemma_word_from_bytes(w);
    }
}


/// The four bytes of a `u32`, read back, give it.
proof fn lemma_u32_from_bytes(e: u32)
    ensures
        le_u32(u32_le(e)[0], u32_le(e)[1], u32_le(e)[2], u32_le(e)[3]) == e,
{
    let b = u32_le(e);
    assert(b[0] == e as u8 && b[1] == (e >> 8u32) as u8 && b[2] == (e >> 16u32) as u8 && b[3] == (e >> 24u32) as u8);
    assert(((e as u8) as u32) | ((((e >> 8u32) as u8) as u32) << 8u32) | ((((e >> 16u32) as u8) as u32) << 16u32)
        | ((((e >> 24u32) as u8) as u32) << 24u32) == e) by (bit_vector);
}

/// The byte image of a number (`BigNum::to_le_bytes`) read back (`BigNum::from_le_bytes`)
/// gives the same number, field by field, for every coefficient (given by its canonical words),
/// exponent, sign, infinity and NaN flag.
pub proof fn law_num_bytes_round_trip(s: Seq<u64>, sgn: u8, exp: u32, inf: i8, nan: bool)
    requires
        s.len() >= 1,
        is_shrunk(s),
    ensures
        ({
            let v = NumView { sgn, cff: words_val(s), exp: exp as nat, inf, nan };
            BigNum::from_bytes_view(num_bytes(v)) == v
        }),
{
    let v = NumView { sgn, cff: words_val(s), exp: exp as nat, inf, nan };
    lemma_canon_words(s);
    let b = num_bytes(v);
    let rest = b.skip(7);
    let img = Seq::new(8 * s.len(), |j: int| le_byte(s, j));
    assert(rest =~= img);
    law_le_bytes_round_trip(s);
    let words = Seq::new(words_for_bytes(rest.len()), |k: int| le_word(rest, k));
    assert(words =~= s);
    lemma_u32_from_bytes(exp);
    assert(b[3] == u32_le(exp)[0] && b[4] == u32_le(exp)[1] && b[5] == u32_le(exp)[2] && b[6] == u32_le(exp)[3]);
    let i = inf;
    assert((((((i + 1) as u8) as i8) - 1) as i8) == i) by (bit_vector);
    assert(BigNum::from_bytes_view(b) =~= v);
}

/// The eight bytes of a `u64` read back give it.
proof fn lemma_u64_le_back(u: u64, d: Seq<u8>, at: int)
    requires
        0 <= at,
        at + 8 <= d.len(),
        forall|k: int| 0 <= k < 8 ==> #[trigger] d[at + k] == u64_le(u)[k],
    ensures
        le_u64_at(d, at) == u,
{
    assert(d[at + 0] == (u >> 0u64) as u8);
    assert(d[at] == (u >> 0u64) as u8);
    assert(d[at + 1] == (u >> 8u64) as u8);
    assert(d[at + 2] == (u >> 16u64) as u8);
    assert(d[at + 3] == (u >> 24u64) as u8);
    assert(d[at + 4] == (u >> 32u64) as u8);
    assert(d[at + 5] == (u >> 40u64) as u8);
    assert(d[at + 6] == (u >> 48u64) as u8);
    assert(d[at + 7] == (u >> 56u64) as u8);
    assert((((u >> 0u64) as u8) as u64) | ((((u >> 8u64) as u8) as u64) << 8u64) | ((((u >> 16u64) as u8) as u64) << 16u64)
        | ((((u >> 24u64) as u8) as u64) << 24u64) | ((((u >> 32u64) as u8) as u64) << 32u64)
        | ((((u >> 40u64) as u8) as u64) << 40u64) | ((((u >> 48u64) as u8) as u64) << 48u64)
        | ((((u >> 56u64) as u8) as u64) << 56u64) == u) by (bit_vector);
}

/// A sequence handle (`Var::new_sequence`) gives back the range and the scope it was made of
/// (`Var::get_boundary`, `Var::get_scope`).
pub proof fn law_sequence_handle_round_trip(start: u64, end: u64, index: u64, id: u64)
    ensures
        ({
            let d = u64_le(start) + u64_le(end) + u64_le(index) + u64_le(id);
            &&& le_u64_at(d, 0) == start
            &&& le_u64_at(d, 8) == end
            &&& le_u64_at(d, 16) == index
            &&& le_u64_at(d, 24) == id
        }),
{
    let d = u64_le(start) + u64_le(end) + u64_le(index) + u64_le(id);
    assert forall|k: int| 0 <= k < 8 implies #[trigger] d[0 + k] == u64_le(start)[k] by {}
    assert forall|k: int| 0 <= k < 8 implies #[trigger] d[8 + k] == u64_le(end)[k] by {}
    assert forall|k: int| 0 <= k < 8 implies #[trigger] d[16 + k] == u64_le(index)[k] by {}
    assert forall|k: int| 0 <= k < 8 implies #[trigger] d[24 + k] == u64_le(id)[k] by {}
    lemma_u64_le_back(start, d, 0);
    lemma_u64_le_back(end, d, 8);
    lemma_u64_le_back(index, d, 16);
    lemma_u64_le_back(id, d, 24);
}

/// The decimal digits of a number (`BigUint::to_string`) are digits, and read back
/// (`BigUint::from_decimal`) they give the number.
pub proof fn law_decimal_round_trip(v: nat)
    ensures
        all_digits(dec_digits(v)),
        dec_value(dec_digits(v)) == v,
    decreases v,
{
    if v < 10 {
        let e = dec_digits(v);
        assert(e.drop_last() =~= Seq::<u8>::empty());
        assert(dec_value(e) == dec_value(e.drop_last()) * 10 + (e.last() - 48) as nat);
    } else {
        law_decimal_round_trip(v / 10);
        let d = dec_digits(v / 10);
        let e = d.push((48 + v % 10) as u8);
        assert(e.drop_last() =~= d);
        assert(e.last() == (48 + v % 10) as u8);
        assert(dec_value(e) == dec_value(d) * 10 + (v % 10) as nat);
        assert(dec_digits(v) == e);
        assert forall|i: int| 0 <= i < e.len() implies 48 <= #[trigger] e[i] <= 57 by {
            if i < d.len() {
                assert(e[i] == d[i]);
            }
        }
    }
}

/// A decimal numeral in its usual form: digits only, at least one, and no leading zero unless
/// it is `"0"`.
pub open spec fn canonical_numeral(s: Seq<u8>) -> bool {
    &&& s.len() >= 1
    &&& all_digits(s)
    &&& (s[0] != 48 || s.len() == 1)
}

proof fn lemma_numeral_positive(s: Seq<u8>)
    requires
        s.len() >= 1,
        all_digits(s),
        s[0] != 48,
    ensures
        dec_value(s) >= 1,
    decreases s.len(),
{
    if s.len() > 1 {
        let t = s.drop_last();
        assert(all_digits(t)) by {
            assert forall|i: int| 0 <= i < t.len() implies 48 <= #[trigger] t[i] <= 57 by {
                assert(t[i] == s[i]);
            }
        }
        assert(t[0] == s[0]);
        lemma_numeral_positive(t);
    } else {
        assert(s.drop_last().len() == 0);
        assert(s[s.len() - 1] <= 57);
    }
}

/// A numeral in its usual form read (`BigUint::from_decimal`) and written again
/// (`BigUint::to_string`) comes back unchanged.
pub proof fn law_numeral_round_trip(s: Seq<u8>)
    requires
        canonical_numeral(s),
    ensures
        dec_digits(dec_value(s)) == s,
    decreases s.len(),
{
    if s.len() == 1 {
        assert(s.drop_last() =~= Seq::<u8>::empty());
        assert(48 <= s[0] <= 57);
        assert(dec_value(s.drop_last()) == 0);
        assert(s.last() == s[0]);
        assert(dec_value(s) == dec_value(s.drop_last()) * 10 + (s.last() - 48) as nat);
        assert(dec_value(s) == (s[0] - 48) as nat);
        assert(dec_digits(dec_value(s)) =~= s);
    } else {
        let t = s.drop_last();
        assert(all_digits(t)) by {
            assert forall|i: int| 0 <= i < t.len() implies 48 <= #[trigger] t[i] <= 57 by {
                assert(t[i] == s[i]);
            }
        }
        assert(t[0] == s[0]);
        lemma_numeral_positive(t);
        law_numeral_round_trip(t);
        let a = dec_value(t);
        let d = (s.last() - 48) as nat;
        assert(48 <= s[s.len() - 1] <= 57);
        assert(d < 10);
        let v = dec_value(s);
        assert(v == a * 10 + d);
        assert(v / 10 == a && v % 10 == d) by (nonlinear_arith)
            requires v == a * 10 + d, d < 10;
        assert(v >= 10) by (nonlinear_arith)
            requires v == a * 10 + d, a >= 1;
        assert(dec_digits(v) == dec_digits(v / 10).push((48 + v % 10) as u8));
        assert((48 + d) as u8 == s.last());
        assert(dec_digits(v) =~= s);
    }
}

/// Shifting a number left by `k` bits (`BigUint::shl_assign`) and back right
/// (`BigUint::shr_assign`) gives the number again.
pub proof fn law_shift_round_trip(v: nat, k: nat)
    ensures
        (v * pow2(k)) / pow2(k) == v,
{
    lemma_pow2_pos(k);
    lemma_div_multiples_vanish(v as int, pow2(k) as int);
    vstd::arithmetic::mul::lemma_mul_is_commutative(v as int, pow2(k) as int);
}

/// Division with remainder (`BigUint::div_rem`) splits a number by a nonzero divisor: the
/// quotient times the divisor plus the remainder is the number, the remainder below the divisor.
pub proof fn law_div_rem(a: nat, b: nat)
    requires
        b > 0,
    ensures
        quotient(a, b) * b + remainder(a, b) == a,
        remainder(a, b) < b,
{
    lemma_fundamental_div_mod(a as int, b as int);
    vstd::arithmetic::mul::lemma_mul_is_commutative(b as int, (a / b) as int);
    lemma_mod_bound(a as int, b as int);
}


/// The exact integer result of `+`, `-` or `*`.
pub open spec fn exact(op: ArithOp, l: int, r: int) -> int {
    match op {
        ArithOp::Add => l + r,
        ArithOp::Sub => l - r,
        _ => l * r,
    }
}

/// Integer arithmetic on values never wraps (`Var::add`, `Var::sub`, `Var::mul`): two `I32`
/// give an `I32` while the result fits, else an `I64`; any other pair of integers gives an
/// `I64`; the value is the exact result whenever it fits in an `i64`.
pub proof fn law_int_arith_exact(op: ArithOp, a: (VarType, Seq<u8>), b: (VarType, Seq<u8>))
    requires
        op == ArithOp::Add || op == ArithOp::Sub || op == ArithOp::Mul,
        is_number(a),
        is_number(b),
        a.0 == VarType::I32 || a.0 == VarType::I64,
        b.0 == VarType::I32 || b.0 == VarType::I64,
        i64::MIN <= exact(op, var_i64(a) as int, var_i64(b) as int) <= i64::MAX,
    ensures
        ({
            let x = exact(op, var_i64(a) as int, var_i64(b) as int);
            arith_view(op, a, b) == if a.0 == VarType::I32 && b.0 == VarType::I32 && i32::MIN <= x <= i32::MAX {
                (VarType::I32, i32_le(x as i32))
            } else {
                (VarType::I64, i64_le(x as i64))
            }
        }),
{
    let l = le_i32(a.1);
    let r = le_i32(b.1);
    if a.0 == VarType::I32 && b.0 == VarType::I32 {
        let x = exact(op, l as int, r as int);
        assert(-0x8000_0000 * 0x8000_0000 <= l * r <= 0x8000_0000 * 0x8000_0000) by (nonlinear_arith)
            requires -0x8000_0000 <= l <= 0x7fff_ffff, -0x8000_0000 <= r <= 0x7fff_ffff;
    }
}

/// The text with every `E` written `e`.
pub open spec fn lower_exp(b: Seq<u8>) -> Seq<u8> {
    Seq::new(b.len(), |i: int| if b[i] == 69 { 101u8 } else { b[i] })
}

proof fn lemma_digit_run_lower(b: Seq<u8>, p: int)
    ensures
        digit_run(lower_exp(b), p) == digit_run(b, p),
    decreases b.len() - p,
{
    if 0 <= p < b.len() {
        lemma_digit_run_lower(b, p + 1);
    }
}

/// The exponent marker of a number literal is read in either case (`tokenize`): written with
/// `E` or with `e`, the number at any place has the same length.
pub proof fn law_exponent_case(b: Seq<u8>, p: int)
    ensures
        number_len(lower_exp(b), p) == number_len(b, p),
{
    let l = lower_exp(b);
    lemma_digit_run_lower(b, p);
    let q = p + digit_run(b, p);
    lemma_digit_run_lower(b, q + 1);
    assert(at(l, q) == 46 <==> at(b, q) == 46);
    let f: nat = if at(b, q) == 46 && digit_run(b, q + 1) > 0 { 1 + digit_run(b, q + 1) } else { 0 };
    let r = q + f;
    assert(at(l, r + 1) == 43 <==> at(b, r + 1) == 43);
    assert(at(l, r + 1) == 45 <==> at(b, r + 1) == 45);
    assert((at(l, r) == 101 || at(l, r) == 69) <==> (at(b, r) == 101 || at(b, r) == 69));
    lemma_digit_run_lower(b, r + 1);
    lemma_digit_run_lower(b, r + 2);
}

proof fn lemma_digit_run_exact(b: Seq<u8>, p: int, k: int)
    requires
        0 <= p,
        0 <= k,
        p + k <= b.len(),
        forall|i: int| p <= i < p + k ==> is_digit(#[trigger] b[i]),
        p + k == b.len() || !is_digit(b[p + k]),
    ensures
        digit_run(b, p) == k,
    decreases k,
{
    if k > 0 {
        lemma_digit_run_exact(b, p + 1, k - 1);
    }
}

/// A number literal with an exponent, `e` or `E` followed by digits, is read whole.
pub proof fn law_number_with_exponent(i: Seq<u8>, m: u8, x: Seq<u8>)
    requires
        i.len() > 0,
        x.len() > 0,
        forall|k: int| 0 <= k < i.len() ==> is_digit(#[trigger] i[k]),
        forall|k: int| 0 <= k < x.len() ==> is_digit(#[trigger] x[k]),
        m == 101 || m == 69,
    ensures
        number_len(i + seq![m] + x, 0) == i.len() + 1 + x.len(),
{
    let b = i + seq![m] + x;
    let n = i.len() as int;
    assert forall|k: int| 0 <= k < n implies is_digit(#[trigger] b[k]) by {
        assert(b[k] == i[k]);
    }
    assert(b[n] == m);
    lemma_digit_run_exact(b, 0, n);
    assert forall|k: int| n + 1 <= k < b.len() implies is_digit(#[trigger] b[k]) by {
        assert(b[k] == x[k - n - 1]);
    }
    lemma_digit_run_exact(b, n + 1, x.len() as int);
    lemma_digit_run_exact(b, n + 2, x.len() as int - 1);
    assert(is_digit(b[n + 1]));
}

/// The sign of a quotient of finite numbers by a nonzero divisor is the exclusive or of the
/// signs (`BigNum::div_assign_with_precision`), whether or not the division is exact.
pub proof fn law_quotient_sign(a: NumView, b: NumView, p: nat)
    requires
        finite(a),
        finite(b),
        b.cff != 0,
    ensures
        div_spec(a, b, p).sgn == a.sgn ^ b.sgn,
{
}

/// An exact quotient times the divisor is the dividend (`BigNum::div_assign_with_precision`):
/// where the divisor's coefficient divides the dividend's, the quotient `c / 2^e` satisfies
/// `(c / 2^e) * (b.cff / 2^b.exp) == a.cff / 2^a.exp`, and its sign is that of `a` and `b`
/// combined.
pub proof fn law_exact_quotient(a: NumView, b: NumView, p: nat)
    requires
        finite(a),
        finite(b),
        b.cff != 0,
        a.cff % b.cff == 0,
    ensures
        ({
            let q = div_spec(a, b, p);
            &&& finite(q)
            &&& q.cff * b.cff * pow2(a.exp) == a.cff * pow2(q.exp + b.exp)
            &&& q.sgn == a.sgn ^ b.sgn
        }),
{
    let q = div_spec(a, b, p);
    let k = a.cff / b.cff;
    lemma_fundamental_div_mod(a.cff as int, b.cff as int);
    assert(a.cff == k * b.cff);
    if a.exp > b.exp {
        assert(q.cff == k && q.exp == a.exp - b.exp);
        assert(q.exp + b.exp == a.exp);
        assert(q.cff * b.cff * pow2(a.exp) == a.cff * pow2(q.exp + b.exp)) by (nonlinear_arith)
            requires q.cff == k, a.cff == k * b.cff, q.exp + b.exp == a.exp;
    } else {
        let d = (b.exp - a.exp) as nat;
        assert(q.cff == k * pow2(d) && q.exp == 0);
        lemma_pow2_adds(d, a.exp);
        assert(d + a.exp == b.exp);
        let x = pow2(d);
        let y = pow2(a.exp);
        assert(pow2(b.exp) == x * y);
        assert(q.cff * b.cff * pow2(a.exp) == a.cff * pow2(q.exp + b.exp)) by (nonlinear_arith)
            requires q.cff == k * x, a.cff == k * b.cff, pow2(a.exp) == y, pow2(q.exp + b.exp) == x * y;
    }
}

/// The text of a negative finite number is a minus sign before the text of its magnitude
/// (`BigNum::to_float_str`): the sign shows even where the digits shown are all zero.
pub proof fn law_float_text_sign(v: NumView, p: nat)
    requires
        finite(v),
        v.sgn == 1,
    ensures
        float_text(v, p) == seq![45u8] + float_text(NumView { sgn: 0, ..v }, p),
        float_text(v, p)[0] == 45,
{
    let w = NumView { sgn: 0, ..v };
    assert(rounded_scaled(v, p) == rounded_scaled(w, p));
    assert(Seq::<u8>::empty() + float_text(w, p) =~= float_text(w, p)) by {
        let r = rounded_scaled(w, p);
        if p == 0 {
            assert(Seq::<u8>::empty() + dec_digits(r) =~= dec_digits(r));
        }
    }
    if p == 0 {
        assert(float_text(v, p) =~= seq![45u8] + float_text(w, p));
    } else {
        let r = rounded_scaled(w, p);
        assert(float_text(v, p) =~= seq![45u8] + float_text(w, p));
    }
}

/// Any number to the power 0 is the integer 1 (the `^` operator's repeated squaring starts
/// from 1): `power_steps(x, 1, 0)` is 1 for every `x`.
pub proof fn law_power_zero(x: (VarType, Seq<u8>))
    ensures
        power_steps(x, (VarType::I32, i32_le(1i32)), 0) == Some((VarType::I32, i32_le(1i32))),
{
}

proof fn lemma_strip_value(x: nat, s: nat)
    ensures
        strip(x, s).1 <= s,
        strip(x, s).0 * pow2((s - strip(x, s).1) as nat) == x,
    decreases s,
{
    lemma2_to64();
    if x > 0 && x % 2 == 0 && s > 0 {
        let s1 = (s - 1) as nat;
        lemma_strip_value(x / 2, s1);
        assert(strip(x, s) == strip(x / 2, s1));
        let t = strip(x / 2, s1).1;
        let d = strip(x / 2, s1).0;
        let k1 = (s1 - t) as nat;
        lemma_pow2_adds(k1, 1);
        assert((s - t) as nat == k1 + 1);
        let pk = pow2(k1);
        assert(pow2((s - t) as nat) == pk * 2);
        lemma_fundamental_div_mod(x as int, 2);
        assert((x / 2) * 2 == x);
        assert(d * pk == x / 2);
        assert(d * (pk * 2) == (d * pk) * 2) by (nonlinear_arith);
        assert(strip(x, s).0 * pow2((s - strip(x, s).1) as nat) == x);
    } else {
        assert(strip(x, s) == (x, s));
        assert(pow2(0) == 1);
        assert(x * 1 == x);
        assert(strip(x, s).0 * pow2((s - strip(x, s).1) as nat) == x);
    }
}

/// The fraction `div_spec` gives for `d / m` (`m` nonzero, both integers) never exceeds it:
/// `c / 2^e <= d / m`.
proof fn lemma_int_quotient_below(d: nat, m: nat, p: nat)
    requires
        m > 0,
    ensures
        ({
            let f = div_spec(int_view(d), int_view(m), p);
            &&& f.cff * m <= d * pow2(f.exp)
            &&& d * pow2(f.exp) < (f.cff + 1) * m
            &&& finite(f)
        }),
{
    let f = div_spec(int_view(d), int_view(m), p);
    let q = d / m;
    let r = d % m;
    lemma_fundamental_div_mod(d as int, m as int);
    assert(d == q * m + r);
    assert(pow2(0) == 1) by { lemma2_to64(); }
    if r == 0 {
        assert(f.cff == q * pow2(0) && f.exp == 0);
        assert(q * 1 == q);
        assert(f.cff * m <= d * pow2(f.exp)) by (nonlinear_arith)
            requires f.cff == q, d == q * m + r, r == 0, pow2(f.exp) == 1;
        assert(d * pow2(f.exp) < (f.cff + 1) * m) by (nonlinear_arith)
            requires f.cff == q, d == q * m + r, r == 0, pow2(f.exp) == 1, m > 0;
    } else {
        let base = frac_base(r, m, p);
        let x = r * pow2(base) / m;
        lemma_strip_value(x, base);
        let dd = strip(x, base).0;
        let t = strip(x, base).1;
        let k = (base - t) as nat;
        let c = q * pow2(t) + dd;
        lemma_pow2_adds(t, k);
        assert(t + k == base);
        lemma_pow2_pos(k);
        lemma_pow2_pos(t);
        lemma_fundamental_div_mod((r * pow2(base)) as int, m as int);
        assert(x * m <= r * pow2(base)) by (nonlinear_arith)
            requires x == r * pow2(base) / m, m > 0;
        let pk = pow2(k);
        let pt = pow2(t);
        assert(dd * pk == x);
        assert(pow2(base) == pt * pk);
        assert(dd * m <= r * pt) by (nonlinear_arith)
            requires dd * pk == x, x * m <= r * (pt * pk), pk > 0;
        assert(c * m <= d * pt) by (nonlinear_arith)
            requires c == q * pt + dd, dd * m <= r * pt, d == q * m + r;
        assert(r * pow2(base) < (x + 1) * m) by (nonlinear_arith)
            requires x == r * pow2(base) / m, m > 0;
        assert(r * pt < (dd + 1) * m) by (nonlinear_arith)
            requires dd * pk == x, r * (pt * pk) < (x + 1) * m, pk > 0, m > 0;
        assert(d * pt < (c + 1) * m) by (nonlinear_arith)
            requires c == q * pt + dd, r * pt < (dd + 1) * m, d == q * m + r;
        if t > 0 {
            assert(f.cff == c && f.exp == t);
        } else {
            assert(f.cff == c * pow2(0) && f.exp == 0);
        }
    }
}

/// A decimal literal with a point and no exponent (`Var::new`, `BigNum::try_from_str`) reads as
/// its value `I + F / 10^|F|` cut to its last binary place, where `I` and `F` are the digits
/// before and after the point and `|F|` counts every digit of `F`, leading zeros included: the
/// number `c / 2^e` it gives satisfies `c / 2^e <= I + F / 10^|F| < (c + 1) / 2^e`.
pub proof fn law_point_literal_below(b: Seq<u8>)
    requires
        parse_ok(b),
        b[0] != 45,
        has_point(b),
        !has_exp(b),
    ensures
        ({
            let v = parse_value(b);
            let w = dec_value(int_digits(b));
            let f = frac_digits_of(b);
            let l = pow10(f.len());
            &&& finite(v)
            &&& v.sgn == 0
            &&& v.cff * l <= (w * l + dec_value(f)) * pow2(v.exp)
            &&& (w * l + dec_value(f)) * pow2(v.exp) < (v.cff + 1) * l
        }),
{
    let w = dec_value(int_digits(b));
    let f = frac_digits_of(b);
    let l = pow10(f.len());
    let d = dec_value(f);
    crate::big_num::decimal::lemma_pow10_bound(f.len());
    lemma_int_quotient_below(d, l, 255);
    let fr0 = div_spec(int_view(d), int_view(l), 255);
    let fr = NumView { sgn: 0, ..fr0 };
    let whole = NumView { sgn: 0, ..int_view(w) };
    assert(exp_value(b) == 0);
    assert(!exp_negative(b));
    assert(pow10(0) == 1);
    let sum = add_spec(whole, fr, false);
    let e = max_exp(whole, fr);
    assert(e == fr.exp);
    assert(pow2(0) == 1) by { lemma2_to64(); }
    assert(aligned(whole, e) == w * pow2(e));
    assert(aligned(fr, e) == fr.cff * pow2(0));
    assert(fr.cff * 1 == fr.cff);
    assert(finite(fr) && finite(whole));
    assert(0u8 ^ 0u8 == 0u8) by (bit_vector);
    assert(sum == combine(whole, fr, true));
    assert(sum.cff == w * pow2(e) + fr.cff && sum.exp == e && sum.sgn == 0);
    let m = mul_spec(sum, int_view(1));
    assert(sum.cff * 1 == sum.cff);
    assert(m.cff == sum.cff * 1 && m.exp == e && m.sgn == 0);
    let t = if m.exp <= 180 { m.exp } else { 180 };
    let k = (m.exp - t) as nat;
    let v = parse_value(b);
    assert(v.cff == m.cff / pow2(k) && v.exp == t);
    lemma_pow2_adds(t, k);
    lemma_pow2_pos(k);
    lemma_pow2_pos(t);
    let pk = pow2(k);
    let pt = pow2(t);
    assert(pow2(e) == pt * pk);
    assert(v.cff * pk <= m.cff) by (nonlinear_arith)
        requires v.cff == m.cff / pk, pk > 0;
    assert(fr.cff * l <= d * (pt * pk));
    assert(v.cff * l <= (w * l + d) * pt) by (nonlinear_arith)
        requires v.cff * pk <= m.cff, m.cff == w * (pt * pk) + fr.cff, fr.cff * l <= d * (pt * pk), pk > 0, l > 0;
    assert(m.cff < (v.cff + 1) * pk) by (nonlinear_arith)
        requires v.cff == m.cff / pk, pk > 0;
    assert((w * l + d) * pt < (v.cff + 1) * l) by (nonlinear_arith)
        requires m.cff < (v.cff + 1) * pk, m.cff == w * (pt * pk) + fr.cff, d * (pt * pk) < (fr.cff + 1) * l, pk > 0, l > 0;
}

/// The magnitude of an integer.
pub open spec fn iabs(v: int) -> int {
    if v < 0 { -v } else { v }
}

proof fn lemma_iabs_mul(a: int, b: int)
    ensures
        iabs(a * b) == iabs(a) * iabs(b),
{
    if a < 0 && b < 0 {
        assert(a * b == (-a) * (-b)) by (nonlinear_arith);
        assert((-a) * (-b) >= 0) by (nonlinear_arith) requires a < 0, b < 0;
    } else if a < 0 {
        assert(a * b == -((-a) * b)) by (nonlinear_arith);
        assert((-a) * b >= 0) by (nonlinear_arith) requires a < 0, b >= 0;
    } else if b < 0 {
        assert(a * b == -(a * (-b))) by (nonlinear_arith);
        assert(a * (-b) >= 0) by (nonlinear_arith) requires a >= 0, b < 0;
    } else {
        assert(a * b >= 0) by (nonlinear_arith) requires a >= 0, b >= 0;
    }
}

proof fn lemma_pow_abs(b: int, e: nat)
    ensures
        iabs(pow(b, e)) == pow(iabs(b), e),
    decreases e,
{
    reveal(pow);
    if e > 0 {
        lemma_pow_abs(b, (e - 1) as nat);
        lemma_iabs_mul(b, pow(b, (e - 1) as nat));
    }
}

/// The integer of `(I32, i32_le(x))` is `x`, and of `(I64, i64_le(x))` is `x`.
proof fn lemma_int_value_back(x: int, t: VarType)
    requires
        t == VarType::I32 ==> i32::MIN <= x <= i32::MAX,
        t == VarType::I64 ==> i64::MIN <= x <= i64::MAX,
        t == VarType::I32 || t == VarType::I64,
    ensures
        t == VarType::I32 ==> var_i64((t, i32_le(x as i32))) == x && is_number((t, i32_le(x as i32))),
        t == VarType::I64 ==> var_i64((t, i64_le(x as i64))) == x && is_number((t, i64_le(x as i64))),
{
    if t == VarType::I32 {
        let v = x as i32;
        let u = v as u32;
        assert((((u as u8) as u32) | (((u >> 8u32) as u8) as u32) << 8u32 | (((u >> 16u32) as u8) as u32) << 16u32
            | (((u >> 24u32) as u8) as u32) << 24u32) == u) by (bit_vector);
        assert((u as i32) == v) by (bit_vector) requires u == v as u32;
        let b = i32_le(v);
        assert(b[0] == u as u8 && b[1] == (u >> 8u32) as u8 && b[2] == (u >> 16u32) as u8 && b[3] == (u >> 24u32) as u8);
    } else {
        let v = x as i64;
        let u = v as u64;
        let d = i64_le(v);
        assert forall|k: int| 0 <= k < 8 implies #[trigger] d[0 + k] == u64_le(u)[k] by {}
        lemma_u64_le_back(u, d, 0);
        assert((u as i64) == v) by (bit_vector) requires u == v as u64;
    }
}

/// One product of integers whose exact value fits an `i64`: an integer of that value.
proof fn lemma_int_product(a: (VarType, Seq<u8>), b: (VarType, Seq<u8>))
    requires
        is_number(a),
        is_number(b),
        a.0 == VarType::I32 || a.0 == VarType::I64,
        b.0 == VarType::I32 || b.0 == VarType::I64,
        iabs(var_i64(a) * var_i64(b)) <= i64::MAX,
    ensures
        ({
            let c = arith_view(ArithOp::Mul, a, b);
            &&& c.0 == VarType::I32 || c.0 == VarType::I64
            &&& is_number(c)
            &&& var_i64(c) == var_i64(a) * var_i64(b)
        }),
{
    let x = var_i64(a) * var_i64(b);
    law_int_arith_exact(ArithOp::Mul, a, b);
    if a.0 == VarType::I32 && b.0 == VarType::I32 && i32::MIN <= x <= i32::MAX {
        lemma_int_value_back(x, VarType::I32);
    } else {
        lemma_int_value_back(x, VarType::I64);
    }
}

proof fn lemma_power_steps_exact(base: (VarType, Seq<u8>), ret: (VarType, Seq<u8>), e: nat)
    requires
        is_number(base),
        is_number(ret),
        base.0 == VarType::I32 || base.0 == VarType::I64,
        ret.0 == VarType::I32 || ret.0 == VarType::I64,
        var_i64(ret) != 0 || var_i64(base) == 0,
        iabs(var_i64(ret) as int) * pow(iabs(var_i64(base) as int), e) <= i64::MAX,
    ensures
        power_steps(base, ret, e) matches Some(y) && (y.0 == VarType::I32 || y.0 == VarType::I64) && is_number(y)
            && var_i64(y) == var_i64(ret) * pow(var_i64(base) as int, e),
    decreases e,
{
    reveal_with_fuel(pow, 3);
    let bv = var_i64(base) as int;
    let rv = var_i64(ret) as int;
    let ab = iabs(bv);
    let ar = iabs(rv);
    if e == 0 {
        assert(pow(bv, 0) == 1);
    } else {
        let h = e / 2;
        let o = e % 2;
        assert(e == 2 * h + o);
        lemma_pow_adds(ab, 2 * h, o);
        lemma_pow_multiplies(ab, 2, h);
        lemma_pow_adds(bv, 2 * h, o);
        lemma_pow_multiplies(bv, 2, h);
        assert(pow(bv, 2) == bv * bv) by { assert(pow(bv, 1) == bv * pow(bv, 0)); }
        assert(pow(ab, 2) == ab * ab) by { assert(pow(ab, 1) == ab * pow(ab, 0)); }
        lemma_iabs_mul(bv, bv);
        lemma_iabs_mul(rv, bv);
        if ab > 0 {
            lemma_pow_positive(ab, 2 * h);
            lemma_pow_positive(ab, o);
        }
        // the product taken at an odd step fits
        let r2 = if o == 1 { arith_view(ArithOp::Mul, ret, base) } else { ret };
        if o == 1 {
            assert(pow(ab, 1) == ab) by { assert(pow(ab, 1) == ab * pow(ab, 0)); }
            if ab > 0 {
                assert(ar * ab <= ar * pow(ab, e)) by (nonlinear_arith)
                    requires pow(ab, e) == pow(ab, 2 * h) * ab, pow(ab, 2 * h) > 0, ar >= 0, ab > 0;
            } else {
                assert(ar * ab == 0);
            }
            lemma_int_product(ret, base);
        }
        let rv2 = var_i64(r2) as int;
        assert(rv2 == rv * pow(bv, o)) by {
            if o == 1 {
                assert(pow(bv, 1) == bv * pow(bv, 0));
            } else {
                assert(pow(bv, 0) == 1);
            }
        }
        let b2 = arith_view(ArithOp::Mul, base, base);
        if h == 0 {
            assert(power_steps(b2, r2, 0) == Some(r2));
            assert(pow(bv, e) == pow(bv, o)) by {
                assert(pow(bv, 0) == 1);
                assert(pow(pow(bv, 2), 0) == 1);
            }
        } else {
            // the square fits: it is at most the magnitude of the result
            if ab > 0 {
                assert(ar >= 1);
                lemma_pow_positive(ab, 2);
                lemma_pow_positive(ab, (2 * h - 2) as nat);
                lemma_pow_adds(ab, 2, (2 * h - 2) as nat);
                assert(pow(ab, 2 * h) == pow(ab, 2) * pow(ab, (2 * h - 2) as nat));
                assert(ab * ab <= ar * pow(ab, e)) by (nonlinear_arith)
                    requires pow(ab, e) == pow(ab, 2 * h) * pow(ab, o), pow(ab, 2 * h) == (ab * ab) * pow(ab, (2 * h - 2) as nat),
                        pow(ab, (2 * h - 2) as nat) >= 1, pow(ab, o) >= 1, ar >= 1, ab > 0;
            } else {
                assert(ab * ab == 0);
            }
            lemma_int_product(base, base);
            let bv2 = var_i64(b2) as int;
            assert(bv2 == bv * bv);
            let ab2 = iabs(bv2);
            assert(ab2 == ab * ab);
            assert(iabs(rv2) == ar * pow(ab, o)) by {
                lemma_iabs_mul(rv, pow(bv, o));
                lemma_pow_abs(bv, o);
            }
            assert(pow(ab2, h) == pow(ab, 2 * h));
            assert(iabs(rv2) * pow(ab2, h) <= i64::MAX) by (nonlinear_arith)
                requires iabs(rv2) == ar * pow(ab, o), pow(ab2, h) == pow(ab, 2 * h), pow(ab, e) == pow(ab, 2 * h) * pow(ab, o),
                    ar * pow(ab, e) <= i64::MAX;
            assert(rv2 != 0 || bv2 == 0) by {
                if bv != 0 {
                    assert(rv != 0);
                    lemma_pow_positive(ab, o);
                    lemma_pow_abs(bv, o);
                    assert(iabs(pow(bv, o)) > 0);
                    assert(rv * pow(bv, o) != 0) by (nonlinear_arith)
                        requires rv != 0, pow(bv, o) != 0;
                } else {
                    assert(bv * bv == 0);
                }
            }
            lemma_power_steps_exact(b2, r2, h);
            assert(pow(bv2, h) == pow(bv, 2 * h));
            assert(rv2 * pow(bv2, h) == rv * pow(bv, e)) by (nonlinear_arith)
                requires rv2 == rv * pow(bv, o), pow(bv2, h) == pow(bv, 2 * h), pow(bv, e) == pow(bv, 2 * h) * pow(bv, o);
        }
    }
}

/// Integer powers are exact (the `^` operator): an integer `x` to the power `n` whose value fits
/// an `i64` is the integer `x^n`, whatever order the squarings take.
pub proof fn law_int_power_exact(x: (VarType, Seq<u8>), n: nat)
    requires
        is_number(x),
        x.0 == VarType::I32 || x.0 == VarType::I64,
        iabs(pow(var_i64(x) as int, n)) <= i64::MAX,
    ensures
        power_steps(x, (VarType::I32, i32_le(1i32)), n) matches Some(y) && (y.0 == VarType::I32 || y.0 == VarType::I64)
            && var_i64(y) == pow(var_i64(x) as int, n),
{
    let one = (VarType::I32, i32_le(1i32));
    lemma_int_value_back(1, VarType::I32);
    lemma_pow_abs(var_i64(x) as int, n);
    assert(var_i64(one) == 1);
    let o = var_i64(one) as int;
    let pw = pow(iabs(var_i64(x) as int), n);
    assert(o == 1);
    assert(iabs(o) == 1);
    assert(1 * pw == pw);
    assert(iabs(o) * pw == pw);
    lemma_power_steps_exact(x, one, n);
    assert(1 * pow(var_i64(x) as int, n) == pow(var_i64(x) as int, n));
}

} // verus!
