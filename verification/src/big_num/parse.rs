//! Reading numbers written in decimal, with an optional fraction and a scientific exponent.
use vstd::prelude::*;
use vstd::arithmetic::power2::*;
use vstd::string::StringSliceAdditionalSpecFns;
use crate::big_num::uint::{BigUint, dec_value, all_digits, lemma_dec_value_bound};
use crate::big_num::ubits::lemma_canonical_len;
use crate::big_num::decimal::{pow10, lemma_pow10_bound};
use crate::big_num::ubits::{nat_bit_len, lemma_bit_len_le};
use crate::big_num::num::{BigNum, NumView, add_spec, mul_spec, div_spec, one_view, finite, roomy,
    lemma_div_ok_finite};

verus! {

/// Index of the first byte equal to `x` or `y`, or the length when there is none.
pub open spec fn find2(b: Seq<u8>, x: u8, y: u8) -> nat
    decreases b.len(),
{
    if b.len() == 0 {
        0
    } else if b[0] == x || b[0] == y {
        0
    } else {
        1 + find2(b.skip(1), x, y)
    }
}

/// The text after a leading minus sign.
pub open spec fn unsigned_part(b: Seq<u8>) -> Seq<u8> {
    if b.len() > 0 && b[0] == 45 { b.skip(1) } else { b }
}

/// The part before the exponent marker `e` or `E`.
pub open spec fn mantissa(b: Seq<u8>) -> Seq<u8> {
    let u = unsigned_part(b);
    u.take(find2(u, 101, 69) as int)
}

/// Whether there is an exponent marker.
pub open spec fn has_exp(b: Seq<u8>) -> bool {
    let u = unsigned_part(b);
    find2(u, 101, 69) < u.len()
}

/// The text after the exponent marker.
pub open spec fn exponent(b: Seq<u8>) -> Seq<u8> {
    let u = unsigned_part(b);
    u.skip(find2(u, 101, 69) + 1int)
}

/// The digits before the point.
pub open spec fn int_digits(b: Seq<u8>) -> Seq<u8> {
    let m = mantissa(b);
    m.take(find2(m, 46, 46) as int)
}

/// Whether there is a point.
pub open spec fn has_point(b: Seq<u8>) -> bool {
    let m = mantissa(b);
    find2(m, 46, 46) < m.len()
}

/// The digits after the point.
pub open spec fn frac_digits_of(b: Seq<u8>) -> Seq<u8> {
    let m = mantissa(b);
    m.skip(find2(m, 46, 46) + 1int)
}

/// Whether the exponent holds a `+` or `-`.
pub open spec fn exp_signed(b: Seq<u8>) -> bool {
    let e = exponent(b);
    find2(e, 43, 45) < e.len()
}

/// Whether the text is a number: a non-empty text, digits before the point, digits after it,
/// and an exponent whose sign, when it has one, comes first and is followed by digits.
pub open spec fn parse_ok(b: Seq<u8>) -> bool {
    &&& b.len() > 0
    &&& all_digits(int_digits(b))
    &&& (has_point(b) ==> all_digits(frac_digits_of(b)))
    &&& (has_exp(b) && exp_signed(b) ==> find2(exponent(b), 43, 45) == 0 && all_digits(exponent(b).skip(1)))
}

/// The texts whose exponent is read without a check: an exponent with no sign and a byte
/// that is no digit, the rest of the text well formed.
pub open spec fn exp_unchecked(b: Seq<u8>) -> bool {
    &&& b.len() > 0
    &&& all_digits(int_digits(b))
    &&& (has_point(b) ==> all_digits(frac_digits_of(b)))
    &&& has_exp(b)
    &&& !exp_signed(b)
    &&& !all_digits(exponent(b))
}

/// The value of the exponent's digits.
pub open spec fn exp_value(b: Seq<u8>) -> nat {
    if !has_exp(b) {
        0
    } else if exp_signed(b) {
        dec_value(exponent(b).skip(1))
    } else {
        dec_value(exponent(b))
    }
}

/// Whether the exponent is negative.
pub open spec fn exp_negative(b: Seq<u8>) -> bool {
    has_exp(b) && exp_signed(b) && exponent(b)[0] == 45
}

/// A nonnegative integer as a number.
pub open spec fn int_view(v: nat) -> NumView {
    NumView { sgn: 0, cff: v, exp: 0, inf: 0, nan: false }
}

/// The number a well formed text stands for, as `try_from_str` computes it: the integer part
/// plus the fraction (divided out with 255 decimal places), times the power of ten (divided out
/// with the exponent plus 15 places, at most 255), cut to 180 fraction bits.
pub open spec fn parse_value(b: Seq<u8>) -> NumView {
    let sgn: u8 = if b[0] == 45 { 1 } else { 0 };
    let whole = NumView { sgn, ..int_view(dec_value(int_digits(b))) };
    let l = if has_point(b) { frac_digits_of(b).len() } else { 0 };
    let d = if has_point(b) { dec_value(frac_digits_of(b)) } else { 0 };
    let frac = NumView { sgn, ..div_spec(int_view(d), int_view(pow10(l)), 255) };
    let e = exp_value(b);
    let scale = if !exp_negative(b) {
        int_view(pow10(e))
    } else {
        div_spec(one_view(), int_view(pow10(e)), if e <= 240 { e + 15 } else { 255 })
    };
    let m = mul_spec(add_spec(whole, frac, false), scale);
    let t = if m.exp <= 180 { m.exp } else { 180 };
    NumView { cff: m.cff / pow2((m.exp - t) as nat), exp: t, ..m }
}

proof fn lemma_find2(b: Seq<u8>, x: u8, y: u8, i: int)
    requires
        0 <= i <= b.len(),
        forall|j: int| 0 <= j < i ==> b[j] != x && b[j] != y,
        i == b.len() || b[i] == x || b[i] == y,
    ensures
        find2(b, x, y) == i,
    decreases b.len(),
{
    if b.len() > 0 && i > 0 {
        let t = b.skip(1);
        assert forall|j: int| 0 <= j < i - 1 implies t[j] != x && t[j] != y by {
            assert(t[j] == b[j + 1]);
        }
        lemma_find2(t, x, y, i - 1);
    }
}

/// First index in `b[from..to]` holding `x` or `y`, or `to`.
fn find_in(b: &[u8], from: usize, to: usize, x: u8, y: u8) -> (r: usize)
    requires
        from <= to <= b@.len(),
    ensures
        from <= r <= to,
        find2(b@.subrange(from as int, to as int), x, y) == r - from,
{
    let mut i = from;
    while i < to && b[i] != x && b[i] != y
        invariant
            from <= i <= to,
            to <= b@.len(),
            forall|j: int| from <= j < i ==> b@[j] != x && b@[j] != y,
        decreases to - i,
    {
        i = i + 1;
    }
    proof {
        let s = b@.subrange(from as int, to as int);
        assert forall|j: int| 0 <= j < i - from implies s[j] != x && s[j] != y by {
            assert(s[j] == b@[from + j]);
        }
        if i < to {
            assert(s[i - from] == b@[i as int]);
        }
        lemma_find2(s, x, y, i - from);
    }
    i
}

/// Whether `b[from..to]` is all digits.
fn digits_in(b: &[u8], from: usize, to: usize) -> (r: bool)
    requires
        from <= to <= b@.len(),
    ensures
        r == all_digits(b@.subrange(from as int, to as int)),
{
    let mut i = from;
    while i < to
        invariant
            from <= i <= to,
            to <= b@.len(),
            forall|j: int| from <= j < i ==> 48 <= #[trigger] b@[j] <= 57,
        decreases to - i,
    {
        if b[i] < 48 || b[i] > 57 {
            proof {
                let s = b@.subrange(from as int, to as int);
                assert(s[i - from] == b@[i as int]);
            }
            return false;
        }
        i = i + 1;
    }
    proof {
        let s = b@.subrange(from as int, to as int);
        assert forall|j: int| 0 <= j < s.len() implies 48 <= #[trigger] s[j] <= 57 by {
            assert(s[j] == b@[from + j]);
        }
    }
    true
}

/// The digits of `b[from..to]` as a number, with a bound on its words.
fn digits_value(b: &[u8], from: usize, to: usize) -> (r: BigUint)
    requires
        from <= to <= b@.len(),
        all_digits(b@.subrange(from as int, to as int)),
    ensures
        r@ == dec_value(b@.subrange(from as int, to as int)),
        r.words().len() <= 4 * (to - from) as nat / 64 + 1,
{
    let s = vstd::slice::slice_subrange(b, from, to);
    let r = BigUint::from_decimal_bytes(s);
    proof {
        lemma_dec_value_bound(s@);
        use_type_invariant(&r);
        BigUint::lemma_wf(&r);
        lemma_canonical_len(r.words(), 4 * (to - from) as nat);
    }
    r
}

/// Where the parts of a text lie, given the positions of its markers.
proof fn lemma_parts(b: Seq<u8>, start: int, ei: int, di: int)
    requires
        b.len() > 0,
        start == if b[0] == 45 { 1int } else { 0int },
        start <= di <= ei <= b.len(),
        find2(b.subrange(start, b.len() as int), 101, 69) == ei - start,
        find2(b.subrange(start, ei), 46, 46) == di - start,
    ensures
        unsigned_part(b) == b.subrange(start, b.len() as int),
        mantissa(b) == b.subrange(start, ei),
        int_digits(b) == b.subrange(start, di),
        has_point(b) <==> di < ei,
        di < ei ==> frac_digits_of(b) == b.subrange(di + 1, ei),
        has_exp(b) <==> ei < b.len(),
        ei < b.len() ==> exponent(b) == b.subrange(ei + 1, b.len() as int),
{
    let n = b.len() as int;
    let u = unsigned_part(b);
    assert(u =~= b.subrange(start, n));
    assert(mantissa(b) =~= b.subrange(start, ei));
    assert(int_digits(b) =~= b.subrange(start, di));
    if di < ei {
        assert(frac_digits_of(b) =~= b.subrange(di + 1, ei));
    }
    if ei < n {
        assert(exponent(b) =~= b.subrange(ei + 1, n));
    }
}

/// The markers of a well formed text: where the unsigned part starts, the point, the exponent
/// marker and the exponent's digits, and whether the exponent is negative.
fn split_number(bytes: &[u8]) -> (r: Result<(usize, usize, usize, usize, bool), ()>)
    requires
        !exp_unchecked(bytes@),
    ensures
        r is Ok <==> parse_ok(bytes@),
        r matches Ok((start, di, ei, e_from, e_neg)) ==> {
            &&& start == if bytes@[0] == 45 { 1int } else { 0int }
            &&& start <= di <= ei <= e_from <= bytes@.len()
            &&& int_digits(bytes@) == bytes@.subrange(start as int, di as int)
            &&& (has_point(bytes@) <==> di < ei)
            &&& (di < ei ==> frac_digits_of(bytes@) == bytes@.subrange(di + 1, ei as int))
            &&& (has_exp(bytes@) <==> ei < bytes@.len())
            &&& (ei < bytes@.len() ==> e_from > ei)
            &&& exp_value(bytes@) == dec_value(bytes@.subrange(e_from as int, bytes@.len() as int))
            &&& all_digits(bytes@.subrange(e_from as int, bytes@.len() as int))
            &&& e_neg == exp_negative(bytes@)
        },
{
    let ghost b = bytes@;
    let n = bytes.len();
    if n == 0 {
        return Err(());
    }
    let start: usize = if bytes[0] == 45 { 1 } else { 0 };
    let ei = find_in(bytes, start, n, 101, 69);
    let di = find_in(bytes, start, ei, 46, 46);
    proof {
        lemma_parts(b, start as int, ei as int, di as int);
    }
    if !digits_in(bytes, start, di) {
        return Err(());
    }
    if di < ei && !digits_in(bytes, di + 1, ei) {
        return Err(());
    }
    if ei == n {
        proof {
            assert(b.subrange(n as int, n as int) =~= Seq::<u8>::empty());
            assert(dec_value(Seq::<u8>::empty()) == 0);
        }
        return Ok((start, di, ei, n, false));
    }
    let si = find_in(bytes, ei + 1, n, 43, 45);
    if si < n {
        if si != ei + 1 {
            proof {
                assert(exponent(b) == b.subrange(ei + 1, n as int));
                assert(find2(exponent(b), 43, 45) == si - ei - 1);
                assert(exp_signed(b));
                assert(has_exp(b));
                assert(!parse_ok(b));
            }
            return Err(());
        }
        proof {
            assert(exponent(b).skip(1) =~= b.subrange(ei + 2, n as int));
            assert(exponent(b)[0] == b[si as int]);
            assert(find2(exponent(b), 43, 45) == 0);
            assert(exp_signed(b));
        }
        if !digits_in(bytes, ei + 2, n) {
            return Err(());
        }
        return Ok((start, di, ei, ei + 2, bytes[si] == 45));
    }
    proof {
        assert(all_digits(exponent(b)));
    }
    Ok((start, di, ei, ei + 1, false))
}

/// The number of a well formed text from the places of its parts.
#[verifier::rlimit(30)]
fn assemble(bytes: &[u8], start: usize, di: usize, ei: usize, e_from: usize, e_neg: bool) -> (m: BigNum)
    requires
        parse_ok(bytes@),
        start == if bytes@[0] == 45 { 1int } else { 0int },
        start <= di <= ei <= e_from <= bytes@.len(),
        int_digits(bytes@) == bytes@.subrange(start as int, di as int),
        has_point(bytes@) <==> di < ei,
        di < ei ==> frac_digits_of(bytes@) == bytes@.subrange(di + 1, ei as int),
        exp_value(bytes@) == dec_value(bytes@.subrange(e_from as int, bytes@.len() as int)),
        all_digits(bytes@.subrange(e_from as int, bytes@.len() as int)),
        e_neg == exp_negative(bytes@),
        4 * (bytes@.len() + exp_value(bytes@)) + 0x4000 <= u32::MAX,
        usize::MAX == u64::MAX,
    ensures
        m@ == parse_value(bytes@),
        finite(m@),
        m.cff_len() <= 0x4000_0000,
{
    let n = bytes.len();
    let sgn: u8 = if start == 1 { 1 } else { 0 };
    let whole = BigNum::from_parts(sgn, digits_value(bytes, start, di), 0, 0, false);
    let has_point = di < ei;
    let l: u32 = if has_point { (ei - di - 1) as u32 } else { 0 };
    let d = if has_point { digits_value(bytes, di + 1, ei) } else { BigUint::new() };
    let den = BigUint::ten_pow_u32(l);
    proof {
        lemma_pow10_bound(l as nat);
        lemma_bit_len_le(den@, 4 * l as nat + 1);
        lemma_div_ok_finite(int_view(d@), int_view(den@), 255);
    }
    let mut frac = BigNum::from_biguint(d).div_with_precision(&BigNum::from_biguint(den), 255);
    frac.set_sign(sgn);
    let e_big = digits_value(bytes, e_from, n);
    let e: u32 = match e_big.to_u32() {
        Some(x) => x,
        None => {
            proof { assert(false); }
            0
        },
    };
    let pe = BigUint::ten_pow_u32(e);
    proof {
        lemma_pow10_bound(e as nat);
        lemma_bit_len_le(pe@, 4 * e as nat + 1);
        lemma_pow10_bound(0);
        lemma_div_ok_finite(one_view(), int_view(pe@), if e <= 240 { e as nat + 15 } else { 255 });
    }
    let scale = if !e_neg {
        BigNum::from_biguint(pe)
    } else {
        let prec: u8 = if e <= 240 { (e + 15) as u8 } else { 255 };
        BigNum::from_u64(1).div_with_precision(&BigNum::from_biguint(pe), prec)
    };
    let sum = whole.add(&frac);
    let mut m = sum.mul(&scale);
    m.trunc_with_precision(180);
    m
}

impl BigNum {
    /// Reads a number: an optional `-`, digits, optionally a point and more digits, optionally
    /// `e` or `E`, a sign and digits (see `parse_ok` and `parse_value`).
    pub fn try_from_str(value: &str) -> (r: Result<BigNum, ()>)
        requires
            !exp_unchecked(value.spec_bytes()),
            4 * (value.spec_bytes().len() + exp_value(value.spec_bytes())) + 0x4000 <= u32::MAX,
            usize::MAX == u64::MAX,
        ensures
            r is Ok <==> parse_ok(value.spec_bytes()),
            r matches Ok(x) ==> x@ == parse_value(value.spec_bytes()) && finite(x@) && x.cff_len() <= 0x4000_0000,
    {
        let bytes = value.as_bytes();
        match split_number(bytes) {
            Ok((start, di, ei, e_from, e_neg)) => Ok(assemble(bytes, start, di, ei, e_from, e_neg)),
            Err(_) => Err(()),
        }
    }
}


/// The exponent's digits: the text after the marker without a leading sign.
pub open spec fn exp_digits(b: Seq<u8>) -> Seq<u8> {
    let e = exponent(b);
    if e.len() > 0 && (e[0] == 43 || e[0] == 45) { e.skip(1) } else { e }
}

/// A text that `literal_in_range` accepts: empty, or at most `2^28` bytes with no exponent or
/// an exponent of digits whose value is at most `2^28` and leaves room in a `u32`.
pub open spec fn literal_fits(b: Seq<u8>) -> bool {
    ||| b.len() == 0
    ||| {
        &&& b.len() <= 0x1000_0000
        &&& has_exp(b) ==> {
            &&& all_digits(exp_digits(b))
            &&& dec_value(exp_digits(b)) <= 0x1000_0000
            &&& 4 * (b.len() + dec_value(exp_digits(b))) + 0x4000 <= u32::MAX
        }
    }
}

/// Whether a text can be read without a check on its exponent (see `literal_fits`): when
/// this holds, the exponent is well formed and small enough for `try_from_str` (its
/// requirements hold).
pub fn literal_in_range(value: &str) -> (r: bool)
    ensures
        r == literal_fits(value.spec_bytes()),
        r ==> !exp_unchecked(value.spec_bytes()),
        r ==> 4 * (value.spec_bytes().len() + exp_value(value.spec_bytes())) + 0x4000 <= u32::MAX,
{
    let bytes = value.as_bytes();
    let ghost b = bytes@;
    let n = bytes.len();
    if n == 0 {
        return true;
    }
    if n > 0x1000_0000 {
        return false;
    }
    let start: usize = if bytes[0] == 45 { 1 } else { 0 };
    let ei = find_in(bytes, start, n, 101, 69);
    let di = find_in(bytes, start, ei, 46, 46);
    proof {
        lemma_parts(b, start as int, ei as int, di as int);
    }
    if ei == n {
        return true;
    }
    proof {
        assert(exponent(b) == b.subrange(ei + 1, n as int));
    }
    let signed = ei + 1 < n && (bytes[ei + 1] == 43 || bytes[ei + 1] == 45);
    let from = if signed { ei + 2 } else { ei + 1 };
    proof {
        if signed {
            assert(exp_digits(b) =~= b.subrange(from as int, n as int));
        } else {
            assert(exp_digits(b) =~= b.subrange(from as int, n as int));
        }
    }
    if !digits_in(bytes, from, n) {
        return false;
    }
    proof {
        if signed {
            assert(exponent(b)[0] == b[ei + 1]);
            assert(find2(exponent(b), 43, 45) == 0);
            assert(exponent(b).skip(1) =~= b.subrange(from as int, n as int));
        } else {
            assert(exponent(b) =~= b.subrange(from as int, n as int));
            assert forall|j: int| 0 <= j < exponent(b).len() implies exponent(b)[j] != 43 && exponent(b)[j] != 45 by {
                assert(48 <= exponent(b)[j] <= 57);
            }
            lemma_find2(exponent(b), 43, 45, exponent(b).len() as int);
        }
    }
    let v = digits_value(bytes, from, n);
    match v.to_u32() {
        Some(e) => (e as u64) <= 0x1000_0000 && 4 * ((n as u64) + (e as u64)) + 0x4000 <= 0xFFFF_FFFF,
        None => false,
    }
}

} // verus!
