//! Signed binary fractions `(+/-) cff * 2^(-exp)` with infinities and NaN.
use vstd::prelude::*;
use vstd::arithmetic::power2::*;
use vstd::arithmetic::mul::*;
use vstd::arithmetic::div_mod::*;
use vstd::std_specs::cmp::PartialEqSpecImpl;
use crate::big_num::ubits::{UintBits, lemma_canonical_len, le_byte, le_word, words_for_bytes};
use crate::big_num::words::{words_val, is_shrunk};
use crate::big_num::uint::{BigUint, prec_bits, quotient, remainder, dec_digits, lemma_dec_digits_ascii};
use crate::big_num::decimal::{pow10, lemma_pow10_bound};
use crate::text::{ascii_chars, ascii_to_string};
use crate::big_num::ubits::{nat_bit_len, lemma_nat_bit_len_bounds, lemma_bit_len_le};

verus! {

/// A number `(+/-) cff * 2^(-exp)`, or an infinity (`inf` nonzero, sign in `inf`), or NaN.
///
/// `sgn` is 0 for positive and 1 for negative; `inf` is 0, 1 or -1 for the values the
/// constructors make.
#[derive(Debug)]
pub struct BigNum {
    sgn: u8,
    cff: BigUint,
    exp: u32,
    inf: i8,
    nan: bool,
}

/// The fields of a number, the coefficient as a natural number.
pub struct NumView {
    pub sgn: u8,
    pub cff: nat,
    pub exp: nat,
    pub inf: i8,
    pub nan: bool,
}

/// Room for the coefficient's words to grow by a shift of up to `2^32` bits and still count
/// bits in a `usize`.
pub open spec fn roomy(len: nat) -> bool {
    len * 64 + 0x100_0000_0000 <= usize::MAX
}

/// The sign of an `i8`.
pub open spec fn signum(x: int) -> i8 {
    if x > 0 {
        1i8
    } else if x < 0 {
        -1i8
    } else {
        0i8
    }
}

/// The coefficient scaled to exponent `e` (at least the number's own).
pub open spec fn aligned(v: NumView, e: nat) -> nat {
    v.cff * pow2((e - v.exp) as nat)
}

/// The larger exponent of two numbers.
pub open spec fn max_exp(a: NumView, b: NumView) -> nat {
    if a.exp >= b.exp {
        a.exp
    } else {
        b.exp
    }
}

/// Whether a number is neither NaN nor infinite.
pub open spec fn finite(v: NumView) -> bool {
    !v.nan && v.inf == 0
}

/// Equality as `==` on numbers decides it.
pub open spec fn num_eq(a: NumView, b: NumView) -> bool {
    if a.nan || b.nan {
        a.nan && b.nan
    } else if a.inf != 0 || b.inf != 0 {
        a.inf == b.inf
    } else if a.cff == 0 && b.cff == 0 {
        true
    } else if a.sgn != b.sgn {
        false
    } else {
        aligned(a, max_exp(a, b)) == aligned(b, max_exp(a, b))
    }
}

/// Three-way comparison as the ordering of numbers decides it: `-1`, `0` or `1`.
///
/// NaN compares equal to everything; infinities compare by their `inf` field.
pub open spec fn num_cmp(a: NumView, b: NumView) -> int {
    if a.nan || b.nan {
        0
    } else if a.inf != 0 || b.inf != 0 {
        if a.inf < b.inf { -1 } else if a.inf == b.inf { 0 } else { 1 }
    } else if a.cff == 0 && b.cff == 0 {
        0
    } else if a.sgn < b.sgn {
        1
    } else if a.sgn > b.sgn {
        -1
    } else {
        let x = aligned(a, max_exp(a, b));
        let y = aligned(b, max_exp(a, b));
        let c: int = if x < y { -1 } else if x == y { 0 } else { 1 };
        if a.sgn == 0 { c } else { -c }
    }
}

/// The finite result of adding magnitudes (`add_mags`) or subtracting them, at the larger
/// exponent, taking the sign of the larger magnitude.
pub open spec fn combine(a: NumView, b: NumView, add_mags: bool) -> NumView {
    let e = max_exp(a, b);
    let x = aligned(a, e);
    let y = aligned(b, e);
    if add_mags {
        NumView { sgn: a.sgn, cff: x + y, exp: e, inf: a.inf, nan: a.nan }
    } else if x < y {
        NumView { sgn: a.sgn ^ 1u8, cff: (y - x) as nat, exp: e, inf: a.inf, nan: a.nan }
    } else {
        NumView { sgn: a.sgn, cff: (x - y) as nat, exp: e, inf: a.inf, nan: a.nan }
    }
}

/// The zero that a cancelled infinity or a vanishing product leaves.
pub open spec fn zeroed(a: NumView) -> NumView {
    NumView { sgn: 0, cff: 0, exp: 0, inf: 0, nan: a.nan }
}

/// `a` with another `inf`.
pub open spec fn with_inf(a: NumView, i: i8) -> NumView {
    NumView { inf: i, ..a }
}

/// `a` marked NaN.
pub open spec fn with_nan(a: NumView) -> NumView {
    NumView { nan: true, ..a }
}

/// The sum, or with `sub` the difference, as `+=` and `-=` compute them.
pub open spec fn add_spec(a: NumView, b: NumView, sub: bool) -> NumView {
    if a.nan || b.nan {
        with_nan(a)
    } else if a.inf != 0 || b.inf != 0 {
        let i = if sub { signum(a.inf - b.inf) } else { signum(a.inf + b.inf) };
        if i == 0 { zeroed(a) } else { with_inf(a, i) }
    } else if sub {
        combine(a, b, a.sgn ^ b.sgn == 1)
    } else {
        combine(a, b, a.sgn ^ b.sgn == 0)
    }
}

/// The product as `*=` computes it.
pub open spec fn mul_spec(a: NumView, b: NumView) -> NumView {
    if a.nan || b.nan {
        with_nan(a)
    } else if a.inf != 0 && b.inf != 0 {
        with_inf(a, signum(a.inf * b.inf))
    } else if a.inf != 0 || b.inf != 0 {
        if a.cff == 0 && a.inf == 0 {
            a
        } else if b.cff == 0 && b.inf == 0 {
            zeroed(a)
        } else if a.inf != 0 {
            with_inf(a, if b.sgn == 0 { a.inf } else { (-a.inf) as i8 })
        } else {
            with_inf(a, if a.sgn == 0 { b.inf } else { (-b.inf) as i8 })
        }
    } else {
        NumView { sgn: a.sgn ^ b.sgn, cff: a.cff * b.cff, exp: a.exp + b.exp, inf: a.inf, nan: a.nan }
    }
}

/// No `i8` overflow on the infinity fields in `+=` (or `-=` with `sub`).
pub open spec fn add_ok(a: NumView, b: NumView, sub: bool) -> bool {
    !(a.nan || b.nan) && (a.inf != 0 || b.inf != 0) ==> {
        let s = if sub { a.inf - b.inf } else { a.inf + b.inf };
        -128 <= s <= 127
    }
}

/// No overflow in `*=`: on the infinity fields and on the sum of the exponents.
pub open spec fn mul_ok(a: NumView, b: NumView) -> bool {
    !(a.nan || b.nan) ==> {
        &&& (a.inf != 0 && b.inf != 0 ==> -128 <= a.inf * b.inf <= 127)
        &&& (a.inf != 0 && b.inf == 0 && !(b.cff == 0) && b.sgn != 0 ==> a.inf != -128)
        &&& (a.inf == 0 && b.inf != 0 && !(a.cff == 0) && a.sgn != 0 ==> b.inf != -128)
        &&& (a.inf == 0 && b.inf == 0 ==> a.exp + b.exp <= u32::MAX)
    }
}

/// The integer part toward zero of a finite number, as `trunc` gives it.
pub open spec fn trunc_view(v: NumView) -> NumView {
    NumView { cff: v.cff / pow2(v.exp), exp: 0, ..v }
}

/// The number one.
pub open spec fn one_view() -> NumView {
    NumView { sgn: 0, cff: 1, exp: 0, inf: 0, nan: false }
}

/// Drops trailing zero bits of a nonzero `d`, one binary place each, while places `t` remain.
pub open spec fn strip(d: nat, t: nat) -> (nat, nat)
    decreases t,
{
    if d > 0 && d % 2 == 0 && t > 0 {
        strip(d / 2, (t - 1) as nat)
    } else {
        (d, t)
    }
}

/// The fraction bits that division by `b` keeps of a remainder `r`: the binary digits of
/// `r / b` for `precision` decimal places, before trailing zeros are dropped.
pub open spec fn frac_base(r: nat, b: nat, precision: nat) -> nat {
    (nat_bit_len(b) - nat_bit_len(r) + prec_bits(precision)) as nat
}

/// The quotient as `div_assign_with_precision` computes it.
pub open spec fn div_spec(a: NumView, b: NumView, precision: nat) -> NumView {
    if a.nan || b.nan {
        with_nan(a)
    } else if a.inf != 0 && b.inf != 0 {
        NumView { sgn: if a.inf * b.inf >= 0 { 0u8 } else { 1u8 }, cff: 1, exp: 0, inf: 0, nan: a.nan }
    } else if a.inf != 0 || b.inf != 0 {
        if b.cff == 0 && b.inf == 0 {
            a
        } else if a.inf != 0 {
            with_inf(a, if b.sgn == 0 { a.inf } else { (-a.inf) as i8 })
        } else {
            zeroed(a)
        }
    } else if b.cff == 0 {
        if a.cff == 0 {
            with_nan(a)
        } else {
            with_inf(a, if a.sgn ^ b.sgn == 0 { 1i8 } else { -1i8 })
        }
    } else {
        let sgn = a.sgn ^ b.sgn;
        let q = a.cff / b.cff;
        let r = a.cff % b.cff;
        if r == 0 {
            if a.exp > b.exp {
                NumView { sgn, cff: q, exp: (a.exp - b.exp) as nat, ..a }
            } else {
                NumView { sgn, cff: q * pow2((b.exp - a.exp) as nat), exp: 0, ..a }
            }
        } else {
            let base = frac_base(r, b.cff, precision);
            let st = strip(r * pow2(base) / b.cff, base);
            let d = st.0;
            let t = st.1;
            let c = q * pow2(t) + d;
            if a.exp + t > b.exp {
                NumView { sgn, cff: c, exp: (a.exp + t - b.exp) as nat, ..a }
            } else {
                NumView { sgn, cff: c * pow2((b.exp - a.exp - t) as nat), exp: 0, ..a }
            }
        }
    }
}

/// No overflow or endless stripping in `div_assign_with_precision`.
pub open spec fn div_ok(a: NumView, b: NumView, precision: nat) -> bool {
    !(a.nan || b.nan) ==> {
        &&& (a.inf != 0 && b.inf != 0 ==> -128 <= a.inf * b.inf <= 127)
        &&& (a.inf != 0 && b.inf == 0 && b.cff != 0 && b.sgn != 0 ==> a.inf != -128)
        &&& (a.inf == 0 && b.inf == 0 && b.cff != 0 && a.cff % b.cff != 0 ==> {
                let r = a.cff % b.cff;
                let base = frac_base(r, b.cff, precision);
                &&& r * pow2(base) / b.cff > 0
                &&& a.exp + base <= u32::MAX
            })
    }
}

/// The number rounded down to an integer, as `floor` gives it.
pub open spec fn floor_view(v: NumView) -> NumView {
    if !finite(v) {
        v
    } else if v.sgn == 0 || v.cff % pow2(v.exp) == 0 {
        trunc_view(v)
    } else {
        add_spec(trunc_view(v), one_view(), true)
    }
}

/// The remainder as `rem_euclid` computes it: `a - floor(a / b) * b`, the quotient taken with
/// fifteen decimal places.
pub open spec fn rem_euclid_spec(a: NumView, b: NumView) -> NumView {
    add_spec(a, mul_spec(floor_view(div_spec(a, b, 15)), b), true)
}

/// The four little-endian bytes of a `u32`.
pub open spec fn u32_le(e: u32) -> Seq<u8> {
    seq![e as u8, (e >> 8u32) as u8, (e >> 16u32) as u8, (e >> 24u32) as u8]
}

/// The `u32` of four little-endian bytes.
pub open spec fn le_u32(b0: u8, b1: u8, b2: u8, b3: u8) -> u32 {
    (b0 as u32) | ((b1 as u32) << 8u32) | ((b2 as u32) << 16u32) | ((b3 as u32) << 24u32)
}

/// The canonical words of a natural number: at least one word, no high zero word.
pub open spec fn canon_words(v: nat) -> Seq<u64> {
    choose|s: Seq<u64>| s.len() >= 1 && is_shrunk(s) && words_val(s) == v
}

/// Canonical words are the canonical words of their value.
pub proof fn lemma_canon_words(s: Seq<u64>)
    requires
        s.len() >= 1,
        is_shrunk(s),
    ensures
        canon_words(words_val(s)) == s,
{
    let t = canon_words(words_val(s));
    assert(t.len() >= 1 && is_shrunk(t) && words_val(t) == words_val(s));
    crate::big_num::words::lemma_shrunk_unique(s, t);
}

/// The byte image of a number: sign, NaN flag, `inf + 1`, the exponent in four little-endian
/// bytes, then the coefficient's canonical words in little-endian bytes.
pub open spec fn num_bytes(v: NumView) -> Seq<u8> {
    let words = canon_words(v.cff);
    seq![v.sgn, if v.nan { 1u8 } else { 0u8 }, (v.inf + 1) as u8] + u32_le(v.exp as u32)
        + Seq::new(8 * words.len(), |j: int| le_byte(words, j))
}

/// The decimal digits of `v`, with leading zeros up to `n` digits.
pub open spec fn padded_digits(v: nat, n: nat) -> Seq<u8> {
    let d = dec_digits(v);
    if d.len() >= n {
        d
    } else {
        Seq::new((n - d.len()) as nat, |i: int| 48u8) + d
    }
}

/// A finite number rounded half up to `p` decimal places, scaled by `10^p`.
///
/// The fraction is first cut to `p + 1` decimal digits through a binary fraction of
/// `frac_base` bits; the last of those digits rounds.
pub open spec fn rounded_scaled(v: NumView, p: nat) -> nat {
    let e = pow2(v.exp);
    let whole = v.cff / e;
    let fr = v.cff % e;
    let base = frac_base(fr, e, p + 1);
    let d = fr * pow2(base) / e;
    let f = d * pow10(p + 1) / pow2(base);
    whole * pow10(p) + f / 10 + if f % 10 >= 5 { 1nat } else { 0nat }
}

/// The text `to_float_str` gives, as ASCII bytes.
pub open spec fn float_text(v: NumView, p: nat) -> Seq<u8> {
    if v.nan {
        seq![78u8, 97u8, 78u8]
    } else if v.inf > 0 {
        seq![43u8, 73u8, 78u8, 70u8]
    } else if v.inf < 0 {
        seq![45u8, 73u8, 78u8, 70u8]
    } else {
        let r = rounded_scaled(v, p);
        let sign = if v.sgn == 1 { seq![45u8] } else { Seq::<u8>::empty() };
        if p == 0 {
            sign + dec_digits(r)
        } else {
            sign + dec_digits(r / pow10(p)) + seq![46u8] + padded_digits(r % pow10(p), p)
        }
    }
}

/// The text of a number is ASCII.
pub proof fn lemma_float_text_ascii(v: NumView, p: nat)
    ensures
        crate::text::all_ascii(float_text(v, p)),
{
    let t = float_text(v, p);
    if !v.nan && v.inf == 0 {
        let r = rounded_scaled(v, p);
        lemma_dec_digits_ascii(r);
        lemma_dec_digits_ascii(r / pow10(p));
        lemma_dec_digits_ascii(r % pow10(p));
        let d = dec_digits(r % pow10(p));
        assert(forall|i: int| 0 <= i < padded_digits(r % pow10(p), p).len() ==> #[trigger] padded_digits(r % pow10(p), p)[i] < 128) by {
            assert forall|i: int| 0 <= i < padded_digits(r % pow10(p), p).len() implies #[trigger] padded_digits(r % pow10(p), p)[i] < 128 by {
                if d.len() < p && i >= p - d.len() {
                    assert(padded_digits(r % pow10(p), p)[i] == d[i - (p - d.len())]);
                }
            }
        }
        assert forall|i: int| 0 <= i < t.len() implies #[trigger] t[i] < 128 by {
            let sign = if v.sgn == 1 { seq![45u8] } else { Seq::<u8>::empty() };
            if p == 0 {
                if i >= sign.len() {
                    assert(t[i] == dec_digits(r)[i - sign.len()]);
                }
            } else {
                let a = dec_digits(r / pow10(p));
                if sign.len() <= i < sign.len() + a.len() {
                    assert(t[i] == a[i - sign.len()]);
                } else if i > sign.len() + a.len() {
                    assert(t[i] == padded_digits(r % pow10(p), p)[i - sign.len() - a.len() - 1]);
                }
            }
        }
    }
}

/// Stripping never adds places.
pub proof fn lemma_strip_le(d: nat, t: nat)
    ensures
        strip(d, t).1 <= t,
    decreases t,
{
    if d > 0 && d % 2 == 0 && t > 0 {
        lemma_strip_le(d / 2, (t - 1) as nat);
    }
}

/// Division of finite numbers with at least one decimal place neither strips forever nor
/// overflows when the exponents leave room; the quotient's exponent stays below the dividend's
/// plus the divisor's bit length plus the precision's bits.
pub proof fn lemma_div_ok_finite(a: NumView, b: NumView, p: nat)
    requires
        finite(a),
        finite(b),
        b.cff > 0,
        1 <= p <= 255,
        a.exp + nat_bit_len(b.cff) + 1024 <= u32::MAX,
    ensures
        div_ok(a, b, p),
        finite(div_spec(a, b, p)),
        div_spec(a, b, p).exp <= a.exp + nat_bit_len(b.cff) + 1024,
{
    let r = a.cff % b.cff;
    lemma_mod_bound(a.cff as int, b.cff as int);
    if r != 0 {
        let base = frac_base(r, b.cff, p);
        lemma_nat_bit_len_bounds(r);
        lemma_nat_bit_len_bounds(b.cff);
        lemma_bit_len_le(r, nat_bit_len(b.cff));
        let lr = nat_bit_len(r);
        let lb = nat_bit_len(b.cff);
        assert(prec_bits(p) >= 3);
        assert(prec_bits(p) <= 1000) by {
            assert(p * 32192 / 65536 <= 255) by (nonlinear_arith)
                requires p <= 255;
        }
        // r * 2^base >= 2^(lr - 1) * 2^(lb - lr + 3) = 2^(lb + 2) > b
        lemma_pow2_adds((lr - 1) as nat, base);
        assert((lr - 1) as nat + base >= lb + 2);
        if (lr - 1) as nat + base > lb + 2 {
            lemma_pow2_strictly_increases(lb + 2, (lr - 1) as nat + base);
        }
        lemma_pow2_strictly_increases(lb, lb + 2);
        lemma_mul_inequality(pow2((lr - 1) as nat) as int, r as int, pow2(base) as int);
        lemma_div_is_ordered(b.cff as int, (r * pow2(base)) as int, b.cff as int);
        lemma_div_by_self(b.cff as int);
        let st = strip(r * pow2(base) / b.cff, base);
        lemma_strip_le(r * pow2(base) / b.cff, base);
    }
}

/// A natural number as a number.
pub open spec fn nat_view(v: nat) -> NumView {
    NumView { sgn: 0, cff: v, exp: 0, inf: 0, nan: false }
}

impl View for BigNum {
    type V = NumView;

    closed spec fn view(&self) -> NumView {
        NumView { sgn: self.sgn, cff: self.cff@, exp: self.exp as nat, inf: self.inf, nan: self.nan }
    }
}

impl BigNum {
    /// Number of words of the coefficient.
    pub closed spec fn cff_len(&self) -> nat {
        self.cff.words().len()
    }

    /// The number made of its fields.
    pub fn from_parts(sgn: u8, cff: BigUint, exp: u32, inf: i8, nan: bool) -> (r: Self)
        ensures
            r@ == (NumView { sgn, cff: cff@, exp: exp as nat, inf, nan }),
            r.cff_len() == cff.words().len(),
    {
        BigNum { sgn, cff, exp, inf, nan }
    }

    /// The coefficient.
    pub fn coefficient(&self) -> (r: BigUint)
        ensures
            r@ == self@.cff,
            r.words().len() == self.cff_len(),
    {
        self.cff.copy()
    }

    /// Positive zero.
    pub fn new() -> (r: Self)
        ensures
            r@ == (NumView { sgn: 0, cff: 0, exp: 0, inf: 0, nan: false }),
            r.cff_len() == 1,
    {
        let cff = BigUint::new();
        proof {
            use_type_invariant(&cff);
            BigUint::lemma_wf(&cff);
            if cff.words().len() > 1 {
                crate::big_num::words::lemma_words_val_lower(cff.words());
                crate::big_num::words::lemma_wpow_succ(0);
                crate::big_num::words::lemma_wpow_mono(0, (cff.words().len() - 1) as nat);
            }
        }
        BigNum { sgn: 0, cff, exp: 0, inf: 0, nan: false }
    }

    /// The number `int + dec / 10^places` with the sign given, the fraction divided out with
    /// fifteen decimal places; of `int` only the low 64 bits are kept.
    pub fn from_float_parts(negative: bool, int_part: u128, dec: u64, places: u8) -> (r: Self)
        requires
            places <= 19,
            usize::MAX == u64::MAX,
        ensures
            r@ == (NumView {
                sgn: if negative { 1u8 } else { 0u8 },
                ..add_spec(nat_view(int_part as nat % pow2(64)),
                    div_spec(nat_view(dec as nat), nat_view(pow10(places as nat)), 15), false)
            }),
    {
        let whole = Self::from_biguint(BigUint::from_u128(int_part));
        let p10 = BigUint::ten_pow(places);
        proof {
            lemma_pow10_bound(places as nat);
            lemma_bit_len_le(p10@, 4 * places as nat + 1);
            lemma_div_ok_finite(nat_view(dec as nat), nat_view(p10@), 15);
        }
        let frac = Self::from_u64(dec).div_with_precision(&Self::from_biguint(p10), 15);
        let mut r = whole.add(&frac);
        r.sgn = if negative { 1 } else { 0 };
        r
    }

    /// Positive infinity.
    pub fn inf() -> (r: Self)
        ensures
            r@ == (NumView { sgn: 0, cff: 0, exp: 0, inf: 1, nan: false }),
            r.cff_len() == 1,
    {
        let mut r = Self::new();
        r.inf = 1;
        r
    }

    /// Negative infinity.
    pub fn neg_inf() -> (r: Self)
        ensures
            r@ == (NumView { sgn: 0, cff: 0, exp: 0, inf: -1i8, nan: false }),
            r.cff_len() == 1,
    {
        let mut r = Self::new();
        r.inf = -1;
        r
    }

    /// NaN (its `inf` field is -1).
    pub fn nan() -> (r: Self)
        ensures
            r@ == (NumView { sgn: 0, cff: 0, exp: 0, inf: -1i8, nan: true }),
            r.cff_len() == 1,
    {
        let mut r = Self::new();
        r.inf = -1;
        r.nan = true;
        r
    }

    /// The integer of an unsigned big integer.
    pub fn from_biguint(value: BigUint) -> (r: Self)
        ensures
            r@ == (NumView { sgn: 0, cff: value@, exp: 0, inf: 0, nan: false }),
            r.cff_len() == value.words().len(),
    {
        BigNum { sgn: 0, cff: value, exp: 0, inf: 0, nan: false }
    }

    /// The integer of a `u64`.
    pub fn from_u64(value: u64) -> (r: Self)
        ensures
            r@ == (NumView { sgn: 0, cff: value as nat, exp: 0, inf: 0, nan: false }),
            r.cff_len() == 1,
    {
        Self::from_biguint(BigUint::from_u64(value))
    }

    /// The number `from_i64` makes.
    pub open spec fn from_i64_view(value: i64) -> NumView {
        NumView {
            sgn: if value < 0 { 1u8 } else { 0u8 },
            cff: if value < 0 { (-value) as nat } else { value as nat },
            exp: 0,
            inf: 0,
            nan: false,
        }
    }

    /// The number `from_le_bytes` reads.
    pub open spec fn from_bytes_view(bytes: Seq<u8>) -> NumView {
        let rest = bytes.skip(7);
        NumView {
            sgn: bytes[0],
            cff: words_val(Seq::new(words_for_bytes(rest.len()), |k: int| le_word(rest, k))),
            exp: le_u32(bytes[3], bytes[4], bytes[5], bytes[6]) as nat,
            inf: ((bytes[2] as i8) - 1) as i8,
            nan: bytes[1] != 0,
        }
    }

    /// The integer of an `i64`.
    pub fn from_i64(value: i64) -> (r: Self)
        ensures
            r@ == Self::from_i64_view(value),
            r.cff_len() == 1,
    {
        let sgn: u8 = if value < 0 { 1 } else { 0 };
        let mag: u64 = if value < 0 {
            if value == i64::MIN { 0x8000_0000_0000_0000u64 } else { (-value) as u64 }
        } else {
            value as u64
        };
        BigNum { sgn, cff: BigUint::from_u64(mag), exp: 0, inf: 0, nan: false }
    }

    /// The integer of an `i32`.
    pub fn from_i32(value: i32) -> (r: Self)
        ensures
            r@ == (NumView {
                sgn: if value < 0 { 1u8 } else { 0u8 },
                cff: if value < 0 { (-value) as nat } else { value as nat },
                exp: 0,
                inf: 0,
                nan: false,
            }),
            r.cff_len() == 1,
    {
        Self::from_i64(value as i64)
    }

    /// Whether the number is neither NaN nor infinite.
    pub fn is_finite_number(&self) -> (r: bool)
        ensures
            r == finite(self@),
    {
        !self.nan && self.inf == 0
    }

    /// Whether the number is finite with no fraction bits.
    pub fn is_integer(&self) -> (r: bool)
        ensures
            r == (finite(self@) && self@.exp == 0),
    {
        self.is_finite_number() && self.exp == 0
    }

    /// Whether the number is a finite integer zero.
    pub fn is_zero(&self) -> (r: bool)
        ensures
            r == (finite(self@) && self@.exp == 0 && self@.cff == 0),
    {
        self.is_integer() && self.cff.is_zero()
    }

    /// Whether the number is negative: `-INF`, or a finite number with the negative sign.
    pub fn is_neg(&self) -> (r: bool)
        ensures
            r == if self@.inf != 0 { self@.inf == -1 } else { self@.sgn == 1 },
    {
        if self.inf != 0 {
            self.inf == -1
        } else {
            self.sgn == 1
        }
    }

    /// A copy.
    pub fn copy(&self) -> (r: Self)
        ensures
            r@ == self@,
            r.cff_len() == self.cff_len(),
    {
        BigNum { sgn: self.sgn, cff: self.cff.copy(), exp: self.exp, inf: self.inf, nan: self.nan }
    }

    /// The number with the opposite sign (an infinity flips its `inf`).
    pub fn neg(&self) -> (r: Self)
        requires
            self@.inf != -128,
        ensures
            r@ == if self@.inf != 0 { with_inf(self@, (-self@.inf) as i8) } else { NumView { sgn: self@.sgn ^ 1u8, ..self@ } },
            r.cff_len() == self.cff_len(),
    {
        let mut r = self.copy();
        if r.inf != 0 {
            r.inf = -r.inf;
        } else {
            r.sgn = r.sgn ^ 1;
        }
        r
    }

    /// The absolute value; NaN stays NaN.
    pub fn abs(&self) -> (r: Self)
        requires
            self@.inf != -128,
        ensures
            self@.nan ==> r@ == (NumView { sgn: 0, cff: 0, exp: 0, inf: -1i8, nan: true }),
            !self@.nan ==> r@ == (NumView { sgn: 0, inf: if self@.inf < 0 { (-self@.inf) as i8 } else { self@.inf }, ..self@ }),
            !self@.nan ==> r.cff_len() == self.cff_len(),
    {
        if self.nan {
            return Self::nan();
        }
        let mut r = self.copy();
        r.sgn = 0;
        r.inf = if r.inf < 0 { -r.inf } else { r.inf };
        r
    }

    /// The integer part, rounding toward zero; NaN and infinities stay as they are.
    pub fn trunc(&self) -> (r: Self)
        ensures
            !finite(self@) ==> r@ == self@,
            finite(self@) ==> r@ == (NumView { cff: self@.cff / pow2(self@.exp), exp: 0, ..self@ }),
            r.cff_len() <= self.cff_len(),
    {
        let mut r = self.copy();
        if !self.is_finite_number() {
            return r;
        }
        r.cff.shr_assign(self.exp as usize);
        r.exp = 0;
        r
    }

    /// Brings both numbers to the larger exponent by shifting the other's coefficient.
    fn align_exp(a: &mut Self, b: &mut Self)
        requires
            roomy(old(a).cff_len()),
            roomy(old(b).cff_len()),
        ensures
            ({
                let e = max_exp(old(a)@, old(b)@);
                &&& final(a)@ == (NumView { cff: aligned(old(a)@, e), exp: e, ..old(a)@ })
                &&& final(b)@ == (NumView { cff: aligned(old(b)@, e), exp: e, ..old(b)@ })
            }),
            final(a).cff_len() <= old(a).cff_len() + 0x400_0001,
            final(b).cff_len() <= old(b).cff_len() + 0x400_0001,
    {
        proof {
            lemma2_to64();
            assert(old(a)@.cff * pow2(0) == old(a)@.cff);
            assert(old(b)@.cff * pow2(0) == old(b)@.cff);
        }
        if a.exp == b.exp {
            return;
        }
        let target = if a.exp >= b.exp { a.exp } else { b.exp };
        a.cff.shl_assign((target - a.exp) as usize);
        b.cff.shl_assign((target - b.exp) as usize);
        a.exp = target;
        b.exp = target;
    }

    /// Adds or subtracts `rhs` as `+=` or `-=` do.
    fn add_signed(&mut self, rhs: &Self, sub: bool)
        requires
            roomy(old(self).cff_len()),
            roomy(rhs.cff_len()),
            add_ok(old(self)@, rhs@, sub),
        ensures
            final(self)@ == add_spec(old(self)@, rhs@, sub),
            final(self).cff_len() <= (if old(self).cff_len() >= rhs.cff_len() { old(self).cff_len() } else { rhs.cff_len() }) + 0x400_0002,
    {
        if self.nan || rhs.nan {
            self.nan = true;
            return;
        }
        if self.inf != 0 || rhs.inf != 0 {
            let s: i8 = if sub { self.inf - rhs.inf } else { self.inf + rhs.inf };
            self.inf = if s > 0 { 1 } else if s < 0 { -1 } else { 0 };
            if self.inf == 0 {
                let z = Self::new();
                self.sgn = 0;
                self.cff = z.cff;
                self.exp = 0;
            }
            return;
        }
        let mut r = rhs.copy();
        Self::align_exp(self, &mut r);
        let same = if sub { self.sgn ^ r.sgn == 1 } else { self.sgn ^ r.sgn == 0 };
        if same {
            self.cff.add_assign(&r.cff);
        } else if self.cff.compare(&r.cff) < 0 {
            self.sgn = self.sgn ^ 1;
            let d = r.cff.sub(&self.cff);
            self.cff = d;
        } else {
            self.cff.sub_assign(&r.cff);
        }
    }

    /// Adds `rhs`.
    pub fn add_assign(&mut self, rhs: &Self)
        requires
            roomy(old(self).cff_len()),
            roomy(rhs.cff_len()),
            add_ok(old(self)@, rhs@, false),
        ensures
            final(self)@ == add_spec(old(self)@, rhs@, false),
            final(self).cff_len() <= (if old(self).cff_len() >= rhs.cff_len() { old(self).cff_len() } else { rhs.cff_len() }) + 0x400_0002,
    {
        self.add_signed(rhs, false);
    }

    /// Subtracts `rhs`.
    pub fn sub_assign(&mut self, rhs: &Self)
        requires
            roomy(old(self).cff_len()),
            roomy(rhs.cff_len()),
            add_ok(old(self)@, rhs@, true),
        ensures
            final(self)@ == add_spec(old(self)@, rhs@, true),
            final(self).cff_len() <= (if old(self).cff_len() >= rhs.cff_len() { old(self).cff_len() } else { rhs.cff_len() }) + 0x400_0002,
    {
        self.add_signed(rhs, true);
    }

    /// The sum.
    pub fn add(&self, rhs: &Self) -> (r: Self)
        requires
            roomy(self.cff_len()),
            roomy(rhs.cff_len()),
            add_ok(self@, rhs@, false),
        ensures
            r@ == add_spec(self@, rhs@, false),
            r.cff_len() <= (if self.cff_len() >= rhs.cff_len() { self.cff_len() } else { rhs.cff_len() }) + 0x400_0002,
    {
        let mut r = self.copy();
        r.add_signed(rhs, false);
        r
    }

    /// The difference.
    pub fn sub(&self, rhs: &Self) -> (r: Self)
        requires
            roomy(self.cff_len()),
            roomy(rhs.cff_len()),
            add_ok(self@, rhs@, true),
        ensures
            r@ == add_spec(self@, rhs@, true),
            r.cff_len() <= (if self.cff_len() >= rhs.cff_len() { self.cff_len() } else { rhs.cff_len() }) + 0x400_0002,
    {
        let mut r = self.copy();
        r.add_signed(rhs, true);
        r
    }

    /// Multiplies by `rhs`.
    pub fn mul_assign(&mut self, rhs: &Self)
        requires
            roomy(old(self).cff_len()),
            roomy(rhs.cff_len()),
            mul_ok(old(self)@, rhs@),
        ensures
            final(self)@ == mul_spec(old(self)@, rhs@),
            final(self).cff_len() <= old(self).cff_len() + rhs.cff_len() + 1,
    {
        if self.nan || rhs.nan {
            self.nan = true;
            return;
        }
        if self.inf != 0 && rhs.inf != 0 {
            let p: i8 = self.inf * rhs.inf;
            self.inf = if p > 0 { 1 } else if p < 0 { -1 } else { 0 };
            return;
        }
        if self.inf != 0 || rhs.inf != 0 {
            if self.cff.is_zero() && self.inf == 0 {
                return;
            }
            if rhs.cff.is_zero() && rhs.inf == 0 {
                let z = Self::new();
                self.sgn = 0;
                self.cff = z.cff;
                self.exp = 0;
                self.inf = 0;
                return;
            }
            if self.inf != 0 {
                self.inf = if rhs.sgn == 0 { self.inf } else { -self.inf };
                return;
            }
            self.inf = if self.sgn == 0 { rhs.inf } else { -rhs.inf };
            return;
        }
        self.sgn = self.sgn ^ rhs.sgn;
        self.exp = self.exp + rhs.exp;
        self.cff.mul_assign(&rhs.cff);
    }

    /// The product.
    pub fn mul(&self, rhs: &Self) -> (r: Self)
        requires
            roomy(self.cff_len()),
            roomy(rhs.cff_len()),
            mul_ok(self@, rhs@),
        ensures
            r@ == mul_spec(self@, rhs@),
            r.cff_len() <= self.cff_len() + rhs.cff_len() + 1,
    {
        let mut r = self.copy();
        r.mul_assign(rhs);
        r
    }

    /// Whether the numbers are equal as `==` decides it (see `num_eq`).
    pub fn equals(&self, other: &Self) -> (r: bool)
        requires
            roomy(self.cff_len()),
            roomy(other.cff_len()),
        ensures
            r == num_eq(self@, other@),
    {
        if self.nan || other.nan {
            return self.nan && other.nan;
        }
        if self.inf != 0 || other.inf != 0 {
            return self.inf == other.inf;
        }
        if self.cff.is_zero() && other.cff.is_zero() {
            return true;
        }
        if self.sgn != other.sgn {
            return false;
        }
        let mut s = self.copy();
        let mut o = other.copy();
        Self::align_exp(&mut s, &mut o);
        s.cff.equals(&o.cff)
    }

    /// Three-way comparison as the ordering decides it (see `num_cmp`).
    pub fn compare(&self, other: &Self) -> (r: i8)
        requires
            roomy(self.cff_len()),
            roomy(other.cff_len()),
        ensures
            r == num_cmp(self@, other@),
    {
        if self.nan || other.nan {
            return 0;
        }
        if self.inf != 0 || other.inf != 0 {
            return if self.inf < other.inf { -1 } else if self.inf == other.inf { 0 } else { 1 };
        }
        if self.cff.is_zero() && other.cff.is_zero() {
            return 0;
        }
        if self.sgn < other.sgn {
            return 1;
        }
        if self.sgn > other.sgn {
            return -1;
        }
        let mut s = self.copy();
        let mut o = other.copy();
        Self::align_exp(&mut s, &mut o);
        let c = s.cff.compare(&o.cff);
        if self.sgn == 0 {
            c
        } else {
            -c
        }
    }

    /// Whether a coefficient of `n` words leaves the room that `roomy` asks for.
    pub fn is_roomy(n: usize) -> (r: bool)
        ensures
            r == roomy(n as nat),
    {
        let m = usize::MAX as u64;
        if m < 0x100_0000_0000u64 {
            false
        } else {
            (n as u64) <= (m - 0x100_0000_0000u64) / 64
        }
    }

    /// Number of words of the coefficient.
    pub fn cff_word_count(&self) -> (r: usize)
        ensures
            r == self.cff_len(),
    {
        self.cff.word_count()
    }

    /// Replaces the sign.
    pub fn set_sign(&mut self, sgn: u8)
        ensures
            final(self)@ == (NumView { sgn, ..old(self)@ }),
            final(self).cff_len() == old(self).cff_len(),
    {
        self.sgn = sgn;
    }

    /// The byte image (see `num_bytes`).
    pub fn to_le_bytes(&self) -> (r: Vec<u8>)
        requires
            self@.inf != 127,
            self.cff_len() * 8 + 7 <= usize::MAX,
        ensures
            r@ == num_bytes(self@),
    {
        proof {
            use_type_invariant(&self.cff);
            BigUint::lemma_wf(&self.cff);
            lemma_canon_words(self.cff.words());
        }
        let mut bytes: Vec<u8> = Vec::new();
        bytes.push(self.sgn);
        bytes.push(if self.nan { 1 } else { 0 });
        bytes.push((self.inf + 1) as u8);
        let e = self.exp;
        bytes.push(e as u8);
        bytes.push((e >> 8u32) as u8);
        bytes.push((e >> 16u32) as u8);
        bytes.push((e >> 24u32) as u8);
        let bits = self.cff.copy().into_bits();
        let mut cb = bits.to_le_bytes();
        let ghost head = bytes@;
        bytes.append(&mut cb);
        proof {
            assert(bytes@ =~= num_bytes(self@));
        }
        bytes
    }

    /// The number of a byte image (see `num_bytes`); the coefficient is read from every byte
    /// after the seventh.
    pub fn from_le_bytes(bytes: &[u8]) -> (r: Self)
        requires
            bytes@.len() > 8,
            bytes@.len() + 8 <= usize::MAX,
            bytes@[2] != 128,
        ensures
            r@ == Self::from_bytes_view(bytes@),
            r.cff_len() <= bytes@.len(),
            tame(r@) ==> r.cff_len() <= 0x4_0000,
    {
        let sgn = bytes[0];
        let nan = bytes[1] != 0;
        let b2 = bytes[2];
        assert((b2 as i8) > -128i8) by (bit_vector)
            requires b2 != 128u8;
        let inf: i8 = (b2 as i8) - 1;
        let exp: u32 = (bytes[3] as u32) | ((bytes[4] as u32) << 8u32) | ((bytes[5] as u32) << 16u32)
            | ((bytes[6] as u32) << 24u32);
        let rest = vstd::slice::slice_subrange(bytes, 7, bytes.len());
        let bits = UintBits::from_le_bytes(rest);
        proof {
            assert(rest@ =~= bytes@.skip(7));
            assert(bits@ =~= Seq::new(words_for_bytes(rest@.len()), |k: int| le_word(rest@, k)));
        }
        let cff = BigUint::from_bits(bits);
        proof {
            use_type_invariant(&cff);
            BigUint::lemma_wf(&cff);
            if cff@ < pow2(0x100_0000) {
                lemma_canonical_len(cff.words(), 0x100_0000);
            }
        }
        BigNum { sgn, cff, exp, inf, nan }
    }

    /// A finite number rounded to `precision` places, scaled by `10^precision`.
    fn rounded_scaled_of(&self, precision: u8) -> (r: BigUint)
        requires
            precision < 255,
            roomy(self.cff_len() + 0x800_0000),
            finite(self@),
            self@.exp + 0x2000 <= u32::MAX,
        ensures
            r@ == rounded_scaled(self@, precision as nat),
            r.words().len() <= self.cff_len() + 0x800_0000,
    {
        proof {
            use_type_invariant(&self.cff);
            BigUint::lemma_wf(&self.cff);
            crate::big_num::words::lemma_words_val_bound(self.cff.words());
        }
        let mut e = BigUint::from_u64(1);
        e.shl_assign(self.exp as usize);
        proof {
            lemma2_to64();
            lemma_pow2_pos(self@.exp);
            use_type_invariant(&e);
            BigUint::lemma_wf(&e);
        }
        let (whole, fr) = self.cff.div_rem(&e);
        proof {
            use_type_invariant(&whole);
            BigUint::lemma_wf(&whole);
            use_type_invariant(&fr);
            BigUint::lemma_wf(&fr);
            lemma_div_is_ordered_by_denominator(self@.cff as int, 1, pow2(self@.exp) as int);
            lemma_canonical_len(whole.words(), 64 * self.cff_len());
            lemma_mod_bound(self@.cff as int, pow2(self@.exp) as int);
            crate::big_num::words::lemma_words_val_bound(e.words());
            lemma_canonical_len(fr.words(), 64 * e.words().len());
        }
        let dec = fr.div_decimal(&e, precision + 1);
        proof {
            lemma_nat_bit_len_bounds(e@);
            lemma_bit_len_le(fr@, nat_bit_len(e@));
        }
        let ghost base = dec.base as nat;
        let mut f = BigUint::from_bits(dec.bits);
        let p1 = BigUint::ten_pow(precision + 1);
        proof {
            use_type_invariant(&f);
            BigUint::lemma_wf(&f);
            lemma_pow2_pos(base);
            lemma_mul_strict_inequality(fr@ as int, e@ as int, pow2(base) as int);
            lemma_mul_is_commutative(e@ as int, pow2(base) as int);
            lemma_multiply_divide_lt((fr@ * pow2(base)) as int, e@ as int, pow2(base) as int);
            lemma_canonical_len(f.words(), base);
        }
        f.mul_assign(&p1);
        f.shr_assign(dec.base as usize);
        let ten = BigUint::from_u64(10);
        proof {
            use_type_invariant(&f);
            BigUint::lemma_wf(&f);
        }
        let (f10, last) = f.div_rem(&ten);
        let mut r = whole.copy();
        let pp = BigUint::ten_pow(precision);
        r.mul_assign(&pp);
        proof {
            use_type_invariant(&f10);
            BigUint::lemma_wf(&f10);
            crate::big_num::words::lemma_words_val_bound(f.words());
            lemma_canonical_len(f10.words(), 64 * f.words().len());
        }
        r.add_assign(&f10);
        if last.low_word() >= 5 {
            let one = BigUint::from_u64(1);
            r.add_assign(&one);
        }
        proof {
            lemma2_to64_rest();
            lemma_mod_bound(f@ as int, 10);
            lemma_small_mod(last@, pow2(64));
            assert(e@ == pow2(self@.exp));
        }
        r
    }

    /// The text of `r / 10^p`, a point and `r mod 10^p` in `p` digits (just `r` for `p` zero).
    fn scaled_text(r: &BigUint, precision: u8) -> (out: Vec<u8>)
        requires
            roomy(r.words().len()),
        ensures
            precision == 0 ==> out@ == dec_digits(r@),
            precision > 0 ==> out@ == dec_digits(r@ / pow10(precision as nat)) + seq![46u8]
                + padded_digits(r@ % pow10(precision as nat), precision as nat),
    {
        if precision == 0 {
            return r.to_decimal();
        }
        let pp = BigUint::ten_pow(precision);
        proof {
            use_type_invariant(&pp);
            BigUint::lemma_wf(&pp);
            lemma_pow10_bound(precision as nat);
        }
        let (ip, fp) = r.div_rem(&pp);
        proof {
            use_type_invariant(r);
            BigUint::lemma_wf(r);
            use_type_invariant(&ip);
            BigUint::lemma_wf(&ip);
            use_type_invariant(&fp);
            BigUint::lemma_wf(&fp);
            crate::big_num::words::lemma_words_val_bound(r.words());
            lemma_div_is_ordered_by_denominator(r@ as int, 1, pp@ as int);
            lemma_canonical_len(ip.words(), 64 * r.words().len());
            lemma_mod_bound(r@ as int, pp@ as int);
            lemma_canonical_len(fp.words(), 4 * precision as nat + 1);
        }
        let mut out = ip.to_decimal();
        out.push(46u8);
        let ghost head = out@;
        let fdig = fp.to_decimal();
        let mut k: usize = fdig.len();
        while k < precision as usize
            invariant
                k >= fdig@.len(),
                k == fdig@.len() || k <= precision as usize,
                out@ == head + Seq::new((k - fdig@.len()) as nat, |i: int| 48u8),
            decreases precision as usize - k,
        {
            out.push(48u8);
            k = k + 1;
            proof {
                assert(out@ =~= head + Seq::new((k - fdig@.len()) as nat, |i: int| 48u8));
            }
        }
        let mut fd = fdig;
        out.append(&mut fd);
        proof {
            let d = dec_digits(fp@);
            assert(fdig@ == d);
            if d.len() >= precision {
                assert(out@ =~= head + d);
            } else {
                assert(k == precision);
                assert(out@ =~= head + (Seq::new((precision - d.len()) as nat, |i: int| 48u8) + d));
            }
            assert(out@ =~= dec_digits(ip@) + seq![46u8] + padded_digits(fp@, precision as nat));
        }
        out
    }

    /// The number in decimal with `precision` places, rounded half up; `NaN`, `+INF`, `-INF`
    /// for the others.
    pub fn to_float_str(&self, precision: u8) -> (r: String)
        requires
            precision < 255,
            roomy(self.cff_len() + 0x1000_0000),
            finite(self@) ==> self@.exp + 0x2000 <= u32::MAX,
        ensures
            r@ == ascii_chars(float_text(self@, precision as nat)),
    {
        let mut out: Vec<u8> = Vec::new();
        if self.nan {
            out.push(78u8);
            out.push(97u8);
            out.push(78u8);
            proof { assert(out@ =~= float_text(self@, precision as nat)); }
            return ascii_to_string(out);
        }
        if self.inf != 0 {
            out.push(if self.inf > 0 { 43u8 } else { 45u8 });
            out.push(73u8);
            out.push(78u8);
            out.push(70u8);
            proof { assert(out@ =~= float_text(self@, precision as nat)); }
            return ascii_to_string(out);
        }
        let r = self.rounded_scaled_of(precision);
        if self.sgn == 1 {
            out.push(45u8);
        }
        let mut t = Self::scaled_text(&r, precision);
        out.append(&mut t);
        proof {
            assert(out@ =~= float_text(self@, precision as nat));
            lemma_float_text_ascii(self@, precision as nat);
        }
        ascii_to_string(out)
    }

    /// The fraction bits alone (NaN for NaN and the infinities).
    pub fn fract(&self) -> (r: Self)
        requires
            roomy(self.cff_len()),
        ensures
            !finite(self@) ==> r@ == (NumView { sgn: 0, cff: 0, exp: 0, inf: -1i8, nan: true }),
            finite(self@) ==> r@ == (NumView { cff: self@.cff % pow2(self@.exp), ..self@ }),
            r.cff_len() <= self.cff_len() + 1,
    {
        if !self.is_finite_number() {
            return Self::nan();
        }
        let mut hi = self.cff.copy();
        hi.shr_assign(self.exp as usize);
        hi.shl_assign(self.exp as usize);
        let lo = self.cff.sub(&hi);
        proof {
            use_type_invariant(&lo);
            BigUint::lemma_wf(&lo);
            use_type_invariant(&self.cff);
            BigUint::lemma_wf(&self.cff);
            crate::big_num::words::lemma_words_val_bound(self.cff.words());
            lemma_pow2_pos(self@.exp);
            lemma_fundamental_div_mod(self@.cff as int, pow2(self@.exp) as int);
            lemma_mul_is_commutative(pow2(self@.exp) as int, (self@.cff / pow2(self@.exp)) as int);
            assert(lo@ <= self.cff@);
            lemma_canonical_len(lo.words(), 64 * self.cff.words().len());
        }
        BigNum { sgn: self.sgn, cff: lo, exp: self.exp, inf: self.inf, nan: self.nan }
    }

    /// Rounds up to an integer by adding one to the integer part when there is a fraction
    /// (for a negative number too); NaN and infinities stay as they are.
    pub fn ceil(&self) -> (r: Self)
        requires
            roomy(self.cff_len() + 2),
        ensures
            !finite(self@) ==> r@ == self@,
            finite(self@) && self@.cff % pow2(self@.exp) == 0 ==> r@ == self@,
            finite(self@) && self@.cff % pow2(self@.exp) != 0 ==> r@ == add_spec(trunc_view(self@), one_view(), false),
    {
        if !self.is_finite_number() {
            return self.copy();
        }
        let f = self.fract();
        if f.cff.is_zero() {
            return self.copy();
        }
        let t = self.trunc();
        let one = Self::from_u64(1);
        t.add(&one)
    }

    /// Rounds down to an integer: the integer part, less one for a negative number with a
    /// fraction; NaN and infinities stay as they are.
    pub fn floor(&self) -> (r: Self)
        requires
            roomy(self.cff_len() + 2),
        ensures
            r@ == floor_view(self@),
            r.cff_len() <= self.cff_len() + 0x400_0002,
    {
        if !self.is_finite_number() {
            return self.copy();
        }
        if self.sgn == 0 {
            return self.trunc();
        }
        let f = self.fract();
        if f.cff.is_zero() {
            return self.trunc();
        }
        let t = self.trunc();
        let one = Self::from_u64(1);
        proof {
            use_type_invariant(&self.cff);
            BigUint::lemma_wf(&self.cff);
        }
        t.sub(&one)
    }

    /// The remainder `self - floor(self / rhs) * rhs`, the quotient taken with fifteen decimal
    /// places.
    pub fn rem_euclid(&self, rhs: &Self) -> (r: Self)
        requires
            roomy(self.cff_len() + rhs.cff_len() + 0x1000_0000),
            rhs.cff_len() * 64 + 4096 <= u32::MAX,
            div_ok(self@, rhs@, 15),
            mul_ok(floor_view(div_spec(self@, rhs@, 15)), rhs@),
            add_ok(self@, mul_spec(floor_view(div_spec(self@, rhs@, 15)), rhs@), true),
        ensures
            r@ == rem_euclid_spec(self@, rhs@),
            r.cff_len() <= self.cff_len() + rhs.cff_len() + 0x2000_0000,
    {
        let q = self.div_with_precision(rhs, 15);
        let n = q.floor();
        let m = n.mul(rhs);
        self.sub(&m)
    }

    /// Divides by `rhs`, keeping fraction bits for `precision` decimal places of the remainder.
    pub fn div_assign_with_precision(&mut self, rhs: &Self, precision: u8)
        requires
            roomy(old(self).cff_len()),
            roomy(rhs.cff_len()),
            rhs.cff_len() * 64 + 4096 <= u32::MAX,
            div_ok(old(self)@, rhs@, precision as nat),
        ensures
            final(self)@ == div_spec(old(self)@, rhs@, precision as nat),
            final(self).cff_len() <= old(self).cff_len() + 0x800_0004,
    {
        if self.nan || rhs.nan {
            self.nan = true;
            return;
        }
        if self.inf != 0 && rhs.inf != 0 {
            let p: i8 = self.inf * rhs.inf;
            self.sgn = if p >= 0 { 0 } else { 1 };
            self.cff = BigUint::from_u64(1);
            self.exp = 0;
            self.inf = 0;
            return;
        }
        if self.inf != 0 || rhs.inf != 0 {
            if rhs.cff.is_zero() && rhs.inf == 0 {
                return;
            }
            if self.inf != 0 {
                self.inf = if rhs.sgn == 0 { self.inf } else { -self.inf };
                return;
            }
            self.sgn = 0;
            self.cff = BigUint::new();
            self.exp = 0;
            self.inf = 0;
            return;
        }
        if rhs.cff.is_zero() {
            if self.cff.is_zero() {
                self.nan = true;
                return;
            }
            self.inf = if self.sgn ^ rhs.sgn == 0 { 1 } else { -1 };
            return;
        }
        proof {
            use_type_invariant(&self.cff);
            use_type_invariant(&rhs.cff);
            BigUint::lemma_wf(&self.cff);
            BigUint::lemma_wf(&rhs.cff);
        }
        self.sgn = self.sgn ^ rhs.sgn;
        let (q, r) = self.cff.div_rem(&rhs.cff);
        proof {
            use_type_invariant(&q);
            use_type_invariant(&r);
            BigUint::lemma_wf(&q);
            BigUint::lemma_wf(&r);
            crate::big_num::words::lemma_words_val_bound(self.cff.words());
            lemma_canonical_len(q.words(), 64 * self.cff.words().len());
            lemma_div_is_ordered_by_denominator(self.cff@ as int, 1, rhs.cff@ as int);
            lemma_mod_bound(self.cff@ as int, rhs.cff@ as int);
            crate::big_num::words::lemma_words_val_bound(rhs.cff.words());
            lemma_canonical_len(r.words(), 64 * rhs.cff.words().len());
        }
        let mut cff = q;
        if r.is_zero() {
            if self.exp > rhs.exp {
                self.exp = self.exp - rhs.exp;
            } else {
                let shift = rhs.exp - self.exp;
                cff.shl_assign(shift as usize);
                self.exp = 0;
            }
            self.cff = cff;
            return;
        }
        let dec = r.div_decimal(&rhs.cff, precision);
        proof {
            lemma_nat_bit_len_bounds(rhs.cff@);
            lemma_bit_len_le(r@, nat_bit_len(rhs.cff@));
        }
        let mut d = BigUint::from_bits(dec.bits);
        let mut t: u32 = dec.base;
        let ghost base = dec.base as nat;
        proof {
            lemma2_to64();
            lemma_mod_bound(self.cff@ as int, rhs.cff@ as int);
            lemma_pow2_pos(base);
            lemma_mul_strict_inequality(r@ as int, rhs.cff@ as int, pow2(base) as int);
            lemma_mul_is_commutative(rhs.cff@ as int, pow2(base) as int);
            lemma_multiply_divide_lt((r@ * pow2(base)) as int, rhs.cff@ as int, pow2(base) as int);
        }
        while t > 0 && d.low_word() % 2 == 0
            invariant
                d@ > 0,
                t <= base,
                strip(d@, t as nat) == strip(r@ * pow2(base) / rhs.cff@, base),
                d@ < pow2(t as nat),
            decreases t,
        {
            proof {
                lemma2_to64();
                lemma_pow2_adds(1, 63);
                lemma_mod_mod(d@ as int, 2, pow2(63) as int);
                lemma_pow2_unfold(t as nat);
                lemma_div_pos_is_pos(d@ as int, 2);
            }
            d.shr_assign(1);
            t = t - 1;
        }
        proof {
            assert(strip(d@, t as nat) == (d@, t as nat)) by {
                lemma2_to64();
                lemma_pow2_adds(1, 63);
                lemma_mod_mod(d@ as int, 2, pow2(63) as int);
            }
        }
        proof {
            use_type_invariant(&d);
            BigUint::lemma_wf(&d);
            lemma_canonical_len(d.words(), t as nat);
            lemma2_to64();
        }
        cff.shl_assign(t as usize);
        cff.add_assign(&d);
        if self.exp as u64 + t as u64 > rhs.exp as u64 {
            self.exp = self.exp + t;
            self.exp = self.exp - rhs.exp;
        } else {
            let shift = rhs.exp - self.exp - t;
            cff.shl_assign(shift as usize);
            self.exp = 0;
        }
        self.cff = cff;
    }

    /// The quotient (see `div_assign_with_precision`).
    pub fn div_with_precision(&self, rhs: &Self, precision: u8) -> (r: Self)
        requires
            roomy(self.cff_len()),
            roomy(rhs.cff_len()),
            rhs.cff_len() * 64 + 4096 <= u32::MAX,
            div_ok(self@, rhs@, precision as nat),
        ensures
            r@ == div_spec(self@, rhs@, precision as nat),
            r.cff_len() <= self.cff_len() + 0x800_0004,
    {
        let mut r = self.copy();
        r.div_assign_with_precision(rhs, precision);
        r
    }

    /// Keeps at most `base2` fraction bits, dropping the lower ones.
    pub fn trunc_with_precision(&mut self, base2: u32)
        ensures
            ({
                let t = if old(self)@.exp <= base2 { old(self)@.exp } else { base2 as nat };
                final(self)@ == (NumView { cff: old(self)@.cff / pow2((old(self)@.exp - t) as nat), exp: t, ..old(self)@ })
            }),
            final(self).cff_len() <= old(self).cff_len(),
    {
        let t = if self.exp <= base2 { self.exp } else { base2 };
        self.cff.shr_assign((self.exp - t) as usize);
        self.exp = t;
    }
}

impl Clone for BigNum {
    fn clone(&self) -> (r: Self)
        ensures
            r@ == self@,
    {
        self.copy()
    }
}

impl PartialEq for BigNum {
    /// Equality as `num_eq` decides it; coefficients too large to align (beyond any memory)
    /// compare unequal.
    fn eq(&self, other: &Self) -> (r: bool) {
        if Self::is_roomy(self.cff_word_count()) && Self::is_roomy(other.cff_word_count()) {
            self.equals(other)
        } else {
            false
        }
    }
}

impl PartialEqSpecImpl for BigNum {
    open spec fn obeys_eq_spec() -> bool {
        true
    }

    open spec fn eq_spec(&self, other: &Self) -> bool {
        roomy(self.cff_len()) && roomy(other.cff_len()) && num_eq(self@, other@)
    }
}


/// A number the arithmetic of values can take without overflow: an infinity field of -1, 0 or
/// 1, at most `2^16` fraction bits and a coefficient below `2^(2^24)`.
pub open spec fn tame(v: NumView) -> bool {
    &&& -1 <= v.inf <= 1
    &&& v.exp <= 0x1_0000
    &&& v.cff < pow2(0x100_0000)
}

impl BigNum {
    /// Whether the number is tame; a tame number's coefficient has at most `2^18` words.
    pub fn is_tame(&self) -> (r: bool)
        ensures
            r == tame(self@),
            tame(self@) ==> self.cff_len() <= 0x4_0000,
    {
        proof {
            use_type_invariant(&self.cff);
            BigUint::lemma_wf(&self.cff);
            if tame(self@) {
                lemma_canonical_len(self.cff.words(), 0x100_0000);
            }
        }
        if self.inf < -1 || self.inf > 1 || self.exp > 0x1_0000 {
            return false;
        }
        proof {
            use_type_invariant(&self.cff);
            BigUint::lemma_wf(&self.cff);
        }
        if self.cff.word_count() > 0x4_0000 {
            proof {
                if self@.cff < pow2(0x100_0000) {
                    lemma_canonical_len(self.cff.words(), 0x100_0000);
                }
            }
            return false;
        }
        let n = self.cff.bit_count();
        proof {
            lemma_nat_bit_len_bounds(self@.cff);
            if n <= 0x100_0000 {
                if n < 0x100_0000 {
                    lemma_pow2_strictly_increases(n as nat, 0x100_0000);
                }
            } else {
                if (n - 1) as nat > 0x100_0000 { lemma_pow2_strictly_increases(0x100_0000, (n - 1) as nat); }
            }
        }
        n <= 0x100_0000
    }
}


impl BigNum {
    /// The number of fraction bits.
    pub fn exponent(&self) -> (r: u32)
        ensures
            r == self@.exp,
    {
        self.exp
    }

    /// The infinity field: 0 for finite numbers, the sign of an infinity otherwise.
    pub fn infinity(&self) -> (r: i8)
        ensures
            r == self@.inf,
    {
        self.inf
    }

    /// Whether the number is NaN.
    pub fn is_nan(&self) -> (r: bool)
        ensures
            r == self@.nan,
    {
        self.nan
    }

    /// The sign field: 0 for positive, 1 for negative.
    pub fn sign_bit(&self) -> (r: u8)
        ensures
            r == self@.sgn,
    {
        self.sgn
    }
}


/// The number one half, as the constant `0.5` is written in binary.
pub open spec fn half_view() -> NumView {
    NumView { sgn: 0, cff: 1, exp: 1, inf: 0, nan: false }
}

/// The number `2^k`.
pub open spec fn pow2_view(k: nat) -> NumView {
    nat_view(pow2(k))
}

/// A number cut to at most `p` fraction bits, as `trunc_with_precision` leaves it.
pub open spec fn cut_view(v: NumView, p: nat) -> NumView {
    let t: nat = if v.exp <= p { v.exp } else { p };
    NumView { cff: v.cff / pow2((v.exp - t) as nat), exp: t, ..v }
}

/// An iterate that root finding goes on with: an infinity field of -1, 0 or 1, at most 180
/// fraction bits and a coefficient of at most `2^20` words.
pub open spec fn root_iterate(v: NumView) -> bool {
    &&& -1 <= v.inf <= 1
    &&& v.exp <= 180
    &&& v.cff < pow2(64 * 0x10_0000)
}

/// One Newton step toward the square root of `x` from `n`: `(n + x / n) / 2`, the quotient
/// taken with fifteen decimal places, the result cut to 180 fraction bits.
pub open spec fn sqrt_step(x: NumView, n: NumView) -> NumView {
    cut_view(mul_spec(half_view(), add_spec(n, div_spec(x, n, 15), false)), 180)
}

/// `k` Newton steps toward the square root of `x` from `n`; NaN once an iterate is no root
/// iterate.
pub open spec fn sqrt_steps(x: NumView, n: NumView, k: nat) -> NumView
    decreases k,
{
    if k == 0 {
        n
    } else if !root_iterate(n) {
        nan_view()
    } else {
        sqrt_steps(x, sqrt_step(x, n), (k - 1) as nat)
    }
}

/// NaN as the constructor makes it.
pub open spec fn nan_view() -> NumView {
    NumView { sgn: 0, cff: 0, exp: 0, inf: -1i8, nan: true }
}

/// The square root as `sqrt` computes it: NaN for NaN, negative numbers (negative zero too),
/// negative infinity and numbers beyond the tame range; positive infinity for itself; else
/// `b + 15` Newton steps from `2^b`, `b` the bit length of the coefficient.
pub open spec fn sqrt_view(x: NumView) -> NumView {
    if x.nan || x.sgn == 1 || x.inf == -1 {
        nan_view()
    } else if x.inf > 0 {
        x
    } else if !tame(x) {
        nan_view()
    } else {
        let b = nat_bit_len(x.cff);
        sqrt_steps(x, pow2_view(b), b + 15)
    }
}

impl BigNum {
    /// Whether the number is a root iterate.
    fn is_root_iterate(&self) -> (r: bool)
        ensures
            r == root_iterate(self@),
            r ==> self.cff_len() <= 0x10_0000,
    {
        proof {
            use_type_invariant(&self.cff);
            BigUint::lemma_wf(&self.cff);
            crate::big_num::words::lemma_words_val_bound(self.cff.words());
            if self@.cff < pow2(64 * 0x10_0000) {
                lemma_canonical_len(self.cff.words(), 64 * 0x10_0000);
            }
            if self.cff.words().len() <= 0x10_0000 {
                crate::big_num::words::lemma_wpow_mono(self.cff.words().len(), 0x10_0000);
            }
        }
        -1 <= self.inf && self.inf <= 1 && self.exp <= 180 && self.cff.word_count() <= 0x10_0000
    }

    /// One Newton step toward the square root of a tame, finite `x`.
    fn sqrt_newton(x: &Self, n: &Self) -> (r: Self)
        requires
            tame(x@),
            finite(x@),
            root_iterate(n@),
            n.cff_len() <= 0x10_0000,
            usize::MAX == u64::MAX,
        ensures
            r@ == sqrt_step(x@, n@),
    {
        proof {
            use_type_invariant(&x.cff);
            BigUint::lemma_wf(&x.cff);
            lemma_canonical_len(x.cff.words(), 0x100_0000);
            if finite(n@) && n@.cff > 0 {
                lemma_bit_len_le(n@.cff, 64 * 0x10_0000);
                lemma_div_ok_finite(x@, n@, 15);
            }
        }
        let q = x.div_with_precision(n, 15);
        proof {
            assert(-1 <= q@.inf <= 1);
            assert(q@.exp <= 0x1_0000 + 64 * 0x10_0000 + 1024);
        }
        let s = n.add(&q);
        let half = Self::from_parts(0, BigUint::from_u64(1), 1, 0, false);
        let mut h = half.mul(&s);
        h.trunc_with_precision(180);
        h
    }

    /// The square root by Newton's method (see `sqrt_view`).
    pub fn sqrt(&self) -> (r: Self)
        requires
            usize::MAX == u64::MAX,
        ensures
            r@ == sqrt_view(self@),
    {
        if self.nan || self.sgn == 1 || self.inf == -1 {
            return Self::nan();
        }
        if self.inf > 0 {
            return self.copy();
        }
        if !self.is_tame() {
            return Self::nan();
        }
        let b = self.cff.bit_count();
        proof {
            use_type_invariant(&self.cff);
            BigUint::lemma_wf(&self.cff);
            lemma_bit_len_le(self@.cff, 0x100_0000);
        }
        let mut start = BigUint::from_u64(1);
        start.shl_assign(b);
        proof { lemma_pow2_pos(b as nat); }
        let mut n = Self::from_biguint(start);
        let rounds = b + 15;
        let mut i: usize = 0;
        while i < rounds
            invariant
                tame(self@),
                finite(self@),
                i <= rounds,
                rounds == nat_bit_len(self@.cff) + 15,
                usize::MAX == u64::MAX,
                sqrt_steps(self@, n@, (rounds - i) as nat) == sqrt_view(self@),
            decreases rounds - i,
        {
            if !n.is_root_iterate() {
                return Self::nan();
            }
            n = Self::sqrt_newton(self, &n);
            i = i + 1;
        }
        n
    }
}


/// The number two.
pub open spec fn two_view() -> NumView {
    nat_view(2)
}

/// One Halley step toward the cube root of `x` from `y`: `y * (y^3 + 2x) / (2y^3 + x)`, the
/// quotient taken with fifteen decimal places, the result cut to 180 fraction bits.
pub open spec fn cbrt_step(x: NumView, y: NumView) -> NumView {
    let cube = mul_spec(mul_spec(y, y), y);
    let num = add_spec(cube, mul_spec(x, two_view()), false);
    let den = add_spec(mul_spec(two_view(), cube), x, false);
    cut_view(mul_spec(y, div_spec(num, den, 15)), 180)
}

/// `k` Halley steps toward the cube root of `x` from `y`; NaN once an iterate is no root
/// iterate.
pub open spec fn cbrt_steps(x: NumView, y: NumView, k: nat) -> NumView
    decreases k,
{
    if k == 0 {
        y
    } else if !root_iterate(y) {
        nan_view()
    } else {
        cbrt_steps(x, cbrt_step(x, y), (k - 1) as nat)
    }
}

/// The cube root as `cbrt` computes it: NaN for NaN, negative numbers (negative zero too),
/// negative infinity and numbers beyond the tame range; positive infinity for itself; else
/// `b + 5` Halley steps from a third of the integer part (quotient with fifteen decimal
/// places), `b` the bit length of the coefficient.
pub open spec fn cbrt_view(x: NumView) -> NumView {
    if x.nan || x.sgn == 1 || x.inf == -1 {
        nan_view()
    } else if x.inf > 0 {
        x
    } else if !tame(x) {
        nan_view()
    } else {
        let b = nat_bit_len(x.cff);
        cbrt_steps(x, div_spec(trunc_view(x), nat_view(3), 15), b + 5)
    }
}

/// A sum's coefficient stays below `2^(k + e + 1)` and its exponent at most `e` when both
/// coefficients are below `2^k` and both exponents at most `e`.
proof fn lemma_add_spec_bound(a: NumView, b: NumView, sub: bool, k: nat, e: nat)
    requires
        a.cff < pow2(k),
        b.cff < pow2(k),
        a.exp <= e,
        b.exp <= e,
    ensures
        add_spec(a, b, sub).cff < pow2(k + e + 1),
        add_spec(a, b, sub).exp <= e,
{
    lemma_pow2_adds(k, e);
    lemma_pow2_pos(e);
    lemma_pow2_pos(k);
    assert(pow2(k + e + 1) == 2 * pow2(k + e)) by {
        lemma_pow2_adds(k + e, 1);
        lemma2_to64();
    }
    if e > 0 {
        lemma_pow2_strictly_increases(k, k + e);
    }
    let m = max_exp(a, b);
    let da = (m - a.exp) as nat;
    let db = (m - b.exp) as nat;
    assert(aligned(a, m) < pow2(k + e)) by {
        lemma_pow2_pos(da);
        lemma_mul_strict_inequality(a.cff as int, pow2(k) as int, pow2(da) as int);
        lemma_pow2_adds(k, da);
        if k + da < k + e {
            lemma_pow2_strictly_increases(k + da, k + e);
        }
        assert(a.cff * pow2(da) == pow2(da) * a.cff) by { lemma_mul_is_commutative(a.cff as int, pow2(da) as int); }
        assert(pow2(k) * pow2(da) == pow2(da) * pow2(k)) by { lemma_mul_is_commutative(pow2(k) as int, pow2(da) as int); }
    }
    assert(aligned(b, m) < pow2(k + e)) by {
        lemma_pow2_pos(db);
        lemma_mul_strict_inequality(b.cff as int, pow2(k) as int, pow2(db) as int);
        lemma_pow2_adds(k, db);
        if k + db < k + e {
            lemma_pow2_strictly_increases(k + db, k + e);
        }
        assert(b.cff * pow2(db) == pow2(db) * b.cff) by { lemma_mul_is_commutative(b.cff as int, pow2(db) as int); }
        assert(pow2(k) * pow2(db) == pow2(db) * pow2(k)) by { lemma_mul_is_commutative(pow2(k) as int, pow2(db) as int); }
    }
}

/// A product's coefficient stays below `2^(ka + kb)` and its exponent at most the sum of the
/// exponents when the coefficients are below `2^ka` and `2^kb`.
proof fn lemma_mul_spec_bound(a: NumView, b: NumView, ka: nat, kb: nat)
    requires
        a.cff < pow2(ka),
        b.cff < pow2(kb),
    ensures
        mul_spec(a, b).cff < pow2(ka + kb),
        mul_spec(a, b).exp <= a.exp + b.exp,
{
    lemma_pow2_adds(ka, kb);
    lemma_pow2_pos(kb);
    if kb > 0 {
        lemma_pow2_strictly_increases(ka, ka + kb);
    }
    let (x, y, xx, yy) = (a.cff as int, b.cff as int, pow2(ka) as int, pow2(kb) as int);
    assert(x * y < xx * yy) by (nonlinear_arith)
        requires 0 <= x < xx, 0 <= y < yy;
    assert(x <= xx * yy) by (nonlinear_arith)
        requires 0 <= x < xx, 1 <= yy;
}

impl BigNum {
    /// One Halley step toward the cube root of a tame, finite `x`, with `dbl` twice `x`.
    fn cbrt_halley(x: &Self, dbl: &Self, y: &Self) -> (r: Self)
        requires
            tame(x@),
            finite(x@),
            dbl@ == mul_spec(x@, two_view()),
            dbl.cff_len() <= x.cff_len() + 2,
            root_iterate(y@),
            y.cff_len() <= 0x10_0000,
            usize::MAX == u64::MAX,
        ensures
            r@ == cbrt_step(x@, y@),
    {
        let ghost k: nat = 64 * 0x10_0000;
        proof {
            use_type_invariant(&x.cff);
            BigUint::lemma_wf(&x.cff);
            lemma_canonical_len(x.cff.words(), 0x100_0000);
            let (i, j) = (y@.inf as int, y@.inf as int);
            assert(-1 <= i * j <= 1) by (nonlinear_arith)
                requires -1 <= i <= 1, -1 <= j <= 1;
        }
        let two = Self::from_u64(2);
        let c1 = y.mul(y);
        proof {
            lemma_mul_spec_bound(y@, y@, k, k);
            let (i, j) = (c1@.inf as int, y@.inf as int);
            assert(-1 <= i <= 1);
            assert(-1 <= i * j <= 1) by (nonlinear_arith)
                requires -1 <= i <= 1, -1 <= j <= 1;
        }
        let cube = c1.mul(y);
        proof {
            lemma_mul_spec_bound(c1@, y@, 2 * k, k);
            assert(-1 <= cube@.inf <= 1);
            assert(cube@.exp <= 540);
        }
        let num = cube.add(dbl);
        let tc = two.mul(&cube);
        proof {
            lemma2_to64();
            lemma_mul_spec_bound(two@, cube@, 2, 3 * k);
            lemma_pow2_strictly_increases(0x100_0000, 3 * k + 2);
            lemma_add_spec_bound(tc@, x@, false, 3 * k + 2, 0x1_0000);
            lemma_mul_spec_bound(x@, two_view(), 0x100_0000, 2);
            lemma_pow2_strictly_increases(0x100_0000 + 2, 3 * k + 2);
            lemma_pow2_strictly_increases(3 * k, 3 * k + 2);
            lemma_add_spec_bound(cube@, dbl@, false, 3 * k + 2, 0x1_0000);
        }
        let den = tc.add(x);
        let ghost kd: nat = 3 * k + 2 + 0x1_0000 + 1;
        proof {
            use_type_invariant(&den.cff);
            BigUint::lemma_wf(&den.cff);
            lemma_canonical_len(den.cff.words(), kd);
            lemma_bit_len_le(den@.cff, kd);
            assert(num@.exp <= 0x1_0000);
            if finite(num@) && finite(den@) && den@.cff > 0 {
                lemma_div_ok_finite(num@, den@, 15);
            }
            let (i, j) = (num@.inf as int, den@.inf as int);
            assert(-1 <= i <= 1 && -1 <= j <= 1);
            assert(-1 <= i * j <= 1) by (nonlinear_arith)
                requires -1 <= i <= 1, -1 <= j <= 1;
        }
        let d = num.div_with_precision(&den, 15);
        proof {
            let (i, j) = (y@.inf as int, d@.inf as int);
            assert(-1 <= j <= 1);
            assert(-1 <= i * j <= 1) by (nonlinear_arith)
                requires -1 <= i <= 1, -1 <= j <= 1;
            assert(d@.exp <= 0x1_0000 + kd + 1024);
        }
        let mut h = y.mul(&d);
        h.trunc_with_precision(180);
        h
    }

    /// The cube root by Halley's method (see `cbrt_view`).
    pub fn cbrt(&self) -> (r: Self)
        requires
            usize::MAX == u64::MAX,
        ensures
            r@ == cbrt_view(self@),
    {
        if self.nan || self.sgn == 1 || self.inf == -1 {
            return Self::nan();
        }
        if self.inf > 0 {
            return self.copy();
        }
        if !self.is_tame() {
            return Self::nan();
        }
        let b = self.cff.bit_count();
        proof {
            use_type_invariant(&self.cff);
            BigUint::lemma_wf(&self.cff);
            lemma_bit_len_le(self@.cff, 0x100_0000);
        }
        let two = Self::from_u64(2);
        let three = Self::from_u64(3);
        let whole = self.trunc();
        proof {
            lemma2_to64();
            lemma_bit_len_le(3, 2);
            lemma_div_ok_finite(whole@, three@, 15);
        }
        let mut y = whole.div_with_precision(&three, 15);
        let dbl = self.mul(&two);
        let rounds = b + 5;
        let mut i: usize = 0;
        while i < rounds
            invariant
                tame(self@),
                finite(self@),
                dbl@ == mul_spec(self@, two_view()),
                dbl.cff_len() <= self.cff_len() + 2,
                i <= rounds,
                rounds == nat_bit_len(self@.cff) + 5,
                usize::MAX == u64::MAX,
                cbrt_steps(self@, y@, (rounds - i) as nat) == cbrt_view(self@),
            decreases rounds - i,
        {
            if !y.is_root_iterate() {
                return Self::nan();
            }
            y = Self::cbrt_halley(self, &dbl, &y);
            i = i + 1;
        }
        y
    }
}


/// The `i32` that the low 32 bits of the coefficient spell in two's complement (the exponent
/// is not applied).
pub open spec fn low_i32(v: NumView) -> i32 {
    (v.cff % 0x1_0000_0000) as u32 as i32
}

/// Whether a number lies outside the `i32` range, as the ordering of numbers decides it.
pub open spec fn beyond_i32(v: NumView) -> bool {
    ||| num_cmp(v, NumView { sgn: 0, cff: 0x7fff_ffff, exp: 0, inf: 0, nan: false }) > 0
    ||| num_cmp(v, NumView { sgn: 1, cff: 0x8000_0000, exp: 0, inf: 0, nan: false }) < 0
}

impl BigNum {
    /// The `i32` of a finite number in the `i32` range: the low 32 bits of the coefficient,
    /// negated for a negative sign; NaN, infinities and numbers out of range come back as
    /// the error. A negative sign on low bits that spell `i32::MIN` would overflow the
    /// negation, so it is left out.
    pub fn try_into_i32(self) -> (r: Result<i32, BigNum>)
        requires
            roomy(self.cff_len()),
            finite(self@) && !beyond_i32(self@) && self@.sgn != 0 ==> low_i32(self@) != i32::MIN,
        ensures
            r is Err <==> !finite(self@) || beyond_i32(self@),
            r matches Err(e) ==> e@ == self@,
            r matches Ok(i) ==> i == (if self@.sgn == 0 { low_i32(self@) as int } else { -low_i32(self@) }),
    {
        if !self.is_finite_number() {
            return Err(self);
        }
        let max = Self::from_i32(i32::MAX);
        let min = Self::from_i32(i32::MIN);
        if self.compare(&max) > 0 || self.compare(&min) < 0 {
            return Err(self);
        }
        let w = self.cff.low_word();
        proof {
            lemma2_to64_rest();
            lemma2_to64();
            lemma_mod_mod(self@.cff as int, 0x1_0000_0000, 0x1_0000_0000);
            assert(w as u32 == w % 0x1_0000_0000) by (bit_vector);
        }
        let i = w as u32 as i32;
        if self.sgn == 0 {
            Ok(i)
        } else {
            Ok(-i)
        }
    }
}

} // verus!
