//! Unsigned big integers over canonical word vectors.
use vstd::prelude::*;
use vstd::string::StringSliceAdditionalSpecFns;
use vstd::std_specs::cmp::PartialEqSpecImpl;
use vstd::arithmetic::power2::*;
use vstd::arithmetic::mul::*;
use vstd::arithmetic::div_mod::*;
use crate::text::{ascii_chars, ascii_to_string};
use crate::big_num::decimal::{Decimal, pow10, lemma_pow10_bound};
use crate::big_num::ubits::{UintBits, nat_bit_len, lemma_nat_bit_len_bounds, lemma_canonical_len, lemma_bit_len_le};
use crate::big_num::words::{words_val, is_shrunk, shrink_seq, wpow, lemma_words_val_bound,
    lemma_words_val_all_zero, lemma_words_val_push, lemma_words_val_split, lemma_shrink_seq,
    lemma_wpow_succ, lemma_wpow_mono, lemma_words_val_extend, lemma_words_val_take_succ,
    lemma_words_val_update, lemma_words_val_single, lemma_shrunk_unique, lemma_words_val_lower,
    lemma_words_val_skip_pred, lemma_words_val_last};

verus! {

/// An unsigned integer of any size.
///
/// The words are canonical: at least one word and no high zero word, so equal numbers have
/// equal words.
#[derive(Debug)]
pub struct BigUint {
    bits: UintBits,
}

/// The word vector padded with zeros to `n` words.
pub open spec fn padded(s: Seq<u64>, n: nat) -> Seq<u64> {
    Seq::new(n, |i: int| if i < s.len() { s[i] } else { 0u64 })
}

pub proof fn lemma_padded_val(s: Seq<u64>, n: nat)
    requires
        s.len() <= n,
    ensures
        words_val(padded(s, n)) == words_val(s),
{
    lemma_words_val_extend(s, n);
    if s.len() < n {
        assert(padded(s, n) =~= s + Seq::new((n - s.len()) as nat, |j: int| 0u64));
    } else {
        assert(padded(s, n) =~= s);
    }
}

/// Splits a 128-bit sum into its low word and its high part.
proof fn lemma_split_u128(s: u128)
    ensures
        (s as u64) as nat + (s >> 64) as nat * pow2(64) == s as nat,
{
    lemma2_to64_rest();
    assert((s as u64) as u128 + (s >> 64u128) * 0x10000000000000000u128 == s) by (bit_vector);
}

/// Word-wise sum of two word vectors, with the final carry as a top word when nonzero.
fn add_words(a: &Vec<u64>, b: &Vec<u64>) -> (r: Vec<u64>)
    requires
        a@.len() + 1 <= usize::MAX,
        b@.len() + 1 <= usize::MAX,
    ensures
        words_val(r@) == words_val(a@) + words_val(b@),
        r@.len() >= a@.len(),
        r@.len() >= b@.len(),
        r@.len() <= if a@.len() >= b@.len() { a@.len() + 1 } else { b@.len() + 1 },
{
    let n = if a.len() >= b.len() { a.len() } else { b.len() };
    let ghost pa = padded(a@, n as nat);
    let ghost pb = padded(b@, n as nat);
    let mut out: Vec<u64> = Vec::new();
    let mut carry: u64 = 0;
    let mut i: usize = 0;
    proof {
        lemma_wpow_succ(0);
        assert(pa.take(0) =~= Seq::<u64>::empty());
        assert(pb.take(0) =~= Seq::<u64>::empty());
        assert(words_val(Seq::<u64>::empty()) == 0);
    }
    while i < n
        invariant
            i <= n,
            n == if a@.len() >= b@.len() { a@.len() } else { b@.len() },
            pa == padded(a@, n as nat),
            pb == padded(b@, n as nat),
            out@.len() == i,
            carry <= 1,
            words_val(out@) + carry as nat * wpow(i as nat) == words_val(pa.take(i as int)) + words_val(pb.take(i as int)),
        decreases n - i,
    {
        let x: u64 = if i < a.len() { a[i] } else { 0 };
        let y: u64 = if i < b.len() { b[i] } else { 0 };
        let s: u128 = x as u128 + y as u128 + carry as u128;
        proof {
            lemma_split_u128(s);
            lemma2_to64_rest();
            lemma_words_val_take_succ(pa, i as int);
            lemma_words_val_take_succ(pb, i as int);
            lemma_words_val_push(out@, s as u64);
            lemma_wpow_succ(i as nat);
            assert((s >> 64) <= 1) by (bit_vector)
                requires s <= 0x1ffffffffffffffffu128;
            assert(x == pa[i as int] && y == pb[i as int]);
            let w = wpow(i as nat);
            assert((s as u64) as nat * w + (s >> 64) as nat * (w * pow2(64)) == s as nat * w) by {
                lemma_mul_is_associative((s >> 64) as int, w as int, pow2(64) as int);
                lemma_mul_is_commutative(w as int, pow2(64) as int);
                lemma_mul_is_associative((s >> 64) as int, pow2(64) as int, w as int);
                lemma_mul_is_distributive_add_other_way(w as int, (s as u64) as int, ((s >> 64) as nat * pow2(64)) as int);
            }
            assert(s as nat * w == x as nat * w + y as nat * w + carry as nat * w) by {
                lemma_mul_is_distributive_add_other_way(w as int, (x + y) as int, carry as int);
                lemma_mul_is_distributive_add_other_way(w as int, x as int, y as int);
            }
        }
        out.push(s as u64);
        carry = (s >> 64) as u64;
        i = i + 1;
    }
    proof {
        assert(pa.take(n as int) =~= pa);
        assert(pb.take(n as int) =~= pb);
        lemma_padded_val(a@, n as nat);
        lemma_padded_val(b@, n as nat);
    }
    if carry != 0 {
        proof { lemma_words_val_push(out@, carry); }
        out.push(carry);
    }
    out
}

/// Word-wise difference modulo `2^(64 n)` where `n` is the longer length, with the final borrow.
fn sub_words(a: &Vec<u64>, b: &Vec<u64>) -> (r: (Vec<u64>, bool))
    ensures
        r.0@.len() == if a@.len() >= b@.len() { a@.len() } else { b@.len() },
        words_val(r.0@) + words_val(b@) == words_val(a@) + if r.1 { wpow(r.0@.len()) } else { 0 },
{
    let n = if a.len() >= b.len() { a.len() } else { b.len() };
    let ghost pa = padded(a@, n as nat);
    let ghost pb = padded(b@, n as nat);
    let mut out: Vec<u64> = Vec::new();
    let mut borrow: u64 = 0;
    let mut i: usize = 0;
    proof {
        lemma_wpow_succ(0);
        assert(pa.take(0) =~= Seq::<u64>::empty());
        assert(pb.take(0) =~= Seq::<u64>::empty());
        assert(words_val(Seq::<u64>::empty()) == 0);
    }
    while i < n
        invariant
            i <= n,
            n == if a@.len() >= b@.len() { a@.len() } else { b@.len() },
            pa == padded(a@, n as nat),
            pb == padded(b@, n as nat),
            out@.len() == i,
            borrow <= 1,
            words_val(out@) + words_val(pb.take(i as int)) == words_val(pa.take(i as int)) + borrow as nat * wpow(i as nat),
        decreases n - i,
    {
        let x: u64 = if i < a.len() { a[i] } else { 0 };
        let y: u64 = if i < b.len() { b[i] } else { 0 };
        let yb: u128 = y as u128 + borrow as u128;
        let d: u64;
        let nb: u64;
        if (x as u128) >= yb {
            d = (x as u128 - yb) as u64;
            nb = 0;
        } else {
            proof { lemma2_to64_rest(); }
            d = (x as u128 + 0x10000000000000000u128 - yb) as u64;
            nb = 1;
        }
        proof {
            lemma2_to64_rest();
            lemma_words_val_take_succ(pa, i as int);
            lemma_words_val_take_succ(pb, i as int);
            lemma_words_val_push(out@, d);
            lemma_wpow_succ(i as nat);
            assert(x == pa[i as int] && y == pb[i as int]);
            let w = wpow(i as nat);
            // d + y + borrow == x + nb * 2^64
            assert(d as nat + y as nat + borrow as nat == x as nat + nb as nat * pow2(64));
            assert(d as nat * w + y as nat * w + borrow as nat * w == x as nat * w + nb as nat * (w * pow2(64))) by {
                lemma_mul_is_distributive_add_other_way(w as int, (d + y) as int, borrow as int);
                lemma_mul_is_distributive_add_other_way(w as int, d as int, y as int);
                lemma_mul_is_distributive_add_other_way(w as int, x as int, (nb as nat * pow2(64)) as int);
                lemma_mul_is_associative(nb as int, pow2(64) as int, w as int);
                lemma_mul_is_commutative(pow2(64) as int, w as int);
                lemma_mul_is_associative(nb as int, w as int, pow2(64) as int);
            }
        }
        out.push(d);
        borrow = nb;
        i = i + 1;
    }
    proof {
        assert(pa.take(n as int) =~= pa);
        assert(pb.take(n as int) =~= pb);
        lemma_padded_val(a@, n as nat);
        lemma_padded_val(b@, n as nat);
    }
    (out, borrow == 1)
}

/// Schoolbook product of two word vectors.
fn mul_words(a: &Vec<u64>, b: &Vec<u64>) -> (r: Vec<u64>)
    requires
        a@.len() + b@.len() + 1 <= usize::MAX,
    ensures
        words_val(r@) == words_val(a@) * words_val(b@),
        r@.len() == a@.len() + b@.len(),
{
    let n = a.len();
    let m = b.len();
    let mut out: Vec<u64> = Vec::new();
    let mut k: usize = 0;
    while k < n + m
        invariant
            n + m + 1 <= usize::MAX,
            k <= n + m,
            out@.len() == k,
            forall|j: int| 0 <= j < k ==> out@[j] == 0,
        decreases n + m - k,
    {
        out.push(0);
        k = k + 1;
    }
    proof {
        lemma_words_val_all_zero(out@);
        lemma_wpow_succ(0);
        assert(a@.take(0) =~= Seq::<u64>::empty());
        assert(words_val(Seq::<u64>::empty()) == 0);
    }
    let mut i: usize = 0;
    while i < n
        invariant
            n == a@.len(),
            m == b@.len(),
            n + m + 1 <= usize::MAX,
            i <= n,
            out@.len() == n + m,
            forall|j: int| i + m <= j < n + m ==> out@[j] == 0,
            words_val(out@) == words_val(a@.take(i as int)) * words_val(b@),
        decreases n - i,
    {
        let ai = a[i];
        let mut carry: u64 = 0;
        let mut j: usize = 0;
        let ghost base = out@;
        proof {
            assert(b@.take(0) =~= Seq::<u64>::empty());
            assert(words_val(Seq::<u64>::empty()) == 0);
        }
        while j < m
            invariant
                n == a@.len(),
                m == b@.len(),
                n + m + 1 <= usize::MAX,
                i < n,
                j <= m,
                ai == a@[i as int],
                out@.len() == n + m,
                base.len() == n + m,
                forall|t: int| i + m <= t < n + m ==> base[t] == 0,
                forall|t: int| i + j <= t < n + m ==> out@[t] == base[t],
                words_val(out@) + carry as nat * wpow((i + j) as nat)
                    == words_val(base) + ai as nat * words_val(b@.take(j as int)) * wpow(i as nat),
            decreases m - j,
        {
            let idx = i + j;
            let cur = out[idx];
            let bj = b[j];
            assert((ai as nat) * (bj as nat) <= 0xfffffffffffffffe0000000000000001nat) by (nonlinear_arith)
                requires ai <= 0xffffffffffffffffu64, bj <= 0xffffffffffffffffu64;
            let t: u128 = cur as u128 + (ai as u128) * (bj as u128) + carry as u128;
            proof {
                lemma2_to64_rest();
                lemma_split_u128(t);
                lemma_words_val_split(out@, idx as int);
                lemma_words_val_skip_pred(out@, idx as int);
                lemma_mul_inequality(cur as int, words_val(out@.skip(idx as int)) as int, wpow(idx as nat) as int);
                lemma_wpow_succ(0);
                crate::big_num::words::lemma_wpow_adds(i as nat, j as nat);
                lemma_words_val_update(out@, idx as int, t as u64);
                lemma_words_val_take_succ(b@, j as int);
                lemma_wpow_succ(idx as nat);
                lemma_mul_step(words_val(out@), carry as nat, cur as nat, ai as nat, b@[j as int] as nat,
                    (t as u64) as nat, (t >> 64) as nat, words_val(b@.take(j as int)), wpow(i as nat),
                    wpow(j as nat), wpow(idx as nat), pow2(64), words_val(base));
                crate::big_num::words::lemma_wpow_adds(i as nat, j as nat);
            }
            out.set(idx, t as u64);
            carry = (t >> 64) as u64;
            j = j + 1;
        }
        proof {
            assert(b@.take(m as int) =~= b@);
            assert(base[(i + m) as int] == 0);
            assert(out@[(i + m) as int] == base[(i + m) as int]);
            lemma_mul_row(out@, base, a@, b@, i as int, m as int, ai, carry);
        }
        let ghost before = out@;
        out.set(i + m, carry);
        proof {
            assert(out@ == before.update((i + m) as int, carry));
            assert forall|t: int| i + 1 + m <= t < n + m implies out@[t] == 0 by {
                assert(before[t] == base[t]);
                assert(base[t] == 0);
            }
        }
        i = i + 1;
    }
    proof { assert(a@.take(n as int) =~= a@); }
    out
}

/// Closing one row of the schoolbook product: the final carry goes into the row's top word.
proof fn lemma_mul_row(out: Seq<u64>, base: Seq<u64>, a: Seq<u64>, b: Seq<u64>, i: int, m: int, ai: u64,
    carry: u64)
    requires
        0 <= i < a.len(),
        m == b.len(),
        out.len() == a.len() + m,
        ai == a[i],
        out[i + m] == 0,
        words_val(base) == words_val(a.take(i)) * words_val(b),
        words_val(out) + carry as nat * wpow((i + m) as nat) == words_val(base) + ai as nat * words_val(b.take(m)) * wpow(i as nat),
    ensures
        words_val(out.update(i + m, carry)) == words_val(a.take(i + 1)) * words_val(b),
{
    assert(b.take(m) =~= b);
    lemma_words_val_update(out, i + m, carry);
    lemma_words_val_take_succ(a, i);
    let aa = words_val(a.take(i));
    let bb = words_val(b);
    let wi = wpow(i as nat);
    assert((aa + ai * wi) * bb == aa * bb + ai * bb * wi) by (nonlinear_arith);
}

/// Algebra of one inner step of the schoolbook product.
proof fn lemma_mul_step(vo: nat, carry: nat, cur: nat, ai: nat, bj: nat, lo: nat, hi: nat,
    vb: nat, wi: nat, wj: nat, wij: nat, b: nat, vbase: nat)
    requires
        vo + carry * wij == vbase + ai * vb * wi,
        lo + hi * b == cur + ai * bj + carry,
        wij == wi * wj,
        vo >= cur * wij,
    ensures
        (vo - cur * wij + lo * wij) + hi * (wij * b) == vbase + ai * (vb + bj * wj) * wi,
{
    assert(lo * wij + hi * (wij * b) == (lo + hi * b) * wij) by {
        lemma_mul_is_associative(hi as int, wij as int, b as int);
        lemma_mul_is_commutative(wij as int, b as int);
        lemma_mul_is_associative(hi as int, b as int, wij as int);
        lemma_mul_is_distributive_add_other_way(wij as int, lo as int, (hi * b) as int);
    }
    assert((cur + ai * bj + carry) * wij == cur * wij + (ai * bj) * wij + carry * wij) by {
        lemma_mul_is_distributive_add_other_way(wij as int, (cur + ai * bj) as int, carry as int);
        lemma_mul_is_distributive_add_other_way(wij as int, cur as int, (ai * bj) as int);
    }
    assert((ai * bj) * wij == ai * (bj * wj) * wi) by {
        lemma_mul_is_associative(ai as int, bj as int, wij as int);
        lemma_mul_is_associative(bj as int, wi as int, wj as int);
        lemma_mul_is_commutative(wi as int, wj as int);
        lemma_mul_is_associative(bj as int, wj as int, wi as int);
        lemma_mul_is_associative(ai as int, (bj * wj) as int, wi as int);
    }
    assert(ai * (vb + bj * wj) * wi == ai * vb * wi + ai * (bj * wj) * wi) by {
        lemma_mul_is_distributive_add(ai as int, vb as int, (bj * wj) as int);
        lemma_mul_is_distributive_add_other_way(wi as int, (ai * vb) as int, (ai * (bj * wj)) as int);
    }
}


/// The quotient that `div_rem_self` returns: the floor of `a / b`, and for a zero divisor all
/// ones over one bit more than `a` has.
pub open spec fn quotient(a: nat, b: nat) -> nat {
    if b == 0 {
        (pow2(nat_bit_len(a) + 1) - 1) as nat
    } else {
        a / b
    }
}

/// The remainder that `div_rem_self` leaves: `a mod b`, and `a` itself for a zero divisor.
pub open spec fn remainder(a: nat, b: nat) -> nat {
    if b == 0 {
        a
    } else {
        a % b
    }
}

/// The ASCII decimal digits of `v`, most significant first, without leading zeros (`"0"` for
/// zero).
pub open spec fn dec_digits(v: nat) -> Seq<u8>
    decreases v,
{
    if v < 10 {
        seq![(48 + v) as u8]
    } else {
        dec_digits(v / 10).push((48 + v % 10) as u8)
    }
}

/// The number that a string of ASCII decimal digits spells.
pub open spec fn dec_value(s: Seq<u8>) -> nat
    decreases s.len(),
{
    if s.len() == 0 {
        0
    } else {
        dec_value(s.drop_last()) * 10 + (s.last() - 48) as nat
    }
}

/// Whether every byte is an ASCII decimal digit.
pub open spec fn all_digits(s: Seq<u8>) -> bool {
    forall|i: int| 0 <= i < s.len() ==> 48 <= #[trigger] s[i] <= 57
}

pub proof fn lemma_dec_digits_ascii(v: nat)
    ensures
        all_digits(dec_digits(v)),
        dec_digits(v).len() >= 1,
    decreases v,
{
    if v >= 10 {
        lemma_dec_digits_ascii(v / 10);
    }
}

pub proof fn lemma_dec_value_bound(s: Seq<u8>)
    requires
        all_digits(s),
    ensures
        dec_value(s) < pow2(4 * s.len()),
    decreases s.len(),
{
    lemma2_to64();
    if s.len() > 0 {
        let t = s.drop_last();
        assert(all_digits(t)) by {
            assert forall|i: int| 0 <= i < t.len() implies 48 <= #[trigger] t[i] <= 57 by {
                assert(t[i] == s[i]);
            }
        }
        lemma_dec_value_bound(t);
        lemma_pow2_adds(4 * t.len(), 4);
        assert(4 * s.len() == 4 * t.len() + 4);
        assert(s[s.len() - 1] <= 57);
    }
}

/// The extra binary digits that `precision` decimal digits take: `precision * log2(10)`, with
/// the fractional part of `log2(10)` as `32192 / 2^16`.
pub open spec fn prec_bits(precision: nat) -> nat {
    precision * 3 + (precision * 32192) / 65536
}

/// One step of restoring division: doubling the quotient halves the weight of the divisor.
proof fn lemma_div_halve(a: nat, q: nat, s: nat, b: nat, m: nat)
    requires
        a == q * (b * pow2(m + 1)) + s,
        s < b * pow2(m + 1),
    ensures
        a == (2 * q) * (b * pow2(m)) + s,
        s < 2 * (b * pow2(m)),
{
    lemma_pow2_unfold(m + 1);
    let r = b * pow2(m);
    assert(b * pow2(m + 1) == 2 * r) by {
        lemma_mul_is_associative(b as int, 2, pow2(m) as int);
        lemma_mul_is_commutative(b as int, 2);
        lemma_mul_is_associative(2, b as int, pow2(m) as int);
    }
    assert(q * (2 * r) == (2 * q) * r) by {
        lemma_mul_is_associative(q as int, 2, r as int);
        lemma_mul_is_commutative(q as int, 2);
        lemma_mul_is_associative(2, q as int, r as int);
    }
}

/// Canonical words of the value of `v`: zero words removed from the top, at least one word.
fn canonical(v: Vec<u64>) -> (r: UintBits)
    ensures
        r@.len() >= 1,
        v@.len() >= 1 ==> r@.len() <= v@.len(),
        r@.len() <= v@.len() + 1,
        is_shrunk(r@),
        words_val(r@) == words_val(v@),
{
    let mut bits = UintBits::from_words(v);
    if bits.word_count() == 0 {
        proof { assert(words_val(Seq::<u64>::empty()) == 0); }
        bits = UintBits::new();
        proof { lemma_words_val_single(0); }
    }
    proof { lemma_shrink_seq(bits@); }
    bits.shrink();
    bits
}

impl View for BigUint {
    type V = nat;

    closed spec fn view(&self) -> nat {
        words_val(self.bits@)
    }
}

impl BigUint {
    /// The words are canonical.
    #[verifier::type_invariant]
    pub closed spec fn wf(self) -> bool {
        self.bits@.len() >= 1 && is_shrunk(self.bits@)
    }

    /// What the type invariant says of the words.
    pub proof fn lemma_wf(x: &Self)
        requires
            x.wf(),
        ensures
            x.words().len() >= 1,
            is_shrunk(x.words()),
            x@ == words_val(x.words()),
    {
    }

    /// The words are the canonical words of the value.
    pub closed spec fn words(&self) -> Seq<u64> {
        self.bits@
    }

    fn from_canonical(bits: UintBits) -> (r: Self)
        requires
            bits@.len() >= 1,
            is_shrunk(bits@),
        ensures
            r.words() == bits@,
            r@ == words_val(bits@),
    {
        BigUint { bits }
    }

    /// Zero.
    pub fn new() -> (r: Self)
        ensures
            r@ == 0,
            r.words() == seq![0u64],
    {
        proof { lemma_words_val_single(0); }
        BigUint { bits: UintBits::new() }
    }

    /// The number of a word vector; high zero words are dropped (an empty vector is zero).
    pub fn from_bits(bits: UintBits) -> (r: Self)
        ensures
            r@ == words_val(bits@),
            r.words().len() <= bits@.len() + 1,
    {
        Self::from_canonical(canonical(bits.0))
    }

    /// The number of a single word.
    pub fn from_u64(value: u64) -> (r: Self)
        ensures
            r@ == value,
            r.words() == seq![value],
    {
        proof { lemma_words_val_single(value); }
        let v = vec![value];
        assert(v@ =~= seq![value]);
        BigUint { bits: UintBits::from_words(v) }
    }

    /// The number of the low word of a 128-bit value (the high word is dropped).
    pub fn from_u128(value: u128) -> (r: Self)
        ensures
            r@ == value as nat % pow2(64),
            r.words().len() == 1,
    {
        proof {
            lemma2_to64_rest();
            assert((value as u64) as u128 == value % 0x10000000000000000u128) by (bit_vector);
        }
        Self::from_u64(value as u64)
    }

    /// Whether the number is zero.
    pub fn is_zero(&self) -> (r: bool)
        ensures
            r == (self@ == 0),
    {
        self.bits.all_zero()
    }

    /// Number of bits of the number (zero for zero).
    pub fn bit_count(&self) -> (r: usize)
        requires
            self.words().len() * 64 <= usize::MAX,
        ensures
            r == crate::big_num::ubits::nat_bit_len(self@),
    {
        self.bits.bit_len()
    }

    /// Number of bits the words can hold.
    pub fn bit_capacity(&self) -> (r: usize)
        requires
            self.words().len() * 64 <= usize::MAX,
        ensures
            r == self.words().len() * 64,
    {
        self.bits.len()
    }

    /// The words.
    pub fn into_bits(self) -> (r: UintBits)
        ensures
            r@ == self.words(),
    {
        self.bits
    }

    /// A copy.
    pub fn copy(&self) -> (r: Self)
        ensures
            r@ == self@,
            r.words() == self.words(),
    {
        proof { use_type_invariant(self); }
        BigUint { bits: self.bits.copy() }
    }

    /// Whether two numbers are equal.
    pub fn equals(&self, other: &Self) -> (r: bool)
        ensures
            r == (self@ == other@),
    {
        proof {
            use_type_invariant(self);
            use_type_invariant(other);
            if self@ == other@ {
                lemma_shrunk_unique(self.bits@, other.bits@);
            }
        }
        self.bits.same(&other.bits)
    }

    /// Three-way comparison: `-1`, `0` or `1` as `self` is below, equal to or above `other`.
    pub fn compare(&self, other: &Self) -> (r: i8)
        ensures
            r == -1 <==> self@ < other@,
            r == 0 <==> self@ == other@,
            r == 1 <==> self@ > other@,
    {
        proof {
            use_type_invariant(self);
            use_type_invariant(other);
        }
        let a = &self.bits.0;
        let b = &other.bits.0;
        if a.len() != b.len() {
            proof { lemma_longer_is_larger(self.bits@, other.bits@); }
            return if a.len() > b.len() { 1 } else { -1 };
        }
        let n = a.len();
        let mut i = n;
        while i > 0
            invariant
                i <= n,
                n == a@.len(),
                n == b@.len(),
                a@ == self.bits@,
                b@ == other.bits@,
                a@.skip(i as int) == b@.skip(i as int),
            decreases i,
        {
            if a[i - 1] != b[i - 1] {
                proof {
                    let k = (i - 1) as int;
                    assert(a@.skip(k + 1) == b@.skip(k + 1));
                    if a@[k] < b@[k] {
                        lemma_first_difference(a@, b@, k);
                    } else {
                        lemma_first_difference(b@, a@, k);
                    }
                }
                return if a[i - 1] > b[i - 1] { 1 } else { -1 };
            }
            proof {
                assert(a@.skip(i - 1) =~= seq![a@[i - 1]] + a@.skip(i as int));
                assert(b@.skip(i - 1) =~= seq![b@[i - 1]] + b@.skip(i as int));
            }
            i = i - 1;
        }
        proof {
            assert(a@ =~= a@.skip(0));
            assert(b@ =~= b@.skip(0));
        }
        0
    }

    /// Number of words.
    pub fn word_count(&self) -> (r: usize)
        ensures
            r == self.words().len(),
    {
        self.bits.word_count()
    }

    /// The number of an 8-bit value.
    pub fn from_u8(value: u8) -> (r: Self)
        ensures
            r@ == value,
            r.words() == seq![value as u64],
    {
        Self::from_u64(value as u64)
    }

    /// The number of a 32-bit value.
    pub fn from_u32(value: u32) -> (r: Self)
        ensures
            r@ == value,
            r.words() == seq![value as u64],
    {
        Self::from_u64(value as u64)
    }

    /// The low word of the number.
    pub fn low_word(&self) -> (r: u64)
        ensures
            r == self@ % pow2(64),
    {
        proof {
            use_type_invariant(self);
            lemma_words_val_skip_pred(self.bits@, 0);
            assert(self.bits@.skip(0) =~= self.bits@);
            lemma2_to64_rest();
            lemma_fundamental_div_mod_converse(self@ as int, pow2(64) as int,
                words_val(self.bits@.skip(1)) as int, self.bits@[0] as int);
        }
        self.bits.0[0]
    }

    /// The decimal digits of the number as ASCII bytes.
    pub fn to_decimal(&self) -> (r: Vec<u8>)
        requires
            self.words().len() * 64 + 256 <= usize::MAX,
        ensures
            r@ == dec_digits(self@),
    {
        proof { use_type_invariant(self); }
        let ten = Self::from_u64(10);
        let mut v = self.copy();
        let mut tail: Vec<u8> = Vec::new();
        proof { assert(dec_digits(v@) + tail@ =~= dec_digits(v@)); }
        while v.compare(&ten) >= 0
            invariant
                ten@ == 10,
                ten.words() == seq![10u64],
                v@ <= self@,
                self.words().len() * 64 + 256 <= usize::MAX,
                v.words().len() <= self.words().len(),
                dec_digits(self@) == dec_digits(v@) + tail@,
            decreases v@,
        {
            proof {
                use_type_invariant(&v);
            }
            let (q, d) = v.div_rem(&ten);
            proof {
                use_type_invariant(self);
                use_type_invariant(&q);
                lemma_words_val_bound(self.bits@);
                lemma_canonical_len(q.words(), 64 * self.words().len());
                lemma2_to64_rest();
                lemma_small_mod(d@, pow2(64));
            }
            let w = d.low_word();
            let ghost old_tail = tail@;
            tail.insert(0, (48 + w) as u8);
            proof {
                assert(dec_digits(v@) == dec_digits(q@).push((48 + v@ % 10) as u8));
                assert(dec_digits(q@) + tail@ =~= dec_digits(v@) + old_tail);
            }
            v = q;
        }
        proof {
            use_type_invariant(&v);
            lemma2_to64_rest();
            lemma_small_mod(v@, pow2(64));
        }
        let w = v.low_word();
        tail.insert(0, (48 + w) as u8);
        proof {
            assert(dec_digits(v@) == seq![(48 + v@) as u8]);
            assert(tail@ =~= dec_digits(v@) + tail@.skip(1));
        }
        tail
    }

    /// The decimal representation of the number.
    pub fn to_string(&self) -> (r: String)
        requires
            self.words().len() * 64 + 256 <= usize::MAX,
        ensures
            r@ == ascii_chars(dec_digits(self@)),
    {
        let d = self.to_decimal();
        proof { lemma_dec_digits_ascii(self@); }
        ascii_to_string(d)
    }

    /// The number that a string of ASCII decimal digits spells (zero for no digits).
    pub fn from_decimal_bytes(digits: &[u8]) -> (r: Self)
        requires
            all_digits(digits@),
        ensures
            r@ == dec_value(digits@),
    {
        let ten = Self::from_u64(10);
        let mut v = Self::new();
        let mut i: usize = 0;
        proof { assert(digits@.take(0) =~= Seq::<u8>::empty()); }
        while i < digits.len()
            invariant
                i <= digits@.len(),
                all_digits(digits@),
                ten@ == 10,
                ten.words() == seq![10u64],
                v@ == dec_value(digits@.take(i as int)),
            decreases digits@.len() - i,
        {
            proof {
                use_type_invariant(&v);
                let t = digits@.take(i as int);
                assert(all_digits(t)) by {
                    assert forall|j: int| 0 <= j < t.len() implies 48 <= #[trigger] t[j] <= 57 by {
                        assert(t[j] == digits@[j]);
                    }
                }
                lemma_dec_value_bound(t);
                lemma_canonical_len(v.words(), 4 * i as nat);
            }
            let x = digits[i];
            let d = Self::from_u64((x - 48) as u64);
            let ghost v0 = v@;
            v.mul_assign(&ten);
            proof {
                use_type_invariant(&v);
                let p = pow2(4 * i as nat);
                lemma_pow2_adds(4 * i as nat, 4);
                lemma2_to64();
                assert(v0 * 10 < p * 16) by (nonlinear_arith)
                    requires v0 < p;
                lemma_canonical_len(v.words(), 4 * i as nat + 4);
            }
            v.add_assign(&d);
            proof {
                let t = digits@.take(i + 1);
                assert(t.drop_last() =~= digits@.take(i as int));
                assert(t.last() == x);
            }
            i = i + 1;
        }
        proof { assert(digits@.take(i as int) =~= digits@); }
        v
    }

    /// The number that a string of decimal digits spells (zero for the empty string).
    pub fn from_decimal(s: &str) -> (r: Self)
        requires
            all_digits(s.spec_bytes()),
        ensures
            r@ == dec_value(s.spec_bytes()),
    {
        Self::from_decimal_bytes(s.as_bytes())
    }

    /// The binary fraction of `self / rhs` for numbers that `rhs` has at least as many bits as.
    ///
    /// The fraction keeps enough bits for `precision` decimal digits. When `self` has more bits
    /// than `rhs` the result is the empty fraction: zero bits, base 0 and precision 0.
    pub fn div_decimal(&self, rhs: &Self, precision: u8) -> (r: Decimal)
        requires
            self.words().len() * 64 + 256 <= usize::MAX,
            rhs.words().len() * 64 + 4096 <= u32::MAX,
        ensures
            nat_bit_len(self@) > nat_bit_len(rhs@) ==> r.bits@ == seq![0u64] && r.base == 0 && r.prec == 0,
            nat_bit_len(self@) <= nat_bit_len(rhs@) ==> {
                &&& r.base == nat_bit_len(rhs@) - nat_bit_len(self@) + prec_bits(precision as nat)
                &&& words_val(r.bits@) == quotient(self@ * pow2(r.base as nat), rhs@)
                &&& r.bits@ == crate::big_num::num::canon_words(quotient(self@ * pow2(r.base as nat), rhs@))
                &&& r.prec == precision
            },
            r.bits@.len() >= 1,
            is_shrunk(r.bits@),
            r.bits@.len() <= self.words().len() + r.base as nat / 64 + 2,
            self.words().len() * 64 + 0x2_0000_0000 <= usize::MAX ==> r.bits@.len() * 64 + 2048 <= usize::MAX,
    {
        proof {
            use_type_invariant(self);
            use_type_invariant(rhs);
            lemma_words_val_bound(self.bits@);
            lemma_words_val_bound(rhs.bits@);
            lemma_bit_len_le(self@, 64 * self.bits@.len());
            lemma_bit_len_le(rhs@, 64 * rhs.bits@.len());
        }
        let lbl = self.bit_count();
        let rbl = rhs.bit_count();
        if lbl > rbl {
            proof { crate::big_num::words::lemma_words_val_single(0); }
            return Decimal::new(UintBits::new(), 0, 0);
        }
        let p = precision as u32;
        let m: u32 = p * 32192;
        assert(m >> 16u32 == m / 65536) by (bit_vector);
        let p2b = p * 3 + (m >> 16);
        let base = (rbl - lbl) as u32 + p2b;
        let mut lhs = self.copy();
        proof {
            lemma_nat_bit_len_bounds(self@);
            lemma_canonical_len(self.bits@, lbl as nat);
        }
        lhs.shl_assign(base as usize);
        let q = lhs.div(rhs);
        proof {
            use_type_invariant(&q);
            use_type_invariant(&lhs);
            let l = lhs.bits@.len();
            lemma_words_val_bound(lhs.bits@);
            lemma_bit_len_le(lhs@, 64 * l);
            lemma_nat_bit_len_bounds(lhs@);
            lemma_pow2_strictly_increases(64 * l, 64 * l + 1);
            assert(lhs@ < pow2(64 * l));
            if rhs@ == 0 {
                assert(q@ == (pow2(nat_bit_len(lhs@) + 1) - 1) as nat);
                lemma_pow2_pos(nat_bit_len(lhs@) + 1);
                assert(nat_bit_len(lhs@) <= 64 * l);
                if nat_bit_len(lhs@) + 1 < 64 * l + 1 {
                    lemma_pow2_strictly_increases(nat_bit_len(lhs@) + 1, 64 * l + 1);
                }
            } else {
                vstd::arithmetic::div_mod::lemma_div_is_ordered_by_denominator(lhs@ as int, 1, rhs@ as int);
                vstd::arithmetic::div_mod::lemma_div_basics(lhs@ as int);
                assert(q@ <= lhs@);
            }
            assert(q@ < pow2(64 * l + 1));
            lemma_canonical_len(q.bits@, 64 * l + 1);
            crate::big_num::num::lemma_canon_words(q.bits@);
        }
        proof {
            let bl = q.bits@.len();
            assert(bl * 64 <= self.words().len() * 64 + base as nat + 128) by (nonlinear_arith)
                requires bl <= self.words().len() + base as nat / 64 + 2;
        }
        Decimal::new(q.into_bits(), base, precision)
    }

    /// Ten to the power `k`.
    pub fn ten_pow(k: u8) -> (r: Self)
        ensures
            r@ == pow10(k as nat),
            r.words().len() <= 17,
    {
        let ten = Self::from_u64(10);
        let mut p = Self::from_u64(1);
        let mut i: u8 = 0;
        while i < k
            invariant
                i <= k,
                ten@ == 10,
                ten.words() == seq![10u64],
                p@ == pow10(i as nat),
            decreases k - i,
        {
            proof {
                lemma_pow10_bound(i as nat);
                use_type_invariant(&p);
                lemma_canonical_len(p.words(), 4 * i as nat + 1);
            }
            p.mul_assign(&ten);
            i = i + 1;
        }
        proof {
            lemma_pow10_bound(k as nat);
            use_type_invariant(&p);
            lemma_canonical_len(p.words(), 4 * k as nat + 1);
        }
        p
    }

    /// Ten to the power `k`, for exponents of any `u32` size.
    pub fn ten_pow_u32(k: u32) -> (r: Self)
        ensures
            r@ == pow10(k as nat),
            r.words().len() <= (4 * k as nat + 1) / 64 + 1,
    {
        let ten = Self::from_u64(10);
        let mut p = Self::from_u64(1);
        let mut i: u32 = 0;
        while i < k
            invariant
                i <= k,
                ten@ == 10,
                ten.words() == seq![10u64],
                p@ == pow10(i as nat),
            decreases k - i,
        {
            proof {
                lemma_pow10_bound(i as nat);
                use_type_invariant(&p);
                lemma_canonical_len(p.words(), 4 * i as nat + 1);
            }
            p.mul_assign(&ten);
            i = i + 1;
        }
        proof {
            lemma_pow10_bound(k as nat);
            use_type_invariant(&p);
            lemma_canonical_len(p.words(), 4 * k as nat + 1);
        }
        p
    }

    /// The number, when it fits in a `u32`.
    pub fn to_u32(&self) -> (r: Option<u32>)
        ensures
            r matches Some(x) ==> x == self@,
            r is None ==> self@ > u32::MAX,
    {
        proof {
            use_type_invariant(self);
            lemma2_to64_rest();
            if self.bits@.len() > 1 {
                lemma_words_val_lower(self.bits@);
                crate::big_num::words::lemma_wpow_succ(1);
                crate::big_num::words::lemma_wpow_mono(1, (self.bits@.len() - 1) as nat);
                crate::big_num::words::lemma_wpow_succ(0);
            }
        }
        if self.bits.0.len() > 1 {
            return None;
        }
        let w = self.low_word();
        proof {
            lemma_words_val_bound(self.bits@);
            crate::big_num::words::lemma_wpow_succ(0);
            lemma_small_mod(self@, pow2(64));
        }
        if w <= u32::MAX as u64 {
            Some(w as u32)
        } else {
            None
        }
    }

    /// Multiplies by `2^k`.
    pub fn shl_assign(&mut self, k: usize)
        requires
            old(self).words().len() + k / 64 + 2 <= usize::MAX,
        ensures
            final(self)@ == old(self)@ * pow2(k as nat),
            final(self).words().len() <= old(self).words().len() + k / 64 + 1,
    {
        proof { use_type_invariant(&*self); }
        let ghost n = self.bits@.len();
        let ghost v = self@;
        let mut bits = self.bits.copy();
        bits.shl_assign(k);
        let c = canonical(bits.0);
        proof {
            lemma_words_val_bound(self.bits@);
            lemma_pow2_pos(k as nat);
            lemma_mul_strict_inequality(v as int, wpow(n) as int, pow2(k as nat) as int);
            lemma_pow2_adds(64 * n, k as nat);
            lemma_canonical_len(c@, 64 * n + k as nat);
        }
        *self = Self::from_canonical(c);
    }

    /// Divides by `2^k`, rounding down.
    pub fn shr_assign(&mut self, k: usize)
        ensures
            final(self)@ == old(self)@ / pow2(k as nat),
            final(self).words().len() <= old(self).words().len(),
    {
        proof { use_type_invariant(&*self); }
        let ghost n = self.bits@.len();
        let ghost v = self@;
        let mut bits = self.bits.copy();
        bits.shr_assign(k);
        let c = canonical(bits.0);
        proof {
            lemma_words_val_bound(self.bits@);
            lemma_pow2_pos(k as nat);
            lemma_div_is_ordered_by_denominator(v as int, 1, pow2(k as nat) as int);
            lemma_canonical_len(c@, 64 * n);
        }
        *self = Self::from_canonical(c);
    }

    /// Replaces `self` by the remainder of dividing it by `rhs` and returns the quotient.
    ///
    /// Restoring binary long division. A zero divisor leaves `self` as it is and gives all ones
    /// over one bit more than `self` has.
    pub fn div_rem_self(&mut self, rhs: &Self) -> (q: Self)
        requires
            old(self).words().len() * 64 + 256 <= usize::MAX,
            rhs.words().len() * 64 + 256 <= usize::MAX,
        ensures
            q@ == quotient(old(self)@, rhs@),
            final(self)@ == remainder(old(self)@, rhs@),
    {
        proof {
            use_type_invariant(&*self);
            use_type_invariant(rhs);
        }
        let ghost a = self@;
        let ghost b = rhs@;
        let sbl = self.bit_count();
        let rbl = rhs.bit_count();
        proof {
            lemma_nat_bit_len_bounds(a);
            lemma_nat_bit_len_bounds(b);
            lemma_words_val_bound(self.bits@);
            lemma_words_val_bound(rhs.bits@);
            lemma_bit_len_le(a, 64 * self.bits@.len());
            if sbl < rbl {
                // b >= 2^(rbl - 1) >= 2^sbl > a
                if sbl < rbl - 1 {
                    lemma_pow2_strictly_increases(sbl as nat, (rbl - 1) as nat);
                }
                lemma_basic_div(a as int, b as int);
                lemma_small_mod(a, b);
            }
        }
        if sbl < rbl {
            return Self::new();
        }
        let qlen = sbl - rbl;
        let mut r = rhs.copy();
        r.shl_assign(qlen);
        let one = Self::from_u64(1);
        let mut q = Self::new();
        let mut i: usize = 0;
        proof {
            lemma2_to64();
            if b > 0 {
                lemma_pow2_adds((rbl - 1) as nat, (qlen + 1) as nat);
                lemma_mul_inequality(pow2((rbl - 1) as nat) as int, b as int, pow2((qlen + 1) as nat) as int);
                assert(q@ * (b * pow2((qlen + 1) as nat)) == 0);
            }
        }
        while i <= qlen
            invariant
                i <= qlen + 1,
                qlen + 200 <= usize::MAX,
                one@ == 1,
                one.words().len() == 1,
                q@ < pow2(i as nat),
                i <= qlen ==> r@ == b * pow2((qlen - i) as nat),
                b > 0 ==> a == q@ * (b * pow2((qlen + 1 - i) as nat)) + self@,
                b > 0 ==> self@ < b * pow2((qlen + 1 - i) as nat),
                b == 0 ==> q@ == pow2(i as nat) - 1 && self@ == a,
            decreases qlen + 1 - i,
        {
            proof {
                use_type_invariant(&q);
                lemma_canonical_len(q.words(), i as nat);
                lemma_pow2_unfold((i + 1) as nat);
                if b > 0 {
                    lemma_div_halve(a, q@, self@, b, (qlen - i) as nat);
                }
            }
            let ghost q0 = q@;
            q.shl_assign(1);
            proof {
                lemma2_to64();
                use_type_invariant(&q);
                lemma_canonical_len(q.words(), (i + 1) as nat);
            }
            if self.compare(&r) >= 0 {
                self.sub_assign(&r);
                q.add_assign(&one);
                proof {
                    lemma_mul_is_distributive_add_other_way(r@ as int, (2 * q0) as int, 1);
                }
            }
            proof {
                if i < qlen {
                    lemma_pow2_unfold((qlen - i) as nat);
                    assert(pow2((qlen - i) as nat) == 2 * pow2((qlen - i - 1) as nat));
                    assert(b * pow2((qlen - i) as nat) == (b * pow2((qlen - i - 1) as nat)) * 2) by {
                        lemma_mul_is_associative(b as int, 2, pow2((qlen - i - 1) as nat) as int);
                        lemma_mul_is_commutative(2, pow2((qlen - i - 1) as nat) as int);
                        lemma_mul_is_associative(b as int, pow2((qlen - i - 1) as nat) as int, 2);
                    }
                    lemma_div_multiples_vanish((b * pow2((qlen - i - 1) as nat)) as int, 2);
                }
            }
            r.shr_assign(1);
            i = i + 1;
        }
        proof {
            assert(i == qlen + 1);
            if b > 0 {
                assert(pow2(0) == 1);
                assert(b * pow2(0) == b);
                lemma_fundamental_div_mod_converse(a as int, b as int, q@ as int, self@ as int);
            }
        }
        q
    }

    /// Quotient and remainder.
    pub fn div_rem(&self, rhs: &Self) -> (r: (Self, Self))
        requires
            self.words().len() * 64 + 256 <= usize::MAX,
            rhs.words().len() * 64 + 256 <= usize::MAX,
        ensures
            r.0@ == quotient(self@, rhs@),
            r.1@ == remainder(self@, rhs@),
    {
        let mut rem = self.copy();
        let q = rem.div_rem_self(rhs);
        (q, rem)
    }

    /// The quotient.
    pub fn div(&self, rhs: &Self) -> (r: Self)
        requires
            self.words().len() * 64 + 256 <= usize::MAX,
            rhs.words().len() * 64 + 256 <= usize::MAX,
        ensures
            r@ == quotient(self@, rhs@),
    {
        let mut rem = self.copy();
        rem.div_rem_self(rhs)
    }

    /// Replaces `self` by the quotient.
    pub fn div_assign(&mut self, rhs: &Self)
        requires
            old(self).words().len() * 64 + 256 <= usize::MAX,
            rhs.words().len() * 64 + 256 <= usize::MAX,
        ensures
            final(self)@ == quotient(old(self)@, rhs@),
    {
        let q = self.div_rem_self(rhs);
        *self = q;
    }

    /// The remainder.
    pub fn rem(&self, rhs: &Self) -> (r: Self)
        requires
            self.words().len() * 64 + 256 <= usize::MAX,
            rhs.words().len() * 64 + 256 <= usize::MAX,
        ensures
            r@ == remainder(self@, rhs@),
    {
        let mut rem = self.copy();
        rem.div_rem_self(rhs);
        rem
    }

    /// Replaces `self` by the remainder.
    pub fn rem_assign(&mut self, rhs: &Self)
        requires
            old(self).words().len() * 64 + 256 <= usize::MAX,
            rhs.words().len() * 64 + 256 <= usize::MAX,
        ensures
            final(self)@ == remainder(old(self)@, rhs@),
    {
        self.div_rem_self(rhs);
    }

    /// Adds `rhs`.
    pub fn add_assign(&mut self, rhs: &Self)
        requires
            old(self).words().len() + rhs.words().len() + 2 <= usize::MAX,
        ensures
            final(self)@ == old(self)@ + rhs@,
            final(self).words().len() <= if old(self).words().len() >= rhs.words().len() { old(self).words().len() + 1 } else { rhs.words().len() + 1 },
    {
        proof {
            use_type_invariant(&*self);
            use_type_invariant(rhs);
        }
        let sum = add_words(&self.bits.0, &rhs.bits.0);
        *self = Self::from_canonical(canonical(sum));
    }

    /// The sum.
    pub fn add(&self, rhs: &Self) -> (r: Self)
        requires
            self.words().len() + rhs.words().len() + 2 <= usize::MAX,
        ensures
            r@ == self@ + rhs@,
            r.words().len() <= if self.words().len() >= rhs.words().len() { self.words().len() + 1 } else { rhs.words().len() + 1 },
    {
        let mut ret = self.copy();
        ret.add_assign(rhs);
        ret
    }

    /// Subtracts `rhs`; below zero the result wraps modulo `2^(64 n)`, `n` the longer word count.
    pub fn sub_assign(&mut self, rhs: &Self)
        ensures
            ({
                let n = if old(self).words().len() >= rhs.words().len() { old(self).words().len() } else { rhs.words().len() };
                final(self)@ == if old(self)@ >= rhs@ { old(self)@ - rhs@ } else { old(self)@ + wpow(n) - rhs@ }
            }),
            final(self).words().len() <= if old(self).words().len() >= rhs.words().len() { old(self).words().len() } else { rhs.words().len() },
    {
        proof {
            use_type_invariant(&*self);
            use_type_invariant(rhs);
        }
        let ghost a = self@;
        let ghost n = if self.bits@.len() >= rhs.bits@.len() { self.bits@.len() } else { rhs.bits@.len() };
        let (d, borrow) = sub_words(&self.bits.0, &rhs.bits.0);
        proof {
            lemma_words_val_bound(d@);
            lemma_words_val_bound(self.bits@);
            lemma_words_val_bound(rhs.bits@);
            lemma_wpow_mono(self.bits@.len(), n);
            lemma_wpow_mono(rhs.bits@.len(), n);
        }
        *self = Self::from_canonical(canonical(d));
    }

    /// The difference, wrapping below zero as `sub_assign` does.
    pub fn sub(&self, rhs: &Self) -> (r: Self)
        ensures
            ({
                let n = if self.words().len() >= rhs.words().len() { self.words().len() } else { rhs.words().len() };
                r@ == if self@ >= rhs@ { self@ - rhs@ } else { self@ + wpow(n) - rhs@ }
            }),
            r.words().len() <= if self.words().len() >= rhs.words().len() { self.words().len() } else { rhs.words().len() },
    {
        let mut ret = self.copy();
        ret.sub_assign(rhs);
        ret
    }

    /// Multiplies by `rhs`.
    pub fn mul_assign(&mut self, rhs: &Self)
        requires
            old(self).words().len() + rhs.words().len() + 2 <= usize::MAX,
        ensures
            final(self)@ == old(self)@ * rhs@,
            final(self).words().len() <= old(self).words().len() + rhs.words().len(),
    {
        proof {
            use_type_invariant(&*self);
            use_type_invariant(rhs);
        }
        let p = mul_words(&self.bits.0, &rhs.bits.0);
        *self = Self::from_canonical(canonical(p));
    }

    /// The product.
    pub fn mul(&self, rhs: &Self) -> (r: Self)
        requires
            self.words().len() + rhs.words().len() + 2 <= usize::MAX,
        ensures
            r@ == self@ * rhs@,
            r.words().len() <= self.words().len() + rhs.words().len(),
    {
        let mut ret = self.copy();
        ret.mul_assign(rhs);
        ret
    }
}

impl Clone for BigUint {
    fn clone(&self) -> (r: Self)
        ensures
            r@ == self@,
    {
        self.copy()
    }
}

impl PartialEq for BigUint {
    fn eq(&self, other: &Self) -> (r: bool) {
        self.equals(other)
    }
}

impl PartialEqSpecImpl for BigUint {
    open spec fn obeys_eq_spec() -> bool {
        true
    }

    open spec fn eq_spec(&self, other: &Self) -> bool {
        self@ == other@
    }
}

impl Eq for BigUint {
}

/// A longer canonical vector has the larger value.
proof fn lemma_longer_is_larger(a: Seq<u64>, b: Seq<u64>)
    requires
        a.len() >= 1,
        b.len() >= 1,
        is_shrunk(a),
        is_shrunk(b),
        a.len() != b.len(),
    ensures
        a.len() > b.len() ==> words_val(a) > words_val(b),
        a.len() < b.len() ==> words_val(a) < words_val(b),
{
    if a.len() > b.len() {
        lemma_words_val_lower(a);
        lemma_words_val_bound(b);
        lemma_wpow_mono(b.len(), (a.len() - 1) as nat);
    } else {
        lemma_words_val_lower(b);
        lemma_words_val_bound(a);
        lemma_wpow_mono(a.len(), (b.len() - 1) as nat);
    }
}

/// Vectors of one length that agree above word `k` and differ at `k` are ordered by word `k`.
proof fn lemma_first_difference(a: Seq<u64>, b: Seq<u64>, k: int)
    requires
        a.len() == b.len(),
        0 <= k < a.len(),
        a.skip(k + 1) == b.skip(k + 1),
        a[k] < b[k],
    ensures
        words_val(a) < words_val(b),
{
    lemma_words_val_split(a, k + 1);
    lemma_words_val_split(b, k + 1);
    lemma_words_val_take_succ(a, k);
    lemma_words_val_take_succ(b, k);
    lemma_words_val_bound(a.take(k));
    let w = wpow(k as nat);
    assert(words_val(a.take(k)) + a[k] as nat * w < (a[k] as nat + 1) * w) by {
        lemma_mul_is_distributive_add_other_way(w as int, a[k] as int, 1);
    }
    assert((a[k] as nat + 1) * w <= b[k] as nat * w) by {
        lemma_mul_inequality((a[k] + 1) as int, b[k] as int, w as int);
    }
}

} // verus!
