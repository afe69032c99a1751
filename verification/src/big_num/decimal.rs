//! Binary fractions: bits below a binary point, printed as decimal digits.
use vstd::prelude::*;
use vstd::arithmetic::power2::*;
use vstd::arithmetic::mul::*;
use crate::big_num::ubits::{UintBits, lemma_canonical_len};
use crate::big_num::uint::{BigUint, dec_digits, lemma_dec_digits_ascii};
use crate::big_num::words::words_val;
use crate::text::{ascii_chars, ascii_to_string};

verus! {

/// The fraction `bits / 2^base`, meant to be printed with `prec` decimal digits.
#[derive(Debug, Clone, PartialEq, Eq)]
pub struct Decimal {
    pub bits: UintBits,
    pub base: u32,
    pub prec: u8,
}

/// Ten to the power `k`.
pub open spec fn pow10(k: nat) -> nat
    decreases k,
{
    if k == 0 {
        1
    } else {
        10 * pow10((k - 1) as nat)
    }
}

/// The first `prec` decimal digits after the point of `v / 2^base`, padded with leading zeros.
pub open spec fn frac_digits(v: nat, base: nat, prec: nat) -> Seq<u8> {
    let d = dec_digits(v * pow10(prec) / pow2(base));
    if d.len() >= prec {
        d.take(prec as int)
    } else {
        Seq::new((prec - d.len()) as nat, |i: int| 48u8) + d
    }
}

pub proof fn lemma_pow10_bound(k: nat)
    ensures
        pow10(k) < pow2(4 * k + 1),
        pow10(k) >= 1,
    decreases k,
{
    lemma2_to64();
    if k > 0 {
        let j = (k - 1) as nat;
        lemma_pow10_bound(j);
        lemma_pow2_adds(4 * j + 1, 4);
        assert(4 * k + 1 == (4 * j + 1) + 4);
        assert(pow2(4) == 16);
        assert(pow2(4 * k + 1) == pow2(4 * j + 1) * 16);
        assert(pow10(k) == 10 * pow10(j));
    }
}

impl Decimal {
    pub fn new(bits: UintBits, base: u32, prec: u8) -> (r: Self)
        ensures
            r.bits@ == bits@,
            r.base == base,
            r.prec == prec,
    {
        Decimal { bits, base, prec }
    }

    /// The first `prec` decimal digits of the fraction, with leading zeros kept.
    pub fn to_string(&self) -> (r: String)
        requires
            self.bits@.len() * 64 + 2048 <= usize::MAX,
        ensures
            r@ == ascii_chars(frac_digits(words_val(self.bits@), self.base as nat, self.prec as nat)),
    {
        let ten = BigUint::from_u64(10);
        let mut p10 = BigUint::from_u64(1);
        let mut k: u8 = 0;
        while k < self.prec
            invariant
                k <= self.prec,
                ten@ == 10,
                ten.words() == seq![10u64],
                p10@ == pow10(k as nat),
            decreases self.prec - k,
        {
            proof {
                lemma_pow10_bound(k as nat);
                use_type_invariant(&p10);
                BigUint::lemma_wf(&p10);
                lemma_canonical_len(p10.words(), 4 * k as nat + 1);
            }
            p10.mul_assign(&ten);
            k = k + 1;
        }
        let mut x = BigUint::from_bits(self.bits.copy());
        proof {
            lemma_pow10_bound(self.prec as nat);
            use_type_invariant(&p10);
                BigUint::lemma_wf(&p10);
            use_type_invariant(&x);
            BigUint::lemma_wf(&x);
            lemma_canonical_len(p10.words(), 4 * self.prec as nat + 1);
            crate::big_num::words::lemma_words_val_bound(self.bits@);
            lemma_canonical_len(x.words(), 64 * self.bits@.len());
        }
        let ghost v = x@;
        x.mul_assign(&p10);
        x.shr_assign(self.base as usize);
        let mut d = x.to_decimal();
        let p = self.prec as usize;
        let out: Vec<u8>;
        if d.len() >= p {
            d.truncate(p);
            out = d;
        } else {
            let mut z: Vec<u8> = Vec::new();
            let pad = p - d.len();
            let mut i: usize = 0;
            while i < pad
                invariant
                    i <= pad,
                    z@ == Seq::new(i as nat, |j: int| 48u8),
                decreases pad - i,
            {
                z.push(48u8);
                i = i + 1;
                proof { assert(z@ =~= Seq::new(i as nat, |j: int| 48u8)); }
            }
            let ghost zs = z@;
            let mut dd = d;
            z.append(&mut dd);
            out = z;
        }
        proof {
            lemma_dec_digits_ascii(x@);
            let f = frac_digits(words_val(self.bits@), self.base as nat, self.prec as nat);
            assert(out@ =~= f);
        }
        ascii_to_string(out)
    }
}

} // verus!
