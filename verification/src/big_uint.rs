//! A plain little-endian vector of 32-bit words read as one unsigned number.
use vstd::prelude::*;
use vstd::arithmetic::power2::*;
use crate::big_num::uint::{BigUint, dec_digits};
use crate::text::ascii_chars;

verus! {

/// The number `sum(data[i] * 2^(32 i))`.
#[derive(Clone, Debug)]
pub struct BigUInt {
    data: Vec<u32>,
}

/// The number a little-endian vector of 32-bit words stands for.
pub open spec fn val32(s: Seq<u32>) -> nat
    decreases s.len(),
{
    if s.len() == 0 {
        0
    } else {
        s[0] as nat + pow2(32) * val32(s.skip(1))
    }
}

/// The words after shifting the whole vector left by one bit, the top bit dropped.
pub open spec fn shifted_left(s: Seq<u32>) -> Seq<u32> {
    Seq::new(s.len(), |i: int| ((s[i] << 1u32) | if i == 0 { 0u32 } else { s[i - 1] >> 31u32 }) as u32)
}

impl View for BigUInt {
    type V = Seq<u32>;

    closed spec fn view(&self) -> Seq<u32> {
        self.data@
    }
}

impl BigUInt {
    /// The number with no words (zero).
    pub fn new() -> (r: Self)
        ensures
            r@ == Seq::<u32>::empty(),
    {
        Self { data: Vec::new() }
    }

    /// Appends a word above the present ones.
    pub fn push_word(&mut self, w: u32)
        ensures
            final(self)@ == old(self)@.push(w),
    {
        self.data.push(w);
    }

    /// Shifts every bit one place up and returns the bit shifted out of the top word (zero when
    /// there are no words).
    pub fn shl_return(&mut self) -> (r: u8)
        ensures
            final(self)@ == shifted_left(old(self)@),
            r == if old(self)@.len() == 0 { 0u8 } else { (old(self)@.last() >> 31u32) as u8 },
    {
        let ghost s = self@;
        let mut last: u32 = 0;
        let mut i: usize = 0;
        let n = self.data.len();
        while i < n
            invariant
                n == s.len(),
                i <= n,
                self@.len() == n,
                forall|j: int| 0 <= j < i ==> self@[j] == #[trigger] shifted_left(s)[j],
                forall|j: int| i <= j < n ==> self@[j] == s[j],
                last == if i == 0 { 0u32 } else { s[i - 1] >> 31u32 },
            decreases n - i,
        {
            let num = self.data[i];
            let new_last = num >> 31u32;
            let w = (num << 1u32) | last;
            self.data.set(i, w);
            last = new_last;
            i = i + 1;
        }
        proof {
            assert(self@ =~= shifted_left(s));
        }
        last as u8
    }

    /// The decimal digits of the number.
    pub fn to_string(&self) -> (r: String)
        requires
            self@.len() <= 0x100_0000,
        ensures
            r@ == ascii_chars(dec_digits(val32(self@))),
    {
        let mut v = BigUint::new();
        let n = self.data.len();
        let mut i = n;
        proof {
            assert(self@.skip(n as int) =~= Seq::<u32>::empty());
            lemma2_to64();
        }
        while i > 0
            invariant
                i <= n,
                n == self@.len(),
                n <= 0x100_0000,
                v@ == val32(self@.skip(i as int)),
                v@ < pow2(32 * (n - i) as nat),
            decreases i,
        {
            proof {
                use_type_invariant(&v);
                BigUint::lemma_wf(&v);
                crate::big_num::ubits::lemma_canonical_len(v.words(), 32 * (n - i) as nat);
            }
            let ghost v0 = v@;
            v.shl_assign(32);
            let w = BigUint::from_u32(self.data[i - 1]);
            proof {
                use_type_invariant(&v);
                BigUint::lemma_wf(&v);
                lemma_pow2_adds(32 * (n - i) as nat, 32);
                lemma2_to64();
                let p = pow2(32 * (n - i) as nat);
                assert(v0 * pow2(32) + w@ < p * pow2(32)) by (nonlinear_arith)
                    requires v0 < p, w@ < pow2(32), v0 * pow2(32) + w@ <= (p - 1) * pow2(32) + w@;
                crate::big_num::ubits::lemma_canonical_len(v.words(), 32 * (n - i) as nat + 32);
            }
            v.add_assign(&w);
            proof {
                let t = self@.skip(i - 1);
                assert(t.skip(1) =~= self@.skip(i as int));
                assert(t[0] == self@[i - 1]);
                assert(32 * (n - (i - 1)) as nat == 32 * (n - i) as nat + 32);
            }
            i = i - 1;
        }
        proof {
            assert(self@.skip(0) =~= self@);
            use_type_invariant(&v);
            BigUint::lemma_wf(&v);
            crate::big_num::ubits::lemma_canonical_len(v.words(), 32 * n as nat);
        }
        v.to_string()
    }
}

} // verus!
