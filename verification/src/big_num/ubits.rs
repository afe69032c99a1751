//! Little-endian vectors of 64-bit words with bit-level operations.
use vstd::prelude::*;
use vstd::arithmetic::power2::*;
use vstd::arithmetic::mul::*;
use vstd::arithmetic::div_mod::*;
use vstd::bits::*;
use vstd::std_specs::convert::FromSpecImpl;
use vstd::std_specs::cmp::PartialEqSpecImpl;
use crate::big_num::words::{words_val, is_shrunk, shrink_seq, all_zero_seq, wpow, lemma_words_val_zeros, lemma_words_val_bound, lemma_words_val_all_zero, lemma_words_val_push, lemma_words_val_split, lemma_words_val_prepend_zeros, lemma_shrink_seq, lemma_wpow_succ, lemma_wpow_adds, lemma_wpow_mono};

verus! {

/// Bit storage for unsigned big integers: little-endian 64-bit words.
#[derive(Debug)]
pub struct UintBits(pub Vec<u64>);

impl View for UintBits {
    type V = Seq<u64>;

    open spec fn view(&self) -> Seq<u64> {
        self.0@
    }
}

/// `s` padded with zero words up to length `n` (unchanged when already that long).
pub open spec fn extend_to(s: Seq<u64>, n: nat) -> Seq<u64> {
    if s.len() >= n {
        s
    } else {
        s + Seq::new((n - s.len()) as nat, |j: int| 0u64)
    }
}

/// The word at index `i`, or zero past the end.
pub open spec fn word_at(s: Seq<u64>, i: int) -> u64 {
    if 0 <= i < s.len() {
        s[i]
    } else {
        0
    }
}

/// The bit at `index`: bit `index % 64` of word `index / 64`, zero past the end.
pub open spec fn bit_at(s: Seq<u64>, index: int) -> u8 {
    ((word_at(s, index / 64) >> ((index % 64) as u64)) & 1) as u8
}

/// Byte `j` of the little-endian byte image of `s`.
pub open spec fn le_byte(s: Seq<u64>, j: int) -> u8 {
    (s[j / 8] >> ((8 * (j % 8)) as u64)) as u8
}

/// The byte at `j`, or zero past the end.
pub open spec fn byte_at(b: Seq<u8>, j: int) -> u8 {
    if 0 <= j < b.len() {
        b[j]
    } else {
        0
    }
}

/// The word made of the first `n` little-endian bytes of word slot `k` of `b`.
pub open spec fn le_word_n(b: Seq<u8>, k: int, n: nat) -> u64
    decreases n,
{
    if n == 0 {
        0
    } else {
        le_word_n(b, k, (n - 1) as nat) | ((byte_at(b, 8 * k + n - 1) as u64) << ((8 * (n - 1)) as u64))
    }
}

/// Word `k` of the word image of little-endian bytes `b`.
pub open spec fn le_word(b: Seq<u8>, k: int) -> u64 {
    le_word_n(b, k, 8)
}

/// Number of words needed for `n` bytes, at least one.
pub open spec fn words_for_bytes(n: nat) -> nat {
    if n == 0 {
        1
    } else {
        ((n + 7) / 8) as nat
    }
}

impl UintBits {
    /// The number the words stand for.
    pub open spec fn value(&self) -> nat {
        words_val(self@)
    }

    /// The single zero word.
    pub fn new() -> (r: Self)
        ensures
            r@ == seq![0u64],
    {
        UintBits(vec![0])
    }

    /// Words from a vector, kept as they are.
    pub fn from_words(v: Vec<u64>) -> (r: Self)
        ensures
            r@ == v@,
    {
        UintBits(v)
    }

    /// The words as a vector.
    pub fn to_words(&self) -> (r: Vec<u64>)
        ensures
            r@ == self@,
    {
        self.0.clone()
    }

    /// Number of words held.
    pub fn word_count(&self) -> (r: usize)
        ensures
            r == self@.len(),
    {
        self.0.len()
    }

    /// A copy with the same words.
    pub fn copy(&self) -> (r: Self)
        ensures
            r@ == self@,
    {
        UintBits(self.0.clone())
    }

    /// Whether two word vectors are identical.
    pub fn same(&self, other: &Self) -> (r: bool)
        ensures
            r == (self@ == other@),
    {
        if self.0.len() != other.0.len() {
            return false;
        }
        let mut i: usize = 0;
        while i < self.0.len()
            invariant
                self@.len() == other@.len(),
                i <= self@.len(),
                forall|j: int| 0 <= j < i ==> self@[j] == other@[j],
            decreases self@.len() - i,
        {
            if self.0[i] != other.0[i] {
                return false;
            }
            i = i + 1;
        }
        assert(self@ =~= other@);
        true
    }

    /// Little-endian bytes, eight per word.
    pub fn to_le_bytes(&self) -> (r: Vec<u8>)
        requires
            self@.len() * 8 <= usize::MAX,
        ensures
            r@.len() == 8 * self@.len(),
            forall|j: int| 0 <= j < r@.len() ==> r@[j] == le_byte(self@, j),
    {
        let mut ret: Vec<u8> = Vec::new();
        let mut k: usize = 0;
        while k < self.0.len()
            invariant
                k <= self@.len(),
                self@.len() * 8 <= usize::MAX,
                ret@.len() == 8 * k,
                forall|j: int| 0 <= j < ret@.len() ==> ret@[j] == le_byte(self@, j),
            decreases self@.len() - k,
        {
            let w = self.0[k];
            let mut bits = w;
            assert(w >> 0u64 == w) by (bit_vector);
            let mut i: u64 = 0;
            while i < 8
                invariant
                    i <= 8,
                    k < self@.len(),
                    w == self@[k as int],
                    bits == w >> (8 * i),
                    ret@.len() == 8 * k + i,
                    forall|j: int| 0 <= j < ret@.len() ==> ret@[j] == le_byte(self@, j),
                decreases 8 - i,
            {
                assert((bits & 511) as u8 == bits as u8) by (bit_vector);
                ret.push((bits & 511) as u8);
                proof {
                    let j = (8 * k + i) as int;
                    assert(j / 8 == k && j % 8 == i) by (nonlinear_arith)
                        requires j == 8 * k + i, i < 8;
                }
                assert(bits >> 8 == w >> (8 * (i + 1))) by (bit_vector)
                    requires bits == w >> (8 * i), i < 8;
                bits = bits >> 8;
                i = i + 1;
            }
            k = k + 1;
        }
        ret
    }

    /// Words from little-endian bytes, the last word padded with zeros; at least one word.
    pub fn from_le_bytes(bytes: &[u8]) -> (r: Self)
        requires
            bytes@.len() + 8 <= usize::MAX,
        ensures
            r@.len() == words_for_bytes(bytes@.len()),
            forall|k: int| 0 <= k < r@.len() ==> r@[k] == le_word(bytes@, k),
    {
        let mut words: Vec<u64> = Vec::new();
        let n = bytes.len();
        let mut b: usize = 0;
        while b < n
            invariant
                n == bytes@.len(),
                n + 8 <= usize::MAX,
                b % 8 == 0,
                b <= n + 7,
                words@.len() == b / 8,
                b < n ==> words@.len() < words_for_bytes(n as nat),
                b >= n && n > 0 ==> words@.len() == words_for_bytes(n as nat),
                n == 0 ==> words@.len() == 0,
                forall|k: int| 0 <= k < words@.len() ==> words@[k] == le_word(bytes@, k),
            decreases n + 8 - b,
        {
            let mut b64: u64 = 0;
            let mut i: usize = 0;
            while i < 8
                invariant
                    n == bytes@.len(),
                    b < n,
                    i <= 8,
                    b % 8 == 0,
                    b64 == le_word_n(bytes@, (b / 8) as int, i as nat),
                decreases 8 - i,
            {
                let idx = i + b;
                let byte: u8 = if idx >= n { 0 } else { bytes[idx] };
                assert(byte == byte_at(bytes@, 8 * ((b / 8) as int) + i));
                b64 = b64 | ((byte as u64) << ((i * 8) as u64));
                assert(8 * i == i * 8);
                i = i + 1;
            }
            words.push(b64);
            b = b + 8;
        }
        if words.len() == 0 {
            words.push(0);
            proof { lemma_le_word_empty(bytes@, 0, 8); }
        }
        UintBits(words)
    }

    /// Drops high zero words, keeping at least one.
    pub fn shrink(&mut self)
        ensures
            final(self)@ == shrink_seq(old(self)@),
    {
        while self.0.len() > 1 && self.0[self.0.len() - 1] == 0
            invariant
                shrink_seq(self@) == shrink_seq(old(self)@),
            decreases self@.len(),
        {
            let ghost before = self@;
            self.0.pop();
            assert(self@ =~= before.drop_last());
        }
    }

    /// Keeps the words that hold the first `len` bits.
    pub fn truncate(&mut self, len: usize)
        ensures
            ({
                let n = (len / 64 + if len % 64 != 0 { 1nat } else { 0nat }) as nat;
                final(self)@ == if n <= old(self)@.len() { old(self)@.take(n as int) } else { old(self)@ }
            }),
    {
        let m = len & 63;
        assert(len & 63 == len % 64 && len >> 6 == len / 64) by (bit_vector);
        let n = (len >> 6) + if m != 0 { 1usize } else { 0usize };
        self.0.truncate(n);
    }

    /// Number of bits the words can hold.
    pub fn len(&self) -> (r: usize)
        requires
            self@.len() * 64 <= usize::MAX,
        ensures
            r == self@.len() * 64,
    {
        self.0.len() * 64
    }

    /// Number of bits of the value: zero for zero.
    pub fn bit_len(&self) -> (r: usize)
        requires
            self@.len() * 64 <= usize::MAX,
        ensures
            r == nat_bit_len(self.value()),
    {
        let n = self.0.len();
        let mut k = n;
        while k > 0 && self.0[k - 1] == 0
            invariant
                k <= n,
                n == self@.len(),
                forall|j: int| k <= j < n ==> self@[j] == 0,
            decreases k,
        {
            k = k - 1;
        }
        proof {
            assert(self@.take(k as int) + Seq::new((n - k) as nat, |j: int| 0u64) =~= self@);
            lemma_words_val_zeros(self@.take(k as int), (n - k) as nat);
        }
        if k == 0 {
            proof {
                assert(self@.take(0) =~= Seq::<u64>::empty());
                lemma_nat_bit_len_zero();
            }
            return 0;
        }
        let w = self.0[k - 1];
        let b = word_bit_len(w);
        proof {
            let t = self@.take(k as int);
            assert(t.drop_last() =~= self@.take(k - 1));
            lemma_words_val_bound(t.drop_last());
            lemma_nat_bit_len_top(words_val(t.drop_last()), w as nat, (k - 1) as nat, b as nat);
        }
        (k - 1) * 64 + b
    }

    /// Bit `index` of the words, zero past the end.
    pub fn get(&self, index: usize) -> (r: u8)
        ensures
            r == bit_at(self@, index as int),
    {
        let idx = index >> 6;
        let bit = index & 63;
        assert(index >> 6 == index / 64 && index & 63 == index % 64) by (bit_vector);
        if idx >= self.0.len() {
            assert(0u64 >> (bit as u64) & 1 == 0) by (bit_vector);
            0
        } else {
            let r = ((self.0[idx] >> (bit as u64)) & 1) as u8;
            r
        }
    }

    /// Sets bit `index`, growing the words as needed, then shrinks.
    pub fn set(&mut self, index: usize)
        ensures
            ({
                let idx = index / 64;
                let e = extend_to(old(self)@, (idx + 1) as nat);
                final(self)@ == shrink_seq(e.update(idx as int, e[idx as int] | (1u64 << ((index % 64) as u64))))
            }),
    {
        let idx = index >> 6;
        let bit = index & 63;
        assert(index >> 6 == index / 64 && index & 63 == index % 64) by (bit_vector);
        self.extend_words(idx + 1);
        let w = self.0[idx] | (1u64 << (bit as u64));
        self.0.set(idx, w);
        self.shrink();
    }

    /// Clears bit `index`, growing the words as needed, then shrinks.
    pub fn reset(&mut self, index: usize)
        ensures
            ({
                let idx = index / 64;
                let e = extend_to(old(self)@, (idx + 1) as nat);
                final(self)@ == shrink_seq(e.update(idx as int, e[idx as int] & !(1u64 << ((index % 64) as u64))))
            }),
    {
        let idx = index >> 6;
        let bit = index & 63;
        assert(index >> 6 == index / 64 && index & 63 == index % 64) by (bit_vector);
        self.extend_words(idx + 1);
        let w = self.0[idx] & !(1u64 << (bit as u64));
        self.0.set(idx, w);
        self.shrink();
    }

    /// Pads with zero words up to `n` words.
    fn extend_words(&mut self, n: usize)
        ensures
            final(self)@ == extend_to(old(self)@, n as nat),
    {
        let ghost o = old(self)@;
        if self.0.len() < n {
            while self.0.len() < n
                invariant
                    o.len() < n,
                    self@.len() <= n,
                    self@.len() >= o.len(),
                    self@ =~= o + Seq::new((self@.len() - o.len()) as nat, |j: int| 0u64),
                decreases n - self@.len(),
            {
                self.0.push(0);
            }
        }
    }

    /// Stores `value` as word `data_index`, growing the words as needed.
    pub fn set_bits(&mut self, data_index: usize, value: u64)
        requires
            data_index < usize::MAX,
        ensures
            final(self)@ == extend_to(old(self)@, (data_index + 1) as nat).update(data_index as int, value),
    {
        self.extend_words(data_index + 1);
        self.0.set(data_index, value);
    }

    /// Pads high zero words until as long as `other`; returns how many were added.
    pub fn align_most(&mut self, other: &Self) -> (r: usize)
        ensures
            final(self)@ == extend_to(old(self)@, other@.len()),
            r == if old(self)@.len() < other@.len() { (other@.len() - old(self)@.len()) as nat } else { 0 },
    {
        if self.0.len() < other.0.len() {
            let align = other.0.len() - self.0.len();
            self.extend_words(other.0.len());
            align
        } else {
            0
        }
    }

    /// Prepends low zero words until as long as `other`; returns how many were added.
    pub fn align_least(&mut self, other: &Self) -> (r: usize)
        ensures
            r == if old(self)@.len() < other@.len() { (other@.len() - old(self)@.len()) as nat } else { 0 },
            final(self)@ == Seq::new(r as nat, |j: int| 0u64) + old(self)@,
    {
        if self.0.len() < other.0.len() {
            let align = other.0.len() - self.0.len();
            self.prepend_zeros(align);
            align
        } else {
            assert(Seq::new(0, |j: int| 0u64) + self@ =~= self@);
            0
        }
    }

    /// Prepends `k` zero words.
    fn prepend_zeros(&mut self, k: usize)
        requires
            old(self)@.len() + k <= usize::MAX,
        ensures
            final(self)@ == Seq::new(k as nat, |j: int| 0u64) + old(self)@,
    {
        let mut v: Vec<u64> = Vec::new();
        let mut i: usize = 0;
        while i < k
            invariant
                i <= k,
                v@ =~= Seq::new(i as nat, |j: int| 0u64),
            decreases k - i,
        {
            v.push(0);
            i = i + 1;
        }
        let mut j: usize = 0;
        while j < self.0.len()
            invariant
                j <= self@.len(),
                v@ =~= Seq::new(k as nat, |t: int| 0u64) + self@.take(j as int),
            decreases self@.len() - j,
        {
            v.push(self.0[j]);
            j = j + 1;
        }
        assert(self@.take(self@.len() as int) =~= self@);
        self.0 = v;
    }

    /// Folds `f` over the words from the lowest up, starting from `init`.
    pub fn fold_bits<B>(&self, init: B, f: impl Fn(B, &u64) -> B) -> (r: B)
        requires
            forall|b: B, w: &u64| #[trigger] f.requires((b, w)),
        ensures
            exists|acc: Seq<B>| {
                &&& acc.len() == self@.len() + 1
                &&& acc[0] == init
                &&& acc.last() == r
                &&& forall|i: int| 0 <= i < self@.len() ==> #[trigger] f.ensures((acc[i], &self@[i]), acc[i + 1])
            },
    {
        let mut acc = init;
        let ghost mut trace: Seq<B> = seq![acc];
        let mut i: usize = 0;
        while i < self.0.len()
            invariant
                i <= self@.len(),
                trace.len() == i + 1,
                trace[0] == init,
                trace.last() == acc,
                forall|b: B, w: &u64| #[trigger] f.requires((b, w)),
                forall|j: int| 0 <= j < i ==> #[trigger] f.ensures((trace[j], &self@[j]), trace[j + 1]),
            decreases self@.len() - i,
        {
            let w = &self.0[i];
            let ghost before = trace;
            let nxt = f(acc, w);
            proof {
                trace = trace.push(nxt);
                assert forall|j: int| 0 <= j < i + 1 implies #[trigger] f.ensures((trace[j], &self@[j]), trace[j + 1]) by {
                    if j < i {
                        assert(trace[j] == before[j] && trace[j + 1] == before[j + 1]);
                    }
                }
            }
            acc = nxt;
            i = i + 1;
        }
        acc
    }

    /// Whether every word is zero (true for no words).
    pub fn all_zero(&self) -> (r: bool)
        ensures
            r == all_zero_seq(self@),
            r == (self.value() == 0),
    {
        proof { lemma_words_val_all_zero(self@); }
        let mut i: usize = 0;
        while i < self.0.len()
            invariant
                i <= self@.len(),
                forall|j: int| 0 <= j < i ==> self@[j] == 0,
            decreases self@.len() - i,
        {
            if self.0[i] != 0 {
                proof { lemma_words_val_all_zero(self@); }
                return false;
            }
            i = i + 1;
        }
        true
    }

    /// Inverts every word, then shrinks.
    pub fn not_self(&mut self)
        ensures
            final(self)@ == shrink_seq(Seq::new(old(self)@.len(), |i: int| !old(self)@[i])),
    {
        let ghost o = self@;
        let mut i: usize = 0;
        while i < self.0.len()
            invariant
                i <= self@.len(),
                self@.len() == o.len(),
                forall|j: int| 0 <= j < i ==> self@[j] == !o[j],
                forall|j: int| i <= j < self@.len() ==> self@[j] == o[j],
            decreases self@.len() - i,
        {
            let w = self.0[i];
            self.0.set(i, !w);
            i = i + 1;
        }
        assert(self@ =~= Seq::new(o.len(), |i: int| !o[i]));
        self.shrink();
    }

    /// A copy with every word inverted, then shrunk.
    pub fn not(&self) -> (r: Self)
        ensures
            r@ == shrink_seq(Seq::new(self@.len(), |i: int| !self@[i])),
    {
        let mut ret = self.copy();
        ret.not_self();
        ret
    }
}

pub proof fn lemma_le_word_empty(b: Seq<u8>, k: int, n: nat)
    requires
        b.len() == 0,
    ensures
        le_word_n(b, k, n) == 0,
    decreases n,
{
    if n > 0 {
        lemma_le_word_empty(b, k, (n - 1) as nat);
        let sh = (8 * (n - 1)) as u64;
        assert(0u64 | ((0u8 as u64) << sh) == 0) by (bit_vector);
    }
}

/// Number of bits of a natural number.
pub open spec fn nat_bit_len(v: nat) -> nat
    decreases v,
{
    if v == 0 {
        0
    } else {
        1 + nat_bit_len(v / 2)
    }
}

pub proof fn lemma_nat_bit_len_zero()
    ensures
        nat_bit_len(0) == 0,
{
}

/// `b` is the bit length of `v` exactly when `v` lies in `[2^(b-1), 2^b)`.
pub proof fn lemma_nat_bit_len_range(v: nat, b: nat)
    requires
        v < pow2(b),
        b == 0 || pow2((b - 1) as nat) <= v,
    ensures
        nat_bit_len(v) == b,
    decreases b,
{
    lemma_pow2_pos(b);
    if b == 0 {
        assert(pow2(0) == 1) by { lemma2_to64(); }
    } else if b == 1 {
        lemma2_to64();
        assert(v == 1);
        assert(nat_bit_len(0) == 0);
    } else {
        lemma_pow2_unfold(b);
        lemma_pow2_unfold((b - 1) as nat);
        lemma_pow2_pos((b - 2) as nat);
        assert(v / 2 < pow2((b - 1) as nat)) by {
            lemma_div_by_multiple_is_strongly_ordered(v as int, pow2(b) as int, pow2((b - 1) as nat) as int, 2);
            lemma_div_by_multiple(pow2((b - 1) as nat) as int, 2);
        }
        assert(pow2((b - 2) as nat) <= v / 2) by {
            lemma_div_is_ordered(pow2((b - 1) as nat) as int, v as int, 2);
            lemma_div_by_multiple(pow2((b - 2) as nat) as int, 2);
        }
        lemma_nat_bit_len_range(v / 2, (b - 1) as nat);
    }
}

/// Bit length of a number whose top word `w` (nonzero) sits at word `k` above `low`.
pub proof fn lemma_nat_bit_len_top(low: nat, w: nat, k: nat, b: nat)
    requires
        low < wpow(k),
        w > 0,
        w < pow2(b),
        pow2((b - 1) as nat) <= w,
        b >= 1,
        b <= 64,
    ensures
        nat_bit_len(low + w * wpow(k)) == 64 * k + b,
{
    let v = low + w * wpow(k);
    lemma_pow2_adds(b, 64 * k);
    lemma_pow2_adds((b - 1) as nat, 64 * k);
    // upper: v < wpow(k) + (2^b - 1) * wpow(k) = 2^b * wpow(k)
    assert(w * wpow(k) <= (pow2(b) - 1) * wpow(k)) by {
        lemma_mul_inequality(w as int, pow2(b) - 1, wpow(k) as int);
    }
    assert((pow2(b) - 1) * wpow(k) == pow2(b) * wpow(k) - wpow(k)) by {
        lemma_mul_is_distributive_sub_other_way(wpow(k) as int, pow2(b) as int, 1);
    }
    assert(pow2((b - 1) as nat) * wpow(k) <= w * wpow(k)) by {
        lemma_mul_inequality(pow2((b - 1) as nat) as int, w as int, wpow(k) as int);
    }
    assert(64 * k + b - 1 == (b - 1) + 64 * k);
    lemma_nat_bit_len_range(v, 64 * k + b);
}

/// A number lies below two to its bit length and, when nonzero, at or above half of that.
pub proof fn lemma_nat_bit_len_bounds(v: nat)
    ensures
        v < pow2(nat_bit_len(v)),
        v > 0 ==> pow2((nat_bit_len(v) - 1) as nat) <= v,
    decreases v,
{
    lemma2_to64();
    if v > 0 {
        let h = v / 2;
        lemma_nat_bit_len_bounds(h);
        let b = nat_bit_len(h);
        assert(nat_bit_len(v) == b + 1);
        lemma_pow2_unfold(b + 1);
        assert(pow2(b + 1) == 2 * pow2(b));
        if h > 0 {
            lemma_pow2_unfold(b);
            assert(pow2(b) == 2 * pow2((b - 1) as nat));
        } else {
            assert(b == 0);
        }
    }
}

/// A number below `2^k` has at most `k` bits.
pub proof fn lemma_bit_len_le(v: nat, k: nat)
    requires
        v < pow2(k),
    ensures
        nat_bit_len(v) <= k,
{
    lemma_nat_bit_len_bounds(v);
    if nat_bit_len(v) > k {
        let e = (nat_bit_len(v) - 1) as nat;
        if e > k {
            lemma_pow2_strictly_increases(k, e);
        }
    }
}

/// A canonical vector is no longer than a bound on its value allows.
pub proof fn lemma_canonical_len(s: Seq<u64>, k: nat)
    requires
        s.len() >= 1,
        is_shrunk(s),
        words_val(s) < pow2(k),
    ensures
        s.len() <= k / 64 + 1,
        k >= 1 ==> s.len() <= (k - 1) / 64 + 1,
{
    if s.len() > 1 {
        crate::big_num::words::lemma_words_val_lower(s);
        let e = (64 * (s.len() - 1)) as nat;
        if e >= k {
            if e > k {
                lemma_pow2_strictly_increases(k, e);
            }
            assert(false);
        }
    }
}

/// Bit length of a single word.
fn word_bit_len(w: u64) -> (r: usize)
    requires
        w > 0,
    ensures
        1 <= r <= 64,
        w < pow2(r as nat),
        pow2((r - 1) as nat) <= w,
{
    let mut x = w;
    let mut n: usize = 0;
    proof { lemma2_to64(); }
    while x > 0
        invariant
            n <= 64,
            x as nat == w as nat / pow2(n as nat),
            n > 0 ==> pow2((n - 1) as nat) <= w,
        decreases x,
    {
        proof {
            lemma2_to64();
            lemma_pow2_pos(n as nat);
            if n == 64 {
                lemma2_to64_rest();
                lemma_basic_div(w as int, pow2(64) as int);
            }
            // x > 0 means w >= 2^n
            lemma_fundamental_div_mod(w as int, pow2(n as nat) as int);
            lemma_mul_inequality(1, x as int, pow2(n as nat) as int);
            lemma_div_denominator(w as int, pow2(n as nat) as int, 2);
            lemma_pow2_adds(n as nat, 1);
        }
        assert(x >> 1 == x / 2) by (bit_vector);
        x = x >> 1;
        n = n + 1;
    }
    proof {
        lemma_pow2_pos(n as nat);
        if w as nat >= pow2(n as nat) {
            lemma_div_is_ordered(pow2(n as nat) as int, w as int, pow2(n as nat) as int);
            lemma_div_by_self(pow2(n as nat) as int);
        }
        if n == 0 {
            assert(w as nat / 1 == w as nat);
        }
    }
    n
}

impl Clone for UintBits {
    fn clone(&self) -> (r: Self)
        ensures
            r@ == self@,
    {
        self.copy()
    }
}

impl PartialEq for UintBits {
    fn eq(&self, other: &Self) -> (r: bool) {
        self.same(other)
    }
}

impl PartialEqSpecImpl for UintBits {
    open spec fn obeys_eq_spec() -> bool {
        true
    }

    open spec fn eq_spec(&self, other: &Self) -> bool {
        self@ == other@
    }
}

impl Eq for UintBits {
}

impl From<Vec<u64>> for UintBits {
    fn from(v: Vec<u64>) -> (r: Self) {
        UintBits(v)
    }
}

impl FromSpecImpl<Vec<u64>> for UintBits {
    open spec fn obeys_from_spec() -> bool {
        true
    }

    open spec fn from_spec(v: Vec<u64>) -> Self {
        UintBits(v)
    }
}


/// The operation a word-wise combination applies.
#[derive(Clone, Copy)]
pub enum BitOp {
    And,
    Or,
    Xor,
}

pub open spec fn apply_bit_op(op: BitOp, x: u64, y: u64) -> u64 {
    match op {
        BitOp::And => x & y,
        BitOp::Or => x | y,
        BitOp::Xor => x ^ y,
    }
}

/// Word-wise combination of two vectors padded with zeros to the longer length.
pub open spec fn combine_words(a: Seq<u64>, b: Seq<u64>, op: BitOp) -> Seq<u64> {
    let n = if a.len() >= b.len() { a.len() } else { b.len() };
    Seq::new(n, |i: int| apply_bit_op(op, word_at(a, i), word_at(b, i)))
}

/// Shifting a word left: the kept low part plus the carried-out high part.
pub proof fn lemma_shl_word(w: u64, sh: u64)
    requires
        0 < sh < 64,
    ensures
        (w << sh) as nat + (w >> (64 - sh) as u64) as nat * pow2(64) == w as nat * pow2(sh as nat),
        (w >> (64 - sh) as u64) < (1u64 << sh),
        (1u64 << sh) as nat == pow2(sh as nat),
{
    let k = (64 - sh) as u64;
    let mk = ((1u64 << k) - 1) as u64;
    assert((w << sh) == ((w & mk) << sh) && (1u64 << k) >= 1) by (bit_vector)
        requires 0 < sh < 64, k == 64 - sh, mk == ((1u64 << k) - 1) as u64;
    lemma_mask_is_mod(w, k);
    assert((w >> k) < (1u64 << sh)) by (bit_vector)
        requires 0 < sh < 64, k == 64 - sh;
    lemma_u64_pow2_no_overflow(k as nat);
    lemma_u64_pow2_no_overflow(sh as nat);
    lemma_u64_shl_is_mul(1, k);
    lemma_u64_shl_is_mul(1, sh);
    let lo = w & mk;
    let hi = w >> k;
    lemma_u64_shr_is_div(w, k);
    lemma_pow2_adds(k as nat, sh as nat);
    lemma_fundamental_div_mod(w as int, pow2(k as nat) as int);
    assert(lo < pow2(k as nat)) by {
        lemma_mod_bound(w as int, pow2(k as nat) as int);
    }
    assert(lo * pow2(sh as nat) < pow2(64)) by {
        lemma_mul_strict_inequality(lo as int, pow2(k as nat) as int, pow2(sh as nat) as int);
    }
    lemma2_to64_rest();
    lemma_u64_shl_is_mul(lo, sh);
    // w * 2^sh = (2^k * hi + lo) * 2^sh = hi * 2^64 + lo * 2^sh
    assert(w as nat * pow2(sh as nat) == (pow2(k as nat) * hi + lo) * pow2(sh as nat));
    lemma_mul_is_distributive_add_other_way(pow2(sh as nat) as int, (pow2(k as nat) * hi) as int, lo as int);
    lemma_mul_is_associative(pow2(k as nat) as int, hi as int, pow2(sh as nat) as int);
    lemma_mul_is_commutative(hi as int, pow2(sh as nat) as int);
    lemma_mul_is_associative(pow2(k as nat) as int, pow2(sh as nat) as int, hi as int);
    lemma_mul_is_commutative(pow2(64) as int, hi as int);
}

/// Shifting a word right while taking in the low bits of the next word.
pub proof fn lemma_shr_word(a: u64, b: u64, sh: u64)
    requires
        0 < sh < 64,
    ensures
        ({
            let m = (a >> sh) | ((b & ((1u64 << sh) - 1) as u64) << (64 - sh) as u64);
            m as nat * pow2(sh as nat) + a as nat % pow2(sh as nat)
                == a as nat + (b as nat % pow2(sh as nat)) * pow2(64)
        }),
{
    let k = (64 - sh) as u64;
    let mask = ((1u64 << sh) - 1) as u64;
    let c = b & mask;
    let m = (a >> sh) | (c << k);
    assert(c < (1u64 << sh) && m == (a >> sh) + (c << k) && (a >> sh) < (1u64 << k)) by (bit_vector)
        requires 0 < sh < 64, k == 64 - sh, mask == ((1u64 << sh) - 1) as u64, c == b & mask,
            m == (a >> sh) | (c << k);
    lemma_mask_is_mod(b, sh);
    lemma_u64_pow2_no_overflow(k as nat);
    lemma_u64_pow2_no_overflow(sh as nat);
    lemma_u64_shl_is_mul(1, k);
    lemma_u64_shl_is_mul(1, sh);
    lemma_pow2_adds(k as nat, sh as nat);
    lemma2_to64_rest();
    assert(c * pow2(k as nat) < pow2(64)) by {
        lemma_mul_strict_inequality(c as int, pow2(sh as nat) as int, pow2(k as nat) as int);
        lemma_mul_is_commutative(pow2(sh as nat) as int, pow2(k as nat) as int);
    }
    lemma_u64_shl_is_mul(c, k);
    lemma_u64_shr_is_div(a, sh);
    lemma_fundamental_div_mod(a as int, pow2(sh as nat) as int);
    let q = a as nat / pow2(sh as nat);
    assert(m as nat * pow2(sh as nat) == q * pow2(sh as nat) + c * pow2(k as nat) * pow2(sh as nat)) by {
        lemma_mul_is_distributive_add_other_way(pow2(sh as nat) as int, q as int, (c * pow2(k as nat)) as int);
    }
    lemma_mul_is_associative(c as int, pow2(k as nat) as int, pow2(sh as nat) as int);
    lemma_mul_is_commutative(q as int, pow2(sh as nat) as int);
}

/// And with the low `k`-bit mask is the remainder modulo `2^k`.
pub proof fn lemma_mask_is_mod(x: u64, k: u64)
    requires
        k < 64,
    ensures
        (1u64 << k) as nat == pow2(k as nat),
        (x & ((1u64 << k) - 1) as u64) as nat == x as nat % pow2(k as nat),
        (x & ((1u64 << k) - 1) as u64) < (1u64 << k),
{
    lemma_u64_pow2_no_overflow(k as nat);
    lemma_u64_shl_is_mul(1, k);
    lemma_u64_low_bits_mask_is_mod(x, k as nat);
    assert((x & ((1u64 << k) - 1) as u64) < (1u64 << k)) by (bit_vector)
        requires k < 64;
}

/// Algebra of one step of the left-shift loop.
proof fn lemma_shl_step(vn: nat, vo: nat, carry: nat, nc: nat, lw: nat, w: nat, p: nat, wp: nat, b: nat)
    by (nonlinear_arith)
    requires
        vn + carry * wp == vo * p,
        lw + nc * b == w * p,
    ensures
        vn + (lw + carry) * wp + nc * (wp * b) == (vo + w * wp) * p,
{
}

/// Algebra of one step of the right-shift loop.
proof fn lemma_shr_step(vn: nat, vo: nat, lo0: nat, loi: nat, loj: nat, m: nat, w: nat, p: nat, wp: nat, b: nat)
    by (nonlinear_arith)
    requires
        vn * p + lo0 == vo + loi * wp,
        m * p + loi == w + loj * b,
    ensures
        (vn + m * wp) * p + lo0 == vo + w * wp + loj * (wp * b),
{
}

impl UintBits {
    /// Combines word-wise with `rhs` (padding the shorter with zeros), then shrinks.
    fn combine(&mut self, rhs: &Self, op: BitOp)
        ensures
            final(self)@ == shrink_seq(combine_words(old(self)@, rhs@, op)),
    {
        let ghost o = self@;
        self.align_most(rhs);
        let n = self.0.len();
        let mut i: usize = 0;
        while i < n
            invariant
                n == self@.len(),
                n == if o.len() >= rhs@.len() { o.len() } else { rhs@.len() },
                i <= n,
                forall|j: int| 0 <= j < i ==> self@[j] == apply_bit_op(op, word_at(o, j), word_at(rhs@, j)),
                forall|j: int| i <= j < n ==> self@[j] == word_at(o, j),
            decreases n - i,
        {
            let x = self.0[i];
            let y = if i < rhs.0.len() { rhs.0[i] } else { 0 };
            let z = match op {
                BitOp::And => x & y,
                BitOp::Or => x | y,
                BitOp::Xor => x ^ y,
            };
            self.0.set(i, z);
            i = i + 1;
        }
        assert(self@ =~= combine_words(o, rhs@, op));
        self.shrink();
    }

    /// Word-wise and with `rhs`, then shrinks.
    pub fn bitand_assign(&mut self, rhs: &Self)
        ensures
            final(self)@ == shrink_seq(combine_words(old(self)@, rhs@, BitOp::And)),
    {
        self.combine(rhs, BitOp::And)
    }

    /// Word-wise or with `rhs`, then shrinks.
    pub fn bitor_assign(&mut self, rhs: &Self)
        ensures
            final(self)@ == shrink_seq(combine_words(old(self)@, rhs@, BitOp::Or)),
    {
        self.combine(rhs, BitOp::Or)
    }

    /// Word-wise exclusive or with `rhs`, then shrinks.
    pub fn bitxor_assign(&mut self, rhs: &Self)
        ensures
            final(self)@ == shrink_seq(combine_words(old(self)@, rhs@, BitOp::Xor)),
    {
        self.combine(rhs, BitOp::Xor)
    }

    /// A word-wise and of two vectors, shrunk.
    pub fn bitand(&self, rhs: &Self) -> (r: Self)
        ensures
            r@ == shrink_seq(combine_words(self@, rhs@, BitOp::And)),
    {
        let mut ret = self.copy();
        ret.combine(rhs, BitOp::And);
        ret
    }

    /// A word-wise or of two vectors, shrunk.
    pub fn bitor(&self, rhs: &Self) -> (r: Self)
        ensures
            r@ == shrink_seq(combine_words(self@, rhs@, BitOp::Or)),
    {
        let mut ret = self.copy();
        ret.combine(rhs, BitOp::Or);
        ret
    }

    /// A word-wise exclusive or of two vectors, shrunk.
    pub fn bitxor(&self, rhs: &Self) -> (r: Self)
        ensures
            r@ == shrink_seq(combine_words(self@, rhs@, BitOp::Xor)),
    {
        let mut ret = self.copy();
        ret.combine(rhs, BitOp::Xor);
        ret
    }

    /// Multiplies the value by `2^rhs`.
    ///
    /// A shift by whole words only prepends zero words; any other nonzero shift leaves the
    /// words shrunk.
    #[verifier::spinoff_prover]
    pub fn shl_assign(&mut self, rhs: usize)
        requires
            old(self)@.len() + rhs / 64 + 1 <= usize::MAX,
        ensures
            words_val(final(self)@) == words_val(old(self)@) * pow2(rhs as nat),
            rhs == 0 ==> final(self)@ == old(self)@,
            rhs != 0 && rhs % 64 == 0 ==> final(self)@ == Seq::new(rhs as nat / 64, |j: int| 0u64) + old(self)@,
            rhs % 64 != 0 ==> is_shrunk(final(self)@),
            rhs % 64 != 0 ==> (final(self)@.len() == 0 <==> (old(self)@.len() == 0 && rhs < 64)),
    {
        let ghost old_v = self@;
        proof { lemma2_to64(); }
        if rhs == 0 {
            return;
        }
        let step = rhs >> 6;
        let shift = (rhs & 63) as u64;
        assert(rhs >> 6 == rhs / 64 && rhs & 63 == rhs % 64) by (bit_vector);
        proof {
            lemma_pow2_adds(64 * (rhs / 64) as nat, (rhs % 64) as nat);
        }
        self.prepend_zeros(step);
        proof { lemma_words_val_prepend_zeros(old_v, step as nat); }
        if shift == 0 {
            proof {
                lemma_mul_is_commutative(words_val(old_v) as int, wpow(step as nat) as int);
            }
            return;
        }
        let ghost o = self@;
        let n = self.0.len();
        let mut carry: u64 = 0;
        let mut i: usize = 0;
        proof {
            lemma_u64_pow2_no_overflow(shift as nat);
            lemma_u64_shl_is_mul(1, shift);
            lemma_wpow_succ(0);
            assert(o.take(0) =~= Seq::<u64>::empty());
            assert(self@.take(0) =~= Seq::<u64>::empty());
            assert(words_val(Seq::<u64>::empty()) == 0);
        }
        while i < n
            invariant
                0 < shift < 64,
                n == self@.len(),
                n == o.len(),
                i <= n,
                forall|j: int| i <= j < n ==> self@[j] == o[j],
                carry < (1u64 << shift),
                (1u64 << shift) as nat == pow2(shift as nat),
                words_val(self@.take(i as int)) + carry as nat * wpow(i as nat)
                    == words_val(o.take(i as int)) * pow2(shift as nat),
            decreases n - i,
        {
            let w = self.0[i];
            let nc = w >> (64 - shift);
            proof { lemma_shl_word(w, shift); }
            let lw = w << shift;
            assert(lw | carry == lw + carry) by (bit_vector)
                requires lw == w << shift, carry < (1u64 << shift), 0 < shift < 64;
            let nw = lw | carry;
            let ghost prev = self@;
            self.0.set(i, nw);
            proof {
                assert(self@.take(i as int) =~= prev.take(i as int));
                assert(self@.take(i + 1) =~= self@.take(i as int).push(nw));
                assert(o.take(i + 1) =~= o.take(i as int).push(w));
                lemma_words_val_push(self@.take(i as int), nw);
                lemma_words_val_push(o.take(i as int), w);
                lemma_wpow_succ(i as nat);
                lemma_shl_step(words_val(prev.take(i as int)), words_val(o.take(i as int)), carry as nat,
                    nc as nat, lw as nat, w as nat, pow2(shift as nat), wpow(i as nat), pow2(64));
            }
            carry = nc;
            i = i + 1;
        }
        proof {
            assert(self@.take(n as int) =~= self@);
            assert(o.take(n as int) =~= o);
            if n == 0 {
                lemma_wpow_succ(0);
                assert(o.take(0) =~= Seq::<u64>::empty());
                assert(self@.take(0) =~= Seq::<u64>::empty());
                assert(words_val(Seq::<u64>::empty()) == 0);
                lemma_mul_basics(pow2(shift as nat) as int);
                assert(i == 0);
                assert(words_val(self@.take(i as int)) == 0);
                assert(words_val(o.take(i as int)) * pow2(shift as nat) == 0);
                assert(carry as nat * wpow(i as nat) == 0);
                assert(wpow(i as nat) == 1);
                assert(carry == 0) by (nonlinear_arith)
                    requires carry as nat * 1 == 0;
            }
        }
        if carry != 0 {
            proof { lemma_words_val_push(self@, carry); }
            self.0.push(carry);
        }
        proof {
            lemma_shrink_seq(self@);
            lemma_mul_is_associative(words_val(old_v) as int, wpow(step as nat) as int, pow2(shift as nat) as int);
            assert(o.len() == old_v.len() + step);
            assert(step == 0 <==> rhs < 64);
            assert(self@.len() >= o.len());
            assert(self@.len() == 0 <==> (old_v.len() == 0 && rhs < 64)) by {
                if self@.len() == 0 {
                    assert(n == 0);
                }
                if old_v.len() == 0 && rhs < 64 {
                    assert(n == 0);
                    assert(carry == 0);
                }
            }
        }
        let ghost pre = self@;
        self.shrink();
        proof {
            assert(self@.len() == 0 <==> pre.len() == 0);
        }
    }

    /// Divides the value by `2^rhs`, dropping the low bits.
    ///
    /// Shifting out every word leaves no words; a shift by whole words only drops low words;
    /// any other nonzero shift leaves the words shrunk.
    #[verifier::spinoff_prover]
    pub fn shr_assign(&mut self, rhs: usize)
        ensures
            words_val(final(self)@) == words_val(old(self)@) / pow2(rhs as nat),
            rhs == 0 ==> final(self)@ == old(self)@,
            rhs != 0 && old(self)@.len() <= rhs / 64 ==> final(self)@.len() == 0,
            rhs != 0 && old(self)@.len() > rhs / 64 && rhs % 64 == 0 ==> final(self)@ == old(self)@.skip(rhs as int / 64),
            rhs != 0 && old(self)@.len() > rhs / 64 && rhs % 64 != 0 ==> is_shrunk(final(self)@) && final(self)@.len() >= 1,
    {
        let ghost old_v = self@;
        proof {
            lemma2_to64();
            lemma_pow2_pos(rhs as nat);
        }
        if rhs == 0 {
            proof { lemma_div_by_self(1); }
            return;
        }
        let step = rhs >> 6;
        let shift = (rhs & 63) as u64;
        assert(rhs >> 6 == rhs / 64 && rhs & 63 == rhs % 64) by (bit_vector);
        proof {
            lemma_pow2_adds(64 * (rhs / 64) as nat, (rhs % 64) as nat);
            lemma_pow2_pos((rhs % 64) as nat);
            lemma_wpow_succ(step as nat);
        }
        if self.0.len() <= step {
            proof {
                lemma_words_val_bound(old_v);
                lemma_wpow_mono(old_v.len(), step as nat);
                lemma_mul_inequality(1, pow2(shift as nat) as int, wpow(step as nat) as int);
                lemma_mul_is_commutative(pow2(shift as nat) as int, wpow(step as nat) as int);
                lemma_basic_div(words_val(old_v) as int, pow2(rhs as nat) as int);
            }
            self.0 = Vec::new();
            return;
        }
        if step > 0 {
            let mut v: Vec<u64> = Vec::new();
            let mut j: usize = step;
            while j < self.0.len()
                invariant
                    step <= j <= self@.len(),
                    v@ =~= self@.subrange(step as int, j as int),
                decreases self@.len() - j,
            {
                v.push(self.0[j]);
                j = j + 1;
            }
            self.0 = v;
        }
        proof {
            assert(self@ =~= old_v.skip(step as int));
            lemma_words_val_split(old_v, step as int);
            lemma_words_val_bound(old_v.take(step as int));
            lemma_fundamental_div_mod_converse(words_val(old_v) as int, wpow(step as nat) as int,
                words_val(self@) as int, words_val(old_v.take(step as int)) as int);
        }
        if shift == 0 {
            return;
        }
        let ghost o = self@;
        let n = self.0.len();
        proof {
            lemma_wpow_succ(0);
            assert(o.take(0) =~= Seq::<u64>::empty());
            assert(self@.take(0) =~= Seq::<u64>::empty());
            assert(words_val(Seq::<u64>::empty()) == 0);
            lemma_u64_pow2_no_overflow(shift as nat);
            lemma_u64_shl_is_mul(1, shift);
        }
        let mask: u64 = ((1u64 << shift) - 1) as u64;
        let mut i: usize = 0;
        while i < n
            invariant
                0 < shift < 64,
                mask == ((1u64 << shift) - 1) as u64,
                n == self@.len(),
                n == o.len(),
                n >= 1,
                i <= n,
                forall|j: int| i <= j < n ==> self@[j] == o[j],
                words_val(self@.take(i as int)) * pow2(shift as nat) + o[0] as nat % pow2(shift as nat)
                    == words_val(o.take(i as int)) + word_at(o, i as int) as nat % pow2(shift as nat) * wpow(i as nat),
            decreases n - i,
        {
            let a = self.0[i];
            let b: u64 = if i + 1 < n { self.0[i + 1] } else { 0 };
            let m = (a >> shift) | ((b & mask) << (64 - shift));
            proof { lemma_shr_word(a, b, shift); }
            let ghost prev = self@;
            self.0.set(i, m);
            proof {
                assert(b == word_at(o, i + 1));
                assert(self@.take(i as int) =~= prev.take(i as int));
                assert(self@.take(i + 1) =~= self@.take(i as int).push(m));
                assert(o.take(i + 1) =~= o.take(i as int).push(a));
                lemma_words_val_push(self@.take(i as int), m);
                lemma_words_val_push(o.take(i as int), a);
                lemma_wpow_succ(i as nat);
                lemma_shr_step(words_val(prev.take(i as int)), words_val(o.take(i as int)),
                    o[0] as nat % pow2(shift as nat), a as nat % pow2(shift as nat),
                    b as nat % pow2(shift as nat), m as nat, a as nat, pow2(shift as nat), wpow(i as nat), pow2(64));
            }
            i = i + 1;
        }
        proof {
            assert(self@.take(n as int) =~= self@);
            assert(o.take(n as int) =~= o);
            lemma_pow2_pos(shift as nat);
            lemma_mod_bound(o[0] as int, pow2(shift as nat) as int);
            assert(word_at(o, n as int) == 0);
            lemma_small_mod(0, pow2(shift as nat));
            assert(word_at(o, n as int) as nat % pow2(shift as nat) == 0);
            lemma_mul_basics(wpow(n as nat) as int);
            assert(word_at(o, n as int) as nat % pow2(shift as nat) * wpow(n as nat) == 0);
            assert(words_val(self@) * pow2(shift as nat) + o[0] as nat % pow2(shift as nat) == words_val(o));
            lemma_fundamental_div_mod_converse(words_val(o) as int, pow2(shift as nat) as int,
                words_val(self@) as int, (o[0] as nat % pow2(shift as nat)) as int);
            lemma_div_denominator(words_val(old_v) as int, wpow(step as nat) as int, pow2(shift as nat) as int);
            lemma_shrink_seq(self@);
        }
        self.shrink();
    }

    /// A copy with the value multiplied by `2^rhs` (see `shl_assign`).
    pub fn shl(&self, rhs: usize) -> (r: Self)
        requires
            self@.len() + rhs / 64 + 1 <= usize::MAX,
        ensures
            words_val(r@) == words_val(self@) * pow2(rhs as nat),
            rhs == 0 ==> r@ == self@,
            rhs != 0 && rhs % 64 == 0 ==> r@ == Seq::new(rhs as nat / 64, |j: int| 0u64) + self@,
            rhs % 64 != 0 ==> is_shrunk(r@),
            rhs % 64 != 0 ==> (r@.len() == 0 <==> (self@.len() == 0 && rhs < 64)),
    {
        let mut ret = self.copy();
        ret.shl_assign(rhs);
        ret
    }

    /// A copy with the value divided by `2^rhs` (see `shr_assign`).
    pub fn shr(&self, rhs: usize) -> (r: Self)
        ensures
            words_val(r@) == words_val(self@) / pow2(rhs as nat),
            rhs == 0 ==> r@ == self@,
            rhs != 0 && self@.len() <= rhs / 64 ==> r@.len() == 0,
            rhs != 0 && self@.len() > rhs / 64 && rhs % 64 == 0 ==> r@ == self@.skip(rhs as int / 64),
            rhs != 0 && self@.len() > rhs / 64 && rhs % 64 != 0 ==> is_shrunk(r@) && r@.len() >= 1,
    {
        let mut ret = self.copy();
        ret.shr_assign(rhs);
        ret
    }
}

/// A cursor over the bits of a word vector, from bit 0 forward or from the top backward.
pub struct BitIter {
    words: Vec<u64>,
    front: usize,
    back: usize,
}

impl BitIter {
    pub closed spec fn words_seq(&self) -> Seq<u64> {
        self.words@
    }

    /// Index of the next bit from the front.
    pub closed spec fn front_index(&self) -> nat {
        self.front as nat
    }

    /// One past the index of the next bit from the back.
    pub closed spec fn back_index(&self) -> nat {
        self.back as nat
    }

    pub closed spec fn wf(&self) -> bool {
        self.front <= self.back <= self.words@.len() * 64
    }

    /// A cursor over all `64 * vec.len()` bits of `vec`.
    pub fn new(vec: &Vec<u64>) -> (r: Self)
        requires
            vec@.len() * 64 <= usize::MAX,
        ensures
            r.wf(),
            r.words_seq() == vec@,
            r.front_index() == 0,
            r.back_index() == vec@.len() * 64,
    {
        BitIter { words: vec.clone(), front: 0, back: vec.len() * 64 }
    }

    /// The next bit from the front, or `None` when every bit has been taken.
    pub fn next(&mut self) -> (r: Option<u8>)
        requires
            old(self).wf(),
        ensures
            final(self).wf(),
            final(self).words_seq() == old(self).words_seq(),
            final(self).back_index() == old(self).back_index(),
            old(self).front_index() < old(self).back_index() ==> r == Some(bit_at(old(self).words_seq(), old(self).front_index() as int))
                && final(self).front_index() == old(self).front_index() + 1,
            old(self).front_index() >= old(self).back_index() ==> r is None && final(self).front_index() == old(self).front_index(),
    {
        if self.front < self.back {
            let i = self.front;
            let b = get_bit(&self.words, i);
            self.front = i + 1;
            Some(b)
        } else {
            None
        }
    }

    /// The next bit from the back, or `None` when every bit has been taken.
    pub fn next_back(&mut self) -> (r: Option<u8>)
        requires
            old(self).wf(),
        ensures
            final(self).wf(),
            final(self).words_seq() == old(self).words_seq(),
            final(self).front_index() == old(self).front_index(),
            old(self).front_index() < old(self).back_index() ==> r == Some(bit_at(old(self).words_seq(), old(self).back_index() - 1))
                && final(self).back_index() == old(self).back_index() - 1,
            old(self).front_index() >= old(self).back_index() ==> r is None && final(self).back_index() == old(self).back_index(),
    {
        if self.front < self.back {
            let i = self.back - 1;
            let b = get_bit(&self.words, i);
            self.back = i;
            Some(b)
        } else {
            None
        }
    }
}

/// Bit `index` of a word vector, zero past the end.
fn get_bit(words: &Vec<u64>, index: usize) -> (r: u8)
    ensures
        r == bit_at(words@, index as int),
{
    let idx = index >> 6;
    let bit = index & 63;
    assert(index >> 6 == index / 64 && index & 63 == index % 64) by (bit_vector);
    if idx >= words.len() {
        assert(0u64 >> (bit as u64) & 1 == 0) by (bit_vector);
        0
    } else {
        ((words[idx] >> (bit as u64)) & 1) as u8
    }
}

/// The `n` binary digits of `w`, most significant first, as ASCII.
pub open spec fn word_bin(w: u64, n: nat) -> Seq<u8> {
    Seq::new(n, |i: int| if (w >> ((n - 1 - i) as u64)) & 1 == 1 { 49u8 } else { 48u8 })
}

/// The digits of the words below index `k`, each 64 wide, from word `k - 1` down to word 0.
pub open spec fn bin_low_words(s: Seq<u64>, k: nat) -> Seq<u8>
    decreases k,
{
    if k == 0 {
        Seq::empty()
    } else {
        word_bin(s[k - 1], 64) + bin_low_words(s, (k - 1) as nat)
    }
}

/// The binary text of a word vector: the top word without leading zeros, the others 64 wide.
pub open spec fn bin_text(s: Seq<u64>) -> Seq<u8> {
    if s.len() == 0 {
        Seq::empty()
    } else {
        let top = s.last();
        let n = if top == 0 { 1 } else { nat_bit_len(top as nat) };
        word_bin(top, n) + bin_low_words(s, (s.len() - 1) as nat)
    }
}

/// Appends the `n` low binary digits of `w`, most significant first.
fn push_word_bin(out: &mut Vec<u8>, w: u64, n: usize)
    requires
        n <= 64,
    ensures
        final(out)@ == old(out)@ + word_bin(w, n as nat),
{
    let ghost o = old(out)@;
    let mut i: usize = 0;
    while i < n
        invariant
            i <= n <= 64,
            out@ =~= o + word_bin(w, n as nat).take(i as int),
        decreases n - i,
    {
        let sh = (n - 1 - i) as u64;
        let d: u8 = if (w >> sh) & 1 == 1 { 49 } else { 48 };
        out.push(d);
        i = i + 1;
    }
    assert(word_bin(w, n as nat).take(n as int) =~= word_bin(w, n as nat));
}

impl UintBits {
    /// A cursor over all bits, from bit 0.
    pub fn iter(&self) -> (r: BitIter)
        requires
            self@.len() * 64 <= usize::MAX,
        ensures
            r.wf(),
            r.words_seq() == self@,
            r.front_index() == 0,
            r.back_index() == self@.len() * 64,
    {
        BitIter::new(&self.0)
    }

    /// All bits from bit 0 upward, `64` per word.
    pub fn bits(&self) -> (r: Vec<u8>)
        requires
            self@.len() * 64 <= usize::MAX,
        ensures
            r@.len() == self@.len() * 64,
            forall|i: int| 0 <= i < r@.len() ==> r@[i] == bit_at(self@, i),
    {
        let mut it = self.iter();
        let mut out: Vec<u8> = Vec::new();
        while it.front < it.back
            invariant
                it.wf(),
                it.words@ == self@,
                it.back == self@.len() * 64,
                out@.len() == it.front,
                forall|i: int| 0 <= i < out@.len() ==> out@[i] == bit_at(self@, i),
            decreases it.back - it.front,
        {
            let b = it.next();
            match b {
                Some(x) => out.push(x),
                None => {},
            }
        }
        out
    }

    /// All bits from the top bit downward, `64` per word.
    pub fn bits_rev(&self) -> (r: Vec<u8>)
        requires
            self@.len() * 64 <= usize::MAX,
        ensures
            r@.len() == self@.len() * 64,
            forall|i: int| 0 <= i < r@.len() ==> r@[i] == bit_at(self@, self@.len() * 64 - 1 - i),
    {
        let mut it = self.iter();
        let mut out: Vec<u8> = Vec::new();
        while it.front < it.back
            invariant
                it.wf(),
                it.words@ == self@,
                it.front == 0,
                out@.len() + it.back == self@.len() * 64,
                forall|i: int| 0 <= i < out@.len() ==> out@[i] == bit_at(self@, self@.len() * 64 - 1 - i),
            decreases it.back - it.front,
        {
            let b = it.next_back();
            match b {
                Some(x) => out.push(x),
                None => {},
            }
        }
        out
    }

    /// The binary text: the top word without leading zeros, lower words 64 digits each.
    pub fn to_bin_string(&self) -> (r: String)
        ensures
            r@ == crate::text::ascii_chars(bin_text(self@)),
    {
        let mut out: Vec<u8> = Vec::new();
        let n = self.0.len();
        if n > 0 {
            let top = self.0[n - 1];
            let width = if top == 0 { 1 } else { word_bit_len(top) };
            proof {
                if top != 0 {
                    lemma_nat_bit_len_range(top as nat, width as nat);
                }
            }
            push_word_bin(&mut out, top, width);
            let mut k = n - 1;
            while k > 0
                invariant
                    k < n,
                    n == self@.len(),
                    out@ + bin_low_words(self@, k as nat) == bin_text(self@),
                decreases k,
            {
                let ghost before = out@;
                push_word_bin(&mut out, self.0[k - 1], 64);
                assert(before + bin_low_words(self@, k as nat) =~= out@ + bin_low_words(self@, (k - 1) as nat));
                k = k - 1;
            }
            assert(out@ + bin_low_words(self@, 0) =~= out@);
        } else {
            assert(out@ =~= bin_text(self@));
        }
        proof {
            assert forall|i: int| 0 <= i < out@.len() implies out@[i] < 128 by {
                lemma_bin_text_digits(self@, i);
            }
        }
        crate::text::ascii_to_string(out)
    }
}

proof fn lemma_bin_low_words_digits(s: Seq<u64>, k: nat, i: int)
    requires
        0 <= i < bin_low_words(s, k).len(),
    ensures
        bin_low_words(s, k)[i] == 48 || bin_low_words(s, k)[i] == 49,
    decreases k,
{
    if k > 0 {
        if i >= 64 {
            lemma_bin_low_words_digits(s, (k - 1) as nat, i - 64);
        }
    }
}

proof fn lemma_bin_text_digits(s: Seq<u64>, i: int)
    requires
        0 <= i < bin_text(s).len(),
    ensures
        bin_text(s)[i] < 128,
{
    if s.len() > 0 {
        let top = s.last();
        let n = if top == 0 { 1 } else { nat_bit_len(top as nat) };
        if i >= n {
            lemma_bin_low_words_digits(s, (s.len() - 1) as nat, i - n);
        }
    }
}
} // verus!
