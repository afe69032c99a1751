//! The mathematical model of little-endian 64-bit word vectors.
use vstd::prelude::*;
use vstd::arithmetic::power2::*;
use vstd::arithmetic::mul::*;
use vstd::arithmetic::div_mod::*;

verus! {

/// The weight of word `i` in a little-endian word vector.
pub open spec fn wpow(i: nat) -> nat {
    pow2(64 * i)
}

/// The natural number that a little-endian vector of 64-bit words stands for.
pub open spec fn words_val(s: Seq<u64>) -> nat
    decreases s.len(),
{
    if s.len() == 0 {
        0
    } else {
        words_val(s.drop_last()) + s.last() as nat * wpow((s.len() - 1) as nat)
    }
}

/// A vector without redundant high zero words (the empty vector and `[0]` both qualify).
pub open spec fn is_shrunk(s: Seq<u64>) -> bool {
    s.len() <= 1 || s.last() != 0
}

/// The vector with its high zero words removed, keeping at least one word.
pub open spec fn shrink_seq(s: Seq<u64>) -> Seq<u64>
    decreases s.len(),
{
    if s.len() > 1 && s.last() == 0 {
        shrink_seq(s.drop_last())
    } else {
        s
    }
}

pub proof fn lemma_wpow_succ(i: nat)
    ensures
        wpow(i + 1) == wpow(i) * pow2(64),
        wpow(i) > 0,
        wpow(0) == 1,
{
    lemma_pow2_adds(64 * i, 64);
    assert(64 * (i + 1) == 64 * i + 64) by (nonlinear_arith);
    lemma_pow2_pos(64 * i);
    lemma2_to64();
}

pub proof fn lemma_wpow_adds(i: nat, j: nat)
    ensures
        wpow(i + j) == wpow(i) * wpow(j),
{
    lemma_pow2_adds(64 * i, 64 * j);
    assert(64 * (i + j) == 64 * i + 64 * j) by (nonlinear_arith);
}

pub proof fn lemma_words_val_push(s: Seq<u64>, w: u64)
    ensures
        words_val(s.push(w)) == words_val(s) + w as nat * wpow(s.len()),
{
    assert(s.push(w).drop_last() =~= s);
}

pub proof fn lemma_words_val_bound(s: Seq<u64>)
    ensures
        words_val(s) < wpow(s.len()),
    decreases s.len(),
{
    lemma_wpow_succ(0);
    if s.len() > 0 {
        let n = (s.len() - 1) as nat;
        lemma_words_val_bound(s.drop_last());
        lemma_wpow_succ(n);
        let a = words_val(s.drop_last());
        let w = s.last() as nat;
        assert(w <= pow2(64) - 1) by {
            lemma2_to64_rest();
        }
        assert(w * wpow(n) <= (pow2(64) - 1) * wpow(n)) by {
            lemma_mul_inequality(w as int, pow2(64) - 1, wpow(n) as int);
        }
        assert((pow2(64) - 1) * wpow(n) == pow2(64) * wpow(n) - wpow(n)) by {
            lemma_mul_is_distributive_sub_other_way(wpow(n) as int, pow2(64) as int, 1);
        }
        lemma_mul_is_commutative(pow2(64) as int, wpow(n) as int);
    }
}

/// The value of a prefix plus the value of the rest, weighted.
pub proof fn lemma_words_val_split(s: Seq<u64>, i: int)
    requires
        0 <= i <= s.len(),
    ensures
        words_val(s) == words_val(s.take(i)) + words_val(s.skip(i)) * wpow(i as nat),
    decreases s.len(),
{
    lemma_wpow_succ(0);
    assert(words_val(Seq::<u64>::empty()) == 0);
    if s.len() == i {
        assert(s.take(i) =~= s);
        assert(s.skip(i) =~= Seq::<u64>::empty());
        assert(words_val(s.skip(i)) == 0);
        assert(words_val(s.skip(i)) * wpow(i as nat) == 0);
    } else {
        let t = s.drop_last();
        lemma_words_val_split(t, i);
        assert(t.take(i) =~= s.take(i));
        let r = s.skip(i);
        assert(r.drop_last() =~= t.skip(i));
        assert(r.last() == s.last());
        let n = (s.len() - 1) as nat;
        let m = (r.len() - 1) as nat;
        assert(n == m + i);
        assert(words_val(r) == words_val(r.drop_last()) + r.last() as nat * wpow(m));
        assert(words_val(s) == words_val(t) + s.last() as nat * wpow(n));
        lemma_wpow_adds(m, i as nat);
        // words_val(s) = words_val(t) + last * wpow(n)
        // words_val(r) = words_val(t.skip(i)) + last * wpow(m)
        assert(words_val(r) * wpow(i as nat) == words_val(t.skip(i)) * wpow(i as nat)
            + s.last() as nat * wpow(m) * wpow(i as nat)) by {
            lemma_mul_is_distributive_add_other_way(wpow(i as nat) as int,
                words_val(t.skip(i)) as int, (s.last() as nat * wpow(m)) as int);
        }
        lemma_mul_is_associative(s.last() as int, wpow(m) as int, wpow(i as nat) as int);
        assert(words_val(t) == words_val(t.take(i)) + words_val(t.skip(i)) * wpow(i as nat));
        assert(s.last() as nat * wpow(m) * wpow(i as nat) == s.last() as nat * wpow(n));
        assert(words_val(s) == words_val(s.take(i)) + words_val(s.skip(i)) * wpow(i as nat));
    }
}

/// Appending zero words keeps the value.
pub proof fn lemma_words_val_zeros(s: Seq<u64>, k: nat)
    ensures
        words_val(s + Seq::new(k, |j: int| 0u64)) == words_val(s),
    decreases k,
{
    if k > 0 {
        let z = Seq::new(k, |j: int| 0u64);
        let z1 = Seq::new((k - 1) as nat, |j: int| 0u64);
        assert((s + z).drop_last() =~= s + z1);
        lemma_words_val_zeros(s, (k - 1) as nat);
    }
}

/// Prepending `k` zero words multiplies the value by `wpow(k)`.
pub proof fn lemma_words_val_prepend_zeros(s: Seq<u64>, k: nat)
    ensures
        words_val(Seq::new(k, |j: int| 0u64) + s) == words_val(s) * wpow(k),
{
    let z = Seq::new(k, |j: int| 0u64);
    let t = z + s;
    lemma_words_val_split(t, k as int);
    assert(t.take(k as int) =~= z);
    assert(t.skip(k as int) =~= s);
    lemma_words_val_all_zero(z);
}

pub open spec fn all_zero_seq(s: Seq<u64>) -> bool {
    forall|i: int| 0 <= i < s.len() ==> s[i] == 0
}

pub proof fn lemma_words_val_all_zero(s: Seq<u64>)
    ensures
        all_zero_seq(s) <==> words_val(s) == 0,
    decreases s.len(),
{
    if s.len() > 0 {
        lemma_words_val_all_zero(s.drop_last());
        lemma_wpow_succ((s.len() - 1) as nat);
        if words_val(s) == 0 {
            assert(s.last() as nat * wpow((s.len() - 1) as nat) == 0);
            if s.last() != 0 {
                lemma_mul_strictly_positive(s.last() as int, wpow((s.len() - 1) as nat) as int);
            }
            assert forall|i: int| 0 <= i < s.len() implies s[i] == 0 by {
                if i < s.len() - 1 {
                    assert(s.drop_last()[i] == s[i]);
                }
            }
        }
        if all_zero_seq(s) {
            assert(all_zero_seq(s.drop_last())) by {
                assert forall|i: int| 0 <= i < s.drop_last().len() implies s.drop_last()[i] == 0 by {
                    assert(s.drop_last()[i] == s[i]);
                }
            }
            assert(s.last() == s[s.len() - 1]);
        }
    }
}

pub proof fn lemma_shrink_seq(s: Seq<u64>)
    ensures
        words_val(shrink_seq(s)) == words_val(s),
        is_shrunk(shrink_seq(s)),
        shrink_seq(s).len() <= s.len(),
        s.len() >= 1 ==> shrink_seq(s).len() >= 1,
        shrink_seq(s).len() == 0 <==> s.len() == 0,
        shrink_seq(s) =~= s.take(shrink_seq(s).len() as int),
        is_shrunk(s) ==> shrink_seq(s) == s,
    decreases s.len(),
{
    if s.len() > 1 && s.last() == 0 {
        lemma_shrink_seq(s.drop_last());
        lemma_words_val_push(s.drop_last(), 0);
        assert(s.drop_last().push(0) =~= s);
        let r = shrink_seq(s.drop_last());
        assert(r =~= s.drop_last().take(r.len() as int));
        assert(s.drop_last().take(r.len() as int) =~= s.take(r.len() as int));
    } else {
        assert(s.take(s.len() as int) =~= s);
    }
}

/// The top word of a vector is its value divided by the weight of that word.
pub proof fn lemma_words_val_last(s: Seq<u64>)
    requires
        s.len() >= 1,
    ensures
        words_val(s) / wpow((s.len() - 1) as nat) == s.last() as nat,
        words_val(s) % wpow((s.len() - 1) as nat) == words_val(s.drop_last()),
{
    let n = (s.len() - 1) as nat;
    lemma_words_val_bound(s.drop_last());
    lemma_wpow_succ(n);
    lemma_mul_is_commutative(s.last() as int, wpow(n) as int);
    lemma_fundamental_div_mod_converse(words_val(s) as int, wpow(n) as int, s.last() as int,
        words_val(s.drop_last()) as int);
}

/// Two vectors of the same length and value are equal.
pub proof fn lemma_same_len_val(a: Seq<u64>, b: Seq<u64>)
    requires
        a.len() == b.len(),
        words_val(a) == words_val(b),
    ensures
        a == b,
    decreases a.len(),
{
    if a.len() > 0 {
        lemma_words_val_last(a);
        lemma_words_val_last(b);
        lemma_same_len_val(a.drop_last(), b.drop_last());
        assert(a =~= a.drop_last().push(a.last()));
        assert(b =~= b.drop_last().push(b.last()));
    } else {
        assert(a =~= b);
    }
}

/// A vector whose top word is nonzero is at least the weight of that word.
pub proof fn lemma_words_val_lower(s: Seq<u64>)
    requires
        s.len() >= 1,
        s.last() != 0,
    ensures
        words_val(s) >= wpow((s.len() - 1) as nat),
{
    lemma_mul_inequality(1, s.last() as int, wpow((s.len() - 1) as nat) as int);
}

/// Two shrunk nonempty vectors with the same value are equal.
pub proof fn lemma_shrunk_unique(a: Seq<u64>, b: Seq<u64>)
    requires
        is_shrunk(a),
        is_shrunk(b),
        a.len() >= 1,
        b.len() >= 1,
        words_val(a) == words_val(b),
    ensures
        a == b,
{
    if a.len() > b.len() {
        lemma_words_val_lower(a);
        lemma_words_val_bound(b);
        lemma_wpow_mono(b.len(), (a.len() - 1) as nat);
    } else if b.len() > a.len() {
        lemma_words_val_lower(b);
        lemma_words_val_bound(a);
        lemma_wpow_mono(a.len(), (b.len() - 1) as nat);
    } else {
        lemma_same_len_val(a, b);
    }
}

pub proof fn lemma_wpow_mono(i: nat, j: nat)
    requires
        i <= j,
    ensures
        wpow(i) <= wpow(j),
{
    if i < j {
        lemma_pow2_strictly_increases(64 * i, 64 * j);
    }
}


/// Replacing word `k` changes the value by the difference at that weight.
pub proof fn lemma_words_val_update(s: Seq<u64>, k: int, x: u64)
    requires
        0 <= k < s.len(),
    ensures
        words_val(s.update(k, x)) + s[k] as nat * wpow(k as nat) == words_val(s) + x as nat * wpow(k as nat),
{
    let t = s.update(k, x);
    lemma_words_val_split(s, k);
    lemma_words_val_split(t, k);
    assert(t.take(k) =~= s.take(k));
    let a = s.skip(k);
    let b = t.skip(k);
    lemma_words_val_split(a, 1);
    lemma_words_val_split(b, 1);
    assert(a.skip(1) =~= b.skip(1));
    assert(a.take(1) =~= seq![s[k]]);
    assert(b.take(1) =~= seq![x]);
    lemma_words_val_single(s[k]);
    lemma_words_val_single(x);
    lemma_wpow_succ(0);
    lemma_wpow_succ(1);
    let r = words_val(a.skip(1)) * wpow(1);
    assert(words_val(a) == s[k] as nat + r);
    assert(words_val(b) == x as nat + r);
    lemma_mul_is_distributive_add_other_way(wpow(k as nat) as int, s[k] as int, r as int);
    lemma_mul_is_distributive_add_other_way(wpow(k as nat) as int, x as int, r as int);
}

pub proof fn lemma_words_val_single(w: u64)
    ensures
        words_val(seq![w]) == w as nat,
{
    lemma_wpow_succ(0);
    let s = seq![w];
    assert(s.drop_last() =~= Seq::<u64>::empty());
    assert(words_val(Seq::<u64>::empty()) == 0);
    assert(s.len() == 1 && s.last() == w);
    assert(words_val(s) == words_val(s.drop_last()) + s.last() as nat * wpow(0));
}

/// Padding with zero words keeps the value.
pub proof fn lemma_words_val_extend(s: Seq<u64>, n: nat)
    ensures
        words_val(if s.len() >= n { s } else { s + Seq::new((n - s.len()) as nat, |j: int| 0u64) }) == words_val(s),
{
    if s.len() < n {
        lemma_words_val_zeros(s, (n - s.len()) as nat);
    }
}

/// The value of a prefix one word longer.
pub proof fn lemma_words_val_take_succ(s: Seq<u64>, i: int)
    requires
        0 <= i < s.len(),
    ensures
        words_val(s.take(i + 1)) == words_val(s.take(i)) + s[i] as nat * wpow(i as nat),
{
    assert(s.take(i + 1) =~= s.take(i).push(s[i]));
    lemma_words_val_push(s.take(i), s[i]);
}

/// The value of a suffix one word longer.
pub proof fn lemma_words_val_skip_pred(s: Seq<u64>, i: int)
    requires
        0 <= i < s.len(),
    ensures
        words_val(s.skip(i)) == s[i] as nat + words_val(s.skip(i + 1)) * pow2(64),
{
    let a = s.skip(i);
    lemma_words_val_split(a, 1);
    assert(a.take(1) =~= seq![s[i]]);
    assert(a.skip(1) =~= s.skip(i + 1));
    lemma_words_val_single(s[i]);
    lemma_wpow_succ(0);
    lemma_wpow_succ(1);
}
} // verus!
