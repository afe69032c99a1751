//! Values of the language: typed byte images of numbers, strings and sequence handles.
use vstd::prelude::*;
use vstd::utf8::encode_utf8;
use vstd::string::StringSliceAdditionalSpecFns;
use vstd::arithmetic::power2::*;
use crate::big_num::num::{BigNum, NumView, num_bytes, num_eq, roomy, cut_view, tame, finite, add_spec, mul_spec, div_spec, rem_euclid_spec, with_inf, lemma_div_ok_finite, div_ok, floor_view, mul_ok, add_ok};
use crate::big_num::ubits::lemma_bit_len_le;
use crate::big_num::num::float_text;
use crate::big_num::uint::BigUint;
use crate::error::num_text;
use crate::text::{ascii_chars, ascii_to_string, utf8_to_string};
use vstd::utf8::{valid_utf8, decode_utf8};
use vstd::string::StringExecFns;
use crate::big_num::uint::{dec_value, all_digits};
use crate::big_num::parse::{exp_unchecked, exp_value, parse_ok, parse_value};

verus! {

/// The type of a value, ordered as arithmetic promotes: `Empty < I32 < I64 < Real < Sequence`.
#[derive(Debug, PartialEq, Eq, Clone, Copy, Structural)]
pub enum VarType {
    Empty,
    I32,
    I64,
    Real,
    Sequence,
}

impl VarType {
    /// The place of the type in the promotion order.
    pub open spec fn spec_rank(self) -> nat {
        match self {
            VarType::Empty => 0,
            VarType::I32 => 1,
            VarType::I64 => 2,
            VarType::Real => 3,
            VarType::Sequence => 4,
        }
    }

    /// The place of the type in the promotion order.
    pub fn rank(&self) -> (r: u8)
        ensures
            r == self.spec_rank(),
    {
        match self {
            VarType::Empty => 0,
            VarType::I32 => 1,
            VarType::I64 => 2,
            VarType::Real => 3,
            VarType::Sequence => 4,
        }
    }

    /// The later of two types in the promotion order.
    pub fn max(self, other: Self) -> (r: Self)
        ensures
            r == if self.spec_rank() >= other.spec_rank() { self } else { other },
    {
        if self.rank() >= other.rank() {
            self
        } else {
            other
        }
    }

    /// The type's name.
    pub fn name(&self) -> (r: &'static str)
        ensures
            r@ == var_type_name(*self)@,
    {
        match self {
            VarType::Empty => "None",
            VarType::I32 => "I32",
            VarType::I64 => "I64",
            VarType::Real => "Real",
            VarType::Sequence => "Sequence",
        }
    }
}

/// The name of a type.
pub open spec fn var_type_name(t: VarType) -> &'static str {
    match t {
        VarType::Empty => "None",
        VarType::I32 => "I32",
        VarType::I64 => "I64",
        VarType::Real => "Real",
        VarType::Sequence => "Sequence",
    }
}

/// A value: its type and the bytes that hold it.
#[derive(Debug)]
pub struct Var {
    pub type_: VarType,
    data: Vec<u8>,
}

/// The four little-endian bytes of an `i32`.
pub open spec fn i32_le(v: i32) -> Seq<u8> {
    let u = v as u32;
    seq![u as u8, (u >> 8u32) as u8, (u >> 16u32) as u8, (u >> 24u32) as u8]
}

/// The eight little-endian bytes of a `u64`.
pub open spec fn u64_le(u: u64) -> Seq<u8> {
    Seq::new(8, |k: int| (u >> (8 * k) as u64) as u8)
}

/// The eight little-endian bytes of an `i64`.
pub open spec fn i64_le(v: i64) -> Seq<u8> {
    u64_le(v as u64)
}

/// The `u64` of the eight little-endian bytes at `at`.
pub open spec fn le_u64_at(b: Seq<u8>, at: int) -> u64
    recommends
        0 <= at && at + 8 <= b.len(),
{
    (b[at] as u64) | ((b[at + 1] as u64) << 8u64) | ((b[at + 2] as u64) << 16u64) | ((b[at + 3] as u64) << 24u64)
        | ((b[at + 4] as u64) << 32u64) | ((b[at + 5] as u64) << 40u64) | ((b[at + 6] as u64) << 48u64)
        | ((b[at + 7] as u64) << 56u64)
}

/// The `i32` of the first four little-endian bytes.
pub open spec fn le_i32(b: Seq<u8>) -> i32 {
    ((b[0] as u32) | ((b[1] as u32) << 8u32) | ((b[2] as u32) << 16u32) | ((b[3] as u32) << 24u32)) as i32
}

/// The `i64` of the first eight little-endian bytes.
pub open spec fn le_i64(b: Seq<u8>) -> i64 {
    le_u64_at(b, 0) as i64
}

/// The integer a text spells as Rust reads integers: an optional `+` or `-`, then one or more
/// digits.
pub open spec fn int_text(b: Seq<u8>) -> Option<int> {
    let signed = b.len() > 0 && (b[0] == 45 || b[0] == 43);
    let d = if signed { b.skip(1) } else { b };
    if d.len() > 0 && all_digits(d) {
        Some(if b[0] == 45 { -(dec_value(d) as int) } else { dec_value(d) as int })
    } else {
        None
    }
}

proof fn lemma_dec_value_prefix(s: Seq<u8>, i: int)
    requires
        0 <= i <= s.len(),
        all_digits(s),
    ensures
        dec_value(s.take(i)) <= dec_value(s),
    decreases s.len() - i,
{
    if i < s.len() {
        lemma_dec_value_prefix(s, i + 1);
        assert(s.take(i + 1).drop_last() =~= s.take(i));
        assert(s.take(i + 1).last() >= 48) by {
            assert(s.take(i + 1).last() == s[i]);
        }
    } else {
        assert(s.take(i) =~= s);
    }
}

/// Reads an integer that fits in an `i64` (see `int_text`).
fn read_i64(b: &[u8]) -> (r: Option<i64>)
    ensures
        r == match int_text(b@) {
            Some(v) => if i64::MIN <= v <= i64::MAX { Some(v as i64) } else { None },
            None => None,
        },
{
    let n = b.len();
    if n == 0 {
        return None;
    }
    let neg = b[0] == 45;
    let signed = neg || b[0] == 43;
    let start: usize = if signed { 1 } else { 0 };
    let ghost d = b@.skip(start as int);
    proof {
        if !signed {
            assert(b@.skip(0) =~= b@);
        }
        assert(d == (if b@.len() > 0 && (b@[0] == 45 || b@[0] == 43) { b@.skip(1) } else { b@ }));
    }
    if start == n {
        return None;
    }
    let mut mag: u64 = 0;
    let mut i = start;
    let cap: u64 = 0x8000_0000_0000_0000;
    while i < n
        invariant
            start <= i <= n,
            start < n,
            n == b@.len(),
            d == b@.skip(start as int),
            d == (if b@.len() > 0 && (b@[0] == 45 || b@[0] == 43) { b@.skip(1) } else { b@ }),
            neg == (b@[0] == 45),
            mag <= cap,
            cap == 0x8000_0000_0000_0000u64,
            all_digits(d.take(i - start)),
            mag == dec_value(d.take(i - start)),
        decreases n - i,
    {
        let c = b[i];
        if c < 48 || c > 57 {
            proof {
                assert(d[i - start] == c);
                assert(!all_digits(d));
            }
            return None;
        }
        let digit = (c - 48) as u64;
        proof {
            let t = d.take(i - start + 1);
            assert(t.drop_last() =~= d.take(i - start));
            assert(t.last() == c);
            assert(all_digits(t)) by {
                assert forall|j: int| 0 <= j < t.len() implies 48 <= #[trigger] t[j] <= 57 by {
                    if j < t.len() - 1 {
                        assert(t[j] == d.take(i - start)[j]);
                    }
                }
            }
        }
        if mag > (cap - digit) / 10 {
            // the digits so far already pass the largest magnitude
            proof {
                let t = d.take(i - start + 1);
                assert(dec_value(t) == mag * 10 + digit);
                assert(mag * 10 + digit > cap);
                if all_digits(d) {
                    lemma_dec_value_prefix(d, i - start + 1);
                    assert(dec_value(d) > cap);
                }
            }
            return None;
        }
        mag = mag * 10 + digit;
        i = i + 1;
    }
    proof {
        assert(d.take(n - start) =~= d);
    }
    if neg {
        if mag == cap {
            Some(i64::MIN)
        } else {
            Some(-(mag as i64))
        }
    } else if mag < cap {
        Some(mag as i64)
    } else {
        None
    }
}

impl View for Var {
    type V = (VarType, Seq<u8>);

    closed spec fn view(&self) -> (VarType, Seq<u8>) {
        (self.type_, self.data@)
    }
}

/// The value a literal stands for (see `Var::new`): an `i32` when it is an integer that fits,
/// else an `i64` when it fits that, else a real number when it reads as one.
pub open spec fn lit_value(b: Seq<u8>) -> Option<(VarType, Seq<u8>)> {
    let as_real = if parse_ok(b) { Some((VarType::Real, num_bytes(parse_value(b)))) } else { None };
    match int_text(b) {
        Some(v) => if i32::MIN <= v <= i32::MAX {
            Some((VarType::I32, i32_le(v as i32)))
        } else if i64::MIN <= v <= i64::MAX {
            Some((VarType::I64, i64_le(v as i64)))
        } else {
            as_real
        },
        None => as_real,
    }
}

impl Var {
    /// The empty value of no type.
    pub fn none() -> (r: Self)
        ensures
            r@ == (VarType::Empty, Seq::<u8>::empty()),
    {
        Var { type_: VarType::Empty, data: Vec::new() }
    }

    /// A value of no type holding the bytes of a string.
    pub fn from_string(s: String) -> (r: Self)
        ensures
            r@ == (VarType::Empty, encode_utf8(s@)),
    {
        let data = vstd::slice::slice_to_vec(s.as_str().as_bytes());
        Var { type_: VarType::Empty, data }
    }

    /// The value of an `i32`.
    pub fn from_i32(v: i32) -> (r: Self)
        ensures
            r@ == (VarType::I32, i32_le(v)),
    {
        let u = v as u32;
        let data = vec![u as u8, (u >> 8u32) as u8, (u >> 16u32) as u8, (u >> 24u32) as u8];
        proof { assert(data@ =~= i32_le(v)); }
        Var { type_: VarType::I32, data }
    }

    /// The eight little-endian bytes of a `u64`.
    fn u64_bytes(u: u64) -> (r: Vec<u8>)
        ensures
            r@ == u64_le(u),
    {
        let mut data: Vec<u8> = Vec::new();
        let mut k: u64 = 0;
        while k < 8
            invariant
                k <= 8,
                data@.len() == k,
                forall|j: int| 0 <= j < k ==> data@[j] == (u >> (8 * j) as u64) as u8,
            decreases 8 - k,
        {
            data.push((u >> (8 * k)) as u8);
            k = k + 1;
        }
        proof { assert(data@ =~= u64_le(u)); }
        data
    }

    /// The value of an `i64`.
    pub fn from_i64(v: i64) -> (r: Self)
        ensures
            r@ == (VarType::I64, i64_le(v)),
    {
        Var { type_: VarType::I64, data: Self::u64_bytes(v as u64) }
    }

    /// The value of a real number.
    pub fn from_num(v: &BigNum) -> (r: Self)
        requires
            v@.inf != 127,
            v.cff_len() * 8 + 7 <= usize::MAX,
        ensures
            r@ == (VarType::Real, num_bytes(v@)),
    {
        Var { type_: VarType::Real, data: v.to_le_bytes() }
    }

    /// The value a literal stands for: an `i32` when it is an integer that fits, else an `i64`
    /// when it fits that, else a real number when it reads as one (see `parse_ok`).
    pub fn new(value: &str) -> (r: Option<Self>)
        requires
            !exp_unchecked(value.spec_bytes()),
            4 * (value.spec_bytes().len() + exp_value(value.spec_bytes())) + 0x4000 <= u32::MAX,
            usize::MAX == u64::MAX,
        ensures
            ({
                let b = value.spec_bytes();
                match int_text(b) {
                    Some(v) => if i32::MIN <= v <= i32::MAX {
                        r matches Some(x) && x@ == (VarType::I32, i32_le(v as i32))
                    } else if i64::MIN <= v <= i64::MAX {
                        r matches Some(x) && x@ == (VarType::I64, i64_le(v as i64))
                    } else {
                        (r is Some <==> parse_ok(b)) && (r matches Some(x) ==> x@ == (VarType::Real, num_bytes(parse_value(b))))
                    },
                    None => (r is Some <==> parse_ok(b)) && (r matches Some(x) ==> x@ == (VarType::Real, num_bytes(parse_value(b)))),
                }
            }),
            match lit_value(value.spec_bytes()) {
                Some(v) => r matches Some(x) && x@ == v,
                None => r is None,
            },
    {
        let bytes = value.as_bytes();
        match read_i64(bytes) {
            Some(v) => {
                if i32::MIN as i64 <= v && v <= i32::MAX as i64 {
                    return Some(Self::from_i32(v as i32));
                }
                return Some(Self::from_i64(v));
            },
            None => {},
        }
        match BigNum::try_from_str(value) {
            Ok(n) => Some(Self::from_num(&n)),
            Err(_) => None,
        }
    }


    /// Replaces the bytes, keeping the type.
    pub fn write_data_unchecked(&mut self, data: &[u8])
        ensures
            final(self)@ == (old(self)@.0, data@),
    {
        self.data = vstd::slice::slice_to_vec(data);
    }

    /// The bytes.
    pub fn as_raw_bytes(&self) -> (r: &[u8])
        ensures
            r@ == self@.1,
    {
        self.data.as_slice()
    }

    /// A handle to the elements `ptr.0 .. ptr.1` of a sequence in the heap of scope `scope.0`
    /// (whose id is `scope.1`): the four numbers in eight little-endian bytes each.
    pub fn new_sequence(ptr: (usize, usize), scope: (usize, usize)) -> (r: Self)
        ensures
            r@ == (VarType::Sequence, u64_le(ptr.0 as u64) + u64_le(ptr.1 as u64) + u64_le(scope.0 as u64)
                + u64_le(scope.1 as u64)),
    {
        let mut data = Self::u64_bytes(ptr.0 as u64);
        let mut b = Self::u64_bytes(ptr.1 as u64);
        data.append(&mut b);
        let mut c = Self::u64_bytes(scope.0 as u64);
        data.append(&mut c);
        let mut d = Self::u64_bytes(scope.1 as u64);
        data.append(&mut d);
        Var { type_: VarType::Sequence, data }
    }

    /// Whether the value is a number.
    pub fn is_num(&self) -> (r: bool)
        requires
            self@.0 != VarType::Empty,
        ensures
            r == (self@.0 != VarType::Sequence),
    {
        match self.type_ {
            VarType::Sequence => false,
            _ => true,
        }
    }

    /// The `u64` of the eight bytes at `at`.
    fn read_u64(&self, at: usize) -> (r: u64)
        requires
            at + 8 <= self@.1.len(),
        ensures
            r == le_u64_at(self@.1, at as int),
    {
        let b = &self.data;
        let n = b.len();
        assert(at + 8 <= n);
        (b[at] as u64) | ((b[at + 1] as u64) << 8u64) | ((b[at + 2] as u64) << 16u64) | ((b[at + 3] as u64) << 24u64)
            | ((b[at + 4] as u64) << 32u64) | ((b[at + 5] as u64) << 40u64) | ((b[at + 6] as u64) << 48u64)
            | ((b[at + 7] as u64) << 56u64)
    }

    /// The element range of a sequence handle.
    pub fn get_boundary(&self) -> (r: (usize, usize))
        requires
            self@.1.len() >= 32,
        ensures
            r == (le_u64_at(self@.1, 0) as usize, le_u64_at(self@.1, 8) as usize),
    {
        (self.read_u64(0) as usize, self.read_u64(8) as usize)
    }

    /// The scope index and id of a sequence handle.
    pub fn get_scope(&self) -> (r: (usize, usize))
        requires
            self@.1.len() >= 32,
        ensures
            r == (le_u64_at(self@.1, 16) as usize, le_u64_at(self@.1, 24) as usize),
    {
        (self.read_u64(16) as usize, self.read_u64(24) as usize)
    }

    /// The `i32` of an `I32` value.
    pub fn as_i32(&self) -> (r: i32)
        requires
            self@.0 == VarType::I32,
            self@.1.len() >= 4,
        ensures
            r == le_i32(self@.1),
    {
        let b = &self.data;
        ((b[0] as u32) | ((b[1] as u32) << 8u32) | ((b[2] as u32) << 16u32) | ((b[3] as u32) << 24u32)) as i32
    }

    /// The `i64` of an `I32` or `I64` value.
    pub fn as_i64(&self) -> (r: i64)
        requires
            self@.0 == VarType::I32 ==> self@.1.len() >= 4,
            self@.0 == VarType::I64 ==> self@.1.len() >= 8,
            self@.0 == VarType::I32 || self@.0 == VarType::I64,
        ensures
            self@.0 == VarType::I32 ==> r == le_i32(self@.1) as i64,
            self@.0 == VarType::I64 ==> r == le_i64(self@.1),
    {
        if self.type_ == VarType::I32 {
            self.as_i32() as i64
        } else {
            self.read_u64(0) as i64
        }
    }

    /// The real number of an `I32`, `I64` or `Real` value.
    pub fn as_num(&self) -> (r: BigNum)
        requires
            self@.0 == VarType::I32 ==> self@.1.len() >= 4,
            self@.0 == VarType::I64 ==> self@.1.len() >= 8,
            self@.0 == VarType::Real ==> self@.1.len() > 8 && self@.1[2] != 128 && self@.1.len() + 8 <= usize::MAX,
            self@.0 == VarType::I32 || self@.0 == VarType::I64 || self@.0 == VarType::Real,
        ensures
            self@.0 == VarType::I32 ==> r@ == BigNum::from_i64_view(le_i32(self@.1) as i64),
            self@.0 == VarType::I64 ==> r@ == BigNum::from_i64_view(le_i64(self@.1)),
            self@.0 == VarType::Real ==> r@ == BigNum::from_bytes_view(self@.1),
            tame(r@) ==> r.cff_len() <= 0x4_0000,
    {
        match self.type_ {
            VarType::I32 => BigNum::from_i64(self.as_i32() as i64),
            VarType::I64 => BigNum::from_i64(self.read_u64(0) as i64),
            _ => BigNum::from_le_bytes(self.data.as_slice()),
        }
    }
}


/// An arithmetic operation on values.
#[derive(Debug, Clone, Copy, PartialEq, Eq, Structural)]
pub enum ArithOp {
    Add,
    Sub,
    Mul,
    Div,
    Rem,
}

/// The lowest type an operation computes in: division always in real numbers, the remainder
/// at least in `i64`.
pub open spec fn op_floor(op: ArithOp) -> VarType {
    match op {
        ArithOp::Div => VarType::Real,
        ArithOp::Rem => VarType::I64,
        _ => VarType::Empty,
    }
}

/// The later of two types in the promotion order.
pub open spec fn type_max(a: VarType, b: VarType) -> VarType {
    if a.spec_rank() >= b.spec_rank() { a } else { b }
}

/// A number value whose bytes read back: four bytes for `I32`, eight for `I64`, and for `Real`
/// the image of a tame number.
pub open spec fn is_number(v: (VarType, Seq<u8>)) -> bool {
    match v.0 {
        VarType::I32 => v.1.len() >= 4,
        VarType::I64 => v.1.len() >= 8,
        VarType::Real => v.1.len() > 8 && v.1[2] != 128 && v.1.len() + 8 <= usize::MAX
            && tame(BigNum::from_bytes_view(v.1)),
        _ => false,
    }
}

/// The `i64` of an `I32` or `I64` value.
pub open spec fn var_i64(v: (VarType, Seq<u8>)) -> i64 {
    if v.0 == VarType::I32 { le_i32(v.1) as i64 } else { le_i64(v.1) }
}

/// The real number of a number value.
pub open spec fn var_num(v: (VarType, Seq<u8>)) -> NumView {
    match v.0 {
        VarType::I32 => BigNum::from_i64_view(le_i32(v.1) as i64),
        VarType::I64 => BigNum::from_i64_view(le_i64(v.1)),
        _ => BigNum::from_bytes_view(v.1),
    }
}

/// The `i32` result of `+`, `-` or `*`, when it does not overflow.
pub open spec fn checked_i32(op: ArithOp, l: i32, r: i32) -> Option<i32> {
    match op {
        ArithOp::Add => l.checked_add(r),
        ArithOp::Sub => l.checked_sub(r),
        _ => l.checked_mul(r),
    }
}

/// The exact result of `+`, `-` or `*` on two `i32`.
pub open spec fn wide_i32(op: ArithOp, l: i32, r: i32) -> int {
    match op {
        ArithOp::Add => l + r,
        ArithOp::Sub => l - r,
        _ => l * r,
    }
}

/// The `i64` result of an operation, when it neither overflows nor divides by zero.
pub open spec fn checked_i64(op: ArithOp, l: i64, r: i64) -> Option<i64> {
    match op {
        ArithOp::Add => l.checked_add(r),
        ArithOp::Sub => l.checked_sub(r),
        ArithOp::Mul => l.checked_mul(r),
        ArithOp::Div => None,
        ArithOp::Rem => l.checked_rem_euclid(r),
    }
}

/// An operation on real numbers (division with fifteen decimal places).
pub open spec fn num_op(op: ArithOp, a: NumView, b: NumView) -> NumView {
    match op {
        ArithOp::Add => add_spec(a, b, false),
        ArithOp::Sub => add_spec(a, b, true),
        ArithOp::Mul => mul_spec(a, b),
        ArithOp::Div => div_spec(a, b, 15),
        ArithOp::Rem => rem_euclid_spec(a, b),
    }
}

/// A real number cut to at most 180 fraction bits.
pub open spec fn cut180(v: NumView) -> NumView {
    cut_view(v, 180)
}

/// The value of an operation on two numbers: in `i32` when both are `I32` and it fits, else in
/// `i64`; in `i64` when it fits, else in real numbers; real operands give a real result cut to
/// 180 fraction bits.
pub open spec fn arith_view(op: ArithOp, a: (VarType, Seq<u8>), b: (VarType, Seq<u8>)) -> (VarType, Seq<u8>) {
    let t = type_max(op_floor(op), type_max(a.0, b.0));
    if t == VarType::I32 {
        let l = le_i32(a.1);
        let r = le_i32(b.1);
        match checked_i32(op, l, r) {
            Some(x) => (VarType::I32, i32_le(x)),
            None => (VarType::I64, i64_le(wide_i32(op, l, r) as i64)),
        }
    } else if t == VarType::I64 {
        let l = var_i64(a);
        let r = var_i64(b);
        match checked_i64(op, l, r) {
            Some(x) => (VarType::I64, i64_le(x)),
            None => (VarType::Real, num_bytes(num_op(op, BigNum::from_i64_view(l), BigNum::from_i64_view(r)))),
        }
    } else {
        (VarType::Real, num_bytes(cut180(num_op(op, var_num(a), var_num(b)))))
    }
}

/// The negation of a real number.
pub open spec fn neg_num(v: NumView) -> NumView {
    if v.inf != 0 { with_inf(v, (-v.inf) as i8) } else { NumView { sgn: v.sgn ^ 1u8, ..v } }
}

/// The value of `-a`: in the type of `a` when it fits, else in the next wider one.
pub open spec fn neg_view(a: (VarType, Seq<u8>)) -> (VarType, Seq<u8>) {
    match a.0 {
        VarType::I32 => match 0i32.checked_sub(le_i32(a.1)) {
            Some(x) => (VarType::I32, i32_le(x)),
            None => (VarType::I64, i64_le((0 - le_i32(a.1)) as i64)),
        },
        VarType::I64 => match 0i64.checked_sub(le_i64(a.1)) {
            Some(x) => (VarType::I64, i64_le(x)),
            None => (VarType::Real, num_bytes(neg_num(BigNum::from_i64_view(le_i64(a.1))))),
        },
        _ => (VarType::Real, num_bytes(neg_num(BigNum::from_bytes_view(a.1)))),
    }
}

/// Integers of `i64` are tame numbers.
proof fn lemma_i64_tame(v: i64)
    ensures
        tame(BigNum::from_i64_view(v)),
{
    lemma2_to64_rest();
    lemma_pow2_strictly_increases(64, 0x100_0000);
}

/// An operation on two tame real numbers.
fn num_apply(op: ArithOp, a: &BigNum, b: &BigNum) -> (r: BigNum)
    requires
        tame(a@),
        tame(b@),
        a.cff_len() <= 0x4_0000,
        b.cff_len() <= 0x4_0000,
        usize::MAX == u64::MAX,
    ensures
        r@ == num_op(op, a@, b@),
        -1 <= r@.inf <= 1,
        r.cff_len() <= 0x4000_0000,
{
    proof {
        let (x, y) = (a@.inf as int, b@.inf as int);
        assert(-1 <= x * y <= 1) by (nonlinear_arith)
            requires -1 <= x <= 1, -1 <= y <= 1;
        if finite(a@) && finite(b@) && b@.cff > 0 {
            lemma_bit_len_le(b@.cff, 0x100_0000);
            lemma_div_ok_finite(a@, b@, 15);
        }
    }
    match op {
        ArithOp::Add => a.add(b),
        ArithOp::Sub => a.sub(b),
        ArithOp::Mul => a.mul(b),
        ArithOp::Div => a.div_with_precision(b, 15),
        ArithOp::Rem => {
            proof {
                assert(div_ok(a@, b@, 15));
                let d = div_spec(a@, b@, 15);
                assert(mul_ok(floor_view(d), b@));
                assert(add_ok(a@, mul_spec(floor_view(d), b@), true));
            }
            a.rem_euclid(b)
        },
    }
}

impl ArithOp {
    /// The lowest type the operation computes in.
    pub fn floor_type(&self) -> (r: VarType)
        ensures
            r == op_floor(*self),
    {
        match self {
            ArithOp::Div => VarType::Real,
            ArithOp::Rem => VarType::I64,
            _ => VarType::Empty,
        }
    }
}

impl Var {
    /// The value of an operation on two numbers (see `arith_view`).
    pub fn arith(&self, rhs: &Var, op: ArithOp) -> (r: Var)
        requires
            is_number(self@),
            is_number(rhs@),
            usize::MAX == u64::MAX,
        ensures
            r@ == arith_view(op, self@, rhs@),
    {
        let t = op.floor_type().max(self.type_.max(rhs.type_));
        match t {
            VarType::I32 => {
                let l = self.as_i32();
                let r = rhs.as_i32();
                let c = match op {
                    ArithOp::Add => l.checked_add(r),
                    ArithOp::Sub => l.checked_sub(r),
                    _ => l.checked_mul(r),
                };
                match c {
                    Some(v) => Var::from_i32(v),
                    None => {
                        let w: i64 = match op {
                            ArithOp::Add => l as i64 + r as i64,
                            ArithOp::Sub => l as i64 - r as i64,
                            _ => {
                                assert(-0x8000_0000 * 0x7fff_ffff <= l * r <= 0x8000_0000 * 0x8000_0000) by (nonlinear_arith)
                                    requires -0x8000_0000 <= l <= 0x7fff_ffff, -0x8000_0000 <= r <= 0x7fff_ffff;
                                l as i64 * r as i64
                            },
                        };
                        Var::from_i64(w)
                    },
                }
            },
            VarType::I64 => {
                let l = self.as_i64();
                let r = rhs.as_i64();
                let c = match op {
                    ArithOp::Add => l.checked_add(r),
                    ArithOp::Sub => l.checked_sub(r),
                    ArithOp::Mul => l.checked_mul(r),
                    ArithOp::Div => None,
                    ArithOp::Rem => l.checked_rem_euclid(r),
                };
                match c {
                    Some(v) => Var::from_i64(v),
                    None => {
                        let a = BigNum::from_i64(l);
                        let b = BigNum::from_i64(r);
                        proof {
                            lemma_i64_tame(l);
                            lemma_i64_tame(r);
                        }
                        let x = num_apply(op, &a, &b);
                        Var::from_num(&x)
                    },
                }
            },
            _ => {
                let a = self.as_num();
                let b = rhs.as_num();
                proof {
                    if self.type_ != VarType::Real {
                        lemma_i64_tame(var_i64(self@));
                    }
                    if rhs.type_ != VarType::Real {
                        lemma_i64_tame(var_i64(rhs@));
                    }
                }
                let mut x = num_apply(op, &a, &b);
                x.trunc_with_precision(180);
                Var::from_num(&x)
            },
        }
    }

    /// The sum.
    pub fn add(&self, rhs: &Var) -> (r: Var)
        requires
            is_number(self@),
            is_number(rhs@),
            usize::MAX == u64::MAX,
        ensures
            r@ == arith_view(ArithOp::Add, self@, rhs@),
    {
        self.arith(rhs, ArithOp::Add)
    }

    /// The difference.
    pub fn sub(&self, rhs: &Var) -> (r: Var)
        requires
            is_number(self@),
            is_number(rhs@),
            usize::MAX == u64::MAX,
        ensures
            r@ == arith_view(ArithOp::Sub, self@, rhs@),
    {
        self.arith(rhs, ArithOp::Sub)
    }

    /// The product.
    pub fn mul(&self, rhs: &Var) -> (r: Var)
        requires
            is_number(self@),
            is_number(rhs@),
            usize::MAX == u64::MAX,
        ensures
            r@ == arith_view(ArithOp::Mul, self@, rhs@),
    {
        self.arith(rhs, ArithOp::Mul)
    }

    /// The quotient, always a real number.
    pub fn div(&self, rhs: &Var) -> (r: Var)
        requires
            is_number(self@),
            is_number(rhs@),
            usize::MAX == u64::MAX,
        ensures
            r@ == arith_view(ArithOp::Div, self@, rhs@),
    {
        self.arith(rhs, ArithOp::Div)
    }

    /// The Euclidean remainder, at least an `i64`.
    pub fn rem(&self, rhs: &Var) -> (r: Var)
        requires
            is_number(self@),
            is_number(rhs@),
            usize::MAX == u64::MAX,
        ensures
            r@ == arith_view(ArithOp::Rem, self@, rhs@),
    {
        self.arith(rhs, ArithOp::Rem)
    }

    /// The negation.
    pub fn neg(&self) -> (r: Var)
        requires
            is_number(self@),
        ensures
            r@ == neg_view(self@),
    {
        match self.type_ {
            VarType::I32 => {
                let v = self.as_i32();
                match 0i32.checked_sub(v) {
                    Some(x) => Var::from_i32(x),
                    None => Var::from_i64(0 - v as i64),
                }
            },
            VarType::I64 => {
                let v = self.as_i64();
                match 0i64.checked_sub(v) {
                    Some(x) => Var::from_i64(x),
                    None => Var::from_num(&BigNum::from_i64(v).neg()),
                }
            },
            _ => {
                let n = self.as_num();
                Var::from_num(&n.neg())
            },
        }
    }

    /// Whether the value is a number that arithmetic takes (see `is_number`).
    pub fn is_arith_number(&self) -> (r: bool)
        ensures
            r == is_number(self@),
    {
        match self.type_ {
            VarType::I32 => self.data.len() >= 4,
            VarType::I64 => self.data.len() >= 8,
            VarType::Real => {
                let n = self.data.len();
                if n <= 8 || self.data[2] == 128 || n > usize::MAX - 8 {
                    return false;
                }
                BigNum::from_le_bytes(self.data.as_slice()).is_tame()
            },
            _ => false,
        }
    }
}


/// The decimal text of an integer, with a minus sign when it is negative.
pub open spec fn signed_text(v: int) -> Seq<char> {
    if v < 0 { seq!['-'] + num_text((-v) as nat) } else { num_text(v as nat) }
}

/// The lowercase hexadecimal digit of a value below sixteen.
pub open spec fn hex_char(d: u64) -> u8 {
    if d < 10 { (48 + d) as u8 } else { (87 + d) as u8 }
}

/// The sixteen lowercase hexadecimal digits of a `u64`.
pub open spec fn hex16(v: u64) -> Seq<u8> {
    Seq::new(16, |i: int| hex_char((v >> ((60 - 4 * i) as u64)) & 15))
}

/// The text shown for a value of no type that is not valid UTF-8.
pub open spec fn undisplayable() -> Seq<char> {
    "<#!this None type is not a string literal and cannot be displayed!#>"@
}

/// Whether a value can be shown: numbers as `is_number` says, a sequence handle whose range
/// is not reversed, any bytes of no type.
pub open spec fn is_displayable(v: (VarType, Seq<u8>)) -> bool {
    match v.0 {
        VarType::Empty => true,
        VarType::Sequence => v.1.len() >= 32 && le_u64_at(v.1, 0) <= le_u64_at(v.1, 8),
        _ => is_number(v),
    }
}

/// The text of a value: the string of bytes of no type, the decimal text of integers, real
/// numbers with `precision` places, and a description of a sequence handle with its scope id,
/// length and start in hexadecimal.
pub open spec fn display_text(v: (VarType, Seq<u8>), precision: nat) -> Seq<char> {
    match v.0 {
        VarType::Empty => if valid_utf8(v.1) { decode_utf8(v.1) } else { undisplayable() },
        VarType::I32 => signed_text(le_i32(v.1) as int),
        VarType::I64 => signed_text(le_i64(v.1) as int),
        VarType::Real => ascii_chars(float_text(BigNum::from_bytes_view(v.1), precision)),
        VarType::Sequence => {
            let start = le_u64_at(v.1, 0);
            let end = le_u64_at(v.1, 8);
            "<Sequence of Scope "@ + num_text(le_u64_at(v.1, 24) as nat) + " with length "@
                + num_text((end - start) as nat) + " at 0x"@ + ascii_chars(hex16(start)) + ">"@
        },
    }
}

/// The decimal text of an `i64`.
pub fn i64_text(v: i64) -> (r: String)
    ensures
        r@ == signed_text(v as int),
{
    if v < 0 {
        let m: u64 = if v == i64::MIN { 0x8000_0000_0000_0000u64 } else { (-v) as u64 };
        let d = BigUint::from_u64(m).to_string();
        proof { reveal_strlit("-"); }
        let s = String::from_str("-");
        s.concat(d.as_str())
    } else {
        BigUint::from_u64(v as u64).to_string()
    }
}

/// The sixteen hexadecimal digits of a `u64`.
fn hex_text(v: u64) -> (r: String)
    ensures
        r@ == ascii_chars(hex16(v)),
{
    let mut out: Vec<u8> = Vec::new();
    let mut i: u64 = 0;
    while i < 16
        invariant
            i <= 16,
            out@.len() == i,
            forall|j: int| 0 <= j < i ==> out@[j] == hex_char((v >> ((60 - 4 * j) as u64)) & 15),
            forall|j: int| 0 <= j < i ==> out@[j] < 128,
        decreases 16 - i,
    {
        let sh: u64 = 60 - 4 * i;
        let d = (v >> sh) & 15;
        assert(d < 16) by (bit_vector)
            requires d == (v >> sh) & 15;
        let c: u8 = if d < 10 { (48 + d) as u8 } else { (87 + d) as u8 };
        out.push(c);
        i = i + 1;
    }
    proof { assert(out@ =~= hex16(v)); }
    ascii_to_string(out)
}

impl Var {
    /// The text of the value (see `display_text`), real numbers with `precision` places.
    pub fn to_text(&self, precision: u8) -> (r: String)
        requires
            is_displayable(self@),
            precision < 255,
            usize::MAX == u64::MAX,
        ensures
            r@ == display_text(self@, precision as nat),
    {
        match self.type_ {
            VarType::Empty => {
                let bytes = vstd::slice::slice_to_vec(self.data.as_slice());
                match utf8_to_string(bytes) {
                    Some(s) => s,
                    None => {
                        proof { reveal_strlit("<#!this None type is not a string literal and cannot be displayed!#>"); }
                        String::from_str("<#!this None type is not a string literal and cannot be displayed!#>")
                    },
                }
            },
            VarType::I32 => i64_text(self.as_i32() as i64),
            VarType::I64 => i64_text(self.as_i64()),
            VarType::Real => {
                let n = self.as_num();
                n.to_float_str(precision)
            },
            VarType::Sequence => {
                let (start, end) = self.get_boundary();
                let (_index, id) = self.get_scope();
                proof {
                    reveal_strlit("<Sequence of Scope ");
                    reveal_strlit(" with length ");
                    reveal_strlit(" at 0x");
                    reveal_strlit(">");
                }
                let s = String::from_str("<Sequence of Scope ");
                let s = s.concat(BigUint::from_u64(id as u64).to_string().as_str());
                let s = s.concat(" with length ");
                let s = s.concat(BigUint::from_u64((end - start) as u64).to_string().as_str());
                let s = s.concat(" at 0x");
                let s = s.concat(hex_text(start as u64).as_str());
                s.concat(">")
            },
        }
    }
}


impl Var {
    /// The type.
    pub fn get_type(&self) -> (r: VarType)
        ensures
            r == self@.0,
    {
        self.type_
    }

    /// Replaces the type, keeping the bytes.
    pub fn set_type(&mut self, t: VarType)
        ensures
            final(self)@ == (t, old(self)@.1),
    {
        self.type_ = t;
    }

    /// A copy of the value.
    pub fn copy(&self) -> (r: Var)
        ensures
            r@ == self@,
    {
        Var { type_: self.type_, data: vstd::slice::slice_to_vec(self.data.as_slice()) }
    }

    /// Whether the value is a sequence handle (see `is_displayable`).
    pub fn is_sequence_handle(&self) -> (r: bool)
        ensures
            r == (self@.0 == VarType::Sequence && is_displayable(self@)),
    {
        match self.type_ {
            VarType::Sequence => {
                if self.data.len() < 32 {
                    return false;
                }
                self.read_u64(0) <= self.read_u64(8)
            },
            _ => false,
        }
    }

    /// Whether the value can be shown (see `is_displayable`).
    pub fn can_display(&self) -> (r: bool)
        ensures
            r == is_displayable(self@),
    {
        match self.type_ {
            VarType::Empty => true,
            VarType::Sequence => self.is_sequence_handle(),
            _ => self.is_arith_number(),
        }
    }
}

/// Whether two byte strings are equal.
pub fn bytes_eq(a: &[u8], b: &[u8]) -> (r: bool)
    ensures
        r == (a@ == b@),
{
    if a.len() != b.len() {
        return false;
    }
    let mut i: usize = 0;
    while i < a.len()
        invariant
            a@.len() == b@.len(),
            i <= a@.len(),
            forall|j: int| 0 <= j < i ==> a@[j] == b@[j],
        decreases a@.len() - i,
    {
        if a[i] != b[i] {
            return false;
        }
        i = i + 1;
    }
    assert(a@ =~= b@);
    true
}

/// Equality of two values as `==` on values decides it, by the higher of the two types: the
/// bytes for `None` and sequences, the integers for `I32` and `I64`, and for `Real` the numbers
/// that both byte images spell (see `num_eq`).
pub open spec fn var_equal(a: (VarType, Seq<u8>), b: (VarType, Seq<u8>)) -> bool {
    match type_max(a.0, b.0) {
        VarType::Empty => a.1 == b.1,
        VarType::I32 => le_i32(a.1) == le_i32(b.1),
        VarType::I64 => var_i64(a) == var_i64(b),
        VarType::Real => num_eq(BigNum::from_bytes_view(a.1), BigNum::from_bytes_view(b.1)),
        VarType::Sequence => a.1 == b.1,
    }
}

/// Two values that `==` can compare: integer comparisons take numbers only, and a real
/// comparison reads both byte images as reals.
pub open spec fn comparable(a: (VarType, Seq<u8>), b: (VarType, Seq<u8>)) -> bool {
    match type_max(a.0, b.0) {
        VarType::I32 | VarType::I64 => is_number(a) && is_number(b),
        VarType::Real => {
            &&& a.1.len() > 8 && a.1[2] != 128 && roomy(a.1.len())
            &&& b.1.len() > 8 && b.1[2] != 128 && roomy(b.1.len())
        },
        _ => true,
    }
}

impl Var {
    /// Whether two values are equal (see `var_equal`).
    pub fn equals(&self, other: &Var) -> (r: bool)
        requires
            comparable(self@, other@),
        ensures
            r == var_equal(self@, other@),
    {
        match self.type_.max(other.type_) {
            VarType::I32 => self.as_i32() == other.as_i32(),
            VarType::I64 => self.as_i64() == other.as_i64(),
            VarType::Real => {
                let x = BigNum::from_le_bytes(self.data.as_slice());
                let y = BigNum::from_le_bytes(other.data.as_slice());
                x.equals(&y)
            },
            _ => bytes_eq(self.data.as_slice(), other.data.as_slice()),
        }
    }
}

} // verus!
