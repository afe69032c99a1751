use math_lang::big_num::ubits::UintBits;

#[test]
fn debug() {
    let bits = UintBits::from(vec![1, 1]);
    assert_eq!(
        bits.to_bin_string(),
        "10000000000000000000000000000000000000000000000000000000000000001"
    );
}

#[test]
fn to_le_bytes() {
    let bits = UintBits::from(vec![0, u64::MAX, 0923]);
    let bytes = bits.to_le_bytes();
    let correct: Vec<u8> = vec![
        0, 0, 0, 0, 0, 0, 0, 0, 255, 255, 255, 255, 255, 255, 255, 255, 155, 3, 0, 0, 0, 0, 0, 0,
    ];
    assert_eq!(bytes, correct);
}

#[test]
fn from_le_bytes() {
    let b1 = [u8::MAX; 7];
    let b2 = [u8::MAX; 9];
    assert_eq!(UintBits::from_le_bytes(&b1), UintBits::from(vec![(1 << 56) - 1]));
    assert_eq!(
        UintBits::from_le_bytes(&b2),
        UintBits::from(vec![u64::MAX, (1 << 8) - 1])
    );
}

#[test]
fn get() {
    let bits = UintBits::from(vec![0, u64::MAX]);
    assert_eq!(bits.get(0), 0);
    assert_eq!(bits.get(23), 0);
    assert_eq!(bits.get(64), 1);
    assert_eq!(bits.get(120), 1);
}

#[test]
fn set_and_reset() {
    let mut bits = UintBits::new();
    bits.set(0);
    assert_eq!(bits, UintBits::from(vec![1]));
    bits.reset(0);
    assert_eq!(bits, UintBits::from(vec![0]));
    bits.set(64);
    assert_eq!(bits, UintBits::from(vec![0, 1]));
    bits.reset(64);
    assert_eq!(bits, UintBits::from(vec![0]));
}

#[test]
fn align_most() {
    let mut lhs = UintBits::new();
    let rhs = UintBits::from(vec![0, 0]);
    let len = lhs.align_most(&rhs);
    assert_eq!(lhs.0.len(), 2);
    assert_eq!(lhs, rhs);
    assert_eq!(len, 1);
}

#[test]
fn align_least() {
    let mut lhs = UintBits::new();
    let rhs = UintBits::from(vec![0, 0]);
    let len = lhs.align_least(&rhs);
    assert_eq!(lhs.0.len(), 2);
    assert_eq!(lhs, rhs);
    assert_eq!(len, 1);
}

#[test]
fn bit_len() {
    let bits = UintBits::from(vec![0923, 1, 0]);
    assert_eq!(bits.bit_len(), 65);
}

#[test]
fn len_and_truncate() {
    let mut bits = UintBits::from(vec![1; 4]);
    assert_eq!(bits.len(), 4 * 64);
    bits.truncate(65);
    assert_eq!(bits.len(), 2 * 64);
    bits.truncate(64);
    assert_eq!(bits.len(), 1 * 64);
    bits.truncate(1);
    assert_eq!(bits.len(), 1 * 64);
}

#[test]
fn iter() {
    let bits = UintBits::from(vec![0, u64::MAX]);
    let bit_arr = bits.bits();
    let mut correct = Vec::new();
    correct.extend(vec![0_u8; 64].into_iter());
    correct.extend(vec![1_u8; 64].into_iter());
    assert_eq!(bit_arr, correct);
    let mut it = bits.iter();
    let mut stepped = Vec::new();
    while let Some(b) = it.next() {
        stepped.push(b);
    }
    assert_eq!(stepped, correct);
}

#[test]
fn double_ended_iter() {
    let bits = UintBits::from(vec![0, u64::MAX]);
    let bit_arr = bits.bits_rev();
    let mut correct = Vec::new();
    correct.extend(vec![1_u8; 64].into_iter());
    correct.extend(vec![0_u8; 64].into_iter());
    assert_eq!(bit_arr, correct);
    let mut it = bits.iter();
    let mut stepped = Vec::new();
    while let Some(b) = it.next_back() {
        stepped.push(b);
    }
    assert_eq!(stepped, correct);
}

#[test]
fn bit_iter_meets_in_the_middle() {
    let bits = UintBits::from(vec![5]);
    let mut it = bits.iter();
    assert_eq!(it.next(), Some(1));
    assert_eq!(it.next_back(), Some(0));
    let mut rest = 0;
    while it.next().is_some() {
        rest += 1;
    }
    assert_eq!(rest, 62);
    assert_eq!(it.next_back(), None);
}

#[test]
fn bitand_assign() {
    let mut lhs = UintBits::from(vec![1]);
    let rhs = UintBits::from(vec![2, 1]);
    lhs.bitand_assign(&rhs);
    let mut ans = UintBits::from(vec![1 & 2, 1 & 0]);
    ans.shrink();
    assert_eq!(lhs, ans);
}

#[test]
fn bitor_assign() {
    let mut lhs = UintBits::from(vec![1]);
    let rhs = UintBits::from(vec![2, 1]);
    lhs.bitor_assign(&rhs);
    let mut ans = UintBits::from(vec![1 | 2, 1 | 0]);
    ans.shrink();
    assert_eq!(lhs, ans);
}

#[test]
fn bitxor_assign() {
    let mut lhs = UintBits::from(vec![1]);
    let rhs = UintBits::from(vec![2, 1]);
    lhs.bitxor_assign(&rhs);
    let mut ans = UintBits::from(vec![1 ^ 2, 1 ^ 0]);
    ans.shrink();
    assert_eq!(lhs, ans);
}

#[test]
fn bitand() {
    let lhs = UintBits::from(vec![1]);
    let rhs = UintBits::from(vec![2, 1]);
    let ret = lhs.bitand(&rhs);
    let mut ans = UintBits::from(vec![1 & 2, 1 & 0]);
    ans.shrink();
    assert_eq!(ret, ans);
}

#[test]
fn bitor() {
    let lhs = UintBits::from(vec![1]);
    let rhs = UintBits::from(vec![2, 1]);
    let ret = lhs.bitor(&rhs);
    let mut ans = UintBits::from(vec![1 | 2, 1 | 0]);
    ans.shrink();
    assert_eq!(ret, ans);
}

#[test]
fn bitxor() {
    let lhs = UintBits::from(vec![1]);
    let rhs = UintBits::from(vec![2, 1]);
    let ret = lhs.bitxor(&rhs);
    let mut ans = UintBits::from(vec![1 ^ 2, 1 ^ 0]);
    ans.shrink();
    assert_eq!(ret, ans);
}

#[test]
fn not() {
    let inner = vec![1, 2];
    let ubits = UintBits::from(inner.clone());
    assert_eq!(ubits, UintBits::from(inner));
    assert_eq!(ubits.not(), UintBits::from(vec![!1, !2]));
}

#[test]
fn shl_assign() {
    let mut ubits = UintBits::new();
    ubits.shl_assign(23);
    assert_eq!(ubits, UintBits::from(vec![0]));
    ubits.0[0] = 1;
    ubits.shl_assign(1);
    assert_eq!(ubits, UintBits::from(vec![2]));
    ubits.0 = vec![u64::MAX];
    ubits.shl_assign(1);
    assert_eq!(ubits, UintBits::from(vec![u64::MAX - 1, 1]));
    ubits.0 = vec![1234, u64::MAX, 5678];
    ubits.shl_assign(64 * 3 + 2);
    assert_eq!(
        ubits,
        UintBits::from(vec![0, 0, 0, 1234 << 2, u64::MAX - 3, (5678 << 2) | 3])
    );
}

#[test]
fn shl() {
    let mut ubits = UintBits::new();
    ubits = ubits.shl(23);
    assert_eq!(ubits, UintBits::from(vec![0]));
    ubits.0[0] = 1;
    ubits = ubits.shl(1);
    assert_eq!(ubits, UintBits::from(vec![2]));
    ubits = ubits.shl(64 * 3 + 2);
    assert_eq!(ubits, UintBits::from(vec![0, 0, 0, 2 << 2]));
}

#[test]
fn shr_assign() {
    let mut ubits = UintBits::new();
    ubits.shr_assign(23);
    assert_eq!(ubits, UintBits::from(vec![0]));
    ubits.0 = vec![0923];
    ubits.shr_assign(1);
    assert_eq!(ubits, UintBits::from(vec![0923 >> 1]));
    ubits.0 = vec![0, 0, 0, 1234, 3];
    ubits.shr_assign(64 * 3 + 2);
    assert_eq!(ubits, UintBits::from(vec![(1234 >> 2) | (3_u64 << 62)]));
}

#[test]
fn shr() {
    let mut ubits = UintBits::new();
    ubits = ubits.shr(23);
    assert_eq!(ubits, UintBits::from(vec![0]));
    ubits.0 = vec![0923];
    ubits = ubits.shr(1);
    assert_eq!(ubits, UintBits::from(vec![0923 >> 1]));
    ubits.0 = vec![0, 0, 0, 1234, 3];
    ubits = ubits.shr(64 * 3 + 2);
    assert_eq!(ubits, UintBits::from(vec![(1234 >> 2) | (3_u64 << 62)]));
}

#[test]
fn le_bytes_round_trip_keeps_every_word() {
    let bits = UintBits::from(vec![7, 0, 9, 0]);
    let back = UintBits::from_le_bytes(&bits.to_le_bytes());
    assert_eq!(back, bits);
    let mut shrunk = back.clone();
    shrunk.shrink();
    assert_eq!(shrunk, UintBits::from(vec![7, 0, 9]));
}

#[test]
fn from_le_bytes_of_nothing_is_zero() {
    let empty: [u8; 0] = [];
    assert_eq!(UintBits::from_le_bytes(&empty), UintBits::from(vec![0]));
}

#[test]
fn fold_bits_sums_words() {
    let bits = UintBits::from(vec![3, 4, 5]);
    let total = bits.fold_bits(0u64, |acc, w| acc.wrapping_add(*w));
    assert_eq!(total, 12);
}

#[test]
fn all_zero_and_set_bits() {
    let mut bits = UintBits::from(vec![0, 0]);
    assert!(bits.all_zero());
    bits.set_bits(3, 42);
    assert_eq!(bits, UintBits::from(vec![0, 0, 0, 42]));
    assert!(!bits.all_zero());
}
