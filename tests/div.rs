use ruint::{div_3by2, div_rem, divrem_nby1, divrem_nbym};

const HALF: u64 = 1_u64 << 63;
const FULL: u64 = u64::MAX;

#[test]
fn div_3by2_tests() {
    // Test cases where n[2] == d[1]
    assert_eq!(div_3by2(&[FULL, FULL - 1, HALF], &[FULL, HALF]), FULL);
    assert_eq!(div_3by2(&[0, 0, HALF], &[FULL, HALF]), FULL - 1);
}

#[test]
fn div_3by2_top_limbs_equal_both_branches() {
    // The residual is at most the divisor: the largest limb.
    assert_eq!(div_3by2(&[5, 3, HALF], &[4, HALF]), FULL);
    // The residual exceeds the divisor: one less.
    assert_eq!(div_3by2(&[0, 1, HALF], &[FULL, HALF]), FULL - 1);
    // The top two limbs equal the divisor: the estimate is capped.
    assert_eq!(div_3by2(&[7, 4, HALF], &[4, HALF]), FULL);
}

#[test]
fn div_3by2_general_case() {
    // [0, 1, 0] / [0, HALF] = 2^64 / 2^127, which is zero.
    assert_eq!(div_3by2(&[0, 1, 0], &[0, HALF]), 0);
    // (3 * 2^127 + 5) / 2^127 = 3.
    assert_eq!(div_3by2(&[5, HALF, 1], &[0, HALF]), 3);
}

#[test]
fn test_divrem_4by3() {
    let mut numerator = [40, 31, 79, 84, 0];
    let mut divisor = [53, 12, 12];
    let expected_quotient = [u64::max_value(), 6];
    let expected_remainder = [93, 0xffff_ffff_ffff_feb8, 6];
    divrem_nbym(&mut numerator, &mut divisor);
    let remainder = &numerator[0..3];
    let quotient = &numerator[3..5];
    assert_eq!(remainder, expected_remainder);
    assert_eq!(quotient, expected_quotient);
}

#[test]
#[allow(clippy::unreadable_literal)]
fn test_divrem_8by4() {
    let mut numerator = [
        0x9c2bcebfa9cca2c6_u64,
        0x274e154bb5e24f7a_u64,
        0xe1442d5d3842be2b_u64,
        0xf18f5adfd420853f_u64,
        0x04ed6127eba3b594_u64,
        0xc5c179973cdb1663_u64,
        0x7d7f67780bb268ff_u64,
        0x0000000000000003_u64,
        0x0000000000000000_u64,
    ];
    let mut divisor = [
        0x0181880b078ab6a1_u64,
        0x62d67f6b7b0bda6b_u64,
        0x92b1840f9c792ded_u64,
        0x0000000000000019_u64,
    ];
    let expected_quotient = [
        0x9128464e61d6b5b3_u64,
        0xd9eea4fc30c5ac6c_u64,
        0x944a2d832d5a6a08_u64,
        0x22f06722e8d883b1_u64,
        0x0000000000000000_u64,
    ];
    let expected_remainder = [
        0x1dfa5a7ea5191b33_u64,
        0xb5aeb3f9ad5e294e_u64,
        0xfc710038c13e4eed_u64,
        0x000000000000000b_u64,
    ];
    divrem_nbym(&mut numerator, &mut divisor);
    let remainder = &numerator[0..4];
    let quotient = &numerator[4..9];
    assert_eq!(remainder, expected_remainder);
    assert_eq!(quotient, expected_quotient);
}

#[test]
#[allow(clippy::unreadable_literal)]
fn test_divrem_4by4() {
    let mut numerator = [
        0xe72530a3d4e91ea3,
        0x4edef514135f5899,
        0x1868b9a7d418e9c6,
        0x6f1480e63854afa4,
        0,
    ];
    let mut divisor = [
        0xa62b65900d2a62bb,
        0xffb08af4108f9aea,
        0xb87126f34ee28533,
        0x3ba5ddaec5090ef0,
    ];
    divrem_nbym(&mut numerator, &mut divisor);
    let remainder = &numerator[0..4];
    let quotient = numerator[4];
    assert_eq!(
        remainder,
        [
            0x40f9cb13c7bebbe8,
            0x4f2e6a2002cfbdaf,
            0x5ff792b485366492,
            0x336ea337734ba0b3
        ]
    );
    assert_eq!(quotient, 1);
}

#[test]
fn divrem_nby1_single_limb() {
    // (7 * 2^64 + 5) / 3 = 2 * 2^64 + (2^64 + 5) / 3, remainder (2^64 + 5) % 3 = 0.
    let mut numerator = [5_u64, 7];
    let remainder = divrem_nby1(&mut numerator, 3);
    assert_eq!(remainder, 0);
    assert_eq!(numerator, [0x5555_5555_5555_5557, 2]);
    let mut numerator = [100_u64];
    assert_eq!(divrem_nby1(&mut numerator, 7), 2);
    assert_eq!(numerator, [14]);
    let mut empty: [u64; 0] = [];
    assert_eq!(divrem_nby1(&mut empty, 9), 0);
}

#[test]
fn div_rem_single_limb_divisor() {
    let mut numerator = [100_u64, 0, 0];
    let mut divisor = [7_u64, 0, 0];
    div_rem(&mut numerator, &mut divisor);
    assert_eq!(numerator, [14, 0, 0]);
    assert_eq!(divisor, [2, 0, 0]);
}

#[test]
fn div_rem_golden_vector() {
    let mut numerator = [40_u64, 31, 79, 84];
    let mut divisor = [53_u64, 12, 12, 0];
    div_rem(&mut numerator, &mut divisor);
    assert_eq!(numerator, [u64::MAX, 6, 0, 0]);
    assert_eq!(divisor, [93, 0xffff_ffff_ffff_feb8, 6, 0]);
}

#[test]
fn div_rem_divisor_larger_than_numerator() {
    let mut numerator = [5_u64, 1];
    let mut divisor = [0_u64, 2];
    div_rem(&mut numerator, &mut divisor);
    assert_eq!(numerator, [0, 0]);
    assert_eq!(divisor, [5, 1]);
}

#[test]
fn div_rem_single_and_multi_limb_paths_agree() {
    // A single-limb divisor, and the same divisor padded with zero limbs,
    // against the general path on a divisor that is one limb wider.
    let input = [0x1234_5678_9abc_def0_u64, 0x0fed_cba9_8765_4321, 42, 7];
    let mut numerator = input;
    let mut divisor = [1000_u64];
    div_rem(&mut numerator, &mut divisor);
    let mut padded_numerator = input;
    let mut padded_divisor = [1000_u64, 0, 0, 0];
    div_rem(&mut padded_numerator, &mut padded_divisor);
    assert_eq!(numerator, padded_numerator);
    assert_eq!(divisor[0], padded_divisor[0]);
    assert_eq!(padded_divisor[1..], [0, 0, 0]);
    // Multiplying back gives the numerator.
    let mut check = [0_u64; 4];
    let mut carry: u128 = divisor[0] as u128;
    for i in 0..4 {
        let t = (numerator[i] as u128) * 1000 + carry;
        check[i] = t as u64;
        carry = t >> 64;
    }
    assert_eq!(carry, 0);
    assert_eq!(check, input);
}

#[test]
fn div_rem_reconstructs_numerator() {
    let input = [0xdead_beef_u64, 0xffff_ffff_ffff_ffff, 0x1, 0x8000_0000_0000_0000];
    let mut numerator = input;
    let mut divisor = [0x1111_2222_3333_4444_u64, 0x5555, 0];
    div_rem(&mut numerator, &mut divisor);
    // remainder < divisor
    assert!(divisor[2] == 0 && (divisor[1] < 0x5555 || (divisor[1] == 0x5555 && divisor[0] < 0x1111_2222_3333_4444)));
    // quotient * divisor + remainder == numerator
    let d = [0x1111_2222_3333_4444_u64, 0x5555];
    let mut acc = [0_u128; 6];
    for i in 0..4 {
        for j in 0..2 {
            let p = (numerator[i] as u128) * (d[j] as u128);
            acc[i + j] += p & 0xffff_ffff_ffff_ffff;
            acc[i + j + 1] += p >> 64;
        }
    }
    for i in 0..3 {
        acc[i] += divisor[i] as u128;
    }
    let mut out = [0_u64; 6];
    let mut carry: u128 = 0;
    for i in 0..6 {
        let t = acc[i] + carry;
        out[i] = t as u64;
        carry = t >> 64;
    }
    assert_eq!(carry, 0);
    assert_eq!(out[..4], input);
    assert_eq!(out[4..], [0, 0]);
}
