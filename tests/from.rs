use ruint::{F64Bits, FromUintError, ToUintError, Uint, UintTryFrom, UintTryTo};

fn check_u64_small<const BITS: usize, const LIMBS: usize>() {
    assert_eq!(Uint::<BITS, LIMBS>::uint_try_from(0_u64), Ok(Uint::zero()));
    assert_eq!(Uint::<BITS, LIMBS>::uint_try_from(1_u64).unwrap().as_limbs()[0], 1);
}

#[test]
fn test_u64() {
    assert_eq!(Uint::<0, 0>::uint_try_from(0_u64), Ok(Uint::zero()));
    assert_eq!(
        Uint::<0, 0>::uint_try_from(1_u64),
        Err(ToUintError::ValueTooLarge(0, Uint::zero()))
    );
    check_u64_small::<1, 1>();
    check_u64_small::<7, 1>();
    check_u64_small::<63, 1>();
    check_u64_small::<64, 1>();
    check_u64_small::<65, 2>();
    check_u64_small::<128, 2>();
    check_u64_small::<129, 3>();
    check_u64_small::<256, 4>();
    check_u64_small::<257, 5>();
}

#[test]
fn saturating_from_clamps() {
    assert_eq!(Uint::<8, 1>::saturating_from(300_u16), Uint::from_limbs([255]));
    assert_eq!(Uint::<8, 1>::saturating_from(-10_i16), Uint::zero());
    assert_eq!(Uint::<8, 1>::saturating_from(200_u16), Uint::from_limbs([200]));
    assert_eq!(Uint::<8, 1>::saturating_from(i128::MIN), Uint::zero());
    assert_eq!(Uint::<65, 2>::saturating_from(u128::MAX), Uint::from_limbs([u64::MAX, 1]));
}

#[test]
fn wrapping_from_wraps() {
    assert_eq!(Uint::<8, 1>::wrapping_from(300_u16), Uint::from_limbs([44]));
    assert_eq!(Uint::<8, 1>::wrapping_from(-10_i16), Uint::from_limbs([246]));
    assert_eq!(Uint::<256, 4>::wrapping_from(-1_i8), Uint::from_limbs([255, 0, 0, 0]));
    assert_eq!(
        Uint::<128, 2>::wrapping_from(-1_i128),
        Uint::from_limbs([u64::MAX, u64::MAX])
    );
    assert_eq!(Uint::<70, 2>::wrapping_from(u128::MAX), Uint::from_limbs([u64::MAX, 63]));
}

#[test]
fn try_from_errors() {
    assert_eq!(
        Uint::<8, 1>::uint_try_from(256_u32),
        Err(ToUintError::ValueTooLarge(8, Uint::zero()))
    );
    assert_eq!(
        Uint::<8, 1>::uint_try_from(-1_i64),
        Err(ToUintError::ValueNegative(8, Uint::from_limbs([255])))
    );
    assert_eq!(Uint::<8, 1>::uint_try_from(255_u8), Ok(Uint::from_limbs([255])));
    assert_eq!(
        Uint::<128, 2>::uint_try_from(0x1234_5678_9abc_def0_1122_3344_5566_7788_u128),
        Ok(Uint::from_limbs([0x1122_3344_5566_7788, 0x1234_5678_9abc_def0]))
    );
}

#[test]
fn from_exact() {
    assert_eq!(Uint::<8, 1>::from(142_u16), Uint::from_limbs([142]));
    assert_eq!(Uint::<12, 1>::from_limbs([300]).to::<i16>(), 300_i16);
}

#[test]
fn wrapping_and_saturating_to() {
    let x = Uint::<12, 1>::from_limbs([300]);
    assert_eq!(x.wrapping_to::<i8>(), 44_i8);
    assert_eq!(x.saturating_to::<i8>(), 127_i8);
    let y = Uint::<32, 1>::from_limbs([255]);
    assert_eq!(y.wrapping_to::<i8>(), -1_i8);
    assert_eq!(y.saturating_to::<i8>(), 127_i8);
    let z = Uint::<256, 4>::from_limbs([0x1337_cafe_c0d3, 0, 0, 0]);
    assert_eq!(z.wrapping_to::<u32>(), 0xcafe_c0d3_u32);
    assert_eq!(z.saturating_to::<u32>(), u32::MAX);
    let w = Uint::<256, 4>::from_limbs([1, 2, 3, 0]);
    assert_eq!(w.wrapping_to::<u128>(), (2_u128 << 64) | 1);
    assert_eq!(w.saturating_to::<u128>(), u128::MAX);
    let v = Uint::<256, 4>::from_limbs([0, 0x8000_0000_0000_0000, 0, 0]);
    assert_eq!(v.wrapping_to::<i128>(), i128::MIN);
    assert_eq!(v.saturating_to::<i128>(), i128::MAX);
}

#[test]
fn try_to_errors() {
    let x = Uint::<12, 1>::from_limbs([300]);
    assert_eq!(
        UintTryTo::<u8>::uint_try_to(&x),
        Err(FromUintError::Overflow(12, 44, 255))
    );
    assert_eq!(UintTryTo::<u16>::uint_try_to(&x), Ok(300));
    assert_eq!(
        UintTryTo::<bool>::uint_try_to(&x),
        Err(FromUintError::Overflow(12, false, true))
    );
    assert_eq!(UintTryTo::<bool>::uint_try_to(&Uint::<12, 1>::from_limbs([1])), Ok(true));
    assert_eq!(UintTryTo::<u64>::uint_try_to(&Uint::<0, 0>::zero()), Ok(0));
    assert_eq!(
        UintTryTo::<i64>::uint_try_to(&Uint::<64, 1>::from_limbs([u64::MAX])),
        Err(FromUintError::Overflow(64, -1, i64::MAX))
    );
}

#[test]
fn wrapping_round_trip() {
    let x = Uint::<40, 1>::from_limbs([0xab_cdef_0123]);
    assert_eq!(Uint::<40, 1>::wrapping_from(x.wrapping_to::<u64>()), x);
    let y = Uint::<128, 2>::from_limbs([5, 7]);
    assert_eq!(Uint::<128, 2>::wrapping_from(y.wrapping_to::<u64>()), Uint::from_limbs([5, 0]));
    assert_eq!(Uint::<16, 1>::wrapping_from(-2_i32).wrapping_to::<i16>(), -2_i16);
}

#[test]
fn max_and_zero() {
    assert_eq!(Uint::<65, 2>::max().as_limbs(), &[u64::MAX, 1]);
    assert_eq!(Uint::<64, 1>::max().as_limbs(), &[u64::MAX]);
    assert_eq!(Uint::<7, 1>::max().as_limbs(), &[127]);
    assert_eq!(Uint::<0, 0>::max(), Uint::<0, 0>::zero());
}

#[test]
fn cross_width_conversions() {
    let x = Uint::<256, 4>::from_limbs([0x7014_b4c2_d1f2, 0, 0, 0]);
    assert_eq!(Uint::<64, 1>::from_uint(x), Uint::from_limbs([0x7014_b4c2_d1f2]));
    assert_eq!(Uint::<64, 1>::checked_from_uint(x), Some(Uint::from_limbs([0x7014_b4c2_d1f2])));
    assert_eq!(Uint::<32, 1>::checked_from_uint(x), None);
    assert_eq!(Uint::<32, 1>::wrapping_from(x), Uint::from_limbs([0xb4c2_d1f2]));
    assert_eq!(Uint::<32, 1>::saturating_from(x), Uint::<32, 1>::max());
    assert_eq!(
        Uint::<32, 1>::uint_try_from(x),
        Err(ToUintError::ValueTooLarge(32, Uint::from_limbs([0xb4c2_d1f2])))
    );
    let wide = Uint::<130, 3>::from_limbs([1, 2, 3]);
    assert_eq!(Uint::<256, 4>::from_uint(wide), Uint::from_limbs([1, 2, 3, 0]));
    assert_eq!(Uint::<129, 3>::wrapping_from(wide), Uint::from_limbs([1, 2, 1]));
}

#[test]
fn overflowing_from_limbs_slice_masks_top() {
    let (n, overflow) = Uint::<70, 2>::overflowing_from_limbs_slice(&[5, 0xff, 9]);
    assert_eq!(n, Uint::from_limbs([5, 0x3f]));
    assert!(overflow);
    let (n, overflow) = Uint::<70, 2>::overflowing_from_limbs_slice(&[5]);
    assert_eq!(n, Uint::from_limbs([5, 0]));
    assert!(!overflow);
    let (n, overflow) = Uint::<0, 0>::overflowing_from_limbs_slice(&[0, 0]);
    assert_eq!(n, Uint::zero());
    assert!(!overflow);
}

#[test]
fn wrapping_neg_values() {
    assert_eq!(Uint::<8, 1>::from_limbs([10]).wrapping_neg(), Uint::from_limbs([246]));
    assert_eq!(Uint::<8, 1>::zero().wrapping_neg(), Uint::zero());
    assert_eq!(Uint::<65, 2>::from_limbs([1, 0]).wrapping_neg(), Uint::from_limbs([u64::MAX, 1]));
    assert_eq!(Uint::<0, 0>::zero().wrapping_neg(), Uint::zero());
}

#[test]
fn overflowing_from_shifted_values() {
    assert_eq!(
        Uint::<128, 2>::overflowing_from_shifted(3, 63),
        (Uint::from_limbs([1 << 63, 1]), false)
    );
    assert_eq!(Uint::<128, 2>::overflowing_from_shifted(5, 64), (Uint::from_limbs([0, 5]), false));
    assert_eq!(Uint::<8, 1>::overflowing_from_shifted(3, 7), (Uint::from_limbs([128]), true));
    assert_eq!(Uint::<8, 1>::overflowing_from_shifted(1, 500), (Uint::zero(), true));
    assert_eq!(Uint::<8, 1>::overflowing_from_shifted(0, 500), (Uint::zero(), false));
}

#[test]
fn to_other_width() {
    let x = Uint::<12, 1>::from_limbs([300]);
    assert_eq!(x.to::<Uint<256, 4>>(), Uint::from_limbs([300, 0, 0, 0]));
    let y = Uint::<256, 4>::from_limbs([0x1337_cafe_c0d3, 0, 0, 0]);
    assert_eq!(y.wrapping_to::<Uint<32, 1>>(), Uint::from_limbs([0xcafe_c0d3]));
    assert_eq!(y.saturating_to::<Uint<32, 1>>(), Uint::<32, 1>::max());
    assert_eq!(
        UintTryTo::<Uint<32, 1>>::uint_try_to(&y),
        Err(FromUintError::Overflow(256, Uint::from_limbs([0xcafe_c0d3]), Uint::<32, 1>::max()))
    );
}

fn check_f64_small<const BITS: usize, const LIMBS: usize>() {
    assert_eq!(Uint::<BITS, LIMBS>::try_from_f64_bits(0.0_f64.to_bits()), Ok(Uint::zero()));
    assert_eq!(
        Uint::<BITS, LIMBS>::try_from_f64_bits(1.0_f64.to_bits()).unwrap().as_limbs()[0],
        1
    );
}

#[test]
fn test_f64() {
    assert_eq!(Uint::<0, 0>::try_from_f64_bits(0.0_f64.to_bits()), Ok(Uint::zero()));
    check_f64_small::<1, 1>();
    check_f64_small::<7, 1>();
    check_f64_small::<63, 1>();
    check_f64_small::<64, 1>();
    check_f64_small::<65, 2>();
    check_f64_small::<128, 2>();
    check_f64_small::<129, 3>();
    check_f64_small::<256, 4>();
    check_f64_small::<257, 5>();
    assert_eq!(
        Uint::<7, 1>::try_from_f64_bits(123.499_f64.to_bits()),
        Ok(Uint::from_limbs([123]))
    );
    assert_eq!(
        Uint::<7, 1>::try_from_f64_bits(123.500_f64.to_bits()),
        Ok(Uint::from_limbs([124]))
    );
}

#[test]
fn f64_special_values() {
    assert_eq!(
        Uint::<7, 1>::try_from_f64_bits(f64::NAN.to_bits()),
        Err(ToUintError::NotANumber(7))
    );
    assert_eq!(
        Uint::<8, 1>::try_from_f64_bits(f64::INFINITY.to_bits()),
        Err(ToUintError::ValueTooLarge(8, Uint::zero()))
    );
    assert_eq!(
        Uint::<8, 1>::try_from_f64_bits(f64::NEG_INFINITY.to_bits()),
        Err(ToUintError::ValueNegative(8, Uint::zero()))
    );
    assert_eq!(Uint::<8, 1>::try_from_f64_bits((-0.0_f64).to_bits()), Ok(Uint::zero()));
    assert_eq!(Uint::<8, 1>::try_from_f64_bits(5e-324_f64.to_bits()), Ok(Uint::zero()));
}

#[test]
fn f64_rounding_and_wrapping() {
    assert_eq!(Uint::<8, 1>::try_from_f64_bits(0.5_f64.to_bits()), Ok(Uint::from_limbs([1])));
    assert_eq!(Uint::<8, 1>::try_from_f64_bits(0.499_f64.to_bits()), Ok(Uint::zero()));
    assert_eq!(Uint::<8, 1>::try_from_f64_bits(2.5_f64.to_bits()), Ok(Uint::from_limbs([3])));
    assert_eq!(
        Uint::<8, 1>::try_from_f64_bits((-3.7_f64).to_bits()),
        Err(ToUintError::ValueNegative(8, Uint::from_limbs([252])))
    );
    assert_eq!(
        Uint::<8, 1>::try_from_f64_bits(255.5_f64.to_bits()),
        Err(ToUintError::ValueTooLarge(8, Uint::zero()))
    );
    assert_eq!(
        Uint::<64, 1>::try_from_f64_bits(1e20_f64.to_bits()),
        Err(ToUintError::ValueTooLarge(64, Uint::from_limbs([7_766_279_631_452_241_920])))
    );
    assert_eq!(
        Uint::<128, 2>::try_from_f64_bits(1_180_591_620_717_411_303_424.0_f64.to_bits()),
        Ok(Uint::from_limbs([0, 64]))
    );
}

#[test]
fn f64_policies() {
    assert_eq!(Uint::<7, 1>::wrapping_from(F64Bits(f64::NAN.to_bits())), Uint::zero());
    assert_eq!(Uint::<7, 1>::saturating_from(F64Bits(f64::NAN.to_bits())), Uint::zero());
    assert_eq!(Uint::<8, 1>::saturating_from(F64Bits(300.0_f64.to_bits())), Uint::<8, 1>::max());
    assert_eq!(Uint::<8, 1>::wrapping_from(F64Bits(300.0_f64.to_bits())), Uint::from_limbs([44]));
    assert_eq!(Uint::<8, 1>::saturating_from(F64Bits((-2.0_f64).to_bits())), Uint::zero());
    assert_eq!(Uint::<8, 1>::wrapping_from(F64Bits((-2.0_f64).to_bits())), Uint::from_limbs([254]));
}

#[test]
fn bit_len_and_bit() {
    assert_eq!(Uint::<0, 0>::zero().bit_len(), 0);
    assert_eq!(Uint::<8, 1>::zero().bit_len(), 0);
    assert_eq!(Uint::<8, 1>::from_limbs([1]).bit_len(), 1);
    assert_eq!(Uint::<8, 1>::from_limbs([255]).bit_len(), 8);
    assert_eq!(Uint::<130, 3>::from_limbs([0, 0, 2]).bit_len(), 130);
    assert_eq!(Uint::<128, 2>::from_limbs([u64::MAX, 0]).bit_len(), 64);
    let x = Uint::<130, 3>::from_limbs([5, 0, 2]);
    assert!(x.bit(0));
    assert!(!x.bit(1));
    assert!(x.bit(2));
    assert!(!x.bit(64));
    assert!(x.bit(129));
    assert!(!x.bit(128));
}

#[test]
fn word_sized_conversions() {
    assert_eq!(Uint::<8, 1>::uint_try_from(200_usize), Ok(Uint::from_limbs([200])));
    assert_eq!(
        Uint::<8, 1>::uint_try_from(300_usize),
        Err(ToUintError::ValueTooLarge(8, Uint::from_limbs([44])))
    );
    assert_eq!(Uint::<8, 1>::uint_try_from(7_isize), Ok(Uint::from_limbs([7])));
    assert_eq!(
        Uint::<8, 1>::uint_try_from(-10_isize),
        Err(ToUintError::ValueNegative(8, Uint::from_limbs([246])))
    );
    assert_eq!(
        Uint::<128, 2>::wrapping_from(-1_isize),
        Uint::from_limbs([usize::MAX as u64, 0])
    );
}

#[test]
fn most_significant_bits_window() {
    assert_eq!(Uint::<8, 1>::zero().most_significant_bits(), (0, 0));
    assert_eq!(Uint::<64, 1>::from_limbs([12345]).most_significant_bits(), (12345, 0));
    assert_eq!(Uint::<128, 2>::from_limbs([7, 0]).most_significant_bits(), (7, 0));
    // 2^64 + 3: the top 64 bits are 2^63, scaled by 2^1.
    assert_eq!(
        Uint::<128, 2>::from_limbs([3, 1]).most_significant_bits(),
        (0x8000_0000_0000_0001, 1)
    );
    assert_eq!(
        Uint::<192, 3>::from_limbs([0, u64::MAX, 0x8000_0000_0000_0000]).most_significant_bits(),
        (0x8000_0000_0000_0000, 128)
    );
}

#[test]
fn native_round_trips() {
    assert_eq!(Uint::<8, 1>::wrapping_from(-128_i8).wrapping_to::<i8>(), -128_i8);
    assert_eq!(Uint::<64, 1>::wrapping_from(-5_i64).wrapping_to::<i64>(), -5_i64);
    assert_eq!(Uint::<128, 2>::wrapping_from(i128::MIN).wrapping_to::<i128>(), i128::MIN);
    assert_eq!(Uint::<200, 4>::wrapping_from(u128::MAX).wrapping_to::<u128>(), u128::MAX);
    assert_eq!(Uint::<16, 1>::wrapping_from(u16::MAX).wrapping_to::<u16>(), u16::MAX);
    let x = Uint::<100, 2>::from_limbs([0x1234, 0xf_ffff_ffff]);
    assert_eq!(Uint::<100, 2>::wrapping_from(x.wrapping_to::<i32>()), Uint::from_limbs([0x1234, 0]));
    assert_eq!(Uint::<100, 2>::wrapping_from(x.wrapping_to::<u128>()), x);
}
