use bevy_pf_vector::scalar::Scalar;

fn s(x: f32) -> Scalar {
    Scalar { bits: x.to_bits() }
}

#[test]
fn small_whole_numbers_are_exact() {
    for n in [0u32, 1, 2, 3, 7, 8, 255, 1024, 65535, 0xff_ffff] {
        assert_eq!(Scalar::from_u32(n), s(n as f32));
    }
}

#[test]
fn large_whole_numbers_round_to_even() {
    for n in [
        0x100_0000u32,
        0x100_0001,
        0x100_0003,
        0x7fff_ffff,
        0x8000_0080,
        0x8000_0081,
        0x8000_0180,
        0xffff_ff7f,
        0xffff_ff80,
        u32::MAX,
    ] {
        assert_eq!(Scalar::from_u32(n), s(n as f32), "{n:#x}");
    }
}

#[test]
fn dyadic_fractions_are_exact() {
    for i in 0..=64u32 {
        assert_eq!(Scalar::dyadic(i, 6), s(i as f32 / 64.0));
    }
    assert_eq!(Scalar::dyadic(0xff_ffff, 24), s(0xff_ffff as f32 / (1u32 << 24) as f32));
    assert_eq!(Scalar::dyadic(3, 0), s(3.0));
}

#[test]
fn comparisons_follow_the_numbers() {
    let values = [
        f32::NEG_INFINITY,
        -3.5,
        -0.0,
        0.0,
        f32::MIN_POSITIVE,
        1.0,
        f32::MAX,
        f32::INFINITY,
        f32::NAN,
    ];
    for a in values {
        for b in values {
            assert_eq!(s(a).at_most(&s(b)), a <= b, "{a} {b}");
            assert_eq!(s(a).less_than(&s(b)), a < b, "{a} {b}");
            assert_eq!(s(a).total_key().cmp(&s(b).total_key()), a.total_cmp(&b));
            if !(a == 0.0 && b == 0.0) {
                let larger = a.max(b);
                assert_eq!(s(a).max(s(b)).is_nan(), larger.is_nan());
                if !larger.is_nan() {
                    assert_eq!(s(a).max(s(b)), s(larger));
                }
            }
        }
    }
}

#[test]
fn signs_and_classes() {
    assert_eq!(s(2.5).neg(), s(-2.5));
    assert_eq!(s(-0.0).neg(), s(0.0));
    assert!(s(f32::NAN).is_nan() && !s(1.0).is_nan());
    assert!(s(f32::MAX).is_finite() && !s(f32::INFINITY).is_finite() && !s(f32::NAN).is_finite());
    assert!(s(-0.0).is_zero() && s(0.0).is_zero() && !s(1.0e-40).is_zero());
    assert_eq!(Scalar::zero(), s(0.0));
    assert_eq!(Scalar::one(), s(1.0));
}

#[test]
fn a_number_has_one_pattern() {
    assert_eq!(Scalar::dyadic(2, 1), Scalar::dyadic(1, 0));
    assert_eq!(Scalar::dyadic(32, 6), Scalar::dyadic(1, 1));
}
