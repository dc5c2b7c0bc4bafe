use bevy_pf_vector::hud::HudTransform;
use bevy_pf_vector::scalar::Scalar;

fn s(x: f32) -> Scalar {
    Scalar { bits: x.to_bits() }
}

#[test]
fn transforms_start_unrotated_at_scale_one() {
    let at = HudTransform::from_xyz(s(1.0), s(-2.0), s(3.5));
    assert_eq!(at.translation, [s(1.0), s(-2.0), s(3.5)]);
    assert_eq!(at.rotation, s(0.0));
    assert_eq!(at.scale, [s(1.0), s(1.0)]);
    assert_eq!(HudTransform::default(), HudTransform::from_xyz(s(0.0), s(0.0), s(0.0)));
}
