use bevy_pf_vector::path::{
    Brush, FillRule, GradientStop, LineCap, LineJoin, LinearRgba, PathStyle, Point, StrokeStyle,
};
use bevy_pf_vector::scalar::Scalar;

fn s(x: f32) -> Scalar {
    Scalar { bits: x.to_bits() }
}

fn rgba(alpha: f32) -> LinearRgba {
    LinearRgba { red: s(0.5), green: s(0.25), blue: s(1.0), alpha: s(alpha) }
}

fn stops(alphas: &[f32]) -> Vec<GradientStop> {
    alphas.iter().map(|&a| GradientStop { offset: s(0.0), color: rgba(a) }).collect()
}

#[test]
fn opacity_is_full_alpha() {
    assert!(rgba(1.0).is_opaque());
    assert!(rgba(1.5).is_opaque());
    assert!(!rgba(0.999).is_opaque());
    assert!(!rgba(f32::NAN).is_opaque());
    assert!(LinearRgba::white().is_opaque());
}

#[test]
fn a_gradient_is_opaque_when_every_stop_is() {
    let point = Point::new(s(0.0), s(0.0));
    let linear = |alphas: &[f32]| Brush::Linear { start: point, end: point, stops: stops(alphas) };
    assert!(linear(&[1.0, 1.0]).is_opaque());
    assert!(!linear(&[1.0, 0.5]).is_opaque());
    let radial = Brush::Radial { center: point, radius: s(1.0), stops: stops(&[0.0]) };
    assert!(!radial.is_opaque());
    assert!(!Brush::Solid(rgba(0.5)).is_opaque());
}

#[test]
fn the_flat_colour_is_the_first_stop() {
    let point = Point::new(s(0.0), s(0.0));
    let brush = Brush::Radial { center: point, radius: s(1.0), stops: stops(&[0.25, 1.0]) };
    assert_eq!(brush.flat_color(), rgba(0.25));
    let empty = Brush::Linear { start: point, end: point, stops: Vec::new() };
    assert_eq!(empty.flat_color(), LinearRgba::white());
    assert_eq!(Brush::Solid(rgba(0.75)).flat_color(), rgba(0.75));
}

#[test]
fn styles_start_plain() {
    let stroke = StrokeStyle::new(Brush::Solid(rgba(1.0)), s(2.0));
    assert_eq!((stroke.join, stroke.cap, stroke.width), (LineJoin::Miter, LineCap::Butt, s(2.0)));
    assert!(stroke.dash.is_none());
    let style = PathStyle::stroke(stroke);
    assert!(style.fill.is_none() && style.stroke.is_some());
    let style = PathStyle::fill(Brush::Solid(rgba(1.0)));
    assert!(style.fill.is_some() && style.stroke.is_none());
    assert_eq!(style.fill_rule, FillRule::EvenOdd);
}
