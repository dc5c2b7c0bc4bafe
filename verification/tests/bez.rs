use bevy_pf_vector::bez::{from_bez_path, to_bez_path};
use bevy_pf_vector::dash::{expand_dashes, is_countable, is_dashable};
use bevy_pf_vector::path::{Brush, LineCap, LinearRgba, PathCommand, Point, StrokeStyle};
use bevy_pf_vector::pen::to_stroke;
use bevy_pf_vector::scalar::Scalar;
use vello::kurbo::{Cap, Join, PathEl};

fn s(x: f32) -> Scalar {
    Scalar { bits: x.to_bits() }
}

fn p(x: f32, y: f32) -> Point {
    Point::new(s(x), s(y))
}

#[test]
fn paths_read_back() {
    let commands = vec![
        PathCommand::MoveTo(p(0.1, -0.2)),
        PathCommand::LineTo(p(3.3, 4.4)),
        PathCommand::QuadTo { ctrl: p(1.0, 2.0), to: p(3.0, 4.0) },
        PathCommand::CubicTo { ctrl1: p(-1.0, 2.5), ctrl2: p(3.25, -4.0), to: p(5.0, -6.5) },
        PathCommand::Close,
        PathCommand::MoveTo(p(-0.0, 7.0)),
    ];
    let path = to_bez_path(&commands);
    assert_eq!(path.elements().len(), 6);
    assert_eq!(path.elements()[1], PathEl::LineTo((f64::from(3.3f32), f64::from(4.4f32)).into()));
    assert_eq!(path.elements()[4], PathEl::ClosePath);
    assert_eq!(from_bez_path(&path), commands);
    assert_eq!(from_bez_path(&to_bez_path(&[])), vec![]);
}

#[test]
fn pens_carry_the_style() {
    let style = StrokeStyle {
        cap: LineCap::Round,
        dash: Some([s(2.5), s(1.5)]),
        ..StrokeStyle::new(Brush::Solid(LinearRgba::white()), s(3.0))
    };
    let stroke = to_stroke(&style);
    assert_eq!(stroke.width, 3.0);
    assert_eq!((stroke.start_cap, stroke.end_cap, stroke.join), (Cap::Round, Cap::Round, Join::Miter));
    assert_eq!(stroke.dash_pattern.as_slice(), &[2.5, 1.5]);
    assert_eq!(stroke.dash_offset, 0.0);
}

#[test]
fn a_dashed_line_becomes_separate_outlines() {
    let line = [PathCommand::MoveTo(p(0.0, 0.0)), PathCommand::LineTo(p(50.0, 0.0))];
    let style = StrokeStyle {
        dash: Some([s(10.0), s(10.0)]),
        ..StrokeStyle::new(Brush::Solid(LinearRgba::white()), s(2.0))
    };
    let dashes = expand_dashes(&line, &style);
    let begun = dashes.iter().filter(|c| matches!(c, PathCommand::MoveTo(_))).count();
    assert_eq!(begun, 3);
    // Stray commands outside a sub-path are dropped.
    assert!(expand_dashes(&[PathCommand::LineTo(p(1.0, 1.0)), PathCommand::Close], &style).is_empty());
}

#[test]
fn what_can_be_dashed() {
    let style = |width: f32, dash: [f32; 2]| StrokeStyle {
        dash: Some(dash.map(s)),
        ..StrokeStyle::new(Brush::Solid(LinearRgba::white()), s(width))
    };
    let to = |x: f32| [PathCommand::MoveTo(p(0.0, 0.0)), PathCommand::LineTo(p(x, 0.0))];
    assert!(is_dashable(&to(1.0), &style(1.0, [2.0, 0.0])));
    assert!(is_dashable(&to(1.0), &style(0.0, [2.0, -0.0])));
    assert!(is_dashable(&to(1.0), &style(1.0, [1.0e-9, 1.0e-9])));
    assert!(!is_dashable(&to(1.0), &style(1.0, [0.0, 0.0])));
    assert!(!is_dashable(&to(1.0), &style(1.0, [2.0, -1.0])));
    assert!(!is_dashable(&to(1.0), &style(1.0, [f32::NAN, 1.0])));
    assert!(!is_dashable(&to(1.0), &style(f32::NAN, [1.0, 1.0])));
    assert!(!is_dashable(&to(1.0), &StrokeStyle { dash: None, ..style(1.0, [1.0, 1.0]) }));
    // So many times the longer length, whatever the length.
    for length in [2.0f32.powi(-100), 2.0f32.powi(-20), 1.0, 3.5] {
        let far = 2.0f32.powi(44) * length;
        assert!(is_countable(&to(far), [s(length), s(0.0)]));
        assert!(is_countable(&to(-far), [s(0.0), s(length)]));
        assert!(!is_countable(&to(far * 1.001), [s(length), s(length)]));
    }
    assert!(is_countable(&to(f32::MAX), [s(2.0f32.powi(90)), s(0.0)]));
    assert!(!is_countable(&to(f32::INFINITY), [s(2.0f32.powi(90)), s(0.0)]));
    // Curves are searched along, and stay nearer.
    let curve = |x: f32| {
        [PathCommand::MoveTo(p(x, 0.0)), PathCommand::QuadTo { ctrl: p(1.0, 1.0), to: p(2.0, 0.0) }]
    };
    assert!(is_countable(&curve(134_217_728.0), [s(1.0), s(1.0)]));
    assert!(!is_countable(&curve(134_217_744.0), [s(1.0), s(1.0)]));
    assert!(!is_dashable(&curve(1.0), &style(1.0e9, [1.0, 1.0])));
    assert!(is_dashable(&to(1.0), &style(1.0e9, [1.0, 1.0])));
}

#[test]
fn lost_numbers_stay_lost() {
    let quiet = f32::from_bits(0x7fc0_0000);
    let commands = [PathCommand::MoveTo(p(quiet, 1.0)), PathCommand::LineTo(p(f32::INFINITY, -0.0))];
    let back = from_bez_path(&to_bez_path(&commands));
    assert!(matches!(back[0], PathCommand::MoveTo(at) if at.x.is_nan() && at.y == s(1.0)));
    assert_eq!(back[1], commands[1]);
    let style = StrokeStyle::new(Brush::Solid(LinearRgba::white()), s(quiet));
    assert!(to_stroke(&style).width.is_nan());
}
