use std::hash::{DefaultHasher, Hasher};

use bevy_pf_vector::path::{
    Brush, FillRule, LineCap, LineJoin, LinearRgba, PathCommand, Point, StrokeStyle,
};
use bevy_pf_vector::scalar::Scalar;
use bevy_pf_vector::tess::{
    build_path, fill_key, fill_rule_key, geometry_of, hash_commands, is_fillable, is_reachable,
    is_strokable, is_windable, stroke_key, tessellate_fill, tessellate_fill_rule,
    tessellate_stroke, RawMesh, TessellatedGeometry, TOLERANCE,
};

fn s(x: f32) -> Scalar {
    Scalar { bits: x.to_bits() }
}

fn f(x: Scalar) -> f32 {
    f32::from_bits(x.bits)
}

fn p(x: f32, y: f32) -> Point {
    Point::new(s(x), s(y))
}

fn square(half: f32) -> Vec<PathCommand> {
    vec![
        PathCommand::MoveTo(p(-half, -half)),
        PathCommand::LineTo(p(half, -half)),
        PathCommand::LineTo(p(half, half)),
        PathCommand::LineTo(p(-half, half)),
        PathCommand::Close,
    ]
}

fn pen(width: f32) -> StrokeStyle {
    StrokeStyle::new(Brush::Solid(LinearRgba::white()), s(width))
}

fn area(geometry: &TessellatedGeometry) -> f32 {
    let at = |i: u32| {
        let [x, y] = geometry.vertices[i as usize];
        (f(x), f(y))
    };
    geometry
        .indices
        .chunks(3)
        .map(|t| {
            let ((ax, ay), (bx, by), (cx, cy)) = (at(t[0]), at(t[1]), at(t[2]));
            ((bx - ax) * (cy - ay) - (by - ay) * (cx - ax)).abs() / 2.0
        })
        .sum()
}

#[test]
fn the_tolerance_is_a_quarter() {
    assert_eq!(f32::from_bits(TOLERANCE), 0.25);
}

#[test]
fn a_square_fills_its_area() {
    let geometry = tessellate_fill(&square(10.0)).unwrap();
    assert_eq!(geometry.indices.len() % 3, 0);
    assert!(geometry.indices.iter().all(|&i| (i as usize) < geometry.vertices.len()));
    assert!((area(&geometry) - 400.0).abs() < 0.01);
}

#[test]
fn the_fill_rule_decides_about_overlaps() {
    let mut nested = square(10.0);
    nested.extend(square(5.0));
    let even_odd = tessellate_fill_rule(&nested, FillRule::EvenOdd).unwrap();
    let non_zero = tessellate_fill_rule(&nested, FillRule::NonZero).unwrap();
    assert!((area(&even_odd) - 300.0).abs() < 0.01);
    assert!((area(&non_zero) - 400.0).abs() < 0.01);
}

#[test]
fn nothing_is_filled_without_an_outline() {
    assert!(tessellate_fill(&[]).is_none());
    assert!(tessellate_fill(&[PathCommand::LineTo(p(1.0, 1.0)), PathCommand::Close]).is_none());
    assert!(tessellate_stroke(&[PathCommand::Close], &pen(2.0)).is_none());
}

#[test]
fn commands_outside_a_sub_path_draw_nothing() {
    let mut stray = vec![PathCommand::LineTo(p(50.0, 50.0)), PathCommand::Close];
    stray.extend(square(10.0));
    stray.push(PathCommand::LineTo(p(90.0, 90.0)));
    stray.push(PathCommand::Close);
    let events = |commands: &[PathCommand]| build_path(commands).iter().collect::<Vec<_>>();
    assert_eq!(events(&stray), events(&square(10.0)));
    assert_eq!(events(&[]), vec![]);
    // An open sub-path is ended without closing it.
    let open = events(&square(10.0)[..4]);
    assert_eq!(open.len(), 5);
    assert_ne!(open, events(&square(10.0)));
}

#[test]
fn outlines_tell_their_commands() {
    let mut commands = vec![PathCommand::Close, PathCommand::MoveTo(p(0.0, 0.0))];
    commands.extend(square(1.0));
    commands.push(PathCommand::MoveTo(p(5.0, 5.0)));
    commands.push(PathCommand::QuadTo { ctrl: p(6.0, 7.0), to: p(8.0, 5.0) });
    let path = build_path(&commands);
    let count = |f: &dyn Fn(&lyon::path::PathEvent) -> bool| path.iter().filter(|e| f(e)).count();
    assert_eq!(count(&|e| matches!(e, lyon::path::Event::Begin { .. })), 3);
    assert_eq!(count(&|e| matches!(e, lyon::path::Event::End { .. })), 3);
    assert_eq!(count(&|e| matches!(e, lyon::path::Event::End { close: true, .. })), 1);
    assert_eq!(count(&|e| matches!(e, lyon::path::Event::Line { .. })), 3);
    assert_eq!(count(&|e| matches!(e, lyon::path::Event::Quadratic { .. })), 1);
}

#[test]
fn curves_are_followed() {
    let k = 0.552_285 * 10.0;
    let mut circle = vec![PathCommand::MoveTo(p(10.0, 0.0))];
    for (a, b, c) in [
        (p(10.0, k), p(k, 10.0), p(0.0, 10.0)),
        (p(-k, 10.0), p(-10.0, k), p(-10.0, 0.0)),
        (p(-10.0, -k), p(-k, -10.0), p(0.0, -10.0)),
        (p(k, -10.0), p(10.0, -k), p(10.0, 0.0)),
    ] {
        circle.push(PathCommand::CubicTo { ctrl1: a, ctrl2: b, to: c });
    }
    circle.push(PathCommand::Close);
    let geometry = tessellate_fill(&circle).unwrap();
    assert!((area(&geometry) - 314.2).abs() < 15.0);
    let arch = [
        PathCommand::MoveTo(p(0.0, 0.0)),
        PathCommand::QuadTo { ctrl: p(10.0, 20.0), to: p(20.0, 0.0) },
        PathCommand::Close,
    ];
    let geometry = tessellate_fill(&arch).unwrap();
    assert!((area(&geometry) - 400.0 / 3.0).abs() < 10.0);
}

#[test]
fn strokes_have_their_width() {
    let line = [PathCommand::MoveTo(p(0.0, 0.0)), PathCommand::LineTo(p(100.0, 0.0))];
    let butt = tessellate_stroke(&line, &pen(4.0)).unwrap();
    assert!((area(&butt) - 400.0).abs() < 1.0);
    let square_caps = StrokeStyle { cap: LineCap::Square, ..pen(4.0) };
    let long = tessellate_stroke(&line, &square_caps).unwrap();
    assert!((area(&long) - 416.0).abs() < 1.0);
}

#[test]
fn joins_differ() {
    let corner = [
        PathCommand::MoveTo(p(0.0, 0.0)),
        PathCommand::LineTo(p(50.0, 0.0)),
        PathCommand::LineTo(p(50.0, 50.0)),
    ];
    let covered = |join: LineJoin| {
        area(&tessellate_stroke(&corner, &StrokeStyle { join, ..pen(10.0) }).unwrap())
    };
    assert!(covered(LineJoin::Bevel) < covered(LineJoin::Round));
    assert!(covered(LineJoin::Round) < covered(LineJoin::Miter));
}

#[test]
fn dashes_leave_gaps() {
    let line = [PathCommand::MoveTo(p(0.0, 0.0)), PathCommand::LineTo(p(100.0, 0.0))];
    let dashed = StrokeStyle { dash: Some([s(10.0), s(10.0)]), ..pen(4.0) };
    assert!(is_strokable(&line, &dashed));
    let geometry = tessellate_stroke(&line, &dashed).unwrap();
    assert!((area(&geometry) - 200.0).abs() < 1.0);
}

#[test]
fn what_cannot_be_stroked() {
    let line = [PathCommand::MoveTo(p(0.0, 0.0)), PathCommand::LineTo(p(100.0, 0.0))];
    assert!(is_strokable(&line, &pen(4.0)));
    assert!(!is_strokable(&line, &pen(f32::INFINITY)));
    assert!(!is_strokable(&line, &StrokeStyle { dash: Some([s(0.0), s(0.0)]), ..pen(4.0) }));
    assert!(!is_strokable(&line, &StrokeStyle { dash: Some([s(-1.0), s(2.0)]), ..pen(4.0) }));
    assert!(is_strokable(&line, &StrokeStyle { dash: Some([s(0.0), s(2.0)]), ..pen(4.0) }));
    let to = |x: f32| [PathCommand::MoveTo(p(0.0, 0.0)), PathCommand::LineTo(p(x, 0.0))];
    assert!(is_strokable(&to(2.0f32.powi(60)), &pen(4.0)));
    assert!(!is_strokable(&to(2.0f32.powi(61)), &pen(4.0)));
    assert!(is_strokable(&line, &pen(2.0f32.powi(60))));
    assert!(!is_strokable(&line, &pen(2.0f32.powi(61))));
    assert!(!is_strokable(&to(f32::NAN), &pen(4.0)));
    // Dashes may be as far apart as the outline is long, but not too many.
    let dashed = |length: f32| StrokeStyle { dash: Some([s(length), s(length)]), ..pen(4.0) };
    assert!(is_strokable(&to(1.0e30), &dashed(1.0e29)));
    assert!(!is_strokable(&to(1.0e30), &dashed(1.0)));
    assert!(!is_strokable(&to(f32::INFINITY), &dashed(1.0)));
}

#[test]
fn long_dashes_along_a_long_line() {
    let reach = 2.0f32.powi(25);
    let line = [PathCommand::MoveTo(p(0.0, 0.0)), PathCommand::LineTo(p(reach, 0.0))];
    let length = s(2.0f32.powi(20));
    let dashed = StrokeStyle { dash: Some([length, length]), ..pen(4096.0) };
    assert!(is_strokable(&line, &dashed));
    let geometry = tessellate_stroke(&line, &dashed).unwrap();
    let expected = reach / 2.0 * 4096.0;
    assert!((area(&geometry) - expected).abs() < expected / 1000.0);
}

#[test]
fn outlines_too_far_out_are_told_apart() {
    let bow = |x: f32| {
        [PathCommand::MoveTo(p(x, 0.0)), PathCommand::QuadTo { ctrl: p(1.0, 1.0), to: p(2.0, 0.0) }]
    };
    assert!(is_reachable(&square(2.0f32.powi(60))) && !is_reachable(&square(2.0f32.powi(61))));
    assert!(is_reachable(&bow(2.0f32.powi(60))) && !is_reachable(&bow(-2.0f32.powi(61))));
    assert!(is_fillable(&bow(2.0f32.powi(60))) && !is_fillable(&bow(2.0f32.powi(61))));
    assert!(!is_fillable(&[PathCommand::MoveTo(p(f32::NAN, 0.0))]));
    assert!(!is_fillable(&[PathCommand::MoveTo(p(f32::MIN, f32::MIN))]));
    assert!(is_fillable(&square(1.0)));
    // A square of such a size has an area that single precision cannot hold.
    let far = 2.0f32.powi(59);
    let geometry = tessellate_fill(&square(far)).unwrap();
    let corners = |i: usize| geometry.vertices.iter().all(|v| f(v[i]).abs() == far);
    assert!(corners(0) && corners(1) && geometry.indices.len() == 6);
}

#[test]
fn outlines_that_wind_too_often_are_told_apart() {
    let along = |n: usize, y: &dyn Fn(usize) -> f32| {
        let mut commands = vec![PathCommand::MoveTo(p(0.0, 0.0))];
        commands.extend((1..n).map(|i| PathCommand::LineTo(p(i as f32, y(i)))));
        commands
    };
    // What goes one way may be long, however it turns the other way.
    assert!(is_windable(&along(100_000, &|i| (i % 2) as f32)));
    assert!(is_windable(&along(100_000, &|i| i as f32)));
    assert!(is_windable(&along(100_000, &|_| 0.0)));
    // What is drawn by nothing crosses nothing.
    assert!(is_windable(&vec![PathCommand::LineTo(p(0.0, 0.0)); 70_000]));
    // Forth and back over the same ground is crossed each time.
    let over = |n: usize| {
        let mut commands = vec![PathCommand::MoveTo(p(0.0, 0.0))];
        commands.extend((0..n).map(|i| {
            let at = ((i + 1) % 2) as f32;
            PathCommand::LineTo(p(at, at))
        }));
        commands
    };
    assert!(is_windable(&over(65_534)) && is_fillable(&over(65_534)));
    assert!(!is_windable(&over(65_536)) && !is_fillable(&over(65_536)));
    // An open sub-path goes back to where it began.
    assert!(is_windable(&over(65_533)) && !is_windable(&over(65_535)));
    assert!(is_strokable(&over(65_536), &pen(1.0)));
    // Sub-paths add up, and so do the control points of curves.
    let bows = |n: usize| {
        let mut commands = Vec::new();
        for _ in 0..n {
            commands.push(PathCommand::MoveTo(p(0.0, 0.0)));
            commands.push(PathCommand::QuadTo { ctrl: p(1.0, 1.0), to: p(0.0, 0.0) });
        }
        commands
    };
    assert!(is_windable(&bows(32_767)) && !is_windable(&bows(32_768)));
    let waves = |n: usize| {
        let mut commands = Vec::new();
        for _ in 0..n {
            commands.push(PathCommand::MoveTo(p(0.0, 0.0)));
            commands.push(PathCommand::CubicTo {
                ctrl1: p(1.0, 1.0),
                ctrl2: p(0.0, 0.0),
                to: p(1.0, 1.0),
            });
            commands.push(PathCommand::Close);
        }
        commands
    };
    assert!(is_windable(&waves(16_383)) && !is_windable(&waves(16_384)));
}

#[test]
fn dashes_are_drawn_however_many_they_are() {
    let line = [PathCommand::MoveTo(p(0.0, 0.0)), PathCommand::LineTo(p(0.0, 400_000.0))];
    let style = StrokeStyle { dash: Some([s(5.0), s(5.0)]), ..pen(2.0) };
    let geometry = tessellate_stroke(&line, &style).unwrap();
    assert!(geometry.indices.len() >= 40_000 * 6);
    // As many side by side, of which a level line crosses every one.
    let mut dashes = Vec::new();
    for i in 0..40_000 {
        let left = (i * 10) as f32;
        dashes.push(PathCommand::MoveTo(p(left, -1.0)));
        dashes.push(PathCommand::LineTo(p(left + 5.0, -1.0)));
        dashes.push(PathCommand::LineTo(p(left + 5.0, 1.0)));
        dashes.push(PathCommand::LineTo(p(left, 1.0)));
        dashes.push(PathCommand::Close);
    }
    assert!(is_fillable(&dashes));
}

#[test]
fn round_dashes_far_out_are_filled() {
    let (far, long, wide) = (2.0f32.powi(50), 2.0f32.powi(46), 2.0f32.powi(30));
    let line = [PathCommand::MoveTo(p(0.0, 0.0)), PathCommand::LineTo(p(0.0, far))];
    let style = StrokeStyle { dash: Some([s(long); 2]), cap: LineCap::Round, ..pen(wide) };
    assert!(is_strokable(&line, &style));
    let geometry = tessellate_stroke(&line, &style).unwrap();
    let expected = far / 2.0 * wide;
    assert!((area(&geometry) - expected).abs() < expected / 100.0);
}

#[test]
fn outlines_hash_one_after_the_other() {
    let of = |parts: &[&[PathCommand]]| {
        let mut hasher = DefaultHasher::new();
        for part in parts {
            hash_commands(part, &mut hasher);
        }
        hasher.finish()
    };
    let a = square(1.0);
    let (front, back) = a.split_at(2);
    assert_eq!(of(&[&a]), of(&[front, back]));
    assert_eq!(of(&[&[]]), DefaultHasher::new().finish());
    assert_ne!(of(&[&a]), of(&[back, front]));
    assert_ne!(of(&[&a]), of(&[&square(2.0)]));
}

#[test]
fn many_round_dashes_are_filled() {
    let line = [PathCommand::MoveTo(p(0.0, 0.0)), PathCommand::LineTo(p(0.0, 40_000.0))];
    let style = StrokeStyle { dash: Some([s(5.0), s(5.0)]), cap: LineCap::Round, ..pen(2.0) };
    let geometry = tessellate_stroke(&line, &style).unwrap();
    let expected = 4000.0 * (10.0 + std::f32::consts::PI);
    assert!((area(&geometry) - expected).abs() < expected / 20.0);
}

#[test]
fn indices_name_vertices() {
    let named = |geometry: TessellatedGeometry| {
        geometry.indices.len() % 3 == 0
            && geometry.indices.iter().all(|&i| (i as usize) < geometry.vertices.len())
    };
    let star: Vec<PathCommand> = (0..6)
        .map(|i| {
            let angle = i as f32 * 4.0 * std::f32::consts::PI / 5.0;
            let at = p(50.0 * angle.cos(), 50.0 * angle.sin());
            if i == 0 { PathCommand::MoveTo(at) } else { PathCommand::LineTo(at) }
        })
        .collect();
    assert!(named(tessellate_fill(&star).unwrap()));
    for join in [LineJoin::Miter, LineJoin::Round, LineJoin::Bevel] {
        for cap in [LineCap::Butt, LineCap::Round, LineCap::Square] {
            let style = StrokeStyle { join, cap, ..pen(6.0) };
            assert!(named(tessellate_stroke(&star, &style).unwrap()));
            let dashed = StrokeStyle { dash: Some([s(7.0), s(5.0)]), ..style };
            assert!(named(tessellate_stroke(&star, &dashed).unwrap()));
        }
    }
}

#[test]
fn an_answer_without_triangles_is_no_geometry() {
    assert!(geometry_of(None).is_none());
    let empty = RawMesh { positions: vec![[0, 0]], indices: vec![] };
    assert!(geometry_of(Some(empty)).is_none());
    let one = RawMesh { positions: vec![[1.0f32.to_bits(), 2.0f32.to_bits()]], indices: vec![0, 0, 0] };
    let geometry = geometry_of(Some(one)).unwrap();
    assert_eq!(geometry.vertices, vec![[s(1.0), s(2.0)]]);
    assert_eq!(geometry.indices, vec![0, 0, 0]);
}

#[test]
fn keys_follow_the_content() {
    let a = square(10.0);
    assert_eq!(fill_key(&a), fill_key(&square(10.0)));
    assert_eq!(fill_key(&a), fill_rule_key(&a, FillRule::EvenOdd));
    assert_ne!(fill_key(&a), fill_rule_key(&a, FillRule::NonZero));
    assert_ne!(fill_key(&a), fill_key(&square(11.0)));
    assert_ne!(fill_key(&a), fill_key(&a[..4]));
    // The hasher is fed the parts one after the other.
    let halves: Vec<PathCommand> = a[..2].iter().chain(&a[2..]).copied().collect();
    assert_eq!(fill_key(&a), fill_key(&halves));
    assert_ne!(fill_key(&[]), fill_key(&[PathCommand::Close]));
    let key = stroke_key(&a, &pen(2.0));
    assert_eq!(key, stroke_key(&a, &pen(2.0)));
    assert_ne!(key, fill_key(&a));
    assert_ne!(key, stroke_key(&a, &pen(3.0)));
    assert_ne!(key, stroke_key(&a, &StrokeStyle { join: LineJoin::Bevel, ..pen(2.0) }));
    assert_ne!(key, stroke_key(&a, &StrokeStyle { cap: LineCap::Round, ..pen(2.0) }));
    assert_ne!(key, stroke_key(&a, &StrokeStyle { dash: Some([s(1.0), s(2.0)]), ..pen(2.0) }));
    // The paint is not part of the geometry.
    let clear = LinearRgba { alpha: s(0.0), ..LinearRgba::white() };
    assert_eq!(key, stroke_key(&a, &StrokeStyle { brush: Brush::Solid(clear), ..pen(2.0) }));
}
