use bevy::camera::visibility::RenderLayers;
use bevy_pf_vector::hud::Placement;
use bevy_pf_vector::painter::{circle_commands, rect_commands, PainterConfig, VectorPainterQueue};
use bevy_pf_vector::path::{
    Brush, LineCap, LineJoin, LinearRgba, PathCommand, PathStyle, Point,
};
use bevy_pf_vector::scalar::Scalar;
use bevy_pf_vector::tess::fill_key;

fn s(x: f32) -> Scalar {
    Scalar { bits: x.to_bits() }
}

fn p(x: f32, y: f32) -> Point {
    Point::new(s(x), s(y))
}

fn at(x: f32) -> Placement {
    Placement { linear: [s(1.0), s(0.0), s(0.0), s(1.0)], translation: [s(x), s(0.0)], z: s(0.5) }
}

fn red() -> LinearRgba {
    LinearRgba { red: s(1.0), green: s(0.0), blue: s(0.0), alpha: s(1.0) }
}

#[test]
fn rectangles_go_round_their_centre() {
    assert_eq!(
        rect_commands(p(2.0, 1.0)),
        vec![
            PathCommand::MoveTo(p(-2.0, -1.0)),
            PathCommand::LineTo(p(2.0, -1.0)),
            PathCommand::LineTo(p(2.0, 1.0)),
            PathCommand::LineTo(p(-2.0, 1.0)),
            PathCommand::Close,
        ]
    );
}

#[test]
fn circles_are_four_cubics() {
    let cubic = |a: Point, b: Point, c: Point| PathCommand::CubicTo { ctrl1: a, ctrl2: b, to: c };
    assert_eq!(
        circle_commands(s(2.0), s(1.0)),
        vec![
            PathCommand::MoveTo(p(2.0, 0.0)),
            cubic(p(2.0, 1.0), p(1.0, 2.0), p(0.0, 2.0)),
            cubic(p(-1.0, 2.0), p(-2.0, 1.0), p(-2.0, 0.0)),
            cubic(p(-2.0, -1.0), p(-1.0, -2.0), p(0.0, -2.0)),
            cubic(p(1.0, -2.0), p(2.0, -1.0), p(2.0, 0.0)),
            PathCommand::Close,
        ]
    );
}

#[test]
fn painted_shapes_queue_in_order() {
    let mut queue = VectorPainterQueue::new();
    let mut config = PainterConfig::default();
    queue.fill_rect(&config, at(1.0), p(2.0, 1.0), red());
    config.render_layers = Some(RenderLayers::layer(3));
    config.cap = LineCap::Round;
    config.join = LineJoin::Bevel;
    queue.stroke_rect(&config, at(2.0), p(2.0, 1.0), s(4.0), red());
    queue.fill_circle(&config, at(3.0), s(2.0), s(1.0), red());
    queue.stroke_circle(&config, at(4.0), s(2.0), s(1.0), s(5.0), red());
    queue.fill_triangle(&config, at(5.0), p(0.0, 1.0), p(-1.0, -1.0), p(1.0, -1.0), red());
    queue.line(&config, at(6.0), p(-1.0, 0.0), p(1.0, 0.0), s(6.0), red());
    queue.fill_path(&config, at(7.0), vec![PathCommand::Close], red());
    queue.stroke_path(&config, at(8.0), vec![PathCommand::Close], s(7.0), red());
    queue.shape(&config, at(9.0), vec![], PathStyle::fill(Brush::Solid(red())));
    queue.arc(&config, at(10.0), s(1.0), s(2.0), s(3.0), s(4.0), red());
    let places: Vec<Scalar> = queue.shapes.iter().map(|x| x.placement.translation[0]).collect();
    assert_eq!(places, (1..=9).map(|x| s(x as f32)).collect::<Vec<_>>());
    assert_eq!(queue.shapes[0].layers, None);
    assert!(queue.shapes[1..].iter().all(|x| x.layers == Some(RenderLayers::layer(3))));
    assert_eq!(queue.shapes[0].commands, rect_commands(p(2.0, 1.0)));
    assert_eq!(queue.shapes[2].commands, circle_commands(s(2.0), s(1.0)));
    assert_eq!(
        queue.shapes[4].commands,
        vec![
            PathCommand::MoveTo(p(0.0, 1.0)),
            PathCommand::LineTo(p(-1.0, -1.0)),
            PathCommand::LineTo(p(1.0, -1.0)),
            PathCommand::Close,
        ]
    );
    assert_eq!(
        queue.shapes[5].commands,
        vec![PathCommand::MoveTo(p(-1.0, 0.0)), PathCommand::LineTo(p(1.0, 0.0))]
    );
    let fills: Vec<bool> = queue.shapes.iter().map(|x| x.style.fill.is_some()).collect();
    assert_eq!(fills, vec![true, false, true, false, true, false, true, false, true]);
    let stroke = queue.shapes[1].style.stroke.as_ref().unwrap();
    assert_eq!((stroke.width, stroke.cap, stroke.join), (s(4.0), LineCap::Round, LineJoin::Bevel));
    let arc = &queue.arcs[0];
    assert_eq!((arc.inner, arc.outer, arc.start, arc.sweep), (s(1.0), s(2.0), s(3.0), s(4.0)));
    assert_eq!((arc.color, arc.placement), (red(), at(10.0)));
    queue.clear();
    assert!(queue.shapes.is_empty() && queue.arcs.is_empty());
}

#[test]
fn painting_again_shares_geometry() {
    let mut queue = VectorPainterQueue::new();
    let config = PainterConfig::default();
    queue.fill_rect(&config, at(1.0), p(2.0, 1.0), red());
    queue.fill_rect(&config, at(50.0), p(2.0, 1.0), LinearRgba::white());
    queue.fill_rect(&config, at(1.0), p(2.0, 3.0), red());
    let keys: Vec<u64> = queue.shapes.iter().map(|x| fill_key(&x.commands)).collect();
    assert_eq!(keys[0], keys[1]);
    assert_ne!(keys[0], keys[2]);
}

#[test]
fn a_reset_painter_is_plain() {
    let mut config = PainterConfig::default();
    config.cap = LineCap::Square;
    config.render_layers = Some(RenderLayers::layer(2));
    config.reset();
    assert_eq!((config.cap, config.join), (LineCap::Butt, LineJoin::Miter));
    assert!(config.render_layers.is_none());
}
