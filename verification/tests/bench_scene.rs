use bevy_pf_vector::bench::scene::{
    clip_is_bounded, clip_path, ClipSource, SceneSource, Transform, VelloWorkload,
};
use bevy_pf_vector::hud::{ClippedBy, VectorClipShape};
use bevy_pf_vector::path::{Brush, LinearRgba, PathCommand, PathStyle, Point, StrokeStyle};
use bevy_pf_vector::scalar::Scalar;
use vello::kurbo::Shape;
use vello::Scene;

fn s(x: f32) -> Scalar {
    Scalar { bits: x.to_bits() }
}

fn p(x: f32, y: f32) -> Point {
    Point::new(s(x), s(y))
}

fn moved(x: f64) -> Transform {
    Transform { bits: [1.0, 0.0, 0.0, 1.0, x, 0.0].map(f64::to_bits) }
}

fn square() -> Vec<PathCommand> {
    vec![
        PathCommand::MoveTo(p(-5.0, -5.0)),
        PathCommand::LineTo(p(5.0, -5.0)),
        PathCommand::LineTo(p(5.0, 5.0)),
        PathCommand::Close,
    ]
}

fn filled() -> PathStyle {
    PathStyle::fill(Brush::Solid(LinearRgba::white()))
}

fn source<'a>(
    entity: u64,
    commands: &'a Vec<PathCommand>,
    style: &'a PathStyle,
    z: f32,
    clipped: Option<u64>,
) -> SceneSource<'a> {
    SceneSource {
        entity,
        commands,
        style,
        changed: false,
        world: moved(z as f64),
        z: s(z),
        fill_color: [10, 20, 30, 255],
        stroke_color: [40, 50, 60, 255],
        clipped: clipped.map(ClippedBy),
    }
}

fn circle(entity: u64, parent: Option<u64>) -> ClipSource {
    ClipSource {
        entity,
        shape: VectorClipShape::Circle { radius: s(20.0) },
        world: moved(0.0),
        parent: parent.map(ClippedBy),
    }
}

#[test]
fn clip_outlines_have_their_extent() {
    let bounds = clip_path(&VectorClipShape::Circle { radius: s(8.0) }).bounding_box();
    assert!((bounds.x0 + 8.0).abs() < 0.1 && (bounds.y1 - 8.0).abs() < 0.1);
    let rect =
        VectorClipShape::RoundedRect { half_extents: p(10.0, 4.0), radius: s(1.0) };
    let path = clip_path(&rect);
    let bounds = path.bounding_box();
    assert!((bounds.x0 + 10.0).abs() < 0.1 && (bounds.x1 - 10.0).abs() < 0.1);
    assert!((bounds.y0 + 4.0).abs() < 0.1 && (bounds.y1 - 4.0).abs() < 0.1);
    let area = path.area().abs();
    assert!(area < 160.0 && (area - (160.0 - 0.858)).abs() < 0.2);
}

#[test]
fn clips_without_end_are_told_apart() {
    let circle = |r: f32| VectorClipShape::Circle { radius: s(r) };
    assert!(clip_is_bounded(&circle(1.0)) && clip_is_bounded(&circle(f32::NAN)));
    assert!(clip_is_bounded(&circle(f32::MAX)) && !clip_is_bounded(&circle(f32::NEG_INFINITY)));
    let rect = |x: f32, y: f32, r: f32| VectorClipShape::RoundedRect {
        half_extents: p(x, y),
        radius: s(r),
    };
    let (inf, nan) = (f32::INFINITY, f32::NAN);
    assert!(clip_is_bounded(&rect(1.0, 2.0, inf)) && clip_is_bounded(&rect(1.0, inf, nan)));
    assert!(clip_is_bounded(&rect(inf, inf, 1.0)) && clip_is_bounded(&rect(nan, nan, nan)));
    assert!(!clip_is_bounded(&rect(inf, inf, nan)) && !clip_is_bounded(&rect(inf, nan, inf)));
    // Those that end have an outline.
    for shape in [circle(nan), rect(1.0, 2.0, inf), rect(1.0, inf, nan), rect(inf, inf, 1.0)] {
        assert!(clip_path(&shape).elements().len() < 100);
    }
}

#[test]
fn a_frame_is_encoded() {
    let (path, style) = (square(), filled());
    let mut stroked = filled();
    stroked.stroke = Some(StrokeStyle::new(Brush::Solid(LinearRgba::white()), s(2.0)));
    let mut workload = VelloWorkload::new();
    let shapes = vec![source(1, &path, &style, 2.0, None), source(2, &path, &stroked, 1.0, None)];
    workload.extract_vello_shapes(&vec![], &shapes);
    let mut scene = Scene::new();
    workload.encode_scene(&mut scene, moved(0.0));
    assert_eq!(scene.encoding().n_paths, 3);
    assert_eq!(scene.encoding().n_clips, 0);
    // Lower depths are drawn first.
    assert_eq!(workload.frame[0].entity, 2);
    let shifts: Vec<f32> =
        scene.encoding().transforms.iter().map(|t| t.translation[0]).collect();
    assert_eq!(shifts, vec![1.0, 2.0]);
    // Encoding again starts from nothing.
    workload.encode_scene(&mut scene, moved(100.0));
    assert_eq!(scene.encoding().n_paths, 3);
    assert_eq!(scene.encoding().transforms[0].translation[0], 101.0);
}

#[test]
fn the_view_comes_after_the_world() {
    let (path, style) = (square(), filled());
    let mut workload = VelloWorkload::new();
    let clips = vec![ClipSource { world: moved(3.0), ..circle(10, None) }];
    workload.extract_vello_shapes(&clips, &vec![source(1, &path, &style, 5.0, Some(10))]);
    let view = Transform { bits: [2.0, 0.0, 0.0, -2.0, 10.0, 1.0].map(f64::to_bits) };
    let mut scene = Scene::new();
    workload.encode_scene(&mut scene, view);
    let transforms = &scene.encoding().transforms;
    assert_eq!(transforms.len(), 2);
    assert_eq!((transforms[0].matrix, transforms[0].translation), ([2.0, 0.0, 0.0, -2.0], [16.0, 1.0]));
    assert_eq!((transforms[1].matrix, transforms[1].translation), ([2.0, 0.0, 0.0, -2.0], [20.0, 1.0]));
}

#[test]
fn layers_open_once_per_group_and_all_close() {
    let (path, style) = (square(), filled());
    let clips = vec![circle(10, None), circle(11, Some(10)), circle(12, Some(10))];
    let shapes = vec![
        source(1, &path, &style, 3.0, Some(11)),
        source(2, &path, &style, 1.0, Some(11)),
        source(3, &path, &style, 2.0, Some(12)),
        source(4, &path, &style, 9.0, None),
    ];
    let mut workload = VelloWorkload::new();
    workload.extract_vello_shapes(&clips, &shapes);
    let mut scene = Scene::new();
    workload.encode_scene(&mut scene, moved(0.0));
    let order: Vec<u64> = workload.frame.iter().map(|i| i.entity).collect();
    assert_eq!(order, vec![4, 2, 1, 3]);
    // Three layers are opened (the outer one once) and three closed.
    assert_eq!(scene.encoding().n_clips, 6);
    assert_eq!(scene.encoding().n_open_clips, 0);
}

#[test]
fn unknown_clips_and_deep_nests() {
    let (path, style) = (square(), filled());
    let clips: Vec<ClipSource> =
        (0..6).map(|i| circle(i, if i > 0 { Some(i - 1) } else { None })).collect();
    let shapes =
        vec![source(50, &path, &style, 0.0, Some(5)), source(51, &path, &style, 0.0, Some(99))];
    let mut workload = VelloWorkload::new();
    workload.extract_vello_shapes(&clips, &shapes);
    let mut scene = Scene::new();
    workload.encode_scene(&mut scene, moved(0.0));
    // Four levels at most; an unknown clip does not clip.
    assert_eq!((scene.encoding().n_clips, scene.encoding().n_open_clips), (8, 0));
}

#[test]
fn paths_are_retained_until_they_change() {
    let (path, style) = (square(), filled());
    let other = vec![PathCommand::MoveTo(p(0.0, 0.0)), PathCommand::LineTo(p(1.0, 0.0))];
    let mut workload = VelloWorkload::new();
    workload.extract_vello_shapes(&vec![], &vec![source(1, &path, &style, 0.0, None)]);
    workload.extract_vello_shapes(&vec![], &vec![source(1, &other, &style, 0.0, None)]);
    let kept = |workload: &VelloWorkload| {
        workload.retained.get(1).unwrap().fill.as_ref().unwrap().path.elements().len()
    };
    assert_eq!(kept(&workload), 4);
    let changed = SceneSource { changed: true, ..source(1, &other, &style, 0.0, None) };
    workload.extract_vello_shapes(&vec![], &vec![changed]);
    assert_eq!(kept(&workload), 2);
}

#[test]
fn what_can_be_built() {
    let style = filled();
    let (path, stray, empty) = (square(), vec![PathCommand::LineTo(p(1.0, 1.0))], vec![]);
    assert!(source(1, &path, &style, 0.0, None).is_buildable());
    assert!(!source(1, &stray, &style, 0.0, None).is_buildable());
    assert!(source(1, &empty, &style, 0.0, None).is_buildable());
    let lost = vec![PathCommand::MoveTo(p(f32::NAN, 1.0)), PathCommand::LineTo(p(f32::INFINITY, 0.0))];
    assert!(source(1, &lost, &style, 0.0, None).is_buildable());
}

#[test]
fn nothing_is_asked_of_what_is_retained() {
    let style = filled();
    let (path, stray) = (square(), vec![PathCommand::LineTo(p(1.0, 1.0))]);
    let mut workload = VelloWorkload::new();
    assert!(!workload.is_extractable(&source(1, &stray, &style, 0.0, None)));
    workload.extract_vello_shapes(&vec![], &vec![source(1, &path, &style, 0.0, None)]);
    assert!(workload.is_extractable(&source(1, &stray, &style, 0.0, None)));
    let changed = SceneSource { changed: true, ..source(1, &stray, &style, 0.0, None) };
    assert!(!workload.is_extractable(&changed));
    workload.extract_vello_shapes(&vec![], &vec![source(1, &stray, &style, 0.0, None)]);
    let kept = workload.retained.get(1).unwrap().fill.as_ref().unwrap();
    assert_eq!(kept.path.elements().len(), 4);
    // What is neither filled nor stroked is not built.
    let bare = PathStyle { fill: None, ..filled() };
    assert!(source(2, &stray, &bare, 0.0, None).is_buildable());
}

#[test]
fn lost_numbers_are_retained_and_drawn() {
    let lost = vec![
        PathCommand::MoveTo(p(f32::NAN, 1.0)),
        PathCommand::LineTo(p(f32::INFINITY, 0.0)),
        PathCommand::Close,
    ];
    let mut style = filled();
    style.stroke = Some(StrokeStyle::new(Brush::Solid(LinearRgba::white()), s(f32::INFINITY)));
    let mut workload = VelloWorkload::new();
    workload.extract_vello_shapes(&vec![], &vec![source(1, &lost, &style, 0.0, None)]);
    assert_eq!(workload.retained.get(1).unwrap().fill.as_ref().unwrap().path.elements().len(), 3);
    assert!(workload.is_encodable());
    let mut scene = Scene::new();
    workload.encode_scene(&mut scene, moved(0.0));
    assert!(scene.encoding().n_paths <= 2);
    assert_eq!(scene.encoding().n_open_clips, 0);
}

#[test]
fn dashes_without_end_are_found_before_they_are_laid_out() {
    let path = square();
    let stroke = |dash: [f32; 2], width: f32| {
        PathStyle::stroke(StrokeStyle {
            dash: Some(dash.map(s)),
            ..StrokeStyle::new(Brush::Solid(LinearRgba::white()), s(width))
        })
    };
    let encodable = |style: &PathStyle| {
        let mut workload = VelloWorkload::new();
        workload.extract_vello_shapes(&vec![], &vec![source(1, &path, style, 0.0, None)]);
        workload.is_encodable()
    };
    assert!(encodable(&stroke([1.0, 1.0], 2.0)));
    assert!(!encodable(&stroke([0.0, 0.0], 2.0)));
    assert!(encodable(&stroke([0.0, 0.0], 0.0)));
    // What is retained but not in the frame does not matter.
    let (stuck, style) = (stroke([0.0, 0.0], 2.0), filled());
    let mut workload = VelloWorkload::new();
    workload.extract_vello_shapes(&vec![], &vec![source(1, &path, &stuck, 0.0, None)]);
    workload.extract_vello_shapes(&vec![], &vec![source(2, &path, &style, 0.0, None)]);
    assert!(workload.is_encodable());
    assert!(workload.retained.get(1).is_some());
}

#[test]
fn dashed_strokes_are_laid_out() {
    let line = vec![PathCommand::MoveTo(p(0.0, 0.0)), PathCommand::LineTo(p(100.0, 0.0))];
    let style = |dash: Option<[Scalar; 2]>| {
        PathStyle::stroke(StrokeStyle {
            dash,
            ..StrokeStyle::new(Brush::Solid(LinearRgba::white()), s(2.0))
        })
    };
    let segments = |style: &PathStyle| {
        let mut workload = VelloWorkload::new();
        workload.extract_vello_shapes(&vec![], &vec![source(1, &line, style, 0.0, None)]);
        let mut scene = Scene::new();
        workload.encode_scene(&mut scene, moved(0.0));
        scene.encoding().n_path_segments
    };
    assert!(segments(&style(Some([s(5.0), s(5.0)]))) > segments(&style(None)));
}
