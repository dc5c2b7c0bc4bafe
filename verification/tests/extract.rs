use bevy::camera::visibility::RenderLayers;
use bevy_pf_vector::hud::{ClippedBy, Placement, VectorClipShape, VectorPrimitive};
use bevy_pf_vector::keyed::KeyedStore;
use bevy_pf_vector::layers::LayerTable;
use bevy_pf_vector::path::{
    Brush, FillRule, GradientStop, LinearRgba, PathCommand, PathStyle, Point, StrokeStyle,
};
use bevy_pf_vector::render::clips::{clip_node, pack_clip, ClipNode, ExtractedClips, MAX_CLIPS};
use bevy_pf_vector::render::extract::{
    extract_primitives, ExtractedShapes, Extraction, PrimitiveSource, ShapeSource,
};
use bevy_pf_vector::render::cache::MeshGeometry;
use bevy_pf_vector::render::gpu::GpuVertex;
use bevy_pf_vector::render::gradient::{
    resolve_brush, sample_stops, GradientAtlas, StopSample, GRADIENT_ATLAS_ROWS,
    GRADIENT_ATLAS_SIZE,
};
use bevy_pf_vector::render::layout::GeometryRef;
use bevy_pf_vector::scalar::Scalar;
use bevy_pf_vector::tess::{fill_rule_key, stroke_key};

fn s(x: f32) -> Scalar {
    Scalar { bits: x.to_bits() }
}

fn p(x: f32, y: f32) -> Point {
    Point::new(s(x), s(y))
}

fn rgba(red: f32, alpha: f32) -> LinearRgba {
    LinearRgba { red: s(red), green: s(0.0), blue: s(0.0), alpha: s(alpha) }
}

fn stop(offset: f32, red: f32) -> GradientStop {
    GradientStop { offset: s(offset), color: rgba(red, 1.0) }
}

fn square(half: f32) -> Vec<PathCommand> {
    vec![
        PathCommand::MoveTo(p(-half, -half)),
        PathCommand::LineTo(p(half, -half)),
        PathCommand::LineTo(p(half, half)),
        PathCommand::Close,
    ]
}

fn place(z: f32) -> Placement {
    Placement {
        linear: [s(1.0), s(0.0), s(0.0), s(1.0)],
        translation: [s(10.0), s(20.0)],
        z: s(z),
    }
}

fn node(radius: f32, parent: Option<u64>) -> ClipNode {
    clip_node(
        &VectorClipShape::Circle { radius: s(radius) },
        [s(1.0), s(0.0), s(0.0), s(1.0)],
        [s(0.0), s(0.0)],
        [s(0.0), s(0.0)],
        parent.map(ClippedBy),
    )
}

fn source<'a>(
    entity: u64,
    commands: &'a Vec<PathCommand>,
    style: &'a PathStyle,
    layers: &'a Option<RenderLayers>,
) -> ShapeSource<'a> {
    ShapeSource {
        entity,
        commands,
        style,
        changed: true,
        placement: place(1.0),
        stroke_z: s(1.0001),
        fill_tint: [1, 2, 3, 4],
        stroke_tint: [5, 6, 7, 8],
        clipped: None,
        layers,
    }
}

#[test]
fn clip_nodes_hold_their_shape() {
    let rect = clip_node(
        &VectorClipShape::RoundedRect { half_extents: p(10.0, 5.0), radius: s(2.0) },
        [s(1.0), s(2.0), s(3.0), s(4.0)],
        [s(5.0), s(6.0)],
        [s(8.0), s(3.0)],
        Some(ClippedBy(77)),
    );
    assert_eq!(rect.entry.inv_linear, [s(1.0), s(2.0), s(3.0), s(4.0)]);
    assert_eq!(rect.entry.inv_translation, [s(5.0), s(6.0)]);
    assert_eq!((rect.entry.half_extents, rect.entry.radius), ([s(8.0), s(3.0)], s(2.0)));
    assert_eq!(rect.parent, Some(77));
    let circle = node(4.0, None);
    assert_eq!((circle.entry.half_extents, circle.entry.radius), ([s(0.0); 2], s(4.0)));
    assert_eq!(circle.parent, None);
}

#[test]
fn references_pack_start_and_count() {
    assert_eq!(pack_clip(0, 1), s(1.0));
    assert_eq!(pack_clip(3, 2), s(26.0));
    assert_eq!(pack_clip(1023, 4), s(8188.0));
    assert_eq!(pack_clip(2, 9), s(23.0));
}

#[test]
fn references_read_back() {
    let mut seen: Vec<u32> = Vec::new();
    for start in (0..64).chain([1023, 65_535, 0xf_ffff]) {
        for count in 0..8 {
            let packed = f32::from_bits(pack_clip(start, count).bits) as u32;
            assert_eq!((packed / 8, packed % 8), (start, count));
            seen.push(packed);
        }
    }
    seen.dedup();
    assert_eq!(seen.len(), 67 * 8);
}

#[test]
fn chains_hold_up_to_four_ancestors() {
    let mut nodes: KeyedStore<ClipNode> = KeyedStore::new();
    for i in 0..6u64 {
        nodes.insert(i, node(i as f32, if i > 0 { Some(i - 1) } else { None }));
    }
    nodes.insert(9, node(9.0, Some(1234)));
    let clips = ExtractedClips::resolve(&nodes);
    let chain = |head: u64| {
        let &(start, count) = clips.chains.get(head).unwrap();
        let radii: Vec<Scalar> = clips.entries[start as usize..(start + count) as usize]
            .iter()
            .map(|e| e.radius)
            .collect();
        radii
    };
    assert_eq!(chain(0), vec![s(0.0)]);
    assert_eq!(chain(2), vec![s(2.0), s(1.0), s(0.0)]);
    assert_eq!(chain(5), vec![s(5.0), s(4.0), s(3.0), s(2.0)]);
    // A missing parent ends the chain.
    assert_eq!(chain(9), vec![s(9.0)]);
    let &(start, count) = clips.chains.get(2).unwrap();
    assert_eq!(clips.reference(Some(ClippedBy(2))), pack_clip(start, count));
    assert_eq!(clips.reference(Some(ClippedBy(500))), s(0.0));
    assert_eq!(clips.reference(None), s(0.0));
    assert_eq!(ExtractedClips::new().reference(Some(ClippedBy(2))), s(0.0));
}

#[test]
fn a_cycle_of_clips_is_cut() {
    let mut nodes: KeyedStore<ClipNode> = KeyedStore::new();
    nodes.insert(1, node(1.0, Some(2)));
    nodes.insert(2, node(2.0, Some(1)));
    let clips = ExtractedClips::resolve(&nodes);
    assert_eq!(clips.entries.len(), 8);
    assert_eq!(clips.chains.get(2), Some(&(4, 4)));
}

#[test]
fn chains_share_no_entry_and_leave_none_over() {
    let mut nodes: KeyedStore<ClipNode> = KeyedStore::new();
    nodes.insert(1, node(1.0, None));
    nodes.insert(2, node(2.0, Some(1)));
    nodes.insert(3, node(3.0, Some(2)));
    nodes.insert(4, node(4.0, Some(99)));
    let clips = ExtractedClips::resolve(&nodes);
    let mut held = vec![0; clips.entries.len()];
    for head in 1..=4 {
        let &(start, count) = clips.chains.get(head).unwrap();
        for slot in start..start + count {
            held[slot as usize] += 1;
        }
    }
    assert_eq!(held, vec![1; 7]);
}

#[test]
fn clips_beyond_the_buffer_are_dropped() {
    let mut nodes: KeyedStore<ClipNode> = KeyedStore::new();
    for i in 0..1100u64 {
        nodes.insert(i, node(1.0, None));
    }
    let clips = ExtractedClips::resolve(&nodes);
    assert_eq!((clips.entries.len(), clips.chains.len()), (MAX_CLIPS, MAX_CLIPS));
    assert_eq!(clips.reference(Some(ClippedBy(1050))), s(0.0));
}

#[test]
fn stops_are_bracketed() {
    let sorted = vec![stop(0.2, 0.1), stop(0.5, 0.4), stop(0.5, 0.6), stop(0.9, 0.8)];
    assert_eq!(sample_stops(&sorted, s(0.0)), StopSample::Exact(rgba(0.1, 1.0)));
    assert_eq!(sample_stops(&sorted, s(0.2)), StopSample::Exact(rgba(0.1, 1.0)));
    assert_eq!(sample_stops(&sorted, s(0.3)), StopSample::Between(0));
    assert_eq!(sample_stops(&sorted, s(0.5)), StopSample::Between(0));
    assert_eq!(sample_stops(&sorted, s(0.7)), StopSample::Between(2));
    assert_eq!(sample_stops(&sorted, s(1.0)), StopSample::Exact(rgba(0.8, 1.0)));
    assert_eq!(sample_stops(&vec![], s(0.5)), StopSample::Exact(LinearRgba::white()));
    assert_eq!(sample_stops(&vec![stop(0.7, 0.3)], s(0.1)), StopSample::Exact(rgba(0.3, 1.0)));
}

#[test]
fn a_stop_list_has_one_row() {
    assert_eq!((GRADIENT_ATLAS_SIZE, GRADIENT_ATLAS_ROWS), (256, 1024));
    let mut atlas = GradientAtlas::new();
    let list = vec![stop(1.0, 0.5), stop(0.0, 0.25)];
    assert_eq!(atlas.ensure_row(&list), Some(0));
    assert_eq!(atlas.ensure_row(&vec![stop(0.0, 0.25), stop(1.0, 0.5)]), Some(1));
    assert_eq!(atlas.ensure_row(&list), Some(0));
    let rows = atlas.take_pending();
    assert_eq!((rows.len(), rows[0].row, rows[1].row), (2, 0, 1));
    // Rows are baked from the sorted stops.
    assert_eq!(rows[0].stops, vec![stop(0.0, 0.25), stop(1.0, 0.5)]);
    assert!(atlas.take_pending().is_empty());
    assert_eq!(atlas.ensure_row(&list), Some(0));
}

#[test]
fn a_full_atlas_degrades_to_a_flat_colour() {
    let mut atlas = GradientAtlas::new();
    for i in 0..GRADIENT_ATLAS_ROWS {
        assert_eq!(atlas.ensure_row(&vec![stop(i as f32, 0.5)]), Some(i));
    }
    let fresh = vec![stop(-1.0, 0.5)];
    assert_eq!(atlas.ensure_row(&fresh), None);
    assert_eq!(atlas.ensure_row(&vec![stop(7.0, 0.5)]), Some(7));
    let brush = Brush::Linear { start: p(1.0, 2.0), end: p(3.0, 4.0), stops: fresh };
    let data = resolve_brush(&brush, [9, 8, 7, 6], &mut atlas);
    assert_eq!((data.color, data.params, data.meta), ([9, 8, 7, 6], [s(0.0); 4], s(0.0)));
}

#[test]
fn brushes_become_instance_data() {
    let mut atlas = GradientAtlas::new();
    let solid = resolve_brush(&Brush::Solid(rgba(1.0, 1.0)), [9, 8, 7, 6], &mut atlas);
    assert_eq!((solid.color, solid.params, solid.meta), ([9, 8, 7, 6], [s(0.0); 4], s(0.0)));
    let linear =
        Brush::Linear { start: p(1.0, 2.0), end: p(3.0, 4.0), stops: vec![stop(0.0, 0.5)] };
    let data = resolve_brush(&linear, [9; 4], &mut atlas);
    assert_eq!(data.color, [255; 4]);
    assert_eq!((data.params, data.meta), ([s(1.0), s(2.0), s(3.0), s(4.0)], s(1.0)));
    let radial = Brush::Radial { center: p(1.0, 2.0), radius: s(3.0), stops: vec![stop(0.5, 0.5)] };
    let data = resolve_brush(&radial, [9; 4], &mut atlas);
    assert_eq!((data.params, data.meta), ([s(1.0), s(2.0), s(3.0), s(0.0)], s(6.0)));
}

#[test]
fn shapes_become_instances() {
    let mut extraction = Extraction::new();
    let mut layers = LayerTable::new();
    let commands = square(10.0);
    let mut style = PathStyle::fill(Brush::Solid(rgba(1.0, 1.0)));
    let stroke = StrokeStyle::new(Brush::Solid(rgba(0.5, 0.5)), s(2.0));
    style.stroke = Some(stroke.clone());
    let mask = Some(RenderLayers::layer(4));
    let sources = vec![source(1, &commands, &style, &mask)];
    extraction.extract_shapes(&mut layers, &ExtractedClips::new(), &sources);
    let items = &extraction.shapes.items;
    assert_eq!(items.len(), 2);
    assert_eq!(
        items[0].geometry,
        GeometryRef::Cached(fill_rule_key(&commands, FillRule::EvenOdd))
    );
    assert_eq!(items[1].geometry, GeometryRef::Cached(stroke_key(&commands, &stroke)));
    assert_eq!((items[0].color, items[1].color), ([1, 2, 3, 4], [5, 6, 7, 8]));
    assert_eq!((items[0].z, items[1].z), (s(1.0), s(1.0001)));
    assert_eq!((items[0].opaque, items[1].opaque), (true, false));
    assert_eq!((items[0].layer, items[1].layer), (1, 1));
    assert_eq!(items[0].translation, [s(10.0), s(20.0)]);
    assert_eq!(extraction.cache.ranges.len(), 2);
    assert!(extraction.cache.dirty && !extraction.cache.vertices.is_empty());
}

#[test]
fn identical_paths_share_geometry() {
    let mut extraction = Extraction::new();
    let mut layers = LayerTable::new();
    let (commands, other) = (square(10.0), square(11.0));
    let style = PathStyle::fill(Brush::Solid(rgba(1.0, 1.0)));
    let sources = vec![
        source(1, &commands, &style, &None),
        source(2, &commands, &style, &None),
        source(3, &other, &style, &None),
    ];
    extraction.extract_shapes(&mut layers, &ExtractedClips::new(), &sources);
    let items = &extraction.shapes.items;
    assert_eq!(items[0].geometry, items[1].geometry);
    assert_ne!(items[0].geometry, items[2].geometry);
    assert_eq!(extraction.cache.ranges.len(), 2);
    // A second frame starts over with items, not with geometry.
    let vertices = extraction.cache.vertices.len();
    extraction.extract_shapes(&mut layers, &ExtractedClips::new(), &sources);
    assert_eq!(extraction.shapes.items.len(), 3);
    assert_eq!(extraction.cache.vertices.len(), vertices);
}

#[test]
fn a_large_scene_keeps_its_geometry() {
    let mut extraction = Extraction::new();
    let mut layers = LayerTable::new();
    let style = PathStyle::fill(Brush::Solid(rgba(1.0, 1.0)));
    let paths: Vec<Vec<PathCommand>> = (0..9000).map(|i| square(1.0 + i as f32)).collect();
    let sources: Vec<ShapeSource> =
        paths.iter().enumerate().map(|(i, p)| source(i as u64, p, &style, &None)).collect();
    extraction.extract_shapes(&mut layers, &ExtractedClips::new(), &sources);
    assert_eq!(extraction.cache.ranges.len(), 9000);
    extraction.cache.dirty = false;
    let vertices = extraction.cache.vertices.len();
    // The same shapes, all marked as changed: nothing is tessellated again.
    extraction.extract_shapes(&mut layers, &ExtractedClips::new(), &sources);
    assert_eq!(extraction.cache.ranges.len(), 9000);
    assert_eq!(extraction.cache.vertices.len(), vertices);
    assert!(!extraction.cache.dirty);
}

#[test]
fn an_unchanged_shape_keeps_its_key() {
    let mut extraction = Extraction::new();
    let mut layers = LayerTable::new();
    let (commands, other) = (square(10.0), square(11.0));
    let style = PathStyle::fill(Brush::Solid(rgba(1.0, 1.0)));
    extraction.extract_shapes(
        &mut layers,
        &ExtractedClips::new(),
        &vec![source(1, &commands, &style, &None)],
    );
    let geometry = extraction.shapes.items[0].geometry;
    // Without a change mark the content is not looked at again.
    let unchanged = ShapeSource { changed: false, ..source(1, &other, &style, &None) };
    extraction.extract_shapes(&mut layers, &ExtractedClips::new(), &vec![unchanged]);
    assert_eq!(extraction.shapes.items[0].geometry, geometry);
    let changed = source(1, &other, &style, &None);
    extraction.extract_shapes(&mut layers, &ExtractedClips::new(), &vec![changed]);
    assert_ne!(extraction.shapes.items[0].geometry, geometry);
}

#[test]
fn clipped_content_blends() {
    let mut nodes: KeyedStore<ClipNode> = KeyedStore::new();
    nodes.insert(50, node(4.0, None));
    let clips = ExtractedClips::resolve(&nodes);
    let mut extraction = Extraction::new();
    let mut layers = LayerTable::new();
    let commands = square(10.0);
    let style = PathStyle::fill(Brush::Solid(rgba(1.0, 1.0)));
    let clipped = ShapeSource { clipped: Some(ClippedBy(50)), ..source(1, &commands, &style, &None) };
    extraction.extract_shapes(&mut layers, &clips, &vec![clipped]);
    assert_eq!(extraction.shapes.items[0].clip, s(1.0));
    assert!(!extraction.shapes.items[0].opaque);
}

#[test]
fn a_swollen_cache_is_flushed() {
    let mut extraction = Extraction::new();
    let mut layers = LayerTable::new();
    for key in 0..8192u64 {
        extraction.cache.enter(key, None);
    }
    extraction.begin_frame(&mut layers);
    assert_eq!(extraction.cache.ranges.len(), 8192);
    extraction.cache.enter(9000, None);
    extraction.begin_frame(&mut layers);
    assert_eq!(extraction.cache.ranges.len(), 0);
}

#[test]
fn what_is_drawn_is_cached() {
    let mut extraction = Extraction::new();
    let mut layers = LayerTable::new();
    let style = PathStyle {
        stroke: Some(StrokeStyle::new(Brush::Solid(rgba(1.0, 1.0)), s(2.0))),
        ..PathStyle::fill(Brush::Solid(rgba(1.0, 1.0)))
    };
    let drawn = |extraction: &Extraction| {
        extraction.shapes.items.iter().all(|i| match i.geometry {
            GeometryRef::Cached(key) => extraction.cache.ranges.contains(key),
            GeometryRef::Dynamic(_) => false,
        })
    };
    let (first, second) = (square(1.0), square(2.0));
    extraction.extract_shapes(&mut layers, &ExtractedClips::new(), &vec![source(1, &first, &style, &None)]);
    assert!(drawn(&extraction) && extraction.cache.ranges.len() == 2);
    let GeometryRef::Cached(key) = extraction.shapes.items[0].geometry else {
        panic!("not cached");
    };
    let before = (*extraction.cache.ranges.get(key).unwrap(), extraction.cache.vertices.clone());
    // Without a flush, what was there is where it was.
    extraction.extract_shapes(&mut layers, &ExtractedClips::new(), &vec![source(2, &second, &style, &None)]);
    assert!(drawn(&extraction) && extraction.cache.ranges.len() == 4);
    assert_eq!(*extraction.cache.ranges.get(key).unwrap(), before.0);
    assert_eq!(extraction.cache.vertices[..before.1.len()], before.1[..]);
    // Behind one, only what is drawn is there.
    for other in 0..8192u64 {
        extraction.cache.enter(other, None);
    }
    let unchanged = ShapeSource { changed: false, ..source(1, &first, &style, &None) };
    extraction.extract_shapes(&mut layers, &ExtractedClips::new(), &vec![unchanged]);
    assert!(drawn(&extraction) && extraction.cache.ranges.len() == 2);
    assert_eq!(extraction.shapes.items[0].geometry, GeometryRef::Cached(key));
}

#[test]
fn the_flush_scales_with_the_scene() {
    let mut extraction = Extraction::new();
    let mut layers = LayerTable::new();
    let commands = square(10.0);
    let style = PathStyle::fill(Brush::Solid(rgba(1.0, 1.0)));
    let sources: Vec<ShapeSource> =
        (0..2100).map(|i| source(i, &commands, &style, &None)).collect();
    extraction.extract_shapes(&mut layers, &ExtractedClips::new(), &sources);
    for key in 0..8399u64 {
        if !extraction.cache.ranges.contains(key) {
            extraction.cache.enter(key, None);
        }
    }
    // 8400 entries against 2100 live shapes is not yet mostly garbage.
    assert_eq!(extraction.cache.ranges.len(), 8400);
    extraction.begin_frame(&mut layers);
    assert_eq!(extraction.cache.ranges.len(), 8400);
    assert!(extraction.shapes.items.is_empty());
    // The next frame has no live shapes to justify them.
    extraction.begin_frame(&mut layers);
    assert_eq!(extraction.cache.ranges.len(), 0);
}

#[test]
fn transient_meshes_are_appended() {
    let mut shapes = ExtractedShapes::new();
    let mesh = MeshGeometry {
        vertices: vec![GpuVertex { position: [s(0.0); 2], normal: [s(0.0); 2], coverage: s(1.0) }; 3],
        interior_indices: vec![0, 1, 2],
        fringe_indices: vec![2],
    };
    shapes.append_dynamic(&mesh);
    let range = shapes.append_dynamic(&mesh);
    assert_eq!((range.base_vertex, range.interior_first, range.fringe_first), (3, 4, 7));
    assert_eq!((range.interior_count, range.fringe_count), (3, 1));
    assert_eq!((shapes.dynamic_vertices.len(), shapes.dynamic_indices.len()), (6, 8));
}

#[test]
fn what_can_be_drawn() {
    let parts = |commands: &Vec<PathCommand>, style: &PathStyle| {
        Extraction::new().drawable_parts(&source(1, commands, style, &None))
    };
    let style = PathStyle::fill(Brush::Solid(rgba(1.0, 1.0)));
    assert_eq!(parts(&square(1.0), &style), (true, true));
    let lost = vec![PathCommand::MoveTo(p(f32::NAN, 0.0))];
    assert_eq!(parts(&lost, &style), (false, true));
    let wide = StrokeStyle::new(Brush::Solid(rgba(1.0, 1.0)), s(f32::INFINITY));
    assert_eq!(parts(&square(1.0), &PathStyle::stroke(wide.clone())), (true, false));
    // A fill is not lost with its stroke, nor a stroke with its fill.
    let both = PathStyle { stroke: Some(wide), ..style };
    assert_eq!(parts(&square(1.0), &both), (true, false));
    let dashed = StrokeStyle {
        dash: Some([s(2.0f32.powi(30)); 2]),
        ..StrokeStyle::new(Brush::Solid(rgba(1.0, 1.0)), s(1.0))
    };
    let both = PathStyle { stroke: Some(dashed), ..both };
    let far = vec![
        PathCommand::MoveTo(p(0.0, 0.0)),
        PathCommand::LineTo(p(2.0f32.powi(70), 0.0)),
    ];
    assert_eq!(parts(&far, &both), (false, true));
    assert_eq!(parts(&square(1.0), &both), (true, true));
}

#[test]
fn nothing_is_asked_of_what_is_there() {
    let mut extraction = Extraction::new();
    let mut layers = LayerTable::new();
    let style = PathStyle {
        stroke: Some(StrokeStyle::new(Brush::Solid(rgba(1.0, 1.0)), s(2.0))),
        ..PathStyle::fill(Brush::Solid(rgba(1.0, 1.0)))
    };
    let clips = ExtractedClips::new();
    let (commands, lost) = (square(1.0), vec![PathCommand::MoveTo(p(f32::NAN, 0.0))]);
    extraction.extract_shapes(&mut layers, &clips, &vec![source(1, &commands, &style, &None)]);
    let geometry = extraction.shapes.items[0].geometry;
    extraction.cache.dirty = false;
    // What is not looked at may be anything, and is drawn as it was.
    let unchanged = ShapeSource { changed: false, ..source(1, &lost, &style, &None) };
    assert_eq!(extraction.drawable_parts(&unchanged), (true, true));
    extraction.extract_shapes(&mut layers, &clips, &vec![unchanged]);
    assert_eq!(extraction.shapes.items.len(), 2);
    assert_eq!(extraction.shapes.items[0].geometry, geometry);
    assert!(extraction.cache.ranges.len() == 2 && !extraction.cache.dirty);
    // What is looked at, and has not been seen, has to be drawable.
    assert_eq!(extraction.drawable_parts(&source(1, &lost, &style, &None)), (false, false));
    let other = ShapeSource { changed: false, ..source(2, &lost, &style, &None) };
    assert_eq!(extraction.drawable_parts(&other), (false, false));
    // A key that is held counts, whoever asks, and whatever the outline.
    let key = fill_rule_key(&lost, FillRule::EvenOdd);
    extraction.cache.enter(key, None);
    assert_eq!(extraction.drawable_parts(&other), (true, false));
    // Before a flush, nothing that is there counts.
    for other in 0..8192u64 {
        extraction.cache.enter(other, None);
    }
    let unchanged = ShapeSource { changed: false, ..source(1, &lost, &style, &None) };
    assert_eq!(extraction.drawable_parts(&unchanged), (false, false));
}

#[test]
fn primitives_become_instances() {
    let arc = VectorPrimitive::Arc {
        inner: s(1.0),
        outer: s(2.0),
        start: s(3.0),
        sweep: s(4.0),
        color: rgba(0.5, 1.0),
    };
    let rect = |thickness: f32, alpha: f32| VectorPrimitive::Rect {
        size: p(10.0, 20.0),
        radius: s(2.0),
        thickness: s(thickness),
        color: rgba(0.5, alpha),
    };
    let mask = Some(RenderLayers::layer(4));
    assert_eq!((arc.color(), rect(0.0, 0.25).color()), (rgba(0.5, 1.0), rgba(0.5, 0.25)));
    let of = |primitive: VectorPrimitive| PrimitiveSource {
        primitive,
        placement: place(1.5),
        tint: [1, 2, 3, 4],
        clipped: None,
        layers: &mask,
    };
    let mut nodes: KeyedStore<ClipNode> = KeyedStore::new();
    nodes.insert(50, node(4.0, None));
    let clips = ExtractedClips::resolve(&nodes);
    let mut layers = LayerTable::new();
    let clipped = PrimitiveSource { clipped: Some(ClippedBy(50)), ..of(rect(0.0, 1.0)) };
    let sources =
        vec![of(arc), of(rect(0.0, 1.0)), of(rect(1.0, 1.0)), of(rect(0.0, 0.5)), clipped];
    let found = extract_primitives(&mut layers, &clips, &sources);
    assert_eq!(found.arcs.0.len(), 1);
    assert_eq!(found.arcs.0[0].params, [s(3.0), s(4.0), s(1.0), s(2.0)]);
    assert!(found.arcs.0[0].opaque);
    assert_eq!((found.arcs.0[0].layer, found.arcs.0[0].z, found.arcs.0[0].color), (1, s(1.5), [1, 2, 3, 4]));
    let opaque: Vec<bool> = found.sdf.0.iter().map(|i| i.opaque).collect();
    assert_eq!(opaque, vec![true, false, false, false]);
    assert_eq!(found.sdf.0[1].params, [s(10.0), s(20.0), s(2.0), s(1.0)]);
    assert_eq!((found.sdf.0[0].clip, found.sdf.0[3].clip), (s(0.0), s(1.0)));
}
