use bevy::camera::visibility::RenderLayers;
use bevy_pf_vector::layers::LayerTable;
use bevy_pf_vector::render::arc::{
    canonical_arc_mesh, sdf_quad, ARC_INDEX_COUNT, ARC_INTERIOR_INDEX_COUNT, ARC_SEGMENTS,
    ARC_VERTEX_COUNT,
};
use bevy_pf_vector::render::batch::VectorBatch;
use bevy_pf_vector::render::gpu::Span;
use bevy_pf_vector::render::params::{LayerRun, ParamBuffers, ParamItem};
use bevy_pf_vector::render::pass::{plan_pass, CompiledPipelines, PassCommand, Source};
use bevy_pf_vector::render::pipeline::{PipelineRequest, Variant, VectorPipeline};
use bevy_pf_vector::render::prepare::{Upload, VectorBuffers};
use bevy_pf_vector::scalar::Scalar;

fn s(x: f32) -> Scalar {
    Scalar { bits: x.to_bits() }
}

fn f(x: Scalar) -> f32 {
    f32::from_bits(x.bits)
}

fn span(start: u32, end: u32) -> Span {
    Span { start, end }
}

fn param(z: f32, opaque: bool, layer: u16) -> ParamItem {
    ParamItem {
        z: s(z),
        linear: [s(1.0), s(0.0), s(0.0), s(1.0)],
        translation: [s(3.0), s(4.0)],
        color: [1, 2, 3, 4],
        params: [s(5.0), s(6.0), s(7.0), s(8.0)],
        opaque,
        clip: s(9.0),
        layer,
    }
}

const ALL: CompiledPipelines = CompiledPipelines {
    opaque: true,
    blend: true,
    param_opaque: true,
    param_blend: true,
    sdf_opaque: true,
    sdf_blend: true,
};

#[test]
fn the_arc_mesh_has_the_stated_size() {
    let (vertices, indices, interior) = canonical_arc_mesh();
    assert_eq!(interior, 384);
    assert!(indices[..384].iter().all(|&i| f(vertices[i as usize].coverage) == 1.0));
    assert_eq!(vertices.len() as u32, ARC_VERTEX_COUNT);
    assert_eq!(indices.len() as u32, ARC_INDEX_COUNT);
    assert_eq!((ARC_SEGMENTS, ARC_INTERIOR_INDEX_COUNT), (64, 64 * 6));
    assert!(indices.iter().all(|&i| i < ARC_VERTEX_COUNT));
}

#[test]
fn the_arc_mesh_steps_along_the_ring() {
    let (vertices, indices, _) = canonical_arc_mesh();
    for i in 0..=64usize {
        let t = i as f32 / 64.0;
        let end = if i == 0 { -1.0 } else if i == 64 { 1.0 } else { 0.0 };
        for (side, radial) in [(0usize, -1.0f32), (1, 1.0)] {
            let v = vertices[2 * i + side];
            assert_eq!(v.position.map(f), [t, side as f32]);
            assert_eq!(v.normal.map(f), [radial, end]);
            assert_eq!(f(v.coverage), 1.0);
        }
        let (outer, inner) = (vertices[130 + i], vertices[195 + i]);
        assert_eq!((outer.position.map(f), outer.normal.map(f)), ([t, 1.0], [1.0, 0.0]));
        assert_eq!((inner.position.map(f), inner.normal.map(f)), ([t, 0.0], [-1.0, 0.0]));
        assert_eq!((f(outer.coverage), f(inner.coverage)), (0.0, 0.0));
    }
    let corners: Vec<([f32; 2], [f32; 2])> =
        vertices[260..].iter().map(|v| (v.position.map(f), v.normal.map(f))).collect();
    assert_eq!(
        corners,
        vec![
            ([0.0, 0.0], [-1.0, -1.0]),
            ([0.0, 1.0], [1.0, -1.0]),
            ([1.0, 0.0], [-1.0, 1.0]),
            ([1.0, 1.0], [1.0, 1.0]),
        ]
    );
    assert_eq!(indices[..6], [0, 1, 2, 2, 1, 3]);
    assert_eq!(indices[384..396], [1, 130, 3, 3, 130, 131, 195, 0, 196, 196, 0, 2]);
    assert_eq!(indices[1152..], [0, 260, 1, 1, 260, 261, 128, 262, 129, 129, 262, 263]);
}

#[test]
fn the_quad_covers_the_unit_square() {
    let (vertices, indices) = sdf_quad();
    let corners: Vec<[f32; 2]> = vertices.iter().map(|v| v.position.map(f)).collect();
    assert_eq!(corners, vec![[-1.0, -1.0], [1.0, -1.0], [1.0, 1.0], [-1.0, 1.0]]);
    assert!(vertices.iter().all(|v| v.normal.map(f) == [0.0, 0.0] && f(v.coverage) == 1.0));
    assert_eq!(indices, vec![0, 1, 2, 0, 2, 3]);
}

#[test]
fn primitives_sort_into_sections_and_runs() {
    let mut buffers = ParamBuffers::new();
    let mut items = vec![
        param(3.0, false, 1),
        param(2.0, true, 1),
        param(1.0, false, 0),
        param(5.0, true, 0),
        param(4.0, true, 0),
        param(9.0, false, 1),
    ];
    let upload = buffers.prepare(&mut items);
    let order: Vec<(bool, u16, f32)> = items.iter().map(|i| (i.opaque, i.layer, f(i.z))).collect();
    assert_eq!(
        order,
        vec![
            (true, 0, 4.0),
            (true, 0, 5.0),
            (true, 1, 2.0),
            (false, 0, 1.0),
            (false, 1, 3.0),
            (false, 1, 9.0),
        ]
    );
    assert_eq!(
        buffers.layer_runs,
        vec![
            LayerRun { span: span(0, 2), layer: 0 },
            LayerRun { span: span(2, 3), layer: 1 },
            LayerRun { span: span(3, 4), layer: 0 },
            LayerRun { span: span(4, 6), layer: 1 },
        ]
    );
    assert_eq!((buffers.opaque_count, buffers.total_count), (3, 6));
    assert!(upload.build_mesh);
    assert_eq!(upload.instance_upload, Upload::Create);
    assert_eq!(buffers.instance_capacity, 6 * 52);
    assert_eq!(upload.instances[0].translation_z, [s(3.0), s(4.0), s(4.0), s(9.0)]);
    assert_eq!(upload.instances[0].params, [s(5.0), s(6.0), s(7.0), s(8.0)]);
    assert_eq!(upload.instances[0].color, [1, 2, 3, 4]);
    // Fewer items later fit the same buffer, and the mesh stays.
    let upload = buffers.prepare(&mut vec![param(0.0, true, 0)]);
    assert!(!upload.build_mesh);
    assert_eq!(upload.instance_upload, Upload::Write);
    let upload = buffers.prepare(&mut Vec::new());
    assert_eq!(upload.instance_upload, Upload::Keep);
    assert_eq!((buffers.opaque_count, buffers.total_count, buffers.layer_runs.len()), (0, 0, 0));
}

fn batches(layers: &[u16], first: u32) -> Vec<VectorBatch> {
    layers
        .iter()
        .enumerate()
        .map(|(i, &layer)| VectorBatch {
            indices: span(10 * i as u32, 10 * i as u32 + 6),
            base_vertex: i as i32,
            instances: span(first + i as u32, first + i as u32 + 1),
            layer,
        })
        .collect()
}

fn tessellated(opaque: &[u16], blend: &[u16], indirect: bool) -> VectorBuffers {
    let mut buffers = VectorBuffers::new();
    buffers.has_vertex = true;
    buffers.has_index = true;
    buffers.has_instance = true;
    buffers.has_indirect = indirect;
    buffers.use_multi_draw = indirect;
    buffers.layout.opaque_batches = batches(opaque, 0);
    buffers.layout.blend_batches = batches(blend, opaque.len() as u32);
    buffers
}

#[test]
fn one_camera_needs_two_multi_draws() {
    let none = ParamBuffers::new();
    let table = LayerTable::new();
    let buffers = tessellated(&[0, 0, 0], &[0, 0], true);
    let plan = plan_pass(&buffers, &none, &none, ALL, true, &table, &RenderLayers::default());
    assert_eq!(
        plan.unwrap(),
        vec![
            PassCommand::Bind(Source::Tessellated),
            PassCommand::SetPipeline { source: Source::Tessellated, opaque: true },
            PassCommand::MultiDraw { offset: 0, count: 3 },
            PassCommand::Bind(Source::Tessellated),
            PassCommand::SetPipeline { source: Source::Tessellated, opaque: false },
            PassCommand::MultiDraw { offset: 60, count: 2 },
        ]
    );
}

#[test]
fn hidden_batches_split_the_multi_draws() {
    let none = ParamBuffers::new();
    let mut table = LayerTable::new();
    assert_eq!(table.intern(&Some(RenderLayers::layer(3))), 1);
    let buffers = tessellated(&[0, 1, 1, 0], &[], true);
    let plan = plan_pass(&buffers, &none, &none, ALL, true, &table, &RenderLayers::layer(3));
    assert_eq!(plan.unwrap()[2..], [PassCommand::MultiDraw { offset: 20, count: 2 }]);
    let plan = plan_pass(&buffers, &none, &none, ALL, true, &table, &RenderLayers::default());
    assert_eq!(
        plan.unwrap()[2..],
        [PassCommand::MultiDraw { offset: 0, count: 1 }, PassCommand::MultiDraw { offset: 60, count: 1 }]
    );
}

#[test]
fn without_indirect_each_visible_batch_is_drawn() {
    let none = ParamBuffers::new();
    let mut table = LayerTable::new();
    table.intern(&Some(RenderLayers::layer(3)));
    let buffers = tessellated(&[1, 0], &[0], false);
    let plan = plan_pass(&buffers, &none, &none, ALL, true, &table, &RenderLayers::default());
    assert_eq!(
        plan.unwrap(),
        vec![
            PassCommand::Bind(Source::Tessellated),
            PassCommand::SetPipeline { source: Source::Tessellated, opaque: true },
            PassCommand::Draw { indices: span(10, 16), base_vertex: 1, instances: span(1, 2) },
            PassCommand::Bind(Source::Tessellated),
            PassCommand::SetPipeline { source: Source::Tessellated, opaque: false },
            PassCommand::Draw { indices: span(0, 6), base_vertex: 0, instances: span(2, 3) },
        ]
    );
}

#[test]
fn the_same_is_drawn_with_indirect_draws_as_without() {
    let none = ParamBuffers::new();
    let mut table = LayerTable::new();
    table.intern(&Some(RenderLayers::layer(3)));
    table.intern(&Some(RenderLayers::layer(5)));
    let (opaque, blend) = ([0, 1, 1, 2, 0, 0, 1], [2, 2, 0, 1]);
    let draws = |indirect: bool, view: &RenderLayers| {
        let buffers = tessellated(&opaque, &blend, indirect);
        let records: Vec<VectorBatch> =
            buffers.layout.opaque_batches.iter().chain(&buffers.layout.blend_batches).copied().collect();
        let mut drawn = Vec::new();
        for command in plan_pass(&buffers, &none, &none, ALL, true, &table, view).unwrap() {
            match command {
                PassCommand::Draw { instances, .. } => drawn.push(instances.start),
                PassCommand::MultiDraw { offset, count } => {
                    let first = offset as usize / 20;
                    drawn.extend(
                        records[first..first + count as usize].iter().map(|b| b.instances.start),
                    );
                }
                _ => {}
            }
        }
        drawn
    };
    for (layer, expected) in [(0, vec![0, 4, 5, 9]), (3, vec![1, 2, 6, 10]), (5, vec![3, 7, 8])] {
        let view = RenderLayers::layer(layer);
        assert_eq!(draws(true, &view), expected);
        assert_eq!(draws(false, &view), expected);
    }
}

#[test]
fn each_visible_primitive_is_drawn_once() {
    let mut table = LayerTable::new();
    table.intern(&Some(RenderLayers::layer(3)));
    let mut sdf = ParamBuffers::new();
    let mut items: Vec<ParamItem> =
        (0..20).map(|i| param(i as f32, i % 3 != 0, (i / 2 % 2) as u16)).collect();
    sdf.prepare(&mut items);
    // One run for each layer among the opaque ones.
    assert_eq!(sdf.layer_runs[0].layer, 0);
    assert_eq!(sdf.layer_runs[1].span.end, sdf.opaque_count);
    let empty = (VectorBuffers::new(), ParamBuffers::new());
    let view = RenderLayers::layer(3);
    let plan = plan_pass(&empty.0, &empty.1, &sdf, ALL, true, &table, &view).unwrap();
    for slot in 0..20u32 {
        let times = plan
            .iter()
            .filter(|command| {
                matches!(command, PassCommand::Draw { instances, .. }
                    if instances.start <= slot && slot < instances.end)
            })
            .count();
        assert_eq!(times, items[slot as usize].layer as usize);
    }
}

#[test]
fn arcs_and_quads_take_their_places() {
    let empty = VectorBuffers::new();
    let table = LayerTable::new();
    let mut arcs = ParamBuffers::new();
    arcs.prepare(&mut vec![param(0.0, true, 0), param(1.0, false, 0)]);
    let mut sdf = ParamBuffers::new();
    sdf.prepare(&mut vec![param(0.0, true, 0), param(1.0, true, 0), param(2.0, false, 0)]);
    let plan = plan_pass(&empty, &arcs, &sdf, ALL, true, &table, &RenderLayers::default());
    let draw = |first: u32, last: u32, start: u32, end: u32| PassCommand::Draw {
        indices: span(first, last),
        base_vertex: 0,
        instances: span(start, end),
    };
    assert_eq!(
        plan.unwrap(),
        vec![
            PassCommand::Bind(Source::Sdf),
            PassCommand::SetPipeline { source: Source::Sdf, opaque: true },
            draw(0, 6, 0, 2),
            PassCommand::Bind(Source::Arc),
            PassCommand::SetPipeline { source: Source::Arc, opaque: true },
            draw(0, 384, 0, 1),
            PassCommand::Bind(Source::Arc),
            PassCommand::SetPipeline { source: Source::Arc, opaque: false },
            draw(0, 384, 1, 2),
            draw(384, 1164, 0, 2),
            PassCommand::Bind(Source::Sdf),
            PassCommand::SetPipeline { source: Source::Sdf, opaque: false },
            draw(0, 6, 2, 3),
        ]
    );
}

#[test]
fn a_pass_waits_for_content_pipelines_and_bindings() {
    let none = ParamBuffers::new();
    let table = LayerTable::new();
    let view = RenderLayers::default();
    let buffers = tessellated(&[0], &[], true);
    assert!(plan_pass(&buffers, &none, &none, ALL, false, &table, &view).is_none());
    let half = CompiledPipelines { blend: false, ..ALL };
    assert!(plan_pass(&buffers, &none, &none, half, true, &table, &view).is_none());
    let nothing = VectorBuffers::new();
    assert!(plan_pass(&nothing, &none, &none, ALL, true, &table, &view).is_none());
    let mut unfilled = tessellated(&[0], &[], true);
    unfilled.has_instance = false;
    assert!(plan_pass(&unfilled, &none, &none, ALL, true, &table, &view).is_none());
}

#[test]
fn pipelines_are_queued_once() {
    let mut pipelines = VectorPipeline::new();
    let opaque = Variant { format: 3, samples: 4, opaque: true };
    let blend = Variant { opaque: false, ..opaque };
    assert_eq!(pipelines.get(Source::Tessellated, opaque), None);
    let mut seen: Vec<PipelineRequest> = Vec::new();
    let mut id = 40;
    for source in [Source::Tessellated, Source::Sdf, Source::Arc] {
        for variant in [opaque, blend] {
            id += 1;
            let got = pipelines.ensure(source, variant, |request| {
                seen.push(request);
                id
            });
            assert_eq!(got, id);
            assert_eq!(pipelines.get(source, variant), Some(id));
            let again = pipelines.ensure(source, variant, |_| panic!("already queued"));
            assert_eq!(again, id);
        }
    }
    assert_eq!(pipelines.get(Source::Arc, Variant { samples: 1, ..opaque }), None);
    let labels: Vec<&str> = seen.iter().map(|r| r.label).collect();
    assert_eq!(
        labels,
        vec![
            "pf_vector_opaque_pipeline",
            "pf_vector_blend_pipeline",
            "pf_vector_sdf_opaque_pipeline",
            "pf_vector_sdf_blend_pipeline",
            "pf_vector_param_opaque_pipeline",
            "pf_vector_param_blend_pipeline",
        ]
    );
    assert!(seen.iter().all(|r| r.blend != r.depth_write && (r.format, r.samples) == (3, 4)));
    assert!(seen[0].depth_write && !seen[1].depth_write);
}
