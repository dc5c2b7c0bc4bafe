use bevy_pf_vector::render::cache::{
    append_mesh, interior_mesh, GeometryCache, GeometryRange, MeshGeometry,
};
use bevy_pf_vector::render::gpu::{GpuDrawIndexedIndirect, GpuInstance, GpuVertex};
use bevy_pf_vector::render::layout::{ExtractedInstance, GeometryRef};
use bevy_pf_vector::render::prepare::{
    decide_upload, fingerprint, gpu_instance, GeometryUpload, Upload, VectorBuffers,
};
use bevy_pf_vector::scalar::Scalar;
use bevy_pf_vector::tess::TessellatedGeometry;

fn s(x: f32) -> Scalar {
    Scalar { bits: x.to_bits() }
}

fn vertex(x: f32) -> GpuVertex {
    GpuVertex { position: [s(x), s(0.0)], normal: [s(0.0); 2], coverage: s(1.0) }
}

fn mesh(vertices: usize, fringe: &[u32]) -> MeshGeometry {
    MeshGeometry {
        vertices: (0..vertices).map(|i| vertex(i as f32)).collect(),
        interior_indices: vec![0, 1, 2],
        fringe_indices: fringe.to_vec(),
    }
}

fn item(key: u64, z: f32, opaque: bool) -> ExtractedInstance {
    ExtractedInstance {
        geometry: GeometryRef::Cached(key),
        z: s(z),
        linear: [s(1.0), s(2.0), s(3.0), s(4.0)],
        translation: [s(5.0), s(6.0)],
        color: [7, 8, 9, 10],
        brush_params: [s(11.0), s(12.0), s(13.0), s(14.0)],
        brush_meta: s(15.0),
        opaque,
        clip: s(0.0),
        layer: 0,
    }
}

#[test]
fn tessellated_triangles_are_interior() {
    assert!(interior_mesh(None).is_none());
    let mesh = interior_mesh(Some(TessellatedGeometry {
        vertices: vec![[s(1.0), s(2.0)]],
        indices: vec![0, 0, 0],
    }))
    .unwrap();
    assert_eq!(
        mesh.vertices,
        vec![GpuVertex { position: [s(1.0), s(2.0)], normal: [s(0.0); 2], coverage: s(1.0) }]
    );
    assert_eq!((mesh.interior_indices.len(), mesh.fringe_indices.len()), (3, 0));
}

#[test]
fn meshes_are_appended() {
    let (mut vertices, mut indices) = (Vec::new(), Vec::new());
    append_mesh(&mut vertices, &mut indices, &mesh(4, &[3, 3, 3]));
    let second = append_mesh(&mut vertices, &mut indices, &mesh(3, &[2, 1]));
    assert_eq!(
        second,
        GeometryRange {
            base_vertex: 4,
            interior_first: 6,
            interior_count: 3,
            fringe_first: 9,
            fringe_count: 2,
        }
    );
    assert_eq!((vertices.len(), indices), (7, vec![0, 1, 2, 3, 3, 3, 0, 1, 2, 2, 1]));
}

#[test]
fn geometry_is_made_once_per_key() {
    let mut cache = GeometryCache::new();
    assert!(!cache.dirty);
    cache.ensure(5, || Some(mesh(4, &[])));
    assert!(cache.dirty);
    cache.ensure(5, || panic!("already resident"));
    cache.dirty = false;
    cache.ensure(6, || None);
    assert!(!cache.dirty, "a path without triangles adds nothing to upload");
    assert_eq!(cache.ranges.get(6), Some(&None));
    cache.enter(7, Some(mesh(3, &[0])));
    assert!(cache.dirty);
    let first = cache.ranges.get(5).unwrap().unwrap();
    let last = cache.ranges.get(7).unwrap().unwrap();
    assert_eq!((first.base_vertex, first.interior_first), (0, 0));
    assert_eq!((last.base_vertex, last.interior_first, last.fringe_first), (4, 3, 6));
    assert_eq!((cache.ranges.len(), cache.vertices.len(), cache.indices.len()), (3, 7, 7));
}

#[test]
fn uploads_grow_only_when_they_must() {
    assert_eq!(decide_upload(false, 0, 10), Upload::Create);
    assert_eq!(decide_upload(true, 9, 10), Upload::Create);
    assert_eq!(decide_upload(true, 10, 10), Upload::Write);
    assert_eq!(decide_upload(false, 100, 10), Upload::Create);
}

#[test]
fn geometry_buffers_are_rebuilt_when_the_cache_changes() {
    let (mut buffers, mut cache) = (VectorBuffers::new(), GeometryCache::new());
    let nothing = GeometryUpload { recreate: None, write_static: false, write_tail: None };
    assert_eq!(buffers.prepare_geometry(&mut cache, 0, 0), nothing);
    cache.enter(1, Some(mesh(4, &[])));
    let upload = buffers.prepare_geometry(&mut cache, 0, 0);
    assert_eq!(upload.recreate, Some((4 + 256, 3 + 1024)));
    assert!(upload.write_static && upload.write_tail.is_none());
    assert!(!cache.dirty);
    assert_eq!(buffers.prepare_geometry(&mut cache, 0, 0), nothing);
    // A tail that fits the slack goes behind the static part.
    let upload = buffers.prepare_geometry(&mut cache, 200, 300);
    assert_eq!((upload.recreate, upload.write_tail), (None, Some((4 * 20, 3 * 4))));
    // One that does not makes room for twice its size.
    let upload = buffers.prepare_geometry(&mut cache, 300, 300);
    assert_eq!(upload.recreate, Some((4 + 300 + 300, 3 + 300 + 1024)));
    assert!(upload.write_static);
}

#[test]
fn a_tail_alone_needs_no_static_write() {
    let (mut buffers, mut cache) = (VectorBuffers::new(), GeometryCache::new());
    let upload = buffers.prepare_geometry(&mut cache, 3, 3);
    assert_eq!(upload.recreate, Some((3 + 256, 3 + 1024)));
    assert!(!upload.write_static);
    assert_eq!(upload.write_tail, Some((0, 0)));
}

#[test]
fn instances_carry_the_item() {
    assert_eq!(
        gpu_instance(&ExtractedInstance { clip: s(9.0), ..item(1, 0.5, true) }),
        GpuInstance {
            linear: [s(1.0), s(2.0), s(3.0), s(4.0)],
            translation_z: [s(5.0), s(6.0), s(0.5), s(9.0)],
            color: [7, 8, 9, 10],
            brush_params: [s(11.0), s(12.0), s(13.0), s(14.0)],
            brush_meta: s(15.0),
        }
    );
}

#[test]
fn fingerprints_see_structure_only() {
    let items = vec![item(1, 0.0, true), item(2, 1.0, false)];
    let print = fingerprint(&items);
    let changed = |f: &dyn Fn(&mut ExtractedInstance)| {
        let mut other = items.clone();
        f(&mut other[1]);
        fingerprint(&other) != print
    };
    assert!(!changed(&|i| i.color = [0; 4]));
    assert!(!changed(&|i| i.translation = [s(1.0); 2]));
    assert!(!changed(&|i| i.linear = [s(1.0); 4]));
    assert!(!changed(&|i| i.brush_meta = s(99.0)));
    assert!(changed(&|i| i.geometry = GeometryRef::Cached(3)));
    assert!(changed(&|i| i.z = s(2.0)));
    assert!(changed(&|i| i.opaque = true));
    assert!(changed(&|i| i.clip = s(9.0)));
    assert!(changed(&|i| i.layer = 1));
    assert_ne!(fingerprint(&items[..1].to_vec()), print);
}

#[test]
fn frames_reuse_the_layout_while_the_structure_holds() {
    let (mut buffers, mut cache) = (VectorBuffers::new(), GeometryCache::new());
    cache.enter(1, Some(mesh(4, &[3])));
    cache.enter(2, Some(mesh(3, &[])));
    buffers.prepare_geometry(&mut cache, 0, 0);
    let mut items = vec![item(1, 0.0, true), item(2, 1.0, false), item(1, 2.0, true)];
    let first = buffers.prepare_instances(&items, &cache, true);
    assert_eq!(buffers.layout.permutation, vec![2, 0, 0, 1, 2]);
    assert_eq!(first.instance_upload, Upload::Create);
    assert_eq!(first.indirect_upload, Upload::Create);
    assert_eq!(buffers.instance_capacity, 5 * 56);
    assert_eq!(buffers.indirect_capacity, 4 * 20);
    assert_eq!(
        first.args[0],
        GpuDrawIndexedIndirect {
            index_count: 3,
            instance_count: 2,
            first_index: 0,
            base_vertex: 0,
            first_instance: 0,
        }
    );
    assert_eq!(
        first.args[2],
        GpuDrawIndexedIndirect {
            index_count: 3,
            instance_count: 1,
            first_index: 4,
            base_vertex: 4,
            first_instance: 3,
        }
    );
    // Only colours moved: the same draw order, new contents, nothing else.
    items[2].color = [1, 1, 1, 1];
    let second = buffers.prepare_instances(&items, &cache, true);
    assert_eq!((second.instance_upload, second.indirect_upload), (Upload::Write, Upload::Keep));
    assert!(second.args.is_empty());
    assert_eq!(second.instances[0].color, [1, 1, 1, 1]);
    assert_eq!(second.instances[1].color, [7, 8, 9, 10]);
    // A depth moved: laid out anew, into the buffers that are there.
    items[0].z = s(5.0);
    let third = buffers.prepare_instances(&items, &cache, true);
    assert_eq!(buffers.layout.permutation, vec![0, 2, 1, 2, 0]);
    assert_eq!((third.instance_upload, third.indirect_upload), (Upload::Write, Upload::Write));
}

#[test]
fn without_indirect_draws_no_arguments_are_made() {
    let (mut buffers, mut cache) = (VectorBuffers::new(), GeometryCache::new());
    cache.enter(1, Some(mesh(4, &[])));
    buffers.prepare_geometry(&mut cache, 0, 0);
    let frame = buffers.prepare_instances(&vec![item(1, 0.0, true)], &cache, false);
    assert!(frame.args.is_empty() && !buffers.use_multi_draw);
    assert_eq!(frame.indirect_upload, Upload::Keep);
    // Nothing to draw leaves the buffers as they are.
    let frame = buffers.prepare_instances(&vec![item(9, 0.0, true)], &cache, true);
    assert!(frame.instances.is_empty());
    assert_eq!(frame.instance_upload, Upload::Keep);
    assert!(!buffers.use_multi_draw && buffers.has_instance);
}

#[test]
fn dynamic_geometry_lies_behind_the_static_part() {
    let (mut buffers, mut cache) = (VectorBuffers::new(), GeometryCache::new());
    cache.enter(1, Some(mesh(4, &[])));
    buffers.prepare_geometry(&mut cache, 3, 3);
    let range = GeometryRange {
        base_vertex: 0,
        interior_first: 0,
        interior_count: 3,
        fringe_first: 3,
        fringe_count: 0,
    };
    let items =
        vec![ExtractedInstance { geometry: GeometryRef::Dynamic(range), ..item(0, 0.0, true) }];
    buffers.prepare_instances(&items, &cache, false);
    let batch = buffers.layout.opaque_batches[0];
    assert_eq!((batch.indices.start, batch.indices.end, batch.base_vertex), (3, 6, 4));
}

#[test]
fn a_tail_that_cannot_be_addressed_is_told_apart() {
    let (mut buffers, mut cache) = (VectorBuffers::new(), GeometryCache::new());
    cache.enter(1, Some(mesh(4, &[])));
    buffers.prepare_geometry(&mut cache, 0, 0);
    assert_eq!((buffers.static_vertex_count, buffers.static_index_count), (4, 3));
    let range = GeometryRange {
        base_vertex: i32::MAX - 4,
        interior_first: u32::MAX - 9,
        interior_count: 6,
        fringe_first: u32::MAX - 3,
        fringe_count: 0,
    };
    let fits = |range| {
        let last =
            ExtractedInstance { geometry: GeometryRef::Dynamic(range), ..item(0, 0.0, true) };
        buffers.is_tail_addressable(&vec![item(1, 0.0, true), last])
    };
    assert!(fits(range));
    assert!(!fits(GeometryRange { base_vertex: i32::MAX - 3, ..range }));
    assert!(!fits(GeometryRange { interior_count: 7, ..range }));
    assert!(!fits(GeometryRange { fringe_count: 1, ..range }));
    assert!(buffers.is_tail_addressable(&vec![]));
}

#[test]
fn a_refilled_cache_moves_the_draws_with_it() {
    let (mut buffers, mut cache) = (VectorBuffers::new(), GeometryCache::new());
    cache.enter(7, Some(mesh(3, &[])));
    cache.enter(9, Some(mesh(3, &[])));
    buffers.prepare_geometry(&mut cache, 0, 0);
    let items = vec![item(9, 0.0, true)];
    buffers.prepare_instances(&items, &cache, true);
    let batch = buffers.layout.opaque_batches[0];
    assert_eq!((batch.base_vertex, batch.indices.start), (3, 3));
    // The same instance over a cache that was flushed and filled again: the
    // hash is the same, the geometry is not where it was.
    let print = buffers.layout_fingerprint;
    let mut cache = GeometryCache::new();
    cache.enter(9, Some(mesh(3, &[])));
    buffers.prepare_geometry(&mut cache, 0, 0);
    assert_eq!(buffers.static_vertex_count, 3);
    let frame = buffers.prepare_instances(&items, &cache, true);
    assert_eq!(buffers.layout_fingerprint, print);
    let batch = buffers.layout.opaque_batches[0];
    assert_eq!((batch.base_vertex, batch.indices.start, batch.indices.end), (0, 0, 3));
    assert_eq!((frame.args[0].base_vertex, frame.args[0].first_index), (0, 0));
    // And with nothing moved since, it is kept.
    let frame = buffers.prepare_instances(&items, &cache, true);
    assert_eq!((frame.args.len(), frame.indirect_upload), (0, Upload::Keep));
}

#[test]
fn cached_draws_follow_the_cache_among_transient_ones() {
    let (mut buffers, mut cache) = (VectorBuffers::new(), GeometryCache::new());
    cache.enter(7, Some(mesh(3, &[])));
    cache.enter(9, Some(mesh(3, &[])));
    buffers.prepare_geometry(&mut cache, 3, 3);
    let range = GeometryRange {
        base_vertex: 0,
        interior_first: 0,
        interior_count: 3,
        fringe_first: 3,
        fringe_count: 0,
    };
    let items = vec![
        item(9, 0.0, true),
        ExtractedInstance { geometry: GeometryRef::Dynamic(range), ..item(0, 1.0, true) },
        item(7, 2.0, true),
    ];
    let bases = |buffers: &VectorBuffers| {
        let batches = &buffers.layout.opaque_batches;
        batches.iter().map(|b| b.base_vertex).collect::<Vec<_>>()
    };
    buffers.prepare_instances(&items, &cache, false);
    assert_eq!(bases(&buffers), vec![0, 6, 3]);
    // The same frame over a cache that was filled the other way round.
    let mut cache = GeometryCache::new();
    cache.enter(9, Some(mesh(3, &[])));
    cache.enter(7, Some(mesh(3, &[])));
    buffers.prepare_geometry(&mut cache, 3, 3);
    buffers.prepare_instances(&items, &cache, false);
    assert_eq!(bases(&buffers), vec![3, 6, 0]);
}

#[test]
fn transient_geometry_that_moves_is_drawn_where_it_lies() {
    let (mut buffers, mut cache) = (VectorBuffers::new(), GeometryCache::new());
    let range = GeometryRange {
        base_vertex: 0,
        interior_first: 0,
        interior_count: 3,
        fringe_first: 3,
        fringe_count: 0,
    };
    let drawn = |range| {
        vec![ExtractedInstance { geometry: GeometryRef::Dynamic(range), ..item(0, 0.0, true) }]
    };
    buffers.prepare_geometry(&mut cache, 3, 3);
    buffers.prepare_instances(&drawn(range), &cache, false);
    assert_eq!(buffers.layout.opaque_batches[0].base_vertex, 0);
    // Six indices where there were three, and a static part before them.
    cache.enter(1, Some(mesh(4, &[])));
    buffers.prepare_geometry(&mut cache, 4, 6);
    let longer = GeometryRange { interior_count: 6, fringe_first: 6, ..range };
    buffers.prepare_instances(&drawn(longer), &cache, false);
    let batch = buffers.layout.opaque_batches[0];
    assert_eq!((batch.base_vertex, batch.indices.start, batch.indices.end), (4, 3, 9));
}
