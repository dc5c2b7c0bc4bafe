use bevy_pf_vector::render::batch::{lay_out, VectorBatch};
use bevy_pf_vector::render::cache::GeometryRange;
use bevy_pf_vector::render::gpu::Span;
use bevy_pf_vector::render::layout::{
    order_by_depth, order_opaque, ExtractedInstance, GeometryRef, GroupKey,
};
use bevy_pf_vector::scalar::Scalar;

fn s(x: f32) -> Scalar {
    Scalar { bits: x.to_bits() }
}

fn item(key: u64, z: f32, opaque: bool, layer: u16) -> ExtractedInstance {
    ExtractedInstance {
        geometry: GeometryRef::Cached(key),
        z: s(z),
        linear: [s(1.0), s(0.0), s(0.0), s(1.0)],
        translation: [s(0.0), s(0.0)],
        color: [255; 4],
        brush_params: [s(0.0); 4],
        brush_meta: s(0.0),
        opaque,
        clip: s(0.0),
        layer,
    }
}

fn range(first: u32, interior_count: u32, fringe_count: u32) -> GeometryRange {
    GeometryRange {
        base_vertex: first as i32,
        interior_first: first,
        interior_count,
        fringe_first: first + interior_count,
        fringe_count,
    }
}

fn span(start: u32, end: u32) -> Span {
    Span { start, end }
}

#[test]
fn group_keys_tell_sources_apart() {
    assert_eq!(item(9, 0.0, true, 3).group_key(), GroupKey { kind: 0, id: 9, layer: 3 });
    let dynamic = ExtractedInstance {
        geometry: GeometryRef::Dynamic(GeometryRange { base_vertex: 5, ..range(7, 3, 0) }),
        ..item(0, 0.0, true, 2)
    };
    assert_eq!(dynamic.group_key(), GroupKey { kind: 1, id: (7 << 32) | 5, layer: 2 });
}

#[test]
fn opaque_groups_come_front_to_back() {
    // Key 10 owns the nearest item, so its whole group comes first.
    let items = vec![
        item(20, 1.0, true, 0),
        item(10, 0.0, true, 0),
        item(10, 9.0, true, 0),
        item(20, 5.0, true, 0),
        item(10, 4.0, false, 0),
    ];
    assert_eq!(order_opaque(&items), vec![2, 1, 3, 0]);
    assert_eq!(order_by_depth(&items), vec![1, 0, 4, 3, 2]);
}

#[test]
fn equal_fronts_group_by_key() {
    let items = vec![
        item(20, 1.0, true, 0),
        item(10, 1.0, true, 1),
        item(10, 1.0, true, 0),
        item(20, 0.0, true, 0),
    ];
    assert_eq!(order_opaque(&items), vec![2, 1, 0, 3]);
    // Equal depths keep their arrival order.
    assert_eq!(order_by_depth(&items), vec![3, 0, 1, 2]);
}

#[test]
fn opaque_items_share_a_batch_per_group() {
    let items = vec![
        item(10, 0.0, true, 0),
        item(20, 1.0, true, 0),
        item(10, 2.0, true, 0),
        item(20, 3.0, false, 0),
    ];
    let ranges = vec![
        Some(range(0, 3, 6)),
        Some(range(9, 6, 0)),
        Some(range(0, 3, 6)),
        Some(range(9, 6, 0)),
    ];
    let layout = lay_out(&items, &ranges);
    let batch = |indices: Span, base_vertex: i32, instances: Span| VectorBatch {
        indices,
        base_vertex,
        instances,
        layer: 0,
    };
    assert_eq!(
        layout.opaque_batches,
        vec![batch(span(0, 3), 0, span(0, 2)), batch(span(9, 15), 9, span(2, 3))]
    );
    // Fringes of items 0 and 2 are adjacent in depth; 1 and 3 have no fringe,
    // and only 3 blends its interior.
    assert_eq!(
        layout.blend_batches,
        vec![batch(span(3, 9), 0, span(3, 5)), batch(span(9, 15), 9, span(5, 6))]
    );
    assert_eq!(layout.permutation, vec![2, 0, 1, 0, 2, 3]);
}

#[test]
fn a_layer_change_splits_a_batch() {
    let items = vec![item(10, 0.0, false, 0), item(10, 1.0, false, 1), item(10, 2.0, false, 1)];
    let ranges = vec![Some(range(0, 3, 0)); 3];
    let layout = lay_out(&items, &ranges);
    assert!(layout.opaque_batches.is_empty());
    let found: Vec<(u16, u32, u32)> = layout
        .blend_batches
        .iter()
        .map(|b| (b.layer, b.instances.start, b.instances.end))
        .collect();
    assert_eq!(found, vec![(0, 0, 1), (1, 1, 3)]);
}

#[test]
fn items_without_geometry_draw_nothing() {
    let items = vec![item(10, 0.0, true, 0), item(11, 1.0, false, 0)];
    let layout = lay_out(&items, &vec![None, Some(range(0, 0, 0))]);
    assert!(layout.permutation.is_empty());
    assert!(layout.opaque_batches.is_empty() && layout.blend_batches.is_empty());
}

#[test]
fn every_part_is_drawn_once() {
    let items: Vec<ExtractedInstance> = (0..60u64)
        .map(|i| item(i * 7 % 5, (i * 11 % 17) as f32, i % 3 == 0, (i % 2) as u16))
        .collect();
    let ranges: Vec<Option<GeometryRange>> = items
        .iter()
        .map(|i| match i.geometry {
            GeometryRef::Cached(4) => None,
            GeometryRef::Cached(key) => Some(range(key as u32 * 20, 6, if key == 1 { 0 } else { 3 })),
            GeometryRef::Dynamic(r) => Some(r),
        })
        .collect();
    let layout = lay_out(&items, &ranges);
    let mut drawn: Vec<(u32, bool)> = Vec::new();
    let mut next = 0;
    for batch in layout.opaque_batches.iter().chain(&layout.blend_batches) {
        assert_eq!(batch.instances.start, next);
        next = batch.instances.end;
        for slot in batch.instances.start..batch.instances.end {
            let index = layout.permutation[slot as usize];
            let r = ranges[index as usize].unwrap();
            let fringe = batch.indices.start == r.fringe_first && r.fringe_count > 0;
            assert!(fringe || batch.indices == span(r.interior_first, r.interior_first + 6));
            assert_eq!(batch.layer, items[index as usize].layer);
            drawn.push((index, fringe));
        }
    }
    assert_eq!(next as usize, layout.permutation.len());
    drawn.sort();
    let mut expected = Vec::new();
    for (i, r) in ranges.iter().enumerate() {
        if let Some(r) = r {
            expected.push((i as u32, false));
            if r.fringe_count > 0 {
                expected.push((i as u32, true));
            }
        }
    }
    assert_eq!(drawn, expected);
}

#[test]
fn the_layout_ignores_colours_and_transforms() {
    let items = vec![item(10, 0.0, true, 0), item(20, 1.0, false, 0)];
    let ranges = vec![Some(range(0, 3, 3)), Some(range(6, 3, 3))];
    let mut painted = items.clone();
    painted[0].color = [1, 2, 3, 4];
    painted[1].translation = [s(50.0), s(-3.0)];
    let (a, b) = (lay_out(&items, &ranges), lay_out(&painted, &ranges));
    assert_eq!(a.permutation, b.permutation);
    assert_eq!(a.opaque_batches, b.opaque_batches);
    assert_eq!(a.blend_batches, b.blend_batches);
}
