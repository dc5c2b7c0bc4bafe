//! Batching: adjacent draws of the same geometry part become one instanced
//! draw.

use vstd::prelude::*;

use crate::order::{arranged, before, lemma_distinct_indices_fit};
use crate::render::cache::GeometryRange;
use crate::render::gpu::{GpuDrawIndexedIndirect, Span};
use crate::render::layout::{
    depth_order, depth_ranks, front_among, group_front, is_depth_order, is_opaque_order,
    lemma_depth_order_is_unique, lemma_opaque_order_is_unique, lemma_orders_exist, opaque_order,
    opaque_ranks, order_by_depth, order_opaque, ExtractedInstance, GeometryRef, GroupKey,
};
use crate::scalar::{
    both_zero, lemma_numbers_compare_along_the_line, lemma_total_lines_patterns_up, no_number,
    stands_before, Scalar,
};

verus! {

/// A turn of one instance: its interior, or its silhouette fringe.
#[derive(Clone, Copy, Debug, PartialEq, Eq, Structural)]
pub struct Visit {
    pub item: usize,
    pub fringe: bool,
}

/// A part of an instance that has triangles.
#[derive(Clone, Copy, Debug, PartialEq, Eq, Structural)]
pub struct DrawPart {
    pub item: usize,
    pub fringe: bool,
    pub key: GroupKey,
    pub indices: Span,
    pub base_vertex: i32,
    pub layer: u16,
}

/// One instanced draw.
#[derive(Clone, Copy, Debug, PartialEq, Eq, Structural)]
pub struct VectorBatch {
    pub indices: Span,
    pub base_vertex: i32,
    pub instances: Span,
    pub layer: u16,
}

/// The interiors of the opaque instances, in drawing order.
pub open spec fn opaque_visits(order: Seq<usize>) -> Seq<Visit> {
    order.map_values(|item: usize| Visit { item, fringe: false })
}

/// What blends, in the given order: a translucent instance contributes its
/// interior and then its fringe, an opaque one only its fringe.
pub open spec fn blend_visits(items: Seq<ExtractedInstance>, order: Seq<usize>) -> Seq<Visit>
    decreases order.len(),
{
    if order.len() == 0 {
        Seq::empty()
    } else {
        let earlier = blend_visits(items, order.drop_last());
        let item = order.last();
        if items[item as int].opaque {
            earlier.push(Visit { item, fringe: true })
        } else {
            earlier.push(Visit { item, fringe: false }).push(Visit { item, fringe: true })
        }
    }
}

/// First index and number of indices of a part.
pub open spec fn part_range(range: GeometryRange, fringe: bool) -> (u32, u32) {
    if fringe {
        (range.fringe_first, range.fringe_count)
    } else {
        (range.interior_first, range.interior_count)
    }
}

/// The visited part has geometry, and triangles in it.
pub open spec fn has_triangles(ranges: Seq<Option<GeometryRange>>, visit: Visit) -> bool {
    match ranges[visit.item as int] {
        None => false,
        Some(range) => part_range(range, visit.fringe).1 != 0,
    }
}

pub open spec fn part_of(
    items: Seq<ExtractedInstance>,
    ranges: Seq<Option<GeometryRange>>,
    visit: Visit,
) -> DrawPart {
    let range = ranges[visit.item as int]->0;
    let (first, count) = part_range(range, visit.fringe);
    DrawPart {
        item: visit.item,
        fringe: visit.fringe,
        key: items[visit.item as int].group(),
        indices: Span { start: first, end: (first + count) as u32 },
        base_vertex: range.base_vertex,
        layer: items[visit.item as int].layer,
    }
}

/// The visited parts that have triangles.
pub open spec fn parts(
    items: Seq<ExtractedInstance>,
    ranges: Seq<Option<GeometryRange>>,
    visits: Seq<Visit>,
) -> Seq<DrawPart>
    decreases visits.len(),
{
    if visits.len() == 0 {
        Seq::empty()
    } else {
        let earlier = parts(items, ranges, visits.drop_last());
        if has_triangles(ranges, visits.last()) {
            earlier.push(part_of(items, ranges, visits.last()))
        } else {
            earlier
        }
    }
}

/// Two parts that one instanced draw can cover.
pub open spec fn joins(a: DrawPart, b: DrawPart) -> bool {
    a.key == b.key && a.fringe == b.fringe
}

/// The draws for a sequence of parts whose instances start at `base`: a part
/// that joins the one before it lengthens that draw.
pub open spec fn batches(parts: Seq<DrawPart>, base: int) -> Seq<VectorBatch>
    decreases parts.len(),
{
    if parts.len() == 0 {
        Seq::empty()
    } else {
        let earlier = batches(parts.drop_last(), base);
        let part = parts.last();
        let at = base + parts.len() - 1;
        if parts.len() >= 2 && joins(parts[parts.len() - 2], part) {
            let open = earlier.last();
            earlier.drop_last().push(
                VectorBatch {
                    instances: Span { start: open.instances.start, end: (at + 1) as u32 },
                    ..open
                },
            )
        } else {
            earlier.push(
                VectorBatch {
                    indices: part.indices,
                    base_vertex: part.base_vertex,
                    instances: Span { start: at as u32, end: (at + 1) as u32 },
                    layer: part.layer,
                },
            )
        }
    }
}

/// The opaque parts in drawing order.
pub open spec fn opaque_parts(
    items: Seq<ExtractedInstance>,
    ranges: Seq<Option<GeometryRange>>,
) -> Seq<DrawPart> {
    parts(items, ranges, opaque_visits(opaque_order(items)))
}

/// The blended parts in drawing order.
pub open spec fn blend_parts(
    items: Seq<ExtractedInstance>,
    ranges: Seq<Option<GeometryRange>>,
) -> Seq<DrawPart> {
    parts(items, ranges, blend_visits(items, depth_order(items)))
}

pub open spec fn part_items(parts: Seq<DrawPart>) -> Seq<u32> {
    parts.map_values(|part: DrawPart| part.item as u32)
}

/// A frame's draw layout.
pub struct Layout {
    /// Index of the extracted instance for each instance slot, in draw order.
    pub permutation: Vec<u32>,
    pub opaque_batches: Vec<VectorBatch>,
    pub blend_batches: Vec<VectorBatch>,
}

/// The contents of a layout.
#[verifier::ext_equal]
pub struct LayoutView {
    pub permutation: Seq<u32>,
    pub opaque_batches: Seq<VectorBatch>,
    pub blend_batches: Seq<VectorBatch>,
}

impl View for Layout {
    type V = LayoutView;

    open spec fn view(&self) -> LayoutView {
        LayoutView {
            permutation: self.permutation@,
            opaque_batches: self.opaque_batches@,
            blend_batches: self.blend_batches@,
        }
    }
}

/// The layout of a set of instances whose geometry lies in the given ranges:
/// the opaque section first, the blended section behind it.
pub open spec fn layout_of(
    items: Seq<ExtractedInstance>,
    ranges: Seq<Option<GeometryRange>>,
) -> LayoutView {
    let opaque = opaque_parts(items, ranges);
    let blend = blend_parts(items, ranges);
    LayoutView {
        permutation: part_items(opaque) + part_items(blend),
        opaque_batches: batches(opaque, 0),
        blend_batches: batches(blend, opaque.len() as int),
    }
}

/// No draw runs backwards.
pub open spec fn forward_spans(list: Seq<VectorBatch>) -> bool {
    forall|k: int|
        0 <= k < list.len() ==> (#[trigger] list[k]).indices.start <= list[k].indices.end
            && list[k].instances.start < list[k].instances.end
}

/// The indirect arguments that draw one batch.
pub open spec fn indirect_of(batch: VectorBatch) -> GpuDrawIndexedIndirect {
    GpuDrawIndexedIndirect {
        index_count: (batch.indices.end - batch.indices.start) as u32,
        instance_count: (batch.instances.end - batch.instances.start) as u32,
        first_index: batch.indices.start,
        base_vertex: batch.base_vertex,
        first_instance: batch.instances.start,
    }
}

/// Every visit names an instance.
spec fn visits_fit(n: int, visits: Seq<Visit>) -> bool {
    forall|a: int| 0 <= a < visits.len() ==> (#[trigger] visits[a]).item < n
}

fn collect_parts(
    items: &Vec<ExtractedInstance>,
    ranges: &Vec<Option<GeometryRange>>,
    visits: &Vec<Visit>,
) -> (collected: Vec<DrawPart>)
    requires
        ranges@.len() == items@.len(),
        forall|i: int|
            0 <= i < ranges@.len() ==> (#[trigger] ranges@[i] matches Some(range) ==> range.fits()),
        visits_fit(items@.len() as int, visits@),
    ensures
        collected@ == parts(items@, ranges@, visits@),
        collected@.len() <= visits@.len(),
        forall|a: int|
            0 <= a < collected@.len() ==> (#[trigger] collected@[a]).indices.start
                <= collected@[a].indices.end && collected@[a].item < items@.len(),
{
    let mut collected: Vec<DrawPart> = Vec::new();
    let mut i: usize = 0;
    while i < visits.len()
        invariant
            ranges@.len() == items@.len(),
            forall|i: int|
                0 <= i < ranges@.len() ==> (#[trigger] ranges@[i] matches Some(range)
                    ==> range.fits()),
            visits_fit(items@.len() as int, visits@),
            i <= visits@.len(),
            collected@ == parts(items@, ranges@, visits@.take(i as int)),
            collected@.len() <= i,
            forall|a: int|
                0 <= a < collected@.len() ==> (#[trigger] collected@[a]).indices.start
                    <= collected@[a].indices.end && collected@[a].item < items@.len(),
        decreases visits@.len() - i,
    {
        let visit: Visit = visits[i];
        assert(visits@[i as int].item < items@.len());
        proof {
            assert(visits@.take(i + 1).drop_last() =~= visits@.take(i as int));
        }
        match ranges[visit.item] {
            None => {},
            Some(range) => {
                assert(ranges@[visit.item as int] matches Some(r) && r.fits());
                let (first, count): (u32, u32) = if visit.fringe {
                    (range.fringe_first, range.fringe_count)
                } else {
                    (range.interior_first, range.interior_count)
                };
                if count != 0 {
                    collected.push(
                        DrawPart {
                            item: visit.item,
                            fringe: visit.fringe,
                            key: items[visit.item].group_key(),
                            indices: Span { start: first, end: first + count },
                            base_vertex: range.base_vertex,
                            layer: items[visit.item].layer,
                        },
                    );
                }
            },
        }
        i = i + 1;
    }
    assert(visits@.take(visits@.len() as int) =~= visits@);
    collected
}

/// There is a draw as soon as there is a part, and the last draw ends behind
/// the last instance.
proof fn lemma_last_batch(parts: Seq<DrawPart>, base: int)
    requires
        parts.len() > 0,
    ensures
        batches(parts, base).len() > 0,
        batches(parts, base).last().instances.end == (base + parts.len()) as u32,
    decreases parts.len(),
{
    if parts.len() >= 2 {
        lemma_last_batch(parts.drop_last(), base);
    }
}

fn batch_parts(parts: &Vec<DrawPart>, base: u32) -> (result: Vec<VectorBatch>)
    requires
        base + parts@.len() <= u32::MAX,
    ensures
        result@ == batches(parts@, base as int),
{
    let mut result: Vec<VectorBatch> = Vec::new();
    let mut i: usize = 0;
    while i < parts.len()
        invariant
            base + parts@.len() <= u32::MAX,
            i <= parts@.len(),
            result@ == batches(parts@.take(i as int), base as int),
        decreases parts@.len() - i,
    {
        let part: DrawPart = parts[i];
        let at: u32 = base + i as u32;
        proof {
            assert(parts@.take(i + 1).drop_last() =~= parts@.take(i as int));
            if i > 0 {
                lemma_last_batch(parts@.take(i as int), base as int);
            }
        }
        if i > 0 && parts[i - 1].key == part.key && parts[i - 1].fringe == part.fringe {
            match result.pop() {
                Some(open) => {
                    result.push(
                        VectorBatch {
                            indices: open.indices,
                            base_vertex: open.base_vertex,
                            instances: Span { start: open.instances.start, end: at + 1 },
                            layer: open.layer,
                        },
                    );
                },
                None => {},
            }
        } else {
            result.push(
                VectorBatch {
                    indices: part.indices,
                    base_vertex: part.base_vertex,
                    instances: Span { start: at, end: at + 1 },
                    layer: part.layer,
                },
            );
        }
        i = i + 1;
    }
    assert(parts@.take(parts@.len() as int) =~= parts@);
    result
}

fn collect_opaque_visits(order: &Vec<usize>) -> (visits: Vec<Visit>)
    ensures
        visits@ == opaque_visits(order@),
{
    let mut visits: Vec<Visit> = Vec::with_capacity(order.len());
    let mut i: usize = 0;
    while i < order.len()
        invariant
            i <= order@.len(),
            visits@ == opaque_visits(order@).take(i as int),
        decreases order@.len() - i,
    {
        visits.push(Visit { item: order[i], fringe: false });
        assert(visits@ =~= opaque_visits(order@).take(i + 1));
        i = i + 1;
    }
    assert(visits@ =~= opaque_visits(order@));
    visits
}

/// The instances of an order that are translucent.
spec fn translucents(items: Seq<ExtractedInstance>, order: Seq<usize>) -> Seq<usize>
    decreases order.len(),
{
    if order.len() == 0 {
        Seq::empty()
    } else {
        let earlier = translucents(items, order.drop_last());
        if items[order.last() as int].opaque {
            earlier
        } else {
            earlier.push(order.last())
        }
    }
}

proof fn lemma_translucents(items: Seq<ExtractedInstance>, order: Seq<usize>)
    requires
        order.no_duplicates(),
    ensures
        translucents(items, order).no_duplicates(),
        forall|a: int|
            0 <= a < translucents(items, order).len() ==> order.contains(
                #[trigger] translucents(items, order)[a],
            ) && !items[translucents(items, order)[a] as int].opaque,
        blend_visits(items, order).len() == order.len() + translucents(items, order).len(),
        forall|a: int|
            0 <= a < blend_visits(items, order).len() ==> order.contains(
                (#[trigger] blend_visits(items, order)[a]).item,
            ),
    decreases order.len(),
{
    if order.len() > 0 {
        let rest = order.drop_last();
        lemma_translucents(items, rest);
        assert forall|x: usize| #[trigger] rest.contains(x) implies order.contains(x) && x
            != order.last() by {
            let a = choose|a: int| 0 <= a < rest.len() && rest[a] == x;
            assert(order[a] == x);
        }
        assert(order.contains(order.last()));
        let t = translucents(items, order);
        assert forall|a: int| 0 <= a < t.len() implies order.contains(#[trigger] t[a])
            && !items[t[a] as int].opaque by {
            if a < translucents(items, rest).len() {
                assert(t[a] == translucents(items, rest)[a]);
            }
        }
        let v = blend_visits(items, order);
        assert forall|a: int| 0 <= a < v.len() implies order.contains((#[trigger] v[a]).item) by {
            if a < blend_visits(items, rest).len() {
                assert(v[a] == blend_visits(items, rest)[a]);
            }
        }
    }
}

fn collect_blend_visits(items: &Vec<ExtractedInstance>, order: &Vec<usize>) -> (visits: Vec<Visit>)
    requires
        forall|a: int| 0 <= a < order@.len() ==> (#[trigger] order@[a]) < items@.len(),
    ensures
        visits@ == blend_visits(items@, order@),
{
    let mut visits: Vec<Visit> = Vec::new();
    let mut i: usize = 0;
    while i < order.len()
        invariant
            forall|a: int| 0 <= a < order@.len() ==> (#[trigger] order@[a]) < items@.len(),
            i <= order@.len(),
            visits@ == blend_visits(items@, order@.take(i as int)),
        decreases order@.len() - i,
    {
        let item: usize = order[i];
        proof {
            assert(order@.take(i + 1).drop_last() =~= order@.take(i as int));
        }
        if !items[item].opaque {
            visits.push(Visit { item, fringe: false });
        }
        visits.push(Visit { item, fringe: true });
        i = i + 1;
    }
    assert(order@.take(order@.len() as int) =~= order@);
    visits
}

/// An instance is visited at most twice.
proof fn lemma_visits_fit(
    items: Seq<ExtractedInstance>,
    opaque: Seq<usize>,
    depth: Seq<usize>,
)
    requires
        is_opaque_order(items, opaque),
        is_depth_order(items, depth),
        items.len() <= usize::MAX,
    ensures
        opaque_visits(opaque).len() + blend_visits(items, depth).len() <= 2 * items.len(),
        visits_fit(items.len() as int, opaque_visits(opaque)),
        visits_fit(items.len() as int, blend_visits(items, depth)),
{
    assert forall|a: int, b: int| 0 <= a < b < opaque.len() implies opaque[a] != opaque[b] by {
        assert(before(opaque_ranks(items), opaque[a], opaque[b]));
    }
    assert forall|a: int, b: int| 0 <= a < b < depth.len() implies depth[a] != depth[b] by {
        assert(before(depth_ranks(items), depth[a], depth[b]));
    }
    assert(depth.no_duplicates());
    lemma_translucents(items, depth);
    let clear = translucents(items, depth);
    let both = opaque + clear;
    assert forall|a: int| 0 <= a < both.len() implies (#[trigger] both[a]) < items.len() by {
        if a < opaque.len() {
            assert(opaque.contains(opaque[a]));
        } else {
            assert(depth.contains(clear[a - opaque.len()]));
        }
    }
    assert forall|a: int, b: int| 0 <= a < b < both.len() implies both[a] != both[b] by {
        if a < opaque.len() && b >= opaque.len() {
            assert(opaque.contains(opaque[a]));
            assert(!items[clear[b - opaque.len()] as int].opaque);
        }
    }
    assert(both.no_duplicates());
    lemma_distinct_indices_fit(both, items.len() as int);
    assert forall|a: int| 0 <= a < depth.len() implies (#[trigger] depth[a]) < items.len() by {
        assert(depth.contains(depth[a]));
    }
    lemma_distinct_indices_fit(depth, items.len() as int);
    assert forall|a: int| 0 <= a < opaque_visits(opaque).len() implies (
    #[trigger] opaque_visits(opaque)[a]).item < items.len() by {
        assert(opaque.contains(opaque[a]));
    }
}

fn collect_items(opaque: &Vec<DrawPart>, blend: &Vec<DrawPart>) -> (permutation: Vec<u32>)
    ensures
        permutation@ == part_items(opaque@) + part_items(blend@),
{
    let ghost all = part_items(opaque@) + part_items(blend@);
    let mut permutation: Vec<u32> = Vec::new();
    let mut i: usize = 0;
    while i < opaque.len()
        invariant
            all == part_items(opaque@) + part_items(blend@),
            i <= opaque@.len(),
            permutation@ == all.take(i as int),
        decreases opaque@.len() - i,
    {
        permutation.push(opaque[i].item as u32);
        assert(permutation@ =~= all.take(i + 1));
        i = i + 1;
    }
    let mut j: usize = 0;
    while j < blend.len()
        invariant
            all == part_items(opaque@) + part_items(blend@),
            j <= blend@.len(),
            permutation@ == all.take(opaque@.len() + j),
        decreases blend@.len() - j,
    {
        permutation.push(blend[j].item as u32);
        assert(permutation@ =~= all.take(opaque@.len() + j + 1));
        j = j + 1;
    }
    assert(permutation@ =~= all);
    permutation
}

/// Sorts and batches a frame's instances.
pub fn lay_out(items: &Vec<ExtractedInstance>, ranges: &Vec<Option<GeometryRange>>) -> (layout:
    Layout)
    requires
        ranges@.len() == items@.len(),
        items@.len() <= 0x7fff_ffff,
        forall|i: int|
            0 <= i < ranges@.len() ==> (#[trigger] ranges@[i] matches Some(range) ==> range.fits()),
    ensures
        layout@ == layout_of(items@, ranges@),
        layout.permutation@.len() <= 2 * items@.len(),
        forall|a: int|
            0 <= a < layout.permutation@.len() ==> (#[trigger] layout.permutation@[a])
                < items@.len(),
        forward_spans(layout.opaque_batches@),
        forward_spans(layout.blend_batches@),
        layout.opaque_batches@.len() + layout.blend_batches@.len() <= layout.permutation@.len(),
{
    let opaque_sorted: Vec<usize> = order_opaque(items);
    let depth_sorted: Vec<usize> = order_by_depth(items);
    proof {
        lemma_visits_fit(items@, opaque_sorted@, depth_sorted@);
        assert forall|a: int| 0 <= a < depth_sorted@.len() implies (#[trigger] depth_sorted@[a])
            < items@.len() by {
            assert(depth_sorted@.contains(depth_sorted@[a]));
        }
    }
    let opaque_turns: Vec<Visit> = collect_opaque_visits(&opaque_sorted);
    let blend_turns: Vec<Visit> = collect_blend_visits(items, &depth_sorted);
    let opaque: Vec<DrawPart> = collect_parts(items, ranges, &opaque_turns);
    let blend: Vec<DrawPart> = collect_parts(items, ranges, &blend_turns);
    let layout = Layout {
        permutation: collect_items(&opaque, &blend),
        opaque_batches: batch_parts(&opaque, 0),
        blend_batches: batch_parts(&blend, opaque.len() as u32),
    };
    proof {
        assert(layout@ =~= layout_of(items@, ranges@));
        lemma_batches_are_forward(opaque@, 0);
        lemma_batches_are_forward(blend@, opaque@.len() as int);
        assert forall|a: int| 0 <= a < layout.permutation@.len() implies (
        #[trigger] layout.permutation@[a]) < items@.len() by {
            if a < opaque@.len() {
                assert(opaque@[a].item < items@.len());
            } else {
                assert(blend@[a - opaque@.len()].item < items@.len());
            }
        }
    }
    layout
}

/// The draws cover the instance slots from `from` to `to`, one after the
/// other, and none is empty.
pub open spec fn tiles(list: Seq<VectorBatch>, from: int, to: int) -> bool {
    &&& from == to ==> list.len() == 0
    &&& from != to ==> list.len() > 0 && list[0].instances.start == from
        && list.last().instances.end == to
    &&& forall|k: int|
        0 <= k < list.len() ==> from <= (#[trigger] list[k]).instances.start
            < list[k].instances.end <= to
    &&& forall|k: int, m: int|
        0 <= k && m == k + 1 && m < list.len() ==> (#[trigger] list[k]).instances.end == (
        #[trigger] list[m]).instances.start
}

/// A draw uses the geometry of the part in its first slot, and every other
/// part in it joins that one.
pub open spec fn homogeneous(list: Seq<VectorBatch>, parts: Seq<DrawPart>, base: int) -> bool {
    forall|k: int, slot: int|
        0 <= k < list.len() && list[k].instances.start <= slot < list[k].instances.end ==> {
            let first = parts[list[k].instances.start - base];
            &&& (#[trigger] list[k]).indices == first.indices
            &&& list[k].base_vertex == first.base_vertex
            &&& list[k].layer == first.layer
            &&& joins(first, #[trigger] parts[slot - base])
        }
}

/// No two neighbouring draws could have been one.
pub open spec fn maximal(list: Seq<VectorBatch>, parts: Seq<DrawPart>, base: int) -> bool {
    forall|k: int|
        0 <= k < list.len() - 1 ==> !joins(
            parts[(#[trigger] list[k]).instances.end - base - 1],
            parts[list[k].instances.end - base],
        )
}

/// Draws cover every instance slot exactly once and in order, each draw is of
/// one geometry part and one layer mask, and draws are as long as they can be.
pub proof fn lemma_batches_partition_the_parts(parts: Seq<DrawPart>, base: int)
    requires
        0 <= base,
        base + parts.len() <= u32::MAX,
    ensures
        tiles(batches(parts, base), base, base + parts.len()),
        homogeneous(batches(parts, base), parts, base),
        maximal(batches(parts, base), parts, base),
    decreases parts.len(),
{
    if parts.len() > 0 {
        let rest = parts.drop_last();
        lemma_batches_partition_the_parts(rest, base);
        let earlier = batches(rest, base);
        let list = batches(parts, base);
        let last = parts.len() - 1;
        if rest.len() > 0 {
            assert(earlier.last().instances.end == base + rest.len());
        }
        if parts.len() >= 2 && joins(parts[last - 1], parts[last]) {
            let open = earlier.last();
            let n = list.len() - 1;
            assert(open == earlier[n]);
            assert(list[n].instances.start == open.instances.start);
            assert(joins(rest[open.instances.start - base], rest[(base + last - 1) - base]));
            assert forall|k: int, slot: int|
                0 <= k < list.len() && list[k].instances.start <= slot < list[k].instances.end implies {
                let first = parts[list[k].instances.start - base];
                &&& (#[trigger] list[k]).indices == first.indices
                &&& list[k].base_vertex == first.base_vertex
                &&& list[k].layer == first.layer
                &&& joins(first, #[trigger] parts[slot - base])
            } by {
                if slot < base + last {
                    assert(earlier[k].instances.start <= slot < earlier[k].instances.end);
                    assert(rest[slot - base] == parts[slot - base]);
                    assert(joins(rest[earlier[k].instances.start - base], rest[slot - base]));
                } else if k < n {
                    assert(earlier[k].instances.end <= base + rest.len());
                }
            }
            assert forall|k: int| 0 <= k < list.len() - 1 implies !joins(
                parts[(#[trigger] list[k]).instances.end - base - 1],
                parts[list[k].instances.end - base],
            ) by {
                assert(list[k] == earlier[k]);
                assert(earlier[k].instances.end == earlier[k + 1].instances.start);
            }
        } else {
            let n = list.len() - 1;
            assert forall|k: int, slot: int|
                0 <= k < list.len() && list[k].instances.start <= slot < list[k].instances.end implies {
                let first = parts[list[k].instances.start - base];
                &&& (#[trigger] list[k]).indices == first.indices
                &&& list[k].base_vertex == first.base_vertex
                &&& list[k].layer == first.layer
                &&& joins(first, #[trigger] parts[slot - base])
            } by {
                if k < n {
                    assert(list[k] == earlier[k]);
                    assert(earlier[k].instances.end <= base + rest.len());
                    assert(rest[slot - base] == parts[slot - base]);
                    assert(joins(rest[earlier[k].instances.start - base], rest[slot - base]));
                }
            }
            assert forall|k: int| 0 <= k < list.len() - 1 implies !joins(
                parts[(#[trigger] list[k]).instances.end - base - 1],
                parts[list[k].instances.end - base],
            ) by {
                assert(list[k] == earlier[k]);
                if k < n - 1 {
                    assert(earlier[k].instances.end == earlier[k + 1].instances.start);
                }
            }
        }
    }
}

/// The turn that a part came from.
pub open spec fn visit_of(part: DrawPart) -> Visit {
    Visit { item: part.item, fringe: part.fringe }
}

/// Parts are the visits with triangles, in the order of the visits: whatever
/// holds between an earlier and a later visit holds between an earlier and a
/// later part.
proof fn lemma_parts_keep(
    items: Seq<ExtractedInstance>,
    ranges: Seq<Option<GeometryRange>>,
    visits: Seq<Visit>,
    rel: spec_fn(Visit, Visit) -> bool,
)
    requires
        forall|a: int, b: int|
            0 <= a < b < visits.len() ==> rel(#[trigger] visits[a], #[trigger] visits[b]),
    ensures
        forall|a: int, b: int|
            0 <= a < b < parts(items, ranges, visits).len() ==> rel(
                visit_of(#[trigger] parts(items, ranges, visits)[a]),
                visit_of(#[trigger] parts(items, ranges, visits)[b]),
            ),
        forall|a: int|
            0 <= a < parts(items, ranges, visits).len() ==> {
                let part = #[trigger] parts(items, ranges, visits)[a];
                &&& visits.contains(visit_of(part))
                &&& has_triangles(ranges, visit_of(part))
                &&& part == part_of(items, ranges, visit_of(part))
            },
        forall|visit: Visit| #[trigger]
            visits.contains(visit) && has_triangles(ranges, visit) ==> parts(
                items,
                ranges,
                visits,
            ).contains(part_of(items, ranges, visit)),
    decreases visits.len(),
{
    if visits.len() > 0 {
        let rest = visits.drop_last();
        let last = visits.last();
        assert forall|a: int, b: int| 0 <= a < b < rest.len() implies rel(
            #[trigger] rest[a],
            #[trigger] rest[b],
        ) by {
            assert(rel(visits[a], visits[b]));
        }
        lemma_parts_keep(items, ranges, rest, rel);
        let earlier = parts(items, ranges, rest);
        let whole = parts(items, ranges, visits);
        assert forall|visit: Visit| #[trigger] visits.contains(visit) <==> rest.contains(visit)
            || visit == last by {
            if visits.contains(visit) {
                let k = choose|k: int| 0 <= k < visits.len() && visits[k] == visit;
                if k < rest.len() {
                    assert(rest[k] == visit);
                }
            }
            if rest.contains(visit) {
                let k = choose|k: int| 0 <= k < rest.len() && rest[k] == visit;
                assert(visits[k] == visit);
            }
            assert(visits[visits.len() - 1] == last);
        }
        assert forall|a: int| 0 <= a < whole.len() implies {
            let part = #[trigger] whole[a];
            &&& visits.contains(visit_of(part))
            &&& has_triangles(ranges, visit_of(part))
            &&& part == part_of(items, ranges, visit_of(part))
        } by {
            if a < earlier.len() {
                assert(whole[a] == earlier[a]);
                assert(rest.contains(visit_of(earlier[a])));
            } else {
                assert(visit_of(whole[a]) == last);
                assert(visits.contains(last));
            }
        }
        assert forall|a: int, b: int| 0 <= a < b < whole.len() implies rel(
            visit_of(#[trigger] whole[a]),
            visit_of(#[trigger] whole[b]),
        ) by {
            assert(whole[a] == earlier[a]);
            if b < earlier.len() {
                assert(whole[b] == earlier[b]);
            } else {
                assert(rest.contains(visit_of(earlier[a])));
                let k = choose|k: int| 0 <= k < rest.len() && rest[k] == visit_of(earlier[a]);
                assert(rel(visits[k], visits[visits.len() - 1]));
                assert(visit_of(whole[b]) == last);
            }
        }
        assert forall|visit: Visit| #[trigger]
            visits.contains(visit) && has_triangles(ranges, visit) implies whole.contains(
            part_of(items, ranges, visit),
        ) by {
            if visit == last {
                assert(whole[earlier.len() as int] == part_of(items, ranges, visit));
            } else {
                assert(rest.contains(visit));
                let part = part_of(items, ranges, visit);
                let k = choose|k: int| 0 <= k < earlier.len() && earlier[k] == part;
                assert(whole[k] == part);
            }
        }
    }
}

/// There are no more draws than parts, and none runs backwards.
proof fn lemma_batches_are_forward(parts: Seq<DrawPart>, base: int)
    requires
        0 <= base,
        base + parts.len() <= u32::MAX,
        forall|a: int|
            0 <= a < parts.len() ==> (#[trigger] parts[a]).indices.start <= parts[a].indices.end,
    ensures
        forward_spans(batches(parts, base)),
        batches(parts, base).len() <= parts.len(),
    decreases parts.len(),
{
    lemma_batches_partition_the_parts(parts, base);
    let list = batches(parts, base);
    assert forall|k: int| 0 <= k < list.len() implies (#[trigger] list[k]).indices.start
        <= list[k].indices.end && list[k].instances.start < list[k].instances.end by {
        let slot = list[k].instances.start as int;
        assert(joins(parts[slot - base], parts[slot - base]));
    }
    if parts.len() > 0 {
        let rest = parts.drop_last();
        assert(forall|a: int| 0 <= a < rest.len() ==> rest[a] == parts[a]);
        lemma_batches_are_forward(rest, base);
    }
}

/// An earlier blended turn is farther back, or the interior of the instance
/// whose fringe comes later.
pub open spec fn blends_before(items: Seq<ExtractedInstance>, a: Visit, b: Visit) -> bool {
    ||| a.item == b.item && !a.fringe && b.fringe
    ||| before(depth_ranks(items), a.item, b.item)
}

proof fn lemma_blend_visits_order(items: Seq<ExtractedInstance>, order: Seq<usize>)
    requires
        arranged(depth_ranks(items), order),
    ensures
        forall|a: int, b: int|
            0 <= a < b < blend_visits(items, order).len() ==> blends_before(
                items,
                #[trigger] blend_visits(items, order)[a],
                #[trigger] blend_visits(items, order)[b],
            ),
        forall|visit: Visit| #[trigger]
            blend_visits(items, order).contains(visit) <==> order.contains(visit.item) && (
            visit.fringe || !items[visit.item as int].opaque),
    decreases order.len(),
{
    if order.len() > 0 {
        let rest = order.drop_last();
        let item = order.last();
        assert forall|a: int, b: int| 0 <= a < b < rest.len() implies before(
            depth_ranks(items),
            #[trigger] rest[a],
            #[trigger] rest[b],
        ) by {
            assert(before(depth_ranks(items), order[a], order[b]));
        }
        lemma_blend_visits_order(items, rest);
        let earlier = blend_visits(items, rest);
        let whole = blend_visits(items, order);
        assert forall|x: usize| #[trigger] order.contains(x) <==> rest.contains(x) || x == item by {
            if order.contains(x) {
                let k = choose|k: int| 0 <= k < order.len() && order[k] == x;
                if k < rest.len() {
                    assert(rest[k] == x);
                }
            }
            if rest.contains(x) {
                let k = choose|k: int| 0 <= k < rest.len() && rest[k] == x;
                assert(order[k] == x);
            }
            assert(order[order.len() - 1] == item);
        }
        assert forall|a: int, b: int| 0 <= a < b < whole.len() implies blends_before(
            items,
            #[trigger] whole[a],
            #[trigger] whole[b],
        ) by {
            if b < earlier.len() {
                assert(whole[a] == earlier[a] && whole[b] == earlier[b]);
            } else if a < earlier.len() {
                assert(whole[a] == earlier[a]);
                assert(earlier.contains(earlier[a]));
                let k = choose|k: int| 0 <= k < rest.len() && rest[k] == earlier[a].item;
                assert(before(depth_ranks(items), order[k], order[order.len() - 1]));
                assert(whole[b].item == item);
            }
        }
        assert forall|visit: Visit| #[trigger]
            whole.contains(visit) <==> order.contains(visit.item) && (visit.fringe
                || !items[visit.item as int].opaque) by {
            if earlier.contains(visit) {
                let k = choose|k: int| 0 <= k < earlier.len() && earlier[k] == visit;
                assert(whole[k] == visit);
            }
            if visit.item == item && (visit.fringe || !items[item as int].opaque) {
                if visit.fringe {
                    assert(whole[whole.len() - 1] == visit);
                } else {
                    assert(whole[earlier.len() as int] == visit);
                }
            }
            if whole.contains(visit) {
                let k = choose|k: int| 0 <= k < whole.len() && whole[k] == visit;
                if k < earlier.len() {
                    assert(earlier[k] == visit);
                }
            }
        }
    }
}

proof fn lemma_opaque_visits_order(items: Seq<ExtractedInstance>, order: Seq<usize>)
    requires
        arranged(opaque_ranks(items), order),
    ensures
        forall|a: int, b: int|
            0 <= a < b < opaque_visits(order).len() ==> before(
                opaque_ranks(items),
                (#[trigger] opaque_visits(order)[a]).item,
                (#[trigger] opaque_visits(order)[b]).item,
            ),
        forall|visit: Visit| #[trigger]
            opaque_visits(order).contains(visit) <==> order.contains(visit.item) && !visit.fringe,
{
    assert forall|a: int, b: int| 0 <= a < b < opaque_visits(order).len() implies before(
        opaque_ranks(items),
        (#[trigger] opaque_visits(order)[a]).item,
        (#[trigger] opaque_visits(order)[b]).item,
    ) by {
        assert(before(opaque_ranks(items), order[a], order[b]));
    }
    assert forall|visit: Visit| #[trigger]
        opaque_visits(order).contains(visit) <==> order.contains(visit.item) && !visit.fringe by {
        if order.contains(visit.item) && !visit.fringe {
            let k = choose|k: int| 0 <= k < order.len() && order[k] == visit.item;
            assert(opaque_visits(order)[k] == visit);
        }
        if opaque_visits(order).contains(visit) {
            let k = choose|k: int|
                0 <= k < opaque_visits(order).len() && opaque_visits(order)[k] == visit;
            assert(order[k] == visit.item);
        }
    }
}

/// What is drawn, and in which order.
///
/// The opaque section holds the interior of each opaque instance that has
/// interior triangles; the blended section holds the interior of each
/// translucent instance and the fringe of every instance, where they have
/// triangles. Nothing is drawn twice. Blended parts go from the back to the
/// front, an instance's interior before its fringe; opaque parts go by group,
/// the nearest group first and the nearest member of a group first.
pub proof fn lemma_every_part_is_drawn_once(
    items: Seq<ExtractedInstance>,
    ranges: Seq<Option<GeometryRange>>,
)
    requires
        items.len() <= usize::MAX,
    ensures
        forall|a: int|
            0 <= a < opaque_parts(items, ranges).len() ==> {
                let part = #[trigger] opaque_parts(items, ranges)[a];
                &&& part.item < items.len() && items[part.item as int].opaque && !part.fringe
                &&& has_triangles(ranges, visit_of(part))
                &&& part == part_of(items, ranges, visit_of(part))
            },
        forall|visit: Visit|
            visit.item < items.len() && items[visit.item as int].opaque && !visit.fringe
                && #[trigger] has_triangles(ranges, visit) ==> opaque_parts(items, ranges).contains(
                part_of(items, ranges, visit),
            ),
        forall|a: int, b: int|
            0 <= a < b < opaque_parts(items, ranges).len() ==> before(
                opaque_ranks(items),
                (#[trigger] opaque_parts(items, ranges)[a]).item,
                (#[trigger] opaque_parts(items, ranges)[b]).item,
            ),
        forall|a: int|
            0 <= a < blend_parts(items, ranges).len() ==> {
                let part = #[trigger] blend_parts(items, ranges)[a];
                &&& part.item < items.len() && (part.fringe || !items[part.item as int].opaque)
                &&& has_triangles(ranges, visit_of(part))
                &&& part == part_of(items, ranges, visit_of(part))
            },
        forall|visit: Visit|
            visit.item < items.len() && (visit.fringe || !items[visit.item as int].opaque)
                && #[trigger] has_triangles(ranges, visit) ==> blend_parts(items, ranges).contains(
                part_of(items, ranges, visit),
            ),
        forall|a: int, b: int|
            0 <= a < b < blend_parts(items, ranges).len() ==> blends_before(
                items,
                visit_of(#[trigger] blend_parts(items, ranges)[a]),
                visit_of(#[trigger] blend_parts(items, ranges)[b]),
            ),
{
    lemma_orders_exist(items);
    let opaque = opaque_order(items);
    let depth = depth_order(items);
    lemma_opaque_visits_order(items, opaque);
    lemma_blend_visits_order(items, depth);
    let front = opaque_visits(opaque);
    let back = blend_visits(items, depth);
    let by_rank = |a: Visit, b: Visit| before(opaque_ranks(items), a.item, b.item);
    assert forall|a: int, b: int| 0 <= a < b < front.len() implies by_rank(
        #[trigger] front[a],
        #[trigger] front[b],
    ) by {}
    lemma_parts_keep(items, ranges, front, by_rank);
    let by_depth = |a: Visit, b: Visit| blends_before(items, a, b);
    assert forall|a: int, b: int| 0 <= a < b < back.len() implies by_depth(
        #[trigger] back[a],
        #[trigger] back[b],
    ) by {}
    lemma_parts_keep(items, ranges, back, by_depth);
    let o = opaque_parts(items, ranges);
    let t = blend_parts(items, ranges);
    assert forall|a: int, b: int| 0 <= a < b < o.len() implies before(
        opaque_ranks(items),
        (#[trigger] o[a]).item,
        (#[trigger] o[b]).item,
    ) by {
        assert(by_rank(visit_of(o[a]), visit_of(o[b])));
    }
    assert forall|a: int, b: int| 0 <= a < b < t.len() implies blends_before(
        items,
        visit_of(#[trigger] t[a]),
        visit_of(#[trigger] t[b]),
    ) by {
        assert(by_depth(visit_of(t[a]), visit_of(t[b])));
    }
    assert forall|visit: Visit|
        visit.item < items.len() && items[visit.item as int].opaque && !visit.fringe
            && #[trigger] has_triangles(ranges, visit) implies o.contains(
        part_of(items, ranges, visit),
    ) by {
        assert(opaque.contains(visit.item));
        assert(front.contains(visit));
    }
    assert forall|visit: Visit|
        visit.item < items.len() && (visit.fringe || !items[visit.item as int].opaque)
            && #[trigger] has_triangles(ranges, visit) implies t.contains(
        part_of(items, ranges, visit),
    ) by {
        assert(depth.contains(visit.item));
        assert(back.contains(visit));
    }
}

proof fn lemma_at_most_one_part_per_visit(
    items: Seq<ExtractedInstance>,
    ranges: Seq<Option<GeometryRange>>,
    visits: Seq<Visit>,
)
    ensures
        parts(items, ranges, visits).len() <= visits.len(),
    decreases visits.len(),
{
    if visits.len() > 0 {
        lemma_at_most_one_part_per_visit(items, ranges, visits.drop_last());
    }
}

/// There are at most two parts to an instance.
pub proof fn lemma_parts_fit(items: Seq<ExtractedInstance>, ranges: Seq<Option<GeometryRange>>)
    requires
        items.len() <= usize::MAX,
    ensures
        opaque_parts(items, ranges).len() + blend_parts(items, ranges).len() <= 2 * items.len(),
{
    lemma_orders_exist(items);
    let (opaque, depth) = (opaque_order(items), depth_order(items));
    lemma_visits_fit(items, opaque, depth);
    lemma_at_most_one_part_per_visit(items, ranges, opaque_visits(opaque));
    lemma_at_most_one_part_per_visit(items, ranges, blend_visits(items, depth));
}

/// The instances of this one's group have their geometry in one place.
pub open spec fn in_one_place(
    items: Seq<ExtractedInstance>,
    ranges: Seq<Option<GeometryRange>>,
    i: int,
) -> bool {
    forall|j: int|
        0 <= j < items.len() && (#[trigger] items[j]).group() == items[i].group() ==> ranges[j]
            == ranges[i]
}

/// A draw covers this slot and uses exactly the part's geometry and layer.
pub open spec fn draws(batch: VectorBatch, slot: int, part: DrawPart) -> bool {
    &&& batch.instances.start <= slot < batch.instances.end
    &&& batch.indices == part.indices
    &&& batch.base_vertex == part.base_vertex
    &&& batch.layer == part.layer
}

/// Sharing a draw never gives an instance another instance's geometry or
/// layer: a slot whose group has its geometry in one place is drawn with the
/// indices of its own part.
#[verifier::rlimit(40)]
pub proof fn lemma_slots_draw_their_own_geometry(
    items: Seq<ExtractedInstance>,
    ranges: Seq<Option<GeometryRange>>,
)
    requires
        items.len() <= 0x7fff_ffff,
    ensures
        forall|k: int, slot: int|
            0 <= k < layout_of(items, ranges).opaque_batches.len() && layout_of(
                items,
                ranges,
            ).opaque_batches[k].instances.start <= slot < layout_of(
                items,
                ranges,
            ).opaque_batches[k].instances.end && in_one_place(
                items,
                ranges,
                opaque_parts(items, ranges)[slot].item as int,
            ) ==> draws(
                #[trigger] layout_of(items, ranges).opaque_batches[k],
                slot,
                #[trigger] opaque_parts(items, ranges)[slot],
            ),
        forall|k: int, slot: int|
            0 <= k < layout_of(items, ranges).blend_batches.len() && layout_of(
                items,
                ranges,
            ).blend_batches[k].instances.start <= slot < layout_of(
                items,
                ranges,
            ).blend_batches[k].instances.end && in_one_place(
                items,
                ranges,
                blend_parts(items, ranges)[slot - opaque_parts(items, ranges).len()].item as int,
            ) ==> draws(
                #[trigger] layout_of(items, ranges).blend_batches[k],
                slot,
                #[trigger] blend_parts(items, ranges)[slot - opaque_parts(items, ranges).len()],
            ),
{
    lemma_every_part_is_drawn_once(items, ranges);
    lemma_parts_fit(items, ranges);
    let o = opaque_parts(items, ranges);
    let t = blend_parts(items, ranges);
    lemma_batches_partition_the_parts(o, 0);
    lemma_batches_partition_the_parts(t, o.len() as int);
    let ol = batches(o, 0);
    assert forall|k: int, slot: int|
        0 <= k < ol.len() && ol[k].instances.start <= slot < ol[k].instances.end && in_one_place(
            items,
            ranges,
            o[slot].item as int,
        ) implies draws(#[trigger] ol[k], slot, #[trigger] o[slot]) by {
        let first = ol[k].instances.start as int;
        assert(joins(o[first - 0], o[slot - 0]));
        assert(items[o[first].item as int].group() == items[o[slot].item as int].group());
    }
    let tl = batches(t, o.len() as int);
    assert forall|k: int, slot: int|
        0 <= k < tl.len() && tl[k].instances.start <= slot < tl[k].instances.end && in_one_place(
            items,
            ranges,
            t[slot - o.len()].item as int,
        ) implies draws(#[trigger] tl[k], slot, #[trigger] t[slot - o.len()]) by {
        let first = tl[k].instances.start - o.len();
        assert(joins(t[first], t[slot - o.len()]));
        assert(items[t[first].item as int].group() == items[t[slot - o.len()].item as int].group());
    }
}

/// Every group of opaque instances is one draw: two opaque draws are of
/// different groups, and the group drawn first has the nearer front.
#[verifier::rlimit(40)]
pub proof fn lemma_opaque_groups_are_single_batches(
    items: Seq<ExtractedInstance>,
    ranges: Seq<Option<GeometryRange>>,
)
    requires
        items.len() <= 0x7fff_ffff,
    ensures
        forall|k: int, m: int|
            0 <= k < m < layout_of(items, ranges).opaque_batches.len() ==> {
                let a = opaque_parts(items, ranges)[(#[trigger] layout_of(
                    items,
                    ranges,
                ).opaque_batches[k]).instances.start as int];
                let b = opaque_parts(items, ranges)[(#[trigger] layout_of(
                    items,
                    ranges,
                ).opaque_batches[m]).instances.start as int];
                &&& a.key != b.key
                &&& group_front(items, a.key).total() >= group_front(items, b.key).total()
            },
{
    lemma_every_part_is_drawn_once(items, ranges);
    lemma_parts_fit(items, ranges);
    let o = opaque_parts(items, ranges);
    let ranks = opaque_ranks(items);
    lemma_batches_partition_the_parts(o, 0);
    let list = batches(o, 0);
    assert forall|k: int, m: int| 0 <= k < m < list.len() implies {
        let a = o[(#[trigger] list[k]).instances.start as int];
        let b = o[(#[trigger] list[m]).instances.start as int];
        &&& a.key != b.key
        &&& group_front(items, a.key).total() >= group_front(items, b.key).total()
    } by {
        let end = list[k].instances.end as int;
        let from = list[k].instances.start as int;
        let to = list[m].instances.start as int;
        assert(list[k].instances.end == list[k + 1].instances.start);
        lemma_starts_ascend(list, 0, o.len() as int, k + 1, m);
        assert(!joins(o[end - 0 - 1], o[end - 0]));
        assert(joins(o[from - 0], o[(end - 1) - 0]));
        assert(o[from].key == o[end - 1].key);
        assert(o[end - 1].key != o[end].key);
        let (p, q, r) = (o[from].item as int, o[end].item as int, o[to].item as int);
        assert(before(ranks, o[from].item, o[end].item));
        if end < to {
            assert(before(ranks, o[end].item, o[to].item));
        }
        assert(o[from].key == items[p].group());
        assert(o[end].key == items[q].group());
        assert(o[to].key == items[r].group());
        lemma_total_range(group_front(items, items[p].group()));
        lemma_total_range(group_front(items, items[q].group()));
        lemma_total_range(group_front(items, items[r].group()));
    }
}

proof fn lemma_total_range(z: Scalar)
    ensures
        0 <= z.total() <= 0xffff_ffff,
{
}

proof fn lemma_starts_ascend(list: Seq<VectorBatch>, from: int, to: int, k: int, m: int)
    requires
        tiles(list, from, to),
        0 <= k <= m < list.len(),
    ensures
        list[k].instances.start <= list[m].instances.start,
    decreases m - k,
{
    if k < m {
        lemma_starts_ascend(list, from, to, k, m - 1);
        assert(list[m - 1].instances.end == list[m].instances.start);
    }
}

/// Two sets of instances that a layout cannot tell apart.
pub open spec fn same_layout_inputs(a: Seq<ExtractedInstance>, b: Seq<ExtractedInstance>) -> bool {
    &&& a.len() == b.len()
    &&& forall|i: int|
        0 <= i < a.len() ==> (#[trigger] a[i]).group() == b[i].group() && a[i].z == b[i].z
            && a[i].opaque == b[i].opaque
}

proof fn lemma_same_fronts(
    a: Seq<ExtractedInstance>,
    b: Seq<ExtractedInstance>,
    n: int,
    key: GroupKey,
)
    requires
        same_layout_inputs(a, b),
        n <= a.len(),
    ensures
        front_among(a, n, key) == front_among(b, n, key),
    decreases n,
{
    if n > 0 {
        lemma_same_fronts(a, b, n - 1, key);
        assert(a[n - 1].group() == b[n - 1].group());
    }
}

proof fn lemma_same_blend_visits(
    a: Seq<ExtractedInstance>,
    b: Seq<ExtractedInstance>,
    order: Seq<usize>,
)
    requires
        same_layout_inputs(a, b),
        forall|k: int| 0 <= k < order.len() ==> (#[trigger] order[k]) < a.len(),
    ensures
        blend_visits(a, order) == blend_visits(b, order),
    decreases order.len(),
{
    if order.len() > 0 {
        let rest = order.drop_last();
        assert(forall|k: int| 0 <= k < rest.len() ==> rest[k] == order[k]);
        lemma_same_blend_visits(a, b, rest);
        assert(order[order.len() - 1] < a.len());
        assert(a[order.last() as int].opaque == b[order.last() as int].opaque);
    }
}

proof fn lemma_same_parts(
    a: Seq<ExtractedInstance>,
    b: Seq<ExtractedInstance>,
    ranges: Seq<Option<GeometryRange>>,
    visits: Seq<Visit>,
)
    requires
        same_layout_inputs(a, b),
        visits_fit(a.len() as int, visits),
    ensures
        parts(a, ranges, visits) == parts(b, ranges, visits),
    decreases visits.len(),
{
    if visits.len() > 0 {
        let rest = visits.drop_last();
        assert(forall|k: int| 0 <= k < rest.len() ==> rest[k] == visits[k]);
        lemma_same_parts(a, b, ranges, rest);
        assert(visits[visits.len() - 1].item < a.len());
        let i = visits.last().item as int;
        assert(a[i].group() == b[i].group());
        assert(a[i].layer == a[i].group().layer && b[i].layer == b[i].group().layer);
    }
}

/// The layout depends on nothing but group, depth and opacity of the
/// instances and on where their geometry lies: transforms, colours, brushes
/// and clips may change under it.
pub proof fn lemma_layout_depends_on_structure_alone(
    a: Seq<ExtractedInstance>,
    b: Seq<ExtractedInstance>,
    ranges: Seq<Option<GeometryRange>>,
)
    requires
        same_layout_inputs(a, b),
        a.len() <= usize::MAX,
    ensures
        layout_of(a, ranges) == layout_of(b, ranges),
{
    lemma_orders_exist(a);
    lemma_orders_exist(b);
    assert forall|key: GroupKey| #[trigger] group_front(a, key) == group_front(b, key) by {
        lemma_same_fronts(a, b, a.len() as int, key);
    }
    assert(opaque_ranks(a) =~= opaque_ranks(b)) by {
        assert forall|i: int| 0 <= i < a.len() implies opaque_ranks(a)[i] == opaque_ranks(b)[i] by {
            assert(a[i].group() == b[i].group());
            assert(group_front(a, a[i].group()) == group_front(b, a[i].group()));
        }
    }
    assert(depth_ranks(a) =~= depth_ranks(b)) by {
        assert forall|i: int| 0 <= i < a.len() implies depth_ranks(a)[i] == depth_ranks(b)[i] by {
            assert(a[i].group() == b[i].group());
        }
    }
    assert(is_opaque_order(a, opaque_order(b))) by {
        let order = opaque_order(b);
        assert forall|i: usize| #[trigger] order.contains(i) <==> i < a.len()
            && a[i as int].opaque by {
            if i < a.len() {
                assert(a[i as int].group() == b[i as int].group());
            }
        }
    }
    lemma_opaque_order_is_unique(a, opaque_order(b));
    lemma_depth_order_is_unique(a, depth_order(b));
    let depth = depth_order(a);
    let opaque = opaque_order(a);
    assert forall|k: int| 0 <= k < depth.len() implies (#[trigger] depth[k]) < a.len() by {
        assert(depth.contains(depth[k]));
    }
    lemma_same_blend_visits(a, b, depth);
    lemma_visits_fit(a, opaque, depth);
    lemma_same_parts(a, b, ranges, opaque_visits(opaque));
    lemma_same_parts(a, b, ranges, blend_visits(a, depth));
}


/// Two instances that may share a draw: the same triangles, shown to the same
/// views.
pub open spec fn shareable(a: ExtractedInstance, b: ExtractedInstance) -> bool {
    &&& a.layer == b.layer
    &&& match (a.geometry, b.geometry) {
        (GeometryRef::Cached(k), GeometryRef::Cached(l)) => k == l,
        (GeometryRef::Dynamic(k), GeometryRef::Dynamic(l)) => k.interior_first == l.interior_first
            && k.base_vertex == l.base_vertex,
        _ => false,
    }
}

/// The instance has triangles in this part.
pub open spec fn has_turn(
    items: Seq<ExtractedInstance>,
    ranges: Seq<Option<GeometryRange>>,
    turn: Visit,
) -> bool {
    &&& turn.item < items.len()
    &&& ranges[turn.item as int] matches Some(range)
    &&& if turn.fringe {
        range.fringe_count > 0
    } else {
        range.interior_count > 0
    }
}

/// The slots up to `split` are the interiors of the opaque instances, those
/// behind it all other parts: every part that has triangles is there once, and
/// nothing else is.
pub open spec fn takes_turns(
    items: Seq<ExtractedInstance>,
    ranges: Seq<Option<GeometryRange>>,
    permutation: Seq<u32>,
    turns: Seq<Visit>,
    split: int,
) -> bool {
    &&& turns.len() == permutation.len()
    &&& 0 <= split <= turns.len()
    &&& forall|a: int|
        0 <= a < turns.len() ==> has_turn(items, ranges, #[trigger] turns[a]) && permutation[a]
            == turns[a].item && (a < split <==> items[turns[a].item as int].opaque
            && !turns[a].fringe)
    &&& forall|turn: Visit| #[trigger] has_turn(items, ranges, turn) ==> turns.contains(turn)
    &&& turns.no_duplicates()
}

/// What blends goes from the back to the front; at one depth it goes in the
/// given order, and an instance's interior goes before its fringe.
pub open spec fn back_to_front(
    items: Seq<ExtractedInstance>,
    turns: Seq<Visit>,
    split: int,
) -> bool {
    forall|a: int, b: int|
        split <= a < b < turns.len() ==> {
            let (i, j) = ((#[trigger] turns[a]).item as int, (#[trigger] turns[b]).item as int);
            ||| i == j && !turns[a].fringe && turns[b].fringe
            ||| stands_before(items[i].z, items[j].z)
            ||| items[i].z == items[j].z && i < j
        }
}

/// This opaque instance is in front of, or as near as, every opaque instance
/// that may share a draw with the other one.
pub open spec fn leads(items: Seq<ExtractedInstance>, m: int, j: int) -> bool {
    forall|n: int|
        0 <= n < items.len() && (#[trigger] items[n]).opaque && shareable(items[n], items[j])
            ==> !stands_before(items[m].z, items[n].z) || both_zero(items[m].z, items[n].z)
}

/// Some opaque instance that may share a draw with the first one leads all that
/// may share a draw with the second one.
pub open spec fn led(items: Seq<ExtractedInstance>, i: int, j: int) -> bool {
    exists|m: int|
        0 <= m < items.len() && items[m].opaque && shareable(items[m], items[i])
            && #[trigger] leads(items, m, j)
}

/// Opaque instances that may share a draw stand side by side, the nearest of
/// them first; of two such groups the one whose nearest member is nearer stands
/// first.
pub open spec fn nearest_first(
    items: Seq<ExtractedInstance>,
    turns: Seq<Visit>,
    split: int,
) -> bool {
    &&& forall|a: int, b: int|
        0 <= a < b < split ==> {
            let (i, j) = ((#[trigger] turns[a]).item as int, (#[trigger] turns[b]).item as int);
            shareable(items[i], items[j]) ==> {
                ||| stands_before(items[j].z, items[i].z)
                ||| items[i].z == items[j].z && i < j
            }
        }
    &&& forall|a: int, b: int, c: int|
        0 <= a < b < c < split && shareable(
            items[(#[trigger] turns[a]).item as int],
            items[(#[trigger] turns[c]).item as int],
        ) ==> shareable(
            items[turns[a].item as int],
            items[(#[trigger] turns[b]).item as int],
        )
    &&& (forall|n: int| 0 <= n < items.len() ==> !no_number((#[trigger] items[n]).z)) ==> forall|
        a: int,
        b: int,
    |
        0 <= a < b < split ==> led(
            items,
            (#[trigger] turns[a]).item as int,
            (#[trigger] turns[b]).item as int,
        )
}

/// The draw covers this slot with exactly the triangles of its own part, for
/// the views of its own layer.
pub open spec fn draws_turn(
    batch: VectorBatch,
    slot: int,
    range: GeometryRange,
    fringe: bool,
    layer: u16,
) -> bool {
    &&& batch.instances.start <= slot < batch.instances.end
    &&& batch.layer == layer
    &&& batch.base_vertex == range.base_vertex
    &&& fringe ==> batch.indices.start == range.fringe_first && batch.indices.end
        == range.fringe_first + range.fringe_count
    &&& !fringe ==> batch.indices.start == range.interior_first && batch.indices.end
        == range.interior_first + range.interior_count
}

proof fn lemma_groups_are_shareable(a: ExtractedInstance, b: ExtractedInstance)
    ensures
        a.group() == b.group() <==> shareable(a, b),
{
    match (a.geometry, b.geometry) {
        (GeometryRef::Dynamic(k), GeometryRef::Dynamic(l)) => {
            let (x, y) = (k.base_vertex, l.base_vertex);
            assert((x as u32) == (y as u32) ==> x == y) by (bit_vector);
        },
        _ => {},
    }
}

proof fn lemma_front_leads(items: Seq<ExtractedInstance>, n: int, key: GroupKey)
    requires
        0 <= n <= items.len(),
        forall|m: int| 0 <= m < items.len() ==> !no_number((#[trigger] items[m]).z),
    ensures
        front_among(items, n, key) matches Some(front) ==> !no_number(front) && exists|m: int|
            0 <= m < n && (#[trigger] items[m]).opaque && items[m].group() == key && items[m].z
                == front,
        front_among(items, n, key) is None ==> forall|m: int|
            0 <= m < n && (#[trigger] items[m]).opaque ==> items[m].group() != key,
        front_among(items, n, key) matches Some(front) ==> forall|m: int|
            0 <= m < n && (#[trigger] items[m]).opaque && items[m].group() == key ==> items[m].z.le(
                front,
            ),
    decreases n,
{
    if n > 0 {
        lemma_front_leads(items, n - 1, key);
        let item = items[n - 1];
        if item.opaque && item.group() == key {
            match front_among(items, n - 1, key) {
                None => {
                    lemma_numbers_compare_along_the_line(item.z, item.z);
                },
                Some(front) => {
                    let m = choose|m: int|
                        0 <= m < n - 1 && (#[trigger] items[m]).opaque && items[m].group() == key
                            && items[m].z == front;
                    lemma_numbers_compare_along_the_line(front, item.z);
                    lemma_numbers_compare_along_the_line(item.z, front);
                    assert(items[n - 1].opaque);
                },
            }
        }
    }
}


/// What each slot is for.
spec fn turns_of(items: Seq<ExtractedInstance>, ranges: Seq<Option<GeometryRange>>) -> Seq<Visit> {
    (opaque_parts(items, ranges) + blend_parts(items, ranges)).map_values(
        |part: DrawPart| visit_of(part),
    )
}

#[verifier::rlimit(40)]
proof fn lemma_turns_are_taken(items: Seq<ExtractedInstance>, ranges: Seq<Option<GeometryRange>>)
    requires
        items.len() <= 0x7fff_ffff,
        ranges.len() == items.len(),
    ensures
        takes_turns(
            items,
            ranges,
            layout_of(items, ranges).permutation,
            turns_of(items, ranges),
            opaque_parts(items, ranges).len() as int,
        ),
        back_to_front(items, turns_of(items, ranges), opaque_parts(items, ranges).len() as int),
{
    lemma_every_part_is_drawn_once(items, ranges);
    let o = opaque_parts(items, ranges);
    let t = blend_parts(items, ranges);
    let turns = turns_of(items, ranges);
    let split = o.len() as int;
    let permutation = layout_of(items, ranges).permutation;
    assert forall|a: int| 0 <= a < turns.len() implies has_turn(items, ranges, #[trigger] turns[a])
        && permutation[a] == turns[a].item && (a < split <==> items[turns[a].item as int].opaque
        && !turns[a].fringe) by {
        if a < split {
            assert(turns[a] == visit_of(o[a]));
            assert(permutation[a] == o[a].item as u32);
        } else {
            assert(turns[a] == visit_of(t[a - split]));
            assert(permutation[a] == t[a - split].item as u32);
        }
    }
    assert forall|turn: Visit| #[trigger] has_turn(items, ranges, turn) implies turns.contains(
        turn,
    ) by {
        assert(has_triangles(ranges, turn));
        let part = part_of(items, ranges, turn);
        assert(visit_of(part) == turn);
        if items[turn.item as int].opaque && !turn.fringe {
            let k = choose|k: int| 0 <= k < o.len() && o[k] == part;
            assert(turns[k] == turn);
        } else {
            assert(t.contains(part));
            let k = choose|k: int| 0 <= k < t.len() && t[k] == part;
            assert(turns[split + k] == turn);
        }
    }
    assert forall|a: int, b: int| split <= a < b < turns.len() implies {
        let (i, j) = ((#[trigger] turns[a]).item as int, (#[trigger] turns[b]).item as int);
        ||| i == j && !turns[a].fringe && turns[b].fringe
        ||| stands_before(items[i].z, items[j].z)
        ||| items[i].z == items[j].z && i < j
    } by {
        let (x, y) = (t[a - split], t[b - split]);
        assert(turns[a] == visit_of(x) && turns[b] == visit_of(y));
        let (i, j) = (x.item as int, y.item as int);
        assert(blends_before(items, visit_of(x), visit_of(y)));
        lemma_total_lines_patterns_up(items[i].z, items[j].z);
    }
    assert forall|a: int, b: int| 0 <= a < b < turns.len() implies turns[a] != turns[b] by {
        if b < split {
            assert(turns[a] == visit_of(o[a]) && turns[b] == visit_of(o[b]));
            assert(before(opaque_ranks(items), o[a].item, o[b].item));
        } else if a >= split {
            assert(turns[a] == visit_of(t[a - split]) && turns[b] == visit_of(t[b - split]));
            assert(blends_before(items, turns[a], turns[b]));
        }
    }
}

#[verifier::rlimit(40)]
proof fn lemma_the_nearest_is_first(
    items: Seq<ExtractedInstance>,
    ranges: Seq<Option<GeometryRange>>,
)
    requires
        items.len() <= 0x7fff_ffff,
        ranges.len() == items.len(),
    ensures
        nearest_first(items, turns_of(items, ranges), opaque_parts(items, ranges).len() as int),
{
    lemma_every_part_is_drawn_once(items, ranges);
    let o = opaque_parts(items, ranges);
    let turns = turns_of(items, ranges);
    let split = o.len() as int;
    let ranks = opaque_ranks(items);
    assert forall|a: int, b: int| 0 <= a < b < split implies {
        let (i, j) = ((#[trigger] turns[a]).item as int, (#[trigger] turns[b]).item as int);
        shareable(items[i], items[j]) ==> {
            ||| stands_before(items[j].z, items[i].z)
            ||| items[i].z == items[j].z && i < j
        }
    } by {
        assert(turns[a] == visit_of(o[a]) && turns[b] == visit_of(o[b]));
        let (i, j) = (o[a].item as int, o[b].item as int);
        assert(before(ranks, o[a].item, o[b].item));
        lemma_groups_are_shareable(items[i], items[j]);
        lemma_total_lines_patterns_up(items[j].z, items[i].z);
        lemma_total_lines_patterns_up(items[i].z, items[j].z);
    }
    assert forall|a: int, b: int, c: int|
        0 <= a < b < c < split && shareable(
            items[(#[trigger] turns[a]).item as int],
            items[(#[trigger] turns[c]).item as int],
        ) implies shareable(
        items[turns[a].item as int],
        items[(#[trigger] turns[b]).item as int],
    ) by {
        assert(turns[a] == visit_of(o[a]) && turns[b] == visit_of(o[b]) && turns[c] == visit_of(
            o[c],
        ));
        let (i, j, l) = (o[a].item as int, o[b].item as int, o[c].item as int);
        assert(before(ranks, o[a].item, o[b].item));
        assert(before(ranks, o[b].item, o[c].item));
        lemma_groups_are_shareable(items[i], items[l]);
        lemma_groups_are_shareable(items[i], items[j]);
        let (x, y, z) = (
            group_front(items, items[i].group()),
            group_front(items, items[j].group()),
            group_front(items, items[l].group()),
        );
        lemma_total_lines_patterns_up(x, y);
        lemma_total_lines_patterns_up(y, z);
    }
    if forall|n: int| 0 <= n < items.len() ==> !no_number((#[trigger] items[n]).z) {
        assert forall|a: int, b: int| 0 <= a < b < split implies led(
            items,
            (#[trigger] turns[a]).item as int,
            (#[trigger] turns[b]).item as int,
        ) by {
            assert(turns[a] == visit_of(o[a]) && turns[b] == visit_of(o[b]));
            let (i, j) = (o[a].item as int, o[b].item as int);
            assert(before(ranks, o[a].item, o[b].item));
            assert(items[i].opaque && items[j].opaque);
            lemma_front_leads(items, items.len() as int, items[i].group());
            lemma_front_leads(items, items.len() as int, items[j].group());
            let (x, y) = (
                group_front(items, items[i].group()),
                group_front(items, items[j].group()),
            );
            lemma_total_lines_patterns_up(x, y);
            lemma_total_lines_patterns_up(y, x);
            let m = choose|m: int|
                0 <= m < items.len() && (#[trigger] items[m]).opaque && items[m].group()
                    == items[i].group() && items[m].z == x;
            lemma_groups_are_shareable(items[m], items[i]);
            assert forall|n: int|
                0 <= n < items.len() && (#[trigger] items[n]).opaque && shareable(
                    items[n],
                    items[j],
                ) implies !stands_before(items[m].z, items[n].z) || both_zero(
                items[m].z,
                items[n].z,
            ) by {
                lemma_groups_are_shareable(items[n], items[j]);
                assert(items[n].z.le(y));
                lemma_numbers_compare_along_the_line(items[n].z, y);
                lemma_total_lines_patterns_up(x, items[n].z);
                lemma_total_lines_patterns_up(y, items[n].z);
            }
            assert(leads(items, m, j));
        }
    }
}

proof fn lemma_tiled_slot(list: Seq<VectorBatch>, from: int, to: int, slot: int) -> (k: int)
    requires
        tiles(list, from, to),
        from <= slot < to,
    ensures
        0 <= k < list.len(),
        list[k].instances.start <= slot < list[k].instances.end,
    decreases list.len(),
{
    let n = list.len() - 1;
    assert(list[n] == list.last());
    if list[n].instances.start <= slot {
        n
    } else {
        let rest = list.drop_last();
        assert(n > 0);
        assert(list[n - 1].instances.end == list[n].instances.start);
        lemma_spans_follow(list, from, to);
        assert(rest.last() == list[n - 1]);
        assert(tiles(rest, from, list[n].instances.start as int));
        lemma_tiled_slot(rest, from, list[n].instances.start as int, slot)
    }
}

/// How a frame is drawn.
///
/// Every part of an instance that has triangles has exactly one slot, the
/// interiors of opaque instances in front and everything else behind them. What
/// blends goes from the back to the front, in the given order at one depth; the
/// opaque interiors go by what may share a draw, the nearest first. Each slot is
/// drawn with its own instance's triangles and for its own instance's layer,
/// wherever the instances that may share its draw have their triangles in one
/// place.
#[verifier::rlimit(40)]
pub proof fn lemma_frames_blend_back_to_front(
    items: Seq<ExtractedInstance>,
    ranges: Seq<Option<GeometryRange>>,
    layout: LayoutView,
)
    requires
        items.len() <= 0x7fff_ffff,
        ranges.len() == items.len(),
        forall|i: int|
            0 <= i < ranges.len() ==> (#[trigger] ranges[i] matches Some(range) ==> range.fits()),
        layout == layout_of(items, ranges),
    ensures
        exists|turns: Seq<Visit>, split: int|
            {
                &&& #[trigger] takes_turns(items, ranges, layout.permutation, turns, split)
                &&& back_to_front(items, turns, split)
                &&& nearest_first(items, turns, split)
                &&& forall|slot: int| 0 <= slot < turns.len() ==> drawn_as_its_own(
                    items,
                    ranges,
                    if slot < split {
                        layout.opaque_batches
                    } else {
                        layout.blend_batches
                    },
                    #[trigger] turns[slot],
                    slot,
                )
                &&& spans_follow(layout.opaque_batches, 0, split)
                &&& spans_follow(layout.blend_batches, split, turns.len() as int)
            },
{
    let o = opaque_parts(items, ranges);
    let t = blend_parts(items, ranges);
    let turns = turns_of(items, ranges);
    let split = o.len() as int;
    lemma_turns_are_taken(items, ranges);
    lemma_the_nearest_is_first(items, ranges);
    lemma_every_part_is_drawn_once(items, ranges);
    lemma_parts_fit(items, ranges);
    lemma_batches_partition_the_parts(o, 0);
    lemma_batches_partition_the_parts(t, split);
    lemma_slots_draw_their_own_geometry(items, ranges);
    lemma_spans_follow(layout.opaque_batches, 0, split);
    lemma_spans_follow(layout.blend_batches, split, turns.len() as int);
    assert forall|slot: int| 0 <= slot < turns.len() implies drawn_as_its_own(
        items,
        ranges,
        if slot < split {
            layout.opaque_batches
        } else {
            layout.blend_batches
        },
        #[trigger] turns[slot],
        slot,
    ) by {
        let turn = turns[slot];
        let i = turn.item as int;
        assert(has_turn(items, ranges, turn));
        let kept = forall|j: int|
            0 <= j < items.len() && shareable(#[trigger] items[j], items[i]) ==> ranges[j]
                == ranges[i];
        if kept {
            assert forall|j: int|
                0 <= j < items.len() && (#[trigger] items[j]).group()
                    == items[i].group() implies ranges[j] == ranges[i] by {
                lemma_groups_are_shareable(items[j], items[i]);
            }
            assert(in_one_place(items, ranges, i));
            if slot < split {
                assert(turn == visit_of(o[slot]));
                let k = lemma_tiled_slot(layout.opaque_batches, 0, split, slot);
                assert(draws(layout.opaque_batches[k], slot, o[slot]));
                assert(draws_turn(
                    layout.opaque_batches[k],
                    slot,
                    ranges[i]->0,
                    turn.fringe,
                    items[i].layer,
                ));
            } else {
                let part = t[slot - o.len()];
                assert(turn == visit_of(part));
                let k = lemma_tiled_slot(layout.blend_batches, split, turns.len() as int, slot);
                assert(draws(layout.blend_batches[k], slot, part));
                assert(draws_turn(
                    layout.blend_batches[k],
                    slot,
                    ranges[i]->0,
                    turn.fringe,
                    items[i].layer,
                ));
            }
        }
    }
}

/// Some draw of the list draws this slot as the turn wants it, wherever the
/// instances that may share the draw have their triangles in one place.
pub open spec fn drawn_as_its_own(
    items: Seq<ExtractedInstance>,
    ranges: Seq<Option<GeometryRange>>,
    list: Seq<VectorBatch>,
    turn: Visit,
    slot: int,
) -> bool {
    let i = turn.item as int;
    (forall|j: int|
        0 <= j < items.len() && shareable(#[trigger] items[j], items[i]) ==> ranges[j]
            == ranges[i]) ==> exists|k: int|
        0 <= k < list.len() && draws_turn(
            #[trigger] list[k],
            slot,
            ranges[i]->0,
            turn.fringe,
            items[i].layer,
        )
}

/// The draws take slots one behind the other, between these two.
pub open spec fn spans_follow(list: Seq<VectorBatch>, from: int, to: int) -> bool {
    &&& forall|k: int|
        0 <= k < list.len() ==> from <= (#[trigger] list[k]).instances.start
            && list[k].instances.end <= to
    &&& forall|k: int, m: int|
        0 <= k < m < list.len() ==> (#[trigger] list[k]).instances.end <= (
        #[trigger] list[m]).instances.start
}

proof fn lemma_spans_follow(list: Seq<VectorBatch>, from: int, to: int)
    requires
        tiles(list, from, to),
    ensures
        spans_follow(list, from, to),
{
    assert forall|k: int, m: int| 0 <= k < m < list.len() implies (#[trigger] list[k]).instances.end
        <= (#[trigger] list[m]).instances.start by {
        assert(list[k].instances.end == list[k + 1].instances.start);
        lemma_starts_ascend(list, from, to, k + 1, m);
    }
}

} // verus!
