//! Parametric primitives: per-frame instance lists over a mesh that is built
//! once, sorted into an opaque and a translucent section and split into runs
//! of one layer mask.

use vstd::prelude::*;

use crate::order::{
    before, lemma_ordered_is_rearranged, lemma_ordered_members, lemma_whole_order, ordered,
    rearranged, sort_items, whole_order, Rank,
};
use crate::render::gpu::{GpuParamInstance, Span, PARAM_INSTANCE_BYTES};
use crate::render::prepare::{decide_upload, upload_of, Upload};
use crate::scalar::{lemma_total_lines_patterns_up, stands_before, Scalar};

verus! {

/// One parametric primitive to draw this frame.
#[derive(Clone, Copy, Debug, PartialEq, Eq)]
pub struct ParamItem {
    pub z: Scalar,
    pub linear: [Scalar; 4],
    pub translation: [Scalar; 2],
    pub color: [u8; 4],
    pub params: [Scalar; 4],
    pub opaque: bool,
    pub clip: Scalar,
    pub layer: u16,
}

/// Neighbouring instances of one layer mask, so that a view can skip them
/// together.
#[derive(Clone, Copy, Debug, PartialEq, Eq, Structural)]
pub struct LayerRun {
    pub span: Span,
    pub layer: u16,
}

/// The instance record of a primitive.
pub open spec fn param_instance_of(item: ParamItem) -> GpuParamInstance {
    GpuParamInstance {
        linear: item.linear,
        translation_z: [item.translation@[0], item.translation@[1], item.z, item.clip],
        color: item.color,
        params: item.params,
    }
}

/// Drawing order: opaque primitives first, by layer and then by depth, to keep
/// the layer runs few; translucent ones strictly from the back to the front.
pub open spec fn param_ranks(items: Seq<ParamItem>) -> Seq<Rank> {
    Seq::new(
        items.len(),
        |i: int|
            Rank {
                first: if items[i].opaque { 0 } else { 1 },
                second: if items[i].opaque { items[i].layer as u64 } else { 0 },
                third: items[i].z.total() as u64,
                fourth: 0,
                fifth: 0,
            },
    )
}

/// The primitives in drawing order.
pub open spec fn param_sorted(items: Seq<ParamItem>) -> Seq<ParamItem> {
    ordered(items, param_ranks(items))
}

/// The layer runs of a sequence of primitives: one that has the layer of the
/// one before it lengthens that run.
pub open spec fn layer_runs(items: Seq<ParamItem>) -> Seq<LayerRun>
    decreases items.len(),
{
    if items.len() == 0 {
        Seq::empty()
    } else {
        let earlier = layer_runs(items.drop_last());
        let layer = items.last().layer;
        let at = items.len() - 1;
        if items.len() >= 2 && items[items.len() - 2].layer == layer {
            earlier.drop_last().push(
                LayerRun { span: Span { start: earlier.last().span.start, end: (at + 1) as u32 }, layer },
            )
        } else {
            earlier.push(LayerRun { span: Span { start: at as u32, end: (at + 1) as u32 }, layer })
        }
    }
}

pub open spec fn count_opaque(items: Seq<ParamItem>) -> nat
    decreases items.len(),
{
    if items.len() == 0 {
        0
    } else {
        count_opaque(items.drop_last()) + if items.last().opaque {
            1nat
        } else {
            0nat
        }
    }
}

fn sort_params(items: &Vec<ParamItem>) -> (sorted: Vec<ParamItem>)
    ensures
        sorted@ == param_sorted(items@),
        sorted@.len() == items@.len(),
{
    let mut ranks: Vec<Rank> = Vec::with_capacity(items.len());
    let mut i: usize = 0;
    while i < items.len()
        invariant
            i <= items@.len(),
            ranks@ == param_ranks(items@).take(i as int),
        decreases items@.len() - i,
    {
        let opaque: bool = items[i].opaque;
        let rank: Rank = Rank {
            first: if opaque { 0 } else { 1 },
            second: if opaque { items[i].layer as u64 } else { 0 },
            third: items[i].z.total_key() as u64,
            fourth: 0,
            fifth: 0,
        };
        ranks.push(rank);
        assert(ranks@ =~= param_ranks(items@).take(i + 1));
        i = i + 1;
    }
    assert(ranks@ =~= param_ranks(items@));
    sort_items(items, &ranks)
}

proof fn lemma_last_run(items: Seq<ParamItem>)
    requires
        items.len() > 0,
    ensures
        layer_runs(items).len() > 0,
        layer_runs(items).last().layer == items.last().layer,
    decreases items.len(),
{
    if items.len() >= 2 {
        lemma_last_run(items.drop_last());
    }
}

fn collect_runs(items: &Vec<ParamItem>) -> (runs: Vec<LayerRun>)
    requires
        items@.len() <= u32::MAX,
    ensures
        runs@ == layer_runs(items@),
{
    let mut runs: Vec<LayerRun> = Vec::new();
    let mut i: usize = 0;
    while i < items.len()
        invariant
            items@.len() <= u32::MAX,
            i <= items@.len(),
            runs@ == layer_runs(items@.take(i as int)),
        decreases items@.len() - i,
    {
        let layer: u16 = items[i].layer;
        proof {
            assert(items@.take(i + 1).drop_last() =~= items@.take(i as int));
            if i > 0 {
                lemma_last_run(items@.take(i as int));
            }
        }
        let end: u32 = (i + 1) as u32;
        let mut start: u32 = i as u32;
        if runs.len() > 0 && runs[runs.len() - 1].layer == layer {
            start = runs[runs.len() - 1].span.start;
            runs.pop();
        }
        runs.push(LayerRun { span: Span { start, end }, layer });
        i = i + 1;
    }
    assert(items@.take(items@.len() as int) =~= items@);
    runs
}

fn collect_instances(items: &Vec<ParamItem>) -> (instances: Vec<GpuParamInstance>)
    ensures
        instances@ == items@.map_values(|item: ParamItem| param_instance_of(item)),
{
    let ghost all = items@.map_values(|item: ParamItem| param_instance_of(item));
    let mut instances: Vec<GpuParamInstance> = Vec::with_capacity(items.len());
    let mut i: usize = 0;
    while i < items.len()
        invariant
            all == items@.map_values(|item: ParamItem| param_instance_of(item)),
            i <= items@.len(),
            instances@ == all.take(i as int),
        decreases items@.len() - i,
    {
        let item: ParamItem = items[i];
        let instance = GpuParamInstance {
            linear: item.linear,
            translation_z: [item.translation[0], item.translation[1], item.z, item.clip],
            color: item.color,
            params: item.params,
        };
        instances.push(instance);
        proof {
            assert(instance.translation_z@ =~= param_instance_of(item).translation_z@);
            assert(instances@ =~= all.take(i + 1));
        }
        i = i + 1;
    }
    assert(instances@ =~= all);
    instances
}

fn opaque_total(items: &Vec<ParamItem>) -> (count: u32)
    requires
        items@.len() <= u32::MAX,
    ensures
        count == count_opaque(items@),
{
    let mut count: u32 = 0;
    let mut i: usize = 0;
    while i < items.len()
        invariant
            items@.len() <= u32::MAX,
            i <= items@.len(),
            count <= i,
            count == count_opaque(items@.take(i as int)),
        decreases items@.len() - i,
    {
        assert(items@.take(i + 1).drop_last() =~= items@.take(i as int));
        if items[i].opaque {
            count = count + 1;
        }
        i = i + 1;
    }
    assert(items@.take(items@.len() as int) =~= items@);
    count
}

/// The frame's parametric instance records, and what becomes of the buffers.
pub struct ParamUpload {
    /// The mesh that all instances share is built now.
    pub build_mesh: bool,
    pub instances: Vec<GpuParamInstance>,
    pub instance_upload: Upload,
}

/// State of one kind of parametric primitive across frames.
pub struct ParamBuffers {
    /// The mesh that all instances share is on the GPU.
    pub has_mesh: bool,
    /// The instance buffer exists.
    pub has_instance: bool,
    /// Bytes the instance buffer can hold.
    pub instance_capacity: u64,
    pub opaque_count: u32,
    pub total_count: u32,
    pub layer_runs: Vec<LayerRun>,
}

impl ParamBuffers {
    pub fn new() -> (buffers: ParamBuffers)
        ensures
            !buffers.has_mesh && !buffers.has_instance,
            buffers.instance_capacity == 0 && buffers.opaque_count == 0 && buffers.total_count == 0,
            buffers.layer_runs@ == Seq::<LayerRun>::empty(),
    {
        ParamBuffers {
            has_mesh: false,
            has_instance: false,
            instance_capacity: 0,
            opaque_count: 0,
            total_count: 0,
            layer_runs: Vec::new(),
        }
    }

    /// Sorts the frame's primitives and says what to upload. Without any, the
    /// counts and runs are reset and nothing else changes.
    pub fn prepare(&mut self, items: &mut Vec<ParamItem>) -> (frame: ParamUpload)
        requires
            old(items)@.len() <= u32::MAX,
        ensures
            old(items)@.len() == 0 ==> {
                &&& final(items)@ == old(items)@
                &&& final(self).total_count == 0 && final(self).opaque_count == 0
                &&& final(self).layer_runs@ == Seq::<LayerRun>::empty()
                &&& final(self).has_mesh == old(self).has_mesh
                &&& final(self).has_instance == old(self).has_instance
                &&& final(self).instance_capacity == old(self).instance_capacity
                &&& !frame.build_mesh
                &&& frame.instances@ == Seq::<GpuParamInstance>::empty()
                &&& frame.instance_upload == Upload::Keep
            },
            old(items)@.len() > 0 ==> {
                let sorted = param_sorted(old(items)@);
                let bytes = old(items)@.len() * PARAM_INSTANCE_BYTES;
                &&& final(items)@ == sorted
                &&& final(self).total_count == old(items)@.len()
                &&& final(self).opaque_count == count_opaque(sorted)
                &&& final(self).layer_runs@ == layer_runs(sorted)
                &&& final(self).has_mesh && final(self).has_instance
                &&& frame.build_mesh == !old(self).has_mesh
                &&& frame.instances@ == sorted.map_values(
                    |item: ParamItem| param_instance_of(item),
                )
                &&& frame.instance_upload == upload_of(
                    old(self).has_instance,
                    old(self).instance_capacity as int,
                    bytes,
                )
                &&& final(self).instance_capacity == (if frame.instance_upload == Upload::Create {
                    bytes
                } else {
                    old(self).instance_capacity as int
                })
            },
    {
        if items.len() == 0 {
            self.total_count = 0;
            self.opaque_count = 0;
            self.layer_runs = Vec::new();
            return ParamUpload {
                build_mesh: false,
                instances: Vec::new(),
                instance_upload: Upload::Keep,
            };
        }
        let build_mesh: bool = !self.has_mesh;
        self.has_mesh = true;
        let sorted: Vec<ParamItem> = sort_params(items);
        self.layer_runs = collect_runs(&sorted);
        let instances: Vec<GpuParamInstance> = collect_instances(&sorted);
        self.total_count = instances.len() as u32;
        self.opaque_count = opaque_total(&sorted);
        let bytes: u64 = instances.len() as u64 * PARAM_INSTANCE_BYTES;
        let instance_upload: Upload = decide_upload(
            self.has_instance,
            self.instance_capacity,
            bytes,
        );
        if instance_upload == Upload::Create {
            self.has_instance = true;
            self.instance_capacity = bytes;
        }
        *items = sorted;
        ParamUpload { build_mesh, instances, instance_upload }
    }
}

/// Runs cover the primitives from first to last, none is empty, each is of one
/// layer, and no two neighbouring runs could have been one.
pub open spec fn runs_partition(runs: Seq<LayerRun>, items: Seq<ParamItem>) -> bool {
    &&& items.len() == 0 ==> runs.len() == 0
    &&& items.len() > 0 ==> runs.len() > 0 && runs[0].span.start == 0 && runs.last().span.end
        == items.len()
    &&& forall|k: int|
        0 <= k < runs.len() ==> (#[trigger] runs[k]).span.start < runs[k].span.end <= items.len()
    &&& forall|k: int, m: int|
        0 <= k && m == k + 1 && m < runs.len() ==> (#[trigger] runs[k]).span.end == (
        #[trigger] runs[m]).span.start && runs[k].layer != runs[m].layer
    &&& forall|k: int, i: int|
        0 <= k < runs.len() && runs[k].span.start <= i < runs[k].span.end ==> (
        #[trigger] items[i]).layer == (#[trigger] runs[k]).layer
}

/// Layer runs partition the primitives.
pub proof fn lemma_layer_runs_partition(items: Seq<ParamItem>)
    requires
        items.len() <= u32::MAX,
    ensures
        runs_partition(layer_runs(items), items),
    decreases items.len(),
{
    if items.len() > 0 {
        let rest = items.drop_last();
        lemma_layer_runs_partition(rest);
        let earlier = layer_runs(rest);
        let runs = layer_runs(items);
        let n = runs.len() - 1;
        if rest.len() > 0 {
            lemma_last_run(rest);
            assert(rest.last() == items[items.len() - 2]);
        }
        assert forall|k: int, i: int|
            0 <= k < runs.len() && runs[k].span.start <= i < runs[k].span.end implies (
        #[trigger] items[i]).layer == (#[trigger] runs[k]).layer by {
            if k < n {
                assert(runs[k] == earlier[k]);
                assert(rest[i] == items[i]);
            } else if i < rest.len() {
                assert(rest[i] == items[i]);
                assert(earlier[n].span.start <= i < earlier[n].span.end);
            }
        }
        assert forall|k: int, m: int| 0 <= k && m == k + 1 && m < runs.len() implies (
        #[trigger] runs[k]).span.end == (#[trigger] runs[m]).span.start && runs[k].layer
            != runs[m].layer by {
            assert(runs[k] == earlier[k]);
            if m < n {
                assert(runs[m] == earlier[m]);
            }
        }
    }
}

/// One primitive comes before another: of a lower layer, or of the same and not
/// nearer.
pub open spec fn by_layer_and_depth(a: ParamItem, b: ParamItem) -> bool {
    a.layer < b.layer || a.layer == b.layer && a.z.total() <= b.z.total()
}

/// The opaque primitives are the first `count_opaque`, by layer and within a
/// layer by depth, and the translucent ones behind them go from the back to the
/// front.
pub proof fn lemma_sections(items: Seq<ParamItem>)
    requires
        items.len() <= usize::MAX,
    ensures
        param_sorted(items).len() == items.len(),
        count_opaque(param_sorted(items)) <= items.len(),
        forall|i: int|
            0 <= i < items.len() ==> ((#[trigger] param_sorted(items)[i]).opaque <==> i
                < count_opaque(param_sorted(items))),
        forall|i: int, j: int|
            count_opaque(param_sorted(items)) <= i < j < items.len() ==> (
            #[trigger] param_sorted(items)[i]).z.total() <= (
            #[trigger] param_sorted(items)[j]).z.total(),
        forall|i: int, j: int|
            0 <= i < j < count_opaque(param_sorted(items)) ==> by_layer_and_depth(
                #[trigger] param_sorted(items)[i],
                #[trigger] param_sorted(items)[j],
            ),
        forall|item: ParamItem| #[trigger]
            items.contains(item) <==> param_sorted(items).contains(item),
{
    let ranks = param_ranks(items);
    lemma_whole_order(ranks);
    lemma_ordered_members(items, ranks);
    let order = whole_order(ranks);
    let sorted = param_sorted(items);
    assert forall|i: int, j: int| 0 <= i < j < sorted.len() implies !(!(#[trigger] sorted[i]).opaque
        && (#[trigger] sorted[j]).opaque) by {
        assert(before(ranks, order[i], order[j]));
    }
    lemma_opaque_prefix(sorted);
    assert forall|i: int, j: int| count_opaque(sorted) <= i < j < items.len() implies (
    #[trigger] sorted[i]).z.total() <= (#[trigger] sorted[j]).z.total() by {
        assert(before(ranks, order[i], order[j]));
        assert(!sorted[i].opaque && !sorted[j].opaque);
    }
    assert forall|i: int, j: int| 0 <= i < j < count_opaque(sorted) implies by_layer_and_depth(
        #[trigger] sorted[i],
        #[trigger] sorted[j],
    ) by {
        assert(before(ranks, order[i], order[j]));
        assert(sorted[i].opaque && sorted[j].opaque);
    }
}

proof fn lemma_opaque_runs_ascend(items: Seq<ParamItem>, k: int, m: int)
    requires
        items.len() <= u32::MAX,
        0 <= k < m < layer_runs(param_sorted(items)).len(),
        layer_runs(param_sorted(items))[m].span.start < count_opaque(param_sorted(items)),
    ensures
        layer_runs(param_sorted(items))[k].layer < layer_runs(param_sorted(items))[m].layer,
    decreases m - k,
{
    lemma_sections(items);
    let sorted = param_sorted(items);
    lemma_layer_runs_partition(sorted);
    let runs = layer_runs(sorted);
    let (a, b) = (runs[m - 1], runs[m]);
    assert(a.span.end == b.span.start && a.layer != b.layer);
    assert(by_layer_and_depth(sorted[a.span.start as int], sorted[b.span.start as int]));
    assert(sorted[a.span.start as int].layer == a.layer);
    assert(sorted[b.span.start as int].layer == b.layer);
    if k < m - 1 {
        lemma_opaque_runs_ascend(items, k, m - 1);
    }
}

/// The opaque section has one run for each layer: two runs that begin in it are
/// of different layers, the lower one first.
pub proof fn lemma_opaque_layers_have_one_run(items: Seq<ParamItem>)
    requires
        items.len() <= u32::MAX,
    ensures
        forall|k: int, m: int|
            0 <= k < m < layer_runs(param_sorted(items)).len() && layer_runs(
                param_sorted(items),
            )[m].span.start < count_opaque(param_sorted(items)) ==> (#[trigger] layer_runs(
                param_sorted(items),
            )[k]).layer < (#[trigger] layer_runs(param_sorted(items))[m]).layer,
{
    assert forall|k: int, m: int|
        0 <= k < m < layer_runs(param_sorted(items)).len() && layer_runs(
            param_sorted(items),
        )[m].span.start < count_opaque(param_sorted(items)) implies (#[trigger] layer_runs(
        param_sorted(items),
    )[k]).layer < (#[trigger] layer_runs(param_sorted(items))[m]).layer by {
        lemma_opaque_runs_ascend(items, k, m);
    }
}

proof fn lemma_opaque_prefix(sorted: Seq<ParamItem>)
    requires
        forall|i: int, j: int|
            0 <= i < j < sorted.len() ==> !(!(#[trigger] sorted[i]).opaque
                && (#[trigger] sorted[j]).opaque),
    ensures
        count_opaque(sorted) <= sorted.len(),
        forall|i: int|
            0 <= i < sorted.len() ==> ((#[trigger] sorted[i]).opaque <==> i < count_opaque(sorted)),
    decreases sorted.len(),
{
    if sorted.len() > 0 {
        let rest = sorted.drop_last();
        assert(forall|i: int| 0 <= i < rest.len() ==> rest[i] == sorted[i]);
        lemma_opaque_prefix(rest);
        if sorted.last().opaque {
            assert forall|i: int| 0 <= i < rest.len() implies (#[trigger] sorted[i]).opaque by {
                assert(sorted[sorted.len() - 1].opaque);
            }
            if rest.len() > 0 {
                assert(rest[rest.len() - 1].opaque);
            }
        }
        assert forall|i: int| 0 <= i < sorted.len() implies ((#[trigger] sorted[i]).opaque <==> i
            < count_opaque(sorted)) by {
            if i < rest.len() {
                assert(rest[i].opaque <==> i < count_opaque(rest));
            }
        }
    }
}


/// The record carries the primitive over, number by number: its linear part,
/// its translation with depth and clip reference behind it, its colour and its
/// parameters.
pub open spec fn carries_param(record: GpuParamInstance, item: ParamItem) -> bool {
    &&& forall|k: int| 0 <= k < 4 ==> (#[trigger] record.linear@[k]) == item.linear@[k]
    &&& record.translation_z@[0] == item.translation@[0]
    &&& record.translation_z@[1] == item.translation@[1]
    &&& record.translation_z@[2] == item.z
    &&& record.translation_z@[3] == item.clip
    &&& forall|k: int| 0 <= k < 4 ==> (#[trigger] record.color@[k]) == item.color@[k]
    &&& forall|k: int| 0 <= k < 4 ==> (#[trigger] record.params@[k]) == item.params@[k]
}

/// One primitive may be drawn before another: an opaque one before a translucent
/// one; of two opaque ones the one of the lower layer, then the one farther
/// back; of two translucent ones the one farther back.
pub open spec fn drawn_before(a: ParamItem, b: ParamItem) -> bool {
    ||| a.opaque && !b.opaque
    ||| a.opaque && b.opaque && a.layer < b.layer
    ||| a.opaque == b.opaque && (a.opaque ==> a.layer == b.layer) && stands_before(a.z, b.z)
}

/// Neither may be drawn before the other.
pub open spec fn drawn_as_given(a: ParamItem, b: ParamItem) -> bool {
    a.opaque == b.opaque && (a.opaque ==> a.layer == b.layer) && a.z == b.z
}

/// What a frame's primitives come to.
///
/// The records are those of the given primitives, each once: the opaque ones in
/// front, by layer and depth, as many as are counted opaque; the translucent
/// ones behind them from the back to the front; where two could stand either
/// way, in the given order. The runs cover the records from first to last, each
/// in one layer.
pub proof fn lemma_primitives_are_drawn_in_order(
    items: Seq<ParamItem>,
    sorted: Seq<ParamItem>,
    records: Seq<GpuParamInstance>,
    runs: Seq<LayerRun>,
    opaque_count: int,
)
    requires
        items.len() <= u32::MAX,
        sorted == param_sorted(items),
        records == sorted.map_values(|item: ParamItem| param_instance_of(item)),
        runs == layer_runs(sorted),
        opaque_count == count_opaque(sorted),
    ensures
        exists|from: Seq<usize>|
            {
                &&& #[trigger] rearranged(items, sorted, from)
                &&& forall|a: int, b: int|
                    0 <= a < b < from.len() ==> drawn_before(sorted[a], sorted[b])
                        || drawn_as_given(sorted[a], sorted[b]) && #[trigger] from[a]
                        < #[trigger] from[b]
            },
        records.len() == items.len(),
        forall|i: int|
            0 <= i < sorted.len() ==> carries_param(#[trigger] records[i], sorted[i]),
        0 <= opaque_count <= items.len(),
        forall|i: int| 0 <= i < sorted.len() ==> ((#[trigger] sorted[i]).opaque <==> i < opaque_count),
        runs_partition(runs, sorted),
{
    let ranks = param_ranks(items);
    lemma_ordered_is_rearranged(items, ranks);
    lemma_sections(items);
    lemma_layer_runs_partition(sorted);
    let from = whole_order(ranks);
    assert forall|a: int, b: int| 0 <= a < b < from.len() implies drawn_before(sorted[a], sorted[b])
        || drawn_as_given(sorted[a], sorted[b]) && #[trigger] from[a] < #[trigger] from[b] by {
        assert(before(ranks, from[a], from[b]));
        let (x, y) = (from[a] as int, from[b] as int);
        assert(sorted[a] == items[x] && sorted[b] == items[y]);
        lemma_total_lines_patterns_up(items[x].z, items[y].z);
    }
    assert(rearranged(items, sorted, from));
}

} // verus!
