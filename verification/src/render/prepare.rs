//! What a frame uploads: whether the shared geometry buffers are recreated,
//! whether last frame's draw layout still stands, and which instance and
//! indirect records are written.

use std::hash::{DefaultHasher, Hasher};

use vstd::prelude::*;

use crate::hashing::{
    byte_write, digest, flag_write, half_write, lemma_writes_identify, long_write, word_write,
    write_byte, write_flag, write_half, write_long, write_word,
};
use crate::render::batch::{
    blend_parts, draws, forward_spans, in_one_place, indirect_of, lay_out, layout_of,
    lemma_batches_partition_the_parts, lemma_every_part_is_drawn_once,
    lemma_layout_depends_on_structure_alone, lemma_parts_fit, lemma_slots_draw_their_own_geometry,
    opaque_parts, same_layout_inputs, Layout, LayoutView, VectorBatch,
};
use crate::render::cache::{CacheView, GeometryCache, GeometryRange};
use crate::render::gpu::{
    GpuDrawIndexedIndirect, GpuInstance, INDEX_BYTES, INDIRECT_BYTES, INSTANCE_BYTES, VERTEX_BYTES,
};
use crate::render::layout::{ExtractedInstance, GeometryRef, GroupKey};
use crate::scalar::Scalar;

verus! {

/// What happens to a GPU buffer this frame.
#[derive(Clone, Copy, Debug, PartialEq, Eq, Structural)]
pub enum Upload {
    /// It is left as it is.
    Keep,
    /// A new buffer is created that holds exactly the data.
    Create,
    /// The data is written at the start of the present buffer.
    Write,
}

/// The frame's change to the shared vertex and index buffers.
#[derive(Clone, Copy, Debug, PartialEq, Eq)]
pub struct GeometryUpload {
    /// Both buffers are created anew, with these element capacities.
    pub recreate: Option<(u64, u64)>,
    /// The cached vertices and indices are written at the start.
    pub write_static: bool,
    /// The transient vertices and indices are written at these byte offsets.
    pub write_tail: Option<(u64, u64)>,
}

/// The frame's instance and indirect records, and what becomes of their
/// buffers.
pub struct FrameUpload {
    pub instances: Vec<GpuInstance>,
    pub instance_upload: Upload,
    pub args: Vec<GpuDrawIndexedIndirect>,
    pub indirect_upload: Upload,
}

/// State of the tessellated buffers across frames.
pub struct VectorBuffers {
    /// The shared vertex buffer exists.
    pub has_vertex: bool,
    /// The shared index buffer exists.
    pub has_index: bool,
    /// The instance buffer exists.
    pub has_instance: bool,
    /// Bytes the instance buffer can hold.
    pub instance_capacity: u64,
    /// The indirect buffer exists.
    pub has_indirect: bool,
    /// Bytes the indirect buffer can hold.
    pub indirect_capacity: u64,
    /// Element counts of the static (cached) region at the last upload; the
    /// transient region starts here.
    pub static_vertex_count: u64,
    pub static_index_count: u64,
    /// Allocated element capacities of the shared buffers.
    pub vertex_capacity: u64,
    pub index_capacity: u64,
    pub use_multi_draw: bool,
    /// Hash of the layout-affecting fields of the instances that `layout` was
    /// built for: a frame with another hash is laid out anew.
    pub layout_fingerprint: u64,
    /// What `layout` was built from. While a frame's instances come to the
    /// same, sorting, batching and building indirect records are skipped.
    pub laid_out: Vec<LayoutInput>,
    pub layout: Layout,
}

/// What the layout takes from one instance.
#[derive(Clone, Copy, Debug, PartialEq, Eq, Structural)]
pub struct LayoutInput {
    pub group: GroupKey,
    pub z: Scalar,
    pub opaque: bool,
    /// Where its geometry lies in the shared buffers.
    pub range: Option<GeometryRange>,
}

pub open spec fn input_of(item: ExtractedInstance, range: Option<GeometryRange>) -> LayoutInput {
    LayoutInput { group: item.group(), z: item.z, opaque: item.opaque, range }
}

/// What the layout takes from the instances.
pub open spec fn inputs_of(
    items: Seq<ExtractedInstance>,
    ranges: Seq<Option<GeometryRange>>,
) -> Seq<LayoutInput> {
    Seq::new(items.len(), |i: int| input_of(items[i], ranges[i]))
}

fn layout_inputs(
    items: &Vec<ExtractedInstance>,
    ranges: &Vec<Option<GeometryRange>>,
) -> (inputs: Vec<LayoutInput>)
    requires
        ranges@.len() == items@.len(),
    ensures
        inputs@ == inputs_of(items@, ranges@),
{
    let mut inputs: Vec<LayoutInput> = Vec::with_capacity(items.len());
    let mut i: usize = 0;
    while i < items.len()
        invariant
            ranges@.len() == items@.len(),
            i <= items@.len(),
            inputs@ == inputs_of(items@, ranges@).take(i as int),
        decreases items@.len() - i,
    {
        let item: ExtractedInstance = items[i];
        inputs.push(
            LayoutInput {
                group: item.group_key(),
                z: item.z,
                opaque: item.opaque,
                range: ranges[i],
            },
        );
        assert(inputs@ =~= inputs_of(items@, ranges@).take(i + 1));
        i = i + 1;
    }
    assert(inputs@ =~= inputs_of(items@, ranges@));
    inputs
}

fn same_inputs(a: &Vec<LayoutInput>, b: &Vec<LayoutInput>) -> (same: bool)
    ensures
        same == (a@ == b@),
{
    if a.len() != b.len() {
        return false;
    }
    let mut i: usize = 0;
    while i < a.len()
        invariant
            a@.len() == b@.len(),
            i <= a@.len(),
            a@.take(i as int) == b@.take(i as int),
        decreases a@.len() - i,
    {
        if a[i] != b[i] {
            assert(a@[i as int] != b@[i as int]);
            return false;
        }
        assert(a@.take(i + 1) =~= a@.take(i as int).push(a@[i as int]));
        assert(b@.take(i + 1) =~= b@.take(i as int).push(b@[i as int]));
        i = i + 1;
    }
    assert(a@.take(a@.len() as int) =~= a@);
    assert(b@.take(b@.len() as int) =~= b@);
    true
}

/// The layout is that of any instances that come to these inputs.
pub open spec fn laid_out_from(layout: LayoutView, inputs: Seq<LayoutInput>) -> bool {
    forall|items: Seq<ExtractedInstance>, ranges: Seq<Option<GeometryRange>>|
        ranges.len() == items.len() && items.len() <= usize::MAX && (#[trigger] inputs_of(
            items,
            ranges,
        )) == inputs ==> layout == layout_of(items, ranges)
}

/// Instances that come to the same inputs have the same layout.
pub proof fn lemma_layout_goes_by_its_inputs(
    items: Seq<ExtractedInstance>,
    ranges: Seq<Option<GeometryRange>>,
)
    requires
        ranges.len() == items.len(),
        items.len() <= usize::MAX,
    ensures
        laid_out_from(layout_of(items, ranges), inputs_of(items, ranges)),
{
    let inputs = inputs_of(items, ranges);
    assert forall|a: Seq<ExtractedInstance>, b: Seq<Option<GeometryRange>>|
        b.len() == a.len() && a.len() <= usize::MAX && (#[trigger] inputs_of(a, b))
            == inputs implies layout_of(items, ranges) == layout_of(a, b) by {
        assert(a.len() == inputs_of(a, b).len());
        assert forall|i: int| 0 <= i < a.len() implies input_of(#[trigger] a[i], b[i]) == input_of(
            items[i],
            ranges[i],
        ) by {
            assert(inputs_of(a, b)[i] == inputs[i]);
        }
        assert(b =~= ranges) by {
            assert forall|i: int| 0 <= i < b.len() implies b[i] == ranges[i] by {
                assert(input_of(a[i], b[i]) == input_of(items[i], ranges[i]));
            }
        }
        assert(same_layout_inputs(a, items));
        lemma_layout_depends_on_structure_alone(a, items, ranges);
    }
}

/// The shared buffers must be created anew: they hold something, and what they
/// hold is new, does not fit, or is not there.
pub open spec fn must_recreate(
    buffers: VectorBuffers,
    cache: CacheView,
    dynamic_vertices: int,
    dynamic_indices: int,
) -> bool {
    &&& cache.vertices.len() + dynamic_vertices > 0
    &&& {
        ||| cache.dirty
        ||| !buffers.has_vertex
        ||| !buffers.has_index
        ||| buffers.vertex_capacity < cache.vertices.len() + dynamic_vertices
        ||| buffers.index_capacity < cache.indices.len() + dynamic_indices
        ||| buffers.static_vertex_count != cache.vertices.len()
        ||| buffers.static_index_count != cache.indices.len()
    }
}

/// Element capacity of a new shared buffer: what is needed, and room for the
/// transient region to double or to reach the minimum.
pub open spec fn roomy(cached: int, dynamic: int, minimum: int) -> int {
    cached + dynamic + if dynamic > minimum {
        dynamic
    } else {
        minimum
    }
}

/// The instance record of an instance.
pub open spec fn instance_of(item: ExtractedInstance) -> GpuInstance {
    GpuInstance {
        linear: item.linear,
        translation_z: [item.translation@[0], item.translation@[1], item.z, item.clip],
        color: item.color,
        brush_params: item.brush_params,
        brush_meta: item.brush_meta,
    }
}

pub fn gpu_instance(item: &ExtractedInstance) -> (instance: GpuInstance)
    ensures
        instance == instance_of(*item),
{
    let instance = GpuInstance {
        linear: item.linear,
        translation_z: [item.translation[0], item.translation[1], item.z, item.clip],
        color: item.color,
        brush_params: item.brush_params,
        brush_meta: item.brush_meta,
    };
    assert(instance.translation_z@ =~= instance_of(*item).translation_z@);
    instance
}

/// The slots of a permutation all name instances.
pub open spec fn addresses(permutation: Seq<u32>, n: int) -> bool {
    forall|a: int| 0 <= a < permutation.len() ==> (#[trigger] permutation[a]) < n
}

/// The instance records in slot order.
pub open spec fn gathered(items: Seq<ExtractedInstance>, permutation: Seq<u32>) -> Seq<GpuInstance> {
    permutation.map_values(|i: u32| instance_of(items[i as int]))
}

fn gather(items: &Vec<ExtractedInstance>, permutation: &Vec<u32>) -> (instances: Vec<GpuInstance>)
    requires
        addresses(permutation@, items@.len() as int),
    ensures
        instances@ == gathered(items@, permutation@),
{
    let mut instances: Vec<GpuInstance> = Vec::with_capacity(permutation.len());
    let mut i: usize = 0;
    while i < permutation.len()
        invariant
            addresses(permutation@, items@.len() as int),
            i <= permutation@.len(),
            instances@ == gathered(items@, permutation@).take(i as int),
        decreases permutation@.len() - i,
    {
        let at: usize = permutation[i] as usize;
        instances.push(gpu_instance(&items[at]));
        assert(instances@ =~= gathered(items@, permutation@).take(i + 1));
        i = i + 1;
    }
    assert(instances@ =~= gathered(items@, permutation@));
    instances
}

/// What one instance contributes to the layout fingerprint.
pub open spec fn item_writes(item: ExtractedInstance) -> Seq<Seq<u8>> {
    seq![
        byte_write(item.group().kind),
        long_write(item.group().id),
        half_write(item.group().layer),
        word_write(item.z.bits),
        flag_write(item.opaque),
        word_write(item.clip.bits),
    ]
}

pub open spec fn items_writes(items: Seq<ExtractedInstance>) -> Seq<Seq<u8>>
    decreases items.len(),
{
    if items.len() == 0 {
        Seq::empty()
    } else {
        items_writes(items.drop_last()) + item_writes(items.last())
    }
}

/// The writes of the layout fingerprint: the number of instances, then each.
pub open spec fn layout_writes(items: Seq<ExtractedInstance>) -> Seq<Seq<u8>> {
    seq![long_write(items.len() as u64)] + items_writes(items)
}

/// The layout fingerprint of a set of instances.
pub fn fingerprint(items: &Vec<ExtractedInstance>) -> (print: u64)
    ensures
        print == digest(layout_writes(items@)),
{
    let mut hasher: DefaultHasher = DefaultHasher::new();
    write_long(&mut hasher, items.len() as u64);
    let mut i: usize = 0;
    assert(hasher@ =~= seq![long_write(items@.len() as u64)] + items_writes(items@.take(0)));
    while i < items.len()
        invariant
            i <= items@.len(),
            hasher@ == seq![long_write(items@.len() as u64)] + items_writes(items@.take(i as int)),
        decreases items@.len() - i,
    {
        let item: ExtractedInstance = items[i];
        let key: GroupKey = item.group_key();
        let ghost before = hasher@;
        write_byte(&mut hasher, key.kind);
        write_long(&mut hasher, key.id);
        write_half(&mut hasher, key.layer);
        write_word(&mut hasher, item.z.bits);
        write_flag(&mut hasher, item.opaque);
        write_word(&mut hasher, item.clip.bits);
        proof {
            assert(hasher@ =~= before + item_writes(item));
            assert(items@.take(i + 1).drop_last() =~= items@.take(i as int));
            assert(hasher@ =~= seq![long_write(items@.len() as u64)] + items_writes(
                items@.take(i + 1),
            ));
        }
        i = i + 1;
    }
    assert(items@.take(items@.len() as int) =~= items@);
    hasher.finish()
}

/// Where an instance's geometry lies in the shared buffers: cached geometry
/// where the cache has it, transient geometry behind the static region.
pub open spec fn resolved(
    geometry: GeometryRef,
    ranges: Map<u64, Option<GeometryRange>>,
    static_vertices: int,
    static_indices: int,
) -> Option<GeometryRange> {
    match geometry {
        GeometryRef::Cached(key) => if ranges.dom().contains(key) {
            ranges[key]
        } else {
            None
        },
        GeometryRef::Dynamic(range) => Some(
            GeometryRange {
                base_vertex: (range.base_vertex + static_vertices) as i32,
                interior_first: (range.interior_first + static_indices) as u32,
                interior_count: range.interior_count,
                fringe_first: (range.fringe_first + static_indices) as u32,
                fringe_count: range.fringe_count,
            },
        ),
    }
}

pub open spec fn resolved_all(
    items: Seq<ExtractedInstance>,
    ranges: Map<u64, Option<GeometryRange>>,
    static_vertices: int,
    static_indices: int,
) -> Seq<Option<GeometryRange>> {
    items.map_values(
        |item: ExtractedInstance| resolved(item.geometry, ranges, static_vertices, static_indices),
    )
}

/// Transient geometry behind the static region stays addressable.
pub open spec fn tail_fits(
    items: Seq<ExtractedInstance>,
    static_vertices: int,
    static_indices: int,
) -> bool {
    forall|i: int|
        0 <= i < items.len() ==> ((#[trigger] items[i]).geometry matches GeometryRef::Dynamic(range)
            ==> {
            &&& range.base_vertex + static_vertices <= i32::MAX
            &&& range.interior_first + static_indices + range.interior_count <= u32::MAX
            &&& range.fringe_first + static_indices + range.fringe_count <= u32::MAX
        })
}

fn tail_is_addressable(
    items: &Vec<ExtractedInstance>,
    static_vertices: u32,
    static_indices: u32,
) -> (r: bool)
    ensures
        r == tail_fits(items@, static_vertices as int, static_indices as int),
{
    let mut i: usize = 0;
    while i < items.len()
        invariant
            i <= items@.len(),
            tail_fits(items@.take(i as int), static_vertices as int, static_indices as int),
        decreases items@.len() - i,
    {
        if let GeometryRef::Dynamic(range) = items[i].geometry {
            let vertex: i64 = range.base_vertex as i64 + static_vertices as i64;
            let first: u64 = range.interior_first as u64 + static_indices as u64;
            let fringe: u64 = range.fringe_first as u64 + static_indices as u64;
            if vertex > 0x7fff_ffff || first + range.interior_count as u64 > 0xffff_ffff || fringe
                + range.fringe_count as u64 > 0xffff_ffff {
                assert(items@[i as int].geometry == GeometryRef::Dynamic(range));
                return false;
            }
        }
        proof {
            let longer = items@.take(i + 1);
            assert forall|k: int| 0 <= k < longer.len() implies ((
            #[trigger] longer[k]).geometry matches GeometryRef::Dynamic(range) ==> {
                &&& range.base_vertex + static_vertices <= i32::MAX
                &&& range.interior_first + static_indices + range.interior_count <= u32::MAX
                &&& range.fringe_first + static_indices + range.fringe_count <= u32::MAX
            }) by {
                if k < i {
                    assert(items@.take(i as int)[k] == longer[k]);
                }
            }
        }
        i = i + 1;
    }
    assert(items@.take(items@.len() as int) =~= items@);
    true
}

fn resolve_all(
    items: &Vec<ExtractedInstance>,
    cache: &GeometryCache,
    static_vertices: u64,
    static_indices: u64,
) -> (ranges: Vec<Option<GeometryRange>>)
    requires
        cache.wf(),
        cache@.addressable(),
        static_vertices <= i32::MAX,
        static_indices <= u32::MAX,
        tail_fits(items@, static_vertices as int, static_indices as int),
    ensures
        ranges@ == resolved_all(
            items@,
            cache@.ranges,
            static_vertices as int,
            static_indices as int,
        ),
        forall|i: int|
            0 <= i < ranges@.len() ==> (#[trigger] ranges@[i] matches Some(range) ==> range.fits()),
{
    let ghost all = resolved_all(
        items@,
        cache@.ranges,
        static_vertices as int,
        static_indices as int,
    );
    let mut ranges: Vec<Option<GeometryRange>> = Vec::with_capacity(items.len());
    let mut i: usize = 0;
    while i < items.len()
        invariant
            cache.wf(),
            cache@.addressable(),
            static_vertices <= i32::MAX,
            static_indices <= u32::MAX,
            tail_fits(items@, static_vertices as int, static_indices as int),
            all == resolved_all(
                items@,
                cache@.ranges,
                static_vertices as int,
                static_indices as int,
            ),
            i <= items@.len(),
            ranges@ == all.take(i as int),
            forall|i: int|
                0 <= i < ranges@.len() ==> (#[trigger] ranges@[i] matches Some(range)
                    ==> range.fits()),
        decreases items@.len() - i,
    {
        let range: Option<GeometryRange> = match items[i].geometry {
            GeometryRef::Cached(key) => {
                assert(cache@.ranges.dom().contains(key) ==> (cache@.ranges[key] matches Some(r)
                    ==> r.within(cache@.vertices.len() as int, cache@.indices.len() as int)));
                match cache.ranges.get(key) {
                    Some(range) => *range,
                    None => None,
                }
            },
            GeometryRef::Dynamic(range) => {
                assert(items@[i as int].geometry == GeometryRef::Dynamic(range));
                Some(
                    GeometryRange {
                        base_vertex: range.base_vertex + static_vertices as i32,
                        interior_first: range.interior_first + static_indices as u32,
                        interior_count: range.interior_count,
                        fringe_first: range.fringe_first + static_indices as u32,
                        fringe_count: range.fringe_count,
                    },
                )
            },
        };
        ranges.push(range);
        assert(ranges@ =~= all.take(i + 1));
        i = i + 1;
    }
    assert(ranges@ =~= all);
    ranges
}

/// The indirect records of all draws, the opaque ones first.
pub open spec fn indirect_args(layout: LayoutView) -> Seq<GpuDrawIndexedIndirect> {
    (layout.opaque_batches + layout.blend_batches).map_values(|batch: VectorBatch| indirect_of(batch))
}

fn push_indirect(args: &mut Vec<GpuDrawIndexedIndirect>, list: &Vec<VectorBatch>)
    requires
        forward_spans(list@),
    ensures
        final(args)@ == old(args)@ + list@.map_values(|batch: VectorBatch| indirect_of(batch)),
{
    let ghost start = args@;
    let ghost all = list@.map_values(|batch: VectorBatch| indirect_of(batch));
    let mut i: usize = 0;
    while i < list.len()
        invariant
            forward_spans(list@),
            all == list@.map_values(|batch: VectorBatch| indirect_of(batch)),
            i <= list@.len(),
            args@ == start + all.take(i as int),
        decreases list@.len() - i,
    {
        let batch: VectorBatch = list[i];
        assert(list@[i as int].indices.start <= list@[i as int].indices.end);
        args.push(
            GpuDrawIndexedIndirect {
                index_count: batch.indices.end - batch.indices.start,
                instance_count: batch.instances.end - batch.instances.start,
                first_index: batch.indices.start,
                base_vertex: batch.base_vertex,
                first_instance: batch.instances.start,
            },
        );
        assert(args@ =~= start + all.take(i + 1));
        i = i + 1;
    }
    assert(args@ =~= start + all);
}

/// What becomes of a buffer that has to hold this many bytes.
pub open spec fn upload_of(present: bool, capacity: int, bytes: int) -> Upload {
    if !present || capacity < bytes {
        Upload::Create
    } else {
        Upload::Write
    }
}

/// Decides whether a buffer is created or written.
pub fn decide_upload(present: bool, capacity: u64, bytes: u64) -> (upload: Upload)
    ensures
        upload == upload_of(present, capacity as int, bytes as int),
{
    if !present || capacity < bytes {
        Upload::Create
    } else {
        Upload::Write
    }
}

impl VectorBuffers {
    /// The static region is addressable, and the layout is that of what it was
    /// built from.
    pub open spec fn wf(self) -> bool {
        &&& self.static_vertex_count <= i32::MAX
        &&& self.static_index_count <= u32::MAX
        &&& self.layout@.permutation.len() <= u32::MAX
        &&& addresses(self.layout@.permutation, self.laid_out@.len() as int)
        &&& self.layout@.permutation.len() > 0 ==> laid_out_from(self.layout@, self.laid_out@)
    }

    /// Nothing uploaded, nothing laid out.
    pub fn new() -> (buffers: VectorBuffers)
        ensures
            buffers.wf(),
            !buffers.has_vertex && !buffers.has_index && !buffers.has_instance
                && !buffers.has_indirect && !buffers.use_multi_draw,
            buffers.vertex_capacity == 0 && buffers.index_capacity == 0
                && buffers.instance_capacity == 0 && buffers.indirect_capacity == 0,
            buffers.static_vertex_count == 0 && buffers.static_index_count == 0,
            buffers.layout_fingerprint == 0,
            buffers.laid_out@.len() == 0,
            buffers.layout@ == (LayoutView {
                permutation: Seq::empty(),
                opaque_batches: Seq::empty(),
                blend_batches: Seq::empty(),
            }),
    {
        let layout = Layout {
            permutation: Vec::new(),
            opaque_batches: Vec::new(),
            blend_batches: Vec::new(),
        };
        VectorBuffers {
            has_vertex: false,
            has_index: false,
            has_instance: false,
            instance_capacity: 0,
            has_indirect: false,
            indirect_capacity: 0,
            static_vertex_count: 0,
            static_index_count: 0,
            vertex_capacity: 0,
            index_capacity: 0,
            use_multi_draw: false,
            layout_fingerprint: 0,
            laid_out: Vec::new(),
            layout,
        }
    }

    /// Brings the shared buffers up to date: the static region is uploaded
    /// again when it changed or no longer fits, and the transient region is
    /// rewritten behind it. Preparing the same geometry again changes nothing.
    pub fn prepare_geometry(
        &mut self,
        cache: &mut GeometryCache,
        dynamic_vertices: usize,
        dynamic_indices: usize,
    ) -> (upload: GeometryUpload)
        requires
            old(self).wf(),
            old(cache).wf(),
            old(cache)@.addressable(),
            dynamic_vertices <= i32::MAX,
            dynamic_indices <= u32::MAX,
        ensures
            final(self).wf(),
            final(cache).wf(),
            !must_recreate(
                *final(self),
                final(cache)@,
                dynamic_vertices as int,
                dynamic_indices as int,
            ),
            must_recreate(
                *old(self),
                old(cache)@,
                dynamic_vertices as int,
                dynamic_indices as int,
            ) ==> {
                &&& final(cache)@ == (CacheView { dirty: false, ..old(cache)@ })
                &&& *final(self) == (VectorBuffers {
                    has_vertex: true,
                    has_index: true,
                    vertex_capacity: roomy(
                        old(cache)@.vertices.len() as int,
                        dynamic_vertices as int,
                        256,
                    ) as u64,
                    index_capacity: roomy(
                        old(cache)@.indices.len() as int,
                        dynamic_indices as int,
                        1024,
                    ) as u64,
                    static_vertex_count: old(cache)@.vertices.len() as u64,
                    static_index_count: old(cache)@.indices.len() as u64,
                    ..*old(self)
                })
                &&& upload.recreate == Some(
                    (final(self).vertex_capacity, final(self).index_capacity),
                )
                &&& upload.write_static == (old(cache)@.vertices.len() > 0)
            },
            !must_recreate(
                *old(self),
                old(cache)@,
                dynamic_vertices as int,
                dynamic_indices as int,
            ) ==> {
                &&& final(cache)@ == old(cache)@
                &&& *final(self) == *old(self)
                &&& upload.recreate is None
                &&& !upload.write_static
            },
            upload.write_tail == (if dynamic_vertices > 0 {
                Some(
                    (
                        (final(self).static_vertex_count * VERTEX_BYTES) as u64,
                        (final(self).static_index_count * INDEX_BYTES) as u64,
                    ),
                )
            } else {
                None
            }),
    {
        let cached_vertices: u64 = cache.vertices.len() as u64;
        let cached_indices: u64 = cache.indices.len() as u64;
        let extra_vertices: u64 = dynamic_vertices as u64;
        let extra_indices: u64 = dynamic_indices as u64;
        let need_vertices: u64 = cached_vertices + extra_vertices;
        let need_indices: u64 = cached_indices + extra_indices;
        let recreate: bool = need_vertices > 0 && (cache.dirty || !self.has_vertex
            || !self.has_index || self.vertex_capacity < need_vertices || self.index_capacity
            < need_indices || self.static_vertex_count != cached_vertices
            || self.static_index_count != cached_indices);
        let mut upload = GeometryUpload { recreate: None, write_static: false, write_tail: None };
        if recreate {
            let vertex_room: u64 = if extra_vertices > 256 {
                extra_vertices
            } else {
                256
            };
            let index_room: u64 = if extra_indices > 1024 {
                extra_indices
            } else {
                1024
            };
            self.has_vertex = true;
            self.has_index = true;
            self.vertex_capacity = need_vertices + vertex_room;
            self.index_capacity = need_indices + index_room;
            self.static_vertex_count = cached_vertices;
            self.static_index_count = cached_indices;
            cache.dirty = false;
            upload.recreate = Some((self.vertex_capacity, self.index_capacity));
            upload.write_static = cached_vertices > 0;
        }
        if dynamic_vertices > 0 && self.has_vertex && self.has_index {
            upload.write_tail = Some(
                (self.static_vertex_count * VERTEX_BYTES, self.static_index_count * INDEX_BYTES),
            );
        }
        upload
    }

    /// Last frame's layout still stands for these instances, whose geometry lies
    /// at these ranges, and the instance buffer still holds its records.
    pub open spec fn layout_stands(
        self,
        items: Seq<ExtractedInstance>,
        ranges: Seq<Option<GeometryRange>>,
    ) -> bool {
        &&& digest(layout_writes(items)) == self.layout_fingerprint
        &&& inputs_of(items, ranges) == self.laid_out@
        &&& self.layout@.permutation.len() > 0
        &&& self.has_instance
        &&& self.instance_capacity >= self.layout@.permutation.len() * INSTANCE_BYTES
    }

    /// Where the instances' geometry lies in the shared buffers.
    pub open spec fn located(self, items: Seq<ExtractedInstance>, cache: CacheView) -> Seq<
        Option<GeometryRange>,
    > {
        resolved_all(
            items,
            cache.ranges,
            self.static_vertex_count as int,
            self.static_index_count as int,
        )
    }

    /// Whether the frame's transient geometry stays addressable behind the
    /// static region.
    pub fn is_tail_addressable(&self, items: &Vec<ExtractedInstance>) -> (r: bool)
        requires
            self.wf(),
        ensures
            r == tail_fits(items@, self.static_vertex_count as int, self.static_index_count as int),
    {
        tail_is_addressable(
            items,
            self.static_vertex_count as u32,
            self.static_index_count as u32,
        )
    }

    /// Lays the frame's instances out, or keeps the layout where it still
    /// stands, and says which records to upload. Either way the layout is the
    /// one that sorting and batching this frame's instances gives, over where
    /// their geometry lies now.
    pub fn prepare_instances(
        &mut self,
        items: &Vec<ExtractedInstance>,
        cache: &GeometryCache,
        multi_draw: bool,
    ) -> (frame: FrameUpload)
        requires
            old(self).wf(),
            cache.wf(),
            cache@.addressable(),
            items@.len() <= 0x7fff_ffff,
            tail_fits(
                items@,
                old(self).static_vertex_count as int,
                old(self).static_index_count as int,
            ),
        ensures
            final(self).wf(),
            final(self).layout@ == layout_of(
                items@,
                resolved_all(
                    items@,
                    cache@.ranges,
                    final(self).static_vertex_count as int,
                    final(self).static_index_count as int,
                ),
            ),
            frame.instances@ == gathered(items@, final(self).layout@.permutation),
            frame.instances@.len() > 0 ==> final(self).layout_stands(
                items@,
                final(self).located(items@, cache@),
            ),
            old(self).layout_stands(items@, old(self).located(items@, cache@)) ==> {
                &&& *final(self) == *old(self)
                &&& frame.instance_upload == Upload::Write
                &&& frame.args@ == Seq::<GpuDrawIndexedIndirect>::empty()
                &&& frame.indirect_upload == Upload::Keep
            },
            !old(self).layout_stands(items@, old(self).located(items@, cache@)) ==> {
                let bytes = frame.instances@.len() * INSTANCE_BYTES;
                let draws = bytes > 0;
                &&& final(self).layout_fingerprint == digest(layout_writes(items@))
                &&& final(self).laid_out@ == inputs_of(items@, old(self).located(items@, cache@))
                &&& frame.instance_upload == (if draws {
                    upload_of(old(self).has_instance, old(self).instance_capacity as int, bytes)
                } else {
                    Upload::Keep
                })
                &&& final(self).has_instance == (old(self).has_instance || draws)
                &&& final(self).instance_capacity == (if frame.instance_upload == Upload::Create {
                    bytes
                } else {
                    old(self).instance_capacity as int
                })
                &&& final(self).use_multi_draw == (if draws {
                    multi_draw
                } else {
                    old(self).use_multi_draw
                })
                &&& frame.args@ == (if draws && multi_draw {
                    indirect_args(final(self).layout@)
                } else {
                    Seq::empty()
                })
                &&& frame.indirect_upload == (if draws && multi_draw {
                    upload_of(
                        old(self).has_indirect,
                        old(self).indirect_capacity as int,
                        frame.args@.len() * INDIRECT_BYTES,
                    )
                } else {
                    Upload::Keep
                })
                &&& final(self).has_indirect == (old(self).has_indirect || draws && multi_draw)
                &&& final(self).indirect_capacity == (if frame.indirect_upload == Upload::Create {
                    frame.args@.len() * INDIRECT_BYTES
                } else {
                    old(self).indirect_capacity as int
                })
                &&& final(self).has_vertex == old(self).has_vertex
                &&& final(self).has_index == old(self).has_index
                &&& final(self).vertex_capacity == old(self).vertex_capacity
                &&& final(self).index_capacity == old(self).index_capacity
                &&& final(self).static_vertex_count == old(self).static_vertex_count
                &&& final(self).static_index_count == old(self).static_index_count
            },
    {
        let print: u64 = fingerprint(items);
        let mut frame = FrameUpload {
            instances: Vec::new(),
            instance_upload: Upload::Keep,
            args: Vec::new(),
            indirect_upload: Upload::Keep,
        };
        let ranges: Vec<Option<GeometryRange>> = resolve_all(
            items,
            cache,
            self.static_vertex_count,
            self.static_index_count,
        );
        let inputs: Vec<LayoutInput> = layout_inputs(items, &ranges);
        if print == self.layout_fingerprint && self.layout.permutation.len() > 0
            && self.has_instance && self.instance_capacity
            >= self.layout.permutation.len() as u64 * INSTANCE_BYTES && same_inputs(
            &inputs,
            &self.laid_out,
        ) {
            assert(inputs_of(items@, ranges@) == self.laid_out@);
            frame.instances = gather(items, &self.layout.permutation);
            frame.instance_upload = Upload::Write;
            return frame;
        }
        self.layout_fingerprint = print;
        self.laid_out = inputs;
        self.layout = lay_out(items, &ranges);
        proof {
            lemma_layout_goes_by_its_inputs(items@, ranges@);
        }
        frame.instances = gather(items, &self.layout.permutation);
        if frame.instances.len() == 0 {
            return frame;
        }
        let bytes: u64 = frame.instances.len() as u64 * INSTANCE_BYTES;
        frame.instance_upload = decide_upload(self.has_instance, self.instance_capacity, bytes);
        if frame.instance_upload == Upload::Create {
            self.has_instance = true;
            self.instance_capacity = bytes;
        }
        self.use_multi_draw = multi_draw;
        if multi_draw {
            push_indirect(&mut frame.args, &self.layout.opaque_batches);
            push_indirect(&mut frame.args, &self.layout.blend_batches);
            assert(frame.args@ =~= indirect_args(self.layout@));
            let arg_bytes: u64 = frame.args.len() as u64 * INDIRECT_BYTES;
            frame.indirect_upload = decide_upload(
                self.has_indirect,
                self.indirect_capacity,
                arg_bytes,
            );
            if frame.indirect_upload == Upload::Create {
                self.has_indirect = true;
                self.indirect_capacity = arg_bytes;
            }
        }
        frame
    }
}

proof fn lemma_items_writes_length(items: Seq<ExtractedInstance>)
    ensures
        items_writes(items).len() == 6 * items.len(),
    decreases items.len(),
{
    if items.len() > 0 {
        lemma_items_writes_length(items.drop_last());
    }
}

proof fn lemma_items_writes_identify(a: Seq<ExtractedInstance>, b: Seq<ExtractedInstance>)
    requires
        items_writes(a) == items_writes(b),
    ensures
        same_layout_inputs(a, b),
        forall|i: int| 0 <= i < a.len() ==> (#[trigger] a[i]).clip == b[i].clip,
    decreases a.len(),
{
    lemma_items_writes_length(a);
    lemma_items_writes_length(b);
    if a.len() > 0 {
        let (fa, fb) = (items_writes(a.drop_last()), items_writes(b.drop_last()));
        lemma_items_writes_length(a.drop_last());
        lemma_items_writes_length(b.drop_last());
        let (ia, ib) = (item_writes(a.last()), item_writes(b.last()));
        let whole = items_writes(a);
        assert(fa =~= whole.take(fa.len() as int));
        assert(fb =~= whole.take(fb.len() as int));
        assert(ia =~= whole.skip(fa.len() as int));
        assert(ib =~= whole.skip(fb.len() as int));
        lemma_items_writes_identify(a.drop_last(), b.drop_last());
        lemma_writes_identify();
        assert(ia[0] == ib[0] && ia[1] == ib[1] && ia[2] == ib[2] && ia[3] == ib[3] && ia[4]
            == ib[4] && ia[5] == ib[5]);
        let (x, y) = (a.last(), b.last());
        assert(x.group() == y.group());
        assert(x.z == y.z && x.clip == y.clip);
        assert forall|i: int| 0 <= i < a.len() implies (#[trigger] a[i]).group() == b[i].group()
            && a[i].z == b[i].z && a[i].opaque == b[i].opaque && a[i].clip == b[i].clip by {
            if i < a.len() - 1 {
                assert(a.drop_last()[i].group() == b.drop_last()[i].group());
                assert(a.drop_last()[i].clip == b.drop_last()[i].clip);
            }
        }
    }
}

/// What the fingerprint hashes tells apart everything that a layout depends
/// on: equal writes come from equal groups, depths, opacities and clips.
pub proof fn lemma_fingerprint_writes_identify_the_layout(
    a: Seq<ExtractedInstance>,
    b: Seq<ExtractedInstance>,
)
    requires
        layout_writes(a) == layout_writes(b),
    ensures
        same_layout_inputs(a, b),
        forall|i: int| 0 <= i < a.len() ==> (#[trigger] a[i]).clip == b[i].clip,
{
    assert(items_writes(a) =~= layout_writes(a).skip(1));
    assert(items_writes(b) =~= layout_writes(b).skip(1));
    lemma_items_writes_identify(a, b);
}

/// The group of a cached instance has its geometry in one place, whatever else
/// is drawn.
pub proof fn lemma_cached_geometry_is_in_one_place(
    items: Seq<ExtractedInstance>,
    ranges: Map<u64, Option<GeometryRange>>,
    static_vertices: int,
    static_indices: int,
    i: int,
)
    requires
        0 <= i < items.len(),
        items[i].geometry is Cached,
    ensures
        in_one_place(items, resolved_all(items, ranges, static_vertices, static_indices), i),
{
    let all = resolved_all(items, ranges, static_vertices, static_indices);
    assert forall|j: int|
        0 <= j < items.len() && (#[trigger] items[j]).group() == items[i].group() implies all[j]
        == all[i] by {
        assert(items[i].geometry == items[j].geometry);
    }
}

/// Two instances that a layout cannot tell apart: transforms, colours and
/// brushes aside, they are the same.
pub open spec fn same_structure(a: ExtractedInstance, b: ExtractedInstance) -> bool {
    a.geometry == b.geometry && a.layer == b.layer && a.z == b.z && a.clip == b.clip && a.opaque
        == b.opaque
}

proof fn lemma_same_writes(a: Seq<ExtractedInstance>, b: Seq<ExtractedInstance>)
    requires
        a.len() == b.len(),
        forall|i: int| 0 <= i < a.len() ==> same_structure(#[trigger] a[i], b[i]),
    ensures
        items_writes(a) == items_writes(b),
    decreases a.len(),
{
    if a.len() > 0 {
        let (x, y) = (a.drop_last(), b.drop_last());
        assert forall|i: int| 0 <= i < x.len() implies same_structure(#[trigger] x[i], y[i]) by {
            assert(same_structure(a[i], b[i]));
        }
        lemma_same_writes(x, y);
        assert(same_structure(a[a.len() - 1], b[b.len() - 1]));
    }
}

/// Moving and recolouring keep the layout: where it stands for some instances
/// over a cache, it stands for others that differ in nothing but transform,
/// colour and brush. It is then the layout of both, and the records in its slots
/// are those of the new instances.
pub proof fn lemma_restyled_instances_keep_the_layout(
    buffers: VectorBuffers,
    a: Seq<ExtractedInstance>,
    b: Seq<ExtractedInstance>,
    cache: CacheView,
)
    requires
        a.len() == b.len() <= usize::MAX,
        forall|i: int| 0 <= i < a.len() ==> same_structure(#[trigger] a[i], b[i]),
        buffers.layout_stands(a, buffers.located(a, cache)),
    ensures
        buffers.layout_stands(b, buffers.located(b, cache)),
        layout_of(a, buffers.located(a, cache)) == layout_of(b, buffers.located(b, cache)),
        forall|slot: int|
            0 <= slot < buffers.layout@.permutation.len() ==> (#[trigger] gathered(
                b,
                buffers.layout@.permutation,
            )[slot]) == instance_of(b[buffers.layout@.permutation[slot] as int]),
{
    let (x, y) = (buffers.located(a, cache), buffers.located(b, cache));
    assert forall|i: int| 0 <= i < a.len() implies x[i] == y[i] && a[i].group() == b[i].group() by {
        assert(same_structure(a[i], b[i]));
    }
    assert(x =~= y);
    assert forall|i: int| 0 <= i < a.len() implies (#[trigger] inputs_of(a, x)[i]) == inputs_of(
        b,
        y,
    )[i] by {
        assert(same_structure(a[i], b[i]));
    }
    assert(inputs_of(a, x) =~= inputs_of(b, y));
    lemma_same_writes(a, b);
    assert(same_layout_inputs(a, b)) by {
        assert forall|i: int| 0 <= i < a.len() implies (#[trigger] a[i]).group() == b[i].group()
            && a[i].z == b[i].z && a[i].opaque == b[i].opaque by {
            assert(same_structure(a[i], b[i]));
        }
    }
    lemma_layout_depends_on_structure_alone(a, b, x);
}

/// The draw takes this part of a range: the interior, or the fringe.
pub open spec fn draws_range(batch: VectorBatch, range: GeometryRange, fringe: bool) -> bool {
    &&& batch.base_vertex == range.base_vertex
    &&& batch.indices.start == (if fringe {
        range.fringe_first
    } else {
        range.interior_first
    })
    &&& batch.indices.end == batch.indices.start + (if fringe {
        range.fringe_count
    } else {
        range.interior_count
    })
}

/// Draws are of the present: over a cache, however it came to be filled, the
/// draw that holds a slot takes the part of the range under which the cache has
/// the geometry of the slot's instance now, where that instance is a cached one,
/// whatever it is drawn among. Opaque draws take interiors.
pub proof fn lemma_draws_follow_the_cache(
    buffers: VectorBuffers,
    items: Seq<ExtractedInstance>,
    cache: CacheView,
)
    requires
        items.len() <= 0x7fff_ffff,
        cache.sound(),
        cache.addressable(),
        buffers.layout@ == layout_of(items, buffers.located(items, cache)),
    ensures
        forall|k: int, slot: int| #![trigger buffers.layout@.opaque_batches[k], buffers.layout@.permutation[slot]]
            0 <= k < buffers.layout@.opaque_batches.len()
                && buffers.layout@.opaque_batches[k].instances.start <= slot
                < buffers.layout@.opaque_batches[k].instances.end && (
                items[buffers.layout@.permutation[slot] as int]).geometry is Cached ==> {
                let key = items[buffers.layout@.permutation[slot] as int].geometry->Cached_0;
                &&& cache.ranges.dom().contains(key)
                &&& cache.ranges[key] matches Some(range) && draws_range(
                    buffers.layout@.opaque_batches[k],
                    range,
                    false,
                )
            },
        forall|k: int, slot: int| #![trigger buffers.layout@.blend_batches[k], buffers.layout@.permutation[slot]]
            0 <= k < buffers.layout@.blend_batches.len()
                && buffers.layout@.blend_batches[k].instances.start <= slot
                < buffers.layout@.blend_batches[k].instances.end && (
                items[buffers.layout@.permutation[slot] as int]).geometry is Cached ==> {
                let key = items[buffers.layout@.permutation[slot] as int].geometry->Cached_0;
                &&& cache.ranges.dom().contains(key)
                &&& cache.ranges[key] matches Some(range) && (draws_range(
                    buffers.layout@.blend_batches[k],
                    range,
                    false,
                ) || draws_range(buffers.layout@.blend_batches[k], range, true))
            },
{
    let ranges = buffers.located(items, cache);
    lemma_slots_draw_their_own_geometry(items, ranges);
    lemma_every_part_is_drawn_once(items, ranges);
    lemma_parts_fit(items, ranges);
    let (o, t) = (opaque_parts(items, ranges), blend_parts(items, ranges));
    lemma_batches_partition_the_parts(o, 0);
    lemma_batches_partition_the_parts(t, o.len() as int);
    assert forall|k: int, slot: int| #![trigger buffers.layout@.opaque_batches[k], buffers.layout@.permutation[slot]]
        0 <= k < buffers.layout@.opaque_batches.len()
            && buffers.layout@.opaque_batches[k].instances.start <= slot
            < buffers.layout@.opaque_batches[k].instances.end && (
            items[buffers.layout@.permutation[slot] as int]).geometry is Cached implies {
        let key = items[buffers.layout@.permutation[slot] as int].geometry->Cached_0;
        &&& cache.ranges.dom().contains(key)
        &&& cache.ranges[key] matches Some(range) && draws_range(
            buffers.layout@.opaque_batches[k],
            range,
            false,
        )
    } by {
        let part = o[slot];
        assert(buffers.layout@.permutation[slot] == part.item);
        lemma_cached_geometry_is_in_one_place(
            items,
            cache.ranges,
            buffers.static_vertex_count as int,
            buffers.static_index_count as int,
            part.item as int,
        );
        assert(draws(buffers.layout@.opaque_batches[k], slot, part));
        assert(ranges[part.item as int] is Some);
    }
    assert forall|k: int, slot: int| #![trigger buffers.layout@.blend_batches[k], buffers.layout@.permutation[slot]]
        0 <= k < buffers.layout@.blend_batches.len()
            && buffers.layout@.blend_batches[k].instances.start <= slot
            < buffers.layout@.blend_batches[k].instances.end && (
            items[buffers.layout@.permutation[slot] as int]).geometry is Cached implies {
        let key = items[buffers.layout@.permutation[slot] as int].geometry->Cached_0;
        &&& cache.ranges.dom().contains(key)
        &&& cache.ranges[key] matches Some(range) && (draws_range(
            buffers.layout@.blend_batches[k],
            range,
            false,
        ) || draws_range(buffers.layout@.blend_batches[k], range, true))
    } by {
        let part = t[slot - o.len()];
        assert(buffers.layout@.permutation[slot] == part.item);
        lemma_cached_geometry_is_in_one_place(
            items,
            cache.ranges,
            buffers.static_vertex_count as int,
            buffers.static_index_count as int,
            part.item as int,
        );
        assert(draws(buffers.layout@.blend_batches[k], slot, part));
        assert(ranges[part.item as int] is Some);
    }
}


/// The record carries the instance over, number by number: its linear part, its
/// translation with depth and clip reference behind it, its colour and brush.
pub open spec fn carries(record: GpuInstance, item: ExtractedInstance) -> bool {
    &&& forall|k: int| 0 <= k < 4 ==> (#[trigger] record.linear@[k]) == item.linear@[k]
    &&& record.translation_z@[0] == item.translation@[0]
    &&& record.translation_z@[1] == item.translation@[1]
    &&& record.translation_z@[2] == item.z
    &&& record.translation_z@[3] == item.clip
    &&& forall|k: int| 0 <= k < 4 ==> (#[trigger] record.color@[k]) == item.color@[k]
    &&& forall|k: int|
        0 <= k < 4 ==> (#[trigger] record.brush_params@[k]) == item.brush_params@[k]
    &&& record.brush_meta == item.brush_meta
}

/// Every slot holds the record of the instance that the permutation names for
/// it.
pub proof fn lemma_slots_carry_their_instances(
    items: Seq<ExtractedInstance>,
    permutation: Seq<u32>,
    records: Seq<GpuInstance>,
)
    requires
        records == gathered(items, permutation),
    ensures
        records.len() == permutation.len(),
        forall|slot: int|
            0 <= slot < permutation.len() ==> carries(
                #[trigger] records[slot],
                items[permutation[slot] as int],
            ),
{
}

/// One indirect record draws one batch: the same indices, vertices and slots.
pub open spec fn draws_batch(record: GpuDrawIndexedIndirect, batch: VectorBatch) -> bool {
    &&& record.first_index == batch.indices.start
    &&& record.first_index + record.index_count == batch.indices.end
    &&& record.base_vertex == batch.base_vertex
    &&& record.first_instance == batch.instances.start
    &&& record.first_instance + record.instance_count == batch.instances.end
}

/// The indirect records are those of the opaque draws, one for one, and behind
/// them those of the blending draws.
pub proof fn lemma_indirect_records_draw_the_batches(
    layout: LayoutView,
    records: Seq<GpuDrawIndexedIndirect>,
)
    requires
        forward_spans(layout.opaque_batches),
        forward_spans(layout.blend_batches),
        records == indirect_args(layout),
    ensures
        records.len() == layout.opaque_batches.len() + layout.blend_batches.len(),
        forall|k: int|
            0 <= k < layout.opaque_batches.len() ==> draws_batch(
                records[k],
                #[trigger] layout.opaque_batches[k],
            ),
        forall|k: int|
            0 <= k < layout.blend_batches.len() ==> draws_batch(
                records[layout.opaque_batches.len() + k],
                #[trigger] layout.blend_batches[k],
            ),
{
    let n = layout.opaque_batches.len() as int;
    let all = layout.opaque_batches + layout.blend_batches;
    assert forall|k: int| 0 <= k < layout.opaque_batches.len() implies draws_batch(
        records[k],
        #[trigger] layout.opaque_batches[k],
    ) by {
        assert(all[k] == layout.opaque_batches[k]);
        assert(records[k] == indirect_of(all[k]));
    }
    assert forall|k: int| 0 <= k < layout.blend_batches.len() implies draws_batch(
        records[n + k],
        #[trigger] layout.blend_batches[k],
    ) by {
        assert(all[n + k] == layout.blend_batches[k]);
        assert(records[n + k] == indirect_of(all[n + k]));
    }
}

/// Records are written into the present buffer exactly where there is one and
/// they fit into it; otherwise a new buffer is created.
pub proof fn lemma_records_are_written_where_they_fit(present: bool, capacity: int, bytes: int)
    ensures
        upload_of(present, capacity, bytes) == Upload::Write <==> present && bytes <= capacity,
        upload_of(present, capacity, bytes) == Upload::Create <==> !(present && bytes
            <= capacity),
{
}

/// Where geometry lies: cached triangles where the cache has them, and nowhere
/// where it has none; this frame's own triangles behind the static region, as
/// far behind it as they lie in their own list.
pub proof fn lemma_geometry_lies_where_it_was_put(
    items: Seq<ExtractedInstance>,
    cache: Map<u64, Option<GeometryRange>>,
    static_vertices: int,
    static_indices: int,
    ranges: Seq<Option<GeometryRange>>,
)
    requires
        0 <= static_vertices,
        0 <= static_indices,
        tail_fits(items, static_vertices, static_indices),
        ranges == resolved_all(items, cache, static_vertices, static_indices),
    ensures
        ranges.len() == items.len(),
        forall|i: int|
            0 <= i < items.len() ==> ((#[trigger] items[i]).geometry matches GeometryRef::Cached(
                key,
            ) ==> {
                &&& cache.dom().contains(key) ==> ranges[i] == cache[key]
                &&& !cache.dom().contains(key) ==> ranges[i] is None
            }),
        forall|i: int|
            0 <= i < items.len() ==> ((#[trigger] items[i]).geometry matches GeometryRef::Dynamic(
                own,
            ) ==> {
                &&& ranges[i] matches Some(range)
                &&& range.base_vertex == own.base_vertex + static_vertices
                &&& range.interior_first == own.interior_first + static_indices
                &&& range.interior_count == own.interior_count
                &&& range.fringe_first == own.fringe_first + static_indices
                &&& range.fringe_count == own.fringe_count
            }),
{
}

/// The shared buffers are left alone only where they hold what they should:
/// there is nothing to hold, or both are there with room for all of it, nothing
/// new is cached, and the static region is as long as what is cached.
pub proof fn lemma_kept_buffers_hold_the_frame(
    buffers: VectorBuffers,
    cache: CacheView,
    dynamic_vertices: int,
    dynamic_indices: int,
)
    requires
        0 <= dynamic_vertices,
    ensures
        must_recreate(buffers, cache, dynamic_vertices, dynamic_indices) <==> {
            &&& cache.vertices.len() > 0 || dynamic_vertices > 0
            &&& !(buffers.has_vertex && buffers.has_index && !cache.dirty
                && buffers.static_vertex_count == cache.vertices.len()
                && buffers.static_index_count == cache.indices.len()
                && cache.vertices.len() + dynamic_vertices <= buffers.vertex_capacity
                && cache.indices.len() + dynamic_indices <= buffers.index_capacity)
        },
{
}

/// A new buffer has room for the frame's own region to double, and for it to
/// grow by the minimum, and no more than one of the two takes.
pub proof fn lemma_new_buffers_leave_room(cached: int, dynamic: int, minimum: int)
    ensures
        roomy(cached, dynamic, minimum) >= cached + 2 * dynamic,
        roomy(cached, dynamic, minimum) >= cached + dynamic + minimum,
        roomy(cached, dynamic, minimum) == cached + 2 * dynamic || roomy(cached, dynamic, minimum)
            == cached + dynamic + minimum,
{
}

/// Last frame's layout stands exactly where the instances have the hash and the
/// inputs that it was built from, and the instance buffer is there with room for
/// its records of 56 bytes.
pub proof fn lemma_layouts_stand_for_what_they_were_built_from(
    buffers: VectorBuffers,
    items: Seq<ExtractedInstance>,
    ranges: Seq<Option<GeometryRange>>,
)
    requires
        ranges.len() == items.len(),
    ensures
        buffers.layout_stands(items, ranges) <==> {
            &&& digest(layout_writes(items)) == buffers.layout_fingerprint
            &&& buffers.laid_out@.len() == items.len()
            &&& forall|i: int|
                0 <= i < items.len() ==> {
                    let input = #[trigger] buffers.laid_out@[i];
                    &&& input.group == items[i].group()
                    &&& input.z == items[i].z
                    &&& input.opaque == items[i].opaque
                    &&& input.range == ranges[i]
                }
            &&& buffers.layout@.permutation.len() > 0
            &&& buffers.has_instance
            &&& 56 * buffers.layout@.permutation.len() <= buffers.instance_capacity
        },
{
    let inputs = inputs_of(items, ranges);
    if buffers.laid_out@.len() == items.len() && (forall|i: int|
        0 <= i < items.len() ==> {
            let input = #[trigger] buffers.laid_out@[i];
            &&& input.group == items[i].group()
            &&& input.z == items[i].z
            &&& input.opaque == items[i].opaque
            &&& input.range == ranges[i]
        }) {
        assert(inputs =~= buffers.laid_out@);
    }
    if inputs == buffers.laid_out@ {
        assert forall|i: int| 0 <= i < items.len() implies {
            let input = #[trigger] buffers.laid_out@[i];
            &&& input.group == items[i].group()
            &&& input.z == items[i].z
            &&& input.opaque == items[i].opaque
            &&& input.range == ranges[i]
        } by {
            assert(inputs[i] == buffers.laid_out@[i]);
        }
        assert(inputs.len() == items.len());
    }
}


/// Cached instances are always addressable: only a frame's own geometry lies
/// behind the static region.
pub proof fn lemma_cached_instances_are_addressable(
    items: Seq<ExtractedInstance>,
    static_vertices: int,
    static_indices: int,
)
    requires
        forall|i: int| 0 <= i < items.len() ==> (#[trigger] items[i]).geometry is Cached,
    ensures
        tail_fits(items, static_vertices, static_indices),
{
}

} // verus!
