//! Extraction: each frame's shapes become instances over cached geometry.
//! A shape whose content is known costs one instance; a new one is
//! tessellated once.

use bevy::camera::visibility::RenderLayers;
use vstd::prelude::*;

use crate::hashing::digest;
use crate::hud::{ClippedBy, Placement, VectorPrimitive};
use crate::keyed::KeyedStore;
use crate::layers::{
    layer_words, lemma_masks_are_entered_once, mask_position, mask_words, with_mask, LayerTable,
};
use crate::path::{
    Brush, FillRule, LinearRgba, PathCommand, PathStyle, StrokeStyle,
};
use crate::render::cache::{
    append_mesh, interior_mesh, interior_view, mesh_view, range_at, CacheView, GeometryCache,
    GeometryRange, MeshGeometry, MeshView,
};
use crate::render::clips::{chain_number, ClipsView, ExtractedClips};
use crate::render::gpu::GpuVertex;
use crate::render::gradient::{
    brush_atlas, brush_resolves, lemma_brushes_paint_their_own, resolve_brush, stops_key,
    AtlasView, BrushData, GradientAtlas,
};
use crate::render::layout::{ExtractedInstance, GeometryRef};
use crate::render::params::ParamItem;
use crate::scalar::{lemma_denotes_zero, Scalar};
use crate::tess::{
    fill_outcome, fill_rule_key, fill_writes, fillable, fills_to, geometry_view, indices_below,
    is_fillable, is_strokable, lemma_fills_ask_for_their_own_rule,
    lemma_strokes_ask_for_their_own_pen, outline, sound, strokable, stroke_key, stroke_outcome,
    stroke_writes, strokes_to, tells_mesh, tessellate_fill_rule, tessellate_stroke, GeometryView,
    RawMeshView,
};

verus! {

/// The cache is dropped when it holds more entries than this, or than four
/// times last frame's instances.
pub const MIN_FLUSH_AT: usize = 8192;

/// Remembered keys are dropped when there are more than this.
pub const MAX_REMEMBERED_KEYS: usize = 65536;

/// Fill and stroke key of an entity, as far as they were computed.
pub type KeyPair = (Option<u64>, Option<u64>);

/// Content-hash keys by shape entity, so that an unchanged shape is never
/// hashed again.
pub struct GeometryKeys {
    pub keys: KeyedStore<KeyPair>,
}

/// The frame's instances, and the transient mesh of geometry that changes
/// every frame.
pub struct ExtractedShapes {
    pub items: Vec<ExtractedInstance>,
    pub dynamic_vertices: Vec<GpuVertex>,
    pub dynamic_indices: Vec<u32>,
}

impl ExtractedShapes {
    pub fn new() -> (shapes: ExtractedShapes)
        ensures
            shapes.items@.len() == 0,
            shapes.dynamic_vertices@.len() == 0,
            shapes.dynamic_indices@.len() == 0,
    {
        ExtractedShapes {
            items: Vec::new(),
            dynamic_vertices: Vec::new(),
            dynamic_indices: Vec::new(),
        }
    }

    /// Appends a mesh to the transient region.
    pub fn append_dynamic(&mut self, mesh: &MeshGeometry) -> (range: GeometryRange)
        ensures
            final(self).items == old(self).items,
            final(self).dynamic_vertices@ == old(self).dynamic_vertices@ + mesh.vertices@,
            final(self).dynamic_indices@ == old(self).dynamic_indices@ + mesh.interior_indices@
                + mesh.fringe_indices@,
            range == range_at(
                old(self).dynamic_vertices@.len() as int,
                old(self).dynamic_indices@.len() as int,
                mesh@,
            ),
    {
        append_mesh(&mut self.dynamic_vertices, &mut self.dynamic_indices, mesh)
    }
}

/// A shape as extraction sees it.
pub struct ShapeSource<'a> {
    /// Bits of the entity that the shape belongs to.
    pub entity: u64,
    pub commands: &'a Vec<PathCommand>,
    pub style: &'a PathStyle,
    /// The path or the style may have changed since last frame.
    pub changed: bool,
    pub placement: Placement,
    /// Depth of the stroke: just in front of the fill.
    pub stroke_z: Scalar,
    /// Flat colours of the fill and stroke brushes, 8 bits per channel.
    pub fill_tint: [u8; 4],
    pub stroke_tint: [u8; 4],
    pub clipped: Option<ClippedBy>,
    pub layers: &'a Option<RenderLayers>,
}

/// Everything that extraction carries from frame to frame.
pub struct Extraction {
    pub cache: GeometryCache,
    pub keys: GeometryKeys,
    pub shapes: ExtractedShapes,
    pub atlas: GradientAtlas,
}

/// The contents of an extraction.
#[verifier::ext_equal]
pub struct ExtractionView {
    pub cache: CacheView,
    pub keys: Map<u64, KeyPair>,
    pub keyed: Seq<u64>,
    pub items: Seq<ExtractedInstance>,
    pub atlas: AtlasView,
}

impl View for Extraction {
    type V = ExtractionView;

    open spec fn view(&self) -> ExtractionView {
        ExtractionView {
            cache: self.cache@,
            keys: self.keys.keys@,
            keyed: self.keys.keys.arrivals(),
            items: self.shapes.items@,
            atlas: self.atlas@,
        }
    }
}

/// Every remembered key has its entry in the cache.
pub open spec fn keys_resident(keys: Map<u64, KeyPair>, cache: CacheView) -> bool {
    forall|entity: u64| #[trigger]
        keys.dom().contains(entity) ==> {
            &&& keys[entity].0 matches Some(key) ==> cache.ranges.dom().contains(key)
            &&& keys[entity].1 matches Some(key) ==> cache.ranges.dom().contains(key)
        }
}

/// What is remembered of an entity.
pub open spec fn remembered(keys: Map<u64, KeyPair>, entity: u64) -> KeyPair {
    if keys.dom().contains(entity) {
        keys[entity]
    } else {
        (None, None)
    }
}

/// The remembered key counts: there is one, and the shape has not changed.
pub open spec fn known(changed: bool, key: Option<u64>) -> bool {
    !changed && key is Some
}

/// The shape's fill has to be tessellated: no remembered key counts, and its
/// content is not in the cache.
pub open spec fn fill_is_new(view: ExtractionView, source: ShapeSource) -> bool {
    &&& source.style.fill is Some
    &&& !known(source.changed, remembered(view.keys, source.entity).0)
    &&& !view.cache.ranges.dom().contains(
        digest(fill_writes(source.commands@, source.style.fill_rule)),
    )
}

/// The shape's stroke has to be tessellated: no remembered key counts, and its
/// content is not in the cache.
pub open spec fn stroke_is_new(view: ExtractionView, source: ShapeSource) -> bool {
    &&& source.style.stroke is Some
    &&& !known(source.changed, remembered(view.keys, source.entity).1)
    &&& !view.cache.ranges.dom().contains(
        digest(stroke_writes(source.commands@, source.style.stroke->0)),
    )
}

/// What has to be tessellated can be. Of a shape whose geometry is there,
/// nothing is asked.
pub open spec fn drawable_where_new(view: ExtractionView, source: ShapeSource) -> bool {
    &&& fill_is_new(view, source) ==> fillable(source.commands@)
    &&& stroke_is_new(view, source) ==> strokable(source.commands@, source.style.stroke->0)
}

/// The mesh is one that filling the outline may give.
pub open spec fn fill_meshes(
    commands: Seq<PathCommand>,
    rule: FillRule,
    mesh: Option<MeshView>,
) -> bool {
    exists|geometry: Option<GeometryView>| #[trigger]
        fills_to(commands, rule, geometry) && mesh == interior_view(geometry)
}

/// The mesh is one that stroking the outline may give.
pub open spec fn stroke_meshes(
    commands: Seq<PathCommand>,
    stroke: StrokeStyle,
    mesh: Option<MeshView>,
) -> bool {
    exists|geometry: Option<GeometryView>| #[trigger]
        strokes_to(commands, stroke, geometry) && mesh == interior_view(geometry)
}

/// The cache after a key is ensured: unchanged where the key is held, grown by
/// the fill of the outline otherwise.
pub open spec fn fill_cached(
    before: CacheView,
    after: CacheView,
    commands: Seq<PathCommand>,
    rule: FillRule,
) -> bool {
    let key = digest(fill_writes(commands, rule));
    if before.ranges.dom().contains(key) {
        after == before
    } else {
        exists|mesh: Option<MeshView>| #[trigger]
            fill_meshes(commands, rule, mesh) && after == before.grown(key, mesh)
    }
}

/// The cache after a key is ensured: unchanged where the key is held, grown by
/// the stroke of the outline otherwise.
pub open spec fn stroke_cached(
    before: CacheView,
    after: CacheView,
    commands: Seq<PathCommand>,
    stroke: StrokeStyle,
) -> bool {
    let key = digest(stroke_writes(commands, stroke));
    if before.ranges.dom().contains(key) {
        after == before
    } else {
        exists|mesh: Option<MeshView>| #[trigger]
            stroke_meshes(commands, stroke, mesh) && after == before.grown(key, mesh)
    }
}

/// An instance of cached geometry. Clipped instances blend.
pub open spec fn instance_at(
    key: u64,
    placement: Placement,
    z: Scalar,
    data: BrushData,
    covers: bool,
    clip: Scalar,
    layer: u16,
) -> ExtractedInstance {
    ExtractedInstance {
        geometry: GeometryRef::Cached(key),
        z,
        linear: placement.linear,
        translation: placement.translation,
        color: data.color,
        brush_params: data.params,
        brush_meta: data.meta,
        opaque: covers && clip.magnitude() == 0,
        clip,
        layer,
    }
}

/// One fill: its key is the remembered one or the hash of its content, which
/// is then remembered and ensured in the cache; one instance is added.
pub open spec fn fill_step(
    before: ExtractionView,
    after: ExtractionView,
    source: ShapeSource,
    brush: Brush,
    clip: Scalar,
    layer: u16,
) -> bool {
    let pair = remembered(before.keys, source.entity);
    let content = digest(fill_writes(source.commands@, source.style.fill_rule));
    &&& if known(source.changed, pair.0) {
        after.cache == before.cache && after.keys == before.keys && after.keyed == before.keyed
    } else {
        &&& fill_cached(before.cache, after.cache, source.commands@, source.style.fill_rule)
        &&& after.keys == before.keys.insert(source.entity, (Some(content), pair.1))
        &&& after.keyed == if before.keys.dom().contains(source.entity) {
            before.keyed
        } else {
            before.keyed.push(source.entity)
        }
    }
    &&& after.atlas == brush_atlas(brush, before.atlas)
    &&& exists|data: BrushData| #[trigger]
        brush_resolves(brush, source.fill_tint, before.atlas, data) && after.items
            == before.items.push(
            instance_at(
                if known(source.changed, pair.0) {
                    pair.0->0
                } else {
                    content
                },
                source.placement,
                source.placement.z,
                data,
                brush.covers(),
                clip,
                layer,
            ),
        )
}

/// One stroke, likewise; it draws over its own fill.
pub open spec fn stroke_step(
    before: ExtractionView,
    after: ExtractionView,
    source: ShapeSource,
    stroke: StrokeStyle,
    clip: Scalar,
    layer: u16,
) -> bool {
    let pair = remembered(before.keys, source.entity);
    let content = digest(stroke_writes(source.commands@, stroke));
    &&& if known(source.changed, pair.1) {
        after.cache == before.cache && after.keys == before.keys && after.keyed == before.keyed
    } else {
        &&& stroke_cached(before.cache, after.cache, source.commands@, stroke)
        &&& after.keys == before.keys.insert(source.entity, (pair.0, Some(content)))
        &&& after.keyed == if before.keys.dom().contains(source.entity) {
            before.keyed
        } else {
            before.keyed.push(source.entity)
        }
    }
    &&& after.atlas == brush_atlas(stroke.brush, before.atlas)
    &&& exists|data: BrushData| #[trigger]
        brush_resolves(stroke.brush, source.stroke_tint, before.atlas, data) && after.items
            == before.items.push(
            instance_at(
                if known(source.changed, pair.1) {
                    pair.1->0
                } else {
                    content
                },
                source.placement,
                source.stroke_z,
                data,
                stroke.brush.covers(),
                clip,
                layer,
            ),
        )
}

/// One shape: its fill, where it has one, and then its stroke.
pub open spec fn shape_step(
    before: ExtractionView,
    after: ExtractionView,
    source: ShapeSource,
    clip: Scalar,
    layer: u16,
) -> bool {
    exists|between: ExtractionView|
        #![trigger fill_part(before, between, source, clip, layer)]
        #![trigger stroke_part(between, after, source, clip, layer)]
        fill_part(before, between, source, clip, layer) && stroke_part(
            between,
            after,
            source,
            clip,
            layer,
        )
}

pub open spec fn fill_part(
    before: ExtractionView,
    after: ExtractionView,
    source: ShapeSource,
    clip: Scalar,
    layer: u16,
) -> bool {
    match source.style.fill {
        None => after == before,
        Some(brush) => fill_step(before, after, source, brush, clip, layer),
    }
}

pub open spec fn stroke_part(
    before: ExtractionView,
    after: ExtractionView,
    source: ShapeSource,
    clip: Scalar,
    layer: u16,
) -> bool {
    match source.style.stroke {
        None => after == before,
        Some(stroke) => stroke_step(before, after, source, stroke, clip, layer),
    }
}

/// How many entries the cache may hold before it is dropped.
pub open spec fn flush_limit(live: int) -> int {
    let scaled = if 4 * live > usize::MAX {
        usize::MAX as int
    } else {
        4 * live
    };
    if scaled > MIN_FLUSH_AT {
        scaled
    } else {
        MIN_FLUSH_AT as int
    }
}

/// The next frame's start drops the cache: it dwarfs what was drawn.
pub open spec fn flushed(view: ExtractionView) -> bool {
    view.cache.keys.len() > flush_limit(view.items.len() as int)
}

/// The next frame's start drops the remembered keys: with the cache, or because
/// they have grown too many.
pub open spec fn forgotten(view: ExtractionView) -> bool {
    flushed(view) || view.keyed.len() > MAX_REMEMBERED_KEYS
}

/// The start of a frame: no instances; a cache that dwarfs what was drawn last
/// frame is dropped together with the remembered keys, and so are keys that
/// have grown too many.
pub open spec fn begun(view: ExtractionView) -> ExtractionView {
    ExtractionView {
        cache: if flushed(view) {
            CacheView::empty()
        } else {
            view.cache
        },
        keys: if forgotten(view) {
            Map::empty()
        } else {
            view.keys
        },
        keyed: if forgotten(view) {
            Seq::empty()
        } else {
            view.keyed
        },
        items: Seq::empty(),
        atlas: view.atlas,
    }
}

impl Extraction {
    pub open spec fn wf(self) -> bool {
        &&& self.cache.wf()
        &&& self.keys.keys.wf()
        &&& self.atlas.wf()
        &&& keys_resident(self.keys.keys@, self.cache@)
    }

    pub fn new() -> (extraction: Extraction)
        ensures
            extraction.wf(),
            extraction@ == (ExtractionView {
                cache: CacheView::empty(),
                keys: Map::empty(),
                keyed: Seq::empty(),
                items: Seq::empty(),
                atlas: AtlasView { rows: Map::empty(), next_row: 0, pending: Seq::empty() },
            }),
    {
        let extraction = Extraction {
            cache: GeometryCache::new(),
            keys: GeometryKeys { keys: KeyedStore::new() },
            shapes: ExtractedShapes::new(),
            atlas: GradientAtlas::new(),
        };
        assert(extraction@.items =~= Seq::<ExtractedInstance>::empty());
        extraction
    }

    /// What the start of the next frame drops: the cache, the remembered keys.
    fn drops(&self) -> (drops: (bool, bool))
        requires
            self.wf(),
        ensures
            drops.0 == flushed(self@),
            drops.1 == forgotten(self@),
    {
        let live: usize = self.shapes.items.len();
        let scaled: usize = if live > usize::MAX / 4 {
            usize::MAX
        } else {
            live * 4
        };
        let flush_at: usize = if scaled > MIN_FLUSH_AT {
            scaled
        } else {
            MIN_FLUSH_AT
        };
        let flush: bool = self.cache.ranges.len() > flush_at;
        (flush, flush || self.keys.keys.len() > MAX_REMEMBERED_KEYS)
    }

    /// Whether the next frame can draw the shape's fill, and whether it can draw
    /// its stroke: what is not there yet has to be one that can be tessellated.
    /// The outline is looked at only where something is not there yet.
    pub fn drawable_parts(&self, source: &ShapeSource) -> (parts: (bool, bool))
        requires
            self.wf(),
        ensures
            parts.0 == (fill_is_new(begun(self@), *source) ==> fillable(source.commands@)),
            parts.1 == (stroke_is_new(begun(self@), *source) ==> strokable(
                source.commands@,
                source.style.stroke->0,
            )),
            parts == (true, true) <==> drawable_where_new(begun(self@), *source),
    {
        let (flush, forget): (bool, bool) = self.drops();
        let pair: KeyPair = if forget {
            (None, None)
        } else {
            self.recall(source.entity)
        };
        let filled: bool = match &source.style.fill {
            None => true,
            Some(_) => (!source.changed && pair.0.is_some()) || (!flush
                && self.cache.ranges.contains(
                fill_rule_key(source.commands.as_slice(), source.style.fill_rule),
            )) || is_fillable(source.commands.as_slice()),
        };
        let stroked: bool = match &source.style.stroke {
            None => true,
            Some(stroke) => (!source.changed && pair.1.is_some()) || (!flush
                && self.cache.ranges.contains(stroke_key(source.commands.as_slice(), stroke)))
                || is_strokable(source.commands.as_slice(), stroke),
        };
        (filled, stroked)
    }

    /// Starts a frame.
    pub fn begin_frame(&mut self, layers: &mut LayerTable)
        requires
            old(self).wf(),
        ensures
            final(self).wf(),
            final(self)@ == begun(old(self)@),
            final(self).shapes.dynamic_vertices@.len() == 0,
            final(self).shapes.dynamic_indices@.len() == 0,
            final(layers).wf(),
            final(layers)@ == Seq::<Seq<u64>>::empty(),
    {
        let (flush, forget): (bool, bool) = self.drops();
        self.shapes = ExtractedShapes::new();
        layers.clear();
        if flush {
            self.cache = GeometryCache::new();
        }
        if forget {
            self.keys.keys.clear();
        }
        assert(self@ =~= begun(old(self)@));
    }

    fn recall(&self, entity: u64) -> (pair: KeyPair)
        requires
            self.wf(),
        ensures
            pair == remembered(self@.keys, entity),
    {
        match self.keys.keys.get(entity) {
            Some(pair) => *pair,
            None => (None, None),
        }
    }

    fn push_fill(&mut self, source: &ShapeSource, brush: &Brush, clip: Scalar, layer: u16)
        requires
            old(self).wf(),
            source.style.fill == Some(*brush),
            fill_is_new(old(self)@, *source) ==> fillable(source.commands@),
        ensures
            final(self).wf(),
            fill_step(old(self)@, final(self)@, *source, *brush, clip, layer),
            final(self).shapes.dynamic_vertices == old(self).shapes.dynamic_vertices,
            final(self).shapes.dynamic_indices == old(self).shapes.dynamic_indices,
    {
        let pair: KeyPair = self.recall(source.entity);
        let cached: Option<u64> = if source.changed {
            None
        } else {
            pair.0
        };
        let key: u64 = match cached {
            Some(key) => key,
            None => {
                let rule: FillRule = source.style.fill_rule;
                let key: u64 = fill_rule_key(source.commands.as_slice(), rule);
                self.keys.keys.insert(source.entity, (Some(key), pair.1));
                let commands: &Vec<PathCommand> = source.commands;
                let tessellate = || -> (mesh: Option<MeshGeometry>)
                    requires
                        fillable(commands@),
                    ensures
                        fill_meshes(commands@, rule, mesh_view(mesh)),
                {
                    let geometry = tessellate_fill_rule(commands.as_slice(), rule);
                    assert(fills_to(commands@, rule, geometry_view(geometry)));
                    interior_mesh(geometry)
                };
                self.cache.ensure(key, tessellate);
                key
            },
        };
        assert(fill_cached(old(self)@.cache, self@.cache, source.commands@, source.style.fill_rule)
            || known(source.changed, pair.0));
        let data: BrushData = resolve_brush(brush, source.fill_tint, &mut self.atlas);
        let opaque: bool = brush.is_opaque() && clip.is_zero();
        self.shapes.items.push(
            ExtractedInstance {
                geometry: GeometryRef::Cached(key),
                z: source.placement.z,
                linear: source.placement.linear,
                translation: source.placement.translation,
                color: data.color,
                brush_params: data.params,
                brush_meta: data.meta,
                opaque,
                clip,
                layer,
            },
        );
        proof {
            assert(brush_resolves(*brush, source.fill_tint, old(self)@.atlas, data));
            assert(self@.items =~= old(self)@.items.push(
                instance_at(
                    key,
                    source.placement,
                    source.placement.z,
                    data,
                    brush.covers(),
                    clip,
                    layer,
                ),
            ));
        }
    }

    fn push_stroke(&mut self, source: &ShapeSource, stroke: &StrokeStyle, clip: Scalar, layer: u16)
        requires
            old(self).wf(),
            source.style.stroke == Some(*stroke),
            stroke_is_new(old(self)@, *source) ==> strokable(source.commands@, *stroke),
        ensures
            final(self).wf(),
            stroke_step(old(self)@, final(self)@, *source, *stroke, clip, layer),
            final(self).shapes.dynamic_vertices == old(self).shapes.dynamic_vertices,
            final(self).shapes.dynamic_indices == old(self).shapes.dynamic_indices,
    {
        let pair: KeyPair = self.recall(source.entity);
        let cached: Option<u64> = if source.changed {
            None
        } else {
            pair.1
        };
        let key: u64 = match cached {
            Some(key) => key,
            None => {
                let key: u64 = stroke_key(source.commands.as_slice(), stroke);
                self.keys.keys.insert(source.entity, (pair.0, Some(key)));
                let commands: &Vec<PathCommand> = source.commands;
                let tessellate = || -> (mesh: Option<MeshGeometry>)
                    requires
                        strokable(commands@, *stroke),
                    ensures
                        stroke_meshes(commands@, *stroke, mesh_view(mesh)),
                {
                    let geometry = tessellate_stroke(commands.as_slice(), stroke);
                    assert(strokes_to(commands@, *stroke, geometry_view(geometry)));
                    interior_mesh(geometry)
                };
                self.cache.ensure(key, tessellate);
                key
            },
        };
        assert(stroke_cached(old(self)@.cache, self@.cache, source.commands@, *stroke) || known(
            source.changed,
            pair.1,
        ));
        let data: BrushData = resolve_brush(&stroke.brush, source.stroke_tint, &mut self.atlas);
        let opaque: bool = stroke.brush.is_opaque() && clip.is_zero();
        self.shapes.items.push(
            ExtractedInstance {
                geometry: GeometryRef::Cached(key),
                z: source.stroke_z,
                linear: source.placement.linear,
                translation: source.placement.translation,
                color: data.color,
                brush_params: data.params,
                brush_meta: data.meta,
                opaque,
                clip,
                layer,
            },
        );
        proof {
            assert(brush_resolves(stroke.brush, source.stroke_tint, old(self)@.atlas, data));
            assert(self@.items =~= old(self)@.items.push(
                instance_at(
                    key,
                    source.placement,
                    source.stroke_z,
                    data,
                    stroke.brush.covers(),
                    clip,
                    layer,
                ),
            ));
        }
    }

    /// Adds the instances of one shape. Only an outline that can be tessellated
    /// is, and none is asked for where the geometry is there.
    pub fn push_shape(&mut self, source: &ShapeSource, clip: Scalar, layer: u16)
        requires
            old(self).wf(),
            drawable_where_new(old(self)@, *source),
        ensures
            final(self).wf(),
            shape_step(old(self)@, final(self)@, *source, clip, layer),
            final(self).shapes.dynamic_vertices == old(self).shapes.dynamic_vertices,
            final(self).shapes.dynamic_indices == old(self).shapes.dynamic_indices,
    {
        match &source.style.fill {
            None => {},
            Some(brush) => {
                self.push_fill(source, brush, clip, layer);
            },
        }
        let ghost between = self@;
        assert(fill_part(old(self)@, between, *source, clip, layer));
        proof {
            lemma_fill_part_keeps(old(self)@, between, *source, clip, layer);
        }
        match &source.style.stroke {
            None => {},
            Some(stroke) => {
                self.push_stroke(source, stroke, clip, layer);
            },
        }
        assert(stroke_part(between, self@, *source, clip, layer));
    }
}

/// What was held is held, and what was remembered is remembered, whatever its
/// key is now.
pub open spec fn keeps(before: ExtractionView, after: ExtractionView) -> bool {
    &&& forall|key: u64| #[trigger]
        before.cache.ranges.dom().contains(key) ==> after.cache.ranges.dom().contains(key)
    &&& forall|entity: u64|
        {
            &&& (#[trigger] remembered(before.keys, entity)).0 is Some ==> remembered(
                after.keys,
                entity,
            ).0 is Some
            &&& remembered(before.keys, entity).1 is Some ==> remembered(
                after.keys,
                entity,
            ).1 is Some
        }
}

proof fn lemma_fill_part_keeps(
    before: ExtractionView,
    after: ExtractionView,
    source: ShapeSource,
    clip: Scalar,
    layer: u16,
)
    requires
        fill_part(before, after, source, clip, layer),
    ensures
        keeps(before, after),
        remembered(after.keys, source.entity).1 == remembered(before.keys, source.entity).1,
{
    if let Some(brush) = source.style.fill {
        assert(fill_step(before, after, source, brush, clip, layer));
    }
}

proof fn lemma_stroke_part_keeps(
    before: ExtractionView,
    after: ExtractionView,
    source: ShapeSource,
    clip: Scalar,
    layer: u16,
)
    requires
        stroke_part(before, after, source, clip, layer),
    ensures
        keeps(before, after),
{
    if let Some(stroke) = source.style.stroke {
        assert(stroke_step(before, after, source, stroke, clip, layer));
    }
}

/// A shape drops nothing that is held or remembered.
proof fn lemma_shape_keeps(
    before: ExtractionView,
    after: ExtractionView,
    source: ShapeSource,
    clip: Scalar,
    layer: u16,
)
    requires
        shape_step(before, after, source, clip, layer),
    ensures
        keeps(before, after),
{
    let between = choose|between: ExtractionView|
        #![trigger fill_part(before, between, source, clip, layer)]
        #![trigger stroke_part(between, after, source, clip, layer)]
        fill_part(before, between, source, clip, layer) && stroke_part(
            between,
            after,
            source,
            clip,
            layer,
        );
    lemma_fill_part_keeps(before, between, source, clip, layer);
    lemma_stroke_part_keeps(between, after, source, clip, layer);
    assert forall|entity: u64|
        {
            &&& (#[trigger] remembered(before.keys, entity)).0 is Some ==> remembered(
                after.keys,
                entity,
            ).0 is Some
            &&& remembered(before.keys, entity).1 is Some ==> remembered(
                after.keys,
                entity,
            ).1 is Some
        } by {
        let middle = remembered(between.keys, entity);
        assert(middle.0 is Some ==> remembered(after.keys, entity).0 is Some);
    }
}

/// The number refers to the chain that clips the content: zero where nothing
/// does.
pub open spec fn refers(clips: ClipsView, clipped: Option<ClippedBy>, clip: Scalar) -> bool {
    clip.denotes(
        match clipped {
            Some(by) if clips.chains.dom().contains(by.0) => chain_number(
                clips.chains[by.0].0,
                clips.chains[by.0].1,
            ) as nat,
            _ => 0,
        },
        0,
    )
}

/// The state of a frame that is being extracted.
#[verifier::ext_equal]
pub struct FrameView {
    pub extraction: ExtractionView,
    pub masks: Seq<Seq<u64>>,
}

/// One shape of a frame: its layer mask is interned, its clip looked up, its
/// instances added.
pub open spec fn frame_step(
    before: FrameView,
    after: FrameView,
    source: ShapeSource,
    clips: ClipsView,
) -> bool {
    let mask = mask_words(*source.layers);
    &&& after.masks == with_mask(before.masks, mask)
    &&& exists|clip: Scalar| #[trigger]
        refers(clips, source.clipped, clip) && shape_step(
            before.extraction,
            after.extraction,
            source,
            clip,
            mask_position(after.masks, mask) as u16,
        )
}

/// All shapes of a frame, in order.
pub open spec fn frame_steps(
    before: FrameView,
    after: FrameView,
    sources: Seq<ShapeSource>,
    clips: ClipsView,
) -> bool
    decreases sources.len(),
{
    if sources.len() == 0 {
        after == before
    } else {
        exists|between: FrameView|
            frame_steps(before, between, sources.drop_last(), clips) && #[trigger] frame_step(
                between,
                after,
                sources.last(),
                clips,
            )
    }
}

impl Extraction {
    /// Extracts a frame: starts it, and then adds every shape.
    pub fn extract_shapes(
        &mut self,
        layers: &mut LayerTable,
        clips: &ExtractedClips,
        sources: &Vec<ShapeSource>,
    )
        requires
            old(self).wf(),
            clips.wf(),
            forall|i: int|
                0 <= i < sources@.len() ==> drawable_where_new(
                    begun(old(self)@),
                    #[trigger] sources@[i],
                ),
        ensures
            final(self).wf(),
            final(layers).wf(),
            final(self).shapes.dynamic_vertices@.len() == 0,
            final(self).shapes.dynamic_indices@.len() == 0,
            frame_steps(
                FrameView { extraction: begun(old(self)@), masks: Seq::empty() },
                FrameView { extraction: final(self)@, masks: final(layers)@ },
                sources@,
                clips@,
            ),
    {
        self.begin_frame(layers);
        let ghost first = FrameView { extraction: begun(old(self)@), masks: Seq::empty() };
        assert(sources@.take(0) =~= Seq::<ShapeSource>::empty());
        assert(FrameView { extraction: self@, masks: layers@ } =~= first);
        let mut i: usize = 0;
        while i < sources.len()
            invariant
                self.wf(),
                layers.wf(),
                clips.wf(),
                self.shapes.dynamic_vertices@.len() == 0,
                self.shapes.dynamic_indices@.len() == 0,
                forall|k: int|
                    0 <= k < sources@.len() ==> drawable_where_new(
                        first.extraction,
                        #[trigger] sources@[k],
                    ),
                keeps(first.extraction, self@),
                i <= sources@.len(),
                frame_steps(
                    first,
                    FrameView { extraction: self@, masks: layers@ },
                    sources@.take(i as int),
                    clips@,
                ),
            decreases sources@.len() - i,
        {
            let ghost between = FrameView { extraction: self@, masks: layers@ };
            let source: &ShapeSource = &sources[i];
            assert(drawable_where_new(first.extraction, sources@[i as int]));
            let layer: u16 = layers.intern(source.layers);
            let clip: Scalar = clips.reference(source.clipped);
            self.push_shape(source, clip, layer);
            proof {
                let after = FrameView { extraction: self@, masks: layers@ };
                assert(refers(clips@, source.clipped, clip));
                assert(frame_step(between, after, *source, clips@));
                lemma_shape_keeps(between.extraction, self@, *source, clip, layer);
                assert(sources@.take(i + 1).drop_last() =~= sources@.take(i as int));
                assert(frame_steps(first, between, sources@.take(i + 1).drop_last(), clips@));
                assert(sources@.take(i + 1).last() == *source);
                assert(frame_steps(first, after, sources@.take(i + 1), clips@));
            }
            i = i + 1;
        }
        assert(sources@.take(sources@.len() as int) =~= sources@);
    }
}

/// A parametric primitive as extraction sees it.
pub struct PrimitiveSource<'a> {
    pub primitive: VectorPrimitive,
    pub placement: Placement,
    /// The primitive's colour, 8 bits per channel.
    pub tint: [u8; 4],
    pub clipped: Option<ClippedBy>,
    pub layers: &'a Option<RenderLayers>,
}

/// The frame's arcs.
pub struct ExtractedParametrics(pub Vec<ParamItem>);

/// The frame's distance-field rectangles: the same instances as the arcs, with
/// another mesh and shader.
pub struct ExtractedSdf(pub Vec<ParamItem>);

/// The frame's parametric primitives.
pub struct ExtractedPrimitives {
    pub arcs: ExtractedParametrics,
    pub sdf: ExtractedSdf,
}

/// The parameters of a primitive.
pub open spec fn primitive_params(primitive: VectorPrimitive) -> Seq<Scalar> {
    match primitive {
        VectorPrimitive::Arc { inner, outer, start, sweep, color } => seq![
            start,
            sweep,
            inner,
            outer,
        ],
        VectorPrimitive::Rect { size, radius, thickness, color } => seq![
            size.x,
            size.y,
            radius,
            thickness,
        ],
    }
}

/// The primitive hides what is behind it. A stroked rectangle is mostly hole,
/// so it never does.
pub open spec fn primitive_covers(primitive: VectorPrimitive) -> bool {
    match primitive {
        VectorPrimitive::Arc { inner, outer, start, sweep, color } => color.covers(),
        VectorPrimitive::Rect { size, radius, thickness, color } => color.covers() && !(Scalar {
            bits: 0,
        }).lt(thickness),
    }
}

/// The item of a primitive. Clipped primitives blend.
pub open spec fn is_param_item(
    item: ParamItem,
    source: PrimitiveSource,
    clip: Scalar,
    layer: u16,
) -> bool {
    &&& item.z == source.placement.z
    &&& item.linear == source.placement.linear
    &&& item.translation == source.placement.translation
    &&& item.color == source.tint
    &&& item.params@ == primitive_params(source.primitive)
    &&& item.opaque == (primitive_covers(source.primitive) && clip.magnitude() == 0)
    &&& item.clip == clip
    &&& item.layer == layer
}

impl ExtractedPrimitives {
    pub fn new() -> (primitives: ExtractedPrimitives)
        ensures
            primitives.arcs.0@.len() == 0,
            primitives.sdf.0@.len() == 0,
    {
        ExtractedPrimitives {
            arcs: ExtractedParametrics(Vec::new()),
            sdf: ExtractedSdf(Vec::new()),
        }
    }

    /// Adds the item of one primitive to the list of its kind.
    pub fn push_primitive(&mut self, source: &PrimitiveSource, clip: Scalar, layer: u16)
        ensures
            source.primitive is Arc ==> {
                &&& final(self).sdf.0@ == old(self).sdf.0@
                &&& final(self).arcs.0@.len() == old(self).arcs.0@.len() + 1
                &&& final(self).arcs.0@.drop_last() == old(self).arcs.0@
                &&& is_param_item(final(self).arcs.0@.last(), *source, clip, layer)
            },
            source.primitive is Rect ==> {
                &&& final(self).arcs.0@ == old(self).arcs.0@
                &&& final(self).sdf.0@.len() == old(self).sdf.0@.len() + 1
                &&& final(self).sdf.0@.drop_last() == old(self).sdf.0@
                &&& is_param_item(final(self).sdf.0@.last(), *source, clip, layer)
            },
    {
        let (params, covers): ([Scalar; 4], bool) = match source.primitive {
            VectorPrimitive::Arc { inner, outer, start, sweep, color } => (
                [start, sweep, inner, outer],
                color.is_opaque(),
            ),
            VectorPrimitive::Rect { size, radius, thickness, color } => (
                [size.x, size.y, radius, thickness],
                color.is_opaque() && !Scalar::zero().less_than(&thickness),
            ),
        };
        assert(params@ =~= primitive_params(source.primitive));
        let item = ParamItem {
            z: source.placement.z,
            linear: source.placement.linear,
            translation: source.placement.translation,
            color: source.tint,
            params,
            opaque: covers && clip.is_zero(),
            clip,
            layer,
        };
        match source.primitive {
            VectorPrimitive::Arc { .. } => {
                self.arcs.0.push(item);
                assert(self.arcs.0@.drop_last() =~= old(self).arcs.0@);
            },
            VectorPrimitive::Rect { .. } => {
                self.sdf.0.push(item);
                assert(self.sdf.0@.drop_last() =~= old(self).sdf.0@);
            },
        }
    }
}

/// One primitive of a frame: its layer mask is interned, its clip looked up,
/// and one item added to the list of its kind.
pub open spec fn primitive_step(
    before: PrimitivesView,
    after: PrimitivesView,
    source: PrimitiveSource,
    clips: ClipsView,
) -> bool {
    let mask = mask_words(*source.layers);
    &&& after.masks == with_mask(before.masks, mask)
    &&& exists|clip: Scalar, item: ParamItem| #[trigger]
        is_param_item(item, source, clip, mask_position(after.masks, mask) as u16) && refers(
            clips,
            source.clipped,
            clip,
        ) && if source.primitive is Arc {
            after.arcs == before.arcs.push(item) && after.sdf == before.sdf
        } else {
            after.arcs == before.arcs && after.sdf == before.sdf.push(item)
        }
}

/// The state of a frame whose primitives are being extracted.
#[verifier::ext_equal]
pub struct PrimitivesView {
    pub arcs: Seq<ParamItem>,
    pub sdf: Seq<ParamItem>,
    pub masks: Seq<Seq<u64>>,
}

/// All primitives of a frame, in order.
pub open spec fn primitive_steps(
    before: PrimitivesView,
    after: PrimitivesView,
    sources: Seq<PrimitiveSource>,
    clips: ClipsView,
) -> bool
    decreases sources.len(),
{
    if sources.len() == 0 {
        after == before
    } else {
        exists|between: PrimitivesView|
            primitive_steps(before, between, sources.drop_last(), clips) && #[trigger] primitive_step(
                between,
                after,
                sources.last(),
                clips,
            )
    }
}

/// Extracts the frame's parametric primitives: pure instance data.
pub fn extract_primitives(
    layers: &mut LayerTable,
    clips: &ExtractedClips,
    sources: &Vec<PrimitiveSource>,
) -> (primitives: ExtractedPrimitives)
    requires
        old(layers).wf(),
        clips.wf(),
    ensures
        final(layers).wf(),
        primitive_steps(
            PrimitivesView { arcs: Seq::empty(), sdf: Seq::empty(), masks: old(layers)@ },
            PrimitivesView {
                arcs: primitives.arcs.0@,
                sdf: primitives.sdf.0@,
                masks: final(layers)@,
            },
            sources@,
            clips@,
        ),
{
    let mut primitives = ExtractedPrimitives::new();
    let ghost first = PrimitivesView {
        arcs: Seq::empty(),
        sdf: Seq::empty(),
        masks: layers@,
    };
    assert(sources@.take(0) =~= Seq::<PrimitiveSource>::empty());
    assert(PrimitivesView { arcs: primitives.arcs.0@, sdf: primitives.sdf.0@, masks: layers@ }
        =~= first);
    let mut i: usize = 0;
    while i < sources.len()
        invariant
            layers.wf(),
            clips.wf(),
            i <= sources@.len(),
            primitive_steps(
                first,
                PrimitivesView { arcs: primitives.arcs.0@, sdf: primitives.sdf.0@, masks: layers@ },
                sources@.take(i as int),
                clips@,
            ),
        decreases sources@.len() - i,
    {
        let ghost between = PrimitivesView {
            arcs: primitives.arcs.0@,
            sdf: primitives.sdf.0@,
            masks: layers@,
        };
        let source: &PrimitiveSource = &sources[i];
        let layer: u16 = layers.intern(source.layers);
        let clip: Scalar = clips.reference(source.clipped);
        primitives.push_primitive(source, clip, layer);
        proof {
            let after = PrimitivesView {
                arcs: primitives.arcs.0@,
                sdf: primitives.sdf.0@,
                masks: layers@,
            };
            let item = if source.primitive is Arc {
                primitives.arcs.0@.last()
            } else {
                primitives.sdf.0@.last()
            };
            assert(is_param_item(item, *source, clip, layer));
            assert(refers(clips@, source.clipped, clip));
            assert(source.primitive is Arc ==> after.arcs =~= between.arcs.push(item));
            assert(source.primitive is Rect ==> after.sdf =~= between.sdf.push(item));
            assert(is_param_item(
                item,
                *source,
                clip,
                mask_position(after.masks, mask_words(*source.layers)) as u16,
            ));
            assert(primitive_step(between, after, *source, clips@));
            assert(sources@.take(i + 1).drop_last() =~= sources@.take(i as int));
            assert(primitive_steps(first, between, sources@.take(i + 1).drop_last(), clips@));
            assert(sources@.take(i + 1).last() == *source);
            assert(primitive_steps(first, after, sources@.take(i + 1), clips@));
        }
        i = i + 1;
    }
    assert(sources@.take(sources@.len() as int) =~= sources@);
    primitives
}

/// Remembering is only a shortcut: where the remembered key is the hash of the
/// shape's present content, skipping the hash gives the same outcome as
/// hashing again.
pub proof fn lemma_remembered_keys_change_nothing(
    before: ExtractionView,
    after: ExtractionView,
    source: ShapeSource,
    rehashed: ShapeSource,
    clip: Scalar,
    layer: u16,
)
    requires
        keys_resident(before.keys, before.cache),
        before.keys.dom().contains(source.entity),
        !source.changed,
        rehashed == (ShapeSource { changed: true, ..source }),
        source.style.fill is Some ==> before.keys[source.entity].0 == Some(
            digest(fill_writes(source.commands@, source.style.fill_rule)),
        ),
        source.style.stroke matches Some(stroke) ==> before.keys[source.entity].1 == Some(
            digest(stroke_writes(source.commands@, stroke)),
        ),
    ensures
        fill_part(before, after, source, clip, layer) <==> fill_part(
            before,
            after,
            rehashed,
            clip,
            layer,
        ),
        stroke_part(before, after, source, clip, layer) <==> stroke_part(
            before,
            after,
            rehashed,
            clip,
            layer,
        ),
{
    let pair = remembered(before.keys, source.entity);
    assert(before.keys.insert(source.entity, pair) =~= before.keys);
    if let Some(brush) = source.style.fill {
        let content = digest(fill_writes(source.commands@, source.style.fill_rule));
        assert((Some(content), pair.1) == pair);
        assert(before.cache.ranges.dom().contains(content));
        assert(known(source.changed, pair.0) && !known(rehashed.changed, pair.0));
        if fill_step(before, after, source, brush, clip, layer) {
            let data = choose|data: BrushData| #[trigger]
                brush_resolves(brush, source.fill_tint, before.atlas, data) && after.items
                    == before.items.push(
                    instance_at(
                        content,
                        source.placement,
                        source.placement.z,
                        data,
                        brush.covers(),
                        clip,
                        layer,
                    ),
                );
            assert(brush_resolves(brush, rehashed.fill_tint, before.atlas, data));
            assert(fill_step(before, after, rehashed, brush, clip, layer));
        }
        if fill_step(before, after, rehashed, brush, clip, layer) {
            assert(after.cache == before.cache);
            assert(fill_step(before, after, source, brush, clip, layer));
        }
    }
    if let Some(stroke) = source.style.stroke {
        let content = digest(stroke_writes(source.commands@, stroke));
        assert((pair.0, Some(content)) == pair);
        assert(before.cache.ranges.dom().contains(content));
        assert(known(source.changed, pair.1) && !known(rehashed.changed, pair.1));
        if stroke_step(before, after, source, stroke, clip, layer) {
            let data = choose|data: BrushData| #[trigger]
                brush_resolves(stroke.brush, source.stroke_tint, before.atlas, data) && after.items
                    == before.items.push(
                    instance_at(
                        content,
                        source.placement,
                        source.stroke_z,
                        data,
                        stroke.brush.covers(),
                        clip,
                        layer,
                    ),
                );
            assert(brush_resolves(stroke.brush, rehashed.stroke_tint, before.atlas, data));
            assert(stroke_step(before, after, rehashed, stroke, clip, layer));
        }
        if stroke_step(before, after, rehashed, stroke, clip, layer) {
            assert(after.cache == before.cache);
            assert(stroke_step(before, after, source, stroke, clip, layer));
        }
    }
}

/// The shape's geometry is in the cache, under the hash of its content.
pub open spec fn content_resident(cache: CacheView, source: ShapeSource) -> bool {
    &&& source.style.fill is Some ==> cache.ranges.dom().contains(
        digest(fill_writes(source.commands@, source.style.fill_rule)),
    )
    &&& source.style.stroke matches Some(stroke) ==> cache.ranges.dom().contains(
        digest(stroke_writes(source.commands@, stroke)),
    )
}

/// What one cache holds, the other holds too.
pub open spec fn holds_all(before: CacheView, after: CacheView) -> bool {
    forall|key: u64| #[trigger]
        before.ranges.dom().contains(key) ==> after.ranges.dom().contains(key)
}

proof fn lemma_fill_part(
    before: ExtractionView,
    after: ExtractionView,
    source: ShapeSource,
    clip: Scalar,
    layer: u16,
)
    requires
        fill_part(before, after, source, clip, layer),
    ensures
        holds_all(before.cache, after.cache),
        0 <= after.cache.keys.len() - before.cache.keys.len() <= after.items.len()
            - before.items.len(),
        source.changed && source.style.fill is Some ==> after.cache.ranges.dom().contains(
            digest(fill_writes(source.commands@, source.style.fill_rule)),
        ),
        content_resident(before.cache, source) ==> after.cache == before.cache,
{
    if let Some(brush) = source.style.fill {
        assert(fill_step(before, after, source, brush, clip, layer));
    }
}

proof fn lemma_stroke_part(
    before: ExtractionView,
    after: ExtractionView,
    source: ShapeSource,
    clip: Scalar,
    layer: u16,
)
    requires
        stroke_part(before, after, source, clip, layer),
    ensures
        holds_all(before.cache, after.cache),
        0 <= after.cache.keys.len() - before.cache.keys.len() <= after.items.len()
            - before.items.len(),
        source.changed ==> (source.style.stroke matches Some(stroke)
            ==> after.cache.ranges.dom().contains(
            digest(stroke_writes(source.commands@, stroke)),
        )),
        content_resident(before.cache, source) ==> after.cache == before.cache,
{
    if let Some(stroke) = source.style.stroke {
        assert(stroke_step(before, after, source, stroke, clip, layer));
    }
}

proof fn lemma_frame_step(
    before: FrameView,
    after: FrameView,
    source: ShapeSource,
    clips: ClipsView,
)
    requires
        frame_step(before, after, source, clips),
    ensures
        holds_all(before.extraction.cache, after.extraction.cache),
        0 <= after.extraction.cache.keys.len() - before.extraction.cache.keys.len()
            <= after.extraction.items.len() - before.extraction.items.len(),
        source.changed ==> content_resident(after.extraction.cache, source),
        content_resident(before.extraction.cache, source) ==> after.extraction.cache
            == before.extraction.cache,
{
    let (a, b) = (before.extraction, after.extraction);
    let layer = mask_position(after.masks, mask_words(*source.layers)) as u16;
    let clip = choose|clip: Scalar| #[trigger]
        refers(clips, source.clipped, clip) && shape_step(a, b, source, clip, layer);
    let between = choose|between: ExtractionView|
        #![trigger fill_part(a, between, source, clip, layer)]
        #![trigger stroke_part(between, b, source, clip, layer)]
        fill_part(a, between, source, clip, layer) && stroke_part(between, b, source, clip, layer);
    lemma_fill_part(a, between, source, clip, layer);
    lemma_stroke_part(between, b, source, clip, layer);
}

/// A frame enters at most one cache entry for each instance that it draws, and
/// loses none.
pub proof fn lemma_frames_grow_by_their_instances(
    before: FrameView,
    after: FrameView,
    sources: Seq<ShapeSource>,
    clips: ClipsView,
)
    requires
        frame_steps(before, after, sources, clips),
    ensures
        holds_all(before.extraction.cache, after.extraction.cache),
        0 <= after.extraction.cache.keys.len() - before.extraction.cache.keys.len()
            <= after.extraction.items.len() - before.extraction.items.len(),
    decreases sources.len(),
{
    if sources.len() > 0 {
        let between = choose|between: FrameView|
            frame_steps(before, between, sources.drop_last(), clips) && #[trigger] frame_step(
                between,
                after,
                sources.last(),
                clips,
            );
        lemma_frames_grow_by_their_instances(before, between, sources.drop_last(), clips);
        lemma_frame_step(between, after, sources.last(), clips);
    }
}

/// Every shape that a frame marks as changed (as it does on first sight) has
/// its geometry in the cache behind that frame.
pub proof fn lemma_changed_shapes_become_resident(
    before: FrameView,
    after: FrameView,
    sources: Seq<ShapeSource>,
    clips: ClipsView,
)
    requires
        frame_steps(before, after, sources, clips),
    ensures
        forall|i: int|
            0 <= i < sources.len() && (#[trigger] sources[i]).changed ==> content_resident(
                after.extraction.cache,
                sources[i],
            ),
    decreases sources.len(),
{
    if sources.len() > 0 {
        let rest = sources.drop_last();
        let between = choose|between: FrameView|
            frame_steps(before, between, rest, clips) && #[trigger] frame_step(
                between,
                after,
                sources.last(),
                clips,
            );
        lemma_changed_shapes_become_resident(before, between, rest, clips);
        lemma_frame_step(between, after, sources.last(), clips);
        assert forall|i: int| 0 <= i < sources.len() && (
        #[trigger] sources[i]).changed implies content_resident(
            after.extraction.cache,
            sources[i],
        ) by {
            if i < rest.len() {
                assert(rest[i] == sources[i]);
                assert(content_resident(between.extraction.cache, rest[i]));
            }
        }
    }
}

/// Tessellate once: a frame of shapes whose geometry is in the cache has nothing
/// to tessellate and asks for no outline that can be, and it leaves the cache as
/// it is, whether they are marked as changed or not, and wherever and in whatever
/// colour they are drawn.
pub proof fn lemma_resident_shapes_tessellate_nothing(
    before: FrameView,
    after: FrameView,
    sources: Seq<ShapeSource>,
    clips: ClipsView,
)
    requires
        frame_steps(before, after, sources, clips),
        forall|i: int|
            0 <= i < sources.len() ==> content_resident(
                before.extraction.cache,
                #[trigger] sources[i],
            ),
    ensures
        after.extraction.cache == before.extraction.cache,
        forall|i: int|
            0 <= i < sources.len() ==> !fill_is_new(before.extraction, #[trigger] sources[i])
                && !stroke_is_new(before.extraction, sources[i]) && drawable_where_new(
                before.extraction,
                sources[i],
            ),
    decreases sources.len(),
{
    assert forall|i: int| 0 <= i < sources.len() implies !fill_is_new(
        before.extraction,
        #[trigger] sources[i],
    ) && !stroke_is_new(before.extraction, sources[i]) by {
        assert(content_resident(before.extraction.cache, sources[i]));
    }
    if sources.len() > 0 {
        let rest = sources.drop_last();
        let between = choose|between: FrameView|
            frame_steps(before, between, rest, clips) && #[trigger] frame_step(
                between,
                after,
                sources.last(),
                clips,
            );
        assert forall|i: int| 0 <= i < rest.len() implies content_resident(
            before.extraction.cache,
            #[trigger] rest[i],
        ) by {
            assert(rest[i] == sources[i]);
        }
        lemma_resident_shapes_tessellate_nothing(before, between, rest, clips);
        assert(content_resident(before.extraction.cache, sources[sources.len() - 1]));
        lemma_frame_step(between, after, sources.last(), clips);
    }
}

/// The shape asks for the same geometry as another: the same outline under the
/// same rule and pen, whatever the place, colour and depth.
pub open spec fn same_content(a: ShapeSource, b: ShapeSource) -> bool {
    &&& a.style.fill is Some <==> b.style.fill is Some
    &&& a.style.stroke is Some <==> b.style.stroke is Some
    &&& a.style.fill is Some ==> fill_writes(a.commands@, a.style.fill_rule) == fill_writes(
        b.commands@,
        b.style.fill_rule,
    )
    &&& a.style.stroke is Some ==> stroke_writes(a.commands@, a.style.stroke->0)
        == stroke_writes(b.commands@, b.style.stroke->0)
}

/// Tessellate once: behind a shape that was drawn, and as long as nothing is
/// dropped, there is nothing to tessellate of the same shape. That goes for a
/// shape that is not marked as changed, and for one that is where the content
/// was hashed and is the same, also under another entity.
pub proof fn lemma_drawn_shapes_are_not_tessellated_again(
    before: ExtractionView,
    after: ExtractionView,
    later: ExtractionView,
    source: ShapeSource,
    again: ShapeSource,
    clip: Scalar,
    layer: u16,
)
    requires
        shape_step(before, after, source, clip, layer),
        keeps(after, later),
        same_content(source, again),
        source.changed || !again.changed && again.entity == source.entity,
    ensures
        !fill_is_new(later, again),
        !stroke_is_new(later, again),
        drawable_where_new(later, again),
{
    let between = choose|between: ExtractionView|
        #![trigger fill_part(before, between, source, clip, layer)]
        #![trigger stroke_part(between, after, source, clip, layer)]
        fill_part(before, between, source, clip, layer) && stroke_part(
            between,
            after,
            source,
            clip,
            layer,
        );
    lemma_fill_part(before, between, source, clip, layer);
    lemma_stroke_part(between, after, source, clip, layer);
    lemma_stroke_part_keeps(between, after, source, clip, layer);
    if let Some(brush) = source.style.fill {
        assert(fill_step(before, between, source, brush, clip, layer));
        assert(remembered(between.keys, source.entity).0 is Some);
        assert(remembered(after.keys, source.entity).0 is Some);
    }
    if let Some(stroke) = source.style.stroke {
        assert(stroke_step(between, after, source, stroke, clip, layer));
        assert(remembered(after.keys, source.entity).1 is Some);
    }
    assert(remembered(after.keys, again.entity).0 is Some ==> remembered(
        later.keys,
        again.entity,
    ).0 is Some);
}

/// The flush scales with the scene: a cache that held no more than three times
/// the instances of a frame before that frame (none, after a flush) survives
/// the start of the next one, however many geometries there are.
pub proof fn lemma_living_scenes_are_not_flushed(
    before: FrameView,
    after: FrameView,
    sources: Seq<ShapeSource>,
    clips: ClipsView,
)
    requires
        frame_steps(before, after, sources, clips),
        before.extraction.items.len() == 0,
        before.extraction.cache.keys.len() <= 3 * after.extraction.items.len(),
        after.extraction.cache.keys.len() <= usize::MAX,
    ensures
        begun(after.extraction).cache == after.extraction.cache,
{
    lemma_frames_grow_by_their_instances(before, after, sources, clips);
}

/// What a cache held stays where it is: every range, and the arrays up to where
/// they ended.
pub open spec fn extends(before: CacheView, after: CacheView) -> bool {
    &&& forall|key: u64| #[trigger]
        before.ranges.dom().contains(key) ==> after.ranges.dom().contains(key)
            && after.ranges[key] == before.ranges[key]
    &&& before.vertices.len() <= after.vertices.len()
    &&& after.vertices.take(before.vertices.len() as int) == before.vertices
    &&& before.indices.len() <= after.indices.len()
    &&& after.indices.take(before.indices.len() as int) == before.indices
}

/// The cached geometry of every instance is in the cache.
pub open spec fn items_resident(items: Seq<ExtractedInstance>, cache: CacheView) -> bool {
    forall|i: int|
        0 <= i < items.len() ==> ((#[trigger] items[i]).geometry matches GeometryRef::Cached(key)
            ==> cache.ranges.dom().contains(key))
}

/// An instance draws the geometry under the key.
pub open spec fn drawn_from(items: Seq<ExtractedInstance>, key: u64) -> bool {
    exists|i: int| 0 <= i < items.len() && (#[trigger] items[i]).geometry == GeometryRef::Cached(key)
}

/// Keys and instances refer to what the cache has.
pub open spec fn resident(view: ExtractionView) -> bool {
    keys_resident(view.keys, view.cache) && items_resident(view.items, view.cache)
}

/// The cache holds what it held and what is drawn since, and nothing else.
pub open spec fn advances(before: ExtractionView, after: ExtractionView) -> bool {
    &&& extends(before.cache, after.cache)
    &&& before.items.len() <= after.items.len()
    &&& after.items.take(before.items.len() as int) == before.items
    &&& forall|key: u64| #[trigger]
        after.cache.ranges.dom().contains(key) ==> before.cache.ranges.dom().contains(key)
            || drawn_from(after.items, key)
}

proof fn lemma_grown_extends(before: CacheView, key: u64, mesh: Option<MeshView>)
    requires
        !before.ranges.dom().contains(key),
    ensures
        extends(before, before.grown(key, mesh)),
{
    let after = before.grown(key, mesh);
    assert(after.vertices.take(before.vertices.len() as int) =~= before.vertices);
    assert(after.indices.take(before.indices.len() as int) =~= before.indices);
}

proof fn lemma_unchanged_advances(view: ExtractionView)
    ensures
        advances(view, view),
{
    assert(view.cache.vertices.take(view.cache.vertices.len() as int) =~= view.cache.vertices);
    assert(view.cache.indices.take(view.cache.indices.len() as int) =~= view.cache.indices);
    assert(view.items.take(view.items.len() as int) =~= view.items);
}

proof fn lemma_advances_on(a: ExtractionView, b: ExtractionView, c: ExtractionView)
    requires
        advances(a, b),
        advances(b, c),
    ensures
        advances(a, c),
{
    let (x, y, z) = (a.cache, b.cache, c.cache);
    assert(z.vertices.take(x.vertices.len() as int) =~= z.vertices.take(
        y.vertices.len() as int,
    ).take(x.vertices.len() as int));
    assert(z.indices.take(x.indices.len() as int) =~= z.indices.take(y.indices.len() as int).take(
        x.indices.len() as int,
    ));
    assert(c.items.take(a.items.len() as int) =~= c.items.take(b.items.len() as int).take(
        a.items.len() as int,
    ));
    assert forall|key: u64| #[trigger] z.ranges.dom().contains(key) implies x.ranges.dom().contains(
        key,
    ) || drawn_from(c.items, key) by {
        if y.ranges.dom().contains(key) && drawn_from(b.items, key) {
            let i = choose|i: int|
                0 <= i < b.items.len() && (#[trigger] b.items[i]).geometry == GeometryRef::Cached(
                    key,
                );
            assert(c.items.take(b.items.len() as int)[i] == c.items[i]);
        }
    }
}

/// One instance of a key that is held behind its step.
proof fn lemma_instance_step(
    before: ExtractionView,
    after: ExtractionView,
    key: u64,
    item: ExtractedInstance,
)
    requires
        items_resident(before.items, before.cache),
        after.cache == before.cache || exists|mesh: Option<MeshView>|
            !before.cache.ranges.dom().contains(key) && after.cache == #[trigger] before.cache.grown(
                key,
                mesh,
            ),
        after.cache.ranges.dom().contains(key),
        after.items == before.items.push(item),
        item.geometry == GeometryRef::Cached(key),
    ensures
        items_resident(after.items, after.cache),
        advances(before, after),
{
    if after.cache != before.cache {
        let mesh = choose|mesh: Option<MeshView>|
            !before.cache.ranges.dom().contains(key) && after.cache == #[trigger] before.cache.grown(
                key,
                mesh,
            );
        lemma_grown_extends(before.cache, key, mesh);
    } else {
        lemma_unchanged_advances(before);
    }
    assert(after.items.take(before.items.len() as int) =~= before.items);
    assert(after.items[before.items.len() as int] == item);
    assert(drawn_from(after.items, key));
    assert forall|i: int| 0 <= i < after.items.len() implies ((
    #[trigger] after.items[i]).geometry matches GeometryRef::Cached(k)
        ==> after.cache.ranges.dom().contains(k)) by {
        if i < before.items.len() {
            assert(after.items[i] == before.items[i]);
        }
    }
}

proof fn lemma_fill_stays_resident(
    before: ExtractionView,
    after: ExtractionView,
    source: ShapeSource,
    clip: Scalar,
    layer: u16,
)
    requires
        fill_part(before, after, source, clip, layer),
        resident(before),
    ensures
        resident(after),
        advances(before, after),
{
    lemma_unchanged_advances(before);
    if let Some(brush) = source.style.fill {
        assert(fill_step(before, after, source, brush, clip, layer));
        let pair = remembered(before.keys, source.entity);
        let content = digest(fill_writes(source.commands@, source.style.fill_rule));
        let key = if known(source.changed, pair.0) {
            pair.0->0
        } else {
            content
        };
        if !known(source.changed, pair.0) && !before.cache.ranges.dom().contains(content) {
            let mesh = choose|mesh: Option<MeshView>| #[trigger]
                fill_meshes(source.commands@, source.style.fill_rule, mesh) && after.cache
                    == before.cache.grown(content, mesh);
            assert(after.cache == before.cache.grown(content, mesh));
        }
        assert(after.items[before.items.len() as int].geometry == GeometryRef::Cached(key));
        lemma_instance_step(before, after, key, after.items.last());
    }
}

proof fn lemma_stroke_stays_resident(
    before: ExtractionView,
    after: ExtractionView,
    source: ShapeSource,
    clip: Scalar,
    layer: u16,
)
    requires
        stroke_part(before, after, source, clip, layer),
        resident(before),
    ensures
        resident(after),
        advances(before, after),
{
    lemma_unchanged_advances(before);
    if let Some(stroke) = source.style.stroke {
        assert(stroke_step(before, after, source, stroke, clip, layer));
        let pair = remembered(before.keys, source.entity);
        let content = digest(stroke_writes(source.commands@, stroke));
        let key = if known(source.changed, pair.1) {
            pair.1->0
        } else {
            content
        };
        if !known(source.changed, pair.1) && !before.cache.ranges.dom().contains(content) {
            let mesh = choose|mesh: Option<MeshView>| #[trigger]
                stroke_meshes(source.commands@, stroke, mesh) && after.cache == before.cache.grown(
                    content,
                    mesh,
                );
            assert(after.cache == before.cache.grown(content, mesh));
        }
        assert(after.items[before.items.len() as int].geometry == GeometryRef::Cached(key));
        lemma_instance_step(before, after, key, after.items.last());
    }
}

proof fn lemma_steps_stay_resident(
    before: FrameView,
    after: FrameView,
    sources: Seq<ShapeSource>,
    clips: ClipsView,
)
    requires
        frame_steps(before, after, sources, clips),
        resident(before.extraction),
    ensures
        resident(after.extraction),
        advances(before.extraction, after.extraction),
    decreases sources.len(),
{
    lemma_unchanged_advances(before.extraction);
    if sources.len() > 0 {
        let source = sources.last();
        let between = choose|between: FrameView|
            frame_steps(before, between, sources.drop_last(), clips) && #[trigger] frame_step(
                between,
                after,
                source,
                clips,
            );
        lemma_steps_stay_resident(before, between, sources.drop_last(), clips);
        let (a, c) = (between.extraction, after.extraction);
        let layer = mask_position(after.masks, mask_words(*source.layers)) as u16;
        let clip = choose|clip: Scalar| #[trigger]
            refers(clips, source.clipped, clip) && shape_step(a, c, source, clip, layer);
        let b = choose|b: ExtractionView|
            #![trigger fill_part(a, b, source, clip, layer)]
            #![trigger stroke_part(b, c, source, clip, layer)]
            fill_part(a, b, source, clip, layer) && stroke_part(b, c, source, clip, layer);
        lemma_fill_stays_resident(a, b, source, clip, layer);
        lemma_stroke_stays_resident(b, c, source, clip, layer);
        lemma_advances_on(a, b, c);
        lemma_advances_on(before.extraction, a, c);
    }
}

/// What is drawn can be drawn: behind a frame every instance's geometry and
/// every remembered key is in the cache, whether or not the frame's start
/// dropped the cache or the keys. Where it did not drop the cache, all that the
/// cache held is where it was, and what is new is drawn; where it did, the cache
/// holds what the frame draws and nothing else.
pub proof fn lemma_frames_draw_what_is_cached(
    before: ExtractionView,
    after: FrameView,
    sources: Seq<ShapeSource>,
    clips: ClipsView,
)
    requires
        keys_resident(before.keys, before.cache),
        frame_steps(
            FrameView { extraction: begun(before), masks: Seq::empty() },
            after,
            sources,
            clips,
        ),
    ensures
        keys_resident(after.extraction.keys, after.extraction.cache),
        items_resident(after.extraction.items, after.extraction.cache),
        !flushed(before) ==> extends(before.cache, after.extraction.cache),
        !flushed(before) ==> forall|key: u64| #[trigger]
            after.extraction.cache.ranges.dom().contains(key) ==> before.cache.ranges.dom().contains(
                key,
            ) || drawn_from(after.extraction.items, key),
        flushed(before) ==> forall|key: u64| #[trigger]
            after.extraction.cache.ranges.dom().contains(key) <==> drawn_from(
                after.extraction.items,
                key,
            ),
{
    let start = begun(before);
    assert(resident(start));
    lemma_steps_stay_resident(
        FrameView { extraction: start, masks: Seq::empty() },
        after,
        sources,
        clips,
    );
    assert forall|key: u64| drawn_from(after.extraction.items, key) implies
        #[trigger] after.extraction.cache.ranges.dom().contains(key) by {
        let i = choose|i: int|
            0 <= i < after.extraction.items.len() && (
            #[trigger] after.extraction.items[i]).geometry == GeometryRef::Cached(key);
        assert(after.extraction.items[i].geometry == GeometryRef::Cached(key));
    }
}

/// Clipped content never takes the opaque path, and content clipped by nothing
/// that was resolved is not clipped at all.
pub proof fn lemma_clipped_content_blends(
    clips: ClipsView,
    clipped: Option<ClippedBy>,
    clip: Scalar,
    key: u64,
    placement: Placement,
    z: Scalar,
    data: BrushData,
    layer: u16,
)
    requires
        refers(clips, clipped, clip),
        forall|head: u64| #[trigger]
            clips.chains.dom().contains(head) ==> clips.chains[head].1 >= 1,
    ensures
        (clipped matches Some(by) && clips.chains.dom().contains(by.0)) ==> !instance_at(
            key,
            placement,
            z,
            data,
            true,
            clip,
            layer,
        ).opaque,
        !(clipped matches Some(by) && clips.chains.dom().contains(by.0)) ==> instance_at(
            key,
            placement,
            z,
            data,
            true,
            clip,
            layer,
        ).opaque,
{
    lemma_denotes_zero(
        clip,
        match clipped {
            Some(by) if clips.chains.dom().contains(by.0) => chain_number(
                clips.chains[by.0].0,
                clips.chains[by.0].1,
            ) as nat,
            _ => 0,
        },
        0,
    );
}

/// Every index of a mesh names one of its vertices.
pub open spec fn names_its_vertices(mesh: MeshView) -> bool {
    indices_below(mesh.interior_indices, mesh.vertices.len()) && indices_below(
        mesh.fringe_indices,
        mesh.vertices.len(),
    )
}

/// What a fill or a stroke brings into the cache draws nothing but its own
/// vertices: every index of the mesh names one, and so does every index of its
/// range in the shared arrays, counted from the range's base.
pub proof fn lemma_cached_indices_name_vertices(
    before: CacheView,
    key: u64,
    commands: Seq<PathCommand>,
    style: PathStyle,
    mesh: MeshView,
)
    requires
        before.vertices.len() + mesh.vertices.len() <= i32::MAX,
        before.indices.len() + mesh.interior_indices.len() + mesh.fringe_indices.len() <= u32::MAX,
        fill_meshes(commands, style.fill_rule, Some(mesh)) || (style.stroke matches Some(stroke)
            && stroke_meshes(commands, stroke, Some(mesh))),
    ensures
        names_its_vertices(mesh),
        ({
            let after = before.grown(key, Some(mesh));
            let range = after.ranges[key]->0;
            forall|i: int|
                range.interior_first <= i < range.fringe_first + range.fringe_count ==> range.base_vertex
                    + (#[trigger] after.indices[i]) < after.vertices.len()
        }),
{
    if fill_meshes(commands, style.fill_rule, Some(mesh)) {
        let geometry = choose|geometry: Option<GeometryView>| #[trigger]
            fills_to(commands, style.fill_rule, geometry) && Some(mesh) == interior_view(geometry);
        assert(sound(geometry));
    } else {
        let stroke = style.stroke->0;
        let geometry = choose|geometry: Option<GeometryView>| #[trigger]
            strokes_to(commands, stroke, geometry) && Some(mesh) == interior_view(geometry);
        assert(sound(geometry));
    }
    let after = before.grown(key, Some(mesh));
    let range = after.ranges[key]->0;
    assert forall|i: int|
        range.interior_first <= i < range.fringe_first + range.fringe_count implies range.base_vertex
        + (#[trigger] after.indices[i]) < after.vertices.len() by {
        let at = i - before.indices.len();
        assert(after.indices[i] == mesh.interior_indices[at]);
    }
}

/// The alpha is at least one, as a bit pattern; no such number is no alpha.
pub open spec fn full_alpha(color: LinearRgba) -> bool {
    0x3f80_0000 <= color.alpha.bits <= 0x7f80_0000
}

/// Nothing shows through the brush: its colour, or that of every stop, has full
/// alpha.
pub open spec fn hides_all(brush: Brush) -> bool {
    match brush {
        Brush::Solid(color) => full_alpha(color),
        Brush::Linear { start, end, stops } => forall|i: int|
            0 <= i < stops@.len() ==> full_alpha((#[trigger] stops@[i]).color),
        Brush::Radial { center, radius, stops } => forall|i: int|
            0 <= i < stops@.len() ==> full_alpha((#[trigger] stops@[i]).color),
    }
}

/// The instance is painted flat in this tint.
pub open spec fn paints_flat(item: ExtractedInstance, tint: [u8; 4]) -> bool {
    &&& item.color == tint
    &&& item.brush_meta.bits == 0
    &&& forall|i: int| 0 <= i < 4 ==> (#[trigger] item.brush_params@[i]).bits == 0
}

/// The instance is painted with a gradient: over white, with this geometry, from
/// this row, of this kind.
pub open spec fn paints_gradient(
    item: ExtractedInstance,
    params: Seq<Scalar>,
    row: u32,
    kind: nat,
) -> bool {
    &&& forall|i: int| 0 <= i < 4 ==> #[trigger] item.color@[i] == 255
    &&& forall|i: int| 0 <= i < 4 ==> #[trigger] item.brush_params@[i] == params[i]
    &&& item.brush_meta.denotes((4 * row + kind) as nat, 0)
}

/// The instance is painted with its brush: a solid one flat in its tint, a
/// gradient from the row of its own stops, or flat in its tint where the atlas
/// was full.
pub open spec fn paints_brush(
    item: ExtractedInstance,
    brush: Brush,
    tint: [u8; 4],
    atlas: AtlasView,
) -> bool {
    match brush {
        Brush::Solid(_) => paints_flat(item, tint),
        Brush::Linear { start, end, stops } => if atlas.rows.dom().contains(stops_key(stops@)) {
            paints_gradient(
                item,
                seq![start.x, start.y, end.x, end.y],
                atlas.rows[stops_key(stops@)],
                1,
            )
        } else {
            paints_flat(item, tint) && atlas.next_row >= 1024
        },
        Brush::Radial { center, radius, stops } => if atlas.rows.dom().contains(
            stops_key(stops@),
        ) {
            paints_gradient(
                item,
                seq![center.x, center.y, radius, Scalar { bits: 0 }],
                atlas.rows[stops_key(stops@)],
                2,
            )
        } else {
            paints_flat(item, tint) && atlas.next_row >= 1024
        },
    }
}

/// The instance stands where the shape was placed, element by element.
pub open spec fn stands_where_placed(item: ExtractedInstance, source: ShapeSource) -> bool {
    &&& forall|i: int| 0 <= i < 4 ==> #[trigger] item.linear@[i] == source.placement.linear@[i]
    &&& forall|i: int|
        0 <= i < 2 ==> #[trigger] item.translation@[i] == source.placement.translation@[i]
}

/// The number is that of the chain that clips the content: eight times its
/// start and its length, and zero where nothing clips it.
pub open spec fn clips_by_number(clip: Scalar, clipped: Option<ClippedBy>, clips: ClipsView) -> bool {
    match clipped {
        Some(by) => if clips.chains.dom().contains(by.0) {
            clip.denotes(
                (8 * clips.chains[by.0].0 + if clips.chains[by.0].1 < 7 {
                    clips.chains[by.0].1 as int
                } else {
                    7
                }) as nat,
                0,
            )
        } else {
            clip.bits == 0
        },
        None => clip.bits == 0,
    }
}

/// The words of the mask that content has: its own, or that of layer 0.
pub open spec fn own_mask(layers: Option<RenderLayers>) -> Seq<u64> {
    match layers {
        Some(layers) => layer_words(layers),
        None => seq![1u64],
    }
}

/// As long as ids have not wrapped, the id leads to the mask of the content.
pub open spec fn leads_to_mask(
    id: u16,
    layers: Option<RenderLayers>,
    masks: Seq<Seq<u64>>,
) -> bool {
    masks.len() <= 0x1_0000 ==> id < masks.len() && masks[id as int] == own_mask(layers)
}

/// The instance draws one part of the shape: where the shape was placed, at this
/// depth, painted with this brush, clipped by the shape's clip and in the shape's
/// layers. It is opaque exactly where nothing shows through and nothing clips.
pub open spec fn draws_part(
    item: ExtractedInstance,
    source: ShapeSource,
    brush: Brush,
    tint: [u8; 4],
    z: Scalar,
    frame: FrameView,
    clips: ClipsView,
) -> bool {
    &&& stands_where_placed(item, source)
    &&& item.z == z
    &&& paints_brush(item, brush, tint, frame.extraction.atlas)
    &&& clips_by_number(item.clip, source.clipped, clips)
    &&& item.opaque <==> hides_all(brush) && item.clip.bits % 0x8000_0000 == 0
    &&& leads_to_mask(item.layer, *source.layers, frame.masks)
}

/// How many instances a shape adds: one for its fill, one for its stroke.
pub open spec fn instances_of(source: ShapeSource) -> nat {
    (if source.style.fill is Some {
        1nat
    } else {
        0nat
    }) + (if source.style.stroke is Some {
        1nat
    } else {
        0nat
    })
}

pub open spec fn all_instances_of(sources: Seq<ShapeSource>) -> nat
    decreases sources.len(),
{
    if sources.len() == 0 {
        0
    } else {
        all_instances_of(sources.drop_last()) + instances_of(sources.last())
    }
}

/// The instances of one shape, its fill before its stroke, begin at this place.
pub open spec fn draws_shape_at(
    frame: FrameView,
    at: int,
    source: ShapeSource,
    clips: ClipsView,
) -> bool {
    let items = frame.extraction.items;
    &&& at + instances_of(source) <= items.len()
    &&& source.style.fill matches Some(brush) ==> draws_part(
        items[at],
        source,
        brush,
        source.fill_tint,
        source.placement.z,
        frame,
        clips,
    ) && (source.changed ==> items[at].geometry == GeometryRef::Cached(
        digest(fill_writes(source.commands@, source.style.fill_rule)),
    ))
    &&& source.style.stroke matches Some(stroke) ==> {
        let own = if source.style.fill is Some {
            at + 1
        } else {
            at
        };
        draws_part(
            items[own],
            source,
            stroke.brush,
            source.stroke_tint,
            source.stroke_z,
            frame,
            clips,
        ) && (source.changed ==> items[own].geometry == GeometryRef::Cached(
            digest(stroke_writes(source.commands@, stroke)),
        ))
    }
}

/// Later in a frame: instances, masks and rows are where they were, and a full
/// atlas has taken no more.
pub open spec fn later(before: FrameView, after: FrameView) -> bool {
    let (a, b) = (before.extraction.atlas, after.extraction.atlas);
    &&& before.extraction.items.len() <= after.extraction.items.len()
    &&& forall|i: int|
        0 <= i < before.extraction.items.len() ==> after.extraction.items[i]
            == #[trigger] before.extraction.items[i]
    &&& before.masks.len() <= after.masks.len()
    &&& forall|i: int|
        0 <= i < before.masks.len() ==> after.masks[i] == #[trigger] before.masks[i]
    &&& forall|key: u64| #[trigger]
        a.rows.dom().contains(key) ==> b.rows.dom().contains(key) && b.rows[key] == a.rows[key]
    &&& a.next_row >= 1024 ==> b.rows == a.rows
    &&& a.next_row <= b.next_row
}

proof fn lemma_draws_part_later(
    item: ExtractedInstance,
    source: ShapeSource,
    brush: Brush,
    tint: [u8; 4],
    z: Scalar,
    before: FrameView,
    after: FrameView,
    clips: ClipsView,
)
    requires
        later(before, after),
        draws_part(item, source, brush, tint, z, before, clips),
    ensures
        draws_part(item, source, brush, tint, z, after, clips),
{
    if after.masks.len() <= 0x1_0000 {
        assert(before.masks[item.layer as int] == own_mask(*source.layers));
    }
    match brush {
        Brush::Solid(_) => {},
        Brush::Linear { start, end, stops } => {
            let key = stops_key(stops@);
            if before.extraction.atlas.rows.dom().contains(key) {
                assert(after.extraction.atlas.rows.dom().contains(key));
            }
        },
        Brush::Radial { center, radius, stops } => {
            let key = stops_key(stops@);
            if before.extraction.atlas.rows.dom().contains(key) {
                assert(after.extraction.atlas.rows.dom().contains(key));
            }
        },
    }
}

proof fn lemma_draws_shape_later(
    before: FrameView,
    after: FrameView,
    at: int,
    source: ShapeSource,
    clips: ClipsView,
)
    requires
        0 <= at,
        later(before, after),
        draws_shape_at(before, at, source, clips),
    ensures
        draws_shape_at(after, at, source, clips),
{
    let items = before.extraction.items;
    if let Some(brush) = source.style.fill {
        assert(after.extraction.items[at] == items[at]);
        lemma_draws_part_later(
            items[at],
            source,
            brush,
            source.fill_tint,
            source.placement.z,
            before,
            after,
            clips,
        );
    }
    if let Some(stroke) = source.style.stroke {
        let own = if source.style.fill is Some {
            at + 1
        } else {
            at
        };
        assert(after.extraction.items[own] == items[own]);
        lemma_draws_part_later(
            items[own],
            source,
            stroke.brush,
            source.stroke_tint,
            source.stroke_z,
            before,
            after,
            clips,
        );
    }
}

proof fn lemma_hides_all(brush: Brush)
    ensures
        brush.covers() == hides_all(brush),
{
    match brush {
        Brush::Solid(color) => {},
        Brush::Linear { start, end, stops } => {
            assert forall|i: int| 0 <= i < stops@.len() implies (#[trigger] stops@[i]).color.covers()
                == full_alpha(stops@[i].color) by {}
        },
        Brush::Radial { center, radius, stops } => {
            assert forall|i: int| 0 <= i < stops@.len() implies (#[trigger] stops@[i]).color.covers()
                == full_alpha(stops@[i].color) by {}
        },
    }
}

proof fn lemma_clip_number(clips: ClipsView, clipped: Option<ClippedBy>, clip: Scalar)
    requires
        refers(clips, clipped, clip),
    ensures
        clips_by_number(clip, clipped, clips),
{
    let number = match clipped {
        Some(by) if clips.chains.dom().contains(by.0) => chain_number(
            clips.chains[by.0].0,
            clips.chains[by.0].1,
        ) as nat,
        _ => 0,
    };
    lemma_denotes_zero(clip, number, 0);
}

/// One part of a shape, as its step adds it.
proof fn lemma_part_is_drawn(
    item: ExtractedInstance,
    source: ShapeSource,
    brush: Brush,
    tint: [u8; 4],
    z: Scalar,
    key: u64,
    data: BrushData,
    clip: Scalar,
    before: AtlasView,
    frame: FrameView,
    clips: ClipsView,
)
    requires
        item == instance_at(
            key,
            source.placement,
            z,
            data,
            brush.covers(),
            clip,
            mask_position(frame.masks, mask_words(*source.layers)) as u16,
        ),
        brush_resolves(brush, tint, before, data),
        frame.extraction.atlas == brush_atlas(brush, before),
        0 <= before.next_row <= u32::MAX,
        refers(clips, source.clipped, clip),
        0 <= mask_position(frame.masks, mask_words(*source.layers)) < frame.masks.len(),
        frame.masks[mask_position(frame.masks, mask_words(*source.layers))] == mask_words(
            *source.layers,
        ),
    ensures
        draws_part(item, source, brush, tint, z, frame, clips),
{
    lemma_hides_all(brush);
    lemma_clip_number(clips, source.clipped, clip);
    lemma_brushes_paint_their_own(brush, tint, before, data);
    assert(item.linear@ == source.placement.linear@);
    assert(item.translation@ == source.placement.translation@);
    assert(item.color@ == data.color@);
    assert(item.brush_params@ == data.params@);
}

#[verifier::rlimit(40)]
proof fn lemma_shape_is_drawn(
    before: FrameView,
    after: FrameView,
    source: ShapeSource,
    clips: ClipsView,
)
    requires
        frame_step(before, after, source, clips),
        before.extraction.atlas.consistent(),
    ensures
        after.extraction.atlas.consistent(),
        later(before, after),
        after.extraction.items.len() == before.extraction.items.len() + instances_of(source),
        draws_shape_at(after, before.extraction.items.len() as int, source, clips),
{
    let mask = mask_words(*source.layers);
    lemma_masks_are_entered_once(before.masks, mask);
    let (a, c) = (before.extraction, after.extraction);
    let layer = mask_position(after.masks, mask) as u16;
    let clip = choose|clip: Scalar| #[trigger]
        refers(clips, source.clipped, clip) && shape_step(a, c, source, clip, layer);
    let b = choose|b: ExtractionView|
        #![trigger fill_part(a, b, source, clip, layer)]
        #![trigger stroke_part(b, c, source, clip, layer)]
        fill_part(a, b, source, clip, layer) && stroke_part(b, c, source, clip, layer);
    let middle = FrameView { extraction: b, masks: after.masks };
    let n = a.items.len() as int;
    if let Some(brush) = source.style.fill {
        let pair = remembered(a.keys, source.entity);
        let key = if known(source.changed, pair.0) {
            pair.0->0
        } else {
            digest(fill_writes(source.commands@, source.style.fill_rule))
        };
        let data = choose|data: BrushData| #[trigger]
            brush_resolves(brush, source.fill_tint, a.atlas, data) && b.items == a.items.push(
                instance_at(
                    key,
                    source.placement,
                    source.placement.z,
                    data,
                    brush.covers(),
                    clip,
                    layer,
                ),
            );
        lemma_part_is_drawn(
            b.items[n],
            source,
            brush,
            source.fill_tint,
            source.placement.z,
            key,
            data,
            clip,
            a.atlas,
            middle,
            clips,
        );
    }
    assert(b.atlas.consistent());
    assert(later(before, middle));
    let m = b.items.len() as int;
    if let Some(stroke) = source.style.stroke {
        let pair = remembered(b.keys, source.entity);
        let key = if known(source.changed, pair.1) {
            pair.1->0
        } else {
            digest(stroke_writes(source.commands@, stroke))
        };
        let data = choose|data: BrushData| #[trigger]
            brush_resolves(stroke.brush, source.stroke_tint, b.atlas, data) && c.items
                == b.items.push(
                instance_at(
                    key,
                    source.placement,
                    source.stroke_z,
                    data,
                    stroke.brush.covers(),
                    clip,
                    layer,
                ),
            );
        lemma_part_is_drawn(
            c.items[m],
            source,
            stroke.brush,
            source.stroke_tint,
            source.stroke_z,
            key,
            data,
            clip,
            b.atlas,
            after,
            clips,
        );
    }
    assert(later(middle, after));
    if let Some(brush) = source.style.fill {
        assert(c.items[n] == b.items[n]);
        lemma_draws_part_later(
            b.items[n],
            source,
            brush,
            source.fill_tint,
            source.placement.z,
            middle,
            after,
            clips,
        );
    }
    assert forall|i: int| 0 <= i < a.items.len() implies c.items[i] == #[trigger] a.items[i] by {
        assert(b.items[i] == a.items[i]);
    }
    assert forall|key: u64| #[trigger] a.atlas.rows.dom().contains(key) implies
        c.atlas.rows.dom().contains(key) && c.atlas.rows[key] == a.atlas.rows[key] by {
        assert(b.atlas.rows.dom().contains(key));
    }
}

/// A frame draws every shape, in order, and nothing else: each adds one instance
/// for its fill and one for its stroke, as far as it has them, which stand where
/// the shape was placed, at its depth, painted with its brush, in its layers and
/// under its clip; and only what hides everything behind it is drawn as opaque.
#[verifier::rlimit(40)]
pub proof fn lemma_frames_draw_every_shape(
    before: FrameView,
    after: FrameView,
    sources: Seq<ShapeSource>,
    clips: ClipsView,
)
    requires
        frame_steps(before, after, sources, clips),
        before.extraction.atlas.consistent(),
    ensures
        after.extraction.atlas.consistent(),
        later(before, after),
        after.extraction.items.len() == before.extraction.items.len() + all_instances_of(sources),
        forall|i: int|
            0 <= i < sources.len() ==> draws_shape_at(
                after,
                (before.extraction.items.len() + all_instances_of(sources.take(i))) as int,
                #[trigger] sources[i],
                clips,
            ),
    decreases sources.len(),
{
    if sources.len() > 0 {
        let rest = sources.drop_last();
        let between = choose|between: FrameView|
            frame_steps(before, between, rest, clips) && #[trigger] frame_step(
                between,
                after,
                sources.last(),
                clips,
            );
        lemma_frames_draw_every_shape(before, between, rest, clips);
        lemma_shape_is_drawn(between, after, sources.last(), clips);
        assert forall|i: int|
            0 <= i < before.extraction.items.len() implies after.extraction.items[i]
            == #[trigger] before.extraction.items[i] by {
            assert(between.extraction.items[i] == before.extraction.items[i]);
        }
        assert forall|i: int| 0 <= i < before.masks.len() implies after.masks[i]
            == #[trigger] before.masks[i] by {
            assert(between.masks[i] == before.masks[i]);
        }
        assert forall|key: u64| #[trigger]
            before.extraction.atlas.rows.dom().contains(key) implies
            after.extraction.atlas.rows.dom().contains(key)
            && after.extraction.atlas.rows[key] == before.extraction.atlas.rows[key] by {
            assert(between.extraction.atlas.rows.dom().contains(key));
        }
        assert forall|i: int| 0 <= i < sources.len() implies draws_shape_at(
            after,
            (before.extraction.items.len() + all_instances_of(sources.take(i))) as int,
            #[trigger] sources[i],
            clips,
        ) by {
            if i < rest.len() {
                assert(rest[i] == sources[i]);
                assert(rest.take(i) =~= sources.take(i));
                lemma_draws_shape_later(
                    between,
                    after,
                    (before.extraction.items.len() + all_instances_of(sources.take(i))) as int,
                    sources[i],
                    clips,
                );
            } else {
                assert(sources.take(i) =~= rest);
            }
        }
    } else {
        assert(sources.take(0) =~= sources);
    }
}

/// The item draws the primitive: where it was placed, in its tint, with its own
/// parameters, clipped by its clip and in its layers. It is opaque exactly where
/// its colour has full alpha, nothing clips it, and it is no stroked rectangle
/// (one whose thickness is a number above zero).
pub open spec fn draws_primitive(
    item: ParamItem,
    source: PrimitiveSource,
    masks: Seq<Seq<u64>>,
    clips: ClipsView,
) -> bool {
    &&& item.z == source.placement.z
    &&& forall|i: int| 0 <= i < 4 ==> #[trigger] item.linear@[i] == source.placement.linear@[i]
    &&& forall|i: int|
        0 <= i < 2 ==> #[trigger] item.translation@[i] == source.placement.translation@[i]
    &&& item.color == source.tint
    &&& clips_by_number(item.clip, source.clipped, clips)
    &&& leads_to_mask(item.layer, *source.layers, masks)
    &&& match source.primitive {
        VectorPrimitive::Arc { inner, outer, start, sweep, color } => {
            &&& item.params@[0] == start && item.params@[1] == sweep
            &&& item.params@[2] == inner && item.params@[3] == outer
            &&& item.opaque <==> full_alpha(color) && item.clip.bits % 0x8000_0000 == 0
        },
        VectorPrimitive::Rect { size, radius, thickness, color } => {
            &&& item.params@[0] == size.x && item.params@[1] == size.y
            &&& item.params@[2] == radius && item.params@[3] == thickness
            &&& item.opaque <==> full_alpha(color) && item.clip.bits % 0x8000_0000 == 0 && !(0
                < thickness.bits <= 0x7f80_0000)
        },
    }
}

/// How many of the primitives are arcs.
pub open spec fn arcs_among(sources: Seq<PrimitiveSource>) -> nat
    decreases sources.len(),
{
    if sources.len() == 0 {
        0
    } else {
        arcs_among(sources.drop_last()) + if sources.last().primitive is Arc {
            1nat
        } else {
            0nat
        }
    }
}

proof fn lemma_arcs_among(sources: Seq<PrimitiveSource>)
    ensures
        arcs_among(sources) <= sources.len(),
    decreases sources.len(),
{
    if sources.len() > 0 {
        lemma_arcs_among(sources.drop_last());
    }
}

proof fn lemma_primitive_is_drawn(
    item: ParamItem,
    source: PrimitiveSource,
    clip: Scalar,
    masks: Seq<Seq<u64>>,
    clips: ClipsView,
)
    requires
        is_param_item(item, source, clip, mask_position(masks, mask_words(*source.layers)) as u16),
        refers(clips, source.clipped, clip),
        0 <= mask_position(masks, mask_words(*source.layers)) < masks.len(),
        masks[mask_position(masks, mask_words(*source.layers))] == mask_words(*source.layers),
    ensures
        draws_primitive(item, source, masks, clips),
{
    lemma_clip_number(clips, source.clipped, clip);
    assert(item.linear@ == source.placement.linear@);
    assert(item.translation@ == source.placement.translation@);
}

/// A frame draws every primitive and nothing else: each adds one item to the list
/// of its kind, in order, and only what hides everything behind it is marked as
/// opaque, arcs and rectangles alike.
pub proof fn lemma_frames_draw_every_primitive(
    before: PrimitivesView,
    after: PrimitivesView,
    sources: Seq<PrimitiveSource>,
    clips: ClipsView,
)
    requires
        primitive_steps(before, after, sources, clips),
    ensures
        after.arcs.len() == before.arcs.len() + arcs_among(sources),
        after.sdf.len() == before.sdf.len() + sources.len() - arcs_among(sources),
        before.masks.len() <= after.masks.len(),
        forall|i: int| 0 <= i < before.arcs.len() ==> after.arcs[i] == #[trigger] before.arcs[i],
        forall|i: int| 0 <= i < before.sdf.len() ==> after.sdf[i] == #[trigger] before.sdf[i],
        forall|i: int| 0 <= i < before.masks.len() ==> after.masks[i] == #[trigger] before.masks[i],
        forall|i: int|
            0 <= i < sources.len() && (#[trigger] sources[i]).primitive is Arc ==> draws_primitive(
                after.arcs[(before.arcs.len() + arcs_among(sources.take(i))) as int],
                sources[i],
                after.masks,
                clips,
            ),
        forall|i: int|
            0 <= i < sources.len() && (#[trigger] sources[i]).primitive is Rect ==> draws_primitive(
                after.sdf[before.sdf.len() + i - arcs_among(sources.take(i))],
                sources[i],
                after.masks,
                clips,
            ),
    decreases sources.len(),
{
    if sources.len() > 0 {
        let rest = sources.drop_last();
        let source = sources.last();
        let between = choose|between: PrimitivesView|
            primitive_steps(before, between, rest, clips) && #[trigger] primitive_step(
                between,
                after,
                source,
                clips,
            );
        lemma_frames_draw_every_primitive(before, between, rest, clips);
        lemma_arcs_among(rest);
        let mask = mask_words(*source.layers);
        lemma_masks_are_entered_once(between.masks, mask);
        let layer = mask_position(after.masks, mask) as u16;
        let (clip, item) = choose|clip: Scalar, item: ParamItem| #[trigger]
            is_param_item(item, source, clip, layer) && refers(clips, source.clipped, clip) && if
            source.primitive is Arc {
                after.arcs == between.arcs.push(item) && after.sdf == between.sdf
            } else {
                after.arcs == between.arcs && after.sdf == between.sdf.push(item)
            };
        lemma_primitive_is_drawn(item, source, clip, after.masks, clips);
        assert forall|i: int| 0 <= i < before.arcs.len() implies after.arcs[i]
            == #[trigger] before.arcs[i] by {
            assert(between.arcs[i] == before.arcs[i]);
        }
        assert forall|i: int| 0 <= i < before.sdf.len() implies after.sdf[i]
            == #[trigger] before.sdf[i] by {
            assert(between.sdf[i] == before.sdf[i]);
        }
        assert forall|i: int| 0 <= i < before.masks.len() implies after.masks[i]
            == #[trigger] before.masks[i] by {
            assert(between.masks[i] == before.masks[i]);
        }
        assert forall|i: int|
            0 <= i < sources.len() && (#[trigger] sources[i]).primitive is Arc implies draws_primitive(
            after.arcs[(before.arcs.len() + arcs_among(sources.take(i))) as int],
            sources[i],
            after.masks,
            clips,
        ) by {
            if i < rest.len() {
                assert(rest[i] == sources[i]);
                assert(rest.take(i) =~= sources.take(i));
                let at = before.arcs.len() + arcs_among(sources.take(i));
                if sources[i].primitive is Arc {
                    lemma_arcs_before(rest, i);
                    lemma_drawn_primitive_later(
                        between.arcs[at as int],
                        sources[i],
                        between.masks,
                        after.masks,
                        clips,
                    );
                    assert(after.arcs[at as int] == between.arcs[at as int]);
                }
            } else {
                assert(sources.take(i) =~= rest);
            }
        }
        assert forall|i: int|
            0 <= i < sources.len() && (#[trigger] sources[i]).primitive is Rect implies draws_primitive(
            after.sdf[before.sdf.len() + i - arcs_among(sources.take(i))],
            sources[i],
            after.masks,
            clips,
        ) by {
            if i < rest.len() {
                assert(rest[i] == sources[i]);
                assert(rest.take(i) =~= sources.take(i));
                let at = before.sdf.len() + i - arcs_among(sources.take(i));
                if sources[i].primitive is Rect {
                    lemma_arcs_before(rest, i);
                    lemma_arcs_among(rest.take(i));
                    lemma_drawn_primitive_later(
                        between.sdf[at],
                        sources[i],
                        between.masks,
                        after.masks,
                        clips,
                    );
                    assert(after.sdf[at] == between.sdf[at]);
                }
            } else {
                assert(sources.take(i) =~= rest);
            }
        }
    }
}

proof fn lemma_drawn_primitive_later(
    item: ParamItem,
    source: PrimitiveSource,
    masks: Seq<Seq<u64>>,
    more: Seq<Seq<u64>>,
    clips: ClipsView,
)
    requires
        draws_primitive(item, source, masks, clips),
        masks.len() <= more.len(),
        forall|i: int| 0 <= i < masks.len() ==> more[i] == #[trigger] masks[i],
    ensures
        draws_primitive(item, source, more, clips),
{
    if more.len() <= 0x1_0000 {
        assert(more[item.layer as int] == masks[item.layer as int]);
    }
}

/// Of the primitives up to one and from it on, so many are arcs.
proof fn lemma_arcs_before(sources: Seq<PrimitiveSource>, i: int)
    requires
        0 <= i < sources.len(),
    ensures
        arcs_among(sources.take(i)) + (if sources[i].primitive is Arc {
            1nat
        } else {
            0nat
        }) <= arcs_among(sources),
        arcs_among(sources) <= arcs_among(sources.take(i)) + (if sources[i].primitive is Arc {
            1nat
        } else {
            0nat
        }) + (sources.len() - i - 1),
    decreases sources.len(),
{
    let rest = sources.drop_last();
    if i < rest.len() {
        lemma_arcs_before(rest, i);
        assert(rest.take(i) =~= sources.take(i));
        assert(rest[i] == sources[i]);
    } else {
        assert(sources.take(i) =~= rest);
    }
}

/// The cache has this mesh under the key: no range where there is no mesh or the
/// mesh has no triangle; otherwise a range whose vertices are the mesh's, each an
/// interior vertex of full coverage, whose interior indices are the mesh's, and
/// which has no fringe.
pub open spec fn holds_mesh(cache: CacheView, key: u64, mesh: Option<RawMeshView>) -> bool {
    &&& cache.ranges.dom().contains(key)
    &&& match cache.ranges[key] {
        None => mesh matches Some(m) ==> m.indices.len() == 0,
        Some(range) => mesh matches Some(m) && {
            &&& 0 <= range.base_vertex
            &&& range.base_vertex + m.positions.len() <= cache.vertices.len()
            &&& range.interior_count == m.indices.len()
            &&& range.fringe_count == 0
            &&& range.interior_first + range.interior_count <= cache.indices.len()
            &&& forall|i: int|
                0 <= i < m.indices.len() ==> cache.indices[range.interior_first + i]
                    == #[trigger] m.indices[i]
            &&& forall|i: int|
                0 <= i < m.positions.len() ==> {
                    let vertex = cache.vertices[range.base_vertex + i];
                    &&& vertex.position@[0].bits == (#[trigger] m.positions[i])@[0]
                    &&& vertex.position@[1].bits == m.positions[i]@[1]
                    &&& vertex.normal@[0].bits == 0 && vertex.normal@[1].bits == 0
                    &&& vertex.coverage.bits == 0x3f80_0000
                }
        },
    }
}

proof fn lemma_entered_mesh(
    before: CacheView,
    key: u64,
    geometry: Option<GeometryView>,
    mesh: Option<RawMeshView>,
)
    requires
        !before.ranges.dom().contains(key),
        tells_mesh(geometry, mesh),
        before.grown(key, interior_view(geometry)).addressable(),
    ensures
        holds_mesh(before.grown(key, interior_view(geometry)), key, mesh),
{
    let after = before.grown(key, interior_view(geometry));
    if let Some(g) = geometry {
        let m = mesh->0;
        let own = interior_view(geometry)->0;
        let range = after.ranges[key]->0;
        assert(after.vertices == before.vertices + own.vertices);
        assert forall|i: int| 0 <= i < m.indices.len() implies after.indices[range.interior_first
            + i] == #[trigger] m.indices[i] by {}
        assert forall|i: int| 0 <= i < m.positions.len() implies {
            let vertex = after.vertices[range.base_vertex + i];
            &&& vertex.position@[0].bits == (#[trigger] m.positions[i])@[0]
            &&& vertex.position@[1].bits == m.positions[i]@[1]
            &&& vertex.normal@[0].bits == 0 && vertex.normal@[1].bits == 0
            &&& vertex.coverage.bits == 0x3f80_0000
        } by {
            assert(after.vertices[range.base_vertex + i] == own.vertices[i]);
            assert(own.vertices[i].position == g.vertices[i]);
        }
    }
}

/// A fill that is new enters its own geometry under the hash of its content: what
/// the fill tessellator gave for the shape's outline and fill rule. One that is
/// not enters nothing.
pub proof fn lemma_new_fills_enter_their_own_geometry(
    before: ExtractionView,
    after: ExtractionView,
    source: ShapeSource,
    clip: Scalar,
    layer: u16,
)
    requires
        fill_part(before, after, source, clip, layer),
        after.cache.addressable(),
    ensures
        !fill_is_new(before, source) ==> after.cache == before.cache,
        fill_is_new(before, source) ==> extends(before.cache, after.cache)
            && after.cache.ranges.dom() == before.cache.ranges.dom().insert(
            digest(fill_writes(source.commands@, source.style.fill_rule)),
        ) && exists|mesh: Option<RawMeshView>| #[trigger]
            fill_outcome(
                outline(source.commands@),
                0x3e80_0000,
                source.style.fill_rule,
                mesh,
            ) && holds_mesh(
                after.cache,
                digest(fill_writes(source.commands@, source.style.fill_rule)),
                mesh,
            ) && (mesh matches Some(m) && m.indices.len() > 0 ==> after.cache.dirty),
{
    if let Some(brush) = source.style.fill {
        assert(fill_step(before, after, source, brush, clip, layer));
        if fill_is_new(before, source) {
            let rule = source.style.fill_rule;
            let key = digest(fill_writes(source.commands@, rule));
            let mesh = choose|mesh: Option<MeshView>| #[trigger]
                fill_meshes(source.commands@, rule, mesh) && after.cache == before.cache.grown(
                    key,
                    mesh,
                );
            let geometry = choose|geometry: Option<GeometryView>| #[trigger]
                fills_to(source.commands@, rule, geometry) && mesh == interior_view(geometry);
            lemma_fills_ask_for_their_own_rule(source.commands@, rule, geometry);
            let raw = choose|raw: Option<RawMeshView>| #[trigger]
                fill_outcome(outline(source.commands@), 0x3e80_0000, rule, raw) && tells_mesh(
                    geometry,
                    raw,
                );
            lemma_entered_mesh(before.cache, key, geometry, raw);
            lemma_grown_extends(before.cache, key, mesh);
            assert(after.cache.ranges.dom() =~= before.cache.ranges.dom().insert(key));
        }
    }
}

/// A stroke that is new and not dashed enters its own geometry under the hash of
/// its content: what the stroke tessellator gave for the shape's outline and
/// exactly its own width, cap and join. One that is not new enters nothing. (A
/// dashed stroke is the fill of its dashes.)
pub proof fn lemma_new_strokes_enter_their_own_geometry(
    before: ExtractionView,
    after: ExtractionView,
    source: ShapeSource,
    clip: Scalar,
    layer: u16,
)
    requires
        stroke_part(before, after, source, clip, layer),
        after.cache.addressable(),
    ensures
        !stroke_is_new(before, source) ==> after.cache == before.cache,
        stroke_is_new(before, source) ==> extends(before.cache, after.cache)
            && after.cache.ranges.dom() == before.cache.ranges.dom().insert(
            digest(stroke_writes(source.commands@, source.style.stroke->0)),
        ),
        stroke_is_new(before, source) && source.style.stroke->0.dash is None
            ==> exists|mesh: Option<RawMeshView>| #[trigger]
            stroke_outcome(
                outline(source.commands@),
                0x3e80_0000,
                source.style.stroke->0.width.bits,
                source.style.stroke->0.cap,
                source.style.stroke->0.join,
                mesh,
            ) && holds_mesh(
                after.cache,
                digest(stroke_writes(source.commands@, source.style.stroke->0)),
                mesh,
            ),
        stroke_is_new(before, source) && source.style.stroke->0.dash is Some
            ==> exists|geometry: Option<GeometryView>| #[trigger]
            strokes_to(source.commands@, source.style.stroke->0, geometry)
                && forall|mesh: Option<RawMeshView>| #[trigger]
                tells_mesh(geometry, mesh) ==> holds_mesh(
                    after.cache,
                    digest(stroke_writes(source.commands@, source.style.stroke->0)),
                    mesh,
                ),
{
    if let Some(stroke) = source.style.stroke {
        assert(stroke_step(before, after, source, stroke, clip, layer));
        if stroke_is_new(before, source) {
            let key = digest(stroke_writes(source.commands@, stroke));
            let mesh = choose|mesh: Option<MeshView>| #[trigger]
                stroke_meshes(source.commands@, stroke, mesh) && after.cache == before.cache.grown(
                    key,
                    mesh,
                );
            let geometry = choose|geometry: Option<GeometryView>| #[trigger]
                strokes_to(source.commands@, stroke, geometry) && mesh == interior_view(geometry);
            lemma_grown_extends(before.cache, key, mesh);
            assert(after.cache.ranges.dom() =~= before.cache.ranges.dom().insert(key));
            assert forall|raw: Option<RawMeshView>| #[trigger]
                tells_mesh(geometry, raw) implies holds_mesh(after.cache, key, raw) by {
                lemma_entered_mesh(before.cache, key, geometry, raw);
            }
            if stroke.dash is None {
                lemma_strokes_ask_for_their_own_pen(source.commands@, stroke, geometry);
                let raw = choose|raw: Option<RawMeshView>| #[trigger]
                    stroke_outcome(
                        outline(source.commands@),
                        0x3e80_0000,
                        stroke.width.bits,
                        stroke.cap,
                        stroke.join,
                        raw,
                    ) && tells_mesh(geometry, raw);
                assert(holds_mesh(after.cache, key, raw));
            }
        }
    }
}

/// The start of a frame drops the cache only where it holds more than 8192
/// entries and more than four for each instance that was drawn; it forgets keys
/// only with the cache, or where there are more than 65536. The atlas stays.
pub proof fn lemma_only_a_swollen_cache_is_dropped(view: ExtractionView)
    requires
        4 * view.items.len() <= usize::MAX,
    ensures
        begun(view).items.len() == 0,
        begun(view).atlas == view.atlas,
        ({
            let swollen = view.cache.keys.len() > 8192 && view.cache.keys.len() > 4
                * view.items.len();
            &&& !swollen ==> begun(view).cache == view.cache
            &&& swollen ==> begun(view).cache.ranges == Map::<u64, Option<GeometryRange>>::empty()
                && begun(view).cache.vertices.len() == 0 && begun(view).cache.indices.len() == 0
                && begun(view).cache.keys.len() == 0
            &&& !swollen && view.keyed.len() <= 65536 ==> begun(view).keys == view.keys
                && begun(view).keyed == view.keyed
            &&& swollen || view.keyed.len() > 65536 ==> begun(view).keys == Map::<
                u64,
                KeyPair,
            >::empty() && begun(view).keyed.len() == 0
        }),
{
}


/// The key that is remembered of an entity's fill.
pub open spec fn fill_memory(keys: Map<u64, KeyPair>, entity: u64) -> Option<u64> {
    if keys.dom().contains(entity) {
        let (fill, _) = keys[entity];
        fill
    } else {
        None
    }
}

/// The key that is remembered of an entity's stroke.
pub open spec fn stroke_memory(keys: Map<u64, KeyPair>, entity: u64) -> Option<u64> {
    if keys.dom().contains(entity) {
        let (_, stroke) = keys[entity];
        stroke
    } else {
        None
    }
}

/// What is drawn is what was drawn before, where the shape has not changed and
/// that is remembered, and the content of the shape otherwise.
pub open spec fn drawn_again(
    geometry: GeometryRef,
    changed: bool,
    memory: Option<u64>,
    content: u64,
) -> bool {
    &&& changed || memory is None ==> geometry == GeometryRef::Cached(content)
    &&& !changed ==> (memory matches Some(key) ==> geometry == GeometryRef::Cached(key))
}

/// A shape that has not changed is drawn with the geometry that it was drawn with
/// before, and any other with that of its present content. What its fill and its
/// stroke were drawn with is remembered, each for itself; what is remembered of
/// other entities stays as it was.
#[verifier::rlimit(40)]
pub proof fn lemma_unchanged_shapes_keep_their_geometry(
    before: ExtractionView,
    after: ExtractionView,
    source: ShapeSource,
    clip: Scalar,
    layer: u16,
)
    requires
        shape_step(before, after, source, clip, layer),
    ensures
        source.style.fill is Some ==> {
            let geometry = after.items[before.items.len() as int].geometry;
            &&& drawn_again(
                geometry,
                source.changed,
                fill_memory(before.keys, source.entity),
                digest(fill_writes(source.commands@, source.style.fill_rule)),
            )
            &&& fill_memory(after.keys, source.entity) matches Some(key) && geometry
                == GeometryRef::Cached(key)
        },
        source.style.stroke matches Some(stroke) ==> {
            let geometry = after.items[after.items.len() - 1].geometry;
            &&& drawn_again(
                geometry,
                source.changed,
                stroke_memory(before.keys, source.entity),
                digest(stroke_writes(source.commands@, stroke)),
            )
            &&& stroke_memory(after.keys, source.entity) matches Some(key) && geometry
                == GeometryRef::Cached(key)
        },
        source.style.fill is None ==> fill_memory(after.keys, source.entity) == fill_memory(
            before.keys,
            source.entity,
        ),
        source.style.stroke is None ==> stroke_memory(after.keys, source.entity) == stroke_memory(
            before.keys,
            source.entity,
        ),
        forall|other: u64|
            other != source.entity ==> (#[trigger] after.keys.dom().contains(other)
                <==> before.keys.dom().contains(other)),
        forall|other: u64|
            other != source.entity && before.keys.dom().contains(other) ==> (
            #[trigger] after.keys[other]) == before.keys[other],
        forall|i: int|
            0 <= i < before.items.len() ==> after.items[i] == #[trigger] before.items[i],
{
    let between = choose|between: ExtractionView|
        #![trigger fill_part(before, between, source, clip, layer)]
        #![trigger stroke_part(between, after, source, clip, layer)]
        fill_part(before, between, source, clip, layer) && stroke_part(
            between,
            after,
            source,
            clip,
            layer,
        );
    assert(fill_part(before, between, source, clip, layer));
    assert(stroke_part(between, after, source, clip, layer));
    assert(stroke_memory(between.keys, source.entity) == stroke_memory(before.keys, source.entity));
    assert(fill_memory(after.keys, source.entity) == fill_memory(between.keys, source.entity));
    if source.style.fill is Some {
        let n = before.items.len() as int;
        assert(between.items.len() == n + 1);
        assert(after.items[n] == between.items[n]);
    }
}

} // verus!
