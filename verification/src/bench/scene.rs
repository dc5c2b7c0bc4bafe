//! The vello opponent: paths are built once per entity and retained; every
//! frame a scene is encoded from them, with nested clip layers.

use vello::kurbo::{Affine, BezPath, Circle, RoundedRect, Shape, Stroke};
use vello::peniko::{Color, Fill, Mix};
use vello::Scene;
use vstd::prelude::*;

use crate::bez::{alike, bez_commands, leads_with_move, lemma_alike_finite, to_bez_path};
use crate::dash::{countable, curved, is_countable, progresses, reach, CURVE_REACH};
use crate::hud::{ClippedBy, VectorClipShape};
use crate::keyed::KeyedStore;
use crate::order::{
    before, lemma_ordered_is_rearranged, lemma_ordered_members, ordered, rearranged, sort_items,
    whole_order, Rank,
};
use crate::path::{
    alike_command, finite_path, path_within, PathCommand, PathStyle, StrokeStyle,
};
use crate::pen::{
    alike_pen, finite_pen, lemma_pen_alike_finite, pen_of, style_pen, to_stroke, Pen,
};
use crate::scalar::{lemma_total_lines_patterns_up, stands_before, Scalar};

verus! {

#[verifier::external_type_specification]
#[verifier::external_body]
pub struct ExScene(Scene);

/// One as a single-precision bit pattern: layers are not faded.
pub const FULL_ALPHA: u32 = 0x3f80_0000;

/// A tenth as a double-precision bit pattern: how closely clip outlines follow
/// their shape.
pub const CLIP_TOLERANCE: u64 = 0x3fb9_9999_9999_999a;

/// How many levels of clips nest.
pub const MAX_LAYERS: u32 = 4;

/// A column-major affine transform in double-precision bit patterns.
#[derive(Clone, Copy, Debug, PartialEq, Eq)]
pub struct Transform {
    pub bits: [u64; 6],
}

/// One call on a scene. Everything is drawn in its place.
pub enum SceneCall {
    PushClip { outline: Seq<PathCommand>, alpha: u32, place: Transform },
    PopClip,
    Fill { outline: Seq<PathCommand>, color: [u8; 4], place: Transform },
    Stroke { outline: Seq<PathCommand>, pen: Pen, color: [u8; 4], place: Transform },
}

/// The log of a scene: the calls that it has received since it was reset, those
/// that encode nothing among them.
pub uninterp spec fn scene_calls(scene: Scene) -> Seq<SceneCall>;

/// How many layers are open behind a sequence of calls.
pub open spec fn layer_depth(calls: Seq<SceneCall>) -> nat
    decreases calls.len(),
{
    if calls.len() == 0 {
        0
    } else {
        let earlier = layer_depth(calls.drop_last());
        match calls.last() {
            SceneCall::PushClip { .. } => earlier + 1,
            SceneCall::PopClip => if earlier > 0 {
                (earlier - 1) as nat
            } else {
                0
            },
            _ => earlier,
        }
    }
}

/// What the product of two affine transforms may be, the second applied first,
/// all by the bit patterns of their coefficients.
pub uninterp spec fn composed(view: Seq<u64>, world: Seq<u64>, place: Seq<u64>) -> bool;

/// What `RoundedRect::to_path` may give for a rectangle, a corner radius and a
/// tolerance, as bit patterns.
pub uninterp spec fn rounded_outcome(
    left: u32,
    bottom: u32,
    right: u32,
    top: u32,
    radius: u32,
    tolerance: u64,
    outline: Seq<PathCommand>,
) -> bool;

/// What `Circle::to_path` may give for a radius and a tolerance, as bit
/// patterns.
pub uninterp spec fn circle_outcome(
    radius: u32,
    tolerance: u64,
    outline: Seq<PathCommand>,
) -> bool;

/// `Scene::reset`: removes all content.
#[verifier::external_body]
fn scene_reset(scene: &mut Scene)
    ensures
        scene_calls(*final(scene)) == Seq::<SceneCall>::empty(),
{
    scene.reset();
}

/// `Affine * Affine`: the transform that applies the world transform, then the
/// view. Its coefficients are sums of products in double precision; of one that
/// is no number, the bit pattern is open, and nothing more is claimed.
#[verifier::external_body]
fn compose(view: Transform, world: Transform) -> (place: Transform)
    ensures
        composed(view.bits@, world.bits@, place.bits@),
{
    let place = Affine::new(bytemuck::cast(view.bits)) * Affine::new(bytemuck::cast(world.bits));
    Transform { bits: bytemuck::cast(place.as_coeffs()) }
}

/// `Scene::push_layer` with a normal blend and a non-zero fill: everything
/// drawn until the layer is popped is clipped by the path.
#[verifier::external_body]
fn scene_push_clip(scene: &mut Scene, path: &BezPath, alpha: u32, place: Transform)
    ensures
        scene_calls(*final(scene)) == scene_calls(*old(scene)).push(
            SceneCall::PushClip { outline: bez_commands(*path), alpha, place },
        ),
{
    let place = Affine::new(bytemuck::cast(place.bits));
    scene.push_layer(Fill::NonZero, Mix::Normal, bytemuck::cast(alpha), place, path);
}

/// `Scene::pop_layer`: ends the layer that was pushed last.
#[verifier::external_body]
fn scene_pop_clip(scene: &mut Scene)
    requires
        layer_depth(scene_calls(*old(scene))) > 0,
    ensures
        scene_calls(*final(scene)) == scene_calls(*old(scene)).push(SceneCall::PopClip),
{
    scene.pop_layer();
}

/// `Scene::fill` with a non-zero fill and one colour.
#[verifier::external_body]
fn scene_fill(scene: &mut Scene, path: &BezPath, color: [u8; 4], place: Transform)
    ensures
        scene_calls(*final(scene)) == scene_calls(*old(scene)).push(
            SceneCall::Fill { outline: bez_commands(*path), color, place },
        ),
{
    let place = Affine::new(bytemuck::cast(place.bits));
    let [r, g, b, a] = color;
    scene.fill(Fill::NonZero, place, Color::from_rgba8(r, g, b, a), None, path);
}

/// The pen's dashes along the outline can be counted. A pen of no width is not
/// dashed.
pub open spec fn countable_dashes(outline: Seq<PathCommand>, pen: Pen) -> bool {
    pen.dash matches Some(dash) ==> pen.width.magnitude() == 0 || countable(outline, dash)
}

/// `Scene::stroke` with one colour. Dashes are laid out within the call, which
/// ends only where they make progress along the path.
#[verifier::external_body]
fn scene_stroke(
    scene: &mut Scene,
    path: &BezPath,
    stroke: &Stroke,
    color: [u8; 4],
    place: Transform,
)
    requires
        countable_dashes(bez_commands(*path), pen_of(*stroke)),
    ensures
        scene_calls(*final(scene)) == scene_calls(*old(scene)).push(
            SceneCall::Stroke {
                outline: bez_commands(*path),
                pen: pen_of(*stroke),
                color,
                place,
            },
        ),
{
    let place = Affine::new(bytemuck::cast(place.bits));
    let [r, g, b, a] = color;
    scene.stroke(stroke, place, Color::from_rgba8(r, g, b, a), None, path);
}

/// The corners of a rectangle, whose radius is at most half of the shorter
/// side, are not without end.
pub open spec fn corners_end(
    left: Scalar,
    bottom: Scalar,
    right: Scalar,
    top: Scalar,
    radius: Scalar,
) -> bool {
    ||| radius.finite()
    ||| left.finite() && right.finite()
    ||| bottom.finite() && top.finite()
    ||| radius.nan() && left.nan() && right.nan() && bottom.nan() && top.nan()
}

/// `RoundedRect::new` and `to_path`: the outline of a rectangle between two
/// corners, whose radius is cut down to half of the shorter side. Around a
/// corner without end there is no outline. It rests on the floating-point
/// library of the machine, and nothing more is claimed of it.
#[verifier::external_body]
fn rounded_outline(
    left: Scalar,
    bottom: Scalar,
    right: Scalar,
    top: Scalar,
    radius: Scalar,
    tolerance: u64,
) -> (path: BezPath)
    requires
        tolerance == CLIP_TOLERANCE,
        corners_end(left, bottom, right, top, radius),
    ensures
        rounded_outcome(
            left.bits,
            bottom.bits,
            right.bits,
            top.bits,
            radius.bits,
            tolerance,
            bez_commands(path),
        ),
{
    let low = lyon::math::point(bytemuck::cast(left.bits), bytemuck::cast(bottom.bits)).to_f64();
    let high = lyon::math::point(bytemuck::cast(right.bits), bytemuck::cast(top.bits)).to_f64();
    let round = lyon::math::vector(bytemuck::cast(radius.bits), bytemuck::cast(0u32)).to_f64();
    RoundedRect::new(low.x, low.y, high.x, high.y, round.x).to_path(bytemuck::cast(tolerance))
}

/// `Circle::new` and `to_path`: the outline of a circle around the origin. One
/// without end has none. It rests on the floating-point library of the machine, and nothing more is
/// claimed of it.
#[verifier::external_body]
fn circle_outline(radius: Scalar, tolerance: u64) -> (path: BezPath)
    requires
        tolerance == CLIP_TOLERANCE,
        radius.finite() || radius.nan(),
    ensures
        circle_outcome(radius.bits, tolerance, bez_commands(path)),
{
    let size = lyon::math::vector(bytemuck::cast(radius.bits), bytemuck::cast(0u32)).to_f64();
    Circle::new(vello::kurbo::Point::ORIGIN, size.x).to_path(bytemuck::cast(tolerance))
}

/// The outline is one that the clip shape may have.
pub open spec fn clip_outlines(shape: VectorClipShape, outline: Seq<PathCommand>) -> bool {
    match shape {
        VectorClipShape::RoundedRect { half_extents, radius } => rounded_outcome(
            half_extents.x.negated().bits,
            half_extents.y.negated().bits,
            half_extents.x.bits,
            half_extents.y.bits,
            radius.bits,
            CLIP_TOLERANCE,
            outline,
        ),
        VectorClipShape::Circle { radius } => circle_outcome(radius.bits, CLIP_TOLERANCE, outline),
    }
}

/// The outline of the shape ends: its circle, or its corners, are not without
/// end.
pub open spec fn bounded_clip(shape: VectorClipShape) -> bool {
    match shape {
        VectorClipShape::RoundedRect { half_extents, radius } => {
            ||| radius.finite()
            ||| half_extents.x.finite()
            ||| half_extents.y.finite()
            ||| radius.nan() && half_extents.x.nan() && half_extents.y.nan()
        },
        VectorClipShape::Circle { radius } => radius.finite() || radius.nan(),
    }
}

/// Whether the outline of the shape ends.
pub fn clip_is_bounded(shape: &VectorClipShape) -> (r: bool)
    ensures
        r == bounded_clip(*shape),
{
    match *shape {
        VectorClipShape::RoundedRect { half_extents, radius } => radius.is_finite()
            || half_extents.x.is_finite() || half_extents.y.is_finite() || (radius.is_nan()
            && half_extents.x.is_nan() && half_extents.y.is_nan()),
        VectorClipShape::Circle { radius } => radius.is_finite() || radius.is_nan(),
    }
}

/// Builds the outline of a clip shape.
pub fn clip_path(shape: &VectorClipShape) -> (path: BezPath)
    requires
        bounded_clip(*shape),
    ensures
        clip_outlines(*shape, bez_commands(path)),
{
    match *shape {
        VectorClipShape::RoundedRect { half_extents, radius } => rounded_outline(
            half_extents.x.neg(),
            half_extents.y.neg(),
            half_extents.x,
            half_extents.y,
            radius,
            CLIP_TOLERANCE,
        ),
        VectorClipShape::Circle { radius } => circle_outline(radius, CLIP_TOLERANCE),
    }
}

/// A path with its colour.
pub struct FilledPath {
    pub path: BezPath,
    pub color: [u8; 4],
}

/// A path with its pen and colour.
pub struct StrokedPath {
    pub path: BezPath,
    pub stroke: Stroke,
    pub color: [u8; 4],
    /// Its dashes, if any, can be counted.
    pub countable: bool,
}

/// What is retained of an entity.
pub struct RetainedItem {
    pub fill: Option<FilledPath>,
    pub stroke: Option<StrokedPath>,
}

/// One entity of a frame.
#[derive(Clone, Copy, Debug, PartialEq, Eq)]
pub struct FrameItem {
    pub entity: u64,
    pub world: Transform,
    pub z: Scalar,
    /// The clip it is under.
    pub head: Option<u64>,
}

/// A clip of a frame.
pub struct SceneClip {
    pub path: BezPath,
    pub world: Transform,
    pub parent: Option<u64>,
}

/// A shape as the opponent sees it.
pub struct SceneSource<'a> {
    pub entity: u64,
    pub commands: &'a Vec<PathCommand>,
    pub style: &'a PathStyle,
    pub changed: bool,
    pub world: Transform,
    pub z: Scalar,
    pub fill_color: [u8; 4],
    pub stroke_color: [u8; 4],
    pub clipped: Option<ClippedBy>,
}

/// A clip as the opponent sees it.
pub struct ClipSource {
    pub entity: u64,
    pub shape: VectorClipShape,
    pub world: Transform,
    pub parent: Option<ClippedBy>,
}

pub open spec fn bits_of(clipped: Option<ClippedBy>) -> Option<u64> {
    match clipped {
        None => None,
        Some(by) => Some(by.0),
    }
}

fn entity_of(clipped: Option<ClippedBy>) -> (bits: Option<u64>)
    ensures
        bits == bits_of(clipped),
{
    match clipped {
        None => None,
        Some(by) => Some(by.0),
    }
}

/// The shape can be built: what is filled or stroked begins with a move.
pub open spec fn buildable(source: SceneSource) -> bool {
    source.style.fill is Some || source.style.stroke is Some ==> leads_with_move(source.commands@)
}

/// What has to be built can be. Of a shape that is retained and has not changed,
/// nothing is asked.
pub open spec fn buildable_where_new(
    retained: Map<u64, RetainedItem>,
    source: SceneSource,
) -> bool {
    source.changed || !retained.dom().contains(source.entity) ==> buildable(source)
}

impl<'a> SceneSource<'a> {
    /// Whether the shape can be built.
    pub fn is_buildable(&self) -> (r: bool)
        ensures
            r == buildable(*self),
    {
        let commands: &[PathCommand] = self.commands.as_slice();
        (self.style.fill.is_none() && self.style.stroke.is_none()) || commands.len() == 0
            || match commands[0] {
            PathCommand::MoveTo(_) => true,
            _ => false,
        }
    }
}

/// The item is what the shape's path and style build, up to the payload of a
/// coordinate or length that is no number.
pub open spec fn builds(item: RetainedItem, source: SceneSource) -> bool {
    &&& item.fill is Some <==> source.style.fill is Some
    &&& item.stroke is Some <==> source.style.stroke is Some
    &&& item.fill matches Some(fill) ==> alike(bez_commands(fill.path), source.commands@)
        && fill.color == source.fill_color
    &&& item.stroke matches Some(stroke) ==> alike(bez_commands(stroke.path), source.commands@)
        && stroke.color == source.stroke_color && alike_pen(
        pen_of(stroke.stroke),
        style_pen(source.style.stroke->0),
    )
}

/// The item knows whether its dashes can be counted.
pub open spec fn counted(item: RetainedItem) -> bool {
    item.stroke matches Some(stroke) ==> stroke.countable == countable_dashes(
        bez_commands(stroke.path),
        pen_of(stroke.stroke),
    )
}

/// The item's dashes can be counted.
pub open spec fn drawable(item: RetainedItem) -> bool {
    item.stroke matches Some(stroke) ==> countable_dashes(
        bez_commands(stroke.path),
        pen_of(stroke.stroke),
    )
}

proof fn lemma_alike_within(a: Seq<PathCommand>, b: Seq<PathCommand>, limit: u32)
    requires
        alike(a, b),
        limit < 0x7f80_0000,
    ensures
        path_within(a, limit) == path_within(b, limit),
        curved(a) == curved(b),
{
    assert forall|i: int| 0 <= i < a.len() implies (#[trigger] a[i]).within(limit) == b[i].within(
        limit,
    ) && (a[i] is QuadTo || a[i] is CubicTo) == (b[i] is QuadTo || b[i] is CubicTo) by {
        assert(alike_command(a[i], b[i]));
    }
    if path_within(a, limit) {
        assert forall|i: int| 0 <= i < b.len() implies (#[trigger] b[i]).within(limit) by {
            assert(a[i].within(limit));
        }
    }
    if path_within(b, limit) {
        assert forall|i: int| 0 <= i < a.len() implies (#[trigger] a[i]).within(limit) by {
            assert(b[i].within(limit));
        }
    }
    if curved(a) {
        let i = choose|i: int|
            0 <= i < a.len() && ((#[trigger] a[i]) is QuadTo || a[i] is CubicTo);
        assert(b[i] is QuadTo || b[i] is CubicTo);
    }
    if curved(b) {
        let i = choose|i: int|
            0 <= i < b.len() && ((#[trigger] b[i]) is QuadTo || b[i] is CubicTo);
        assert(a[i] is QuadTo || a[i] is CubicTo);
    }
}

/// Whether dashes can be counted does not rest on the payload of a NaN.
proof fn lemma_alike_dashes(a: Seq<PathCommand>, b: Seq<PathCommand>, p: Pen, q: Pen)
    requires
        alike(a, b),
        alike_pen(p, q),
    ensures
        countable_dashes(a, p) == countable_dashes(b, q),
{
    if p.dash is Some {
        let (d, e) = (p.dash->0, q.dash->0);
        if progresses(d) || progresses(e) {
            assert(d@ =~= e@);
            assert(d == e);
            lemma_alike_within(a, b, reach(d));
            lemma_alike_within(a, b, CURVE_REACH);
        }
    }
}

fn has_countable_dashes(commands: &[PathCommand], style: &StrokeStyle) -> (r: bool)
    ensures
        r == countable_dashes(commands@, style_pen(*style)),
{
    match style.dash {
        None => true,
        Some(dash) => style.width.is_zero() || is_countable(commands, dash),
    }
}

fn build_item(source: &SceneSource) -> (item: RetainedItem)
    requires
        buildable(*source),
    ensures
        builds(item, *source),
        counted(item),
{
    let fill: Option<FilledPath> = match &source.style.fill {
        None => None,
        Some(_) => Some(
            FilledPath {
                path: to_bez_path(source.commands.as_slice()),
                color: source.fill_color,
            },
        ),
    };
    let stroke: Option<StrokedPath> = match &source.style.stroke {
        None => None,
        Some(stroke) => {
            let path: BezPath = to_bez_path(source.commands.as_slice());
            let pen: Stroke = to_stroke(stroke);
            proof {
                lemma_alike_dashes(
                    bez_commands(path),
                    source.commands@,
                    pen_of(pen),
                    style_pen(*stroke),
                );
            }
            Some(
                StrokedPath {
                    path,
                    stroke: pen,
                    color: source.stroke_color,
                    countable: has_countable_dashes(source.commands.as_slice(), stroke),
                },
            )
        },
    };
    RetainedItem { fill, stroke }
}

/// A changed or new entity is built; the others are kept.
pub open spec fn retained_step(
    before: Map<u64, RetainedItem>,
    after: Map<u64, RetainedItem>,
    source: SceneSource,
) -> bool {
    if before.dom().contains(source.entity) && !source.changed {
        after == before
    } else {
        exists|item: RetainedItem| #[trigger]
            builds(item, source) && after == before.insert(source.entity, item)
    }
}

pub open spec fn retained_steps(
    before: Map<u64, RetainedItem>,
    after: Map<u64, RetainedItem>,
    sources: Seq<SceneSource>,
) -> bool
    decreases sources.len(),
{
    if sources.len() == 0 {
        after == before
    } else {
        exists|between: Map<u64, RetainedItem>|
            retained_steps(before, between, sources.drop_last()) && #[trigger] retained_step(
                between,
                after,
                sources.last(),
            )
    }
}

pub open spec fn clip_step(
    before: Map<u64, SceneClip>,
    after: Map<u64, SceneClip>,
    source: ClipSource,
) -> bool {
    exists|path: BezPath| #[trigger]
        clip_outlines(source.shape, bez_commands(path)) && after == before.insert(
            source.entity,
            SceneClip { path, world: source.world, parent: bits_of(source.parent) },
        )
}

pub open spec fn clip_steps(after: Map<u64, SceneClip>, sources: Seq<ClipSource>) -> bool
    decreases sources.len(),
{
    if sources.len() == 0 {
        after == Map::<u64, SceneClip>::empty()
    } else {
        exists|between: Map<u64, SceneClip>|
            clip_steps(between, sources.drop_last()) && #[trigger] clip_step(
                between,
                after,
                sources.last(),
            )
    }
}

pub open spec fn frame_items(sources: Seq<SceneSource>) -> Seq<FrameItem> {
    sources.map_values(
        |source: SceneSource|
            FrameItem {
                entity: source.entity,
                world: source.world,
                z: source.z,
                head: bits_of(source.clipped),
            },
    )
}

/// Drawing order: by clip, so that layers are pushed once, and by depth
/// within.
pub open spec fn frame_ranks(items: Seq<FrameItem>) -> Seq<Rank> {
    Seq::new(
        items.len(),
        |i: int|
            Rank {
                first: match items[i].head {
                    None => 0,
                    Some(_) => 1,
                },
                second: match items[i].head {
                    None => 0,
                    Some(head) => head,
                },
                third: items[i].z.total() as u64,
                fourth: 0,
                fifth: 0,
            },
    )
}

/// The frame's items in drawing order.
pub open spec fn frame_sorted(items: Seq<FrameItem>) -> Seq<FrameItem> {
    ordered(items, frame_ranks(items))
}

fn sort_frame(items: &Vec<FrameItem>) -> (sorted: Vec<FrameItem>)
    ensures
        sorted@ == frame_sorted(items@),
        sorted@.len() == items@.len(),
{
    let mut ranks: Vec<Rank> = Vec::with_capacity(items.len());
    let mut i: usize = 0;
    while i < items.len()
        invariant
            i <= items@.len(),
            ranks@ == frame_ranks(items@).take(i as int),
        decreases items@.len() - i,
    {
        let (first, second): (u64, u64) = match items[i].head {
            None => (0, 0),
            Some(head) => (1, head),
        };
        let third: u64 = items[i].z.total_key() as u64;
        ranks.push(Rank { first, second, third, fourth: 0, fifth: 0 });
        assert(ranks@ =~= frame_ranks(items@).take(i + 1));
        i = i + 1;
    }
    assert(ranks@ =~= frame_ranks(items@));
    sort_items(items, &ranks)
}

/// The clips over a head, the outermost first: at most so many levels, as far
/// as they are there.
pub open spec fn layers_over(nodes: Map<u64, SceneClip>, head: Option<u64>, depth: nat) -> Seq<u64>
    decreases depth,
{
    if depth == 0 {
        Seq::empty()
    } else {
        match head {
            None => Seq::empty(),
            Some(clip) => if nodes.dom().contains(clip) {
                layers_over(nodes, nodes[clip].parent, (depth - 1) as nat).push(clip)
            } else {
                Seq::empty()
            },
        }
    }
}

/// How far two sequences agree.
pub open spec fn agreement(a: Seq<u64>, b: Seq<u64>) -> int
    decreases a.len(),
{
    if a.len() == 0 || b.len() == 0 || a[0] != b[0] {
        0
    } else {
        1 + agreement(a.drop_first(), b.drop_first())
    }
}

/// One call of a plan. Everything is to be drawn under a view and a world
/// transform.
pub enum PlannedCall {
    PushClip { outline: Seq<PathCommand>, alpha: u32, view: Transform, world: Transform },
    PopClip,
    Fill { outline: Seq<PathCommand>, color: [u8; 4], view: Transform, world: Transform },
    Stroke {
        outline: Seq<PathCommand>,
        pen: Pen,
        color: [u8; 4],
        view: Transform,
        world: Transform,
    },
}

/// The call is the planned one, in a place that the two transforms give.
pub open spec fn carries(call: SceneCall, plan: PlannedCall) -> bool {
    match (call, plan) {
        (
            SceneCall::PushClip { outline, alpha, place },
            PlannedCall::PushClip { outline: o, alpha: a, view, world },
        ) => outline == o && alpha == a && composed(view.bits@, world.bits@, place.bits@),
        (SceneCall::PopClip, PlannedCall::PopClip) => true,
        (
            SceneCall::Fill { outline, color, place },
            PlannedCall::Fill { outline: o, color: c, view, world },
        ) => outline == o && color == c && composed(view.bits@, world.bits@, place.bits@),
        (
            SceneCall::Stroke { outline, pen, color, place },
            PlannedCall::Stroke { outline: o, pen: p, color: c, view, world },
        ) => outline == o && pen == p && color == c && composed(
            view.bits@,
            world.bits@,
            place.bits@,
        ),
        _ => false,
    }
}

/// Behind the calls before come those of the plan, one for one and in order.
pub open spec fn follows(
    before: Seq<SceneCall>,
    after: Seq<SceneCall>,
    plan: Seq<PlannedCall>,
) -> bool {
    &&& after.len() == before.len() + plan.len()
    &&& forall|i: int| 0 <= i < before.len() ==> #[trigger] after[i] == before[i]
    &&& forall|i: int, at: int|
        0 <= i < plan.len() && at == before.len() + i ==> carries(
            #[trigger] after[at],
            #[trigger] plan[i],
        )
}

/// The calls are those of the plan, one for one and in order.
pub open spec fn carried_out(calls: Seq<SceneCall>, plan: Seq<PlannedCall>) -> bool {
    follows(Seq::empty(), calls, plan)
}

proof fn lemma_follows_on(
    a: Seq<SceneCall>,
    b: Seq<SceneCall>,
    c: Seq<SceneCall>,
    p: Seq<PlannedCall>,
    q: Seq<PlannedCall>,
)
    requires
        follows(a, b, p),
        follows(b, c, q),
    ensures
        follows(a, c, p + q),
{
    assert forall|i: int| 0 <= i < a.len() implies #[trigger] c[i] == a[i] by {
        assert(c[i] == b[i]);
    }
    assert forall|i: int, at: int|
        0 <= i < (p + q).len() && at == a.len() + i implies carries(
        #[trigger] c[at],
        #[trigger] (p + q)[i],
    ) by {
        if i < p.len() {
            assert(c[at] == b[at]);
            assert(carries(b[at], p[i]));
        } else {
            assert(carries(c[at], q[i - p.len()]));
        }
    }
}

/// One more pop, planned and done.
proof fn lemma_pop_follows(before: Seq<SceneCall>, after: Seq<SceneCall>, n: int)
    requires
        0 <= n,
        follows(before, after, pop_calls(n)),
    ensures
        follows(before, after.push(SceneCall::PopClip), pop_calls(n + 1)),
{
    let one = seq![PlannedCall::PopClip];
    let longer = after.push(SceneCall::PopClip);
    assert(follows(after, longer, one));
    lemma_follows_on(before, after, longer, pop_calls(n), one);
    assert(pop_calls(n) + one =~= pop_calls(n + 1));
}

pub open spec fn push_call(nodes: Map<u64, SceneClip>, view: Transform, clip: u64) -> PlannedCall {
    PlannedCall::PushClip {
        outline: bez_commands(nodes[clip].path),
        alpha: FULL_ALPHA,
        view,
        world: nodes[clip].world,
    }
}

pub open spec fn push_calls(
    nodes: Map<u64, SceneClip>,
    view: Transform,
    clips: Seq<u64>,
) -> Seq<PlannedCall> {
    clips.map_values(|clip: u64| push_call(nodes, view, clip))
}

pub open spec fn pop_calls(n: int) -> Seq<PlannedCall> {
    Seq::new(n as nat, |i: int| PlannedCall::PopClip)
}

pub open spec fn draw_calls(item: RetainedItem, view: Transform, world: Transform) -> Seq<
    PlannedCall,
> {
    (match item.fill {
        None => Seq::<PlannedCall>::empty(),
        Some(fill) => seq![
            PlannedCall::Fill { outline: bez_commands(fill.path), color: fill.color, view, world },
        ],
    }) + (match item.stroke {
        None => Seq::<PlannedCall>::empty(),
        Some(stroke) => seq![
            PlannedCall::Stroke {
                outline: bez_commands(stroke.path),
                pen: pen_of(stroke.stroke),
                color: stroke.color,
                view,
                world,
            },
        ],
    })
}

/// The calls for a sequence of items, and the clips that are open behind them:
/// for each item, layers that do not belong to it are popped, those that it
/// lacks are pushed, and it is drawn. Items that are not retained are skipped.
pub open spec fn encoded(
    items: Seq<FrameItem>,
    retained: Map<u64, RetainedItem>,
    nodes: Map<u64, SceneClip>,
    view: Transform,
) -> (Seq<PlannedCall>, Seq<u64>)
    decreases items.len(),
{
    if items.len() == 0 {
        (Seq::empty(), Seq::empty())
    } else {
        let (calls, stack) = encoded(items.drop_last(), retained, nodes, view);
        let item = items.last();
        if !retained.dom().contains(item.entity) {
            (calls, stack)
        } else {
            let layers = layers_over(nodes, item.head, MAX_LAYERS as nat);
            let common = agreement(stack, layers);
            (
                calls + pop_calls(stack.len() - common) + push_calls(
                    nodes,
                    view,
                    layers.skip(common),
                ) + draw_calls(retained[item.entity], view, item.world),
                layers,
            )
        }
    }
}

/// The whole scene: at the end, every layer is popped.
pub open spec fn scene_of(
    items: Seq<FrameItem>,
    retained: Map<u64, RetainedItem>,
    nodes: Map<u64, SceneClip>,
    view: Transform,
) -> Seq<PlannedCall> {
    let (calls, stack) = encoded(items, retained, nodes, view);
    calls + pop_calls(stack.len() as int)
}

/// The opponent's state.
pub struct VelloWorkload {
    /// Paths built once per entity.
    pub retained: KeyedStore<RetainedItem>,
    pub frame: Vec<FrameItem>,
    pub clip_nodes: KeyedStore<SceneClip>,
}

proof fn lemma_agreement(a: Seq<u64>, b: Seq<u64>, k: int)
    requires
        0 <= k <= a.len(),
        k <= b.len(),
        forall|j: int| 0 <= j < k ==> a[j] == b[j],
        k < a.len() && k < b.len() ==> a[k] != b[k],
    ensures
        agreement(a, b) == k,
    decreases a.len(),
{
    if k > 0 {
        let (x, y) = (a.drop_first(), b.drop_first());
        assert(a[0] == b[0]);
        assert forall|j: int| 0 <= j < k - 1 implies x[j] == y[j] by {
            assert(a[j + 1] == b[j + 1]);
        }
        if k < a.len() && k < b.len() {
            assert(x[k - 1] == a[k] && y[k - 1] == b[k]);
        }
        lemma_agreement(x, y, k - 1);
    }
}

proof fn lemma_agreement_range(a: Seq<u64>, b: Seq<u64>)
    ensures
        0 <= agreement(a, b) <= a.len(),
        agreement(a, b) <= b.len(),
        a.take(agreement(a, b)) == b.take(agreement(a, b)),
    decreases a.len(),
{
    if !(a.len() == 0 || b.len() == 0 || a[0] != b[0]) {
        let (x, y) = (a.drop_first(), b.drop_first());
        lemma_agreement_range(x, y);
        let k = agreement(x, y);
        assert forall|j: int| 0 <= j < k + 1 implies a[j] == b[j] by {
            if j > 0 {
                assert(x.take(k)[j - 1] == y.take(k)[j - 1]);
            }
        }
        assert(a.take(k + 1) =~= b.take(k + 1));
    } else {
        assert(a.take(0) =~= b.take(0));
    }
}

proof fn lemma_layers_are_there(nodes: Map<u64, SceneClip>, head: Option<u64>, depth: nat)
    ensures
        forall|k: int|
            0 <= k < layers_over(nodes, head, depth).len() ==> nodes.dom().contains(
                #[trigger] layers_over(nodes, head, depth)[k],
            ),
    decreases depth,
{
    if depth > 0 {
        match head {
            Some(clip) if nodes.dom().contains(clip) => {
                let outer = layers_over(nodes, nodes[clip].parent, (depth - 1) as nat);
                lemma_layers_are_there(nodes, nodes[clip].parent, (depth - 1) as nat);
                let layers = layers_over(nodes, head, depth);
                assert forall|k: int| 0 <= k < layers.len() implies nodes.dom().contains(
                    #[trigger] layers[k],
                ) by {
                    if k < outer.len() {
                        assert(layers[k] == outer[k]);
                    }
                }
            },
            _ => {},
        }
    }
}

fn push_layer_chain(nodes: &KeyedStore<SceneClip>, head: Option<u64>, depth: u32, layers: &mut Vec<
    u64,
>)
    requires
        nodes.wf(),
    ensures
        final(layers)@ == old(layers)@ + layers_over(nodes@, head, depth as nat),
    decreases depth,
{
    let ghost start = layers@;
    if depth > 0 {
        match head {
            None => {},
            Some(clip) => match nodes.get(clip) {
                None => {},
                Some(node) => {
                    push_layer_chain(nodes, node.parent, depth - 1, layers);
                    layers.push(clip);
                },
            },
        }
    }
    assert(layers@ =~= start + layers_over(nodes@, head, depth as nat));
}

impl VelloWorkload {
    /// What is retained knows whether its dashes can be counted.
    pub open spec fn wf(self) -> bool {
        &&& self.retained.wf() && self.clip_nodes.wf()
        &&& forall|entity: u64| #[trigger]
            self.retained@.dom().contains(entity) ==> counted(self.retained@[entity])
    }

    /// The dashes of every item of the frame can be counted.
    pub open spec fn encodable(self) -> bool {
        forall|i: int| 0 <= i < self.frame@.len() ==> self.can_draw(#[trigger] self.frame@[i])
    }

    /// The dashes of a frame's item can be counted, where it is retained.
    pub open spec fn can_draw(self, item: FrameItem) -> bool {
        self.retained@.dom().contains(item.entity) ==> drawable(self.retained@[item.entity])
    }

    /// Whether the dashes of every item of the frame can be counted.
    pub fn is_encodable(&self) -> (r: bool)
        requires
            self.wf(),
        ensures
            r == self.encodable(),
    {
        let mut i: usize = 0;
        while i < self.frame.len()
            invariant
                self.wf(),
                i <= self.frame@.len(),
                forall|k: int| 0 <= k < i ==> self.can_draw(#[trigger] self.frame@[k]),
            decreases self.frame@.len() - i,
        {
            let fine: bool = match self.retained.get(self.frame[i].entity) {
                None => true,
                Some(item) => match &item.stroke {
                    None => true,
                    Some(stroke) => stroke.countable,
                },
            };
            if !fine {
                assert(!self.can_draw(self.frame@[i as int]));
                return false;
            }
            i = i + 1;
        }
        true
    }

    pub fn new() -> (workload: VelloWorkload)
        ensures
            workload.wf(),
            workload.frame@.len() == 0,
            workload.retained@ == Map::<u64, RetainedItem>::empty(),
            workload.clip_nodes@ == Map::<u64, SceneClip>::empty(),
    {
        VelloWorkload {
            retained: KeyedStore::new(),
            frame: Vec::new(),
            clip_nodes: KeyedStore::new(),
        }
    }

    fn extract_clips(&mut self, clips: &Vec<ClipSource>)
        requires
            old(self).wf(),
            forall|i: int| 0 <= i < clips@.len() ==> bounded_clip((#[trigger] clips@[i]).shape),
        ensures
            final(self).wf(),
            final(self).retained == old(self).retained,
            final(self).frame == old(self).frame,
            clip_steps(final(self).clip_nodes@, clips@),
    {
        self.clip_nodes.clear();
        let mut i: usize = 0;
        assert(clips@.take(0) =~= Seq::<ClipSource>::empty());
        while i < clips.len()
            invariant
                self.wf(),
                self.retained == old(self).retained,
                self.frame == old(self).frame,
                forall|k: int| 0 <= k < clips@.len() ==> bounded_clip((#[trigger] clips@[k]).shape),
                i <= clips@.len(),
                clip_steps(self.clip_nodes@, clips@.take(i as int)),
            decreases clips@.len() - i,
        {
            let clip: &ClipSource = &clips[i];
            let ghost between = self.clip_nodes@;
            assert(bounded_clip(clips@[i as int].shape));
            let path: BezPath = clip_path(&clip.shape);
            let parent: Option<u64> = entity_of(clip.parent);
            self.clip_nodes.insert(clip.entity, SceneClip { path, world: clip.world, parent });
            proof {
                assert(clip_outlines(clip.shape, bez_commands(path)));
                assert(clip_step(between, self.clip_nodes@, *clip));
                assert(clips@.take(i + 1).drop_last() =~= clips@.take(i as int));
                assert(clips@.take(i + 1).last() == *clip);
                assert(clip_steps(self.clip_nodes@, clips@.take(i + 1)));
            }
            i = i + 1;
        }
        assert(clips@.take(clips@.len() as int) =~= clips@);
    }

    /// Extracts a frame: its clips, its items, and the paths of entities that
    /// are new or changed.
    pub fn extract_vello_shapes(&mut self, clips: &Vec<ClipSource>, shapes: &Vec<SceneSource>)
        requires
            old(self).wf(),
            forall|i: int| 0 <= i < clips@.len() ==> bounded_clip((#[trigger] clips@[i]).shape),
            forall|i: int|
                0 <= i < shapes@.len() ==> buildable_where_new(
                    old(self).retained@,
                    #[trigger] shapes@[i],
                ),
        ensures
            final(self).wf(),
            clip_steps(final(self).clip_nodes@, clips@),
            retained_steps(old(self).retained@, final(self).retained@, shapes@),
            final(self).frame@ == frame_items(shapes@),
    {
        self.extract_clips(clips);
        self.frame.clear();
        let mut i: usize = 0;
        assert(shapes@.take(0) =~= Seq::<SceneSource>::empty());
        while i < shapes.len()
            invariant
                self.wf(),
                clip_steps(self.clip_nodes@, clips@),
                forall|k: int|
                    0 <= k < shapes@.len() ==> buildable_where_new(
                        old(self).retained@,
                        #[trigger] shapes@[k],
                    ),
                forall|entity: u64| #[trigger]
                    old(self).retained@.dom().contains(entity)
                        ==> self.retained@.dom().contains(entity),
                i <= shapes@.len(),
                retained_steps(old(self).retained@, self.retained@, shapes@.take(i as int)),
                self.frame@ == frame_items(shapes@).take(i as int),
            decreases shapes@.len() - i,
        {
            let shape: &SceneSource = &shapes[i];
            let ghost between = self.retained@;
            assert(buildable_where_new(old(self).retained@, shapes@[i as int]));
            if shape.changed || !self.retained.contains(shape.entity) {
                let item: RetainedItem = build_item(shape);
                let ghost built = item;
                self.retained.insert(shape.entity, item);
                assert(builds(built, *shape));
            }
            self.frame.push(
                FrameItem {
                    entity: shape.entity,
                    world: shape.world,
                    z: shape.z,
                    head: entity_of(shape.clipped),
                },
            );
            proof {
                assert(retained_step(between, self.retained@, *shape));
                assert(shapes@.take(i + 1).drop_last() =~= shapes@.take(i as int));
                assert(shapes@.take(i + 1).last() == *shape);
                assert(retained_steps(old(self).retained@, self.retained@, shapes@.take(i + 1)));
                assert(self.frame@ =~= frame_items(shapes@).take(i + 1));
            }
            i = i + 1;
        }
        assert(shapes@.take(shapes@.len() as int) =~= shapes@);
        assert(self.frame@ =~= frame_items(shapes@));
    }

    /// Whether the shape can be extracted next: it is retained and unchanged, or
    /// can be built.
    pub fn is_extractable(&self, source: &SceneSource) -> (r: bool)
        requires
            self.wf(),
        ensures
            r == buildable_where_new(self.retained@, *source),
    {
        (!source.changed && self.retained.contains(source.entity)) || source.is_buildable()
    }

    /// Makes the open layers those of one item.
    fn change_layers(&self, scene: &mut Scene, stack: Vec<u64>, layers: &Vec<u64>, view: Transform)
        requires
            self.wf(),
            forall|k: int|
                0 <= k < layers@.len() ==> self.clip_nodes@.dom().contains(#[trigger] layers@[k]),
            layer_depth(scene_calls(*old(scene))) == stack@.len(),
        ensures
            ({
                let common = agreement(stack@, layers@);
                follows(
                    scene_calls(*old(scene)),
                    scene_calls(*final(scene)),
                    pop_calls(stack@.len() - common) + push_calls(
                        self.clip_nodes@,
                        view,
                        layers@.skip(common),
                    ),
                )
            }),
            layer_depth(scene_calls(*final(scene))) == layers@.len(),
    {
        let ghost start = scene_calls(*scene);
        let mut common: usize = 0;
        while common < stack.len() && common < layers.len() && stack[common] == layers[common]
            invariant
                common <= stack@.len(),
                common <= layers@.len(),
                forall|j: int| 0 <= j < common ==> stack@[j] == layers@[j],
            ensures
                common <= stack@.len(),
                common <= layers@.len(),
                forall|j: int| 0 <= j < common ==> stack@[j] == layers@[j],
                common < stack@.len() && common < layers@.len() ==> stack@[common as int]
                    != layers@[common as int],
            decreases stack@.len() - common,
        {
            common = common + 1;
        }
        proof {
            lemma_agreement(stack@, layers@, common as int);
        }
        let mut i: usize = common;
        while i < stack.len()
            invariant
                common <= i <= stack@.len(),
                follows(start, scene_calls(*scene), pop_calls(i - common)),
                layer_depth(scene_calls(*scene)) == stack@.len() - (i - common),
            decreases stack@.len() - i,
        {
            let ghost prior = scene_calls(*scene);
            scene_pop_clip(scene);
            proof {
                assert(scene_calls(*scene).drop_last() =~= prior);
                lemma_pop_follows(start, prior, i - common);
            }
            i = i + 1;
        }
        let ghost popped = scene_calls(*scene);
        let ghost pushes = push_calls(self.clip_nodes@, view, layers@.skip(common as int));
        let mut j: usize = common;
        while j < layers.len()
            invariant
                self.wf(),
                forall|k: int|
                    0 <= k < layers@.len() ==> self.clip_nodes@.dom().contains(
                        #[trigger] layers@[k],
                    ),
                pushes == push_calls(self.clip_nodes@, view, layers@.skip(common as int)),
                common <= j <= layers@.len(),
                follows(popped, scene_calls(*scene), pushes.take(j - common)),
                layer_depth(scene_calls(*scene)) == j,
            decreases layers@.len() - j,
        {
            let ghost prior = scene_calls(*scene);
            assert(self.clip_nodes@.dom().contains(layers@[j as int]));
            match self.clip_nodes.get(layers[j]) {
                None => {},
                Some(node) => {
                    let place: Transform = compose(view, node.world);
                    scene_push_clip(scene, &node.path, FULL_ALPHA, place);
                },
            }
            assert(scene_calls(*scene).drop_last() =~= prior);
            assert(layers@.skip(common as int)[j - common] == layers@[j as int]);
            j = j + 1;
        }
        proof {
            assert(pushes.take(layers@.len() - common) =~= pushes);
            lemma_follows_on(
                start,
                popped,
                scene_calls(*scene),
                pop_calls(stack@.len() - common),
                pushes,
            );
        }
    }

    /// Encodes the frame into a scene: sorted, with layers pushed and popped
    /// only where they change.
    pub fn encode_scene(&mut self, scene: &mut Scene, view: Transform)
        requires
            old(self).wf(),
            old(self).encodable(),
        ensures
            final(self).wf(),
            final(self).retained == old(self).retained,
            final(self).clip_nodes == old(self).clip_nodes,
            final(self).frame@ == frame_sorted(old(self).frame@),
            carried_out(
                scene_calls(*final(scene)),
                scene_of(
                    frame_sorted(old(self).frame@),
                    old(self).retained@,
                    old(self).clip_nodes@,
                    view,
                ),
            ),
    {
        scene_reset(scene);
        let sorted: Vec<FrameItem> = sort_frame(&self.frame);
        let ghost items = sorted@;
        let count: usize = sorted.len();
        proof {
            lemma_ordered_members(self.frame@, frame_ranks(self.frame@));
            assert forall|k: int| 0 <= k < items.len() implies old(self).frame@.contains(
                #[trigger] items[k],
            ) by {
                assert(items.contains(items[k]));
            }
        }
        let mut stack: Vec<u64> = Vec::new();
        let mut i: usize = 0;
        assert(items.take(0) =~= Seq::<FrameItem>::empty());
        while i < count
            invariant
                self.wf(),
                items == sorted@,
                count == sorted@.len(),
                forall|k: int|
                    0 <= k < items.len() ==> old(self).frame@.contains(#[trigger] items[k]),
                old(self).encodable(),
                self.retained == old(self).retained,
                self.clip_nodes == old(self).clip_nodes,
                i <= items.len(),
                carried_out(
                    scene_calls(*scene),
                    encoded(items.take(i as int), self.retained@, self.clip_nodes@, view).0,
                ),
                stack@ == encoded(items.take(i as int), self.retained@, self.clip_nodes@, view).1,
                layer_depth(scene_calls(*scene)) == stack@.len(),
            decreases items.len() - i,
        {
            let item: FrameItem = sorted[i];
            proof {
                assert(items.take(i + 1).drop_last() =~= items.take(i as int));
                assert(items.take(i + 1).last() == item);
                let at = choose|at: int|
                    0 <= at < old(self).frame@.len() && old(self).frame@[at] == item;
                assert(old(self).can_draw(old(self).frame@[at]));
            }
            match self.retained.get(item.entity) {
                None => {},
                Some(kept) => {
                    let mut layers: Vec<u64> = Vec::new();
                    push_layer_chain(&self.clip_nodes, item.head, MAX_LAYERS, &mut layers);
                    proof {
                        assert(layers@ =~= layers_over(
                            self.clip_nodes@,
                            item.head,
                            MAX_LAYERS as nat,
                        ));
                        lemma_layers_are_there(self.clip_nodes@, item.head, MAX_LAYERS as nat);
                    }
                    let ghost entry = scene_calls(*scene);
                    let ghost (plan, open) = encoded(
                        items.take(i as int),
                        self.retained@,
                        self.clip_nodes@,
                        view,
                    );
                    let ghost common = agreement(open, layers@);
                    let ghost turn = pop_calls(open.len() - common) + push_calls(
                        self.clip_nodes@,
                        view,
                        layers@.skip(common),
                    );
                    self.change_layers(scene, stack, &layers, view);
                    let ghost placed = scene_calls(*scene);
                    let place: Transform = compose(view, item.world);
                    match &kept.fill {
                        None => {},
                        Some(fill) => {
                            scene_fill(scene, &fill.path, fill.color, place);
                        },
                    }
                    let ghost filled = scene_calls(*scene);
                    match &kept.stroke {
                        None => {},
                        Some(stroke) => {
                            scene_stroke(
                                scene,
                                &stroke.path,
                                &stroke.stroke,
                                stroke.color,
                                place,
                            );
                        },
                    }
                    proof {
                        let draws = draw_calls(*kept, view, item.world);
                        if kept.fill is Some {
                            assert(filled.drop_last() =~= placed);
                        }
                        assert(layer_depth(filled) == layer_depth(placed));
                        if kept.stroke is Some {
                            assert(scene_calls(*scene).drop_last() =~= filled);
                        }
                        assert(layer_depth(scene_calls(*scene)) == layer_depth(filled));
                        assert(follows(placed, scene_calls(*scene), draws));
                        lemma_follows_on(Seq::empty(), entry, placed, plan, turn);
                        lemma_follows_on(
                            Seq::empty(),
                            placed,
                            scene_calls(*scene),
                            plan + turn,
                            draws,
                        );
                        assert(plan + turn + draws =~= encoded(
                            items.take(i + 1),
                            self.retained@,
                            self.clip_nodes@,
                            view,
                        ).0);
                    }
                    stack = layers;
                },
            }
            i = i + 1;
        }
        assert(items.take(items.len() as int) =~= items);
        let ghost drawn = scene_calls(*scene);
        let n: usize = stack.len();
        let mut k: usize = 0;
        while k < n
            invariant
                k <= n,
                follows(drawn, scene_calls(*scene), pop_calls(k as int)),
                layer_depth(scene_calls(*scene)) == n - k,
            decreases n - k,
        {
            let ghost prior = scene_calls(*scene);
            scene_pop_clip(scene);
            proof {
                assert(scene_calls(*scene).drop_last() =~= prior);
                lemma_pop_follows(drawn, prior, k as int);
            }
            k = k + 1;
        }
        proof {
            let (plan, open) = encoded(items, self.retained@, self.clip_nodes@, view);
            lemma_follows_on(
                Seq::empty(),
                drawn,
                scene_calls(*scene),
                plan,
                pop_calls(n as int),
            );
        }
        self.frame = sorted;
    }
}

/// A shape of the frame belongs to the entity.
pub open spec fn shown(sources: Seq<SceneSource>, entity: u64) -> bool {
    exists|i: int| 0 <= i < sources.len() && (#[trigger] sources[i]).entity == entity
}

/// A clip of the frame belongs to the entity.
pub open spec fn clipping(sources: Seq<ClipSource>, entity: u64) -> bool {
    exists|i: int| 0 <= i < sources.len() && (#[trigger] sources[i]).entity == entity
}

/// Of a frame in which no entity has two shapes, every shape is retained: built
/// from its path and style where it changed or was not there, and as it was
/// otherwise. What other entities have stays as it was.
pub proof fn lemma_retained_items_follow_their_shapes(
    before: Map<u64, RetainedItem>,
    after: Map<u64, RetainedItem>,
    sources: Seq<SceneSource>,
)
    requires
        retained_steps(before, after, sources),
        forall|i: int, j: int|
            0 <= i < j < sources.len() ==> (#[trigger] sources[i]).entity != (
            #[trigger] sources[j]).entity,
    ensures
        forall|i: int|
            0 <= i < sources.len() ==> {
                let entity = (#[trigger] sources[i]).entity;
                &&& after.dom().contains(entity)
                &&& if before.dom().contains(entity) && !sources[i].changed {
                    after[entity] == before[entity]
                } else {
                    builds(after[entity], sources[i])
                }
            },
        forall|entity: u64|
            !shown(sources, entity) ==> (#[trigger] after.dom().contains(entity)
                <==> before.dom().contains(entity)),
        forall|entity: u64|
            !shown(sources, entity) && before.dom().contains(entity) ==> #[trigger] after[entity]
                == before[entity],
    decreases sources.len(),
{
    if sources.len() > 0 {
        let rest = sources.drop_last();
        let last = sources.last();
        let between = choose|between: Map<u64, RetainedItem>|
            retained_steps(before, between, rest) && #[trigger] retained_step(
                between,
                after,
                last,
            );
        assert forall|i: int, j: int| 0 <= i < j < rest.len() implies (#[trigger] rest[i]).entity
            != (#[trigger] rest[j]).entity by {
            assert(sources[i].entity != sources[j].entity);
        }
        lemma_retained_items_follow_their_shapes(before, between, rest);
        assert(!shown(rest, last.entity)) by {
            if shown(rest, last.entity) {
                let i = choose|i: int|
                    0 <= i < rest.len() && (#[trigger] rest[i]).entity == last.entity;
                assert(sources[i].entity != sources[sources.len() - 1].entity);
            }
        }
        assert(between.dom().contains(last.entity) <==> before.dom().contains(last.entity));
        assert forall|entity: u64| !shown(sources, entity) implies entity != last.entity
            && !shown(rest, entity) by {
            assert(sources[sources.len() - 1] == last);
            if shown(rest, entity) {
                let i = choose|i: int| 0 <= i < rest.len() && (#[trigger] rest[i]).entity == entity;
                assert(sources[i].entity == entity);
            }
        }
        assert forall|i: int| 0 <= i < sources.len() implies {
            let entity = (#[trigger] sources[i]).entity;
            &&& after.dom().contains(entity)
            &&& if before.dom().contains(entity) && !sources[i].changed {
                after[entity] == before[entity]
            } else {
                builds(after[entity], sources[i])
            }
        } by {
            if i < rest.len() {
                assert(rest[i] == sources[i]);
                assert(sources[i].entity != sources[sources.len() - 1].entity);
            } else {
                assert(between.dom().contains(last.entity) ==> between[last.entity]
                    == before[last.entity]);
            }
        }
    }
}

/// Of a frame in which no entity has two clips, exactly its clips are there,
/// each with an outline of its shape, its placement and its parent.
pub proof fn lemma_clip_nodes_are_those_of_the_frame(
    after: Map<u64, SceneClip>,
    sources: Seq<ClipSource>,
)
    requires
        clip_steps(after, sources),
        forall|i: int, j: int|
            0 <= i < j < sources.len() ==> (#[trigger] sources[i]).entity != (
            #[trigger] sources[j]).entity,
    ensures
        forall|entity: u64| #[trigger] after.dom().contains(entity) <==> clipping(sources, entity),
        forall|i: int|
            0 <= i < sources.len() ==> {
                let node = after[(#[trigger] sources[i]).entity];
                &&& clip_outlines(sources[i].shape, bez_commands(node.path))
                &&& node.world == sources[i].world
                &&& node.parent == bits_of(sources[i].parent)
            },
    decreases sources.len(),
{
    if sources.len() > 0 {
        let rest = sources.drop_last();
        let last = sources.last();
        let between = choose|between: Map<u64, SceneClip>|
            clip_steps(between, rest) && #[trigger] clip_step(between, after, last);
        assert forall|i: int, j: int| 0 <= i < j < rest.len() implies (#[trigger] rest[i]).entity
            != (#[trigger] rest[j]).entity by {
            assert(sources[i].entity != sources[j].entity);
        }
        lemma_clip_nodes_are_those_of_the_frame(between, rest);
        assert forall|entity: u64| #[trigger] after.dom().contains(entity) <==> clipping(
            sources,
            entity,
        ) by {
            assert(sources[sources.len() - 1] == last);
            if clipping(rest, entity) {
                let i = choose|i: int| 0 <= i < rest.len() && (#[trigger] rest[i]).entity == entity;
                assert(sources[i].entity == entity);
            }
            if clipping(sources, entity) && entity != last.entity {
                let i = choose|i: int|
                    0 <= i < sources.len() && (#[trigger] sources[i]).entity == entity;
                assert(rest[i].entity == entity);
            }
        }
        assert forall|i: int| 0 <= i < sources.len() implies {
            let node = after[(#[trigger] sources[i]).entity];
            &&& clip_outlines(sources[i].shape, bez_commands(node.path))
            &&& node.world == sources[i].world
            &&& node.parent == bits_of(sources[i].parent)
        } by {
            if i < rest.len() {
                assert(rest[i] == sources[i]);
                assert(sources[i].entity != sources[sources.len() - 1].entity);
            }
        }
    }
}

/// The layers that are open after a sequence of calls.
pub open spec fn open_layers(calls: Seq<PlannedCall>) -> Seq<PlannedCall>
    decreases calls.len(),
{
    if calls.len() == 0 {
        Seq::empty()
    } else {
        let earlier = open_layers(calls.drop_last());
        match calls.last() {
            PlannedCall::PushClip { .. } => earlier.push(calls.last()),
            PlannedCall::PopClip => if earlier.len() > 0 {
                earlier.drop_last()
            } else {
                earlier
            },
            _ => earlier,
        }
    }
}

/// No call pops a layer that is not open.
pub open spec fn balanced(calls: Seq<PlannedCall>) -> bool
    decreases calls.len(),
{
    calls.len() > 0 ==> balanced(calls.drop_last()) && (calls.last() is PopClip ==> open_layers(
        calls.drop_last(),
    ).len() > 0)
}

proof fn lemma_pops(calls: Seq<PlannedCall>, n: int)
    requires
        balanced(calls),
        0 <= n <= open_layers(calls).len(),
    ensures
        balanced(calls + pop_calls(n)),
        open_layers(calls + pop_calls(n)) == open_layers(calls).take(open_layers(calls).len() - n),
    decreases n,
{
    let open = open_layers(calls);
    if n == 0 {
        assert(calls + pop_calls(0) =~= calls);
        assert(open.take(open.len() as int) =~= open);
    } else {
        lemma_pops(calls, n - 1);
        let whole = calls + pop_calls(n);
        assert(whole.drop_last() =~= calls + pop_calls(n - 1));
        assert(whole.last() is PopClip);
        assert(open.take(open.len() - n + 1).drop_last() =~= open.take(open.len() - n));
    }
}

proof fn lemma_pushes(
    calls: Seq<PlannedCall>,
    nodes: Map<u64, SceneClip>,
    view: Transform,
    clips: Seq<u64>,
)
    requires
        balanced(calls),
    ensures
        balanced(calls + push_calls(nodes, view, clips)),
        open_layers(calls + push_calls(nodes, view, clips)) == open_layers(calls) + push_calls(
            nodes,
            view,
            clips,
        ),
    decreases clips.len(),
{
    let pushes = push_calls(nodes, view, clips);
    if clips.len() == 0 {
        assert(calls + pushes =~= calls);
        assert(open_layers(calls) + pushes =~= open_layers(calls));
    } else {
        let rest = clips.drop_last();
        lemma_pushes(calls, nodes, view, rest);
        let whole = calls + pushes;
        assert(whole.drop_last() =~= calls + push_calls(nodes, view, rest));
        assert(whole.last() == push_call(nodes, view, clips.last()));
        assert(open_layers(calls) + pushes =~= (open_layers(calls) + push_calls(
            nodes,
            view,
            rest,
        )).push(push_call(nodes, view, clips.last())));
    }
}

proof fn lemma_draws(
    calls: Seq<PlannedCall>,
    item: RetainedItem,
    view: Transform,
    world: Transform,
)
    requires
        balanced(calls),
    ensures
        balanced(calls + draw_calls(item, view, world)),
        open_layers(calls + draw_calls(item, view, world)) == open_layers(calls),
{
    let draws = draw_calls(item, view, world);
    let whole = calls + draws;
    if draws.len() == 0 {
        assert(whole =~= calls);
    } else if draws.len() == 1 {
        assert(whole.drop_last() =~= calls);
    } else {
        let one = whole.drop_last();
        assert(one.drop_last() =~= calls);
        assert(one.last() == draws[0] && whole.last() == draws[1]);
        assert(open_layers(one) == open_layers(calls));
        assert(balanced(one));
    }
}

/// What is drawn is drawn under exactly its own clips: behind the calls of any
/// items, the open layers are the clips of the last retained one, outermost
/// first, and no layer is popped that was not pushed.
pub proof fn lemma_items_are_drawn_under_their_clips(
    items: Seq<FrameItem>,
    retained: Map<u64, RetainedItem>,
    nodes: Map<u64, SceneClip>,
    view: Transform,
)
    ensures
        balanced(encoded(items, retained, nodes, view).0),
        open_layers(encoded(items, retained, nodes, view).0) == push_calls(
            nodes,
            view,
            encoded(items, retained, nodes, view).1,
        ),
        items.len() > 0 && retained.dom().contains(items.last().entity) ==> encoded(
            items,
            retained,
            nodes,
            view,
        ).1 == layers_over(nodes, items.last().head, MAX_LAYERS as nat),
    decreases items.len(),
{
    if items.len() == 0 {
        assert(push_calls(nodes, view, Seq::empty()) =~= Seq::<PlannedCall>::empty());
    } else {
        let rest = items.drop_last();
        lemma_items_are_drawn_under_their_clips(rest, retained, nodes, view);
        let (calls, stack) = encoded(rest, retained, nodes, view);
        let item = items.last();
        if retained.dom().contains(item.entity) {
            let layers = layers_over(nodes, item.head, MAX_LAYERS as nat);
            lemma_agreement_range(stack, layers);
            let common = agreement(stack, layers);
            lemma_pops(calls, stack.len() - common);
            let popped = calls + pop_calls(stack.len() - common);
            lemma_pushes(popped, nodes, view, layers.skip(common));
            let placed = popped + push_calls(nodes, view, layers.skip(common));
            lemma_draws(placed, retained[item.entity], view, item.world);
            let open = push_calls(nodes, view, stack);
            assert(open.take(common) =~= push_calls(nodes, view, stack.take(common)));
            assert(stack.take(common) + layers.skip(common) =~= layers);
            assert(push_calls(nodes, view, stack.take(common)) + push_calls(
                nodes,
                view,
                layers.skip(common),
            ) =~= push_calls(nodes, view, layers)) by {
                let both = stack.take(common) + layers.skip(common);
                assert(push_calls(nodes, view, both) =~= push_calls(
                    nodes,
                    view,
                    stack.take(common),
                ) + push_calls(nodes, view, layers.skip(common)));
            }
        }
    }
}

/// A whole scene leaves no layer open.
pub proof fn lemma_scenes_are_balanced(
    items: Seq<FrameItem>,
    retained: Map<u64, RetainedItem>,
    nodes: Map<u64, SceneClip>,
    view: Transform,
)
    ensures
        balanced(scene_of(items, retained, nodes, view)),
        open_layers(scene_of(items, retained, nodes, view)) == Seq::<PlannedCall>::empty(),
{
    lemma_items_are_drawn_under_their_clips(items, retained, nodes, view);
    let (calls, stack) = encoded(items, retained, nodes, view);
    lemma_pops(calls, stack.len() as int);
    assert(open_layers(calls).take(0) =~= Seq::<PlannedCall>::empty());
}


/// One item is drawn before another: what is under no clip before what is under
/// one, then by the clip, then from the back to the front.
pub open spec fn painted_before(a: FrameItem, b: FrameItem) -> bool {
    ||| a.head is None && b.head is Some
    ||| (a.head matches Some(x) && b.head matches Some(y) && x < y)
    ||| a.head == b.head && stands_before(a.z, b.z)
}

/// A frame is painted from the back to the front under each clip: the frame's
/// items, each once, in that order, and in the given order where they share clip
/// and depth.
pub proof fn lemma_frames_are_painted_back_to_front(
    items: Seq<FrameItem>,
    sorted: Seq<FrameItem>,
)
    requires
        items.len() <= usize::MAX,
        sorted == frame_sorted(items),
    ensures
        exists|from: Seq<usize>|
            {
                &&& #[trigger] rearranged(items, sorted, from)
                &&& forall|a: int, b: int|
                    0 <= a < b < from.len() ==> painted_before(sorted[a], sorted[b])
                        || sorted[a].head == sorted[b].head && sorted[a].z == sorted[b].z
                        && #[trigger] from[a] < #[trigger] from[b]
            },
{
    let ranks = frame_ranks(items);
    lemma_ordered_is_rearranged(items, ranks);
    let from = whole_order(ranks);
    assert forall|a: int, b: int| 0 <= a < b < from.len() implies painted_before(
        sorted[a],
        sorted[b],
    ) || sorted[a].head == sorted[b].head && sorted[a].z == sorted[b].z && #[trigger] from[a]
        < #[trigger] from[b] by {
        assert(before(ranks, from[a], from[b]));
        let (x, y) = (from[a] as int, from[b] as int);
        assert(sorted[a] == items[x] && sorted[b] == items[y]);
        lemma_total_lines_patterns_up(items[x].z, items[y].z);
    }
    assert(rearranged(items, sorted, from));
}

/// A frame has one item for each shape: its entity, where it stands, how deep,
/// and the clip it is under.
pub proof fn lemma_frames_have_an_item_for_each_shape(sources: Seq<SceneSource>)
    ensures
        frame_items(sources).len() == sources.len(),
        forall|i: int|
            0 <= i < sources.len() ==> {
                let item = #[trigger] frame_items(sources)[i];
                &&& item.entity == sources[i].entity
                &&& item.world == sources[i].world
                &&& item.z == sources[i].z
                &&& item.head is Some <==> sources[i].clipped is Some
                &&& item.head matches Some(head) ==> sources[i].clipped
                    == Some(ClippedBy(head))
            },
{
}

/// What is retained of a shape is its own: filled and stroked where its style
/// is, along its outline, in its colours, with the width, cap, join and dashes
/// of its stroke. (Numbers are kept exactly; a coordinate or length that is no
/// number stays one.)
pub proof fn lemma_built_items_are_their_shapes(item: RetainedItem, source: SceneSource)
    requires
        builds(item, source),
    ensures
        item.fill is Some <==> source.style.fill is Some,
        item.stroke is Some <==> source.style.stroke is Some,
        item.fill matches Some(fill) ==> {
            &&& fill.color == source.fill_color
            &&& bez_commands(fill.path).len() == source.commands@.len()
            &&& finite_path(source.commands@) ==> bez_commands(fill.path) == source.commands@
        },
        item.stroke matches Some(stroke) ==> {
            let pen = pen_of(stroke.stroke);
            let style = source.style.stroke->0;
            &&& stroke.color == source.stroke_color
            &&& bez_commands(stroke.path).len() == source.commands@.len()
            &&& finite_path(source.commands@) ==> bez_commands(stroke.path) == source.commands@
            &&& pen.cap == style.cap
            &&& pen.join == style.join
            &&& pen.dash is Some <==> style.dash is Some
            &&& style.width.finite() ==> pen.width == style.width
            &&& finite_pen(style_pen(style)) ==> pen.dash == style.dash
        },
{
    if let Some(fill) = item.fill {
        if finite_path(source.commands@) {
            lemma_alike_finite(bez_commands(fill.path), source.commands@);
        }
    }
    if let Some(stroke) = item.stroke {
        if finite_path(source.commands@) {
            lemma_alike_finite(bez_commands(stroke.path), source.commands@);
        }
        let style = source.style.stroke->0;
        if finite_pen(style_pen(style)) {
            lemma_pen_alike_finite(pen_of(stroke.stroke), style_pen(style));
        }
    }
}

/// Two bit patterns that differ in the sign bit alone.
pub open spec fn mirrored(a: u32, b: u32) -> bool {
    a == b + 0x8000_0000 || b == a + 0x8000_0000
}

/// A clip outline is that of its own shape, around the origin: a rectangle
/// reaches from its half extents on one side to those on the other, with its own
/// radius at the corners, and a circle has its own radius. Both follow the shape
/// to within a tenth.
pub proof fn lemma_clips_surround_the_origin(shape: VectorClipShape, outline: Seq<PathCommand>)
    requires
        clip_outlines(shape, outline),
    ensures
        shape matches VectorClipShape::RoundedRect { half_extents, radius } ==> exists|
            left: u32,
            bottom: u32,
        |
            {
                &&& mirrored(left, half_extents.x.bits)
                &&& mirrored(bottom, half_extents.y.bits)
                &&& #[trigger] rounded_outcome(
                    left,
                    bottom,
                    half_extents.x.bits,
                    half_extents.y.bits,
                    radius.bits,
                    0x3fb9_9999_9999_999a,
                    outline,
                )
            },
        shape matches VectorClipShape::Circle { radius } ==> circle_outcome(
            radius.bits,
            0x3fb9_9999_9999_999a,
            outline,
        ),
{
}

/// The clips over a head, the innermost first, each under the next: at most
/// four, and fewer only where nothing is above the last one.
pub open spec fn clip_line(nodes: Map<u64, SceneClip>, head: Option<u64>, line: Seq<u64>) -> bool {
    &&& line.len() <= 4
    &&& line.len() > 0 <==> (head matches Some(clip) && nodes.dom().contains(clip))
    &&& line.len() > 0 ==> head == Some(line[0])
    &&& forall|i: int| 0 <= i < line.len() ==> nodes.dom().contains(#[trigger] line[i])
    &&& forall|i: int, j: int|
        0 <= i && j == i + 1 && j < line.len() ==> nodes[#[trigger] line[i]].parent == Some(
            #[trigger] line[j],
        )
    &&& 0 < line.len() < 4 ==> !(nodes[line.last()].parent matches Some(clip)
        && nodes.dom().contains(clip))
}

/// The open layers are those of the line, the innermost on top, each with its
/// own outline and transform and not faded.
pub open spec fn opened(
    open: Seq<PlannedCall>,
    nodes: Map<u64, SceneClip>,
    view: Transform,
    line: Seq<u64>,
) -> bool {
    &&& open.len() == line.len()
    &&& forall|k: int|
        0 <= k < line.len() ==> open[line.len() - 1 - k] == (PlannedCall::PushClip {
            outline: bez_commands(nodes[#[trigger] line[k]].path),
            alpha: 0x3f80_0000,
            view,
            world: nodes[line[k]].world,
        })
}

/// At this place of the plan, exactly the clips of the item are open.
pub open spec fn under_own_clips(
    calls: Seq<PlannedCall>,
    at: int,
    nodes: Map<u64, SceneClip>,
    view: Transform,
    head: Option<u64>,
) -> bool {
    exists|line: Seq<u64>| #[trigger]
        clip_line(nodes, head, line) && opened(open_layers(calls.take(at)), nodes, view, line)
}

/// The plan draws the item here: its fill at the first place and its stroke at
/// the second one, along its outlines, in its colours and with its pen, under
/// the view and its own transform and clips, the fill first.
pub open spec fn draws_item(
    calls: Seq<PlannedCall>,
    item: FrameItem,
    kept: RetainedItem,
    nodes: Map<u64, SceneClip>,
    view: Transform,
    fill_at: int,
    stroke_at: int,
) -> bool {
    &&& kept.fill matches Some(fill) ==> {
        &&& 0 <= fill_at < calls.len()
        &&& calls[fill_at] == (PlannedCall::Fill {
            outline: bez_commands(fill.path),
            color: fill.color,
            view,
            world: item.world,
        })
        &&& under_own_clips(calls, fill_at, nodes, view, item.head)
        &&& kept.stroke is Some ==> fill_at < stroke_at
    }
    &&& kept.stroke matches Some(stroke) ==> {
        &&& 0 <= stroke_at < calls.len()
        &&& calls[stroke_at] == (PlannedCall::Stroke {
            outline: bez_commands(stroke.path),
            pen: pen_of(stroke.stroke),
            color: stroke.color,
            view,
            world: item.world,
        })
        &&& under_own_clips(calls, stroke_at, nodes, view, item.head)
    }
}

/// The place is one of the item's.
pub open spec fn belongs(kept: RetainedItem, at: int, fill_at: int, stroke_at: int) -> bool {
    kept.fill is Some && at == fill_at || kept.stroke is Some && at == stroke_at
}

/// The plan draws every retained item of the sequence, one behind the other, and
/// nothing else: `fills` and `strokes` tell where.
pub open spec fn draws_all(
    calls: Seq<PlannedCall>,
    items: Seq<FrameItem>,
    retained: Map<u64, RetainedItem>,
    nodes: Map<u64, SceneClip>,
    view: Transform,
    fills: Seq<int>,
    strokes: Seq<int>,
) -> bool {
    &&& fills.len() == items.len()
    &&& strokes.len() == items.len()
    &&& forall|i: int|
        0 <= i < items.len() && retained.dom().contains((#[trigger] items[i]).entity)
            ==> draws_item(
            calls,
            items[i],
            retained[items[i].entity],
            nodes,
            view,
            fills[i],
            strokes[i],
        )
    &&& forall|i: int, j: int, x: int, y: int|
        0 <= i < j < items.len() && retained.dom().contains((#[trigger] items[i]).entity)
            && retained.dom().contains((#[trigger] items[j]).entity) && #[trigger] belongs(
            retained[items[i].entity],
            x,
            fills[i],
            strokes[i],
        ) && #[trigger] belongs(retained[items[j].entity], y, fills[j], strokes[j]) ==> x < y
    &&& forall|at: int|
        0 <= at < calls.len() && ((#[trigger] calls[at]) is Fill || calls[at] is Stroke)
            ==> drawn_for_some(items, retained, fills, strokes, at)
}

/// Some retained item is drawn at this place.
pub open spec fn drawn_for_some(
    items: Seq<FrameItem>,
    retained: Map<u64, RetainedItem>,
    fills: Seq<int>,
    strokes: Seq<int>,
    at: int,
) -> bool {
    exists|i: int|
        0 <= i < items.len() && retained.dom().contains((#[trigger] items[i]).entity) && belongs(
            retained[items[i].entity],
            at,
            fills[i],
            strokes[i],
        )
}

proof fn lemma_layers_are_a_line(nodes: Map<u64, SceneClip>, head: Option<u64>, depth: nat) -> (line:
    Seq<u64>)
    requires
        depth > 0,
    ensures
        line.len() == layers_over(nodes, head, depth).len() <= depth,
        forall|k: int|
            0 <= k < line.len() ==> layers_over(nodes, head, depth)[line.len() - 1 - k]
                == #[trigger] line[k],
        line.len() > 0 <==> (head matches Some(clip) && nodes.dom().contains(clip)),
        line.len() > 0 ==> head == Some(line[0]),
        forall|i: int| 0 <= i < line.len() ==> nodes.dom().contains(#[trigger] line[i]),
        forall|i: int, j: int|
            0 <= i && j == i + 1 && j < line.len() ==> nodes[#[trigger] line[i]].parent == Some(
                #[trigger] line[j],
            ),
        0 < line.len() < depth ==> !(nodes[line.last()].parent matches Some(clip)
            && nodes.dom().contains(clip)),
    decreases depth,
{
    match head {
        Some(clip) if nodes.dom().contains(clip) => {
            let parent = nodes[clip].parent;
            let outer = layers_over(nodes, parent, (depth - 1) as nat);
            let whole = layers_over(nodes, head, depth);
            assert(whole == outer.push(clip));
            if depth > 1 {
                let rest = lemma_layers_are_a_line(nodes, parent, (depth - 1) as nat);
                let line = seq![clip] + rest;
                assert forall|k: int| 0 <= k < line.len() implies whole[line.len() - 1 - k]
                    == #[trigger] line[k] by {
                    if k > 0 {
                        assert(line[k] == rest[k - 1]);
                        assert(outer[rest.len() - 1 - (k - 1)] == rest[k - 1]);
                    }
                }
                assert forall|i: int| 0 <= i < line.len() implies nodes.dom().contains(
                    #[trigger] line[i],
                ) by {
                    if i > 0 {
                        assert(line[i] == rest[i - 1]);
                    }
                }
                assert forall|i: int, j: int| 0 <= i && j == i + 1 && j < line.len() implies nodes[
                    #[trigger] line[i]].parent == Some(#[trigger] line[j]) by {
                    assert(line[j] == rest[j - 1]);
                    if i > 0 {
                        assert(line[i] == rest[i - 1]);
                    }
                }
                if rest.len() > 0 {
                    assert(line.last() == rest.last());
                }
                line
            } else {
                assert(outer.len() == 0);
                seq![clip]
            }
        },
        _ => Seq::empty(),
    }
}

proof fn lemma_pushed_layers_are_opened(
    nodes: Map<u64, SceneClip>,
    view: Transform,
    head: Option<u64>,
) -> (line: Seq<u64>)
    ensures
        clip_line(nodes, head, line),
        opened(
            push_calls(nodes, view, layers_over(nodes, head, MAX_LAYERS as nat)),
            nodes,
            view,
            line,
        ),
{
    let layers = layers_over(nodes, head, MAX_LAYERS as nat);
    let line = lemma_layers_are_a_line(nodes, head, MAX_LAYERS as nat);
    let open = push_calls(nodes, view, layers);
    assert forall|k: int| 0 <= k < line.len() implies open[line.len() - 1 - k] == (
    PlannedCall::PushClip {
        outline: bez_commands(nodes[#[trigger] line[k]].path),
        alpha: 0x3f80_0000,
        view,
        world: nodes[line[k]].world,
    }) by {
        assert(layers[line.len() - 1 - k] == line[k]);
    }
    line
}

/// What stands behind the calls does not change where the items are drawn.
proof fn lemma_still_drawn(
    calls: Seq<PlannedCall>,
    more: Seq<PlannedCall>,
    item: FrameItem,
    kept: RetainedItem,
    nodes: Map<u64, SceneClip>,
    view: Transform,
    fill_at: int,
    stroke_at: int,
)
    requires
        draws_item(calls, item, kept, nodes, view, fill_at, stroke_at),
    ensures
        draws_item(calls + more, item, kept, nodes, view, fill_at, stroke_at),
{
    let whole = calls + more;
    if kept.fill is Some {
        assert(whole.take(fill_at) =~= calls.take(fill_at));
        let line = choose|line: Seq<u64>| #[trigger]
            clip_line(nodes, item.head, line) && opened(
                open_layers(calls.take(fill_at)),
                nodes,
                view,
                line,
            );
        assert(clip_line(nodes, item.head, line));
        assert(under_own_clips(whole, fill_at, nodes, view, item.head));
    }
    if kept.stroke is Some {
        assert(whole.take(stroke_at) =~= calls.take(stroke_at));
        let line = choose|line: Seq<u64>| #[trigger]
            clip_line(nodes, item.head, line) && opened(
                open_layers(calls.take(stroke_at)),
                nodes,
                view,
                line,
            );
        assert(clip_line(nodes, item.head, line));
        assert(under_own_clips(whole, stroke_at, nodes, view, item.head));
    }
}

/// The calls for one item, behind calls that leave its clips open, draw it.
#[verifier::rlimit(40)]
proof fn lemma_item_is_drawn(
    calls: Seq<PlannedCall>,
    item: FrameItem,
    kept: RetainedItem,
    nodes: Map<u64, SceneClip>,
    view: Transform,
) -> (places: (int, int))
    requires
        open_layers(calls) == push_calls(
            nodes,
            view,
            layers_over(nodes, item.head, MAX_LAYERS as nat),
        ),
    ensures
        draws_item(
            calls + draw_calls(kept, view, item.world),
            item,
            kept,
            nodes,
            view,
            places.0,
            places.1,
        ),
        forall|at: int| #[trigger]
            belongs(kept, at, places.0, places.1) <==> calls.len() <= at < calls.len() + draw_calls(
                kept,
                view,
                item.world,
            ).len(),
{
    let draws = draw_calls(kept, view, item.world);
    let whole = calls + draws;
    let line = lemma_pushed_layers_are_opened(nodes, view, item.head);
    let fill_at = calls.len() as int;
    let stroke_at = if kept.fill is Some {
        fill_at + 1
    } else {
        fill_at
    };
    if kept.fill is Some {
        assert(whole[fill_at] == draws[0]);
        assert(whole.take(fill_at) =~= calls);
        assert(clip_line(nodes, item.head, line));
        assert(under_own_clips(whole, fill_at, nodes, view, item.head));
    }
    if kept.stroke is Some {
        assert(whole[stroke_at] == draws[stroke_at - fill_at]);
        let before = whole.take(stroke_at);
        if kept.fill is Some {
            assert(before.drop_last() =~= calls);
            assert(before.last() == draws[0]);
        } else {
            assert(before =~= calls);
        }
        assert(open_layers(before) == open_layers(calls));
        assert(clip_line(nodes, item.head, line));
        assert(under_own_clips(whole, stroke_at, nodes, view, item.head));
    }
    (fill_at, stroke_at)
}


#[verifier::rlimit(40)]
proof fn lemma_encoded_items_are_drawn(
    items: Seq<FrameItem>,
    retained: Map<u64, RetainedItem>,
    nodes: Map<u64, SceneClip>,
    view: Transform,
) -> (places: (Seq<int>, Seq<int>))
    ensures
        draws_all(
            encoded(items, retained, nodes, view).0,
            items,
            retained,
            nodes,
            view,
            places.0,
            places.1,
        ),
    decreases items.len(),
{
    if items.len() == 0 {
        (Seq::empty(), Seq::empty())
    } else {
        let rest = items.drop_last();
        let (calls, stack) = encoded(rest, retained, nodes, view);
        let (fills, strokes) = lemma_encoded_items_are_drawn(rest, retained, nodes, view);
        let item = items.last();
        let n = rest.len() as int;
        let whole = encoded(items, retained, nodes, view).0;
        let (placed, at_fill, at_stroke) = if retained.dom().contains(item.entity) {
            let kept = retained[item.entity];
            let layers = layers_over(nodes, item.head, MAX_LAYERS as nat);
            let common = agreement(stack, layers);
            let placed = calls + pop_calls(stack.len() - common) + push_calls(
                nodes,
                view,
                layers.skip(common),
            );
            lemma_placed_layers(items, retained, nodes, view);
            let (f, s) = lemma_item_is_drawn(placed, item, kept, nodes, view);
            assert(whole == placed + draw_calls(kept, view, item.world));
            (placed, f, s)
        } else {
            (calls, 0int, 0int)
        };
        let all_fills = fills.push(at_fill);
        let all_strokes = strokes.push(at_stroke);
        let more = whole.skip(calls.len() as int);
        assert(whole =~= calls + more);
        assert forall|i: int|
            0 <= i < items.len() && retained.dom().contains(
                (#[trigger] items[i]).entity,
            ) implies draws_item(
            whole,
            items[i],
            retained[items[i].entity],
            nodes,
            view,
            all_fills[i],
            all_strokes[i],
        ) by {
            if i < n {
                assert(items[i] == rest[i]);
                lemma_still_drawn(
                    calls,
                    more,
                    items[i],
                    retained[items[i].entity],
                    nodes,
                    view,
                    fills[i],
                    strokes[i],
                );
            }
        }
        assert forall|i: int, j: int, x: int, y: int|
            0 <= i < j < items.len() && retained.dom().contains((#[trigger] items[i]).entity)
                && retained.dom().contains((#[trigger] items[j]).entity) && #[trigger] belongs(
                retained[items[i].entity],
                x,
                all_fills[i],
                all_strokes[i],
            ) && #[trigger] belongs(
                retained[items[j].entity],
                y,
                all_fills[j],
                all_strokes[j],
            ) implies x < y by {
            assert(items[i] == rest[i]);
            assert(belongs(retained[rest[i].entity], x, fills[i], strokes[i]));
            if j < n {
                assert(items[j] == rest[j]);
                assert(belongs(retained[rest[j].entity], y, fills[j], strokes[j]));
            } else {
                assert(draws_item(
                    calls,
                    rest[i],
                    retained[rest[i].entity],
                    nodes,
                    view,
                    fills[i],
                    strokes[i],
                ));
                assert(x < calls.len());
                assert(placed.len() <= y);
            }
        }
        assert forall|at: int|
            0 <= at < whole.len() && ((#[trigger] whole[at]) is Fill || whole[at]
                is Stroke) implies drawn_for_some(
            items,
            retained,
            all_fills,
            all_strokes,
            at,
        ) by {
            if at < calls.len() {
                assert(whole[at] == calls[at]);
                assert(drawn_for_some(rest, retained, fills, strokes, at));
                let i = choose|i: int|
                    0 <= i < rest.len() && retained.dom().contains((#[trigger] rest[i]).entity)
                        && belongs(retained[rest[i].entity], at, fills[i], strokes[i]);
                assert(items[i] == rest[i]);
            } else {
                assert(retained.dom().contains(item.entity));
                assert(placed.len() <= at) by {
                    if at < placed.len() {
                        assert(whole[at] == placed[at]);
                        let layers = layers_over(nodes, item.head, MAX_LAYERS as nat);
                        let common = agreement(stack, layers);
                        let pops = pop_calls(stack.len() - common);
                        let pushes = push_calls(nodes, view, layers.skip(common));
                        if at < calls.len() + pops.len() {
                            assert(placed[at] == pops[at - calls.len()]);
                        } else {
                            assert(placed[at] == pushes[at - calls.len() - pops.len()]);
                        }
                    }
                }
                assert(items[n] == item);
                assert(belongs(retained[items[n].entity], at, all_fills[n], all_strokes[n]));
            }
        }
        (all_fills, all_strokes)
    }
}

/// Behind the pops and pushes for the last item, exactly its layers are open.
proof fn lemma_placed_layers(
    items: Seq<FrameItem>,
    retained: Map<u64, RetainedItem>,
    nodes: Map<u64, SceneClip>,
    view: Transform,
)
    requires
        items.len() > 0,
        retained.dom().contains(items.last().entity),
    ensures
        ({
            let (calls, stack) = encoded(items.drop_last(), retained, nodes, view);
            let layers = layers_over(nodes, items.last().head, MAX_LAYERS as nat);
            let common = agreement(stack, layers);
            open_layers(
                calls + pop_calls(stack.len() - common) + push_calls(
                    nodes,
                    view,
                    layers.skip(common),
                ),
            ) == push_calls(nodes, view, layers)
        }),
{
    let rest = items.drop_last();
    lemma_items_are_drawn_under_their_clips(rest, retained, nodes, view);
    let (calls, stack) = encoded(rest, retained, nodes, view);
    let layers = layers_over(nodes, items.last().head, MAX_LAYERS as nat);
    lemma_agreement_range(stack, layers);
    let common = agreement(stack, layers);
    lemma_pops(calls, stack.len() - common);
    let popped = calls + pop_calls(stack.len() - common);
    lemma_pushes(popped, nodes, view, layers.skip(common));
    let open = push_calls(nodes, view, stack);
    assert(open.take(common) =~= push_calls(nodes, view, stack.take(common)));
    let both = stack.take(common) + layers.skip(common);
    assert(both =~= layers);
    assert(push_calls(nodes, view, both) =~= push_calls(nodes, view, stack.take(common))
        + push_calls(nodes, view, layers.skip(common)));
}

/// What a scene shows: every retained item of the sequence, in its order, its
/// fill and then its stroke, each with its own outline, colour, pen and
/// transform and under exactly its own clips; and nothing else.
pub proof fn lemma_scenes_show_every_item(
    items: Seq<FrameItem>,
    retained: Map<u64, RetainedItem>,
    nodes: Map<u64, SceneClip>,
    view: Transform,
    plan: Seq<PlannedCall>,
)
    requires
        plan == scene_of(items, retained, nodes, view),
    ensures
        exists|fills: Seq<int>, strokes: Seq<int>| #[trigger]
            draws_all(plan, items, retained, nodes, view, fills, strokes),
{
    let (calls, stack) = encoded(items, retained, nodes, view);
    let (fills, strokes) = lemma_encoded_items_are_drawn(items, retained, nodes, view);
    let pops = pop_calls(stack.len() as int);
    assert forall|i: int|
        0 <= i < items.len() && retained.dom().contains(
            (#[trigger] items[i]).entity,
        ) implies draws_item(
        plan,
        items[i],
        retained[items[i].entity],
        nodes,
        view,
        fills[i],
        strokes[i],
    ) by {
        lemma_still_drawn(
            calls,
            pops,
            items[i],
            retained[items[i].entity],
            nodes,
            view,
            fills[i],
            strokes[i],
        );
    }
    assert forall|at: int|
        0 <= at < plan.len() && ((#[trigger] plan[at]) is Fill || plan[at]
            is Stroke) implies drawn_for_some(items, retained, fills, strokes, at) by {
        if at < calls.len() {
            assert(plan[at] == calls[at]);
        } else {
            assert(plan[at] == pops[at - calls.len()]);
        }
    }
    assert(draws_all(plan, items, retained, nodes, view, fills, strokes));
}

/// A plan is carried out call by call: as many calls, each of the planned kind
/// with the planned outline, colour, pen and alpha, in a place that the view and
/// the planned transform give.
pub proof fn lemma_plans_are_carried_out_call_by_call(
    calls: Seq<SceneCall>,
    plan: Seq<PlannedCall>,
)
    requires
        carried_out(calls, plan),
    ensures
        calls.len() == plan.len(),
        forall|i: int|
            0 <= i < plan.len() ==> match (#[trigger] plan[i]) {
                PlannedCall::PushClip { outline, alpha, view, world } => calls[i] matches
                    SceneCall::PushClip { outline: o, alpha: a, place } && o == outline && a
                    == alpha && composed(view.bits@, world.bits@, place.bits@),
                PlannedCall::PopClip => calls[i] is PopClip,
                PlannedCall::Fill { outline, color, view, world } => calls[i] matches
                    SceneCall::Fill { outline: o, color: c, place } && o == outline && c == color
                    && composed(view.bits@, world.bits@, place.bits@),
                PlannedCall::Stroke { outline, pen, color, view, world } => calls[i] matches
                    SceneCall::Stroke { outline: o, pen: p, color: c, place } && o == outline && p
                    == pen && c == color && composed(view.bits@, world.bits@, place.bits@),
            },
{
    assert forall|i: int| 0 <= i < plan.len() implies carries(calls[i], #[trigger] plan[i]) by {
        let at = Seq::<SceneCall>::empty().len() + i;
        assert(carries(calls[at], plan[i]));
    }
}


/// Layers that two items share stay open between them: where one item follows
/// another under the same clip, nothing is popped or pushed.
pub proof fn lemma_shared_layers_stay_open(
    items: Seq<FrameItem>,
    retained: Map<u64, RetainedItem>,
    nodes: Map<u64, SceneClip>,
    view: Transform,
)
    requires
        items.len() >= 2,
        retained.dom().contains(items[items.len() - 2].entity),
        items[items.len() - 2].head == items[items.len() - 1].head,
    ensures
        encoded(items.drop_last(), retained, nodes, view).0.len() <= encoded(
            items,
            retained,
            nodes,
            view,
        ).0.len(),
        forall|at: int|
            encoded(items.drop_last(), retained, nodes, view).0.len() <= at < encoded(
                items,
                retained,
                nodes,
                view,
            ).0.len() ==> {
                let call = #[trigger] encoded(items, retained, nodes, view).0[at];
                call is Fill || call is Stroke
            },
{
    let rest = items.drop_last();
    let item = items.last();
    let (calls, stack) = encoded(rest, retained, nodes, view);
    let layers = layers_over(nodes, item.head, MAX_LAYERS as nat);
    assert(rest.last() == items[items.len() - 2]);
    lemma_items_are_drawn_under_their_clips(rest, retained, nodes, view);
    assert(stack == layers);
    lemma_agreement(stack, layers, stack.len() as int);
    let whole = encoded(items, retained, nodes, view).0;
    if retained.dom().contains(item.entity) {
        let draws = draw_calls(retained[item.entity], view, item.world);
        assert(whole =~= calls + draws);
        assert forall|at: int| calls.len() <= at < whole.len() implies {
            let call = #[trigger] whole[at];
            call is Fill || call is Stroke
        } by {
            assert(whole[at] == draws[at - calls.len()]);
        }
    }
}


/// An ordinary clip has an outline that ends: its radius is finite, or it has no
/// corner that is not.
pub proof fn lemma_ordinary_clips_are_bounded(shape: VectorClipShape)
    ensures
        shape matches VectorClipShape::RoundedRect { half_extents, radius } ==> (radius.bits
            % 0x8000_0000 < 0x7f80_0000 || half_extents.x.bits % 0x8000_0000 < 0x7f80_0000
            || half_extents.y.bits % 0x8000_0000 < 0x7f80_0000 ==> bounded_clip(shape)),
        shape matches VectorClipShape::Circle { radius } ==> (radius.bits % 0x8000_0000
            < 0x7f80_0000 ==> bounded_clip(shape)),
{
}

/// A shape can be built where it begins with a move, has no commands, or is
/// neither filled nor stroked, and nowhere else; one that is retained and has not
/// changed need not be.
pub proof fn lemma_shapes_that_begin_with_a_move_can_be_built(
    source: SceneSource,
    retained: Map<u64, RetainedItem>,
)
    ensures
        buildable(source) <==> (source.style.fill is None && source.style.stroke is None)
            || source.commands@.len() == 0 || source.commands@[0] is MoveTo,
        buildable_where_new(retained, source) <==> buildable(source) || (retained.dom().contains(
            source.entity,
        ) && !source.changed),
{
}

/// What is filled or has no dashes can be drawn, and so can what is not retained.
pub proof fn lemma_undashed_items_can_be_drawn(workload: VelloWorkload, item: FrameItem)
    ensures
        !workload.retained@.dom().contains(item.entity) ==> workload.can_draw(item),
        workload.retained@.dom().contains(item.entity) && workload.retained@[item.entity].stroke
            is None ==> workload.can_draw(item),
        workload.retained@.dom().contains(item.entity) ==> (
        workload.retained@[item.entity].stroke matches Some(stroke) ==> (pen_of(
            stroke.stroke,
        ).dash is None ==> workload.can_draw(item))),
{
}

} // verus!
