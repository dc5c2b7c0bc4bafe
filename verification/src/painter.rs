//! Immediate-mode painting: a per-frame command queue over the same
//! tessellate-once machinery as retained shapes. Geometry is authored around
//! the origin, so that what is painted again next frame is found in the cache.

use bevy::camera::visibility::RenderLayers;
use vstd::prelude::*;

use crate::hud::Placement;
use crate::layers::{layers_clone, mask_words};
use crate::path::{
    Brush, LineCap, LineJoin, LinearRgba, PathCommand, PathStyle, Point, StrokeStyle,
};
use crate::scalar::{both_zero, Scalar};
use crate::tess::{fill_writes, stroke_writes};

verus! {

/// One shape painted this frame.
pub struct PaintedShape {
    pub commands: Vec<PathCommand>,
    pub style: PathStyle,
    pub placement: Placement,
    pub layers: Option<RenderLayers>,
}

/// One parametric arc painted this frame (never tessellates).
pub struct PaintedArc {
    pub inner: Scalar,
    pub outer: Scalar,
    pub start: Scalar,
    pub sweep: Scalar,
    pub color: LinearRgba,
    pub placement: Placement,
    pub layers: Option<RenderLayers>,
}

/// What was painted this frame.
pub struct VectorPainterQueue {
    pub shapes: Vec<PaintedShape>,
    pub arcs: Vec<PaintedArc>,
}

/// Painter state that persists across calls.
pub struct PainterConfig {
    /// Limit painting to cameras whose layers intersect these; `None` is the
    /// default layer.
    pub render_layers: Option<RenderLayers>,
    pub cap: LineCap,
    pub join: LineJoin,
}

impl Default for PainterConfig {
    /// The default layer, butt caps, mitered joins.
    fn default() -> (config: PainterConfig)
        ensures
            config == (PainterConfig {
                render_layers: None,
                cap: LineCap::Butt,
                join: LineJoin::Miter,
            }),
    {
        PainterConfig { render_layers: None, cap: LineCap::Butt, join: LineJoin::Miter }
    }
}

impl PainterConfig {
    /// Back to the defaults.
    pub fn reset(&mut self)
        ensures
            *final(self) == (PainterConfig {
                render_layers: None,
                cap: LineCap::Butt,
                join: LineJoin::Miter,
            }),
    {
        *self = PainterConfig::default();
    }

    fn layers(&self) -> (layers: Option<RenderLayers>)
        ensures
            mask_words(layers) == mask_words(self.render_layers),
            layers is Some <==> self.render_layers is Some,
    {
        match &self.render_layers {
            None => None,
            Some(layers) => Some(layers_clone(layers)),
        }
    }

    /// An undashed stroke with the painter's cap and join.
    pub open spec fn pen(self, color: LinearRgba, width: Scalar) -> StrokeStyle {
        StrokeStyle {
            brush: Brush::Solid(color),
            width,
            join: self.join,
            cap: self.cap,
            dash: None,
        }
    }

    pub fn stroke_style(&self, color: LinearRgba, width: Scalar) -> (stroke: StrokeStyle)
        ensures
            stroke == self.pen(color, width),
    {
        let mut stroke: StrokeStyle = StrokeStyle::new(Brush::Solid(color), width);
        stroke.join = self.join;
        stroke.cap = self.cap;
        stroke
    }
}

/// The shape is what was painted with this configuration.
pub open spec fn painted(
    shape: PaintedShape,
    config: PainterConfig,
    placement: Placement,
    commands: Seq<PathCommand>,
    style: PathStyle,
) -> bool {
    &&& shape.commands@ == commands
    &&& shape.style == style
    &&& shape.placement == placement
    &&& mask_words(shape.layers) == mask_words(config.render_layers)
    &&& shape.layers is Some <==> config.render_layers is Some
}

/// A rectangle around the origin, given by its half extents.
pub open spec fn rect_outline(half: Point) -> Seq<PathCommand> {
    let (x, y) = (half.x, half.y);
    seq![
        PathCommand::MoveTo(Point { x: x.negated(), y: y.negated() }),
        PathCommand::LineTo(Point { x, y: y.negated() }),
        PathCommand::LineTo(Point { x, y }),
        PathCommand::LineTo(Point { x: x.negated(), y }),
        PathCommand::Close,
    ]
}

pub fn rect_commands(half: Point) -> (commands: Vec<PathCommand>)
    ensures
        commands@ == rect_outline(half),
{
    let (x, y): (Scalar, Scalar) = (half.x, half.y);
    let commands: Vec<PathCommand> = vec![
        PathCommand::MoveTo(Point { x: x.neg(), y: y.neg() }),
        PathCommand::LineTo(Point { x, y: y.neg() }),
        PathCommand::LineTo(Point { x, y }),
        PathCommand::LineTo(Point { x: x.neg(), y }),
        PathCommand::Close,
    ];
    assert(commands@ =~= rect_outline(half));
    commands
}

/// A circle around the origin as four cubics with control handles of length
/// `k`.
pub open spec fn circle_outline(r: Scalar, k: Scalar) -> Seq<PathCommand> {
    let zero = Scalar { bits: 0 };
    let (nr, nk) = (r.negated(), k.negated());
    seq![
        PathCommand::MoveTo(Point { x: r, y: zero }),
        PathCommand::CubicTo {
            ctrl1: Point { x: r, y: k },
            ctrl2: Point { x: k, y: r },
            to: Point { x: zero, y: r },
        },
        PathCommand::CubicTo {
            ctrl1: Point { x: nk, y: r },
            ctrl2: Point { x: nr, y: k },
            to: Point { x: nr, y: zero },
        },
        PathCommand::CubicTo {
            ctrl1: Point { x: nr, y: nk },
            ctrl2: Point { x: nk, y: nr },
            to: Point { x: zero, y: nr },
        },
        PathCommand::CubicTo {
            ctrl1: Point { x: k, y: nr },
            ctrl2: Point { x: r, y: nk },
            to: Point { x: r, y: zero },
        },
        PathCommand::Close,
    ]
}

pub fn circle_commands(r: Scalar, k: Scalar) -> (commands: Vec<PathCommand>)
    ensures
        commands@ == circle_outline(r, k),
{
    let zero: Scalar = Scalar::zero();
    let (nr, nk): (Scalar, Scalar) = (r.neg(), k.neg());
    let commands: Vec<PathCommand> = vec![
        PathCommand::MoveTo(Point { x: r, y: zero }),
        PathCommand::CubicTo {
            ctrl1: Point { x: r, y: k },
            ctrl2: Point { x: k, y: r },
            to: Point { x: zero, y: r },
        },
        PathCommand::CubicTo {
            ctrl1: Point { x: nk, y: r },
            ctrl2: Point { x: nr, y: k },
            to: Point { x: nr, y: zero },
        },
        PathCommand::CubicTo {
            ctrl1: Point { x: nr, y: nk },
            ctrl2: Point { x: nk, y: nr },
            to: Point { x: zero, y: nr },
        },
        PathCommand::CubicTo {
            ctrl1: Point { x: k, y: nr },
            ctrl2: Point { x: r, y: nk },
            to: Point { x: r, y: zero },
        },
        PathCommand::Close,
    ];
    assert(commands@ =~= circle_outline(r, k));
    commands
}

pub open spec fn triangle_outline(a: Point, b: Point, c: Point) -> Seq<PathCommand> {
    seq![
        PathCommand::MoveTo(a),
        PathCommand::LineTo(b),
        PathCommand::LineTo(c),
        PathCommand::Close,
    ]
}

pub open spec fn line_outline(start: Point, end: Point) -> Seq<PathCommand> {
    seq![PathCommand::MoveTo(start), PathCommand::LineTo(end)]
}

impl VectorPainterQueue {
    pub fn new() -> (queue: VectorPainterQueue)
        ensures
            queue.shapes@.len() == 0,
            queue.arcs@.len() == 0,
    {
        VectorPainterQueue { shapes: Vec::new(), arcs: Vec::new() }
    }

    /// Forgets what was painted.
    pub fn clear(&mut self)
        ensures
            final(self).shapes@ == Seq::<PaintedShape>::empty(),
            final(self).arcs@ == Seq::<PaintedArc>::empty(),
    {
        self.shapes.clear();
        self.arcs.clear();
    }

    /// One more shape was painted, and nothing else changed.
    pub open spec fn gains(
        self,
        before: VectorPainterQueue,
        config: PainterConfig,
        placement: Placement,
        commands: Seq<PathCommand>,
        style: PathStyle,
    ) -> bool {
        &&& self.arcs@ == before.arcs@
        &&& self.shapes@.len() == before.shapes@.len() + 1
        &&& self.shapes@.drop_last() == before.shapes@
        &&& painted(self.shapes@.last(), config, placement, commands, style)
    }

    /// Paints any path with any style.
    pub fn shape(
        &mut self,
        config: &PainterConfig,
        placement: Placement,
        commands: Vec<PathCommand>,
        style: PathStyle,
    )
        ensures
            final(self).gains(*old(self), *config, placement, commands@, style),
    {
        self.shapes.push(PaintedShape { commands, style, placement, layers: config.layers() });
        assert(self.shapes@.drop_last() =~= old(self).shapes@);
    }

    pub fn fill_path(
        &mut self,
        config: &PainterConfig,
        placement: Placement,
        commands: Vec<PathCommand>,
        color: LinearRgba,
    )
        ensures
            final(self).gains(
                *old(self),
                *config,
                placement,
                commands@,
                filled(color),
            ),
    {
        self.shape(config, placement, commands, PathStyle::fill(Brush::Solid(color)));
    }

    pub fn stroke_path(
        &mut self,
        config: &PainterConfig,
        placement: Placement,
        commands: Vec<PathCommand>,
        width: Scalar,
        color: LinearRgba,
    )
        ensures
            final(self).gains(
                *old(self),
                *config,
                placement,
                commands@,
                stroked(config.pen(color, width)),
            ),
    {
        let stroke: StrokeStyle = config.stroke_style(color, width);
        self.shape(config, placement, commands, PathStyle::stroke(stroke));
    }

    /// Filled rectangle around the placement, given by its half extents.
    pub fn fill_rect(
        &mut self,
        config: &PainterConfig,
        placement: Placement,
        half: Point,
        color: LinearRgba,
    )
        ensures
            final(self).gains(
                *old(self),
                *config,
                placement,
                rect_outline(half),
                filled(color),
            ),
    {
        self.fill_path(config, placement, rect_commands(half), color);
    }

    /// Rectangle outline around the placement.
    pub fn stroke_rect(
        &mut self,
        config: &PainterConfig,
        placement: Placement,
        half: Point,
        width: Scalar,
        color: LinearRgba,
    )
        ensures
            final(self).gains(
                *old(self),
                *config,
                placement,
                rect_outline(half),
                stroked(config.pen(color, width)),
            ),
    {
        self.stroke_path(config, placement, rect_commands(half), width, color);
    }

    /// Filled circle around the placement, given by its radius and the length
    /// of its control handles.
    pub fn fill_circle(
        &mut self,
        config: &PainterConfig,
        placement: Placement,
        radius: Scalar,
        handle: Scalar,
        color: LinearRgba,
    )
        ensures
            final(self).gains(
                *old(self),
                *config,
                placement,
                circle_outline(radius, handle),
                filled(color),
            ),
    {
        self.fill_path(config, placement, circle_commands(radius, handle), color);
    }

    /// Circle outline around the placement.
    pub fn stroke_circle(
        &mut self,
        config: &PainterConfig,
        placement: Placement,
        radius: Scalar,
        handle: Scalar,
        width: Scalar,
        color: LinearRgba,
    )
        ensures
            final(self).gains(
                *old(self),
                *config,
                placement,
                circle_outline(radius, handle),
                stroked(config.pen(color, width)),
            ),
    {
        self.stroke_path(config, placement, circle_commands(radius, handle), width, color);
    }

    /// Filled triangle, its corners relative to the placement.
    pub fn fill_triangle(
        &mut self,
        config: &PainterConfig,
        placement: Placement,
        a: Point,
        b: Point,
        c: Point,
        color: LinearRgba,
    )
        ensures
            final(self).gains(
                *old(self),
                *config,
                placement,
                triangle_outline(a, b, c),
                filled(color),
            ),
    {
        let commands: Vec<PathCommand> = vec![
            PathCommand::MoveTo(a),
            PathCommand::LineTo(b),
            PathCommand::LineTo(c),
            PathCommand::Close,
        ];
        assert(commands@ =~= triangle_outline(a, b, c));
        self.fill_path(config, placement, commands, color);
    }

    /// Straight segment, its ends relative to the placement, with the
    /// painter's cap.
    pub fn line(
        &mut self,
        config: &PainterConfig,
        placement: Placement,
        start: Point,
        end: Point,
        width: Scalar,
        color: LinearRgba,
    )
        ensures
            final(self).gains(
                *old(self),
                *config,
                placement,
                line_outline(start, end),
                stroked(config.pen(color, width)),
            ),
    {
        let commands: Vec<PathCommand> = vec![
            PathCommand::MoveTo(start),
            PathCommand::LineTo(end),
        ];
        assert(commands@ =~= line_outline(start, end));
        self.stroke_path(config, placement, commands, width, color);
    }

    /// Ring segment around the placement: parametric, never tessellated.
    pub fn arc(
        &mut self,
        config: &PainterConfig,
        placement: Placement,
        inner: Scalar,
        outer: Scalar,
        start: Scalar,
        sweep: Scalar,
        color: LinearRgba,
    )
        ensures
            final(self).shapes@ == old(self).shapes@,
            final(self).arcs@.len() == old(self).arcs@.len() + 1,
            final(self).arcs@.drop_last() == old(self).arcs@,
            ({
                let arc = final(self).arcs@.last();
                &&& arc.inner == inner && arc.outer == outer
                &&& arc.start == start && arc.sweep == sweep
                &&& arc.color == color
                &&& arc.placement == placement
                &&& mask_words(arc.layers) == mask_words(config.render_layers)
                &&& arc.layers is Some <==> config.render_layers is Some
            }),
    {
        self.arcs.push(
            PaintedArc {
                inner,
                outer,
                start,
                sweep,
                color,
                placement,
                layers: config.layers(),
            },
        );
        assert(self.arcs@.drop_last() =~= old(self).arcs@);
    }
}

/// Filled with one colour.
pub open spec fn filled(color: LinearRgba) -> PathStyle {
    PathStyle {
        fill: Some(Brush::Solid(color)),
        fill_rule: crate::path::FillRule::EvenOdd,
        stroke: None,
    }
}

/// Stroked only.
pub open spec fn stroked(stroke: StrokeStyle) -> PathStyle {
    PathStyle { fill: None, fill_rule: crate::path::FillRule::EvenOdd, stroke: Some(stroke) }
}

/// Painting the same outline again, at any place and in any colour, asks for
/// the same geometry: the content of its key is unchanged.
pub proof fn lemma_painting_again_shares_geometry(
    first: PaintedShape,
    again: PaintedShape,
    config: PainterConfig,
    commands: Seq<PathCommand>,
    placements: (Placement, Placement),
    colors: (LinearRgba, LinearRgba),
    width: Scalar,
)
    ensures
        painted(first, config, placements.0, commands, filled(colors.0)) && painted(
            again,
            config,
            placements.1,
            commands,
            filled(colors.1),
        ) ==> fill_writes(first.commands@, first.style.fill_rule) == fill_writes(
            again.commands@,
            again.style.fill_rule,
        ),
        painted(first, config, placements.0, commands, stroked(config.pen(colors.0, width)))
            && painted(
            again,
            config,
            placements.1,
            commands,
            stroked(config.pen(colors.1, width)),
        ) ==> stroke_writes(first.commands@, first.style.stroke->0) == stroke_writes(
            again.commands@,
            again.style.stroke->0,
        ),
{
}


/// The two numbers differ in the sign bit alone.
pub open spec fn opposite(a: Scalar, b: Scalar) -> bool {
    a.bits == b.bits + 0x8000_0000 || b.bits == a.bits + 0x8000_0000
}

/// The second point is the first one turned by a quarter around the origin.
pub open spec fn quarter_turned(p: Point, q: Point) -> bool {
    (opposite(q.x, p.y) || both_zero(q.x, p.y)) && q.y == p.x
}

/// A rectangle has its four corners at the half extents to either side of the
/// origin, one after the other around it, and is closed.
pub proof fn lemma_rectangles_surround_the_origin(half: Point)
    ensures
        rect_outline(half).len() == 5,
        rect_outline(half)[0] matches PathCommand::MoveTo(p) && opposite(p.x, half.x) && opposite(
            p.y,
            half.y,
        ),
        rect_outline(half)[1] matches PathCommand::LineTo(p) && p.x == half.x && opposite(
            p.y,
            half.y,
        ),
        rect_outline(half)[2] matches PathCommand::LineTo(p) && p.x == half.x && p.y == half.y,
        rect_outline(half)[3] matches PathCommand::LineTo(p) && opposite(p.x, half.x) && p.y
            == half.y,
        rect_outline(half)[4] is Close,
{
}

/// A circle starts at its radius along the first axis and goes round in four
/// curves, each of them the one before it turned by a quarter; the first one
/// leaves and arrives with handles of the given length along the tangents. It
/// ends where it started and is closed.
pub proof fn lemma_circles_go_round_in_quarters(r: Scalar, k: Scalar)
    ensures
        circle_outline(r, k).len() == 6,
        circle_outline(r, k)[0] matches PathCommand::MoveTo(p) && p.x == r && p.y.bits == 0,
        circle_outline(r, k)[1] matches PathCommand::CubicTo { ctrl1, ctrl2, to } && ctrl1.x == r
            && ctrl1.y == k && ctrl2.x == k && ctrl2.y == r && to.x.bits == 0 && to.y == r,
        forall|i: int|
            1 <= i < 4 ==> {
                &&& #[trigger] circle_outline(r, k)[i] matches PathCommand::CubicTo {
                    ctrl1: a,
                    ctrl2: b,
                    to: c,
                }
                &&& circle_outline(r, k)[i + 1] matches PathCommand::CubicTo {
                    ctrl1: d,
                    ctrl2: e,
                    to: f,
                }
                &&& quarter_turned(a, d)
                &&& quarter_turned(b, e)
                &&& quarter_turned(c, f)
            },
        circle_outline(r, k)[4] matches PathCommand::CubicTo { to, .. } && to.x == r && to.y.bits
            == 0,
        circle_outline(r, k)[5] is Close,
{
    let all = circle_outline(r, k);
    assert forall|i: int| 1 <= i < 4 implies {
        &&& #[trigger] circle_outline(r, k)[i] matches PathCommand::CubicTo {
            ctrl1: a,
            ctrl2: b,
            to: c,
        }
        &&& circle_outline(r, k)[i + 1] matches PathCommand::CubicTo { ctrl1: d, ctrl2: e, to: f }
        &&& quarter_turned(a, d)
        &&& quarter_turned(b, e)
        &&& quarter_turned(c, f)
    } by {
        assert(i == 1 || i == 2 || i == 3);
    }
}

/// A triangle goes through its three corners in the given order and is closed; a
/// line goes from its start to its end and is not.
pub proof fn lemma_corners_are_joined_in_order(a: Point, b: Point, c: Point)
    ensures
        triangle_outline(a, b, c).len() == 4,
        triangle_outline(a, b, c)[0] == PathCommand::MoveTo(a),
        triangle_outline(a, b, c)[1] == PathCommand::LineTo(b),
        triangle_outline(a, b, c)[2] == PathCommand::LineTo(c),
        triangle_outline(a, b, c)[3] is Close,
        line_outline(a, b).len() == 2,
        line_outline(a, b)[0] == PathCommand::MoveTo(a),
        line_outline(a, b)[1] == PathCommand::LineTo(b),
{
}

/// Painting adds one shape behind those painted before and changes nothing else:
/// the given outline in the given style, where it was placed, for the layers that
/// the painter is set to.
pub proof fn lemma_painting_adds_one_shape(
    before: VectorPainterQueue,
    after: VectorPainterQueue,
    config: PainterConfig,
    placement: Placement,
    commands: Seq<PathCommand>,
    style: PathStyle,
)
    requires
        after.gains(before, config, placement, commands, style),
    ensures
        after.arcs@ == before.arcs@,
        after.shapes@.len() == before.shapes@.len() + 1,
        forall|i: int|
            0 <= i < before.shapes@.len() ==> #[trigger] after.shapes@[i] == before.shapes@[i],
        ({
            let shape = after.shapes@[before.shapes@.len() as int];
            &&& shape.commands@ == commands
            &&& shape.style.fill == style.fill
            &&& shape.style.fill_rule == style.fill_rule
            &&& shape.style.stroke == style.stroke
            &&& shape.placement.linear == placement.linear
            &&& shape.placement.translation == placement.translation
            &&& shape.placement.z == placement.z
            &&& mask_words(shape.layers) == mask_words(config.render_layers)
        }),
{
    assert forall|i: int| 0 <= i < before.shapes@.len() implies #[trigger] after.shapes@[i]
        == before.shapes@[i] by {
        assert(after.shapes@.drop_last()[i] == before.shapes@[i]);
    }
}

/// A fill has the given colour and no stroke; a stroke has the given colour and
/// width, the painter's cap and join and no dashes, and no fill.
pub proof fn lemma_painted_styles_are_what_was_asked(
    config: PainterConfig,
    color: LinearRgba,
    width: Scalar,
)
    ensures
        filled(color).fill == Some(Brush::Solid(color)),
        filled(color).stroke is None,
        filled(color).fill_rule is EvenOdd,
        stroked(config.pen(color, width)).fill is None,
        stroked(config.pen(color, width)).stroke matches Some(stroke) && {
            &&& stroke.brush == Brush::Solid(color)
            &&& stroke.width == width
            &&& stroke.cap == config.cap
            &&& stroke.join == config.join
            &&& stroke.dash is None
        },
{
}

} // verus!
