//! Path authoring types: outlines in verb form plus fill and stroke styling.

use vstd::prelude::*;

use crate::scalar::Scalar;

verus! {

/// A point or vector in local units.
#[derive(Clone, Copy, Debug, PartialEq, Eq, Structural)]
pub struct Point {
    pub x: Scalar,
    pub y: Scalar,
}

impl Point {
    pub open spec fn finite(self) -> bool {
        self.x.finite() && self.y.finite()
    }

    /// Neither coordinate is larger than the pattern of a positive limit.
    pub open spec fn within(self, limit: u32) -> bool {
        self.x.magnitude() <= limit && self.y.magnitude() <= limit
    }

    fn is_within(&self, limit: u32) -> (r: bool)
        ensures
            r == self.within(limit),
    {
        self.x.bits % 0x8000_0000 <= limit && self.y.bits % 0x8000_0000 <= limit
    }

    pub fn new(x: Scalar, y: Scalar) -> (r: Point)
        ensures
            r == (Point { x, y }),
    {
        Point { x, y }
    }
}

/// Path outline in the usual verb form.
#[derive(Clone, Copy, Debug, PartialEq, Eq, Structural)]
pub enum PathCommand {
    MoveTo(Point),
    LineTo(Point),
    QuadTo { ctrl: Point, to: Point },
    CubicTo { ctrl1: Point, ctrl2: Point, to: Point },
    Close,
}

impl PathCommand {
    /// Every coordinate of the command is a finite number.
    pub open spec fn finite(self) -> bool {
        match self {
            PathCommand::MoveTo(p) => p.finite(),
            PathCommand::LineTo(p) => p.finite(),
            PathCommand::QuadTo { ctrl, to } => ctrl.finite() && to.finite(),
            PathCommand::CubicTo { ctrl1, ctrl2, to } => ctrl1.finite() && ctrl2.finite()
                && to.finite(),
            PathCommand::Close => true,
        }
    }

    /// No coordinate of the command is larger than the pattern of a positive
    /// limit.
    pub open spec fn within(self, limit: u32) -> bool {
        match self {
            PathCommand::MoveTo(p) => p.within(limit),
            PathCommand::LineTo(p) => p.within(limit),
            PathCommand::QuadTo { ctrl, to } => ctrl.within(limit) && to.within(limit),
            PathCommand::CubicTo { ctrl1, ctrl2, to } => ctrl1.within(limit) && ctrl2.within(limit)
                && to.within(limit),
            PathCommand::Close => true,
        }
    }

    fn is_within(&self, limit: u32) -> (r: bool)
        ensures
            r == self.within(limit),
    {
        match self {
            PathCommand::MoveTo(p) => p.is_within(limit),
            PathCommand::LineTo(p) => p.is_within(limit),
            PathCommand::QuadTo { ctrl, to } => ctrl.is_within(limit) && to.is_within(limit),
            PathCommand::CubicTo { ctrl1, ctrl2, to } => ctrl1.is_within(limit)
                && ctrl2.is_within(limit) && to.is_within(limit),
            PathCommand::Close => true,
        }
    }
}

/// The same number or both no number: two points that differ at most in the
/// payload of a NaN.
pub open spec fn alike_point(a: Point, b: Point) -> bool {
    a.x.alike(b.x) && a.y.alike(b.y)
}

/// The same command, up to the payload of a coordinate that is no number.
pub open spec fn alike_command(a: PathCommand, b: PathCommand) -> bool {
    match (a, b) {
        (PathCommand::MoveTo(p), PathCommand::MoveTo(q)) => alike_point(p, q),
        (PathCommand::LineTo(p), PathCommand::LineTo(q)) => alike_point(p, q),
        (PathCommand::QuadTo { ctrl: c, to: p }, PathCommand::QuadTo { ctrl: d, to: q }) =>
            alike_point(c, d) && alike_point(p, q),
        (
            PathCommand::CubicTo { ctrl1: c, ctrl2: d, to: p },
            PathCommand::CubicTo { ctrl1: e, ctrl2: f, to: q },
        ) => alike_point(c, e) && alike_point(d, f) && alike_point(p, q),
        (PathCommand::Close, PathCommand::Close) => true,
        _ => false,
    }
}

/// Every coordinate of the outline is a finite number.
pub open spec fn finite_path(commands: Seq<PathCommand>) -> bool {
    forall|i: int| 0 <= i < commands.len() ==> (#[trigger] commands[i]).finite()
}

/// No coordinate of the outline is larger than the pattern of a positive
/// limit.
pub open spec fn path_within(commands: Seq<PathCommand>, limit: u32) -> bool {
    forall|i: int| 0 <= i < commands.len() ==> (#[trigger] commands[i]).within(limit)
}

/// Whether no coordinate of an outline is larger than a limit.
pub fn path_is_within(commands: &[PathCommand], limit: u32) -> (r: bool)
    ensures
        r == path_within(commands@, limit),
{
    let mut i: usize = 0;
    while i < commands.len()
        invariant
            i <= commands@.len(),
            forall|k: int| 0 <= k < i ==> (#[trigger] commands@[k]).within(limit),
        decreases commands@.len() - i,
    {
        if !commands[i].is_within(limit) {
            assert(!commands@[i as int].within(limit));
            return false;
        }
        i = i + 1;
    }
    true
}

/// An outline within a finite limit is finite.
pub proof fn lemma_within_is_finite(commands: Seq<PathCommand>, limit: u32)
    requires
        path_within(commands, limit),
        limit < 0x7f80_0000,
    ensures
        finite_path(commands),
{
    assert forall|i: int| 0 <= i < commands.len() implies (#[trigger] commands[i]).finite() by {
        assert(commands[i].within(limit));
    }
}

/// A colour in linear light.
#[derive(Clone, Copy, Debug, PartialEq, Eq, Structural)]
pub struct LinearRgba {
    pub red: Scalar,
    pub green: Scalar,
    pub blue: Scalar,
    pub alpha: Scalar,
}

impl LinearRgba {
    /// Nothing behind the colour shows through: the alpha is at least one.
    pub open spec fn covers(self) -> bool {
        (Scalar { bits: 0x3f80_0000 }).le(self.alpha)
    }

    pub open spec fn spec_white() -> LinearRgba {
        let one = Scalar { bits: 0x3f80_0000 };
        LinearRgba { red: one, green: one, blue: one, alpha: one }
    }

    pub fn white() -> (r: LinearRgba)
        ensures
            r == LinearRgba::spec_white(),
    {
        let one: Scalar = Scalar::one();
        LinearRgba { red: one, green: one, blue: one, alpha: one }
    }

    pub fn is_opaque(&self) -> (r: bool)
        ensures
            r == self.covers(),
    {
        Scalar::one().at_most(&self.alpha)
    }
}

/// One stop of a gradient.
#[derive(Clone, Copy, Debug, PartialEq, Eq, Structural)]
pub struct GradientStop {
    pub offset: Scalar,
    pub color: LinearRgba,
}

/// What a fill or a stroke is painted with.
#[derive(Clone, Debug)]
pub enum Brush {
    Solid(LinearRgba),
    Linear { start: Point, end: Point, stops: Vec<GradientStop> },
    Radial { center: Point, radius: Scalar, stops: Vec<GradientStop> },
}

/// Every stop is opaque.
pub open spec fn stops_cover(stops: Seq<GradientStop>) -> bool {
    forall|i: int| 0 <= i < stops.len() ==> (#[trigger] stops[i]).color.covers()
}

/// The colour that stands for a stop list when it is painted flat: its first
/// colour, white if there is none.
pub open spec fn lead_color(stops: Seq<GradientStop>) -> LinearRgba {
    if stops.len() == 0 {
        LinearRgba::spec_white()
    } else {
        stops[0].color
    }
}

fn all_stops_opaque(stops: &Vec<GradientStop>) -> (r: bool)
    ensures
        r == stops_cover(stops@),
{
    let mut i: usize = 0;
    while i < stops.len()
        invariant
            i <= stops@.len(),
            forall|j: int| 0 <= j < i ==> (#[trigger] stops@[j]).color.covers(),
        decreases stops@.len() - i,
    {
        if !stops[i].color.is_opaque() {
            return false;
        }
        i = i + 1;
    }
    true
}

fn first_color(stops: &Vec<GradientStop>) -> (r: LinearRgba)
    ensures
        r == lead_color(stops@),
{
    if stops.len() == 0 {
        LinearRgba::white()
    } else {
        stops[0].color
    }
}

impl Brush {
    /// The brush hides everything behind it.
    pub open spec fn covers(self) -> bool {
        match self {
            Brush::Solid(color) => color.covers(),
            Brush::Linear { start, end, stops } => stops_cover(stops@),
            Brush::Radial { center, radius, stops } => stops_cover(stops@),
        }
    }

    /// The one colour the brush falls back to when it is painted flat.
    pub open spec fn flat(self) -> LinearRgba {
        match self {
            Brush::Solid(color) => color,
            Brush::Linear { start, end, stops } => lead_color(stops@),
            Brush::Radial { center, radius, stops } => lead_color(stops@),
        }
    }

    pub fn is_opaque(&self) -> (r: bool)
        ensures
            r == self.covers(),
    {
        match self {
            Brush::Solid(color) => color.is_opaque(),
            Brush::Linear { stops, .. } => all_stops_opaque(stops),
            Brush::Radial { stops, .. } => all_stops_opaque(stops),
        }
    }

    pub fn flat_color(&self) -> (r: LinearRgba)
        ensures
            r == self.flat(),
    {
        match self {
            Brush::Solid(color) => *color,
            Brush::Linear { stops, .. } => first_color(stops),
            Brush::Radial { stops, .. } => first_color(stops),
        }
    }
}

/// Which regions of a self-overlapping outline are inside.
#[derive(Clone, Copy, Debug, PartialEq, Eq, Structural)]
pub enum FillRule {
    EvenOdd,
    NonZero,
}

#[derive(Clone, Copy, Debug, PartialEq, Eq, Structural)]
pub enum LineJoin {
    Miter,
    Round,
    Bevel,
}

#[derive(Clone, Copy, Debug, PartialEq, Eq, Structural)]
pub enum LineCap {
    Butt,
    Round,
    Square,
}

#[derive(Clone, Debug)]
pub struct StrokeStyle {
    pub brush: Brush,
    pub width: Scalar,
    pub join: LineJoin,
    pub cap: LineCap,
    /// Dash pattern as (on, off) lengths in local units.
    pub dash: Option<[Scalar; 2]>,
}

impl StrokeStyle {
    /// An undashed stroke with mitered joins and butt caps.
    pub fn new(brush: Brush, width: Scalar) -> (r: StrokeStyle)
        ensures
            r == (StrokeStyle {
                brush,
                width,
                join: LineJoin::Miter,
                cap: LineCap::Butt,
                dash: None,
            }),
    {
        StrokeStyle { brush, width, join: LineJoin::Miter, cap: LineCap::Butt, dash: None }
    }
}

#[derive(Clone, Debug)]
pub struct PathStyle {
    pub fill: Option<Brush>,
    pub fill_rule: FillRule,
    pub stroke: Option<StrokeStyle>,
}

impl PathStyle {
    /// Filled, not stroked.
    pub fn fill(brush: Brush) -> (r: PathStyle)
        ensures
            r == (PathStyle { fill: Some(brush), fill_rule: FillRule::EvenOdd, stroke: None }),
    {
        PathStyle { fill: Some(brush), fill_rule: FillRule::EvenOdd, stroke: None }
    }

    /// Stroked, not filled.
    pub fn stroke(stroke: StrokeStyle) -> (r: PathStyle)
        ensures
            r == (PathStyle { fill: None, fill_rule: FillRule::EvenOdd, stroke: Some(stroke) }),
    {
        PathStyle { fill: None, fill_rule: FillRule::EvenOdd, stroke: Some(stroke) }
    }
}


/// The alpha is one or more, up to infinity.
pub open spec fn solid_alpha(color: LinearRgba) -> bool {
    0x3f80_0000 <= color.alpha.bits <= 0x7f80_0000
}

/// A brush hides what is behind it exactly where none of its colours lets
/// anything through.
pub proof fn lemma_brushes_hide_by_their_alphas(brush: Brush)
    ensures
        brush.covers() <==> match brush {
            Brush::Solid(color) => solid_alpha(color),
            Brush::Linear { start, end, stops } => forall|i: int|
                0 <= i < stops@.len() ==> solid_alpha((#[trigger] stops@[i]).color),
            Brush::Radial { center, radius, stops } => forall|i: int|
                0 <= i < stops@.len() ==> solid_alpha((#[trigger] stops@[i]).color),
        },
{
    assert forall|color: LinearRgba| #[trigger] color.covers() <==> solid_alpha(color) by {}
    match brush {
        Brush::Solid(color) => {
            assert(color.covers() <==> solid_alpha(color));
        },
        Brush::Linear { stops, .. } => {
            assert forall|i: int| 0 <= i < stops@.len() implies (solid_alpha(
                (#[trigger] stops@[i]).color,
            ) <==> stops@[i].color.covers()) by {}
        },
        Brush::Radial { stops, .. } => {
            assert forall|i: int| 0 <= i < stops@.len() implies (solid_alpha(
                (#[trigger] stops@[i]).color,
            ) <==> stops@[i].color.covers()) by {}
        },
    }
}

/// Painted flat, a brush has its own colour, that of its first stop, or white
/// where it has no stop.
pub proof fn lemma_flat_brushes_take_their_first_colour(brush: Brush)
    ensures
        match brush {
            Brush::Solid(color) => brush.flat() == color,
            Brush::Linear { start, end, stops } => is_lead(stops@, brush.flat()),
            Brush::Radial { center, radius, stops } => is_lead(stops@, brush.flat()),
        },
{
}

/// The colour of the first stop, or white.
pub open spec fn is_lead(stops: Seq<GradientStop>, color: LinearRgba) -> bool {
    &&& stops.len() > 0 ==> color == stops[0].color
    &&& stops.len() == 0 ==> color.red.bits == 0x3f80_0000 && color.green.bits == 0x3f80_0000
        && color.blue.bits == 0x3f80_0000 && color.alpha.bits == 0x3f80_0000
}

/// The points of a command.
pub open spec fn points_of(command: PathCommand) -> Seq<Point> {
    match command {
        PathCommand::MoveTo(p) => seq![p],
        PathCommand::LineTo(p) => seq![p],
        PathCommand::QuadTo { ctrl, to } => seq![ctrl, to],
        PathCommand::CubicTo { ctrl1, ctrl2, to } => seq![ctrl1, ctrl2, to],
        PathCommand::Close => seq![],
    }
}

/// An outline is within a limit exactly where every coordinate of every point
/// is, its sign aside.
pub proof fn lemma_outlines_are_within_by_every_coordinate(
    commands: Seq<PathCommand>,
    limit: u32,
)
    ensures
        path_within(commands, limit) <==> forall|i: int, k: int|
            0 <= i < commands.len() && 0 <= k < points_of(commands[i]).len() ==> {
                let p = #[trigger] points_of(commands[i])[k];
                &&& p.x.bits <= limit || 0x8000_0000 <= p.x.bits <= 0x8000_0000 + limit
                &&& p.y.bits <= limit || 0x8000_0000 <= p.y.bits <= 0x8000_0000 + limit
            },
{
    let told = forall|i: int, k: int|
        0 <= i < commands.len() && 0 <= k < points_of(commands[i]).len() ==> {
            let p = #[trigger] points_of(commands[i])[k];
            &&& p.x.bits <= limit || 0x8000_0000 <= p.x.bits <= 0x8000_0000 + limit
            &&& p.y.bits <= limit || 0x8000_0000 <= p.y.bits <= 0x8000_0000 + limit
        };
    if told {
        assert forall|i: int| 0 <= i < commands.len() implies (#[trigger] commands[i]).within(
            limit,
        ) by {
            let points = points_of(commands[i]);
            match commands[i] {
                PathCommand::MoveTo(p) => {
                    assert(points[0] == p);
                },
                PathCommand::LineTo(p) => {
                    assert(points[0] == p);
                },
                PathCommand::QuadTo { ctrl, to } => {
                    assert(points[0] == ctrl && points[1] == to);
                },
                PathCommand::CubicTo { ctrl1, ctrl2, to } => {
                    assert(points[0] == ctrl1 && points[1] == ctrl2 && points[2] == to);
                },
                PathCommand::Close => {},
            }
        }
    }
    if path_within(commands, limit) {
        assert forall|i: int, k: int|
            0 <= i < commands.len() && 0 <= k < points_of(commands[i]).len() implies {
            let p = #[trigger] points_of(commands[i])[k];
            &&& p.x.bits <= limit || 0x8000_0000 <= p.x.bits <= 0x8000_0000 + limit
            &&& p.y.bits <= limit || 0x8000_0000 <= p.y.bits <= 0x8000_0000 + limit
        } by {
            assert(commands[i].within(limit));
        }
    }
}

} // verus!
