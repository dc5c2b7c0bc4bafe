//! Path to triangle mesh. Runs once per unique geometry (content hash), never
//! per frame.

use std::hash::DefaultHasher;
use std::hash::Hasher;

use lyon::path::path::Builder;
use lyon::path::Path;
use lyon::tessellation::{
    BuffersBuilder, FillOptions, FillTessellator, FillVertex, StrokeOptions, StrokeTessellator,
    StrokeVertex, VertexBuffers,
};
use lyon::tessellation::{LineCap as LyonCap, LineJoin as LyonJoin};
use vstd::prelude::*;

use crate::bez::{alike, lemma_alike_finite};
use crate::crowd::{crowd, is_uncrowded, lemma_few_edges, proper, uncrowded, Edge};
use crate::dash::{
    dash_outcome, dashable, expand_dashes, is_dashable, pruned, reach, CURVE_REACH,
};
use crate::hashing::{
    byte_write, digest, lemma_writes_identify, word_write, write_byte, write_word,
};
use crate::path::{
    alike_command, finite_path, lemma_within_is_finite, path_is_within, path_within, FillRule,
    LineCap, LineJoin, PathCommand, Point, StrokeStyle,
};
use crate::pen::{style_pen, Pen};
use crate::scalar::Scalar;

verus! {

/// Max distance in local units between a curve and its flattened form, 0.25
/// as a bit pattern. Shapes are authored in pixel-scale units, so this is a
/// quarter pixel.
pub const TOLERANCE: u32 = 0x3e80_0000;

/// A tessellated outline: vertex positions and a triangle list over them.
pub struct TessellatedGeometry {
    pub vertices: Vec<[Scalar; 2]>,
    pub indices: Vec<u32>,
}

/// The contents of a tessellated outline.
#[verifier::ext_equal]
pub struct GeometryView {
    pub vertices: Seq<[Scalar; 2]>,
    pub indices: Seq<u32>,
}

pub open spec fn geometry_view(geometry: Option<TessellatedGeometry>) -> Option<GeometryView> {
    match geometry {
        None => None,
        Some(geometry) => Some(
            GeometryView { vertices: geometry.vertices@, indices: geometry.indices@ },
        ),
    }
}

/// One step of a built path: sub-paths are begun, extended and ended.
pub enum PathEvent {
    Begin(Point),
    Line(Point),
    Quad { ctrl: Point, to: Point },
    Cubic { ctrl1: Point, ctrl2: Point, to: Point },
    End { close: bool },
}

/// A sub-path is in progress after these commands.
pub open spec fn open_after(commands: Seq<PathCommand>) -> bool
    decreases commands.len(),
{
    if commands.len() == 0 {
        false
    } else {
        match commands.last() {
            PathCommand::MoveTo(_) => true,
            PathCommand::Close => false,
            _ => open_after(commands.drop_last()),
        }
    }
}

/// What one command contributes, given whether a sub-path is in progress: a
/// move ends an open sub-path and begins the next, and everything but a move
/// is dropped while none is open.
pub open spec fn step(command: PathCommand, open: bool) -> Seq<PathEvent> {
    match command {
        PathCommand::MoveTo(p) => if open {
            seq![PathEvent::End { close: false }, PathEvent::Begin(p)]
        } else {
            seq![PathEvent::Begin(p)]
        },
        PathCommand::LineTo(p) => if open {
            seq![PathEvent::Line(p)]
        } else {
            seq![]
        },
        PathCommand::QuadTo { ctrl, to } => if open {
            seq![PathEvent::Quad { ctrl, to }]
        } else {
            seq![]
        },
        PathCommand::CubicTo { ctrl1, ctrl2, to } => if open {
            seq![PathEvent::Cubic { ctrl1, ctrl2, to }]
        } else {
            seq![]
        },
        PathCommand::Close => if open {
            seq![PathEvent::End { close: true }]
        } else {
            seq![]
        },
    }
}

/// The events of the commands so far, the last sub-path possibly still open.
pub open spec fn drawn(commands: Seq<PathCommand>) -> Seq<PathEvent>
    decreases commands.len(),
{
    if commands.len() == 0 {
        seq![]
    } else {
        drawn(commands.drop_last()) + step(commands.last(), open_after(commands.drop_last()))
    }
}

/// The outline that a command list describes: every sub-path is ended, and one
/// that was left open ends unclosed.
pub open spec fn outline(commands: Seq<PathCommand>) -> Seq<PathEvent> {
    if open_after(commands) {
        drawn(commands).push(PathEvent::End { close: false })
    } else {
        drawn(commands)
    }
}

/// A sub-path is in progress after these events.
pub open spec fn in_progress(events: Seq<PathEvent>) -> bool {
    events.len() > 0 && !(events.last() is End)
}

/// Sub-paths do not overlap: each is begun outside any other, extended and
/// ended while in progress.
pub open spec fn well_nested(events: Seq<PathEvent>) -> bool {
    forall|i: int|
        0 <= i < events.len() ==> ((#[trigger] events[i]) is Begin <==> !in_progress(
            events.take(i),
        ))
}

/// How far from the origin a tessellated outline may lie, and how wide its
/// stroke may be: `2^60`, as a bit pattern. The square of such a distance stays
/// finite in single precision.
pub const REACH: u32 = 0x5d80_0000;

/// How often a line may cross a filled outline: the tessellator counts a
/// winding number in 16 bits, and the winding number around a point is at most
/// half of how often any one line through it crosses the outline.
pub const CROSSINGS: u32 = 65534;

/// The coordinates of an event are within a limit.
pub open spec fn event_within(event: PathEvent, limit: u32) -> bool {
    match event {
        PathEvent::Begin(p) => p.within(limit),
        PathEvent::Line(p) => p.within(limit),
        PathEvent::Quad { ctrl, to } => ctrl.within(limit) && to.within(limit),
        PathEvent::Cubic { ctrl1, ctrl2, to } => ctrl1.within(limit) && ctrl2.within(limit)
            && to.within(limit),
        PathEvent::End { .. } => true,
    }
}

pub open spec fn events_within(events: Seq<PathEvent>, limit: u32) -> bool {
    forall|i: int| 0 <= i < events.len() ==> event_within(#[trigger] events[i], limit)
}

/// The outline is not too far out.
pub open spec fn reachable(commands: Seq<PathCommand>) -> bool {
    path_within(commands, REACH)
}

/// Whether an outline is not too far out.
pub fn is_reachable(commands: &[PathCommand]) -> (r: bool)
    ensures
        r == reachable(commands@),
{
    path_is_within(commands, REACH)
}

/// Which way lines run that an outline may cross.
#[derive(Clone, Copy, Debug, PartialEq, Eq, Structural)]
pub enum Lines {
    Level,
    Upright,
}

/// Where a point lies across the lines: for level ones by height, and from left
/// to right at one height; for upright ones the other way round.
pub open spec fn place(p: Point, lines: Lines) -> u64 {
    let (first, second) = match lines {
        Lines::Level => (p.y, p.x),
        Lines::Upright => (p.x, p.y),
    };
    ((first.rank() + 0x8000_0000) * 0x1_0000_0000 + second.rank() + 0x8000_0000) as u64
}

fn place_of(p: Point, lines: Lines) -> (at: u64)
    ensures
        at == place(p, lines),
{
    let (first, second): (i64, i64) = match lines {
        Lines::Level => (p.y.signed_rank(), p.x.signed_rank()),
        Lines::Upright => (p.x.signed_rank(), p.y.signed_rank()),
    };
    (first + 0x8000_0000) as u64 * 0x1_0000_0000 + (second + 0x8000_0000) as u64
}

/// How an outline has run so far: where its sub-path began, where it is, and its
/// edges.
#[verifier::ext_equal]
pub struct Trail {
    pub start: u64,
    pub at: u64,
    pub edges: Seq<Edge>,
}

impl Trail {
    /// The sub-path goes on to a point.
    pub open spec fn to(self, at: u64) -> Trail {
        if at == self.at {
            self
        } else {
            let edge = if at > self.at {
                Edge { low: self.at, high: at }
            } else {
                Edge { low: at, high: self.at }
            };
            Trail { at, edges: self.edges.push(edge), ..self }
        }
    }

    /// What an event adds. A curve crosses a line no more often than the lines
    /// between its control points do; a sub-path ends where it began.
    pub open spec fn after(self, event: PathEvent, lines: Lines) -> Trail {
        match event {
            PathEvent::Begin(p) => Trail { start: place(p, lines), at: place(p, lines), ..self },
            PathEvent::Line(p) => self.to(place(p, lines)),
            PathEvent::Quad { ctrl, to } => self.to(place(ctrl, lines)).to(place(to, lines)),
            PathEvent::Cubic { ctrl1, ctrl2, to } => self.to(place(ctrl1, lines)).to(
                place(ctrl2, lines),
            ).to(place(to, lines)),
            PathEvent::End { .. } => self.to(self.start),
        }
    }
}

pub open spec fn trail(events: Seq<PathEvent>, lines: Lines) -> Trail
    decreases events.len(),
{
    if events.len() == 0 {
        Trail { start: 0, at: 0, edges: Seq::empty() }
    } else {
        trail(events.drop_last(), lines).after(events.last(), lines)
    }
}

/// The winding number of the outline fits everywhere: no level line crosses it
/// too often, or no upright one does.
pub open spec fn windable(events: Seq<PathEvent>) -> bool {
    uncrowded(trail(events, Lines::Level).edges, CROSSINGS) || uncrowded(
        trail(events, Lines::Upright).edges,
        CROSSINGS,
    )
}

/// The outline can be filled: it is not too far out, and its winding number
/// fits everywhere.
pub open spec fn fillable(commands: Seq<PathCommand>) -> bool {
    reachable(commands) && windable(outline(commands))
}

proof fn lemma_trail_after(events: Seq<PathEvent>, event: PathEvent, lines: Lines)
    ensures
        trail(events.push(event), lines) == trail(events, lines).after(event, lines),
{
    assert(events.push(event).drop_last() =~= events);
}

/// What a command adds to the trail.
spec fn trail_step(trail: Trail, command: PathCommand, open: bool, lines: Lines) -> Trail {
    match command {
        PathCommand::MoveTo(p) => {
            let ended = if open {
                trail.to(trail.start)
            } else {
                trail
            };
            ended.after(PathEvent::Begin(p), lines)
        },
        _ => if open {
            trail.after(step(command, open)[0], lines)
        } else {
            trail
        },
    }
}

proof fn lemma_trail_step(events: Seq<PathEvent>, command: PathCommand, open: bool, lines: Lines)
    ensures
        trail(events + step(command, open), lines) == trail_step(
            trail(events, lines),
            command,
            open,
            lines,
        ),
{
    let whole = events + step(command, open);
    match command {
        PathCommand::MoveTo(p) => {
            if open {
                let ended = events.push(PathEvent::End { close: false });
                lemma_trail_after(events, PathEvent::End { close: false }, lines);
                lemma_trail_after(ended, PathEvent::Begin(p), lines);
                assert(whole =~= ended.push(PathEvent::Begin(p)));
            } else {
                lemma_trail_after(events, PathEvent::Begin(p), lines);
                assert(whole =~= events.push(PathEvent::Begin(p)));
            }
        },
        _ => {
            if open {
                lemma_trail_after(events, step(command, open)[0], lines);
                assert(whole =~= events.push(step(command, open)[0]));
            } else {
                assert(whole =~= events);
            }
        },
    }
}

/// A trail as it is followed.
struct Tracer {
    start: u64,
    at: u64,
    edges: Vec<Edge>,
}

impl Tracer {
    spec fn view(&self) -> Trail {
        Trail { start: self.start, at: self.at, edges: self.edges@ }
    }

    fn go(&mut self, at: u64)
        requires
            proper(old(self).edges@),
        ensures
            final(self)@ == old(self)@.to(at),
            proper(final(self).edges@),
    {
        if at > self.at {
            self.edges.push(Edge { low: self.at, high: at });
        } else if at < self.at {
            self.edges.push(Edge { low: at, high: self.at });
        }
        self.at = at;
    }
}

/// The edges of an outline across lines.
fn trace(commands: &[PathCommand], lines: Lines) -> (edges: Vec<Edge>)
    ensures
        edges@ == trail(outline(commands@), lines).edges,
        proper(edges@),
{
    let mut tracer = Tracer { start: 0, at: 0, edges: Vec::new() };
    let mut open: bool = false;
    let mut i: usize = 0;
    proof {
        assert(commands@.take(0) =~= Seq::<PathCommand>::empty());
        assert(tracer@ =~= trail(drawn(commands@.take(0)), lines));
    }
    while i < commands.len()
        invariant
            i <= commands@.len(),
            open == open_after(commands@.take(i as int)),
            tracer@ == trail(drawn(commands@.take(i as int)), lines),
            proper(tracer.edges@),
        decreases commands@.len() - i,
    {
        proof {
            let next = commands@.take(i + 1);
            assert(next.drop_last() =~= commands@.take(i as int));
            assert(next.last() == commands@[i as int]);
            lemma_trail_step(drawn(commands@.take(i as int)), next.last(), open, lines);
        }
        match commands[i] {
            PathCommand::MoveTo(p) => {
                if open {
                    let start: u64 = tracer.start;
                    tracer.go(start);
                }
                tracer.start = place_of(p, lines);
                tracer.at = tracer.start;
                open = true;
            },
            PathCommand::LineTo(p) => {
                if open {
                    tracer.go(place_of(p, lines));
                }
            },
            PathCommand::QuadTo { ctrl, to } => {
                if open {
                    tracer.go(place_of(ctrl, lines));
                    tracer.go(place_of(to, lines));
                }
            },
            PathCommand::CubicTo { ctrl1, ctrl2, to } => {
                if open {
                    tracer.go(place_of(ctrl1, lines));
                    tracer.go(place_of(ctrl2, lines));
                    tracer.go(place_of(to, lines));
                }
            },
            PathCommand::Close => {
                if open {
                    let start: u64 = tracer.start;
                    tracer.go(start);
                    open = false;
                }
            },
        }
        i = i + 1;
    }
    proof {
        assert(commands@.take(commands@.len() as int) =~= commands@);
        lemma_trail_after(drawn(commands@), PathEvent::End { close: false }, lines);
    }
    if open {
        let start: u64 = tracer.start;
        tracer.go(start);
    }
    tracer.edges
}

/// Whether the winding number of an outline fits everywhere.
pub fn is_windable(commands: &[PathCommand]) -> (r: bool)
    ensures
        r == windable(outline(commands@)),
{
    is_uncrowded(&trace(commands, Lines::Level), CROSSINGS) || is_uncrowded(
        &trace(commands, Lines::Upright),
        CROSSINGS,
    )
}

proof fn lemma_outline_is_near(commands: Seq<PathCommand>)
    requires
        reachable(commands),
    ensures
        events_within(outline(commands), REACH),
        drawn(commands).len() <= 2 * commands.len(),
{
    lemma_outline_within(commands, REACH);
}

/// The outline of commands within a limit is within it.
proof fn lemma_outline_within(commands: Seq<PathCommand>, limit: u32)
    requires
        path_within(commands, limit),
    ensures
        events_within(drawn(commands), limit),
        events_within(outline(commands), limit),
        drawn(commands).len() <= 2 * commands.len(),
    decreases commands.len(),
{
    if commands.len() > 0 {
        let rest = commands.drop_last();
        assert(path_within(rest, limit)) by {
            assert forall|i: int| 0 <= i < rest.len() implies (#[trigger] rest[i]).within(
                limit,
            ) by {
                assert(commands[i].within(limit));
            }
        }
        lemma_outline_within(rest, limit);
        assert(commands[commands.len() - 1].within(limit));
        let added = step(commands.last(), open_after(rest));
        assert(events_within(added, limit));
        assert forall|i: int| 0 <= i < drawn(commands).len() implies event_within(
            #[trigger] drawn(commands)[i],
            limit,
        ) by {
            if i < drawn(rest).len() {
                assert(drawn(commands)[i] == drawn(rest)[i]);
            } else {
                assert(drawn(commands)[i] == added[i - drawn(rest).len()]);
            }
        }
    }
}

/// Whether an outline can be filled.
pub fn is_fillable(commands: &[PathCommand]) -> (r: bool)
    ensures
        r == fillable(commands@),
{
    is_reachable(commands) && is_windable(commands)
}

// ---------------------------------------------------------------- path builder

/// A path under construction by `lyon::path::path::Builder`.
#[verifier::external_body]
pub struct PathSketch {
    builder: Builder,
}

/// The events that a sketch has received.
pub uninterp spec fn sketched(sketch: PathSketch) -> Seq<PathEvent>;

#[verifier::external_type_specification]
#[verifier::external_body]
pub struct ExPath(Path);

/// The events that a finished path holds.
pub uninterp spec fn path_events(path: Path) -> Seq<PathEvent>;

/// `lyon::path::Path::builder`: a builder that has received nothing.
#[verifier::external_body]
fn sketch_new() -> (sketch: PathSketch)
    ensures
        sketched(sketch) == Seq::<PathEvent>::empty(),
{
    PathSketch { builder: Path::builder() }
}

/// `Builder::begin`: begins a sub-path. None may be in progress, and the point
/// must be finite.
#[verifier::external_body]
fn sketch_begin(sketch: &mut PathSketch, at: Point)
    requires
        !in_progress(sketched(*old(sketch))),
        at.finite(),
    ensures
        sketched(*final(sketch)) == sketched(*old(sketch)).push(PathEvent::Begin(at)),
{
    sketch.builder.begin(lyon::math::point(bytemuck::cast(at.x.bits), bytemuck::cast(at.y.bits)));
}

/// `Builder::end`: ends the sub-path in progress.
#[verifier::external_body]
fn sketch_end(sketch: &mut PathSketch, close: bool)
    requires
        in_progress(sketched(*old(sketch))),
    ensures
        sketched(*final(sketch)) == sketched(*old(sketch)).push(PathEvent::End { close }),
{
    sketch.builder.end(close);
}

/// `Builder::line_to`: extends the sub-path in progress. The point must be
/// finite.
#[verifier::external_body]
fn sketch_line(sketch: &mut PathSketch, to: Point)
    requires
        in_progress(sketched(*old(sketch))),
        to.finite(),
    ensures
        sketched(*final(sketch)) == sketched(*old(sketch)).push(PathEvent::Line(to)),
{
    sketch.builder.line_to(lyon::math::point(bytemuck::cast(to.x.bits), bytemuck::cast(to.y.bits)));
}

/// `Builder::quadratic_bezier_to`: extends the sub-path in progress. The points
/// must be finite.
#[verifier::external_body]
fn sketch_quad(sketch: &mut PathSketch, ctrl: Point, to: Point)
    requires
        in_progress(sketched(*old(sketch))),
        ctrl.finite(),
        to.finite(),
    ensures
        sketched(*final(sketch)) == sketched(*old(sketch)).push(PathEvent::Quad { ctrl, to }),
{
    sketch.builder.quadratic_bezier_to(
        lyon::math::point(bytemuck::cast(ctrl.x.bits), bytemuck::cast(ctrl.y.bits)),
        lyon::math::point(bytemuck::cast(to.x.bits), bytemuck::cast(to.y.bits)),
    );
}

/// `Builder::cubic_bezier_to`: extends the sub-path in progress. The points
/// must be finite.
#[verifier::external_body]
fn sketch_cubic(sketch: &mut PathSketch, ctrl1: Point, ctrl2: Point, to: Point)
    requires
        in_progress(sketched(*old(sketch))),
        ctrl1.finite(),
        ctrl2.finite(),
        to.finite(),
    ensures
        sketched(*final(sketch)) == sketched(*old(sketch)).push(
            PathEvent::Cubic { ctrl1, ctrl2, to },
        ),
{
    sketch.builder.cubic_bezier_to(
        lyon::math::point(bytemuck::cast(ctrl1.x.bits), bytemuck::cast(ctrl1.y.bits)),
        lyon::math::point(bytemuck::cast(ctrl2.x.bits), bytemuck::cast(ctrl2.y.bits)),
        lyon::math::point(bytemuck::cast(to.x.bits), bytemuck::cast(to.y.bits)),
    );
}

/// `Builder::build`: the path of the events received. No sub-path may be in
/// progress.
#[verifier::external_body]
fn sketch_build(sketch: PathSketch) -> (path: Path)
    requires
        !in_progress(sketched(sketch)),
    ensures
        path_events(path) == sketched(sketch),
{
    sketch.builder.build()
}

/// Builds the outline of a command list.
pub fn build_path(commands: &[PathCommand]) -> (path: Path)
    requires
        finite_path(commands@),
    ensures
        path_events(path) == outline(commands@),
{
    let mut sketch = sketch_new();
    let mut open: bool = false;
    let mut i: usize = 0;
    proof {
        assert(commands@.take(0) =~= Seq::<PathCommand>::empty());
    }
    while i < commands.len()
        invariant
            i <= commands@.len(),
            finite_path(commands@),
            open == open_after(commands@.take(i as int)),
            sketched(sketch) == drawn(commands@.take(i as int)),
            open == in_progress(sketched(sketch)),
        decreases commands@.len() - i,
    {
        let ghost prior = sketched(sketch);
        let ghost seen = commands@.take(i as int);
        let ghost next = commands@.take(i + 1);
        let ghost command = commands@[i as int];
        let ghost was_open = open;
        proof {
            assert(next.drop_last() =~= seen);
            assert(next.last() == command);
            assert(commands@[i as int].finite());
        }
        match commands[i] {
            PathCommand::MoveTo(p) => {
                if open {
                    sketch_end(&mut sketch, false);
                }
                sketch_begin(&mut sketch, p);
                open = true;
            },
            PathCommand::LineTo(p) => {
                if open {
                    sketch_line(&mut sketch, p);
                }
            },
            PathCommand::QuadTo { ctrl, to } => {
                if open {
                    sketch_quad(&mut sketch, ctrl, to);
                }
            },
            PathCommand::CubicTo { ctrl1, ctrl2, to } => {
                if open {
                    sketch_cubic(&mut sketch, ctrl1, ctrl2, to);
                }
            },
            PathCommand::Close => {
                if open {
                    sketch_end(&mut sketch, true);
                    open = false;
                }
            },
        }
        proof {
            assert(sketched(sketch) =~= prior + step(command, was_open));
        }
        i = i + 1;
    }
    proof {
        assert(commands@.take(commands@.len() as int) =~= commands@);
    }
    if open {
        sketch_end(&mut sketch, false);
    }
    sketch_build(sketch)
}

// ---------------------------------------------------------------- tessellation

/// The raw triangle list of a tessellator: vertex positions as bit patterns,
/// and three indices a triangle.
pub struct RawMesh {
    pub positions: Vec<[u32; 2]>,
    pub indices: Vec<u32>,
}

/// The contents of a raw mesh.
#[verifier::ext_equal]
pub struct RawMeshView {
    pub positions: Seq<[u32; 2]>,
    pub indices: Seq<u32>,
}

pub open spec fn raw_view(mesh: Option<RawMesh>) -> Option<RawMeshView> {
    match mesh {
        None => None,
        Some(mesh) => Some(
            RawMeshView { positions: mesh.positions@, indices: mesh.indices@ },
        ),
    }
}

/// What `FillTessellator::tessellate_path` may give for a path, a tolerance
/// and a fill rule; `None` is an error.
pub uninterp spec fn fill_outcome(
    events: Seq<PathEvent>,
    tolerance: u32,
    rule: FillRule,
    mesh: Option<RawMeshView>,
) -> bool;

/// What `StrokeTessellator::tessellate_path` may give for a path, a tolerance
/// and a pen; `None` is an error.
pub uninterp spec fn stroke_outcome(
    events: Seq<PathEvent>,
    tolerance: u32,
    width: u32,
    cap: LineCap,
    join: LineJoin,
    mesh: Option<RawMeshView>,
) -> bool;

/// Every index names one of so many vertices.
pub open spec fn indices_below(indices: Seq<u32>, vertices: nat) -> bool {
    forall|i: int| 0 <= i < indices.len() ==> (#[trigger] indices[i]) < vertices
}

/// `lyon::tessellation::FillTessellator::tessellate_path` into a
/// `VertexBuffers` through a `BuffersBuilder`; `None` stands for an error. The
/// buffers receive indices only three at a time, each one that they gave out
/// for a vertex, and none for a path without events. The path must not be so
/// far out that a distance overflows, and its winding number must fit in 16 bits
/// everywhere; that the sweep over such a path keeps its own invariants is taken
/// from the crate. A curve is cut into a number of lines that grows with its
/// size, and so does what the call costs. Which triangles come out rests on the
/// floating-point library of the machine, and nothing more is claimed of it.
#[verifier::external_body]
fn fill_mesh(path: &Path, tolerance: u32, rule: FillRule) -> (mesh: Option<RawMesh>)
    requires
        tolerance == TOLERANCE,
        events_within(path_events(*path), REACH),
        windable(path_events(*path)),
    ensures
        fill_outcome(path_events(*path), tolerance, rule, raw_view(mesh)),
        mesh matches Some(m) ==> m.indices@.len() % 3 == 0,
        mesh matches Some(m) ==> indices_below(m.indices@, m.positions@.len()),
        path_events(*path).len() == 0 ==> (mesh matches Some(m) ==> m.indices@.len() == 0),
{
    let rule = match rule {
        FillRule::EvenOdd => lyon::tessellation::FillRule::EvenOdd,
        FillRule::NonZero => lyon::tessellation::FillRule::NonZero,
    };
    let options = FillOptions::tolerance(bytemuck::cast(tolerance)).with_fill_rule(rule);
    let mut buffers: VertexBuffers<[u32; 2], u32> = VertexBuffers::new();
    let mut output = BuffersBuilder::new(&mut buffers, |v: FillVertex| {
        bytemuck::cast(v.position().to_array())
    });
    FillTessellator::new().tessellate_path(path, &options, &mut output).ok()?;
    Some(RawMesh { positions: buffers.vertices, indices: buffers.indices })
}

/// `lyon::tessellation::StrokeTessellator::tessellate_path` into a
/// `VertexBuffers` through a `BuffersBuilder`; `None` stands for an error. The
/// buffers receive indices only three at a time, each one that they gave out
/// for a vertex, and none for a path without events. Neither path nor width may
/// be so large that a difference or a product overflows, and the end points are
/// counted in 32 bits. Which triangles come out rests on the floating-point library of the
/// machine, and nothing more is claimed of it.
#[verifier::external_body]
fn stroke_mesh(path: &Path, tolerance: u32, width: u32, cap: LineCap, join: LineJoin) -> (mesh:
    Option<RawMesh>)
    requires
        tolerance == TOLERANCE,
        events_within(path_events(*path), REACH),
        path_events(*path).len() <= u32::MAX,
        (Scalar { bits: width }).magnitude() <= REACH,
    ensures
        stroke_outcome(path_events(*path), tolerance, width, cap, join, raw_view(mesh)),
        mesh matches Some(m) ==> m.indices@.len() % 3 == 0,
        mesh matches Some(m) ==> indices_below(m.indices@, m.positions@.len()),
        path_events(*path).len() == 0 ==> (mesh matches Some(m) ==> m.indices@.len() == 0),
{
    let cap = match cap { LineCap::Butt => LyonCap::Butt, LineCap::Round => LyonCap::Round,
        LineCap::Square => LyonCap::Square };
    let join = match join { LineJoin::Miter => LyonJoin::Miter, LineJoin::Round => LyonJoin::Round,
        LineJoin::Bevel => LyonJoin::Bevel };
    let options = StrokeOptions::tolerance(bytemuck::cast(tolerance))
        .with_line_width(bytemuck::cast(width)).with_start_cap(cap).with_end_cap(cap)
        .with_line_join(join);
    let mut buffers: VertexBuffers<[u32; 2], u32> = VertexBuffers::new();
    let mut output = BuffersBuilder::new(&mut buffers, |v: StrokeVertex| {
        bytemuck::cast(v.position().to_array())
    });
    StrokeTessellator::new().tessellate_path(path, &options, &mut output).ok()?;
    Some(RawMesh { positions: buffers.vertices, indices: buffers.indices })
}

/// The positions of a raw mesh as coordinates.
pub open spec fn as_scalars(positions: Seq<[u32; 2]>) -> Seq<[Scalar; 2]> {
    positions.map_values(|p: [u32; 2]| [Scalar { bits: p@[0] }, Scalar { bits: p@[1] }])
}

/// What a tessellator's answer amounts to: an error and a mesh without
/// triangles are both no geometry.
pub open spec fn geometry_from(mesh: Option<RawMeshView>) -> Option<GeometryView> {
    match mesh {
        None => None,
        Some(mesh) => if mesh.indices.len() == 0 {
            None
        } else {
            Some(
                GeometryView { vertices: as_scalars(mesh.positions), indices: mesh.indices },
            )
        },
    }
}

/// A list of triangles, at least one, over so many vertices.
pub open spec fn triangles(indices: Seq<u32>, vertices: nat) -> bool {
    indices.len() > 0 && indices.len() % 3 == 0 && indices_below(indices, vertices)
}

/// Turns a tessellator's answer into geometry.
pub fn geometry_of(mesh: Option<RawMesh>) -> (geometry: Option<TessellatedGeometry>)
    ensures
        geometry_view(geometry) == geometry_from(raw_view(mesh)),
{
    match mesh {
        None => None,
        Some(mesh) => {
            if mesh.indices.len() == 0 {
                return None;
            }
            let mut vertices: Vec<[Scalar; 2]> = Vec::with_capacity(mesh.positions.len());
            let mut i: usize = 0;
            while i < mesh.positions.len()
                invariant
                    i <= mesh.positions@.len(),
                    vertices@ == as_scalars(mesh.positions@).take(i as int),
                decreases mesh.positions@.len() - i,
            {
                let p: [u32; 2] = mesh.positions[i];
                vertices.push([Scalar { bits: p[0] }, Scalar { bits: p[1] }]);
                proof {
                    assert(vertices@[i as int]@ =~= as_scalars(mesh.positions@)[i as int]@);
                    assert(vertices@ =~= as_scalars(mesh.positions@).take(i + 1));
                }
                i = i + 1;
            }
            assert(vertices@ =~= as_scalars(mesh.positions@));
            Some(TessellatedGeometry { vertices, indices: mesh.indices })
        },
    }
}

/// No geometry, or triangles over its own vertices.
pub open spec fn sound(geometry: Option<GeometryView>) -> bool {
    geometry matches Some(g) ==> triangles(g.indices, g.vertices.len())
}

/// The geometry is one that filling the outline may give.
pub open spec fn fills_to(
    commands: Seq<PathCommand>,
    rule: FillRule,
    geometry: Option<GeometryView>,
) -> bool {
    &&& sound(geometry)
    &&& exists|mesh: Option<RawMeshView>| #[trigger]
        fill_outcome(outline(commands), TOLERANCE, rule, mesh) && geometry == geometry_from(mesh)
}

/// The geometry is one that stroking the outline may give. A dashed stroke is
/// the fill of the outline of its dashes; where that outline is too far out or
/// winds too often for the tessellator, there is none.
pub open spec fn strokes_to(
    commands: Seq<PathCommand>,
    stroke: StrokeStyle,
    geometry: Option<GeometryView>,
) -> bool {
    match stroke.dash {
        None => sound(geometry) && exists|mesh: Option<RawMeshView>| #[trigger]
            stroke_outcome(
                outline(commands),
                TOLERANCE,
                stroke.width.bits,
                stroke.cap,
                stroke.join,
                mesh,
            ) && geometry == geometry_from(mesh),
        Some(_) => exists|dashes: Seq<PathCommand>|
            {
                &&& #[trigger] dash_outcome(
                    pruned(commands),
                    style_pen(stroke),
                    TOLERANCE,
                    dashes,
                )
                &&& if fillable(dashes) {
                    fills_to(dashes, FillRule::NonZero, geometry)
                } else {
                    geometry is None
                }
            },
    }
}

/// The outline can be stroked: it and the pen are not too far out or, where
/// the stroke is dashed, its dashes can be counted.
pub open spec fn strokable(commands: Seq<PathCommand>, stroke: StrokeStyle) -> bool {
    if stroke.dash is Some {
        dashable(commands, style_pen(stroke))
    } else {
        &&& reachable(commands)
        &&& commands.len() <= 0x7fff_ffff
        &&& stroke.width.magnitude() <= REACH
    }
}

/// Whether an outline can be stroked.
pub fn is_strokable(commands: &[PathCommand], stroke: &StrokeStyle) -> (r: bool)
    ensures
        r == strokable(commands@, *stroke),
{
    match stroke.dash {
        None => is_reachable(commands) && commands.len() <= 0x7fff_ffff
            && stroke.width.bits % 0x8000_0000 <= REACH,
        Some(_) => is_dashable(commands, stroke),
    }
}

/// Tessellates the interior of an outline under the even-odd rule. `None`
/// where the outline has no interior or the tessellator gives up on it.
pub fn tessellate_fill(commands: &[PathCommand]) -> (geometry: Option<TessellatedGeometry>)
    requires
        fillable(commands@),
    ensures
        fills_to(commands@, FillRule::EvenOdd, geometry_view(geometry)),
        geometry matches Some(g) ==> triangles(g.indices@, g.vertices@.len()),
        outline(commands@).len() == 0 ==> geometry is None,
{
    tessellate_fill_rule(commands, FillRule::EvenOdd)
}

/// Tessellates the interior of an outline under a fill rule.
pub fn tessellate_fill_rule(commands: &[PathCommand], rule: FillRule) -> (geometry: Option<
    TessellatedGeometry,
>)
    requires
        fillable(commands@),
    ensures
        fills_to(commands@, rule, geometry_view(geometry)),
        geometry matches Some(g) ==> triangles(g.indices@, g.vertices@.len()),
        outline(commands@).len() == 0 ==> geometry is None,
{
    proof {
        lemma_within_is_finite(commands@, REACH);
        lemma_outline_is_near(commands@);
    }
    let path = build_path(commands);
    geometry_of(fill_mesh(&path, TOLERANCE, rule))
}

/// Tessellates the stroke of an outline; a dashed stroke is expanded into the
/// outline of its dashes, which is filled. `None` where nothing is stroked or
/// the tessellator gives up on it.
pub fn tessellate_stroke(commands: &[PathCommand], stroke: &StrokeStyle) -> (geometry: Option<
    TessellatedGeometry,
>)
    requires
        strokable(commands@, *stroke),
    ensures
        strokes_to(commands@, *stroke, geometry_view(geometry)),
        geometry matches Some(g) ==> triangles(g.indices@, g.vertices@.len()),
        outline(commands@).len() == 0 ==> geometry is None,
{
    match stroke.dash {
        None => {
            proof {
                lemma_within_is_finite(commands@, REACH);
                lemma_outline_is_near(commands@);
            }
            let path = build_path(commands);
            geometry_of(
                stroke_mesh(&path, TOLERANCE, stroke.width.bits, stroke.cap, stroke.join),
            )
        },
        Some(_) => {
            let dashes: Vec<PathCommand> = expand_dashes(commands, stroke);
            proof {
                if outline(commands@).len() == 0 {
                    lemma_empty_outline_is_pruned(commands@);
                    assert(outline(dashes@) =~= Seq::<PathEvent>::empty());
                }
            }
            let ghost given = choose|given: Seq<PathCommand>|
                #[trigger] dash_outcome(pruned(commands@), style_pen(*stroke), TOLERANCE, given)
                    && alike(dashes@, given);
            if is_fillable(dashes.as_slice()) {
                proof {
                    lemma_within_is_finite(dashes@, REACH);
                    lemma_alike_either_way(dashes@, given);
                    lemma_alike_finite(given, dashes@);
                }
                tessellate_fill_rule(dashes.as_slice(), FillRule::NonZero)
            } else {
                proof {
                    if fillable(given) {
                        lemma_within_is_finite(given, REACH);
                        lemma_alike_finite(dashes@, given);
                    }
                }
                None
            }
        },
    }
}

proof fn lemma_alike_either_way(a: Seq<PathCommand>, b: Seq<PathCommand>)
    requires
        alike(a, b),
    ensures
        alike(b, a),
{
    assert forall|i: int| 0 <= i < b.len() implies alike_command(#[trigger] b[i], a[i]) by {
        assert(alike_command(a[i], b[i]));
    }
}

proof fn lemma_empty_outline_is_pruned(commands: Seq<PathCommand>)
    requires
        drawn(commands).len() == 0,
    ensures
        pruned(commands).len() == 0,
        !open_after(commands),
    decreases commands.len(),
{
    if commands.len() > 0 {
        lemma_empty_outline_is_pruned(commands.drop_last());
    }
}

// ---------------------------------------------------------------- content keys

pub open spec fn point_writes(p: Point) -> Seq<Seq<u8>> {
    seq![word_write(p.x.bits), word_write(p.y.bits)]
}

pub open spec fn command_writes(command: PathCommand) -> Seq<Seq<u8>> {
    match command {
        PathCommand::MoveTo(p) => point_writes(p).push(byte_write(0)),
        PathCommand::LineTo(p) => point_writes(p).push(byte_write(1)),
        PathCommand::QuadTo { ctrl, to } => (point_writes(ctrl) + point_writes(to)).push(
            byte_write(2),
        ),
        PathCommand::CubicTo { ctrl1, ctrl2, to } => (point_writes(ctrl1) + point_writes(ctrl2)
            + point_writes(to)).push(byte_write(3)),
        PathCommand::Close => seq![byte_write(4)],
    }
}

/// What an outline writes into a hasher.
pub open spec fn path_writes(commands: Seq<PathCommand>) -> Seq<Seq<u8>>
    decreases commands.len(),
{
    if commands.len() == 0 {
        seq![]
    } else {
        path_writes(commands.drop_last()) + command_writes(commands.last())
    }
}

pub open spec fn join_tag(join: LineJoin) -> u8 {
    match join {
        LineJoin::Miter => 0,
        LineJoin::Round => 1,
        LineJoin::Bevel => 2,
    }
}

pub open spec fn cap_tag(cap: LineCap) -> u8 {
    match cap {
        LineCap::Butt => 0,
        LineCap::Round => 1,
        LineCap::Square => 2,
    }
}

/// What identifies a fill geometry: the rule and the outline.
pub open spec fn fill_writes(commands: Seq<PathCommand>, rule: FillRule) -> Seq<Seq<u8>> {
    let tag = match rule {
        FillRule::EvenOdd => 0u8,
        FillRule::NonZero => 2u8,
    };
    seq![byte_write(tag)] + path_writes(commands)
}

/// What identifies a stroke geometry: dash, width, join, cap and the outline.
pub open spec fn stroke_writes(commands: Seq<PathCommand>, stroke: StrokeStyle) -> Seq<Seq<u8>> {
    let lead = match stroke.dash {
        None => seq![byte_write(1)],
        Some(dash) => seq![
            byte_write(3),
            word_write(dash@[0].bits),
            word_write(dash@[1].bits),
        ],
    };
    lead + seq![
        word_write(stroke.width.bits),
        byte_write(join_tag(stroke.join)),
        byte_write(cap_tag(stroke.cap)),
    ] + path_writes(commands)
}

fn hash_point(p: Point, hasher: &mut DefaultHasher)
    ensures
        final(hasher)@ == old(hasher)@ + point_writes(p),
{
    write_word(hasher, p.x.bits);
    write_word(hasher, p.y.bits);
    assert(hasher@ =~= old(hasher)@ + point_writes(p));
}

fn hash_command(command: PathCommand, hasher: &mut DefaultHasher)
    ensures
        final(hasher)@ == old(hasher)@ + command_writes(command),
{
    match command {
        PathCommand::MoveTo(p) => {
            hash_point(p, hasher);
            write_byte(hasher, 0);
        },
        PathCommand::LineTo(p) => {
            hash_point(p, hasher);
            write_byte(hasher, 1);
        },
        PathCommand::QuadTo { ctrl, to } => {
            hash_point(ctrl, hasher);
            hash_point(to, hasher);
            write_byte(hasher, 2);
        },
        PathCommand::CubicTo { ctrl1, ctrl2, to } => {
            hash_point(ctrl1, hasher);
            hash_point(ctrl2, hasher);
            hash_point(to, hasher);
            write_byte(hasher, 3);
        },
        PathCommand::Close => {
            write_byte(hasher, 4);
        },
    }
    assert(hasher@ =~= old(hasher)@ + command_writes(command));
}

/// Hashes an outline: its commands one after the other.
pub fn hash_commands(commands: &[PathCommand], hasher: &mut DefaultHasher)
    ensures
        final(hasher)@ == old(hasher)@ + path_writes(commands@),
{
    let mut i: usize = 0;
    let ghost start = hasher@;
    proof {
        assert(commands@.take(0) =~= Seq::<PathCommand>::empty());
        assert(hasher@ =~= start + path_writes(commands@.take(0)));
    }
    while i < commands.len()
        invariant
            i <= commands@.len(),
            hasher@ == start + path_writes(commands@.take(i as int)),
        decreases commands@.len() - i,
    {
        hash_command(commands[i], hasher);
        proof {
            let next = commands@.take(i + 1);
            assert(next.drop_last() =~= commands@.take(i as int));
            assert(next.last() == commands@[i as int]);
            assert(hasher@ =~= start + path_writes(next));
        }
        i = i + 1;
    }
    proof {
        assert(commands@.take(commands@.len() as int) =~= commands@);
    }
}

/// Content hash identifying a fill geometry under the even-odd rule.
/// Instances of identical paths share geometry and draw instanced.
pub fn fill_key(commands: &[PathCommand]) -> (key: u64)
    ensures
        key == digest(fill_writes(commands@, FillRule::EvenOdd)),
{
    fill_rule_key(commands, FillRule::EvenOdd)
}

/// Content hash identifying a fill geometry under a fill rule.
pub fn fill_rule_key(commands: &[PathCommand], rule: FillRule) -> (key: u64)
    ensures
        key == digest(fill_writes(commands@, rule)),
{
    let mut hasher = DefaultHasher::new();
    match rule {
        FillRule::EvenOdd => write_byte(&mut hasher, 0),
        FillRule::NonZero => write_byte(&mut hasher, 2),
    }
    hash_commands(commands, &mut hasher);
    assert(hasher@ =~= fill_writes(commands@, rule));
    hasher.finish()
}

/// Content hash for a stroke geometry. Dash, width, join and cap change the
/// mesh, so they are part of the key.
pub fn stroke_key(commands: &[PathCommand], stroke: &StrokeStyle) -> (key: u64)
    ensures
        key == digest(stroke_writes(commands@, *stroke)),
{
    let mut hasher = DefaultHasher::new();
    match stroke.dash {
        None => write_byte(&mut hasher, 1),
        Some(dash) => {
            write_byte(&mut hasher, 3);
            write_word(&mut hasher, dash[0].bits);
            write_word(&mut hasher, dash[1].bits);
        },
    }
    write_word(&mut hasher, stroke.width.bits);
    let join: u8 = match stroke.join {
        LineJoin::Miter => 0,
        LineJoin::Round => 1,
        LineJoin::Bevel => 2,
    };
    let cap: u8 = match stroke.cap {
        LineCap::Butt => 0,
        LineCap::Round => 1,
        LineCap::Square => 2,
    };
    write_byte(&mut hasher, join);
    write_byte(&mut hasher, cap);
    hash_commands(commands, &mut hasher);
    assert(hasher@ =~= stroke_writes(commands@, *stroke));
    hasher.finish()
}

// ---------------------------------------------------------------- laws

proof fn lemma_drawn_is_nested(commands: Seq<PathCommand>)
    ensures
        well_nested(drawn(commands)),
        in_progress(drawn(commands)) == open_after(commands),
    decreases commands.len(),
{
    if commands.len() > 0 {
        let prior = drawn(commands.drop_last());
        lemma_drawn_is_nested(commands.drop_last());
        let added = step(commands.last(), open_after(commands.drop_last()));
        let events = drawn(commands);
        assert forall|i: int| 0 <= i < events.len() implies ((#[trigger] events[i]) is Begin
            <==> !in_progress(events.take(i))) by {
            if i < prior.len() {
                assert(events.take(i) =~= prior.take(i));
                assert(events[i] == prior[i]);
            } else {
                assert(events[i] == added[i - prior.len()]);
                if i == prior.len() {
                    assert(events.take(i) =~= prior);
                } else {
                    assert(events.take(i).last() == added[0]);
                }
            }
        }
    }
}

/// An outline is made of whole sub-paths: each is begun outside any other, and
/// none is left open.
pub proof fn lemma_outline_is_well_nested(commands: Seq<PathCommand>)
    ensures
        well_nested(outline(commands)),
        !in_progress(outline(commands)),
{
    lemma_drawn_is_nested(commands);
    if open_after(commands) {
        let events = outline(commands);
        let prior = drawn(commands);
        assert forall|i: int| 0 <= i < events.len() implies ((#[trigger] events[i]) is Begin
            <==> !in_progress(events.take(i))) by {
            if i < prior.len() {
                assert(events.take(i) =~= prior.take(i));
            } else {
                assert(events.take(i) =~= prior);
            }
        }
    }
}

/// Nothing is drawn before the first move: an outline without one is empty.
pub proof fn lemma_nothing_without_a_move(commands: Seq<PathCommand>)
    requires
        forall|i: int| 0 <= i < commands.len() ==> !((#[trigger] commands[i]) is MoveTo),
    ensures
        outline(commands) == Seq::<PathEvent>::empty(),
    decreases commands.len(),
{
    if commands.len() > 0 {
        let prior = commands.drop_last();
        assert forall|i: int| 0 <= i < prior.len() implies !((#[trigger] prior[i]) is MoveTo) by {
            assert(prior[i] == commands[i]);
        }
        lemma_nothing_without_a_move(prior);
        assert(!open_after(prior)) by {
            lemma_drawn_is_nested(prior);
        }
        assert(!(commands[commands.len() - 1] is MoveTo));
        assert(step(commands.last(), false) =~= seq![]);
        assert(outline(commands) =~= Seq::<PathEvent>::empty());
    }
}

/// An outline writes its commands one after the other: what it is made of
/// writes what the parts write, and nothing writes nothing. So what is written
/// tells any two outlines apart.
pub proof fn lemma_outlines_write_their_parts(a: Seq<PathCommand>, b: Seq<PathCommand>)
    ensures
        path_writes(a + b) == path_writes(a) + path_writes(b),
        path_writes(Seq::<PathCommand>::empty()) == Seq::<Seq<u8>>::empty(),
        path_writes(a) == path_writes(b) <==> a == b,
    decreases b.len(),
{
    if b.len() == 0 {
        assert(a + b =~= a);
        assert(path_writes(a) + path_writes(b) =~= path_writes(a));
    } else {
        let rest = b.drop_last();
        lemma_outlines_write_their_parts(a, rest);
        assert((a + b).drop_last() =~= a + rest);
        assert(path_writes(a + b) =~= path_writes(a) + path_writes(b));
    }
    if path_writes(a) == path_writes(b) {
        lemma_path_writes_identify(a, b);
    }
}

/// The command that an event comes from: an end comes from a close where it
/// closes, and from none where it does not.
pub open spec fn told_by(event: PathEvent) -> Seq<PathCommand> {
    match event {
        PathEvent::Begin(p) => seq![PathCommand::MoveTo(p)],
        PathEvent::Line(p) => seq![PathCommand::LineTo(p)],
        PathEvent::Quad { ctrl, to } => seq![PathCommand::QuadTo { ctrl, to }],
        PathEvent::Cubic { ctrl1, ctrl2, to } => seq![PathCommand::CubicTo { ctrl1, ctrl2, to }],
        PathEvent::End { close } => if close {
            seq![PathCommand::Close]
        } else {
            seq![]
        },
    }
}

/// The commands that the events come from, in order.
pub open spec fn retold(events: Seq<PathEvent>) -> Seq<PathCommand>
    decreases events.len(),
{
    if events.len() == 0 {
        seq![]
    } else {
        retold(events.drop_last()) + told_by(events.last())
    }
}

pub open spec fn begins(events: Seq<PathEvent>) -> nat
    decreases events.len(),
{
    if events.len() == 0 {
        0
    } else {
        begins(events.drop_last()) + if events.last() is Begin {
            1nat
        } else {
            0nat
        }
    }
}

pub open spec fn ends(events: Seq<PathEvent>) -> nat
    decreases events.len(),
{
    if events.len() == 0 {
        0
    } else {
        ends(events.drop_last()) + if events.last() is End {
            1nat
        } else {
            0nat
        }
    }
}

pub open spec fn moves(commands: Seq<PathCommand>) -> nat
    decreases commands.len(),
{
    if commands.len() == 0 {
        0
    } else {
        moves(commands.drop_last()) + if commands.last() is MoveTo {
            1nat
        } else {
            0nat
        }
    }
}

proof fn lemma_event_adds(events: Seq<PathEvent>, event: PathEvent)
    ensures
        retold(events.push(event)) == retold(events) + told_by(event),
        begins(events.push(event)) == begins(events) + if event is Begin {
            1nat
        } else {
            0nat
        },
        ends(events.push(event)) == ends(events) + if event is End {
            1nat
        } else {
            0nat
        },
{
    assert(events.push(event).drop_last() =~= events);
}

proof fn lemma_drawn_tells_the_commands(commands: Seq<PathCommand>)
    ensures
        open_after(pruned(commands)) == open_after(commands),
        drawn(pruned(commands)) == drawn(commands),
        retold(drawn(commands)) == pruned(commands),
        begins(drawn(commands)) == moves(commands),
        ends(drawn(commands)) + (if open_after(commands) {
            1nat
        } else {
            0nat
        }) == moves(commands),
    decreases commands.len(),
{
    if commands.len() > 0 {
        let rest = commands.drop_last();
        let command = commands.last();
        let open = open_after(rest);
        lemma_drawn_tells_the_commands(rest);
        let earlier = drawn(rest);
        let kept = pruned(commands);
        if command is MoveTo || open {
            assert(kept.drop_last() =~= pruned(rest));
            assert(kept.last() == command);
        }
        assert(drawn(kept) =~= drawn(commands));
        if command is MoveTo && open {
            let ended = earlier.push(PathEvent::End { close: false });
            let begun = PathEvent::Begin(command->MoveTo_0);
            lemma_event_adds(earlier, PathEvent::End { close: false });
            lemma_event_adds(ended, begun);
            assert(drawn(commands) =~= ended.push(begun));
        } else if command is MoveTo || open {
            let event = step(command, open)[0];
            lemma_event_adds(earlier, event);
            assert(drawn(commands) =~= earlier.push(event));
        } else {
            assert(drawn(commands) =~= earlier);
        }
        assert(retold(drawn(commands)) =~= kept);
    }
}

/// An outline tells the commands that draw something, each once and in order: a sub-path
/// begins with each move and ends as often as it begins, and an end closes
/// exactly where a close inside the sub-path says so. Commands outside a
/// sub-path leave no trace: without them the outline is the same.
pub proof fn lemma_outlines_tell_their_commands(commands: Seq<PathCommand>)
    ensures
        outline(pruned(commands)) == outline(commands),
        retold(outline(commands)) == pruned(commands),
        begins(outline(commands)) == moves(commands),
        ends(outline(commands)) == moves(commands),
{
    lemma_drawn_tells_the_commands(commands);
    lemma_event_adds(drawn(commands), PathEvent::End { close: false });
    assert(retold(outline(commands)) =~= pruned(commands));
}

/// Closing twice closes once.
pub proof fn lemma_close_is_idempotent(commands: Seq<PathCommand>)
    ensures
        outline(commands.push(PathCommand::Close).push(PathCommand::Close)) == outline(
            commands.push(PathCommand::Close),
        ),
{
    let once = commands.push(PathCommand::Close);
    let twice = once.push(PathCommand::Close);
    assert(twice.drop_last() =~= once);
    assert(twice.last() == PathCommand::Close);
    assert(once.last() == PathCommand::Close);
    assert(!open_after(once));
    assert(outline(twice) =~= outline(once));
}

proof fn lemma_path_writes_identify(a: Seq<PathCommand>, b: Seq<PathCommand>)
    requires
        path_writes(a) == path_writes(b),
    ensures
        a == b,
    decreases a.len(),
{
    lemma_writes_identify();
    if a.len() == 0 {
        if b.len() > 0 {
            assert(path_writes(b).len() == path_writes(b.drop_last()).len() + command_writes(
                b.last(),
            ).len());
        }
        assert(a =~= b);
    } else if b.len() == 0 {
        assert(path_writes(a).len() == path_writes(a.drop_last()).len() + command_writes(
            a.last(),
        ).len());
    } else {
        let (wa, wb) = (path_writes(a), path_writes(b));
        let (pa, pb) = (path_writes(a.drop_last()), path_writes(b.drop_last()));
        let (ca, cb) = (command_writes(a.last()), command_writes(b.last()));
        let n = wa.len();
        assert(wa[n - 1] == ca.last());
        assert(wb[n - 1] == cb.last());
        assert(ca.last() == byte_write(command_tag(a.last())));
        assert(cb.last() == byte_write(command_tag(b.last())));
        assert(ca.len() == cb.len());
        assert(pa.len() == pb.len());
        assert(pa =~= wa.take(pa.len() as int));
        assert(pb =~= wb.take(pb.len() as int));
        assert forall|i: int| 0 <= i < ca.len() implies ca[i] == cb[i] by {
            assert(wa[pa.len() + i] == ca[i]);
            assert(wb[pb.len() + i] == cb[i]);
        }
        lemma_command_writes_identify(a.last(), b.last());
        lemma_path_writes_identify(a.drop_last(), b.drop_last());
        assert(a =~= a.drop_last().push(a.last()));
        assert(b =~= b.drop_last().push(b.last()));
    }
}

spec fn command_tag(command: PathCommand) -> u8 {
    match command {
        PathCommand::MoveTo(_) => 0,
        PathCommand::LineTo(_) => 1,
        PathCommand::QuadTo { ctrl, to } => 2,
        PathCommand::CubicTo { ctrl1, ctrl2, to } => 3,
        PathCommand::Close => 4,
    }
}

proof fn lemma_command_writes_identify(a: PathCommand, b: PathCommand)
    requires
        command_tag(a) == command_tag(b),
        command_writes(a).len() == command_writes(b).len(),
        forall|i: int|
            0 <= i < command_writes(a).len() ==> command_writes(a)[i] == command_writes(b)[i],
    ensures
        a == b,
{
    lemma_writes_identify();
    let (ca, cb) = (command_writes(a), command_writes(b));
    match (a, b) {
        (PathCommand::MoveTo(p), PathCommand::MoveTo(q)) => {
            assert(ca[0] == cb[0] && ca[1] == cb[1]);
            assert(p == q);
        },
        (PathCommand::LineTo(p), PathCommand::LineTo(q)) => {
            assert(ca[0] == cb[0] && ca[1] == cb[1]);
            assert(p == q);
        },
        (PathCommand::QuadTo { ctrl, to }, PathCommand::QuadTo { ctrl: c, to: t }) => {
            assert(ca[0] == cb[0] && ca[1] == cb[1] && ca[2] == cb[2] && ca[3] == cb[3]);
            assert(ctrl == c && to == t);
        },
        (
            PathCommand::CubicTo { ctrl1, ctrl2, to },
            PathCommand::CubicTo { ctrl1: c, ctrl2: d, to: t },
        ) => {
            assert(ca[0] == cb[0] && ca[1] == cb[1] && ca[2] == cb[2] && ca[3] == cb[3]);
            assert(ca[4] == cb[4] && ca[5] == cb[5]);
            assert(ctrl1 == c && ctrl2 == d && to == t);
        },
        _ => {},
    }
}

/// A fill key is taken over writes that identify the geometry: equal writes
/// come from the same outline and rule only.
pub proof fn lemma_fill_writes_identify(
    a: Seq<PathCommand>,
    rule_a: FillRule,
    b: Seq<PathCommand>,
    rule_b: FillRule,
)
    requires
        fill_writes(a, rule_a) == fill_writes(b, rule_b),
    ensures
        a == b,
        rule_a == rule_b,
{
    lemma_writes_identify();
    let (wa, wb) = (fill_writes(a, rule_a), fill_writes(b, rule_b));
    assert(wa[0] == wb[0]);
    assert(path_writes(a) =~= wa.skip(1));
    assert(path_writes(b) =~= wb.skip(1));
    lemma_path_writes_identify(a, b);
}

/// A stroke key is taken over writes that identify the geometry: equal writes
/// come from the same outline, width, join, cap and dash only.
pub proof fn lemma_stroke_writes_identify(
    a: Seq<PathCommand>,
    stroke_a: StrokeStyle,
    b: Seq<PathCommand>,
    stroke_b: StrokeStyle,
)
    requires
        stroke_writes(a, stroke_a) == stroke_writes(b, stroke_b),
    ensures
        a == b,
        stroke_a.width == stroke_b.width,
        stroke_a.join == stroke_b.join,
        stroke_a.cap == stroke_b.cap,
        stroke_a.dash == stroke_b.dash,
{
    lemma_writes_identify();
    let (wa, wb) = (stroke_writes(a, stroke_a), stroke_writes(b, stroke_b));
    assert(wa[0] == wb[0]);
    match (stroke_a.dash, stroke_b.dash) {
        (None, None) => {
            assert(wa[1] == wb[1] && wa[2] == wb[2] && wa[3] == wb[3]);
            assert(path_writes(a) =~= wa.skip(4));
            assert(path_writes(b) =~= wb.skip(4));
        },
        (Some(da), Some(db)) => {
            assert(wa[1] == wb[1] && wa[2] == wb[2] && wa[3] == wb[3]);
            assert(wa[4] == wb[4] && wa[5] == wb[5]);
            assert(path_writes(a) =~= wa.skip(6));
            assert(path_writes(b) =~= wb.skip(6));
            assert(da@ =~= db@);
            assert(da =~= db);
        },
        _ => {},
    }
    lemma_path_writes_identify(a, b);
}

/// No fill is written like a stroke.
pub proof fn lemma_fill_and_stroke_writes_differ(
    a: Seq<PathCommand>,
    rule: FillRule,
    b: Seq<PathCommand>,
    stroke: StrokeStyle,
)
    ensures
        fill_writes(a, rule) != stroke_writes(b, stroke),
{
    lemma_writes_identify();
    assert(fill_writes(a, rule)[0] != stroke_writes(b, stroke)[0]);
}

/// The geometry is the raw mesh, vertex by vertex and index by index; there is
/// none where there is no mesh or the mesh has no triangle.
pub open spec fn tells_mesh(geometry: Option<GeometryView>, mesh: Option<RawMeshView>) -> bool {
    match geometry {
        None => mesh matches Some(m) ==> m.indices.len() == 0,
        Some(g) => mesh matches Some(m) && {
            &&& g.indices.len() > 0
            &&& g.indices == m.indices
            &&& g.vertices.len() == m.positions.len()
            &&& forall|i: int|
                0 <= i < m.positions.len() ==> (#[trigger] g.vertices[i])@[0].bits
                    == m.positions[i]@[0] && g.vertices[i]@[1].bits == m.positions[i]@[1]
        },
    }
}

/// A fill is what the fill tessellator was asked for: this outline, to a quarter
/// of a unit, under this rule.
pub proof fn lemma_fills_ask_for_their_own_rule(
    commands: Seq<PathCommand>,
    rule: FillRule,
    geometry: Option<GeometryView>,
)
    requires
        fills_to(commands, rule, geometry),
    ensures
        exists|mesh: Option<RawMeshView>| #[trigger]
            fill_outcome(outline(commands), 0x3e80_0000, rule, mesh) && tells_mesh(geometry, mesh),
        geometry matches Some(g) ==> g.indices.len() % 3 == 0 && forall|i: int|
            0 <= i < g.indices.len() ==> (#[trigger] g.indices[i]) < g.vertices.len(),
{
    let mesh = choose|mesh: Option<RawMeshView>| #[trigger]
        fill_outcome(outline(commands), TOLERANCE, rule, mesh) && geometry == geometry_from(mesh);
    assert(tells_mesh(geometry, mesh));
}

/// An undashed stroke is what the stroke tessellator was asked for: this outline,
/// to a quarter of a unit, and exactly the style's own width, cap and join.
pub proof fn lemma_strokes_ask_for_their_own_pen(
    commands: Seq<PathCommand>,
    stroke: StrokeStyle,
    geometry: Option<GeometryView>,
)
    requires
        strokes_to(commands, stroke, geometry),
        stroke.dash is None,
    ensures
        exists|mesh: Option<RawMeshView>| #[trigger]
            stroke_outcome(
                outline(commands),
                0x3e80_0000,
                stroke.width.bits,
                stroke.cap,
                stroke.join,
                mesh,
            ) && tells_mesh(geometry, mesh),
        geometry matches Some(g) ==> g.indices.len() % 3 == 0 && forall|i: int|
            0 <= i < g.indices.len() ==> (#[trigger] g.indices[i]) < g.vertices.len(),
{
    let mesh = choose|mesh: Option<RawMeshView>| #[trigger]
        stroke_outcome(
            outline(commands),
            TOLERANCE,
            stroke.width.bits,
            stroke.cap,
            stroke.join,
            mesh,
        ) && geometry == geometry_from(mesh);
    assert(tells_mesh(geometry, mesh));
}

/// The outline of the dashes of a stroke is what the dash expansion was asked
/// for: the commands that draw something, and exactly the style's own width, cap,
/// join and dash lengths.
pub open spec fn dashes_of(
    commands: Seq<PathCommand>,
    stroke: StrokeStyle,
    dashes: Seq<PathCommand>,
) -> bool {
    exists|pen: Pen| #[trigger]
        dash_outcome(pruned(commands), pen, 0x3e80_0000, dashes) && pen.width == stroke.width
            && pen.cap == stroke.cap && pen.join == stroke.join && pen.dash == stroke.dash
}

/// A dashed stroke is the non-zero fill of the outline of its own dashes, and
/// nothing only where that outline cannot be filled or fills nothing.
pub proof fn lemma_dashes_are_filled(
    commands: Seq<PathCommand>,
    stroke: StrokeStyle,
    geometry: Option<GeometryView>,
)
    requires
        strokes_to(commands, stroke, geometry),
        stroke.dash is Some,
    ensures
        exists|dashes: Seq<PathCommand>| #[trigger]
            dashes_of(commands, stroke, dashes) && if fillable(dashes) {
                exists|mesh: Option<RawMeshView>| #[trigger]
                    fill_outcome(outline(dashes), 0x3e80_0000, FillRule::NonZero, mesh)
                        && tells_mesh(geometry, mesh)
            } else {
                geometry is None
            },
        geometry matches Some(g) ==> g.indices.len() % 3 == 0 && forall|i: int|
            0 <= i < g.indices.len() ==> (#[trigger] g.indices[i]) < g.vertices.len(),
{
    let dashes = choose|dashes: Seq<PathCommand>|
        {
            &&& #[trigger] dash_outcome(pruned(commands), style_pen(stroke), TOLERANCE, dashes)
            &&& if fillable(dashes) {
                fills_to(dashes, FillRule::NonZero, geometry)
            } else {
                geometry is None
            }
        };
    assert(dash_outcome(pruned(commands), style_pen(stroke), 0x3e80_0000, dashes));
    assert(dashes_of(commands, stroke, dashes));
    if fillable(dashes) {
        lemma_fills_ask_for_their_own_rule(dashes, FillRule::NonZero, geometry);
    }
}

/// The command at this place draws something: it begins a sub-path, or one was
/// begun before it and has not been closed since.
pub open spec fn draws_something(commands: Seq<PathCommand>, i: int) -> bool {
    commands[i] is MoveTo || exists|j: int|
        0 <= j < i && (#[trigger] commands[j]) is MoveTo && forall|k: int|
            j < k < i ==> !((#[trigger] commands[k]) is Close)
}

/// The list holds the commands at these places, in order.
pub open spec fn taken_from(
    commands: Seq<PathCommand>,
    list: Seq<PathCommand>,
    places: Seq<int>,
) -> bool {
    &&& list.len() == places.len()
    &&& forall|a: int, b: int|
        0 <= a < b < places.len() ==> #[trigger] places[a] < #[trigger] places[b]
    &&& forall|a: int|
        0 <= a < places.len() ==> 0 <= #[trigger] places[a] < commands.len() && list[a]
            == commands[places[a]]
}

proof fn lemma_open_after_a_move(commands: Seq<PathCommand>)
    ensures
        open_after(commands) <==> exists|j: int|
            0 <= j < commands.len() && (#[trigger] commands[j]) is MoveTo && forall|k: int|
                j < k < commands.len() ==> !((#[trigger] commands[k]) is Close),
    decreases commands.len(),
{
    if commands.len() > 0 {
        let rest = commands.drop_last();
        lemma_open_after_a_move(rest);
        let n = rest.len() as int;
        assert(commands[n] == commands.last());
        if open_after(commands) {
            if commands[n] is MoveTo {
                assert(commands[n] is MoveTo);
            } else {
                let j = choose|j: int|
                    0 <= j < rest.len() && (#[trigger] rest[j]) is MoveTo && forall|k: int|
                        j < k < rest.len() ==> !((#[trigger] rest[k]) is Close);
                assert(commands[j] is MoveTo);
                assert forall|k: int| j < k < commands.len() implies !((
                #[trigger] commands[k]) is Close) by {
                    if k < n {
                        assert(!(rest[k] is Close));
                    }
                }
            }
        }
        if exists|j: int|
            0 <= j < commands.len() && (#[trigger] commands[j]) is MoveTo && forall|k: int|
                j < k < commands.len() ==> !((#[trigger] commands[k]) is Close) {
            let j = choose|j: int|
                0 <= j < commands.len() && (#[trigger] commands[j]) is MoveTo && forall|k: int|
                    j < k < commands.len() ==> !((#[trigger] commands[k]) is Close);
            if j < n {
                assert(!(commands[n] is Close));
                assert(rest[j] is MoveTo);
                assert forall|k: int| j < k < rest.len() implies !((#[trigger] rest[k]) is Close) by {
                    assert(!(commands[k] is Close));
                }
            }
        }
    }
}

/// The commands that are kept of an outline are exactly those that draw
/// something, each once and in order.
pub proof fn lemma_what_draws_something_is_kept(commands: Seq<PathCommand>) -> (places: Seq<int>)
    ensures
        taken_from(commands, pruned(commands), places),
        forall|i: int| #[trigger]
            places.contains(i) <==> 0 <= i < commands.len() && draws_something(commands, i),
    decreases commands.len(),
{
    if commands.len() == 0 {
        Seq::empty()
    } else {
        let rest = commands.drop_last();
        let earlier = lemma_what_draws_something_is_kept(rest);
        let n = rest.len() as int;
        lemma_open_after_a_move(rest);
        assert forall|i: int| 0 <= i < n implies draws_something(rest, i) == draws_something(
            commands,
            i,
        ) by {
            assert(rest[i] == commands[i]);
            if draws_something(rest, i) && !(rest[i] is MoveTo) {
                let j = choose|j: int|
                    0 <= j < i && (#[trigger] rest[j]) is MoveTo && forall|k: int|
                        j < k < i ==> !((#[trigger] rest[k]) is Close);
                assert(commands[j] is MoveTo);
                assert forall|k: int| j < k < i implies !((#[trigger] commands[k]) is Close) by {
                    assert(!(rest[k] is Close));
                }
            }
            if draws_something(commands, i) && !(commands[i] is MoveTo) {
                let j = choose|j: int|
                    0 <= j < i && (#[trigger] commands[j]) is MoveTo && forall|k: int|
                        j < k < i ==> !((#[trigger] commands[k]) is Close);
                assert(rest[j] is MoveTo);
                assert forall|k: int| j < k < i implies !((#[trigger] rest[k]) is Close) by {
                    assert(!(commands[k] is Close));
                }
            }
        }
        assert(draws_something(commands, n) <==> commands[n] is MoveTo || open_after(rest)) by {
            if draws_something(commands, n) && !(commands[n] is MoveTo) {
                let j = choose|j: int|
                    0 <= j < n && (#[trigger] commands[j]) is MoveTo && forall|k: int|
                        j < k < n ==> !((#[trigger] commands[k]) is Close);
                assert(rest[j] is MoveTo);
                assert forall|k: int| j < k < n implies !((#[trigger] rest[k]) is Close) by {
                    assert(!(commands[k] is Close));
                }
            }
            if open_after(rest) {
                let j = choose|j: int|
                    0 <= j < n && (#[trigger] rest[j]) is MoveTo && forall|k: int|
                        j < k < n ==> !((#[trigger] rest[k]) is Close);
                assert(commands[j] is MoveTo);
                assert forall|k: int| j < k < n implies !((#[trigger] commands[k]) is Close) by {
                    assert(!(rest[k] is Close));
                }
            }
        }
        let places = if draws_something(commands, n) {
            earlier.push(n)
        } else {
            earlier
        };
        assert forall|a: int| 0 <= a < earlier.len() implies 0 <= #[trigger] earlier[a] < n by {
            assert(earlier.contains(earlier[a]));
        }
        assert forall|i: int| #[trigger] places.contains(i) <==> 0 <= i < commands.len()
            && draws_something(commands, i) by {
            assert(earlier.contains(i) <==> 0 <= i < n && draws_something(rest, i));
            if draws_something(commands, n) {
                assert(places[earlier.len() as int] == n);
                if earlier.contains(i) {
                    let a = choose|a: int| 0 <= a < earlier.len() && earlier[a] == i;
                    assert(places[a] == i);
                }
                if places.contains(i) && i != n {
                    let a = choose|a: int| 0 <= a < places.len() && places[a] == i;
                    assert(earlier[a] == i);
                }
            }
        }
        places
    }
}

/// An ordinary outline can be filled and stroked: no coordinate beyond `2^60`,
/// and no more points than a line may cross edges.
#[verifier::rlimit(40)]
pub proof fn lemma_ordinary_outlines_are_fillable(commands: Seq<PathCommand>)
    requires
        commands.len() <= 16000,
        forall|i: int|
            0 <= i < commands.len() ==> match #[trigger] commands[i] {
                PathCommand::MoveTo(p) => small(p),
                PathCommand::LineTo(p) => small(p),
                PathCommand::QuadTo { ctrl, to } => small(ctrl) && small(to),
                PathCommand::CubicTo { ctrl1, ctrl2, to } => small(ctrl1) && small(ctrl2) && small(
                    to,
                ),
                PathCommand::Close => true,
            },
    ensures
        fillable(commands),
        forall|stroke: StrokeStyle|
            stroke.dash is None && stroke.width.bits % 0x8000_0000 <= 0x5d80_0000
                ==> #[trigger] strokable(commands, stroke),
{
    assert forall|i: int| 0 <= i < commands.len() implies (#[trigger] commands[i]).within(
        REACH,
    ) by {}
    lemma_trail_is_short(commands, Lines::Level);
    let edges = trail(outline(commands), Lines::Level).edges;
    assert forall|at: u64| #[trigger] crowd(edges, at) <= CROSSINGS by {
        lemma_few_edges(edges, at);
    }
}

/// Neither coordinate is larger than `2^60`.
pub open spec fn small(p: Point) -> bool {
    p.x.bits % 0x8000_0000 <= 0x5d80_0000 && p.y.bits % 0x8000_0000 <= 0x5d80_0000
}

proof fn lemma_trail_is_short(commands: Seq<PathCommand>, lines: Lines)
    ensures
        trail(drawn(commands), lines).edges.len() <= 4 * commands.len(),
        trail(outline(commands), lines).edges.len() <= 4 * commands.len() + 1,
    decreases commands.len(),
{
    if commands.len() > 0 {
        let rest = commands.drop_last();
        lemma_trail_is_short(rest, lines);
        lemma_trail_step(drawn(rest), commands.last(), open_after(rest), lines);
    }
    lemma_trail_after(drawn(commands), PathEvent::End { close: false }, lines);
}


/// Neither coordinate is larger than `2^27`.
pub open spec fn moderate(p: Point) -> bool {
    p.x.bits % 0x8000_0000 <= 0x4d00_0000 && p.y.bits % 0x8000_0000 <= 0x4d00_0000
}

/// An ordinary dashed stroke can be expanded into its dashes: no coordinate and
/// no width beyond `2^27`, no dash length below zero or without end, and one of
/// them at least `2^-17`.
pub proof fn lemma_ordinary_dashes_are_strokable(
    commands: Seq<PathCommand>,
    stroke: StrokeStyle,
    dash: [Scalar; 2],
)
    requires
        stroke.dash == Some(dash),
        dash@[0].bits < 0x7f80_0000 && dash@[1].bits < 0x7f80_0000,
        dash@[0].bits >= 0x3700_0000 || dash@[1].bits >= 0x3700_0000,
        stroke.width.bits % 0x8000_0000 <= 0x4d00_0000,
        forall|i: int|
            0 <= i < commands.len() ==> match #[trigger] commands[i] {
                PathCommand::MoveTo(p) => moderate(p),
                PathCommand::LineTo(p) => moderate(p),
                PathCommand::QuadTo { ctrl, to } => moderate(ctrl) && moderate(to),
                PathCommand::CubicTo { ctrl1, ctrl2, to } => moderate(ctrl1) && moderate(ctrl2)
                    && moderate(to),
                PathCommand::Close => true,
            },
    ensures
        strokable(commands, stroke),
{
    let limit = reach(dash);
    assert(0x4d00_0000 <= limit);
    assert(path_within(commands, limit) && path_within(commands, CURVE_REACH)) by {
        assert forall|i: int| 0 <= i < commands.len() implies (#[trigger] commands[i]).within(limit)
            && commands[i].within(CURVE_REACH) by {
            match commands[i] {
                PathCommand::MoveTo(p) => {
                    lemma_moderate_is_within(p, limit);
                },
                PathCommand::LineTo(p) => {
                    lemma_moderate_is_within(p, limit);
                },
                PathCommand::QuadTo { ctrl, to } => {
                    lemma_moderate_is_within(ctrl, limit);
                    lemma_moderate_is_within(to, limit);
                },
                PathCommand::CubicTo { ctrl1, ctrl2, to } => {
                    lemma_moderate_is_within(ctrl1, limit);
                    lemma_moderate_is_within(ctrl2, limit);
                    lemma_moderate_is_within(to, limit);
                },
                PathCommand::Close => {},
            }
        }
    }
    assert(stroke.width.magnitude() == stroke.width.bits % 0x8000_0000);
}

proof fn lemma_moderate_is_within(p: Point, limit: u32)
    requires
        moderate(p),
        0x4d00_0000 <= limit,
    ensures
        p.within(limit),
        p.within(CURVE_REACH),
{
    assert(p.x.magnitude() == p.x.bits % 0x8000_0000);
    assert(p.y.magnitude() == p.y.bits % 0x8000_0000);
}

} // verus!
