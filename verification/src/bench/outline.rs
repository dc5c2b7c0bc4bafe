//! The outlines of the workloads, over points and extents that were computed
//! beforehand.

use vstd::prelude::*;

use crate::painter::{circle_commands, circle_outline, opposite};
use crate::path::{PathCommand, Point};
use crate::scalar::Scalar;

verus! {

/// The first point begins a sub-path, the others extend it.
pub open spec fn polyline_of(points: Seq<Point>) -> Seq<PathCommand> {
    Seq::new(
        points.len(),
        |i: int|
            if i == 0 {
                PathCommand::MoveTo(points[i])
            } else {
                PathCommand::LineTo(points[i])
            },
    )
}

/// An open line through the points.
pub fn polyline_path(points: &Vec<Point>) -> (commands: Vec<PathCommand>)
    ensures
        commands@ == polyline_of(points@),
{
    let mut commands: Vec<PathCommand> = Vec::with_capacity(points.len());
    let mut i: usize = 0;
    while i < points.len()
        invariant
            i <= points@.len(),
            commands@ == polyline_of(points@).take(i as int),
        decreases points@.len() - i,
    {
        let command: PathCommand = if i == 0 {
            PathCommand::MoveTo(points[i])
        } else {
            PathCommand::LineTo(points[i])
        };
        commands.push(command);
        assert(commands@ =~= polyline_of(points@).take(i + 1));
        i = i + 1;
    }
    assert(commands@ =~= polyline_of(points@));
    commands
}

/// A closed polygon with these corners.
pub fn ngon_path(corners: &Vec<Point>) -> (commands: Vec<PathCommand>)
    ensures
        commands@ == polyline_of(corners@).push(PathCommand::Close),
{
    let mut commands: Vec<PathCommand> = polyline_path(corners);
    commands.push(PathCommand::Close);
    commands
}

/// A closed ring segment: along the outer arc, back along the inner one.
pub fn ring_segment_path(outer: &Vec<Point>, inner: &Vec<Point>) -> (commands: Vec<PathCommand>)
    ensures
        commands@ == polyline_of(outer@ + inner@.reverse()).push(PathCommand::Close),
{
    let mut points: Vec<Point> = Vec::with_capacity(outer.len());
    let mut i: usize = 0;
    while i < outer.len()
        invariant
            i <= outer@.len(),
            points@ == outer@.take(i as int),
        decreases outer@.len() - i,
    {
        points.push(outer[i]);
        assert(points@ =~= outer@.take(i + 1));
        i = i + 1;
    }
    assert(points@ =~= outer@ + inner@.reverse().take(0));
    let mut j: usize = inner.len();
    while j > 0
        invariant
            j <= inner@.len(),
            points@ == outer@ + inner@.reverse().take(inner@.len() - j),
        decreases j,
    {
        j = j - 1;
        points.push(inner[j]);
        assert(points@ =~= outer@ + inner@.reverse().take(inner@.len() - j));
    }
    assert(points@ =~= outer@ + inner@.reverse());
    ngon_path(&points)
}

/// A circle around the origin as four cubic curves; `k` is the length of their
/// handles.
pub fn circle_path(r: Scalar, k: Scalar) -> (commands: Vec<PathCommand>)
    ensures
        commands@ == circle_outline(r, k),
{
    circle_commands(r, k)
}

/// Half extents of a rounded rectangle and where its corners begin: `right`
/// and `top` are the half extents less the corner radius, `left` and `bottom`
/// their opposites.
#[derive(Clone, Copy, Debug, PartialEq, Eq, Structural)]
pub struct Corners {
    pub half: Point,
    pub left: Scalar,
    pub right: Scalar,
    pub bottom: Scalar,
    pub top: Scalar,
}

/// A rectangle with sharp corners.
pub open spec fn sharp_rect(half: Point) -> Seq<PathCommand> {
    let (x, y) = (half.x, half.y);
    seq![
        PathCommand::MoveTo(Point { x: x.negated(), y }),
        PathCommand::LineTo(Point { x, y }),
        PathCommand::LineTo(Point { x, y: y.negated() }),
        PathCommand::LineTo(Point { x: x.negated(), y: y.negated() }),
        PathCommand::Close,
    ]
}

/// A rectangle whose corners are quadratic curves.
pub open spec fn rounded_rect(c: Corners) -> Seq<PathCommand> {
    let (x, y) = (c.half.x, c.half.y);
    let (nx, ny) = (x.negated(), y.negated());
    seq![
        PathCommand::MoveTo(Point { x: c.left, y }),
        PathCommand::LineTo(Point { x: c.right, y }),
        PathCommand::QuadTo { ctrl: Point { x, y }, to: Point { x, y: c.top } },
        PathCommand::LineTo(Point { x, y: c.bottom }),
        PathCommand::QuadTo { ctrl: Point { x, y: ny }, to: Point { x: c.right, y: ny } },
        PathCommand::LineTo(Point { x: c.left, y: ny }),
        PathCommand::QuadTo { ctrl: Point { x: nx, y: ny }, to: Point { x: nx, y: c.bottom } },
        PathCommand::LineTo(Point { x: nx, y: c.top }),
        PathCommand::QuadTo { ctrl: Point { x: nx, y }, to: Point { x: c.left, y } },
        PathCommand::Close,
    ]
}

/// A rectangle around the origin, its corners rounded where the radius is
/// positive.
pub fn rounded_rect_path(corners: Corners, radius: Scalar) -> (commands: Vec<PathCommand>)
    ensures
        commands@ == if radius.le(Scalar { bits: 0 }) {
            sharp_rect(corners.half)
        } else {
            rounded_rect(corners)
        },
{
    let (x, y): (Scalar, Scalar) = (corners.half.x, corners.half.y);
    let (nx, ny): (Scalar, Scalar) = (x.neg(), y.neg());
    if radius.at_most(&Scalar::zero()) {
        let commands: Vec<PathCommand> = vec![
            PathCommand::MoveTo(Point { x: nx, y }),
            PathCommand::LineTo(Point { x, y }),
            PathCommand::LineTo(Point { x, y: ny }),
            PathCommand::LineTo(Point { x: nx, y: ny }),
            PathCommand::Close,
        ];
        assert(commands@ =~= sharp_rect(corners.half));
        return commands;
    }
    let c: Corners = corners;
    let commands: Vec<PathCommand> = vec![
        PathCommand::MoveTo(Point { x: c.left, y }),
        PathCommand::LineTo(Point { x: c.right, y }),
        PathCommand::QuadTo { ctrl: Point { x, y }, to: Point { x, y: c.top } },
        PathCommand::LineTo(Point { x, y: c.bottom }),
        PathCommand::QuadTo { ctrl: Point { x, y: ny }, to: Point { x: c.right, y: ny } },
        PathCommand::LineTo(Point { x: c.left, y: ny }),
        PathCommand::QuadTo { ctrl: Point { x: nx, y: ny }, to: Point { x: nx, y: c.bottom } },
        PathCommand::LineTo(Point { x: nx, y: c.top }),
        PathCommand::QuadTo { ctrl: Point { x: nx, y }, to: Point { x: c.left, y } },
        PathCommand::Close,
    ];
    assert(commands@ =~= rounded_rect(corners));
    commands
}


/// A line goes through all its points in order, and begins at the first.
pub proof fn lemma_lines_go_through_their_points(points: Seq<Point>)
    ensures
        polyline_of(points).len() == points.len(),
        points.len() > 0 ==> polyline_of(points)[0] == PathCommand::MoveTo(points[0]),
        forall|i: int|
            0 < i < points.len() ==> #[trigger] polyline_of(points)[i] == PathCommand::LineTo(
                points[i],
            ),
{
}

/// The point is a corner of the rectangle with these half extents: at the one or
/// the other of them along each axis.
pub open spec fn is_corner_of(p: Point, half: Point, right: bool, top: bool) -> bool {
    &&& if right { p.x == half.x } else { opposite(p.x, half.x) }
    &&& if top { p.y == half.y } else { opposite(p.y, half.y) }
}

/// A sharp rectangle goes round its four corners from the upper left one on and
/// is closed.
pub proof fn lemma_sharp_rectangles_go_round_their_corners(half: Point)
    ensures
        sharp_rect(half).len() == 5,
        sharp_rect(half)[0] matches PathCommand::MoveTo(p) && is_corner_of(p, half, false, true),
        sharp_rect(half)[1] matches PathCommand::LineTo(p) && is_corner_of(p, half, true, true),
        sharp_rect(half)[2] matches PathCommand::LineTo(p) && is_corner_of(p, half, true, false),
        sharp_rect(half)[3] matches PathCommand::LineTo(p) && is_corner_of(p, half, false, false),
        sharp_rect(half)[4] is Close,
{
}

/// A rounded rectangle runs along its four sides and bends at its corners: each
/// curve leaves a side where the corner begins, is drawn towards the corner, and
/// meets the next side where the corner ends. It ends where it began and is
/// closed.
pub proof fn lemma_rounded_rectangles_bend_at_their_corners(c: Corners)
    ensures
        rounded_rect(c).len() == 10,
        rounded_rect(c)[0] matches PathCommand::MoveTo(p) && p.x == c.left && p.y == c.half.y,
        rounded_rect(c)[1] matches PathCommand::LineTo(p) && p.x == c.right && p.y == c.half.y,
        rounded_rect(c)[2] matches PathCommand::QuadTo { ctrl, to } && is_corner_of(
            ctrl,
            c.half,
            true,
            true,
        ) && to.x == c.half.x && to.y == c.top,
        rounded_rect(c)[3] matches PathCommand::LineTo(p) && p.x == c.half.x && p.y == c.bottom,
        rounded_rect(c)[4] matches PathCommand::QuadTo { ctrl, to } && is_corner_of(
            ctrl,
            c.half,
            true,
            false,
        ) && to.x == c.right && opposite(to.y, c.half.y),
        rounded_rect(c)[5] matches PathCommand::LineTo(p) && p.x == c.left && opposite(
            p.y,
            c.half.y,
        ),
        rounded_rect(c)[6] matches PathCommand::QuadTo { ctrl, to } && is_corner_of(
            ctrl,
            c.half,
            false,
            false,
        ) && opposite(to.x, c.half.x) && to.y == c.bottom,
        rounded_rect(c)[7] matches PathCommand::LineTo(p) && opposite(p.x, c.half.x) && p.y
            == c.top,
        rounded_rect(c)[8] matches PathCommand::QuadTo { ctrl, to } && is_corner_of(
            ctrl,
            c.half,
            false,
            true,
        ) && to.x == c.left && to.y == c.half.y,
        rounded_rect(c)[9] is Close,
{
}

} // verus!
