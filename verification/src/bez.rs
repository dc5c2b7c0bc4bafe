//! Bezier paths of the `kurbo` crate, built from and read back as path
//! commands.

use vello::kurbo::{BezPath, PathEl};
use vstd::prelude::*;

use crate::path::{alike_command, finite_path, PathCommand, Point};
use crate::scalar::Scalar;

verus! {

#[verifier::external_type_specification]
#[verifier::external_body]
pub struct ExBezPath(BezPath);

/// The elements of a path, with each coordinate in single precision.
pub uninterp spec fn bez_commands(path: BezPath) -> Seq<PathCommand>;

/// `BezPath::new`: a path without elements.
#[verifier::external_body]
fn bez_new() -> (path: BezPath)
    ensures
        bez_commands(path) == Seq::<PathCommand>::empty(),
{
    BezPath::new()
}

/// The path is the earlier one and one element more, which has the
/// coordinates of the command. (Widening is exact but for the payload of a NaN.)
pub open spec fn appended(
    earlier: Seq<PathCommand>,
    path: Seq<PathCommand>,
    command: PathCommand,
) -> bool {
    &&& path.len() == earlier.len() + 1
    &&& path.drop_last() == earlier
    &&& alike_command(path.last(), command)
}

/// `BezPath::move_to`: appends an element.
#[verifier::external_body]
fn bez_move(path: &mut BezPath, at: Point)
    ensures
        appended(bez_commands(*old(path)), bez_commands(*final(path)), PathCommand::MoveTo(at)),
{
    path.move_to(lyon::math::point(bytemuck::cast(at.x.bits), bytemuck::cast(at.y.bits)).to_tuple());
}

/// `BezPath::line_to`: appends an element to a path that has one.
#[verifier::external_body]
fn bez_line(path: &mut BezPath, to: Point)
    requires
        bez_commands(*old(path)).len() > 0,
    ensures
        appended(bez_commands(*old(path)), bez_commands(*final(path)), PathCommand::LineTo(to)),
{
    path.line_to(lyon::math::point(bytemuck::cast(to.x.bits), bytemuck::cast(to.y.bits)).to_tuple());
}

/// `BezPath::quad_to`: appends an element to a path that has one.
#[verifier::external_body]
fn bez_quad(path: &mut BezPath, ctrl: Point, to: Point)
    requires
        bez_commands(*old(path)).len() > 0,
    ensures
        appended(
            bez_commands(*old(path)),
            bez_commands(*final(path)),
            PathCommand::QuadTo { ctrl, to },
        ),
{
    path.quad_to(
        lyon::math::point(bytemuck::cast(ctrl.x.bits), bytemuck::cast(ctrl.y.bits)).to_tuple(),
        lyon::math::point(bytemuck::cast(to.x.bits), bytemuck::cast(to.y.bits)).to_tuple(),
    );
}

/// `BezPath::curve_to`: appends an element to a path that has one.
#[verifier::external_body]
fn bez_cubic(path: &mut BezPath, ctrl1: Point, ctrl2: Point, to: Point)
    requires
        bez_commands(*old(path)).len() > 0,
    ensures
        appended(
            bez_commands(*old(path)),
            bez_commands(*final(path)),
            PathCommand::CubicTo { ctrl1, ctrl2, to },
        ),
{
    path.curve_to(
        lyon::math::point(bytemuck::cast(ctrl1.x.bits), bytemuck::cast(ctrl1.y.bits)).to_tuple(),
        lyon::math::point(bytemuck::cast(ctrl2.x.bits), bytemuck::cast(ctrl2.y.bits)).to_tuple(),
        lyon::math::point(bytemuck::cast(to.x.bits), bytemuck::cast(to.y.bits)).to_tuple(),
    );
}

/// `BezPath::close_path`: appends an element to a path that has one.
#[verifier::external_body]
fn bez_close(path: &mut BezPath)
    requires
        bez_commands(*old(path)).len() > 0,
    ensures
        bez_commands(*final(path)) == bez_commands(*old(path)).push(PathCommand::Close),
{
    path.close_path();
}

/// `BezPath::elements`: how many there are.
#[verifier::external_body]
fn bez_len(path: &BezPath) -> (n: usize)
    ensures
        n == bez_commands(*path).len(),
{
    path.elements().len()
}

/// `BezPath::elements`: one of them, its coordinates rounded to single
/// precision by `euclid`'s `to_f32`, up to the payload of a NaN.
#[verifier::external_body]
fn bez_at(path: &BezPath, i: usize) -> (command: PathCommand)
    requires
        i < bez_commands(*path).len(),
    ensures
        alike_command(command, bez_commands(*path)[i as int]),
{
    let narrow = |p: vello::kurbo::Point| {
        let [x, y] = lyon::geom::euclid::default::Point2D::new(p.x, p.y).to_f32().to_array();
        Point { x: Scalar { bits: bytemuck::cast(x) }, y: Scalar { bits: bytemuck::cast(y) } }
    };
    match path.elements()[i] {
        PathEl::MoveTo(p) => PathCommand::MoveTo(narrow(p)),
        PathEl::LineTo(p) => PathCommand::LineTo(narrow(p)),
        PathEl::QuadTo(a, p) => PathCommand::QuadTo { ctrl: narrow(a), to: narrow(p) },
        PathEl::CurveTo(a, b, p) =>
            PathCommand::CubicTo { ctrl1: narrow(a), ctrl2: narrow(b), to: narrow(p) },
        PathEl::ClosePath => PathCommand::Close,
    }
}

/// The list is empty or begins a sub-path.
pub open spec fn leads_with_move(commands: Seq<PathCommand>) -> bool {
    commands.len() > 0 ==> commands[0] is MoveTo
}

/// The same commands, up to the payload of a coordinate that is no number.
pub open spec fn alike(a: Seq<PathCommand>, b: Seq<PathCommand>) -> bool {
    &&& a.len() == b.len()
    &&& forall|i: int| 0 <= i < a.len() ==> alike_command(#[trigger] a[i], b[i])
}

/// Where every coordinate is a number, alike is equal.
pub proof fn lemma_alike_finite(a: Seq<PathCommand>, b: Seq<PathCommand>)
    requires
        alike(a, b),
        finite_path(b),
    ensures
        a == b,
{
    assert forall|i: int| 0 <= i < a.len() implies a[i] == b[i] by {
        assert(alike_command(a[i], b[i]));
        assert(b[i].finite());
    }
    assert(a =~= b);
}

/// Builds a path with one element for every command.
pub fn to_bez_path(commands: &[PathCommand]) -> (path: BezPath)
    requires
        leads_with_move(commands@),
    ensures
        alike(bez_commands(path), commands@),
        finite_path(commands@) ==> bez_commands(path) == commands@,
{
    let mut path = bez_new();
    let mut i: usize = 0;
    while i < commands.len()
        invariant
            leads_with_move(commands@),
            i <= commands@.len(),
            alike(bez_commands(path), commands@.take(i as int)),
        decreases commands@.len() - i,
    {
        let ghost earlier = bez_commands(path);
        match commands[i] {
            PathCommand::MoveTo(p) => bez_move(&mut path, p),
            PathCommand::LineTo(p) => bez_line(&mut path, p),
            PathCommand::QuadTo { ctrl, to } => bez_quad(&mut path, ctrl, to),
            PathCommand::CubicTo { ctrl1, ctrl2, to } => bez_cubic(&mut path, ctrl1, ctrl2, to),
            PathCommand::Close => bez_close(&mut path),
        }
        proof {
            let next = bez_commands(path);
            assert(next.drop_last() =~= earlier);
            assert forall|k: int| 0 <= k < next.len() implies alike_command(
                #[trigger] next[k],
                commands@.take(i + 1)[k],
            ) by {
                if k < earlier.len() {
                    assert(next[k] == next.drop_last()[k]);
                    assert(alike_command(earlier[k], commands@.take(i as int)[k]));
                }
            }
        }
        i = i + 1;
    }
    proof {
        assert(commands@.take(commands@.len() as int) =~= commands@);
        if finite_path(commands@) {
            lemma_alike_finite(bez_commands(path), commands@);
        }
    }
    path
}

/// Reads the elements of a path.
pub fn from_bez_path(path: &BezPath) -> (commands: Vec<PathCommand>)
    ensures
        alike(commands@, bez_commands(*path)),
        finite_path(bez_commands(*path)) ==> commands@ == bez_commands(*path),
{
    let n: usize = bez_len(path);
    let mut commands: Vec<PathCommand> = Vec::with_capacity(n);
    let mut i: usize = 0;
    while i < n
        invariant
            n == bez_commands(*path).len(),
            i <= n,
            commands@.len() == i,
            forall|k: int|
                0 <= k < i ==> alike_command(#[trigger] commands@[k], bez_commands(*path)[k]),
        decreases n - i,
    {
        commands.push(bez_at(path, i));
        i = i + 1;
    }
    proof {
        if finite_path(bez_commands(*path)) {
            lemma_alike_finite(commands@, bez_commands(*path));
        }
    }
    commands
}

} // verus!
