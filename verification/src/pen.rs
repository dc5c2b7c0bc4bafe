//! Stroke styles of the `kurbo` crate.

use vello::kurbo::{Cap, Join, Stroke};
use vstd::prelude::*;

use crate::path::{LineCap, LineJoin, StrokeStyle};
use crate::scalar::Scalar;

verus! {

#[verifier::external_type_specification]
#[verifier::external_body]
pub struct ExStroke(Stroke);

/// How a path is stroked, paint aside.
#[derive(Clone, Copy, Debug, PartialEq, Eq)]
pub struct Pen {
    pub width: Scalar,
    pub cap: LineCap,
    pub join: LineJoin,
    pub dash: Option<[Scalar; 2]>,
}

/// What a stroke style holds.
pub uninterp spec fn pen_of(stroke: Stroke) -> Pen;

/// The same pen, up to the payload of a length that is no number.
pub open spec fn alike_pen(a: Pen, b: Pen) -> bool {
    &&& a.width.alike(b.width)
    &&& a.cap == b.cap
    &&& a.join == b.join
    &&& a.dash is Some == b.dash is Some
    &&& a.dash matches Some(dash) ==> dash@[0].alike(b.dash->0@[0]) && dash@[1].alike(
        b.dash->0@[1],
    )
}

/// Where every length is a number, alike is equal.
pub proof fn lemma_pen_alike_finite(a: Pen, b: Pen)
    requires
        alike_pen(a, b),
        finite_pen(b),
    ensures
        a == b,
{
    if a.dash is Some {
        assert(a.dash->0@ =~= b.dash->0@);
        assert(a.dash->0 == b.dash->0);
    }
}

/// `Stroke::new` with `with_caps` and `with_join`: a style without dashes, its
/// other settings the defaults.
#[verifier::external_body]
fn stroke_new(width: Scalar, cap: LineCap, join: LineJoin) -> (stroke: Stroke)
    ensures
        alike_pen(pen_of(stroke), (Pen { width, cap, join, dash: None })),
{
    let cap = match cap { LineCap::Butt => Cap::Butt, LineCap::Round => Cap::Round,
        LineCap::Square => Cap::Square };
    let join = match join { LineJoin::Miter => Join::Miter, LineJoin::Round => Join::Round,
        LineJoin::Bevel => Join::Bevel };
    let size = lyon::math::vector(bytemuck::cast(width.bits), bytemuck::cast(width.bits)).to_f64();
    Stroke::new(size.x).with_caps(cap).with_join(join)
}

/// `Stroke::with_dashes` with no offset: the style with a dash pattern of two
/// lengths.
#[verifier::external_body]
fn stroke_dashed(stroke: Stroke, dash: [Scalar; 2]) -> (dashed: Stroke)
    ensures
        alike_pen(pen_of(dashed), (Pen { dash: Some(dash), ..pen_of(stroke) })),
{
    let [on, off] = dash;
    let lengths = lyon::math::point(bytemuck::cast(on.bits), bytemuck::cast(off.bits)).to_f64();
    stroke.with_dashes(Default::default(), lengths.to_array())
}

/// The pen of a style.
pub open spec fn style_pen(style: StrokeStyle) -> Pen {
    Pen { width: style.width, cap: style.cap, join: style.join, dash: style.dash }
}

/// Every length of the pen is finite.
pub open spec fn finite_pen(pen: Pen) -> bool {
    pen.width.finite() && (pen.dash matches Some(dash) ==> dash@[0].finite() && dash@[1].finite())
}

/// Makes a stroke style.
pub fn to_stroke(style: &StrokeStyle) -> (stroke: Stroke)
    ensures
        alike_pen(pen_of(stroke), style_pen(*style)),
{
    let stroke: Stroke = stroke_new(style.width, style.cap, style.join);
    match style.dash {
        None => stroke,
        Some(dash) => stroke_dashed(stroke, dash),
    }
}

/// A pen is its style's own: as wide, with the same cap, join and dashes.
pub proof fn lemma_pens_are_their_styles(style: StrokeStyle)
    ensures
        style_pen(style).width == style.width,
        style_pen(style).cap == style.cap,
        style_pen(style).join == style.join,
        style_pen(style).dash == style.dash,
{
}

} // verus!
