//! The styles of the workloads, over lengths and colours that were computed
//! beforehand.

use vstd::prelude::*;

use crate::bench::workload::{GradientPlan, StrokePlan};
use crate::path::{
    Brush, FillRule, GradientStop, LineCap, LineJoin, LinearRgba, PathStyle, Point, StrokeStyle,
};
use crate::scalar::Scalar;

verus! {

/// A stroke with round joins and caps.
pub fn round_stroke(color: LinearRgba, width: Scalar) -> (style: PathStyle)
    ensures
        style == (PathStyle {
            fill: None,
            fill_rule: FillRule::EvenOdd,
            stroke: Some(
                StrokeStyle {
                    brush: Brush::Solid(color),
                    width,
                    join: LineJoin::Round,
                    cap: LineCap::Round,
                    dash: None,
                },
            ),
        }),
{
    let mut stroke: StrokeStyle = StrokeStyle::new(Brush::Solid(color), width);
    stroke.join = LineJoin::Round;
    stroke.cap = LineCap::Round;
    PathStyle::stroke(stroke)
}

/// Hollow elements are stroked in their plain colour; the others are filled
/// with their paint.
pub fn element_style(color: LinearRgba, paint: Brush, thickness: Option<Scalar>) -> (style:
    PathStyle)
    ensures
        thickness is None ==> style == (PathStyle {
            fill: Some(paint),
            fill_rule: FillRule::EvenOdd,
            stroke: None,
        }),
        thickness matches Some(width) ==> style == (PathStyle {
            fill: None,
            fill_rule: FillRule::EvenOdd,
            stroke: Some(
                StrokeStyle {
                    brush: Brush::Solid(color),
                    width,
                    join: LineJoin::Round,
                    cap: LineCap::Round,
                    dash: None,
                },
            ),
        }),
{
    match thickness {
        Some(width) => round_stroke(color, width),
        None => PathStyle::fill(paint),
    }
}

/// The style of a stroked path; every other one is dashed.
pub fn planned_stroke(
    plan: &StrokePlan,
    color: LinearRgba,
    width: Scalar,
    dash: [Scalar; 2],
) -> (style: PathStyle)
    ensures
        style == (PathStyle {
            fill: None,
            fill_rule: FillRule::EvenOdd,
            stroke: Some(
                StrokeStyle {
                    brush: Brush::Solid(color),
                    width,
                    join: plan.join,
                    cap: plan.cap,
                    dash: if plan.dashed {
                        Some(dash)
                    } else {
                        None
                    },
                },
            ),
        }),
{
    let mut stroke: StrokeStyle = StrokeStyle::new(Brush::Solid(color), width);
    stroke.join = plan.join;
    stroke.cap = plan.cap;
    if plan.dashed {
        stroke.dash = Some(dash);
    }
    PathStyle::stroke(stroke)
}

/// The stops of a planned gradient: from the start over the middle offset to
/// the end.
pub open spec fn planned_stops(
    plan: GradientPlan,
    palette: Seq<LinearRgba>,
    offset: Scalar,
) -> Seq<GradientStop> {
    seq![
        GradientStop { offset: Scalar { bits: 0 }, color: palette[plan.first as int] },
        GradientStop { offset, color: palette[plan.middle as int] },
        GradientStop { offset: Scalar { bits: 0x3f80_0000 }, color: palette[plan.last as int] },
    ]
}

/// A planned gradient over the palette: linear between two points, or radial
/// around the origin.
pub fn gradient_brush(
    plan: &GradientPlan,
    palette: &Vec<LinearRgba>,
    offset: Scalar,
    start: Point,
    end: Point,
    radius: Scalar,
) -> (brush: Brush)
    requires
        plan.first < palette@.len(),
        plan.middle < palette@.len(),
        plan.last < palette@.len(),
    ensures
        plan.linear ==> (brush matches Brush::Linear { start: s, end: e, stops } && s == start && e
            == end && stops@ == planned_stops(*plan, palette@, offset)),
        !plan.linear ==> (brush matches Brush::Radial { center, radius: r, stops } && center
            == (Point { x: Scalar { bits: 0 }, y: Scalar { bits: 0 } }) && r == radius && stops@
            == planned_stops(*plan, palette@, offset)),
{
    let stops: Vec<GradientStop> = vec![
        GradientStop { offset: Scalar::zero(), color: palette[plan.first as usize] },
        GradientStop { offset, color: palette[plan.middle as usize] },
        GradientStop { offset: Scalar::one(), color: palette[plan.last as usize] },
    ];
    assert(stops@ =~= planned_stops(*plan, palette@, offset));
    if plan.linear {
        Brush::Linear { start, end, stops }
    } else {
        Brush::Radial { center: Point { x: Scalar::zero(), y: Scalar::zero() }, radius, stops }
    }
}


/// A planned gradient has three stops: its first colour at zero, its middle one
/// at the given offset, its last one at one.
pub proof fn lemma_planned_gradients_have_three_stops(
    plan: GradientPlan,
    palette: Seq<LinearRgba>,
    offset: Scalar,
)
    ensures
        ({
            let stops = planned_stops(plan, palette, offset);
            &&& stops.len() == 3
            &&& stops[0].offset.bits == 0 && stops[0].color == palette[plan.first as int]
            &&& stops[1].offset == offset && stops[1].color == palette[plan.middle as int]
            &&& stops[2].offset.bits == 0x3f80_0000 && stops[2].color == palette[plan.last as int]
        }),
{
}

} // verus!
