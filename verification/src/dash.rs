//! Dashed strokes: a stroke with a dash pattern is expanded into the outline
//! of its dashes, which is then filled.

use vello::kurbo::{BezPath, Stroke, StrokeOpts};
use vstd::prelude::*;

use crate::bez::{
    alike, bez_commands, from_bez_path, leads_with_move, lemma_alike_finite, to_bez_path,
};
use crate::path::{
    finite_path, lemma_within_is_finite, path_is_within, path_within, PathCommand, StrokeStyle,
};
use crate::pen::{lemma_pen_alike_finite, pen_of, style_pen, to_stroke, Pen};
use crate::scalar::Scalar;
use crate::tess::{open_after, TOLERANCE};

verus! {

/// What `vello::kurbo::stroke` may give for a path, a pen and a tolerance (a
/// bit pattern).
pub uninterp spec fn dash_outcome(
    commands: Seq<PathCommand>,
    pen: Pen,
    tolerance: u32,
    dashes: Seq<PathCommand>,
) -> bool;

/// `vello::kurbo::stroke` with a dashed pen: the outline of the dashes. A path
/// without elements has none. Which outline comes out rests on the
/// floating-point library of the machine, and nothing more is claimed of it.
#[verifier::external_body]
fn bez_dashes(path: &BezPath, stroke: &Stroke, tolerance: u32) -> (dashes: BezPath)
    requires
        dashable(bez_commands(*path), pen_of(*stroke)),
        tolerance == TOLERANCE,
    ensures
        dash_outcome(bez_commands(*path), pen_of(*stroke), tolerance, bez_commands(dashes)),
        bez_commands(*path).len() == 0 ==> bez_commands(dashes).len() == 0,
{
    let reach = lyon::math::vector(bytemuck::cast(tolerance), bytemuck::cast(tolerance)).to_f64();
    let elements = path.elements().iter().copied();
    vello::kurbo::stroke(elements, stroke, &StrokeOpts::default(), reach.x)
}

/// How far from the origin a curve may lie whose dashes are counted: `2^27`, as
/// a bit pattern. Where along a curve a dash ends is searched for, to within a
/// millionth of a unit, and farther out such a step is lost in rounding.
pub const CURVE_REACH: u32 = 0x4d00_0000;

/// The longer of the two lengths of a dash pattern.
pub open spec fn longer(dash: [Scalar; 2]) -> int {
    if dash@[0].magnitude() >= dash@[1].magnitude() {
        dash@[0].magnitude()
    } else {
        dash@[1].magnitude()
    }
}

/// A dash pattern that makes progress along an outline: its lengths are finite
/// and not below zero, and one of them is a normal number.
pub open spec fn progresses(dash: [Scalar; 2]) -> bool {
    &&& dash@[0].finite() && (dash@[0].negative() ==> dash@[0].magnitude() == 0)
    &&& dash@[1].finite() && (dash@[1].negative() ==> dash@[1].magnitude() == 0)
    &&& longer(dash) >= 0x80_0000
}

/// The largest number that a coordinate may be for dashes of this pattern to be
/// counted along the outline: `2^44` times the longer length of the pattern,
/// or any finite number where that is none. (Adding to the exponent multiplies;
/// a step shorter than `2^-52` of the way would be lost in rounding.)
pub open spec fn reach(dash: [Scalar; 2]) -> u32 {
    let far = longer(dash) + 44 * 0x80_0000;
    if far < 0x7f80_0000 {
        far as u32
    } else {
        0x7f7f_ffff
    }
}

/// The outline has a curve.
pub open spec fn curved(commands: Seq<PathCommand>) -> bool {
    exists|i: int|
        0 <= i < commands.len() && ((#[trigger] commands[i]) is QuadTo || commands[i] is CubicTo)
}

/// Dashes of this pattern can be counted along the outline.
pub open spec fn countable(commands: Seq<PathCommand>, dash: [Scalar; 2]) -> bool {
    &&& progresses(dash)
    &&& path_within(commands, reach(dash))
    &&& curved(commands) ==> path_within(commands, CURVE_REACH)
}

/// The stroke of the outline can be expanded into its dashes: they can be
/// counted, and the width is finite, and moderate where there is a curve to
/// offset.
pub open spec fn dashable(commands: Seq<PathCommand>, pen: Pen) -> bool {
    &&& pen.dash matches Some(dash) && countable(commands, dash)
    &&& pen.width.finite()
    &&& curved(commands) ==> pen.width.magnitude() <= CURVE_REACH
}

/// Whether the outline has a curve.
fn is_curved(commands: &[PathCommand]) -> (r: bool)
    ensures
        r == curved(commands@),
{
    let mut i: usize = 0;
    while i < commands.len()
        invariant
            i <= commands@.len(),
            forall|k: int|
                0 <= k < i ==> !((#[trigger] commands@[k]) is QuadTo || commands@[k] is CubicTo),
        decreases commands@.len() - i,
    {
        match commands[i] {
            PathCommand::QuadTo { .. } => {
                assert(commands@[i as int] is QuadTo);
                return true;
            },
            PathCommand::CubicTo { .. } => {
                assert(commands@[i as int] is CubicTo);
                return true;
            },
            _ => {},
        }
        i = i + 1;
    }
    false
}

/// Whether dashes of this pattern can be counted along an outline.
pub fn is_countable(commands: &[PathCommand], dash: [Scalar; 2]) -> (r: bool)
    ensures
        r == countable(commands@, dash),
{
    let (on, off): (u32, u32) = (dash[0].bits % 0x8000_0000, dash[1].bits % 0x8000_0000);
    let long: u32 = if on >= off {
        on
    } else {
        off
    };
    if !dash[0].is_finite() || !dash[1].is_finite() || long < 0x80_0000 || (dash[0].bits
        >= 0x8000_0000 && on > 0) || (dash[1].bits >= 0x8000_0000 && off > 0) {
        return false;
    }
    let far: u32 = long + 44 * 0x80_0000;
    let limit: u32 = if far < 0x7f80_0000 {
        far
    } else {
        0x7f7f_ffff
    };
    path_is_within(commands, limit) && (!is_curved(commands) || path_is_within(
        commands,
        CURVE_REACH,
    ))
}

/// Whether the stroke of an outline can be expanded into its dashes.
pub fn is_dashable(commands: &[PathCommand], style: &StrokeStyle) -> (r: bool)
    ensures
        r == dashable(commands@, style_pen(*style)),
{
    match style.dash {
        None => false,
        Some(dash) => is_countable(commands, dash) && style.width.is_finite() && (!is_curved(
            commands,
        ) || style.width.bits % 0x8000_0000 <= CURVE_REACH),
    }
}

/// The commands that draw something: those outside any sub-path are dropped.
pub open spec fn pruned(commands: Seq<PathCommand>) -> Seq<PathCommand>
    decreases commands.len(),
{
    if commands.len() == 0 {
        Seq::empty()
    } else {
        let earlier = pruned(commands.drop_last());
        let last = commands.last();
        if last is MoveTo || open_after(commands.drop_last()) {
            earlier.push(last)
        } else {
            earlier
        }
    }
}

proof fn lemma_pruned_are_among(commands: Seq<PathCommand>)
    ensures
        forall|i: int|
            0 <= i < pruned(commands).len() ==> commands.contains(#[trigger] pruned(commands)[i]),
    decreases commands.len(),
{
    if commands.len() > 0 {
        let rest = commands.drop_last();
        lemma_pruned_are_among(rest);
        assert forall|i: int| 0 <= i < pruned(commands).len() implies commands.contains(
            #[trigger] pruned(commands)[i],
        ) by {
            if i < pruned(rest).len() {
                assert(pruned(commands)[i] == pruned(rest)[i]);
                let k = choose|k: int| 0 <= k < rest.len() && rest[k] == pruned(rest)[i];
                assert(commands[k] == pruned(commands)[i]);
            } else {
                assert(commands[commands.len() - 1] == pruned(commands)[i]);
            }
        }
    }
}

/// Drops the commands outside any sub-path.
fn prune(commands: &[PathCommand]) -> (kept: Vec<PathCommand>)
    ensures
        kept@ == pruned(commands@),
        leads_with_move(kept@),
{
    let mut kept: Vec<PathCommand> = Vec::new();
    let mut open: bool = false;
    let mut i: usize = 0;
    assert(commands@.take(0) =~= Seq::<PathCommand>::empty());
    while i < commands.len()
        invariant
            i <= commands@.len(),
            open == open_after(commands@.take(i as int)),
            kept@ == pruned(commands@.take(i as int)),
            leads_with_move(kept@),
            open ==> kept@.len() > 0,
        decreases commands@.len() - i,
    {
        proof {
            assert(commands@.take(i + 1).drop_last() =~= commands@.take(i as int));
        }
        let command: PathCommand = commands[i];
        match command {
            PathCommand::MoveTo(_) => {
                kept.push(command);
                open = true;
            },
            PathCommand::Close => {
                if open {
                    kept.push(command);
                    open = false;
                }
            },
            _ => {
                if open {
                    kept.push(command);
                }
            },
        }
        i = i + 1;
    }
    assert(commands@.take(commands@.len() as int) =~= commands@);
    kept
}

/// The outline is one that expanding the dashes may give, up to the payload of
/// a coordinate that is no number.
pub open spec fn expands_to(
    commands: Seq<PathCommand>,
    style: StrokeStyle,
    dashes: Seq<PathCommand>,
) -> bool {
    exists|given: Seq<PathCommand>|
        #[trigger] dash_outcome(pruned(commands), style_pen(style), TOLERANCE, given) && alike(
            dashes,
            given,
        )
}

/// Expands the dashes of a stroked outline into the outline of the dashes.
pub fn expand_dashes(commands: &[PathCommand], style: &StrokeStyle) -> (dashes: Vec<PathCommand>)
    requires
        dashable(commands@, style_pen(*style)),
    ensures
        expands_to(commands@, *style, dashes@),
        pruned(commands@).len() == 0 ==> dashes@.len() == 0,
{
    let kept: Vec<PathCommand> = prune(commands);
    proof {
        let dash = style.dash->0;
        lemma_pruned_are_among(commands@);
        assert(path_within(kept@, reach(dash)));
        assert(curved(kept@) ==> curved(commands@));
        lemma_within_is_finite(kept@, reach(dash));
    }
    let path: BezPath = to_bez_path(kept.as_slice());
    let stroke: Stroke = to_stroke(style);
    proof {
        lemma_alike_finite(bez_commands(path), kept@);
        lemma_pen_alike_finite(pen_of(stroke), style_pen(*style));
    }
    let expanded: BezPath = bez_dashes(&path, &stroke, TOLERANCE);
    from_bez_path(&expanded)
}


/// The dashes are those of the given outline and of exactly the style's own
/// width, cap, join and dash lengths, to a quarter of a unit: every number of
/// them is one that was given for these.
pub proof fn lemma_dashes_ask_for_their_own_pen(
    commands: Seq<PathCommand>,
    style: StrokeStyle,
    dashes: Seq<PathCommand>,
)
    requires
        expands_to(commands, style, dashes),
    ensures
        exists|pen: Pen, given: Seq<PathCommand>|
            {
                &&& #[trigger] dash_outcome(pruned(commands), pen, 0x3e80_0000, given)
                &&& pen.width == style.width
                &&& pen.cap == style.cap
                &&& pen.join == style.join
                &&& pen.dash == style.dash
                &&& dashes.len() == given.len()
                &&& finite_path(given) ==> dashes == given
            },
{
    let given = choose|given: Seq<PathCommand>|
        #[trigger] dash_outcome(pruned(commands), style_pen(style), TOLERANCE, given) && alike(
            dashes,
            given,
        );
    let pen = style_pen(style);
    assert(dash_outcome(pruned(commands), pen, 0x3e80_0000, given));
    if finite_path(given) {
        lemma_alike_finite(dashes, given);
    }
}

} // verus!
