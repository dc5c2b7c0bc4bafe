//! What each workload draws from the generator, and in which order.
//!
//! Draws between 0 and 1 are kept as whole numbers of `2^-24`.

use vstd::prelude::*;

use crate::bench::args::BenchConfig;
use crate::bench::rng::{
    advanced, fraction, lemma_draws_step_along_the_stream, picked, state_after, Rng,
};
use crate::path::{LineCap, LineJoin};

verus! {

/// Seed of the standard workload; every backend starts from it.
pub const STANDARD_SEED: u64 = 0xB3_59_1D;

/// Seed of the stroke workload.
pub const STROKE_SEED: u64 = 0x57_20_4B;

/// Seed of the clip workload.
pub const CLIP_SEED: u64 = 0xC_11B5;

/// Seed of the first gradient of the gradient palette.
pub const GRADIENT_SEED: u64 = 0x6AD_0000;

/// Colours of the palette.
pub const PALETTE_SIZE: u32 = 6;

/// Gradients of the gradient palette.
pub const GRADIENT_COUNT: u32 = 24;

/// Where an element lies in its cell or disc, and how large it is.
#[derive(Clone, Copy, Debug, PartialEq, Eq, Structural)]
pub struct Spot {
    pub first: u32,
    pub second: u32,
    pub size: u32,
}

/// The draws that animate an element.
#[derive(Clone, Copy, Debug, PartialEq, Eq, Structural)]
pub struct Motion {
    pub rotation: u32,
    pub phase: u32,
    pub speed: u32,
}

/// What an element is.
#[derive(Clone, Copy, Debug, PartialEq, Eq, Structural)]
pub enum Kind {
    /// A gauge arc with an animated sweep.
    Gauge,
    /// A filled disc, or a ring of some thickness.
    Disc { thickness: Option<u32> },
    /// A rectangle: filled or a frame, sharp or rounded.
    Rect { thickness: Option<u32>, corner: Option<u32>, aspect: u32 },
    /// A regular polygon, filled or hollow.
    Polygon { thickness: Option<u32>, sides: u32 },
    /// A line with round caps in some direction.
    Line { width: u32, dx: u32, dy: u32 },
}

/// One element of the standard workload.
#[derive(Clone, Copy, Debug, PartialEq, Eq, Structural)]
pub struct Element {
    pub spot: Spot,
    pub color: u32,
    pub gradient: Option<u32>,
    pub motion: Motion,
    pub kind: Kind,
}

pub open spec fn spot_of(state: u64) -> (Spot, u64) {
    let a = advanced(state);
    let b = advanced(a);
    let c = advanced(b);
    (Spot { first: fraction(a), second: fraction(b), size: fraction(c) }, c)
}

pub open spec fn motion_of(state: u64) -> (Motion, u64) {
    let a = advanced(state);
    let b = advanced(a);
    let c = advanced(b);
    (Motion { rotation: fraction(a), phase: fraction(b), speed: fraction(c) }, c)
}

/// A draw that is only made on a condition.
pub open spec fn maybe(state: u64, wanted: bool) -> (Option<u32>, u64) {
    if wanted {
        (Some(fraction(advanced(state))), advanced(state))
    } else {
        (None, state)
    }
}

/// Two in five elements are discs (half of them rings), a quarter rectangles,
/// fifteen in a hundred polygons with three to eight sides, the rest lines.
pub open spec fn kind_of(state: u64) -> (Kind, u64) {
    let s = advanced(state);
    let kind = picked(s, 100);
    if kind < 40 {
        let (thickness, s) = maybe(s, kind >= 20);
        (Kind::Disc { thickness }, s)
    } else if kind < 65 {
        let (thickness, s) = maybe(s, kind >= 55);
        let (corner, s) = maybe(s, kind % 2 == 0);
        let s = advanced(s);
        (Kind::Rect { thickness, corner, aspect: fraction(s) }, s)
    } else if kind < 80 {
        let (thickness, s) = maybe(s, kind >= 74);
        let s = advanced(s);
        (Kind::Polygon { thickness, sides: (3 + picked(s, 6)) as u32 }, s)
    } else {
        let a = advanced(s);
        let b = advanced(a);
        let c = advanced(b);
        (Kind::Line { width: fraction(a), dx: fraction(b), dy: fraction(c) }, c)
    }
}

/// The element that a state gives, and the state after it: place, colour,
/// gradient where asked for, motion, and what it is. A gauge takes no further
/// draws.
pub open spec fn element_of(state: u64, gauge: bool, gradients: bool) -> (Element, u64) {
    let (spot, s) = spot_of(state);
    let s = advanced(s);
    let color = picked(s, PALETTE_SIZE);
    let s2 = advanced(s);
    let gradient = if gradients {
        Some(picked(s2, GRADIENT_COUNT))
    } else {
        None
    };
    let (motion, s) = motion_of(
        if gradients {
            s2
        } else {
            s
        },
    );
    if gauge {
        (Element { spot, color, gradient, motion, kind: Kind::Gauge }, s)
    } else {
        let (kind, s) = kind_of(s);
        (Element { spot, color, gradient, motion, kind }, s)
    }
}

fn draw_spot(rng: &mut Rng) -> (spot: Spot)
    ensures
        (spot, final(rng).0) == spot_of(old(rng).0),
{
    let first: u32 = rng.steps();
    let second: u32 = rng.steps();
    let size: u32 = rng.steps();
    Spot { first, second, size }
}

fn draw_motion(rng: &mut Rng) -> (motion: Motion)
    ensures
        (motion, final(rng).0) == motion_of(old(rng).0),
{
    let rotation: u32 = rng.steps();
    let phase: u32 = rng.steps();
    let speed: u32 = rng.steps();
    Motion { rotation, phase, speed }
}

fn draw_maybe(rng: &mut Rng, wanted: bool) -> (draw: Option<u32>)
    ensures
        (draw, final(rng).0) == maybe(old(rng).0, wanted),
{
    if wanted {
        Some(rng.steps())
    } else {
        None
    }
}

fn draw_kind(rng: &mut Rng) -> (kind: Kind)
    ensures
        (kind, final(rng).0) == kind_of(old(rng).0),
{
    let choice: u32 = rng.pick(100);
    if choice < 40 {
        let thickness: Option<u32> = draw_maybe(rng, choice >= 20);
        Kind::Disc { thickness }
    } else if choice < 65 {
        let thickness: Option<u32> = draw_maybe(rng, choice >= 55);
        let corner: Option<u32> = draw_maybe(rng, choice % 2 == 0);
        let aspect: u32 = rng.steps();
        Kind::Rect { thickness, corner, aspect }
    } else if choice < 80 {
        let thickness: Option<u32> = draw_maybe(rng, choice >= 74);
        let sides: u32 = 3 + rng.pick(6);
        Kind::Polygon { thickness, sides }
    } else {
        let width: u32 = rng.steps();
        let dx: u32 = rng.steps();
        let dy: u32 = rng.steps();
        Kind::Line { width, dx, dy }
    }
}

/// Draws the next element of the standard workload.
pub fn draw_element(rng: &mut Rng, gauge: bool, gradients: bool) -> (element: Element)
    ensures
        (element, final(rng).0) == element_of(old(rng).0, gauge, gradients),
        element.color < PALETTE_SIZE,
        element.gradient matches Some(g) ==> g < GRADIENT_COUNT,
        element.kind matches Kind::Polygon { thickness, sides } ==> 3 <= sides <= 8,
{
    let spot: Spot = draw_spot(rng);
    let color: u32 = rng.pick(PALETTE_SIZE);
    let gradient: Option<u32> = if gradients {
        Some(rng.pick(GRADIENT_COUNT))
    } else {
        None
    };
    let motion: Motion = draw_motion(rng);
    let kind: Kind = if gauge {
        Kind::Gauge
    } else {
        draw_kind(rng)
    };
    Element { spot, color, gradient, motion, kind }
}

/// The elements that a state gives one after the other; the first `dynamic` of
/// them are gauges.
pub open spec fn elements_of(state: u64, n: nat, dynamic: u32, gradients: bool) -> (
    Seq<Element>,
    u64,
)
    decreases n,
{
    if n == 0 {
        (Seq::empty(), state)
    } else {
        let (earlier, s) = elements_of(state, (n - 1) as nat, dynamic, gradients);
        let (element, s) = element_of(s, n - 1 < dynamic, gradients);
        (earlier.push(element), s)
    }
}

/// Draws a whole standard workload.
pub fn draw_elements(n: u32, dynamic: u32, gradients: bool) -> (elements: Vec<Element>)
    ensures
        elements@ == elements_of(STANDARD_SEED, n as nat, dynamic, gradients).0,
        elements@.len() == n,
        forall|i: int|
            0 <= i < n ==> (#[trigger] elements@[i]).color < PALETTE_SIZE && (
            elements@[i].gradient matches Some(g) ==> g < GRADIENT_COUNT),
{
    let mut rng = Rng(STANDARD_SEED);
    let mut elements: Vec<Element> = Vec::new();
    let mut i: u32 = 0;
    while i < n
        invariant
            i <= n,
            elements@.len() == i,
            (elements@, rng.0) == elements_of(STANDARD_SEED, i as nat, dynamic, gradients),
            forall|k: int|
                0 <= k < i ==> (#[trigger] elements@[k]).color < PALETTE_SIZE && (
                elements@[k].gradient matches Some(g) ==> g < GRADIENT_COUNT),
        decreases n - i,
    {
        let element: Element = draw_element(&mut rng, i < dynamic, gradients);
        elements.push(element);
        i = i + 1;
    }
    elements
}

/// A workload does not depend on how long it is: a shorter one is the start of
/// a longer one, element by element. (Every backend draws the same workload;
/// only gradients take a draw more.)
pub proof fn lemma_workloads_agree(state: u64, n: nat, m: nat, dynamic: u32, gradients: bool)
    requires
        n <= m,
    ensures
        elements_of(state, m, dynamic, gradients).0.len() == m,
        elements_of(state, n, dynamic, gradients).0 == elements_of(
            state,
            m,
            dynamic,
            gradients,
        ).0.take(n as int),
    decreases m,
{
    if m > 0 {
        lemma_workloads_agree(
            state,
            if n < m {
                n
            } else {
                (m - 1) as nat
            },
            (m - 1) as nat,
            dynamic,
            gradients,
        );
        let whole = elements_of(state, m, dynamic, gradients).0;
        if n == m {
            assert(whole.take(n as int) =~= whole);
        } else {
            let earlier = elements_of(state, (m - 1) as nat, dynamic, gradients).0;
            assert(whole.take(n as int) =~= earlier.take(n as int));
        }
    } else {
        assert(elements_of(state, m, dynamic, gradients).0.take(0) =~= Seq::<Element>::empty());
    }
}

/// How an element gets its size: by the scale of its transform, or baked into
/// its outline.
#[derive(Clone, Copy, Debug, PartialEq, Eq, Structural)]
pub enum Sizing {
    Scaled,
    Baked,
}

/// An element as a set-up spawns it.
#[derive(Clone, Copy, Debug, PartialEq, Eq, Structural)]
pub struct Staged {
    pub element: Element,
    pub sizing: Sizing,
}

pub open spec fn staged(elements: Seq<Element>, sizing: Sizing) -> Seq<Staged> {
    elements.map_values(|element: Element| Staged { element, sizing })
}

/// What the control spawns: the standard workload, at unit size and scaled.
pub open spec fn control_of(config: BenchConfig) -> Seq<Staged> {
    staged(
        elements_of(STANDARD_SEED, config.elements as nat, config.dynamic, false).0,
        Sizing::Scaled,
    )
}

/// What the engine spawns: the standard workload at its size, unless clips or
/// strokes take its place.
pub open spec fn engine_of(config: BenchConfig) -> Seq<Staged> {
    if config.clips == 0 && config.strokes == 0 {
        staged(
            elements_of(
                STANDARD_SEED,
                config.elements as nat,
                config.dynamic,
                config.gradients,
            ).0,
            Sizing::Baked,
        )
    } else {
        Seq::empty()
    }
}

fn stage(elements: Vec<Element>, sizing: Sizing) -> (all: Vec<Staged>)
    ensures
        all@ == staged(elements@, sizing),
{
    let mut all: Vec<Staged> = Vec::with_capacity(elements.len());
    let mut i: usize = 0;
    while i < elements.len()
        invariant
            i <= elements@.len(),
            all@ == staged(elements@, sizing).take(i as int),
        decreases elements@.len() - i,
    {
        all.push(Staged { element: elements[i], sizing });
        assert(all@ =~= staged(elements@, sizing).take(i + 1));
        i = i + 1;
    }
    assert(all@ =~= staged(elements@, sizing));
    all
}

/// Plans what the control spawns.
pub fn stage_control(config: &BenchConfig) -> (all: Vec<Staged>)
    ensures
        all@ == control_of(*config),
{
    stage(draw_elements(config.elements, config.dynamic, false), Sizing::Scaled)
}

/// Plans what the engine spawns.
pub fn stage_engine(config: &BenchConfig) -> (all: Vec<Staged>)
    ensures
        all@ == engine_of(*config),
{
    if !config.draws_standard() {
        let none: Vec<Staged> = Vec::new();
        assert(none@ =~= engine_of(*config));
        return none;
    }
    stage(draw_elements(config.elements, config.dynamic, config.gradients), Sizing::Baked)
}

proof fn lemma_gauges_come_first(state: u64, n: nat, dynamic: u32, gradients: bool)
    ensures
        elements_of(state, n, dynamic, gradients).0.len() == n,
        forall|i: int|
            0 <= i < n ==> ((#[trigger] elements_of(state, n, dynamic, gradients).0[i]).kind is Gauge
                <==> i < dynamic),
    decreases n,
{
    if n > 0 {
        lemma_gauges_come_first(state, (n - 1) as nat, dynamic, gradients);
    }
}

/// Control and engine draw the same workload, element by element: place, motion,
/// colour and kind are the same draws, the first elements are gauges, and only
/// where the size goes differs. (Without gradients, which the control has not,
/// and without the workloads that take the standard one's place.)
pub proof fn lemma_set_ups_draw_the_same_workload(config: BenchConfig)
    requires
        !config.gradients,
        config.clips == 0,
        config.strokes == 0,
    ensures
        engine_of(config).len() == config.elements,
        control_of(config).len() == config.elements,
        forall|i: int|
            0 <= i < config.elements ==> {
                &&& (#[trigger] engine_of(config)[i]).element == control_of(config)[i].element
                &&& engine_of(config)[i].sizing == Sizing::Baked
                &&& control_of(config)[i].sizing == Sizing::Scaled
                &&& engine_of(config)[i].element.kind is Gauge <==> i < config.dynamic
            },
{
    lemma_gauges_come_first(STANDARD_SEED, config.elements as nat, config.dynamic, false);
}

/// Drawing gradients shifts the stream by one draw an element, and changes
/// nothing of the place and colour of the first.
pub proof fn lemma_gradients_keep_place_and_colour(state: u64, gauge: bool)
    ensures
        element_of(state, gauge, true).0.spot == element_of(state, gauge, false).0.spot,
        element_of(state, gauge, true).0.color == element_of(state, gauge, false).0.color,
{
}

/// One gradient of the gradient palette: three palette colours, the middle
/// one at a drawn offset.
#[derive(Clone, Copy, Debug, PartialEq, Eq, Structural)]
pub struct GradientPlan {
    pub first: u32,
    pub middle: u32,
    pub last: u32,
    pub offset: u32,
    /// Linear, or else radial.
    pub linear: bool,
}

pub open spec fn gradient_of(g: u32) -> GradientPlan {
    let a = advanced((GRADIENT_SEED + g) as u64);
    let b = advanced(a);
    let c = advanced(b);
    let d = advanced(c);
    GradientPlan {
        first: picked(a, PALETTE_SIZE),
        middle: picked(b, PALETTE_SIZE),
        last: picked(c, PALETTE_SIZE),
        offset: fraction(d),
        linear: g % 2 == 0,
    }
}

/// The gradient with a number; it depends on nothing else.
pub fn draw_gradient(g: u32) -> (plan: GradientPlan)
    ensures
        plan == gradient_of(g),
        plan.first < PALETTE_SIZE && plan.middle < PALETTE_SIZE && plan.last < PALETTE_SIZE,
{
    let mut rng = Rng(GRADIENT_SEED + g as u64);
    let first: u32 = rng.pick(PALETTE_SIZE);
    let middle: u32 = rng.pick(PALETTE_SIZE);
    let last: u32 = rng.pick(PALETTE_SIZE);
    let offset: u32 = rng.steps();
    GradientPlan { first, middle, last, offset, linear: g % 2 == 0 }
}

/// One stroked path.
#[derive(Clone, Copy, Debug, PartialEq, Eq, Structural)]
pub struct StrokePlan {
    pub spot: Spot,
    pub color: u32,
    pub motion: Motion,
    pub width: u32,
    pub join: LineJoin,
    pub cap: LineCap,
    pub dashed: bool,
    /// A circle, or else a wavy polyline.
    pub circle: bool,
}

/// Joins cycle with every path, caps with every third; every other path is
/// dashed, every fifth a circle.
pub open spec fn stroke_of(state: u64, i: u32) -> (StrokePlan, u64) {
    let (spot, s) = spot_of(state);
    let s = advanced(s);
    let color = picked(s, PALETTE_SIZE);
    let (motion, s) = motion_of(s);
    let s = advanced(s);
    (
        StrokePlan {
            spot,
            color,
            motion,
            width: fraction(s),
            join: if i % 3 == 0 {
                LineJoin::Miter
            } else if i % 3 == 1 {
                LineJoin::Round
            } else {
                LineJoin::Bevel
            },
            cap: if i / 3 % 3 == 0 {
                LineCap::Butt
            } else if i / 3 % 3 == 1 {
                LineCap::Round
            } else {
                LineCap::Square
            },
            dashed: i % 2 == 0,
            circle: i % 5 == 4,
        },
        s,
    )
}

/// Draws the next stroked path.
pub fn draw_stroke(rng: &mut Rng, i: u32) -> (plan: StrokePlan)
    ensures
        (plan, final(rng).0) == stroke_of(old(rng).0, i),
        plan.color < PALETTE_SIZE,
{
    let spot: Spot = draw_spot(rng);
    let color: u32 = rng.pick(PALETTE_SIZE);
    let motion: Motion = draw_motion(rng);
    let width: u32 = rng.steps();
    let join: LineJoin = if i % 3 == 0 {
        LineJoin::Miter
    } else if i % 3 == 1 {
        LineJoin::Round
    } else {
        LineJoin::Bevel
    };
    let cap: LineCap = if (i / 3) % 3 == 0 {
        LineCap::Butt
    } else if (i / 3) % 3 == 1 {
        LineCap::Round
    } else {
        LineCap::Square
    };
    StrokePlan { spot, color, motion, width, join, cap, dashed: i % 2 == 0, circle: i % 5 == 4 }
}

pub open spec fn strokes_of(state: u64, n: nat) -> (Seq<StrokePlan>, u64)
    decreases n,
{
    if n == 0 {
        (Seq::empty(), state)
    } else {
        let (earlier, s) = strokes_of(state, (n - 1) as nat);
        let (plan, s) = stroke_of(s, (n - 1) as u32);
        (earlier.push(plan), s)
    }
}

/// Draws a whole stroke workload.
pub fn draw_strokes(n: u32) -> (plans: Vec<StrokePlan>)
    ensures
        plans@ == strokes_of(STROKE_SEED, n as nat).0,
        plans@.len() == n,
        forall|i: int| 0 <= i < n ==> (#[trigger] plans@[i]).color < PALETTE_SIZE,
{
    let mut rng = Rng(STROKE_SEED);
    let mut plans: Vec<StrokePlan> = Vec::new();
    let mut i: u32 = 0;
    while i < n
        invariant
            i <= n,
            plans@.len() == i,
            (plans@, rng.0) == strokes_of(STROKE_SEED, i as nat),
            forall|k: int| 0 <= k < i ==> (#[trigger] plans@[k]).color < PALETTE_SIZE,
        decreases n - i,
    {
        let plan: StrokePlan = draw_stroke(&mut rng, i);
        plans.push(plan);
        i = i + 1;
    }
    plans
}

/// One sprite of the reference workload.
#[derive(Clone, Copy, Debug, PartialEq, Eq, Structural)]
pub struct SpritePlan {
    pub spot: Spot,
    pub color: u32,
    pub motion: Motion,
}

pub open spec fn sprite_of(state: u64) -> (SpritePlan, u64) {
    let (spot, s) = spot_of(state);
    let s = advanced(s);
    let color = picked(s, PALETTE_SIZE);
    let (motion, s) = motion_of(s);
    (SpritePlan { spot, color, motion }, s)
}

pub open spec fn sprites_of(state: u64, n: nat) -> (Seq<SpritePlan>, u64)
    decreases n,
{
    if n == 0 {
        (Seq::empty(), state)
    } else {
        let (earlier, s) = sprites_of(state, (n - 1) as nat);
        let (plan, s) = sprite_of(s);
        (earlier.push(plan), s)
    }
}

/// Draws a whole reference workload.
pub fn draw_sprites(n: u32) -> (plans: Vec<SpritePlan>)
    ensures
        plans@ == sprites_of(STANDARD_SEED, n as nat).0,
        plans@.len() == n,
        forall|i: int| 0 <= i < n ==> (#[trigger] plans@[i]).color < PALETTE_SIZE,
{
    let mut rng = Rng(STANDARD_SEED);
    let mut plans: Vec<SpritePlan> = Vec::new();
    let mut i: u32 = 0;
    while i < n
        invariant
            i <= n,
            plans@.len() == i,
            (plans@, rng.0) == sprites_of(STANDARD_SEED, i as nat),
            forall|k: int| 0 <= k < i ==> (#[trigger] plans@[k]).color < PALETTE_SIZE,
        decreases n - i,
    {
        let spot: Spot = draw_spot(&mut rng);
        let color: u32 = rng.pick(PALETTE_SIZE);
        let motion: Motion = draw_motion(&mut rng);
        plans.push(SpritePlan { spot, color, motion });
        i = i + 1;
    }
    plans
}

/// What a clipped element is.
#[derive(Clone, Copy, Debug, PartialEq, Eq, Structural)]
pub enum ClippedKind {
    Circle,
    RoundedRect,
    Polygon { sides: u32 },
}

/// One element of the clip workload.
#[derive(Clone, Copy, Debug, PartialEq, Eq, Structural)]
pub struct ClippedPlan {
    pub panel: u32,
    pub spot: Spot,
    pub color: u32,
    pub motion: Motion,
    pub kind: ClippedKind,
}

/// Elements go to the panels in turn.
pub open spec fn clipped_of(state: u64, j: u32, panels: u32) -> (ClippedPlan, u64) {
    let (spot, s) = spot_of(state);
    let s = advanced(s);
    let color = picked(s, PALETTE_SIZE);
    let (motion, s) = motion_of(s);
    let s = advanced(s);
    let choice = picked(s, 3);
    let after = advanced(s);
    let kind = if choice == 0 {
        ClippedKind::Circle
    } else if choice == 1 {
        ClippedKind::RoundedRect
    } else {
        ClippedKind::Polygon { sides: (3 + picked(after, 6)) as u32 }
    };
    (
        ClippedPlan { panel: j % panels, spot, color, motion, kind },
        if choice < 2 {
            s
        } else {
            after
        },
    )
}

/// Draws the next element of the clip workload.
pub fn draw_clipped(rng: &mut Rng, j: u32, panels: u32) -> (plan: ClippedPlan)
    requires
        panels > 0,
    ensures
        (plan, final(rng).0) == clipped_of(old(rng).0, j, panels),
        plan.panel < panels,
        plan.color < PALETTE_SIZE,
{
    let spot: Spot = draw_spot(rng);
    let color: u32 = rng.pick(PALETTE_SIZE);
    let motion: Motion = draw_motion(rng);
    let choice: u32 = rng.pick(3);
    let kind: ClippedKind = if choice == 0 {
        ClippedKind::Circle
    } else if choice == 1 {
        ClippedKind::RoundedRect
    } else {
        ClippedKind::Polygon { sides: 3 + rng.pick(6) }
    };
    ClippedPlan { panel: j % panels, spot, color, motion, kind }
}

pub open spec fn clipped_all(state: u64, n: nat, panels: u32) -> (Seq<ClippedPlan>, u64)
    decreases n,
{
    if n == 0 {
        (Seq::empty(), state)
    } else {
        let (earlier, s) = clipped_all(state, (n - 1) as nat, panels);
        let (plan, s) = clipped_of(s, (n - 1) as u32, panels);
        (earlier.push(plan), s)
    }
}

/// Draws a whole clip workload.
pub fn draw_clipped_elements(n: u32, panels: u32) -> (plans: Vec<ClippedPlan>)
    requires
        panels > 0,
    ensures
        plans@ == clipped_all(CLIP_SEED, n as nat, panels).0,
        plans@.len() == n,
        forall|i: int|
            0 <= i < n ==> (#[trigger] plans@[i]).panel == i % (panels as int) && plans@[i].color
                < PALETTE_SIZE,
{
    let mut rng = Rng(CLIP_SEED);
    let mut plans: Vec<ClippedPlan> = Vec::new();
    let mut i: u32 = 0;
    while i < n
        invariant
            panels > 0,
            i <= n,
            plans@.len() == i,
            (plans@, rng.0) == clipped_all(CLIP_SEED, i as nat, panels),
            forall|k: int|
                0 <= k < i ==> (#[trigger] plans@[k]).panel == k % (panels as int)
                    && plans@[k].color < PALETTE_SIZE,
        decreases n - i,
    {
        let plan: ClippedPlan = draw_clipped(&mut rng, i, panels);
        plans.push(plan);
        i = i + 1;
    }
    plans
}

/// A cell of a grid that is filled row by row.
#[derive(Clone, Copy, Debug, PartialEq, Eq, Structural)]
pub struct Cell {
    pub column: u32,
    pub row: u32,
    pub rows: u32,
}

/// The cell of an element in a grid of `columns` columns with just enough
/// rows.
pub fn grid_cell(i: u32, total: u32, columns: u32) -> (cell: Cell)
    requires
        columns > 0,
    ensures
        cell.column == i % columns,
        cell.row == i / columns,
        cell.rows == (total + columns - 1) / (columns as int),
{
    let whole: u32 = total / columns;
    proof {
        vstd::arithmetic::div_mod::lemma_fundamental_div_mod(total as int, columns as int);
        assert(total % columns != 0 ==> whole < total) by (nonlinear_arith)
            requires
                total as int == columns as int * (whole as int) + (total % columns) as int,
                columns > 0,
                0 <= total % columns,
        ;
    }
    let rows: u32 = if total % columns == 0 {
        whole
    } else {
        whole + 1
    };
    proof {
        let (t, c) = (total as int, columns as int);
        vstd::arithmetic::div_mod::lemma_fundamental_div_mod(t, c);
        let (q, r) = (t / c, t % c);
        if r == 0 {
            assert(t + c - 1 == q * c + (c - 1)) by (nonlinear_arith)
                requires
                    t == c * q + r,
                    r == 0,
            ;
            vstd::arithmetic::div_mod::lemma_fundamental_div_mod_converse(t + c - 1, c, q, c - 1);
        } else {
            assert(t + c - 1 == (q + 1) * c + (r - 1)) by (nonlinear_arith)
                requires
                    t == c * q + r,
            ;
            vstd::arithmetic::div_mod::lemma_fundamental_div_mod_converse(
                t + c - 1,
                c,
                q + 1,
                r - 1,
            );
        }
    }
    Cell { column: i % columns, row: i / columns, rows }
}

/// Every element has a cell of its own, inside the grid.
pub proof fn lemma_cells_are_distinct(i: u32, j: u32, total: u32, columns: u32)
    requires
        columns > 0,
        i < total,
        j < total,
    ensures
        i % columns < columns,
        i / columns < (total + columns - 1) / (columns as int),
        i % columns == j % columns && i / columns == j / columns ==> i == j,
{
    let (a, b, t, c) = (i as int, j as int, total as int, columns as int);
    vstd::arithmetic::div_mod::lemma_fundamental_div_mod(a, c);
    vstd::arithmetic::div_mod::lemma_fundamental_div_mod(b, c);
    vstd::arithmetic::div_mod::lemma_fundamental_div_mod(t + c - 1, c);
    let (q, r) = (a / c, a % c);
    let (w, v) = ((t + c - 1) / c, (t + c - 1) % c);
    assert(q < w) by (nonlinear_arith)
        requires
            a == c * q + r,
            t + c - 1 == c * w + v,
            0 <= r < c,
            0 <= v < c,
            a < t,
            c > 0,
    ;
}


/// The draw with this number, counted from a state, between 0 and 1.
pub open spec fn unit_draw(state: u64, k: nat) -> u32 {
    fraction(state_after(state, k))
}

/// The draw with this number, counted from a state, below `n`.
pub open spec fn pick_draw(state: u64, k: nat, n: u32) -> u32 {
    picked(state_after(state, k), n)
}

/// Place, size, colour and motion of whatever is drawn from a state come first;
/// `shift` draws lie between colour and motion.
pub open spec fn drawn_looks(
    state: u64,
    spot: Spot,
    color: u32,
    motion: Motion,
    shift: nat,
) -> bool {
    &&& spot.first == unit_draw(state, 1)
    &&& spot.second == unit_draw(state, 2)
    &&& spot.size == unit_draw(state, 3)
    &&& color == pick_draw(state, 4, 6)
    &&& motion.rotation == unit_draw(state, 5 + shift)
    &&& motion.phase == unit_draw(state, 6 + shift)
    &&& motion.speed == unit_draw(state, 7 + shift)
}

proof fn lemma_steps(state: u64)
    ensures
        advanced(state) == state_after(state, 1),
        advanced(state_after(state, 1)) == state_after(state, 2),
        advanced(state_after(state, 2)) == state_after(state, 3),
        advanced(state_after(state, 3)) == state_after(state, 4),
        advanced(state_after(state, 4)) == state_after(state, 5),
        advanced(state_after(state, 5)) == state_after(state, 6),
        advanced(state_after(state, 6)) == state_after(state, 7),
        advanced(state_after(state, 7)) == state_after(state, 8),
        advanced(state_after(state, 8)) == state_after(state, 9),
{
    lemma_draws_step_along_the_stream(state, 0);
    lemma_draws_step_along_the_stream(state, 1);
    lemma_draws_step_along_the_stream(state, 2);
    lemma_draws_step_along_the_stream(state, 3);
    lemma_draws_step_along_the_stream(state, 4);
    lemma_draws_step_along_the_stream(state, 5);
    lemma_draws_step_along_the_stream(state, 6);
    lemma_draws_step_along_the_stream(state, 7);
    lemma_draws_step_along_the_stream(state, 8);
}

/// A sprite takes seven draws: place, size, colour and motion.
pub proof fn lemma_sprites_take_seven_draws(state: u64)
    ensures
        drawn_looks(
            state,
            sprite_of(state).0.spot,
            sprite_of(state).0.color,
            sprite_of(state).0.motion,
            0,
        ),
        sprite_of(state).1 == state_after(state, 7),
{
    lemma_steps(state);
}

proof fn lemma_threes_in_nine(i: u32)
    ensures
        i / 3 % 3 == 0 <==> i % 9 < 3,
        i / 3 % 3 == 1 <==> 3 <= i % 9 < 6,
{
}

/// A stroked path takes eight draws, the last of them its width. Joins change
/// with every path and caps with every third, each in a round of three; every
/// other path is dashed and every fifth one a circle.
pub proof fn lemma_strokes_take_eight_draws(state: u64, i: u32)
    ensures
        ({
            let (plan, after) = stroke_of(state, i);
            &&& drawn_looks(state, plan.spot, plan.color, plan.motion, 0)
            &&& plan.width == unit_draw(state, 8)
            &&& after == state_after(state, 8)
            &&& plan.join is Miter <==> i % 3 == 0
            &&& plan.join is Round <==> i % 3 == 1
            &&& plan.join is Bevel <==> i % 3 == 2
            &&& plan.cap is Butt <==> i % 9 < 3
            &&& plan.cap is Round <==> 3 <= i % 9 < 6
            &&& plan.cap is Square <==> 6 <= i % 9
            &&& plan.dashed <==> i % 2 == 0
            &&& plan.circle <==> i % 5 == 4
        }),
{
    lemma_steps(state);
    lemma_threes_in_nine(i);
}

/// A clipped element takes eight draws, the last of them for what it is, and a
/// polygon one more for its sides. Elements go to the panels in turn.
pub proof fn lemma_clipped_elements_take_eight_draws_or_nine(state: u64, j: u32, panels: u32)
    requires
        panels > 0,
    ensures
        ({
            let (plan, after) = clipped_of(state, j, panels);
            &&& plan.panel as int == j as int % panels as int
            &&& drawn_looks(state, plan.spot, plan.color, plan.motion, 0)
            &&& match pick_draw(state, 8, 3) {
                0 => plan.kind is Circle && after == state_after(state, 8),
                1 => plan.kind is RoundedRect && after == state_after(state, 8),
                _ => plan.kind matches ClippedKind::Polygon { sides } && sides == 3 + pick_draw(
                    state,
                    9,
                    6,
                ) && after == state_after(state, 9),
            }
        }),
{
    lemma_steps(state);
    let six = picked(state_after(state, 9), 6);
    assert(six < 6);
    let three = picked(state_after(state, 8), 3);
    assert(three < 3);
}

/// What an element is and how many draws that takes, from a choice below a
/// hundred: forty are discs, the upper half of them rings; twenty-five are
/// rectangles, the upper ten frames and the even ones rounded; fifteen are
/// polygons, the upper six hollow; twenty are lines.
pub open spec fn drawn_kind(state: u64, kind: Kind, after: u64) -> bool {
    let c = pick_draw(state, 1, 100);
    match kind {
        Kind::Gauge => false,
        Kind::Disc { thickness } => {
            &&& c < 40
            &&& thickness == (if c >= 20 { Some(unit_draw(state, 2)) } else { None })
            &&& after == state_after(state, if c >= 20 { 2 } else { 1 })
        },
        Kind::Rect { thickness, corner, aspect } => {
            let thick: nat = if c >= 55 { 1 } else { 0 };
            let round: nat = if c % 2 == 0 { 1 } else { 0 };
            &&& 40 <= c < 65
            &&& thickness == (if c >= 55 { Some(unit_draw(state, 2)) } else { None })
            &&& corner == (if c % 2 == 0 { Some(unit_draw(state, 2 + thick)) } else { None })
            &&& aspect == unit_draw(state, 2 + thick + round)
            &&& after == state_after(state, 2 + thick + round)
        },
        Kind::Polygon { thickness, sides } => {
            let thick: nat = if c >= 74 { 1 } else { 0 };
            &&& 65 <= c < 80
            &&& thickness == (if c >= 74 { Some(unit_draw(state, 2)) } else { None })
            &&& sides == 3 + pick_draw(state, 2 + thick, 6)
            &&& after == state_after(state, 2 + thick)
        },
        Kind::Line { width, dx, dy } => {
            &&& 80 <= c < 100
            &&& width == unit_draw(state, 2)
            &&& dx == unit_draw(state, 3)
            &&& dy == unit_draw(state, 4)
            &&& after == state_after(state, 4)
        },
    }
}

proof fn lemma_kind_is_drawn(state: u64)
    ensures
        drawn_kind(state, kind_of(state).0, kind_of(state).1),
{
    lemma_steps(state);
    assert(picked(state_after(state, 1), 100) < 100);
    assert(picked(state_after(state, 2), 6) < 6);
    assert(picked(state_after(state, 3), 6) < 6);
}

/// An element takes seven draws for place, size, colour and motion, and one more
/// where it has a gradient, drawn behind the colour. What it is comes of the
/// draws behind these, where it is not a gauge.
pub proof fn lemma_elements_are_drawn_in_order(state: u64, gauge: bool, gradients: bool)
    ensures
        ({
            let (element, after) = element_of(state, gauge, gradients);
            let shift: nat = if gradients { 1 } else { 0 };
            &&& drawn_looks(state, element.spot, element.color, element.motion, shift)
            &&& element.gradient == (if gradients { Some(pick_draw(state, 5, 24)) } else { None })
            &&& element.kind is Gauge <==> gauge
            &&& gauge ==> after == state_after(state, 7 + shift)
            &&& !gauge ==> drawn_kind(state_after(state, 7 + shift), element.kind, after)
        }),
{
    lemma_steps(state);
    lemma_kind_is_drawn(state_after(state, if gradients { 8 } else { 7 }));
}

/// A gradient takes four draws from a seed of its own: three colours and the
/// offset of the middle one. Every other gradient is linear.
pub proof fn lemma_gradients_have_seeds_of_their_own(g: u32)
    ensures
        ({
            let seed = (0x6AD_0000 + g) as u64;
            let plan = gradient_of(g);
            &&& plan.first == pick_draw(seed, 1, 6)
            &&& plan.middle == pick_draw(seed, 2, 6)
            &&& plan.last == pick_draw(seed, 3, 6)
            &&& plan.offset == unit_draw(seed, 4)
            &&& plan.linear <==> g % 2 == 0
        }),
{
    let seed = (GRADIENT_SEED + g) as u64;
    lemma_steps(seed);
}

/// Each element is drawn from the state that the one before it left.
pub open spec fn elements_chained(
    all: Seq<Element>,
    states: Seq<u64>,
    seed: u64,
    dynamic: u32,
    gradients: bool,
) -> bool {
    &&& states.len() == all.len() + 1
    &&& states[0] == seed
    &&& forall|i: int, j: int|
        0 <= i < all.len() && j == i + 1 ==> (all[i], #[trigger] states[j]) == element_of(
            #[trigger] states[i],
            i < dynamic,
            gradients,
        )
}

/// Each stroked path is drawn from the state that the one before it left.
pub open spec fn strokes_chained(all: Seq<StrokePlan>, states: Seq<u64>, seed: u64) -> bool {
    &&& states.len() == all.len() + 1
    &&& states[0] == seed
    &&& forall|i: int, j: int|
        0 <= i < all.len() && j == i + 1 ==> (all[i], #[trigger] states[j]) == stroke_of(
            #[trigger] states[i],
            i as u32,
        )
}

/// Each sprite is drawn from the state that the one before it left.
pub open spec fn sprites_chained(all: Seq<SpritePlan>, states: Seq<u64>, seed: u64) -> bool {
    &&& states.len() == all.len() + 1
    &&& states[0] == seed
    &&& forall|i: int, j: int|
        0 <= i < all.len() && j == i + 1 ==> (all[i], #[trigger] states[j]) == sprite_of(
            #[trigger] states[i],
        )
}

/// Each clipped element is drawn from the state that the one before it left.
pub open spec fn clipped_chained(all: Seq<ClippedPlan>, states: Seq<u64>, seed: u64, panels: u32) -> bool {
    &&& states.len() == all.len() + 1
    &&& states[0] == seed
    &&& forall|i: int, j: int|
        0 <= i < all.len() && j == i + 1 ==> (all[i], #[trigger] states[j]) == clipped_of(
            #[trigger] states[i],
            i as u32,
            panels,
        )
}

proof fn lemma_elements_are_chained(state: u64, n: nat, dynamic: u32, gradients: bool) -> (states:
    Seq<u64>)
    ensures
        elements_chained(elements_of(state, n, dynamic, gradients).0, states, state, dynamic, gradients),
        elements_of(state, n, dynamic, gradients).0.len() == n,
        states.last() == elements_of(state, n, dynamic, gradients).1,
    decreases n,
{
    if n == 0 {
        seq![state]
    } else {
        let earlier = lemma_elements_are_chained(state, (n - 1) as nat, dynamic, gradients);
        earlier.push(elements_of(state, n, dynamic, gradients).1)
    }
}

proof fn lemma_strokes_are_chained(state: u64, n: nat) -> (states: Seq<u64>)
    ensures
        strokes_chained(strokes_of(state, n).0, states, state),
        strokes_of(state, n).0.len() == n,
        states.last() == strokes_of(state, n).1,
    decreases n,
{
    if n == 0 {
        seq![state]
    } else {
        let earlier = lemma_strokes_are_chained(state, (n - 1) as nat);
        earlier.push(strokes_of(state, n).1)
    }
}

proof fn lemma_sprites_are_chained(state: u64, n: nat) -> (states: Seq<u64>)
    ensures
        sprites_chained(sprites_of(state, n).0, states, state),
        sprites_of(state, n).0.len() == n,
        states.last() == sprites_of(state, n).1,
    decreases n,
{
    if n == 0 {
        seq![state]
    } else {
        let earlier = lemma_sprites_are_chained(state, (n - 1) as nat);
        earlier.push(sprites_of(state, n).1)
    }
}

proof fn lemma_clipped_are_chained(state: u64, n: nat, panels: u32) -> (states: Seq<u64>)
    ensures
        clipped_chained(clipped_all(state, n, panels).0, states, state, panels),
        clipped_all(state, n, panels).0.len() == n,
        states.last() == clipped_all(state, n, panels).1,
    decreases n,
{
    if n == 0 {
        seq![state]
    } else {
        let earlier = lemma_clipped_are_chained(state, (n - 1) as nat, panels);
        earlier.push(clipped_all(state, n, panels).1)
    }
}

/// Every workload is drawn from one stream without gaps: each member starts where
/// the one before it stopped, and the first one at the seed.
pub proof fn lemma_workloads_are_drawn_without_gaps(
    state: u64,
    n: nat,
    dynamic: u32,
    gradients: bool,
    panels: u32,
)
    ensures
        exists|states: Seq<u64>| #[trigger]
            elements_chained(elements_of(state, n, dynamic, gradients).0, states, state, dynamic, gradients),
        exists|states: Seq<u64>| #[trigger]
            strokes_chained(strokes_of(state, n).0, states, state),
        exists|states: Seq<u64>| #[trigger]
            sprites_chained(sprites_of(state, n).0, states, state),
        exists|states: Seq<u64>| #[trigger]
            clipped_chained(clipped_all(state, n, panels).0, states, state, panels),
        elements_of(state, n, dynamic, gradients).0.len() == n,
        strokes_of(state, n).0.len() == n,
        sprites_of(state, n).0.len() == n,
        clipped_all(state, n, panels).0.len() == n,
{
    let a = lemma_elements_are_chained(state, n, dynamic, gradients);
    let b = lemma_strokes_are_chained(state, n);
    let c = lemma_sprites_are_chained(state, n);
    let d = lemma_clipped_are_chained(state, n, panels);
}

/// The engine stages the standard workload at its size, and nothing where clips
/// or strokes take its place; the control stages it to be scaled, without
/// gradients. Both draw it from the standard seed.
pub proof fn lemma_set_ups_stage_the_standard_workload(config: BenchConfig)
    ensures
        config.clips > 0 || config.strokes > 0 ==> engine_of(config).len() == 0,
        config.clips == 0 && config.strokes == 0 ==> {
            &&& engine_of(config).len() == config.elements
            &&& forall|i: int|
                0 <= i < config.elements ==> {
                    &&& (#[trigger] engine_of(config)[i]).sizing is Baked
                    &&& engine_of(config)[i].element == elements_of(
                        0xB3_59_1D,
                        config.elements as nat,
                        config.dynamic,
                        config.gradients,
                    ).0[i]
                }
        },
        control_of(config).len() == config.elements,
        forall|i: int|
            0 <= i < config.elements ==> {
                &&& (#[trigger] control_of(config)[i]).sizing is Scaled
                &&& control_of(config)[i].element == elements_of(
                    0xB3_59_1D,
                    config.elements as nat,
                    config.dynamic,
                    false,
                ).0[i]
            },
{
    lemma_gauges_come_first(
        STANDARD_SEED,
        config.elements as nat,
        config.dynamic,
        config.gradients,
    );
    lemma_gauges_come_first(STANDARD_SEED, config.elements as nat, config.dynamic, false);
}


/// The workloads start from seeds of their own.
pub proof fn lemma_workloads_have_seeds_of_their_own()
    ensures
        STANDARD_SEED == 0xB3_59_1D,
        STROKE_SEED == 0x57_20_4B,
        CLIP_SEED == 0xC_11B5,
        GRADIENT_SEED == 0x6AD_0000,
{
}

} // verus!
