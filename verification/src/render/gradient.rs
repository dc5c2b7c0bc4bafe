//! The gradient atlas: each distinct list of stops gets one row of texels,
//! and instances refer to rows by number.

use std::hash::{DefaultHasher, Hasher};

use vstd::prelude::*;

use crate::hashing::{digest, lemma_writes_identify, word_write, write_word};
use crate::keyed::KeyedStore;
use crate::order::{
    before, lemma_ordered_is_rearranged, lemma_ordered_members, lemma_whole_order, ordered,
    rearranged, sort_items, whole_order, Rank,
};
use crate::path::{Brush, GradientStop, LinearRgba};
use crate::scalar::{lemma_denotes_one_number, lemma_denotes_zero, Scalar};

verus! {

/// Texels in a gradient row.
pub const GRADIENT_ATLAS_SIZE: u32 = 256;

/// Number of gradient rows in the atlas.
pub const GRADIENT_ATLAS_ROWS: u32 = 1024;

/// What one stop contributes to the key of its list.
pub open spec fn stop_write(stop: GradientStop) -> Seq<Seq<u8>> {
    seq![
        word_write(stop.offset.bits),
        word_write(stop.color.red.bits),
        word_write(stop.color.green.bits),
        word_write(stop.color.blue.bits),
        word_write(stop.color.alpha.bits),
    ]
}

pub open spec fn stop_writes(stops: Seq<GradientStop>) -> Seq<Seq<u8>>
    decreases stops.len(),
{
    if stops.len() == 0 {
        Seq::empty()
    } else {
        stop_writes(stops.drop_last()) + stop_write(stops.last())
    }
}

/// The key of a list of stops.
pub open spec fn stops_key(stops: Seq<GradientStop>) -> u64 {
    digest(stop_writes(stops))
}

fn hash_stops(stops: &Vec<GradientStop>) -> (key: u64)
    ensures
        key == stops_key(stops@),
{
    let mut hasher: DefaultHasher = DefaultHasher::new();
    let mut i: usize = 0;
    assert(hasher@ =~= stop_writes(stops@.take(0)));
    while i < stops.len()
        invariant
            i <= stops@.len(),
            hasher@ == stop_writes(stops@.take(i as int)),
        decreases stops@.len() - i,
    {
        let stop: GradientStop = stops[i];
        let ghost before = hasher@;
        write_word(&mut hasher, stop.offset.bits);
        write_word(&mut hasher, stop.color.red.bits);
        write_word(&mut hasher, stop.color.green.bits);
        write_word(&mut hasher, stop.color.blue.bits);
        write_word(&mut hasher, stop.color.alpha.bits);
        proof {
            assert(hasher@ =~= before + stop_write(stop));
            assert(stops@.take(i + 1).drop_last() =~= stops@.take(i as int));
        }
        i = i + 1;
    }
    assert(stops@.take(stops@.len() as int) =~= stops@);
    hasher.finish()
}

/// Stops go by offset.
pub open spec fn stop_ranks(stops: Seq<GradientStop>) -> Seq<Rank> {
    Seq::new(
        stops.len(),
        |i: int|
            Rank {
                first: stops[i].offset.total() as u64,
                second: 0,
                third: 0,
                fourth: 0,
                fifth: 0,
            },
    )
}

/// The stops by offset; stops at one offset keep their order.
pub open spec fn stops_sorted(stops: Seq<GradientStop>) -> Seq<GradientStop> {
    ordered(stops, stop_ranks(stops))
}

fn sort_stops(stops: &Vec<GradientStop>) -> (sorted: Vec<GradientStop>)
    ensures
        sorted@ == stops_sorted(stops@),
        sorted@.len() == stops@.len(),
{
    let mut ranks: Vec<Rank> = Vec::with_capacity(stops.len());
    let mut i: usize = 0;
    while i < stops.len()
        invariant
            i <= stops@.len(),
            ranks@ == stop_ranks(stops@).take(i as int),
        decreases stops@.len() - i,
    {
        ranks.push(
            Rank {
                first: stops[i].offset.total_key() as u64,
                second: 0,
                third: 0,
                fourth: 0,
                fifth: 0,
            },
        );
        assert(ranks@ =~= stop_ranks(stops@).take(i + 1));
        i = i + 1;
    }
    assert(ranks@ =~= stop_ranks(stops@));
    sort_items(stops, &ranks)
}

/// Which colour a gradient has at a place.
#[derive(Clone, Copy, Debug, PartialEq, Eq, Structural)]
pub enum StopSample {
    /// Exactly this colour.
    Exact(LinearRgba),
    /// Between the stop at this position and the next, by how far the place
    /// lies from the one to the other.
    Between(usize),
}

/// The first position from `from` on whose next stop is not before `t`.
pub open spec fn bracket(sorted: Seq<GradientStop>, t: Scalar, from: int) -> Option<int>
    decreases sorted.len() - from,
{
    if from < 0 || from + 1 >= sorted.len() {
        None
    } else if t.le(sorted[from + 1].offset) {
        Some(from)
    } else {
        bracket(sorted, t, from + 1)
    }
}

/// White without stops; the only stop's colour with one; the first stop's
/// colour up to it, the last stop's colour behind it, and between them the
/// first pair of neighbours that reaches the place.
pub open spec fn sampled(sorted: Seq<GradientStop>, t: Scalar) -> StopSample {
    if sorted.len() == 0 {
        StopSample::Exact(LinearRgba::spec_white())
    } else if sorted.len() == 1 || t.le(sorted[0].offset) {
        StopSample::Exact(sorted[0].color)
    } else {
        match bracket(sorted, t, 0) {
            Some(i) => StopSample::Between(i as usize),
            None => StopSample::Exact(sorted.last().color),
        }
    }
}

/// Finds the stops that give a gradient its colour at `t`.
pub fn sample_stops(sorted: &Vec<GradientStop>, t: Scalar) -> (sample: StopSample)
    ensures
        sample == sampled(sorted@, t),
        sample matches StopSample::Between(i) ==> i + 1 < sorted@.len(),
{
    if sorted.len() == 0 {
        return StopSample::Exact(LinearRgba::white());
    }
    if sorted.len() == 1 || t.at_most(&sorted[0].offset) {
        return StopSample::Exact(sorted[0].color);
    }
    let mut i: usize = 0;
    while i < sorted.len() - 1
        invariant
            sorted@.len() >= 2,
            i < sorted@.len(),
            !t.le(sorted@[0].offset),
            bracket(sorted@, t, 0) == bracket(sorted@, t, i as int),
        decreases sorted@.len() - i,
    {
        if t.at_most(&sorted[i + 1].offset) {
            return StopSample::Between(i);
        }
        i = i + 1;
    }
    StopSample::Exact(sorted[sorted.len() - 1].color)
}

/// A row that is waiting to be baked and uploaded, with its stops by offset.
pub struct PendingRow {
    pub row: u32,
    pub stops: Vec<GradientStop>,
}

impl View for PendingRow {
    type V = (u32, Seq<GradientStop>);

    open spec fn view(&self) -> (u32, Seq<GradientStop>) {
        (self.row, self.stops@)
    }
}

/// Rows by key of their stops, and the rows not yet uploaded.
pub struct GradientAtlas {
    pub rows: KeyedStore<u32>,
    pub next_row: u32,
    pub pending: Vec<PendingRow>,
}

/// The contents of an atlas.
#[verifier::ext_equal]
pub struct AtlasView {
    pub rows: Map<u64, u32>,
    pub next_row: int,
    pub pending: Seq<(u32, Seq<GradientStop>)>,
}

impl AtlasView {
    /// The atlas after a row is asked for.
    pub open spec fn ensured(self, stops: Seq<GradientStop>) -> AtlasView {
        let key = stops_key(stops);
        if self.rows.dom().contains(key) || self.next_row >= GRADIENT_ATLAS_ROWS {
            self
        } else {
            AtlasView {
                rows: self.rows.insert(key, self.next_row as u32),
                next_row: self.next_row + 1,
                pending: self.pending.push((self.next_row as u32, stops_sorted(stops))),
            }
        }
    }

    /// The row that is given when one is asked for.
    pub open spec fn row_of(self, stops: Seq<GradientStop>) -> Option<u32> {
        let key = stops_key(stops);
        if self.rows.dom().contains(key) {
            Some(self.rows[key])
        } else if self.next_row >= GRADIENT_ATLAS_ROWS {
            None
        } else {
            Some(self.next_row as u32)
        }
    }

    /// Rows are below the next free one, and no two keys share a row.
    pub open spec fn consistent(self) -> bool {
        &&& 0 <= self.next_row <= GRADIENT_ATLAS_ROWS
        &&& forall|key: u64| #[trigger]
            self.rows.dom().contains(key) ==> self.rows[key] < self.next_row
        &&& forall|a: u64, b: u64|
            #![trigger self.rows[a], self.rows[b]]
            self.rows.dom().contains(a) && self.rows.dom().contains(b) && a != b ==> self.rows[a]
                != self.rows[b]
    }
}

pub open spec fn pending_view(pending: Seq<PendingRow>) -> Seq<(u32, Seq<GradientStop>)> {
    pending.map_values(|row: PendingRow| row@)
}

impl View for GradientAtlas {
    type V = AtlasView;

    open spec fn view(&self) -> AtlasView {
        AtlasView {
            rows: self.rows@,
            next_row: self.next_row as int,
            pending: pending_view(self.pending@),
        }
    }
}

impl GradientAtlas {
    pub open spec fn wf(self) -> bool {
        self.rows.wf() && self@.consistent()
    }

    pub fn new() -> (atlas: GradientAtlas)
        ensures
            atlas.wf(),
            atlas@ == (AtlasView { rows: Map::empty(), next_row: 0, pending: Seq::empty() }),
    {
        let atlas = GradientAtlas { rows: KeyedStore::new(), next_row: 0, pending: Vec::new() };
        assert(atlas@ =~= AtlasView { rows: Map::empty(), next_row: 0, pending: Seq::empty() });
        atlas
    }

    /// The atlas row for a list of stops, entered on first sight. A full atlas
    /// gives no row to a list it has not seen.
    pub fn ensure_row(&mut self, stops: &Vec<GradientStop>) -> (row: Option<u32>)
        requires
            old(self).wf(),
        ensures
            final(self).wf(),
            final(self)@ == old(self)@.ensured(stops@),
            row == old(self)@.row_of(stops@),
    {
        let key: u64 = hash_stops(stops);
        match self.rows.get(key) {
            Some(row) => {
                return Some(*row);
            },
            None => {},
        }
        if self.next_row >= GRADIENT_ATLAS_ROWS {
            return None;
        }
        let row: u32 = self.next_row;
        self.next_row = row + 1;
        self.rows.insert(key, row);
        self.pending.push(PendingRow { row, stops: sort_stops(stops) });
        assert(self@ =~= old(self)@.ensured(stops@));
        Some(row)
    }

    /// Hands out the rows that wait for upload.
    pub fn take_pending(&mut self) -> (rows: Vec<PendingRow>)
        requires
            old(self).wf(),
        ensures
            final(self).wf(),
            pending_view(rows@) == old(self)@.pending,
            final(self)@ == (AtlasView { pending: Seq::empty(), ..old(self)@ }),
    {
        let mut rows: Vec<PendingRow> = Vec::new();
        std::mem::swap(&mut rows, &mut self.pending);
        assert(self@ =~= AtlasView { pending: Seq::empty(), ..old(self)@ });
        rows
    }
}

/// Tint, gradient geometry and packed kind of a brush.
#[derive(Clone, Copy, Debug, PartialEq, Eq)]
pub struct BrushData {
    pub color: [u8; 4],
    pub params: [Scalar; 4],
    pub meta: Scalar,
}

/// A plain tint: no gradient.
pub open spec fn is_flat(data: BrushData, tint: [u8; 4]) -> bool {
    &&& data.color == tint
    &&& data.params@ == seq![
        Scalar { bits: 0 },
        Scalar { bits: 0 },
        Scalar { bits: 0 },
        Scalar { bits: 0 },
    ]
    &&& data.meta == (Scalar { bits: 0 })
}

/// A gradient: white tint, its geometry, and `row * 4 + kind` (kind 1 linear,
/// 2 radial).
pub open spec fn is_gradient(data: BrushData, params: Seq<Scalar>, row: u32, kind: int) -> bool {
    &&& data.color@ == seq![255u8, 255, 255, 255]
    &&& data.params@ == params
    &&& data.meta.denotes((row * 4 + kind) as nat, 0)
}

fn flat_data(tint: [u8; 4]) -> (data: BrushData)
    ensures
        is_flat(data, tint),
{
    let data = BrushData {
        color: tint,
        params: [Scalar::zero(), Scalar::zero(), Scalar::zero(), Scalar::zero()],
        meta: Scalar::zero(),
    };
    assert(data.params@ =~= seq![
        Scalar { bits: 0 },
        Scalar { bits: 0 },
        Scalar { bits: 0 },
        Scalar { bits: 0 },
    ]);
    data
}

/// The atlas after a brush is resolved.
pub open spec fn brush_atlas(brush: Brush, atlas: AtlasView) -> AtlasView {
    match brush {
        Brush::Solid(_) => atlas,
        Brush::Linear { start, end, stops } => atlas.ensured(stops@),
        Brush::Radial { center, radius, stops } => atlas.ensured(stops@),
    }
}

/// The instance data of a brush: the plain tint of a solid brush or of a
/// gradient that gets no row, a gradient otherwise.
pub open spec fn brush_resolves(
    brush: Brush,
    tint: [u8; 4],
    atlas: AtlasView,
    data: BrushData,
) -> bool {
    match brush {
        Brush::Solid(_) => is_flat(data, tint),
        Brush::Linear { start, end, stops } => match atlas.row_of(stops@) {
            None => is_flat(data, tint),
            Some(row) => is_gradient(data, seq![start.x, start.y, end.x, end.y], row, 1),
        },
        Brush::Radial { center, radius, stops } => match atlas.row_of(stops@) {
            None => is_flat(data, tint),
            Some(row) => is_gradient(
                data,
                seq![center.x, center.y, radius, Scalar { bits: 0 }],
                row,
                2,
            ),
        },
    }
}

/// Resolves a brush into instance data. `tint` is the brush's flat colour
/// (that of its first stop, for a gradient) in 8 bits per channel; a gradient
/// that gets no row degrades to it.
pub fn resolve_brush(brush: &Brush, tint: [u8; 4], atlas: &mut GradientAtlas) -> (data: BrushData)
    requires
        old(atlas).wf(),
    ensures
        final(atlas).wf(),
        final(atlas)@ == brush_atlas(*brush, old(atlas)@),
        brush_resolves(*brush, tint, old(atlas)@, data),
{
    match brush {
        Brush::Solid(_) => flat_data(tint),
        Brush::Linear { start, end, stops } => match atlas.ensure_row(stops) {
            Some(row) => {
                let data = BrushData {
                    color: [255, 255, 255, 255],
                    params: [start.x, start.y, end.x, end.y],
                    meta: Scalar::from_u32(row * 4 + 1),
                };
                assert(data.color@ =~= seq![255u8, 255, 255, 255]);
                assert(data.params@ =~= seq![start.x, start.y, end.x, end.y]);
                data
            },
            None => flat_data(tint),
        },
        Brush::Radial { center, radius, stops } => match atlas.ensure_row(stops) {
            Some(row) => {
                let data = BrushData {
                    color: [255, 255, 255, 255],
                    params: [center.x, center.y, *radius, Scalar::zero()],
                    meta: Scalar::from_u32(row * 4 + 2),
                };
                assert(data.color@ =~= seq![255u8, 255, 255, 255]);
                assert(data.params@ =~= seq![center.x, center.y, *radius, Scalar { bits: 0 }]);
                data
            },
            None => flat_data(tint),
        },
    }
}

/// Instance data tell what to paint with: a flat colour, or which row and kind
/// of gradient.
pub proof fn lemma_brush_data_read_back(
    data: BrushData,
    tint: [u8; 4],
    params: Seq<Scalar>,
    row: u32,
    kind: int,
    other_params: Seq<Scalar>,
    other_row: u32,
    other_kind: int,
)
    requires
        is_gradient(data, params, row, kind),
        1 <= kind <= 2,
        1 <= other_kind <= 2,
    ensures
        !is_flat(data, tint),
        is_gradient(data, other_params, other_row, other_kind) ==> params == other_params && row
            == other_row && kind == other_kind,
{
    lemma_denotes_zero(data.meta, (row * 4 + kind) as nat, 0);
    if is_gradient(data, other_params, other_row, other_kind) {
        lemma_denotes_one_number(
            data.meta,
            (row * 4 + kind) as nat,
            (other_row * 4 + other_kind) as nat,
            0,
        );
    }
}

proof fn lemma_bracket(sorted: Seq<GradientStop>, t: Scalar, from: int)
    requires
        0 <= from,
    ensures
        bracket(sorted, t, from) matches Some(i) ==> from <= i && i + 1 < sorted.len() && t.le(
            sorted[i + 1].offset,
        ) && forall|j: int| from < j <= i ==> !t.le((#[trigger] sorted[j]).offset),
        bracket(sorted, t, from) is None ==> forall|j: int|
            from < j < sorted.len() ==> !t.le((#[trigger] sorted[j]).offset),
    decreases sorted.len() - from,
{
    if from + 1 < sorted.len() && !t.le(sorted[from + 1].offset) {
        lemma_bracket(sorted, t, from + 1);
    }
}

/// A place is blended from the two stops around it: it is past every stop up
/// to the first of them and not past the second. A colour that is not blended
/// belongs to a place that no stop precedes or that no stop reaches.
pub proof fn lemma_samples_are_bracketed(sorted: Seq<GradientStop>, t: Scalar)
    requires
        2 <= sorted.len() <= usize::MAX,
    ensures
        match sampled(sorted, t) {
            StopSample::Between(i) => {
                &&& i + 1 < sorted.len()
                &&& forall|j: int| 0 <= j <= i ==> !t.le((#[trigger] sorted[j]).offset)
                &&& t.le(sorted[i + 1].offset)
            },
            StopSample::Exact(color) => {
                ||| t.le(sorted[0].offset) && color == sorted[0].color
                ||| color == sorted.last().color && forall|j: int|
                    0 <= j < sorted.len() ==> !t.le((#[trigger] sorted[j]).offset)
            },
        },
{
    lemma_bracket(sorted, t, 0);
}

/// Sorting loses and adds no stop, and puts the offsets in order.
pub proof fn lemma_stops_sorted(stops: Seq<GradientStop>)
    requires
        stops.len() <= usize::MAX,
    ensures
        forall|i: int, j: int|
            0 <= i < j < stops_sorted(stops).len() ==> (#[trigger] stops_sorted(
                stops,
            )[i]).offset.total() <= (#[trigger] stops_sorted(stops)[j]).offset.total(),
        forall|stop: GradientStop| #[trigger]
            stops.contains(stop) <==> stops_sorted(stops).contains(stop),
{
    let ranks = stop_ranks(stops);
    lemma_whole_order(ranks);
    lemma_ordered_members(stops, ranks);
    let order = whole_order(ranks);
    let sorted = stops_sorted(stops);
    assert forall|i: int, j: int| 0 <= i < j < sorted.len() implies (
    #[trigger] sorted[i]).offset.total() <= (#[trigger] sorted[j]).offset.total() by {
        assert(before(ranks, order[i], order[j]));
        assert(order[i] < stops.len() && order[j] < stops.len());
    }
}

/// A row once given stays: asking again for the same stops changes nothing and
/// gives the same row, also after others were asked for.
pub proof fn lemma_rows_are_stable(
    atlas: AtlasView,
    stops: Seq<GradientStop>,
    others: Seq<GradientStop>,
)
    requires
        atlas.consistent(),
        atlas.row_of(stops) is Some,
    ensures
        atlas.ensured(stops).row_of(stops) == atlas.row_of(stops),
        atlas.ensured(stops).ensured(stops) == atlas.ensured(stops),
        atlas.ensured(stops).ensured(others).row_of(stops) == atlas.row_of(stops),
        atlas.row_of(stops)->0 < GRADIENT_ATLAS_ROWS,
{
}

/// Lists with different keys get different rows.
pub proof fn lemma_rows_are_not_shared(
    atlas: AtlasView,
    a: Seq<GradientStop>,
    b: Seq<GradientStop>,
)
    requires
        atlas.consistent(),
        stops_key(a) != stops_key(b),
        atlas.row_of(a) is Some,
        atlas.ensured(a).row_of(b) is Some,
    ensures
        atlas.ensured(a).consistent(),
        atlas.row_of(a) != atlas.ensured(a).row_of(b),
{
    let next = atlas.ensured(a);
    let (x, y) = (stops_key(a), stops_key(b));
    assert(next.rows.dom().contains(x));
    assert(next.rows[x] == atlas.row_of(a)->0);
    if next.rows.dom().contains(y) {
        assert(atlas.rows.dom().contains(y));
        assert(next.rows[y] == atlas.rows[y]);
    }
}

proof fn lemma_stop_writes_length(stops: Seq<GradientStop>)
    ensures
        stop_writes(stops).len() == 5 * stops.len(),
    decreases stops.len(),
{
    if stops.len() > 0 {
        lemma_stop_writes_length(stops.drop_last());
    }
}

/// What the key of a list hashes tells lists apart: equal writes come from
/// equal lists.
pub proof fn lemma_stop_writes_identify(a: Seq<GradientStop>, b: Seq<GradientStop>)
    requires
        stop_writes(a) == stop_writes(b),
    ensures
        a == b,
    decreases a.len(),
{
    lemma_stop_writes_length(a);
    lemma_stop_writes_length(b);
    if a.len() > 0 {
        let (fa, fb) = (stop_writes(a.drop_last()), stop_writes(b.drop_last()));
        lemma_stop_writes_length(a.drop_last());
        lemma_stop_writes_length(b.drop_last());
        let (la, lb) = (stop_write(a.last()), stop_write(b.last()));
        let whole = stop_writes(a);
        assert(fa =~= whole.take(fa.len() as int));
        assert(fb =~= whole.take(fb.len() as int));
        assert(la =~= whole.skip(fa.len() as int));
        assert(lb =~= whole.skip(fb.len() as int));
        lemma_stop_writes_identify(a.drop_last(), b.drop_last());
        lemma_writes_identify();
        assert(la[0] == lb[0] && la[1] == lb[1] && la[2] == lb[2] && la[3] == lb[3] && la[4]
            == lb[4]);
        assert(a.last() == b.last());
        assert(a =~= a.drop_last().push(a.last()));
        assert(b =~= b.drop_last().push(b.last()));
    } else {
        assert(a =~= b);
    }
}

/// The list is the given stops by offset: `from` tells where each came from, and
/// of two stops at one offset the one that was given first comes first.
pub open spec fn by_offset(
    stops: Seq<GradientStop>,
    list: Seq<GradientStop>,
    from: Seq<usize>,
) -> bool {
    &&& rearranged(stops, list, from)
    &&& forall|a: int, b: int|
        0 <= a < b < list.len() ==> {
            ||| (#[trigger] list[a]).offset.total() < (#[trigger] list[b]).offset.total()
            ||| list[a].offset.total() == list[b].offset.total() && from[a] < from[b]
        }
}

/// On first sight of a list of stops, while there is a free row, one row is
/// added to the pending ones: the row that is given out, with exactly the given
/// stops by offset. Otherwise nothing is added and nothing changes.
pub proof fn lemma_new_rows_hold_the_given_stops(atlas: AtlasView, stops: Seq<GradientStop>)
    requires
        stops.len() <= usize::MAX,
        0 <= atlas.next_row <= u32::MAX,
    ensures
        ({
            let after = atlas.ensured(stops);
            let seen = atlas.rows.dom().contains(stops_key(stops));
            &&& seen || atlas.next_row >= 1024 ==> after == atlas
            &&& seen ==> atlas.row_of(stops) == Some(atlas.rows[stops_key(stops)])
            &&& !seen && atlas.next_row >= 1024 ==> atlas.row_of(stops) is None
            &&& !seen && atlas.next_row < 1024 ==> {
                &&& atlas.row_of(stops) is Some
                &&& atlas.row_of(stops)->0 == atlas.next_row
                &&& after.next_row == atlas.next_row + 1
                &&& after.rows == atlas.rows.insert(stops_key(stops), atlas.row_of(stops)->0)
                &&& after.pending.len() == atlas.pending.len() + 1
                &&& after.pending.drop_last() == atlas.pending
                &&& after.pending.last().0 == atlas.row_of(stops)->0
                &&& after.pending.last().1.to_multiset() == stops.to_multiset()
                &&& exists|from: Seq<usize>| #[trigger]
                    by_offset(stops, after.pending.last().1, from)
            }
        }),
{
    let ranks = stop_ranks(stops);
    lemma_ordered_is_rearranged(stops, ranks);
    lemma_ordered_members(stops, ranks);
    let after = atlas.ensured(stops);
    if !atlas.rows.dom().contains(stops_key(stops)) && atlas.next_row < 1024 {
        let from = whole_order(ranks);
        let list = after.pending.last().1;
        assert(after.pending.drop_last() =~= atlas.pending);
        assert forall|a: int, b: int| 0 <= a < b < list.len() implies {
            ||| (#[trigger] list[a]).offset.total() < (#[trigger] list[b]).offset.total()
            ||| list[a].offset.total() == list[b].offset.total() && from[a] < from[b]
        } by {
            assert(before(ranks, from[a], from[b]));
            assert(from[a] < stops.len() && from[b] < stops.len());
        }
        assert(by_offset(stops, list, from));
    }
}

/// A row goes by all of a list: its key is taken over the offset and the four
/// channels of every stop, in order.
pub proof fn lemma_rows_go_by_every_stop(stops: Seq<GradientStop>)
    ensures
        stops_key(stops) == digest(stop_writes(stops)),
        stop_writes(stops).len() == 5 * stops.len(),
        forall|i: int|
            0 <= i < stops.len() ==> {
                &&& stop_writes(stops)[5 * i] == word_write((#[trigger] stops[i]).offset.bits)
                &&& stop_writes(stops)[5 * i + 1] == word_write(stops[i].color.red.bits)
                &&& stop_writes(stops)[5 * i + 2] == word_write(stops[i].color.green.bits)
                &&& stop_writes(stops)[5 * i + 3] == word_write(stops[i].color.blue.bits)
                &&& stop_writes(stops)[5 * i + 4] == word_write(stops[i].color.alpha.bits)
            },
    decreases stops.len(),
{
    lemma_stop_writes_length(stops);
    if stops.len() > 0 {
        let rest = stops.drop_last();
        lemma_rows_go_by_every_stop(rest);
        assert forall|i: int| 0 <= i < stops.len() implies {
            &&& stop_writes(stops)[5 * i] == word_write((#[trigger] stops[i]).offset.bits)
            &&& stop_writes(stops)[5 * i + 1] == word_write(stops[i].color.red.bits)
            &&& stop_writes(stops)[5 * i + 2] == word_write(stops[i].color.green.bits)
            &&& stop_writes(stops)[5 * i + 3] == word_write(stops[i].color.blue.bits)
            &&& stop_writes(stops)[5 * i + 4] == word_write(stops[i].color.alpha.bits)
        } by {
            if i < rest.len() {
                assert(rest[i] == stops[i]);
            }
        }
    }
}

/// What a brush paints with. A solid brush, and a gradient that gets no row,
/// paint their tint and take no row. A gradient with a row paints over white,
/// along its own line or around its own centre, and its number tells the row and
/// the kind; it has asked the atlas for exactly its own stops.
pub proof fn lemma_brushes_paint_their_own(
    brush: Brush,
    tint: [u8; 4],
    atlas: AtlasView,
    data: BrushData,
)
    requires
        brush_resolves(brush, tint, atlas, data),
    ensures
        brush is Solid ==> brush_atlas(brush, atlas) == atlas,
        brush is Solid || (brush_stops(brush) matches Some(stops) && atlas.row_of(stops) is None)
            ==> {
            &&& data.color == tint
            &&& data.params@.len() == 4
            &&& forall|i: int| 0 <= i < 4 ==> (#[trigger] data.params@[i]).bits == 0
            &&& data.meta.bits == 0
        },
        brush_stops(brush) matches Some(stops) ==> brush_atlas(brush, atlas) == atlas.ensured(
            stops,
        ),
        brush_stops(brush) matches Some(stops) && atlas.row_of(stops) is Some
            ==> forall|i: int| 0 <= i < 4 ==> #[trigger] data.color@[i] == 255,
        brush matches Brush::Linear { start, end, stops } ==> (atlas.row_of(stops@) matches Some(
            row,
        ) ==> {
            &&& data.params@[0] == start.x && data.params@[1] == start.y
            &&& data.params@[2] == end.x && data.params@[3] == end.y
            &&& data.meta.denotes((4 * row + 1) as nat, 0)
        }),
        brush matches Brush::Radial { center, radius, stops } ==> (atlas.row_of(stops@) matches Some(
            row,
        ) ==> {
            &&& data.params@[0] == center.x && data.params@[1] == center.y
            &&& data.params@[2] == radius && data.params@[3].bits == 0
            &&& data.meta.denotes((4 * row + 2) as nat, 0)
        }),
{
}

/// The stops of a gradient.
pub open spec fn brush_stops(brush: Brush) -> Option<Seq<GradientStop>> {
    match brush {
        Brush::Solid(_) => None,
        Brush::Linear { start, end, stops } => Some(stops@),
        Brush::Radial { center, radius, stops } => Some(stops@),
    }
}

/// Without stops a gradient is white, and with one it has that stop's colour,
/// wherever it is sampled.
pub proof fn lemma_short_gradients_are_flat(sorted: Seq<GradientStop>, t: Scalar)
    requires
        sorted.len() < 2,
    ensures
        sampled(sorted, t) matches StopSample::Exact(color) && (sorted.len() == 1 ==> color
            == sorted[0].color) && (sorted.len() == 0 ==> color.red.bits == 0x3f80_0000
            && color.green.bits == 0x3f80_0000 && color.blue.bits == 0x3f80_0000
            && color.alpha.bits == 0x3f80_0000),
{
}

} // verus!
