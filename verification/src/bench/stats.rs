//! Order statistics over samples, which are double-precision numbers as bit
//! patterns.

use vstd::prelude::*;
use vstd::relations::{sorted_by, total_ordering};
use vstd::seq_lib::lemma_sorted_unique;

use crate::order::{
    before, lemma_ordered_is_rearranged, lemma_ordered_members, lemma_whole_order, ordered,
    rearranged, sort_items, whole_order, Rank,
};

verus! {

/// The total order over all patterns: negative NaNs first, then the numbers,
/// `-0` before `+0`, then positive NaNs.
pub open spec fn sample_rank(bits: u64) -> u64 {
    if bits >= 0x8000_0000_0000_0000 {
        (0xffff_ffff_ffff_ffff - bits) as u64
    } else {
        (bits + 0x8000_0000_0000_0000) as u64
    }
}

pub open spec fn sample_ranks(values: Seq<u64>) -> Seq<Rank> {
    Seq::new(
        values.len(),
        |i: int|
            Rank { first: sample_rank(values[i]), second: 0, third: 0, fourth: 0, fifth: 0 },
    )
}

/// The samples from the smallest to the largest.
pub open spec fn samples_sorted(values: Seq<u64>) -> Seq<u64> {
    ordered(values, sample_ranks(values))
}

/// Sorts samples.
pub fn sort_samples(values: &Vec<u64>) -> (sorted: Vec<u64>)
    ensures
        sorted@ == samples_sorted(values@),
        sorted@.len() == values@.len(),
{
    let mut ranks: Vec<Rank> = Vec::with_capacity(values.len());
    let mut i: usize = 0;
    while i < values.len()
        invariant
            i <= values@.len(),
            ranks@ == sample_ranks(values@).take(i as int),
        decreases values@.len() - i,
    {
        let bits: u64 = values[i];
        let first: u64 = if bits >= 0x8000_0000_0000_0000 {
            0xffff_ffff_ffff_ffff - bits
        } else {
            bits + 0x8000_0000_0000_0000
        };
        ranks.push(Rank { first, second: 0, third: 0, fourth: 0, fifth: 0 });
        assert(ranks@ =~= sample_ranks(values@).take(i + 1));
        i = i + 1;
    }
    assert(ranks@ =~= sample_ranks(values@));
    sort_items(values, &ranks)
}

/// The position of a percentile among `n` sorted samples: `p` percent of the
/// way from the first to the last, rounded to the nearest position, halves up.
pub open spec fn percentile_at(n: int, p: int) -> int {
    (p * (n - 1) + 50) / 100
}

/// The position of a percentile.
pub fn percentile_index(n: usize, p: u32) -> (at: usize)
    requires
        0 < n <= 0x1_0000_0000,
        p <= 100,
    ensures
        at == percentile_at(n as int, p as int),
        at < n,
{
    let last: u64 = (n - 1) as u64;
    assert(p * last <= 100 * last) by (nonlinear_arith)
        requires
            p <= 100,
    ;
    let scaled: u64 = p as u64 * last + 50;
    assert(p as u64 * last == p * (n - 1));
    (scaled / 100) as usize
}

/// What a set of samples amounts to.
#[derive(Clone, Copy, Debug, PartialEq, Eq, Structural)]
pub struct Stats {
    pub count: usize,
    pub p50: u64,
    pub p95: u64,
    pub p99: u64,
    pub min: u64,
    pub max: u64,
}

pub open spec fn stats_of(sorted: Seq<u64>) -> Stats {
    let n = sorted.len() as int;
    Stats {
        count: n as usize,
        p50: sorted[percentile_at(n, 50)],
        p95: sorted[percentile_at(n, 95)],
        p99: sorted[percentile_at(n, 99)],
        min: sorted[0],
        max: sorted[n - 1],
    }
}

/// The statistics of sorted samples; none without samples.
pub open spec fn summary(sorted: Seq<u64>) -> Option<Stats> {
    if sorted.len() == 0 {
        None
    } else {
        Some(stats_of(sorted))
    }
}

/// Statistics of samples; none without samples.
pub fn stats(values: &Vec<u64>) -> (result: Option<Stats>)
    requires
        values@.len() <= 0x1_0000_0000,
    ensures
        result == summary(samples_sorted(values@)),
        result is None <==> values@.len() == 0,
{
    let sorted: Vec<u64> = sort_samples(values);
    let n: usize = sorted.len();
    if n == 0 {
        return None;
    }
    Some(
        Stats {
            count: n,
            p50: sorted[percentile_index(n, 50)],
            p95: sorted[percentile_index(n, 95)],
            p99: sorted[percentile_index(n, 99)],
            min: sorted[0],
            max: sorted[n - 1],
        },
    )
}

/// The order of samples.
pub open spec fn sample_at_most(a: u64, b: u64) -> bool {
    sample_rank(a) <= sample_rank(b)
}

proof fn lemma_samples_ascend(values: Seq<u64>)
    requires
        values.len() <= usize::MAX,
    ensures
        samples_sorted(values).len() == values.len(),
        forall|a: int, b: int|
            0 <= a <= b < values.len() ==> sample_at_most(
                #[trigger] samples_sorted(values)[a],
                #[trigger] samples_sorted(values)[b],
            ),
{
    let ranks = sample_ranks(values);
    lemma_whole_order(ranks);
    let order = whole_order(ranks);
    let sorted = samples_sorted(values);
    assert forall|a: int, b: int| 0 <= a <= b < values.len() implies sample_at_most(
        #[trigger] sorted[a],
        #[trigger] sorted[b],
    ) by {
        assert(order[a] < values.len() && order[b] < values.len());
        if a < b {
            assert(before(ranks, order[a], order[b]));
        }
    }
}

/// Sorting loses and adds no sample, and the statistics of sorted samples are
/// samples in order: minimum, median, the two upper percentiles, maximum, with
/// the minimum the least and the maximum the greatest.
pub proof fn lemma_statistics_are_in_order(values: Seq<u64>)
    requires
        0 < values.len() <= usize::MAX,
    ensures
        samples_sorted(values).len() == values.len(),
        samples_sorted(values).to_multiset() == values.to_multiset(),
        ({
            let s = stats_of(samples_sorted(values));
            &&& s.count == values.len()
            &&& values.contains(s.min) && values.contains(s.p50) && values.contains(s.p95)
            &&& values.contains(s.p99) && values.contains(s.max)
            &&& sample_at_most(s.min, s.p50)
            &&& sample_at_most(s.p50, s.p95)
            &&& sample_at_most(s.p95, s.p99)
            &&& sample_at_most(s.p99, s.max)
        }),
        forall|v: u64| #[trigger]
            values.contains(v) ==> sample_at_most(stats_of(samples_sorted(values)).min, v)
                && sample_at_most(v, stats_of(samples_sorted(values)).max),
{
    let sorted = samples_sorted(values);
    lemma_samples_ascend(values);
    lemma_ordered_members(values, sample_ranks(values));
    let n = values.len() as int;
    assert(0 <= percentile_at(n, 50) <= percentile_at(n, 95) <= percentile_at(n, 99) < n);
    assert forall|a: int| 0 <= a < n implies values.contains(#[trigger] sorted[a]) by {
        assert(sorted.contains(sorted[a]));
    }
    assert forall|v: u64| #[trigger] values.contains(v) implies sample_at_most(sorted[0], v)
        && sample_at_most(v, sorted[n - 1]) by {
        assert(sorted.contains(v));
        let a = choose|a: int| 0 <= a < sorted.len() && sorted[a] == v;
        assert(sample_at_most(sorted[0], sorted[a]));
        assert(sample_at_most(sorted[a], sorted[n - 1]));
    }
}

/// Statistics do not rest on the order in which the samples came: the same
/// samples in another order sort to the same, and so have the same statistics,
/// or none where there are no samples.
pub proof fn lemma_statistics_ignore_the_order(values: Seq<u64>, others: Seq<u64>)
    requires
        values.len() <= usize::MAX,
        others.to_multiset() == values.to_multiset(),
    ensures
        samples_sorted(others) == samples_sorted(values),
        summary(samples_sorted(others)) == summary(samples_sorted(values)),
        summary(samples_sorted(values)) is None <==> values.len() == 0,
{
    values.to_multiset_ensures();
    others.to_multiset_ensures();
    lemma_samples_ascend(values);
    lemma_samples_ascend(others);
    lemma_ordered_members(values, sample_ranks(values));
    lemma_ordered_members(others, sample_ranks(others));
    let leq = |a: u64, b: u64| sample_at_most(a, b);
    assert(total_ordering(leq));
    let (x, y) = (samples_sorted(others), samples_sorted(values));
    assert(sorted_by(x, leq)) by {
        assert forall|i: int, j: int| 0 <= i < j < x.len() implies #[trigger] leq(x[i], x[j]) by {
            assert(sample_at_most(x[i], x[j]));
        }
    }
    assert(sorted_by(y, leq)) by {
        assert forall|i: int, j: int| 0 <= i < j < y.len() implies #[trigger] leq(y[i], y[j]) by {
            assert(sample_at_most(y[i], y[j]));
        }
    }
    lemma_sorted_unique(x, y, leq);
}


/// Which of two samples is the smaller one: what has the sign bit before what
/// has not, patterns without it ascending, patterns with it descending.
pub open spec fn smaller(a: u64, b: u64) -> bool {
    if a >= 0x8000_0000_0000_0000 {
        b < 0x8000_0000_0000_0000 || b < a
    } else {
        a < b < 0x8000_0000_0000_0000
    }
}

/// The position is the nearest one to `p` percent of the way from the first of
/// `n` samples to the last, of two equally near ones the upper.
pub open spec fn nearest_position(at: int, n: int, p: int) -> bool {
    &&& 0 <= at < n
    &&& -50 < 100 * at - p * (n - 1) <= 50
}

/// The sample stands at such a position.
pub open spec fn stands_at(sorted: Seq<u64>, sample: u64, p: int) -> bool {
    exists|at: int| #[trigger]
        nearest_position(at, sorted.len() as int, p) && sorted[at] == sample
}

/// Samples are sorted from the smallest to the largest, each kept once, and the
/// statistics stand at their places among them: the smallest and the largest one
/// at the ends, each percentile at the position nearest to it.
pub proof fn lemma_statistics_stand_at_their_places(values: Seq<u64>)
    requires
        0 < values.len() <= usize::MAX,
    ensures
        ({
            let sorted = samples_sorted(values);
            let s = stats_of(sorted);
            &&& exists|from: Seq<usize>| #[trigger] rearranged(values, sorted, from)
            &&& forall|a: int, b: int|
                0 <= a < b < sorted.len() ==> !smaller(#[trigger] sorted[b], #[trigger] sorted[a])
            &&& summary(sorted) == Some(s)
            &&& s.count == values.len()
            &&& s.min == sorted[0]
            &&& s.max == sorted[values.len() - 1]
            &&& stands_at(sorted, s.p50, 50)
            &&& stands_at(sorted, s.p95, 95)
            &&& stands_at(sorted, s.p99, 99)
        }),
        summary(Seq::empty()) is None,
{
    let ranks = sample_ranks(values);
    lemma_ordered_is_rearranged(values, ranks);
    lemma_samples_ascend(values);
    let sorted = samples_sorted(values);
    let n = values.len() as int;
    assert(rearranged(values, sorted, whole_order(ranks)));
    assert forall|a: int, b: int| 0 <= a < b < sorted.len() implies !smaller(
        #[trigger] sorted[b],
        #[trigger] sorted[a],
    ) by {
        assert(sample_at_most(sorted[a], sorted[b]));
    }
    assert(nearest_position(percentile_at(n, 50), n, 50));
    assert(nearest_position(percentile_at(n, 95), n, 95));
    assert(nearest_position(percentile_at(n, 99), n, 99));
}

/// A percentile stands at the position nearest to it.
pub proof fn lemma_percentiles_stand_at_the_nearest_position(n: int, p: int)
    requires
        0 < n,
        0 <= p <= 100,
    ensures
        nearest_position(percentile_at(n, p), n, p),
{
    let way = p * (n - 1);
    assert(0 <= way <= 100 * (n - 1)) by (nonlinear_arith)
        requires
            way == p * (n - 1),
            0 <= p <= 100,
            n >= 1,
    ;
}

} // verus!
