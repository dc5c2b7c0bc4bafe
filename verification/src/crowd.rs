//! How many edges of an outline one line crosses.

use vstd::prelude::*;
use vstd::seq_lib::{to_multiset_contains, to_multiset_len, to_multiset_remove};

use crate::order::{
    before, lemma_ordered_members, lemma_whole_order, sort_items, whole_order, Rank,
};

verus! {

/// An edge along one axis: from its lower to its higher end.
#[derive(Clone, Copy, Debug, PartialEq, Eq, Structural)]
pub struct Edge {
    pub low: u64,
    pub high: u64,
}

/// A line just behind this place crosses the edge.
pub open spec fn crosses(edge: Edge, at: u64) -> bool {
    edge.low <= at < edge.high
}

/// How many edges a line just behind a place crosses.
pub open spec fn crowd(edges: Seq<Edge>, at: u64) -> nat
    decreases edges.len(),
{
    if edges.len() == 0 {
        0
    } else {
        crowd(edges.drop_last(), at) + if crosses(edges.last(), at) {
            1nat
        } else {
            0nat
        }
    }
}

/// No line crosses more edges than the limit.
pub open spec fn uncrowded(edges: Seq<Edge>, limit: u32) -> bool {
    forall|at: u64| #[trigger] crowd(edges, at) <= limit
}

/// Every edge leads somewhere.
pub open spec fn proper(edges: Seq<Edge>) -> bool {
    forall|i: int| 0 <= i < edges.len() ==> (#[trigger] edges[i]).low < edges[i].high
}

spec fn lows(edges: Seq<Edge>) -> Seq<u64> {
    edges.map_values(|edge: Edge| edge.low)
}

spec fn highs(edges: Seq<Edge>) -> Seq<u64> {
    edges.map_values(|edge: Edge| edge.high)
}

/// How many values are at most this one.
spec fn at_most(values: Seq<u64>, at: u64) -> nat
    decreases values.len(),
{
    if values.len() == 0 {
        0
    } else {
        at_most(values.drop_last(), at) + if values.last() <= at {
            1nat
        } else {
            0nat
        }
    }
}

spec fn ascending(values: Seq<u64>) -> bool {
    forall|a: int, b: int| 0 <= a <= b < values.len() ==> values[a] <= values[b]
}

/// A line crosses no more edges than there are.
pub proof fn lemma_few_edges(edges: Seq<Edge>, at: u64)
    ensures
        crowd(edges, at) <= edges.len(),
    decreases edges.len(),
{
    if edges.len() > 0 {
        lemma_few_edges(edges.drop_last(), at);
    }
}

/// Edges that began and have not ended.
proof fn lemma_crowd_by_ends(edges: Seq<Edge>, at: u64)
    requires
        proper(edges),
    ensures
        crowd(edges, at) == at_most(lows(edges), at) - at_most(highs(edges), at),
    decreases edges.len(),
{
    if edges.len() > 0 {
        let rest = edges.drop_last();
        assert(proper(rest)) by {
            assert forall|i: int| 0 <= i < rest.len() implies (#[trigger] rest[i]).low
                < rest[i].high by {
                assert(edges[i].low < edges[i].high);
            }
        }
        lemma_crowd_by_ends(rest, at);
        assert(lows(edges).drop_last() =~= lows(rest));
        assert(highs(edges).drop_last() =~= highs(rest));
        assert(edges[edges.len() - 1].low < edges[edges.len() - 1].high);
    }
}

proof fn lemma_count_without(values: Seq<u64>, k: int, at: u64)
    requires
        0 <= k < values.len(),
    ensures
        at_most(values, at) == at_most(values.remove(k), at) + if values[k] <= at {
            1nat
        } else {
            0nat
        },
    decreases values.len(),
{
    if k == values.len() - 1 {
        assert(values.remove(k) =~= values.drop_last());
    } else {
        lemma_count_without(values.drop_last(), k, at);
        assert(values.remove(k).drop_last() =~= values.drop_last().remove(k));
        assert(values.remove(k).last() == values.last());
    }
}

/// Counting does not depend on the order.
proof fn lemma_count_in_any_order(a: Seq<u64>, b: Seq<u64>, at: u64)
    requires
        a.to_multiset() == b.to_multiset(),
    ensures
        at_most(a, at) == at_most(b, at),
    decreases a.len(),
{
    to_multiset_len(a);
    to_multiset_len(b);
    if a.len() > 0 {
        let n = a.len() - 1;
        to_multiset_contains(a, a[n]);
        to_multiset_contains(b, a[n]);
        assert(a.contains(a[n]));
        let k = choose|k: int| 0 <= k < b.len() && b[k] == a[n];
        to_multiset_remove(a, n);
        to_multiset_remove(b, k);
        lemma_count_without(a, n, at);
        lemma_count_without(b, k, at);
        assert(a.remove(n) =~= a.drop_last());
        lemma_count_in_any_order(a.remove(n), b.remove(k), at);
    }
}

/// In ascending order, the values up to a place come first.
proof fn lemma_count_of_ascending(values: Seq<u64>, j: int, at: u64)
    requires
        0 <= j <= values.len(),
        forall|k: int| 0 <= k < j ==> values[k] <= at,
        forall|k: int| j <= k < values.len() ==> values[k] > at,
    ensures
        at_most(values, at) == j,
    decreases values.len(),
{
    if values.len() > 0 {
        if j == values.len() {
            lemma_count_of_ascending(values.drop_last(), j - 1, at);
        } else {
            lemma_count_of_ascending(values.drop_last(), j, at);
        }
    }
}

proof fn lemma_more_further_on(values: Seq<u64>, a: u64, b: u64)
    requires
        a <= b,
    ensures
        at_most(values, a) <= at_most(values, b) <= values.len(),
    decreases values.len(),
{
    if values.len() > 0 {
        lemma_more_further_on(values.drop_last(), a, b);
    }
}

/// How many of ascending values lie up to a place.
proof fn lemma_split(values: Seq<u64>, at: u64) -> (j: int)
    requires
        ascending(values),
    ensures
        0 <= j <= values.len(),
        j == at_most(values, at),
        forall|k: int| 0 <= k < j ==> values[k] <= at,
        forall|k: int| j <= k < values.len() ==> values[k] > at,
    decreases values.len(),
{
    if values.len() == 0 {
        0
    } else {
        let rest = values.drop_last();
        let j = lemma_split(rest, at);
        assert forall|k: int| 0 <= k < rest.len() implies rest[k] == values[k] by {}
        if values.last() <= at {
            assert forall|k: int| 0 <= k < values.len() implies values[k] <= at by {
                assert(values[k] <= values[values.len() - 1]);
            }
            if j < rest.len() {
                assert(rest[j] > at);
                assert(values[j] <= at);
            }
            j + 1
        } else {
            j
        }
    }
}

spec fn value_ranks(values: Seq<u64>) -> Seq<Rank> {
    values.map_values(|v: u64| Rank { first: v, second: 0, third: 0, fourth: 0, fifth: 0 })
}

fn sort_values(values: &Vec<u64>) -> (sorted: Vec<u64>)
    ensures
        sorted@.len() == values@.len(),
        sorted@.to_multiset() == values@.to_multiset(),
        ascending(sorted@),
{
    let mut ranks: Vec<Rank> = Vec::with_capacity(values.len());
    let mut i: usize = 0;
    while i < values.len()
        invariant
            i <= values@.len(),
            ranks@ == value_ranks(values@).take(i as int),
        decreases values@.len() - i,
    {
        ranks.push(Rank { first: values[i], second: 0, third: 0, fourth: 0, fifth: 0 });
        assert(ranks@ =~= value_ranks(values@).take(i + 1));
        i = i + 1;
    }
    assert(ranks@ =~= value_ranks(values@));
    let sorted: Vec<u64> = sort_items(values, &ranks);
    proof {
        lemma_whole_order(ranks@);
        lemma_ordered_members(values@, ranks@);
        let order = whole_order(ranks@);
        assert forall|a: int, b: int| 0 <= a <= b < sorted@.len() implies sorted@[a]
            <= sorted@[b] by {
            assert(order[a] < ranks@.len() && order[b] < ranks@.len());
            if a < b {
                assert(before(ranks@, order[a], order[b]));
            }
        }
    }
    sorted
}

/// Whether no line crosses more edges than the limit.
pub fn is_uncrowded(edges: &Vec<Edge>, limit: u32) -> (r: bool)
    requires
        proper(edges@),
    ensures
        r == uncrowded(edges@, limit),
{
    if edges.len() as u64 <= limit as u64 {
        proof {
            assert forall|at: u64| #[trigger] crowd(edges@, at) <= limit by {
                lemma_few_edges(edges@, at);
            }
        }
        return true;
    }
    let mut begins: Vec<u64> = Vec::with_capacity(edges.len());
    let mut ends: Vec<u64> = Vec::with_capacity(edges.len());
    let mut i: usize = 0;
    while i < edges.len()
        invariant
            i <= edges@.len(),
            begins@ == lows(edges@).take(i as int),
            ends@ == highs(edges@).take(i as int),
        decreases edges@.len() - i,
    {
        begins.push(edges[i].low);
        ends.push(edges[i].high);
        assert(begins@ =~= lows(edges@).take(i + 1));
        assert(ends@ =~= highs(edges@).take(i + 1));
        i = i + 1;
    }
    assert(begins@ =~= lows(edges@));
    assert(ends@ =~= highs(edges@));
    let begins: Vec<u64> = sort_values(&begins);
    let ends: Vec<u64> = sort_values(&ends);
    proof {
        assert forall|at: u64| #[trigger] crowd(edges@, at) == at_most(begins@, at) - at_most(
            ends@,
            at,
        ) by {
            lemma_crowd_by_ends(edges@, at);
            lemma_count_in_any_order(begins@, lows(edges@), at);
            lemma_count_in_any_order(ends@, highs(edges@), at);
        }
    }
    let mut i: usize = 0;
    let mut ended: usize = 0;
    while i < begins.len()
        invariant
            ascending(begins@),
            ascending(ends@),
            ends@.len() == begins@.len(),
            forall|at: u64| #[trigger] crowd(edges@, at) == at_most(begins@, at) - at_most(
                ends@,
                at,
            ),
            i <= begins@.len(),
            ended <= ends@.len(),
            forall|k: int| 0 <= k < ended ==> i < begins@.len() ==> ends@[k] <= begins@[i as int],
            forall|k: int|
                0 <= k < i ==> k + 1 - at_most(ends@, #[trigger] begins@[k]) <= limit,
        decreases begins@.len() - i,
    {
        let at: u64 = begins[i];
        while ended < ends.len() && ends[ended] <= at
            invariant
                ended <= ends@.len(),
                forall|k: int| 0 <= k < ended ==> ends@[k] <= at,
            ensures
                ended <= ends@.len(),
                forall|k: int| 0 <= k < ended ==> ends@[k] <= at,
                ended < ends@.len() ==> ends@[ended as int] > at,
            decreases ends@.len() - ended,
        {
            ended = ended + 1;
        }
        proof {
            assert forall|k: int| ended <= k < ends@.len() implies ends@[k] > at by {
                assert(ends@[ended as int] <= ends@[k]);
            }
            lemma_count_of_ascending(ends@, ended as int, at);
            let j = lemma_split(begins@, at);
            if j <= i {
                assert(begins@[i as int] > at);
            }
            assert(crowd(edges@, at) >= i + 1 - ended);
        }
        if i >= ended && i - ended >= limit as usize {
            assert(crowd(edges@, at) > limit);
            return false;
        }
        assert(i + 1 < begins@.len() ==> at <= begins@[i + 1]);
        i = i + 1;
    }
    proof {
        assert forall|at: u64| #[trigger] crowd(edges@, at) <= limit by {
            let j = lemma_split(begins@, at);
            if j > 0 {
                let last = begins@[j - 1];
                assert(j - at_most(ends@, last) <= limit);
                lemma_more_further_on(ends@, last, at);
            }
        }
    }
    true
}

} // verus!
