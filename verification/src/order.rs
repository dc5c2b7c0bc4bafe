//! Stable ordering of indices by a lexicographic rank.

use vstd::prelude::*;
use vstd::seq_lib::{to_multiset_build, to_multiset_contains, to_multiset_remove};
use vstd::set_lib::{lemma_int_range, lemma_len_subset, set_int_range};

verus! {

/// A sort rank: five components, compared from the first to the last.
#[derive(Clone, Copy, Debug, PartialEq, Eq, Structural)]
pub struct Rank {
    pub first: u64,
    pub second: u64,
    pub third: u64,
    pub fourth: u64,
    pub fifth: u64,
}

impl Rank {
    pub open spec fn lt(self, other: Rank) -> bool {
        ||| self.first < other.first
        ||| self.first == other.first && self.second < other.second
        ||| self.first == other.first && self.second == other.second && self.third < other.third
        ||| self.first == other.first && self.second == other.second && self.third == other.third
            && self.fourth < other.fourth
        ||| self.first == other.first && self.second == other.second && self.third == other.third
            && self.fourth == other.fourth && self.fifth < other.fifth
    }

    pub fn less_than(&self, other: &Rank) -> (r: bool)
        ensures
            r == self.lt(*other),
    {
        if self.first != other.first {
            self.first < other.first
        } else if self.second != other.second {
            self.second < other.second
        } else if self.third != other.third {
            self.third < other.third
        } else if self.fourth != other.fourth {
            self.fourth < other.fourth
        } else {
            self.fifth < other.fifth
        }
    }
}

/// Index `i` is placed before index `j`: by rank, and by index where the ranks
/// are equal.
pub open spec fn before(ranks: Seq<Rank>, i: usize, j: usize) -> bool {
    ranks[i as int].lt(ranks[j as int]) || (ranks[i as int] == ranks[j as int] && i < j)
}

/// Every index is placed before all that follow it.
pub open spec fn arranged(ranks: Seq<Rank>, order: Seq<usize>) -> bool {
    forall|a: int, b: int|
        0 <= a < b < order.len() ==> before(ranks, #[trigger] order[a], #[trigger] order[b])
}

/// Both sequences hold the same indices.
pub open spec fn same_members(a: Seq<usize>, b: Seq<usize>) -> bool {
    forall|x: usize| #[trigger] a.contains(x) <==> b.contains(x)
}

/// No index twice, and each one has a rank.
pub open spec fn proper_picks(ranks: Seq<Rank>, picks: Seq<usize>) -> bool {
    &&& forall|a: int| 0 <= a < picks.len() ==> (#[trigger] picks[a]) < ranks.len()
    &&& forall|a: int, b: int|
        0 <= a < b < picks.len() ==> #[trigger] picks[a] != #[trigger] picks[b]
}

fn merge(ranks: &Vec<Rank>, left: &Vec<usize>, right: &Vec<usize>) -> (merged: Vec<usize>)
    requires
        proper_picks(ranks@, left@ + right@),
        arranged(ranks@, left@),
        arranged(ranks@, right@),
        left@.len() + right@.len() <= usize::MAX,
    ensures
        merged@.len() == left@.len() + right@.len(),
        arranged(ranks@, merged@),
        same_members(merged@, left@ + right@),
{
    let mut merged: Vec<usize> = Vec::with_capacity(left.len() + right.len());
    let mut i: usize = 0;
    let mut j: usize = 0;
    let ghost both = left@ + right@;
    assert(forall|a: int| 0 <= a < left@.len() ==> both[a] == left@[a]);
    assert(forall|b: int| 0 <= b < right@.len() ==> both[left@.len() + b] == right@[b]);
    while i < left.len() || j < right.len()
        invariant
            both == left@ + right@,
            proper_picks(ranks@, both),
            forall|a: int| 0 <= a < left@.len() ==> both[a] == #[trigger] left@[a],
            forall|b: int| 0 <= b < right@.len() ==> both[left@.len() + b] == #[trigger] right@[b],
            arranged(ranks@, left@),
            arranged(ranks@, right@),
            i <= left@.len(),
            j <= right@.len(),
            merged@.len() == i + j,
            arranged(ranks@, merged@),
            forall|a: int, b: int|
                0 <= a < merged@.len() && i <= b < left@.len() ==> before(
                    ranks@,
                    #[trigger] merged@[a],
                    #[trigger] left@[b],
                ),
            forall|a: int, b: int|
                0 <= a < merged@.len() && j <= b < right@.len() ==> before(
                    ranks@,
                    #[trigger] merged@[a],
                    #[trigger] right@[b],
                ),
            forall|a: int| 0 <= a < i ==> merged@.contains(#[trigger] left@[a]),
            forall|b: int| 0 <= b < j ==> merged@.contains(#[trigger] right@[b]),
            forall|x: usize| #[trigger] merged@.contains(x) ==> both.contains(x),
        decreases left@.len() - i + right@.len() - j,
    {
        let ghost prior = merged@;
        let take_left: bool = if i >= left.len() {
            false
        } else if j >= right.len() {
            true
        } else {
            assert(both[i as int] < ranks@.len() && both[left@.len() + j] < ranks@.len());
            let a: usize = left[i];
            let b: usize = right[j];
            ranks[a].less_than(&ranks[b]) || (!ranks[b].less_than(&ranks[a]) && a < b)
        };
        let next: usize = if take_left {
            left[i]
        } else {
            right[j]
        };
        merged.push(next);
        proof {
            assert(merged@[merged@.len() - 1] == next);
            if take_left {
                assert(both[i as int] == next);
                assert forall|b: int| j <= b < right@.len() implies before(
                    ranks@,
                    next,
                    #[trigger] right@[b],
                ) by {
                    assert(both[left@.len() + j] == right@[j as int]);
                    assert(left@[i as int] != right@[j as int]);
                    if b > j {
                        assert(before(ranks@, right@[j as int], right@[b]));
                    }
                }
            } else {
                assert(both[left@.len() + j] == next);
                assert forall|b: int| i <= b < left@.len() implies before(
                    ranks@,
                    next,
                    #[trigger] left@[b],
                ) by {
                    assert(both[i as int] == left@[i as int]);
                    assert(left@[i as int] != right@[j as int]);
                    if b > i {
                        assert(before(ranks@, left@[i as int], left@[b]));
                    }
                }
            }
            assert forall|x: usize| prior.contains(x) implies #[trigger] merged@.contains(x) by {
                let k = choose|k: int| 0 <= k < prior.len() && prior[k] == x;
                assert(merged@[k] == x);
            }
            assert forall|x: usize| #[trigger] merged@.contains(x) implies both.contains(x) by {
                let k = choose|k: int| 0 <= k < merged@.len() && merged@[k] == x;
                if k < prior.len() {
                    assert(prior[k] == x);
                    assert(prior.contains(x));
                }
            }
        }
        if take_left {
            i = i + 1;
        } else {
            j = j + 1;
        }
    }
    proof {
        assert forall|x: usize| both.contains(x) implies #[trigger] merged@.contains(x) by {
            let k = choose|k: int| 0 <= k < both.len() && both[k] == x;
            if k < left@.len() {
                assert(left@[k] == x);
            } else {
                assert(right@[k - left@.len()] == x);
            }
        }
    }
    merged
}

fn sort_range(ranks: &Vec<Rank>, picks: &Vec<usize>, lo: usize, hi: usize) -> (order: Vec<usize>)
    requires
        proper_picks(ranks@, picks@),
        lo <= hi <= picks@.len(),
    ensures
        order@.len() == hi - lo,
        arranged(ranks@, order@),
        same_members(order@, picks@.subrange(lo as int, hi as int)),
    decreases hi - lo,
{
    let ghost part = picks@.subrange(lo as int, hi as int);
    if hi - lo < 2 {
        let mut order: Vec<usize> = Vec::new();
        if lo < hi {
            order.push(picks[lo]);
        }
        assert(order@ =~= part);
        return order;
    }
    let mid: usize = lo + (hi - lo) / 2;
    let left: Vec<usize> = sort_range(ranks, picks, lo, mid);
    let right: Vec<usize> = sort_range(ranks, picks, mid, hi);
    let ghost a = picks@.subrange(lo as int, mid as int);
    let ghost b = picks@.subrange(mid as int, hi as int);
    proof {
        assert(a + b =~= part);
        lemma_halves_stay_proper(ranks@, picks@, lo as int, mid as int, hi as int, left@, right@);
    }
    let order: Vec<usize> = merge(ranks, &left, &right);
    proof {
        assert forall|x: usize| #[trigger] order@.contains(x) <==> part.contains(x) by {
            assert(order@.contains(x) <==> (left@ + right@).contains(x));
            lemma_in_concat(left@, right@, x);
            lemma_in_concat(a, b, x);
            assert(left@.contains(x) <==> a.contains(x));
            assert(right@.contains(x) <==> b.contains(x));
        }
    }
    order
}

proof fn lemma_in_concat(a: Seq<usize>, b: Seq<usize>, x: usize)
    ensures
        (a + b).contains(x) <==> a.contains(x) || b.contains(x),
{
    let s = a + b;
    if a.contains(x) {
        let k = choose|k: int| 0 <= k < a.len() && a[k] == x;
        assert(s[k] == x);
    }
    if b.contains(x) {
        let k = choose|k: int| 0 <= k < b.len() && b[k] == x;
        assert(s[a.len() + k] == x);
    }
    if s.contains(x) {
        let k = choose|k: int| 0 <= k < s.len() && s[k] == x;
        if k < a.len() {
            assert(a[k] == x);
        } else {
            assert(b[k - a.len()] == x);
        }
    }
}

proof fn lemma_halves_stay_proper(
    ranks: Seq<Rank>,
    picks: Seq<usize>,
    lo: int,
    mid: int,
    hi: int,
    left: Seq<usize>,
    right: Seq<usize>,
)
    requires
        proper_picks(ranks, picks),
        0 <= lo <= mid <= hi <= picks.len(),
        same_members(left, picks.subrange(lo, mid)),
        same_members(right, picks.subrange(mid, hi)),
        arranged(ranks, left),
        arranged(ranks, right),
    ensures
        proper_picks(ranks, left + right),
{
    let a = picks.subrange(lo, mid);
    let b = picks.subrange(mid, hi);
    let s = left + right;
    assert forall|k: int| 0 <= k < left.len() implies exists|m: int|
        lo <= m < mid && picks[m] == #[trigger] left[k] by {
        assert(left.contains(left[k]));
        assert(a.contains(left[k]));
        let m = choose|m: int| 0 <= m < a.len() && a[m] == left[k];
        assert(picks[lo + m] == left[k]);
    }
    assert forall|k: int| 0 <= k < right.len() implies exists|m: int|
        mid <= m < hi && picks[m] == #[trigger] right[k] by {
        assert(right.contains(right[k]));
        assert(b.contains(right[k]));
        let m = choose|m: int| 0 <= m < b.len() && b[m] == right[k];
        assert(picks[mid + m] == right[k]);
    }
    assert forall|k: int| 0 <= k < s.len() implies (#[trigger] s[k]) < ranks.len() by {
        if k < left.len() {
            assert(s[k] == left[k]);
        } else {
            assert(s[k] == right[k - left.len()]);
        }
    }
    assert forall|j: int, k: int| 0 <= j < k < s.len() implies #[trigger] s[j] != #[trigger] s[k] by {
        if k < left.len() {
            assert(before(ranks, left[j], left[k]));
        } else if j >= left.len() {
            assert(before(ranks, right[j - left.len()], right[k - left.len()]));
        } else {
            assert(s[j] == left[j] && s[k] == right[k - left.len()]);
        }
    }
}

/// Arranges the picked indices by rank; indices of equal rank keep their
/// numerical order.
pub fn sort_by_rank(ranks: &Vec<Rank>, picks: &Vec<usize>) -> (order: Vec<usize>)
    requires
        proper_picks(ranks@, picks@),
    ensures
        order@.len() == picks@.len(),
        arranged(ranks@, order@),
        same_members(order@, picks@),
{
    assert(picks@.subrange(0, picks@.len() as int) =~= picks@);
    sort_range(ranks, picks, 0, picks.len())
}

/// Distinct indices below `n` are at most `n` many.
pub proof fn lemma_distinct_indices_fit(picks: Seq<usize>, n: int)
    requires
        0 <= n,
        picks.no_duplicates(),
        forall|a: int| 0 <= a < picks.len() ==> (#[trigger] picks[a]) < n,
    ensures
        picks.len() <= n,
{
    let wide = picks.map_values(|x: usize| x as int);
    assert(wide.no_duplicates());
    wide.unique_seq_to_set();
    lemma_int_range(0, n);
    assert forall|x: int| #[trigger] wide.to_set().contains(x) implies set_int_range(
        0,
        n,
    ).contains(x) by {
        let a = choose|a: int| 0 <= a < wide.len() && wide[a] == x;
        assert(picks[a] < n);
    }
    lemma_len_subset(wide.to_set(), set_int_range(0, n));
}

/// There is only one arrangement: two arranged sequences with the same members
/// are equal.
pub proof fn lemma_arrangement_is_unique(ranks: Seq<Rank>, a: Seq<usize>, b: Seq<usize>)
    requires
        arranged(ranks, a),
        arranged(ranks, b),
        same_members(a, b),
    ensures
        a == b,
    decreases a.len(),
{
    if a.len() == 0 {
        if b.len() > 0 {
            assert(b.contains(b[0]));
            assert(a.contains(b[0]));
        }
        assert(a =~= b);
    } else {
        assert(a.contains(a[0]));
        assert(b.contains(a[0]));
        let j = choose|j: int| 0 <= j < b.len() && b[j] == a[0];
        assert(b.contains(b[0]));
        assert(a.contains(b[0]));
        let k = choose|k: int| 0 <= k < a.len() && a[k] == b[0];
        if j > 0 {
            assert(before(ranks, b[0], b[j]));
            if k > 0 {
                assert(before(ranks, a[0], a[k]));
            }
        }
        assert(a[0] == b[0]);
        let s = a.drop_first();
        let t = b.drop_first();
        assert forall|x: usize| #[trigger] s.contains(x) <==> t.contains(x) by {
            lemma_tail_members(ranks, a, x);
            lemma_tail_members(ranks, b, x);
            assert(a.contains(x) <==> b.contains(x));
        }
        assert(arranged(ranks, s)) by {
            assert forall|p: int, q: int| 0 <= p < q < s.len() implies before(
                ranks,
                #[trigger] s[p],
                #[trigger] s[q],
            ) by {
                assert(before(ranks, a[p + 1], a[q + 1]));
            }
        }
        assert(arranged(ranks, t)) by {
            assert forall|p: int, q: int| 0 <= p < q < t.len() implies before(
                ranks,
                #[trigger] t[p],
                #[trigger] t[q],
            ) by {
                assert(before(ranks, b[p + 1], b[q + 1]));
            }
        }
        lemma_arrangement_is_unique(ranks, s, t);
        assert(a =~= seq![a[0]] + s);
        assert(b =~= seq![b[0]] + t);
    }
}

proof fn lemma_tail_members(ranks: Seq<Rank>, a: Seq<usize>, x: usize)
    requires
        arranged(ranks, a),
        a.len() > 0,
    ensures
        a.drop_first().contains(x) <==> a.contains(x) && x != a[0],
{
    let s = a.drop_first();
    if s.contains(x) {
        let k = choose|k: int| 0 <= k < s.len() && s[k] == x;
        assert(a[k + 1] == x);
        assert(before(ranks, a[0], a[k + 1]));
    }
    if a.contains(x) && x != a[0] {
        let k = choose|k: int| 0 <= k < a.len() && a[k] == x;
        assert(s[k - 1] == x);
    }
}

spec fn inserted(ranks: Seq<Rank>, order: Seq<usize>, x: usize) -> Seq<usize>
    decreases order.len(),
{
    if order.len() == 0 {
        seq![x]
    } else if before(ranks, order.last(), x) {
        order.push(x)
    } else {
        inserted(ranks, order.drop_last(), x).push(order.last())
    }
}

proof fn lemma_inserted(ranks: Seq<Rank>, order: Seq<usize>, x: usize)
    requires
        arranged(ranks, order),
        !order.contains(x),
    ensures
        arranged(ranks, inserted(ranks, order, x)),
        forall|y: usize| #[trigger]
            inserted(ranks, order, x).contains(y) <==> order.contains(y) || y == x,
    decreases order.len(),
{
    let result = inserted(ranks, order, x);
    if order.len() == 0 {
        assert(result[0] == x);
    } else {
        let rest = order.drop_last();
        let last = order.last();
        assert(order.contains(last));
        assert forall|y: usize| #[trigger] order.contains(y) <==> rest.contains(y) || y == last by {
            if order.contains(y) {
                let k = choose|k: int| 0 <= k < order.len() && order[k] == y;
                if k < rest.len() {
                    assert(rest[k] == y);
                }
            }
            if rest.contains(y) {
                let k = choose|k: int| 0 <= k < rest.len() && rest[k] == y;
                assert(order[k] == y);
            }
        }
        if before(ranks, last, x) {
            assert forall|a: int, b: int| 0 <= a < b < result.len() implies before(
                ranks,
                #[trigger] result[a],
                #[trigger] result[b],
            ) by {
                if b == order.len() && a < order.len() - 1 {
                    assert(before(ranks, order[a], order[order.len() - 1]));
                }
            }
            assert forall|y: usize| #[trigger] result.contains(y) <==> order.contains(y) || y == x by {
                if order.contains(y) {
                    let k = choose|k: int| 0 <= k < order.len() && order[k] == y;
                    assert(result[k] == y);
                }
                if y == x {
                    assert(result[order.len() as int] == x);
                }
                if result.contains(y) {
                    let k = choose|k: int| 0 <= k < result.len() && result[k] == y;
                    if k < order.len() {
                        assert(order[k] == y);
                    }
                }
            }
        } else {
            lemma_inserted(ranks, rest, x);
            let front = inserted(ranks, rest, x);
            assert forall|y: usize| #[trigger] result.contains(y) <==> front.contains(y) || y
                == last by {
                if front.contains(y) {
                    let k = choose|k: int| 0 <= k < front.len() && front[k] == y;
                    assert(result[k] == y);
                }
                if y == last {
                    assert(result[front.len() as int] == last);
                }
                if result.contains(y) {
                    let k = choose|k: int| 0 <= k < result.len() && result[k] == y;
                    if k < front.len() {
                        assert(front[k] == y);
                    }
                }
            }
            assert forall|a: int, b: int| 0 <= a < b < result.len() implies before(
                ranks,
                #[trigger] result[a],
                #[trigger] result[b],
            ) by {
                if b == front.len() {
                    assert(front.contains(front[a]));
                    if front[a] != x {
                        assert(rest.contains(front[a]));
                        let k = choose|k: int| 0 <= k < rest.len() && rest[k] == front[a];
                        assert(before(ranks, order[k], order[order.len() - 1]));
                    } else {
                        assert(before(ranks, x, last));
                    }
                } else {
                    assert(before(ranks, front[a], front[b]));
                }
            }
        }
    }
}

/// Any set of indices can be arranged.
pub proof fn lemma_arrangement_exists(ranks: Seq<Rank>, picks: Seq<usize>) -> (order: Seq<usize>)
    requires
        picks.no_duplicates(),
    ensures
        arranged(ranks, order),
        same_members(order, picks),
    decreases picks.len(),
{
    if picks.len() == 0 {
        picks
    } else {
        let rest = picks.drop_last();
        let x = picks.last();
        let order = lemma_arrangement_exists(ranks, rest);
        assert(!rest.contains(x));
        assert(!order.contains(x));
        lemma_inserted(ranks, order, x);
        let result = inserted(ranks, order, x);
        assert forall|y: usize| #[trigger] result.contains(y) <==> picks.contains(y) by {
            assert(order.contains(y) <==> rest.contains(y));
            if rest.contains(y) {
                let k = choose|k: int| 0 <= k < rest.len() && rest[k] == y;
                assert(picks[k] == y);
            }
            if y == x {
                assert(picks[picks.len() - 1] == x);
            }
            if picks.contains(y) && y != x {
                let k = choose|k: int| 0 <= k < picks.len() && picks[k] == y;
                assert(rest[k] == y);
            }
        }
        result
    }
}

/// An arrangement of all the indices that have a rank.
pub open spec fn is_whole_order(ranks: Seq<Rank>, order: Seq<usize>) -> bool {
    &&& arranged(ranks, order)
    &&& forall|i: usize| #[trigger] order.contains(i) <==> i < ranks.len()
}

/// The arrangement of all the indices that have a rank.
pub open spec fn whole_order(ranks: Seq<Rank>) -> Seq<usize> {
    choose|order: Seq<usize>| is_whole_order(ranks, order)
}

/// Items by the rank of their place; items of one rank keep their order.
pub open spec fn ordered<T>(items: Seq<T>, ranks: Seq<Rank>) -> Seq<T> {
    whole_order(ranks).map_values(|i: usize| items[i as int])
}

/// Arranges all the indices that have a rank.
pub fn sort_all(ranks: &Vec<Rank>) -> (order: Vec<usize>)
    ensures
        is_whole_order(ranks@, order@),
        order@ == whole_order(ranks@),
        order@.len() == ranks@.len(),
{
    let mut picks: Vec<usize> = Vec::with_capacity(ranks.len());
    let mut i: usize = 0;
    while i < ranks.len()
        invariant
            i <= ranks@.len(),
            picks@.len() == i,
            forall|a: int| 0 <= a < i ==> picks@[a] == a,
        decreases ranks@.len() - i,
    {
        picks.push(i);
        i = i + 1;
    }
    let order: Vec<usize> = sort_by_rank(ranks, &picks);
    proof {
        assert forall|x: usize| #[trigger] order@.contains(x) <==> x < ranks@.len() by {
            assert(order@.contains(x) <==> picks@.contains(x));
            if x < ranks@.len() {
                assert(picks@[x as int] == x);
            }
        }
        assert(is_whole_order(ranks@, order@));
        lemma_arrangement_is_unique(ranks@, order@, whole_order(ranks@));
    }
    order
}

/// Sorts items by the rank of their place.
pub fn sort_items<T: Copy>(items: &Vec<T>, ranks: &Vec<Rank>) -> (sorted: Vec<T>)
    requires
        ranks@.len() == items@.len(),
    ensures
        sorted@ == ordered(items@, ranks@),
        sorted@.len() == items@.len(),
{
    let order: Vec<usize> = sort_all(ranks);
    let mut sorted: Vec<T> = Vec::with_capacity(items.len());
    let mut i: usize = 0;
    while i < order.len()
        invariant
            ranks@.len() == items@.len(),
            order@ == whole_order(ranks@),
            is_whole_order(ranks@, order@),
            i <= order@.len(),
            sorted@ == ordered(items@, ranks@).take(i as int),
        decreases order@.len() - i,
    {
        assert(order@.contains(order@[i as int]));
        sorted.push(items[order[i]]);
        assert(sorted@ =~= ordered(items@, ranks@).take(i + 1));
        i = i + 1;
    }
    assert(sorted@ =~= ordered(items@, ranks@));
    sorted
}

/// The arrangement of all indices is there, and is a permutation.
pub proof fn lemma_whole_order(ranks: Seq<Rank>)
    requires
        ranks.len() <= usize::MAX,
    ensures
        is_whole_order(ranks, whole_order(ranks)),
        whole_order(ranks).len() == ranks.len(),
        whole_order(ranks).no_duplicates(),
        forall|a: int|
            0 <= a < ranks.len() ==> (#[trigger] whole_order(ranks)[a]) < ranks.len(),
{
    let picks = Seq::new(ranks.len(), |i: int| i as usize);
    assert(picks.no_duplicates());
    let any = lemma_arrangement_exists(ranks, picks);
    assert forall|i: usize| #[trigger] any.contains(i) <==> i < ranks.len() by {
        assert(any.contains(i) <==> picks.contains(i));
        if i < ranks.len() {
            assert(picks[i as int] == i);
        }
    }
    assert(is_whole_order(ranks, any));
    let order = whole_order(ranks);
    assert forall|a: int| 0 <= a < order.len() implies (#[trigger] order[a]) < ranks.len() by {
        assert(order.contains(order[a]));
    }
    assert forall|a: int, b: int| 0 <= a < b < order.len() implies order[a] != order[b] by {
        assert(before(ranks, order[a], order[b]));
    }
    assert(order.no_duplicates());
    lemma_distinct_indices_fit(order, ranks.len() as int);
    let slots = Seq::new(ranks.len(), |i: int| order.index_of(i as usize) as usize);
    assert forall|i: int| 0 <= i < ranks.len() implies (#[trigger] slots[i]) < order.len()
        && order[slots[i] as int] == i by {
        assert(order.contains(i as usize));
    }
    assert(slots.no_duplicates());
    lemma_distinct_indices_fit(slots, order.len() as int);
}

/// Sorting neither loses nor adds an item.
pub proof fn lemma_ordered_members<T>(items: Seq<T>, ranks: Seq<Rank>)
    requires
        ranks.len() == items.len(),
        items.len() <= usize::MAX,
    ensures
        ordered(items, ranks).len() == items.len(),
        ordered(items, ranks).to_multiset() == items.to_multiset(),
        forall|item: T| #[trigger]
            items.contains(item) <==> ordered(items, ranks).contains(item),
{
    lemma_whole_order(ranks);
    lemma_permuted(items, whole_order(ranks));
    let sorted = ordered(items, ranks);
    assert forall|item: T| #[trigger] items.contains(item) <==> sorted.contains(item) by {
        to_multiset_contains(items, item);
        to_multiset_contains(sorted, item);
    }
}

/// Taking items by a permutation of their places keeps how often each occurs.
proof fn lemma_permuted<T>(items: Seq<T>, order: Seq<usize>)
    requires
        items.len() <= usize::MAX,
        order.len() == items.len(),
        order.no_duplicates(),
        forall|i: usize| #[trigger] order.contains(i) <==> i < items.len(),
    ensures
        order.map_values(|i: usize| items[i as int]).to_multiset() == items.to_multiset(),
    decreases items.len(),
{
    let taken = order.map_values(|i: usize| items[i as int]);
    if items.len() == 0 {
        assert(taken =~= items);
    } else {
        let last = (items.len() - 1) as usize;
        assert(order.contains(order[0]));
        assert(order.contains(last));
        let k = choose|k: int| 0 <= k < order.len() && order[k] == last;
        let rest = order.remove(k);
        let fewer = items.drop_last();
        assert forall|a: int, b: int| 0 <= a < b < rest.len() implies rest[a] != rest[b] by {
            let (x, y) = (if a < k { a } else { a + 1 }, if b < k { b } else { b + 1 });
            assert(rest[a] == order[x] && rest[b] == order[y]);
        }
        assert forall|i: usize| #[trigger] rest.contains(i) <==> i < fewer.len() by {
            if rest.contains(i) {
                let a = choose|a: int| 0 <= a < rest.len() && rest[a] == i;
                let x = if a < k { a } else { a + 1 };
                assert(order[x] == i);
                assert(order.contains(i));
                assert(order[x] != order[k]);
            }
            if i < fewer.len() {
                assert(order.contains(i));
                let x = choose|x: int| 0 <= x < order.len() && order[x] == i;
                let a = if x < k { x } else { x - 1 };
                assert(rest[a] == i);
            }
        }
        lemma_permuted(fewer, rest);
        assert(taken.remove(k) =~= rest.map_values(|i: usize| fewer[i as int])) by {
            assert forall|a: int| 0 <= a < rest.len() implies taken.remove(k)[a]
                == fewer[rest[a] as int] by {
                assert(rest.contains(rest[a]));
            }
        }
        to_multiset_remove(taken, k);
        to_multiset_build(fewer, items.last());
        to_multiset_contains(taken, taken[k]);
        assert(fewer.push(items.last()) =~= items);
        assert(taken[k] == items.last());
        assert(taken.to_multiset() =~= taken.to_multiset().remove(taken[k]).insert(taken[k]));
    }
}

/// The items stand in another order: `from` tells where each came from, and no
/// place is taken twice.
pub open spec fn rearranged<T>(items: Seq<T>, sorted: Seq<T>, from: Seq<usize>) -> bool {
    &&& sorted.len() == items.len()
    &&& from.len() == items.len()
    &&& from.no_duplicates()
    &&& forall|k: int|
        0 <= k < from.len() ==> (#[trigger] from[k]) < items.len() && sorted[k]
            == items[from[k] as int]
}

/// Sorting rearranges: the items of the ordered sequence are the given ones, in
/// the order of the arrangement.
pub proof fn lemma_ordered_is_rearranged<T>(items: Seq<T>, ranks: Seq<Rank>)
    requires
        ranks.len() == items.len(),
        items.len() <= usize::MAX,
    ensures
        rearranged(items, ordered(items, ranks), whole_order(ranks)),
        forall|a: int, b: int|
            0 <= a < b < items.len() ==> before(
                ranks,
                #[trigger] whole_order(ranks)[a],
                #[trigger] whole_order(ranks)[b],
            ),
{
    lemma_whole_order(ranks);
}

} // verus!
