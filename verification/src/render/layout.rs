//! Draw order: opaque interiors grouped by geometry with the nearest group
//! first, and everything that blends from back to front.

use vstd::prelude::*;

use crate::order::{
    arranged, before, lemma_arrangement_exists, lemma_arrangement_is_unique, lemma_whole_order,
    sort_all, sort_by_rank, whole_order, Rank,
};
use crate::render::cache::GeometryRange;
use crate::scalar::Scalar;

verus! {

/// Where an instance's triangles live: the persistent tessellate-once cache,
/// or this frame's transient region.
#[derive(Clone, Copy, Debug, PartialEq, Eq, Structural)]
pub enum GeometryRef {
    Cached(u64),
    Dynamic(GeometryRange),
}

/// One filled or stroked outline to draw this frame.
#[derive(Clone, Copy, Debug, PartialEq, Eq)]
pub struct ExtractedInstance {
    pub geometry: GeometryRef,
    pub z: Scalar,
    pub linear: [Scalar; 4],
    pub translation: [Scalar; 2],
    pub color: [u8; 4],
    pub brush_params: [Scalar; 4],
    pub brush_meta: Scalar,
    pub opaque: bool,
    pub clip: Scalar,
    pub layer: u16,
}

/// What instances of one batch share. Batches must be homogeneous in geometry
/// and in layer mask, because a view skips whole batches.
#[derive(Clone, Copy, Debug, PartialEq, Eq, Structural)]
pub struct GroupKey {
    pub kind: u8,
    pub id: u64,
    pub layer: u16,
}

impl ExtractedInstance {
    /// Cached geometry batches across instances; transient geometry is told
    /// apart by where it lies.
    pub open spec fn group(self) -> GroupKey {
        match self.geometry {
            GeometryRef::Cached(key) => GroupKey { kind: 0, id: key, layer: self.layer },
            GeometryRef::Dynamic(range) => GroupKey {
                kind: 1,
                id: (range.interior_first * 0x1_0000_0000 + (range.base_vertex as u32)) as u64,
                layer: self.layer,
            },
        }
    }

    pub fn group_key(&self) -> (key: GroupKey)
        ensures
            key == self.group(),
    {
        match self.geometry {
            GeometryRef::Cached(key) => GroupKey { kind: 0, id: key, layer: self.layer },
            GeometryRef::Dynamic(range) => {
                let base: u32 = #[verifier::truncate]
                (range.base_vertex as u32);
                GroupKey {
                    kind: 1,
                    id: range.interior_first as u64 * 0x1_0000_0000 + base as u64,
                    layer: self.layer,
                }
            },
        }
    }
}

/// The nearest depth among the opaque members of a group with an index below
/// `n`.
pub open spec fn front_among(items: Seq<ExtractedInstance>, n: int, key: GroupKey) -> Option<Scalar>
    decreases n,
{
    if n <= 0 {
        None
    } else {
        let earlier = front_among(items, n - 1, key);
        let item = items[n - 1];
        if item.opaque && item.group() == key {
            match earlier {
                None => Some(item.z),
                Some(front) => Some(front.larger(item.z)),
            }
        } else {
            earlier
        }
    }
}

/// The nearest depth of a group of opaque instances.
pub open spec fn group_front(items: Seq<ExtractedInstance>, key: GroupKey) -> Scalar {
    match front_among(items, items.len() as int, key) {
        None => Scalar { bits: 0 },
        Some(front) => front,
    }
}

/// Orders by group alone.
pub open spec fn group_ranks(items: Seq<ExtractedInstance>) -> Seq<Rank> {
    Seq::new(
        items.len(),
        |i: int|
            Rank {
                first: items[i].group().kind as u64,
                second: items[i].group().id,
                third: items[i].group().layer as u64,
                fourth: 0,
                fifth: 0,
            },
    )
}

/// Opaque drawing order: the nearest group first, the members of a group
/// together, and the nearest member first.
pub open spec fn opaque_ranks(items: Seq<ExtractedInstance>) -> Seq<Rank> {
    Seq::new(
        items.len(),
        |i: int|
            Rank {
                first: (0xffff_ffff - group_front(items, items[i].group()).total()) as u64,
                second: items[i].group().kind as u64,
                third: items[i].group().id,
                fourth: items[i].group().layer as u64,
                fifth: (0xffff_ffff - items[i].z.total()) as u64,
            },
    )
}

/// Blending order: from the back to the front.
pub open spec fn depth_ranks(items: Seq<ExtractedInstance>) -> Seq<Rank> {
    Seq::new(
        items.len(),
        |i: int|
            Rank {
                first: items[i].z.total() as u64,
                second: 0,
                third: 0,
                fourth: 0,
                fifth: 0,
            },
    )
}

/// The indices of the opaque instances, and no others.
pub open spec fn lists_opaque(items: Seq<ExtractedInstance>, order: Seq<usize>) -> bool {
    forall|i: usize| #[trigger]
        order.contains(i) <==> i < items.len() && items[i as int].opaque
}

/// All indices.
pub open spec fn lists_all(items: Seq<ExtractedInstance>, order: Seq<usize>) -> bool {
    forall|i: usize| #[trigger] order.contains(i) <==> i < items.len()
}

pub open spec fn is_opaque_order(items: Seq<ExtractedInstance>, order: Seq<usize>) -> bool {
    arranged(opaque_ranks(items), order) && lists_opaque(items, order)
}

pub open spec fn is_depth_order(items: Seq<ExtractedInstance>, order: Seq<usize>) -> bool {
    arranged(depth_ranks(items), order) && lists_all(items, order)
}

/// The opaque instances in drawing order.
pub open spec fn opaque_order(items: Seq<ExtractedInstance>) -> Seq<usize> {
    choose|order: Seq<usize>| is_opaque_order(items, order)
}

/// All instances from the back to the front.
pub open spec fn depth_order(items: Seq<ExtractedInstance>) -> Seq<usize> {
    choose|order: Seq<usize>| is_depth_order(items, order)
}

/// There is one opaque order.
pub proof fn lemma_opaque_order_is_unique(items: Seq<ExtractedInstance>, order: Seq<usize>)
    requires
        is_opaque_order(items, order),
    ensures
        order == opaque_order(items),
{
    lemma_arrangement_is_unique(opaque_ranks(items), order, opaque_order(items));
}

/// There is one order from back to front.
pub proof fn lemma_depth_order_is_unique(items: Seq<ExtractedInstance>, order: Seq<usize>)
    requires
        is_depth_order(items, order),
    ensures
        order == depth_order(items),
{
    lemma_arrangement_is_unique(depth_ranks(items), order, depth_order(items));
}

/// Indices of the opaque instances, ascending.
fn opaque_picks(items: &Vec<ExtractedInstance>) -> (picks: Vec<usize>)
    ensures
        lists_opaque(items@, picks@),
        forall|a: int, b: int| 0 <= a < b < picks@.len() ==> picks@[a] < picks@[b],
{
    let mut picks: Vec<usize> = Vec::new();
    let mut i: usize = 0;
    while i < items.len()
        invariant
            i <= items@.len(),
            forall|k: usize| #[trigger] picks@.contains(k) <==> k < i && items@[k as int].opaque,
            forall|a: int, b: int| 0 <= a < b < picks@.len() ==> picks@[a] < picks@[b],
            forall|a: int| 0 <= a < picks@.len() ==> picks@[a] < i,
        decreases items@.len() - i,
    {
        let ghost prior = picks@;
        if items[i].opaque {
            picks.push(i);
            assert(picks@[prior.len() as int] == i);
        }
        proof {
            assert forall|k: usize| #[trigger]
                picks@.contains(k) <==> k < i + 1 && items@[k as int].opaque by {
                if prior.contains(k) {
                    let a = choose|a: int| 0 <= a < prior.len() && prior[a] == k;
                    assert(picks@[a] == k);
                }
                if picks@.contains(k) && k != i {
                    let a = choose|a: int| 0 <= a < picks@.len() && picks@[a] == k;
                    assert(prior[a] == k);
                }
            }
        }
        i = i + 1;
    }
    picks
}

spec fn is_group_order(items: Seq<ExtractedInstance>, order: Seq<usize>) -> bool {
    arranged(group_ranks(items), order) && lists_opaque(items, order)
}

/// Members of one group stand side by side, by index.
proof fn lemma_group_neighbours(items: Seq<ExtractedInstance>, order: Seq<usize>, p: int, m: int)
    requires
        is_group_order(items, order),
        0 <= p < order.len(),
        0 <= m < items.len() <= usize::MAX,
        items[m].opaque,
        items[m].group() == items[order[p] as int].group(),
    ensures
        order[p] < items.len(),
        m < order[p] ==> p > 0 && order[p - 1] < items.len() && items[order[p - 1] as int].group()
            == items[order[p] as int].group() && m <= order[p - 1],
        m > order[p] ==> p + 1 < order.len() && order[p + 1] < items.len()
            && items[order[p + 1] as int].group() == items[order[p] as int].group() && m >= order[p
            + 1],
{
    let ranks = group_ranks(items);
    assert(order.contains(order[p]));
    assert(order.contains(m as usize));
    let q = choose|q: int| 0 <= q < order.len() && order[q] == m;
    if p > 0 {
        assert(order.contains(order[p - 1]));
    }
    if p + 1 < order.len() {
        assert(order.contains(order[p + 1]));
    }
    if m < order[p] {
        if q > p {
            assert(before(ranks, order[p], order[q]));
        }
        assert(q < p);
        assert(before(ranks, order[p - 1], order[p]));
        if q < p - 1 {
            assert(before(ranks, order[q], order[p - 1]));
        }
    }
    if m > order[p] {
        if q < p {
            assert(before(ranks, order[q], order[p]));
        }
        assert(q > p);
        assert(before(ranks, order[p], order[p + 1]));
        if q > p + 1 {
            assert(before(ranks, order[p + 1], order[q]));
        }
    }
}

/// Nothing of the group in between, nothing gained.
proof fn lemma_front_skips(items: Seq<ExtractedInstance>, lo: int, hi: int, key: GroupKey)
    requires
        0 <= lo <= hi <= items.len(),
        forall|m: int| lo <= m < hi && (#[trigger] items[m]).opaque ==> items[m].group() != key,
    ensures
        front_among(items, hi, key) == front_among(items, lo, key),
    decreases hi,
{
    if lo < hi {
        lemma_front_skips(items, lo, hi - 1, key);
    }
}

/// The front of each opaque instance's group, by index of the instance.
fn group_fronts(items: &Vec<ExtractedInstance>, picks: &Vec<usize>) -> (fronts: Vec<Scalar>)
    requires
        lists_opaque(items@, picks@),
        forall|a: int, b: int| 0 <= a < b < picks@.len() ==> picks@[a] < picks@[b],
    ensures
        fronts@.len() == items@.len(),
        forall|i: int|
            0 <= i < items@.len() && (#[trigger] items@[i]).opaque ==> fronts@[i] == group_front(
                items@,
                items@[i].group(),
            ),
{
    let n: usize = items.len();
    let mut ranks: Vec<Rank> = Vec::with_capacity(n);
    let mut fronts: Vec<Scalar> = Vec::with_capacity(n);
    let mut i: usize = 0;
    while i < n
        invariant
            i <= n,
            n == items@.len(),
            ranks@ == group_ranks(items@).take(i as int),
            fronts@.len() == i,
        decreases n - i,
    {
        let key: GroupKey = items[i].group_key();
        ranks.push(
            Rank { first: key.kind as u64, second: key.id, third: key.layer as u64, fourth: 0, fifth: 0 },
        );
        fronts.push(Scalar::zero());
        assert(ranks@ =~= group_ranks(items@).take(i + 1));
        i = i + 1;
    }
    assert(ranks@ =~= group_ranks(items@));
    assert forall|a: int| 0 <= a < picks@.len() implies (#[trigger] picks@[a]) < ranks@.len() by {
        assert(picks@.contains(picks@[a]));
    }
    let order: Vec<usize> = sort_by_rank(&ranks, picks);
    assert(lists_opaque(items@, order@)) by {
        assert(forall|x: usize| #[trigger] order@.contains(x) <==> picks@.contains(x));
    }
    assert(is_group_order(items@, order@));
    assert forall|p: int| 0 <= p < order@.len() implies (#[trigger] order@[p]) < n
        && items@[order@[p] as int].opaque by {
        assert(order@.contains(order@[p]));
    }

    // Running front of each group, in index order within the group.
    let mut running: Vec<Scalar> = Vec::with_capacity(order.len());
    let mut p: usize = 0;
    while p < order.len()
        invariant
            n == items@.len(),
            is_group_order(items@, order@),
            forall|q: int|
                0 <= q < order@.len() ==> (#[trigger] order@[q]) < n
                    && items@[order@[q] as int].opaque,
            p <= order@.len(),
            running@.len() == p,
            forall|q: int|
                0 <= q < p ==> Some(#[trigger] running@[q]) == front_among(
                    items@,
                    order@[q] + 1,
                    items@[order@[q] as int].group(),
                ),
        decreases order@.len() - p,
    {
        let at: usize = order[p];
        let key: GroupKey = items[at].group_key();
        let joins: bool = p > 0 && items[order[p - 1]].group_key() == key;
        let front: Scalar = if joins {
            running[p - 1].max(items[at].z)
        } else {
            items[at].z
        };
        proof {
            let lo: int = if joins {
                order@[p - 1] + 1
            } else {
                0
            };
            if joins {
                assert(before(group_ranks(items@), order@[p - 1], order@[p as int]));
            }
            assert forall|m: int| lo <= m < at && (#[trigger] items@[m]).opaque implies items@[m].group()
                != key by {
                if items@[m].group() == key {
                    lemma_group_neighbours(items@, order@, p as int, m);
                }
            }
            lemma_front_skips(items@, lo, at as int, key);
        }
        running.push(front);
        p = p + 1;
    }

    // The running front of a group's last member is the group's front.
    let mut p: usize = order.len();
    while p > 0
        invariant
            n == items@.len(),
            is_group_order(items@, order@),
            forall|q: int|
                0 <= q < order@.len() ==> (#[trigger] order@[q]) < n
                    && items@[order@[q] as int].opaque,
            p <= order@.len(),
            running@.len() == order@.len(),
            fronts@.len() == n,
            forall|q: int|
                0 <= q < order@.len() ==> Some(#[trigger] running@[q]) == front_among(
                    items@,
                    order@[q] + 1,
                    items@[order@[q] as int].group(),
                ),
            forall|q: int|
                p <= q < order@.len() ==> fronts@[#[trigger] order@[q] as int] == group_front(
                    items@,
                    items@[order@[q] as int].group(),
                ),
        decreases p,
    {
        p = p - 1;
        let at: usize = order[p];
        let key: GroupKey = items[at].group_key();
        let followed: bool = p + 1 < order.len() && items[order[p + 1]].group_key() == key;
        let front: Scalar = if followed {
            fronts[order[p + 1]]
        } else {
            running[p]
        };
        proof {
            if !followed {
                assert forall|m: int| at < m < n && (#[trigger] items@[m]).opaque implies items@[m].group()
                    != key by {
                    if items@[m].group() == key {
                        lemma_group_neighbours(items@, order@, p as int, m);
                    }
                }
                lemma_front_skips(items@, at + 1, n as int, key);
            }
        }
        let ghost prior = fronts@;
        fronts.set(at, front);
        assert forall|q: int| p <= q < order@.len() implies fronts@[#[trigger] order@[q] as int]
            == group_front(items@, items@[order@[q] as int].group()) by {
            if q > p {
                assert(before(group_ranks(items@), order@[p as int], order@[q]));
                assert(prior[order@[q] as int] == fronts@[order@[q] as int]);
            }
        }
    }
    assert forall|i: int| 0 <= i < items@.len() && (#[trigger] items@[i]).opaque implies fronts@[i]
        == group_front(items@, items@[i].group()) by {
        assert(order@.contains(i as usize));
        let q = choose|q: int| 0 <= q < order@.len() && order@[q] == i;
        assert(fronts@[order@[q] as int] == group_front(items@, items@[order@[q] as int].group()));
    }
    fronts
}

/// The opaque instances in drawing order.
pub fn order_opaque(items: &Vec<ExtractedInstance>) -> (order: Vec<usize>)
    ensures
        order@ == opaque_order(items@),
        is_opaque_order(items@, order@),
{
    let picks: Vec<usize> = opaque_picks(items);
    let fronts: Vec<Scalar> = group_fronts(items, &picks);
    let mut ranks: Vec<Rank> = Vec::with_capacity(items.len());
    let mut i: usize = 0;
    while i < items.len()
        invariant
            i <= items@.len(),
            fronts@.len() == items@.len(),
            ranks@.len() == i,
            forall|k: int|
                0 <= k < items@.len() && (#[trigger] items@[k]).opaque ==> fronts@[k]
                    == group_front(items@, items@[k].group()),
            forall|k: int|
                0 <= k < i && items@[k].opaque ==> #[trigger] ranks@[k] == opaque_ranks(items@)[k],
        decreases items@.len() - i,
    {
        let key: GroupKey = items[i].group_key();
        let rank: Rank = Rank {
            first: (0xffff_ffff - fronts[i].total_key()) as u64,
            second: key.kind as u64,
            third: key.id,
            fourth: key.layer as u64,
            fifth: (0xffff_ffff - items[i].z.total_key()) as u64,
        };
        ranks.push(rank);
        assert(items@[i as int].opaque ==> rank == opaque_ranks(items@)[i as int]);
        i = i + 1;
    }
    assert forall|a: int| 0 <= a < picks@.len() implies (#[trigger] picks@[a]) < ranks@.len() by {
        assert(picks@.contains(picks@[a]));
    }
    let order: Vec<usize> = sort_by_rank(&ranks, &picks);
    proof {
        assert(forall|x: usize| #[trigger] order@.contains(x) <==> picks@.contains(x));
        let exact = opaque_ranks(items@);
        assert forall|a: int, b: int| 0 <= a < b < order@.len() implies before(
            exact,
            #[trigger] order@[a],
            #[trigger] order@[b],
        ) by {
            assert(order@.contains(order@[a]) && order@.contains(order@[b]));
            assert(before(ranks@, order@[a], order@[b]));
            assert(ranks@[order@[a] as int] == exact[order@[a] as int]);
            assert(ranks@[order@[b] as int] == exact[order@[b] as int]);
        }
        lemma_opaque_order_is_unique(items@, order@);
    }
    order
}

/// All instances from the back to the front.
pub fn order_by_depth(items: &Vec<ExtractedInstance>) -> (order: Vec<usize>)
    ensures
        order@ == depth_order(items@),
        is_depth_order(items@, order@),
{
    let mut ranks: Vec<Rank> = Vec::with_capacity(items.len());
    let mut i: usize = 0;
    while i < items.len()
        invariant
            i <= items@.len(),
            ranks@ == depth_ranks(items@).take(i as int),
        decreases items@.len() - i,
    {
        ranks.push(
            Rank { first: items[i].z.total_key() as u64, second: 0, third: 0, fourth: 0, fifth: 0 },
        );
        assert(ranks@ =~= depth_ranks(items@).take(i + 1));
        i = i + 1;
    }
    assert(ranks@ =~= depth_ranks(items@));
    let order: Vec<usize> = sort_all(&ranks);
    proof {
        lemma_depth_order_is_unique(items@, order@);
    }
    order
}

proof fn lemma_picks_exist(items: Seq<ExtractedInstance>, n: int) -> (picks: Seq<usize>)
    requires
        0 <= n <= items.len() <= usize::MAX,
    ensures
        picks.no_duplicates(),
        forall|i: usize| #[trigger] picks.contains(i) <==> i < n && items[i as int].opaque,
    decreases n,
{
    if n == 0 {
        Seq::empty()
    } else {
        let earlier = lemma_picks_exist(items, n - 1);
        if items[n - 1].opaque {
            let picks = earlier.push((n - 1) as usize);
            assert(!earlier.contains((n - 1) as usize));
            assert forall|i: usize| #[trigger]
                picks.contains(i) <==> i < n && items[i as int].opaque by {
                if earlier.contains(i) {
                    let k = choose|k: int| 0 <= k < earlier.len() && earlier[k] == i;
                    assert(picks[k] == i);
                }
                if i == n - 1 {
                    assert(picks[earlier.len() as int] == i);
                }
                if picks.contains(i) && i != n - 1 {
                    let k = choose|k: int| 0 <= k < picks.len() && picks[k] == i;
                    assert(earlier[k] == i);
                }
            }
            assert forall|a: int, b: int| 0 <= a < b < picks.len() implies picks[a] != picks[b] by {
                assert(earlier.contains(earlier[a]));
            }
            picks
        } else {
            earlier
        }
    }
}

/// Every set of instances has its two orders.
pub proof fn lemma_orders_exist(items: Seq<ExtractedInstance>)
    requires
        items.len() <= usize::MAX,
    ensures
        is_opaque_order(items, opaque_order(items)),
        is_depth_order(items, depth_order(items)),
{
    let picks = lemma_picks_exist(items, items.len() as int);
    let order = lemma_arrangement_exists(opaque_ranks(items), picks);
    assert(forall|x: usize| #[trigger] order.contains(x) <==> picks.contains(x));
    assert(is_opaque_order(items, order));
    lemma_whole_order(depth_ranks(items));
    assert(is_depth_order(items, whole_order(depth_ranks(items))));
}

} // verus!
