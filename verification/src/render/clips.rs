//! Analytic clips: each clip region and its ancestors become a chain of
//! entries in one buffer, and instances refer to a chain by one number.

use vstd::prelude::*;

use crate::hud::{ClippedBy, VectorClipShape};
use crate::keyed::KeyedStore;
use crate::render::gpu::GpuClip;
use crate::scalar::{lemma_denotes_one_number, lemma_denotes_zero, Scalar};

verus! {

/// Capacity of the clip buffer.
pub const MAX_CLIPS: usize = 1024;

/// How many levels of clips nest.
pub const MAX_CLIP_DEPTH: u32 = 4;

/// A clip region of this frame and the region that clips it.
#[derive(Clone, Copy, Debug, PartialEq, Eq)]
pub struct ClipNode {
    pub entry: GpuClip,
    pub parent: Option<u64>,
}

/// The entry of a clip region. A rounded rectangle is given by its corner
/// centres, `inset` (the half extents less the radius); a circle is a rounded
/// rectangle without extent.
pub fn clip_node(
    shape: &VectorClipShape,
    inv_linear: [Scalar; 4],
    inv_translation: [Scalar; 2],
    inset: [Scalar; 2],
    parent: Option<ClippedBy>,
) -> (node: ClipNode)
    ensures
        node.entry.inv_linear == inv_linear,
        node.entry.inv_translation == inv_translation,
        *shape matches VectorClipShape::RoundedRect { half_extents, radius } ==> {
            node.entry.half_extents == inset && node.entry.radius == radius
        },
        *shape matches VectorClipShape::Circle { radius } ==> {
            node.entry.half_extents@ == seq![Scalar { bits: 0 }, Scalar { bits: 0 }]
                && node.entry.radius == radius
        },
        node.parent == (match parent {
            Some(by) => Some(by.0),
            None => None,
        }),
{
    let (half_extents, radius): ([Scalar; 2], Scalar) = match *shape {
        VectorClipShape::RoundedRect { radius, .. } => (inset, radius),
        VectorClipShape::Circle { radius } => {
            let flat = [Scalar::zero(), Scalar::zero()];
            assert(flat@ =~= seq![Scalar { bits: 0 }, Scalar { bits: 0 }]);
            (flat, radius)
        },
    };
    ClipNode {
        entry: GpuClip { inv_linear, inv_translation, half_extents, radius },
        parent: match parent {
            Some(by) => Some(by.0),
            None => None,
        },
    }
}

/// The entries of a region and its ancestors, at most `depth` of them.
pub open spec fn chain(nodes: Map<u64, ClipNode>, head: Option<u64>, depth: nat) -> Seq<GpuClip>
    decreases depth,
{
    if depth == 0 {
        Seq::empty()
    } else {
        match head {
            None => Seq::empty(),
            Some(entity) => if nodes.dom().contains(entity) {
                seq![nodes[entity].entry] + chain(nodes, nodes[entity].parent, (depth - 1) as nat)
            } else {
                Seq::empty()
            },
        }
    }
}

proof fn lemma_chain_length(nodes: Map<u64, ClipNode>, head: Option<u64>, depth: nat)
    ensures
        chain(nodes, head, depth).len() <= depth,
    decreases depth,
{
    if depth > 0 {
        match head {
            Some(entity) if nodes.dom().contains(entity) => {
                lemma_chain_length(nodes, nodes[entity].parent, (depth - 1) as nat);
            },
            _ => {},
        }
    }
}

/// The clip buffer's contents, and where each head's chain lies in it (first
/// entry, number of entries).
#[verifier::ext_equal]
pub struct ClipsView {
    pub entries: Seq<GpuClip>,
    pub chains: Map<u64, (u32, u32)>,
}

/// As much of a sequence as there is room for.
pub open spec fn fitting(entries: Seq<GpuClip>, room: int) -> Seq<GpuClip> {
    if entries.len() <= room {
        entries
    } else {
        entries.take(room)
    }
}

/// The chains of the given heads, one behind the other until the buffer is
/// full.
pub open spec fn chains_of(nodes: Map<u64, ClipNode>, heads: Seq<u64>) -> ClipsView
    decreases heads.len(),
{
    if heads.len() == 0 {
        ClipsView { entries: Seq::empty(), chains: Map::empty() }
    } else {
        let earlier = chains_of(nodes, heads.drop_last());
        let start = earlier.entries.len();
        if start >= MAX_CLIPS {
            earlier
        } else {
            let own = fitting(
                chain(nodes, Some(heads.last()), MAX_CLIP_DEPTH as nat),
                MAX_CLIPS - start,
            );
            ClipsView {
                entries: earlier.entries + own,
                chains: earlier.chains.insert(heads.last(), (start as u32, own.len() as u32)),
            }
        }
    }
}

/// Per-frame clip entries and resolved chains, by chain head.
pub struct ExtractedClips {
    pub entries: Vec<GpuClip>,
    pub chains: KeyedStore<(u32, u32)>,
}

impl View for ExtractedClips {
    type V = ClipsView;

    open spec fn view(&self) -> ClipsView {
        ClipsView { entries: self.entries@, chains: self.chains@ }
    }
}

/// The number that refers to a chain.
pub open spec fn chain_number(start: u32, count: u32) -> int {
    start * 8 + if count < 7 {
        count as int
    } else {
        7
    }
}

/// Packs a chain reference into one scalar: `start * 8 + count`, exact for
/// starts below `2^20`.
pub fn pack_clip(start: u32, count: u32) -> (packed: Scalar)
    requires
        start < 0x2000_0000,
    ensures
        packed.rounds(chain_number(start, count) as nat),
{
    let tail: u32 = if count < 7 {
        count
    } else {
        7
    };
    Scalar::from_u32(start * 8 + tail)
}

impl ExtractedClips {
    /// Every chain is a non-empty piece of the buffer.
    pub open spec fn wf(self) -> bool {
        &&& self.chains.wf()
        &&& self.entries@.len() <= MAX_CLIPS
        &&& forall|head: u64| #[trigger]
            self.chains@.dom().contains(head) ==> 1 <= self.chains@[head].1 <= MAX_CLIP_DEPTH
                && self.chains@[head].0 + self.chains@[head].1 <= self.entries@.len()
    }

    pub fn new() -> (clips: ExtractedClips)
        ensures
            clips.wf(),
            clips@ == (ClipsView { entries: Seq::empty(), chains: Map::empty() }),
    {
        ExtractedClips { entries: Vec::new(), chains: KeyedStore::new() }
    }

    fn push_chain(&mut self, nodes: &KeyedStore<ClipNode>, head: u64)
        requires
            old(self).wf(),
            nodes.wf(),
            nodes@.dom().contains(head),
            old(self).entries@.len() < MAX_CLIPS,
        ensures
            final(self).wf(),
            final(self)@ == ({
                let own = fitting(
                    chain(nodes@, Some(head), MAX_CLIP_DEPTH as nat),
                    MAX_CLIPS - old(self).entries@.len(),
                );
                ClipsView {
                    entries: old(self).entries@ + own,
                    chains: old(self).chains@.insert(
                        head,
                        (old(self).entries@.len() as u32, own.len() as u32),
                    ),
                }
            }),
    {
        let ghost before = self.entries@;
        let ghost whole = chain(nodes@, Some(head), MAX_CLIP_DEPTH as nat);
        let start: u32 = self.entries.len() as u32;
        let mut count: u32 = 0;
        let mut cursor: Option<u64> = Some(head);
        let mut open: bool = true;
        proof {
            lemma_chain_length(nodes@, Some(head), MAX_CLIP_DEPTH as nat);
            assert(before + whole.take(0) =~= before);
            assert(whole.skip(0) =~= whole);
        }
        while open && count < MAX_CLIP_DEPTH
            invariant
                nodes.wf(),
                nodes@.dom().contains(head),
                self.chains == old(self).chains,
                before.len() < MAX_CLIPS,
                count <= MAX_CLIP_DEPTH,
                count == 0 ==> cursor == Some(head) && open,
                whole == chain(nodes@, Some(head), MAX_CLIP_DEPTH as nat),
                count <= whole.len() <= MAX_CLIP_DEPTH,
                self.entries@ == before + whole.take(count as int),
                self.entries@.len() <= MAX_CLIPS,
                open ==> whole.skip(count as int) == chain(
                    nodes@,
                    cursor,
                    (MAX_CLIP_DEPTH - count) as nat,
                ),
                !open ==> count == whole.len() || self.entries@.len() == MAX_CLIPS,
                !open ==> count > 0,
            decreases MAX_CLIP_DEPTH - count, open as int,
        {
            match cursor {
                None => {
                    open = false;
                },
                Some(entity) => match nodes.get(entity) {
                    None => {
                        open = false;
                    },
                    Some(node) => {
                        let ghost rest = whole.skip(count as int);
                        assert(rest.len() > 0 && rest[0] == node.entry);
                        if self.entries.len() >= MAX_CLIPS {
                            open = false;
                        } else {
                            self.entries.push(node.entry);
                            cursor = node.parent;
                            proof {
                                assert(whole[count as int] == node.entry);
                                assert(self.entries@ =~= before + whole.take(count + 1));
                                assert(whole.skip(count + 1) =~= rest.skip(1));
                                assert(rest.skip(1) =~= chain(
                                    nodes@,
                                    cursor,
                                    (MAX_CLIP_DEPTH - count - 1) as nat,
                                ));
                            }
                            count = count + 1;
                        }
                    },
                },
            }
        }
        self.chains.insert(head, (start, count));
        proof {
            let own = fitting(whole, MAX_CLIPS - before.len());
            assert(own =~= whole.take(count as int));
        }
    }

    /// Resolves this frame's clip regions: each region's chain is its own
    /// entry and those of its ancestors.
    pub fn resolve(nodes: &KeyedStore<ClipNode>) -> (clips: ExtractedClips)
        requires
            nodes.wf(),
        ensures
            clips.wf(),
            clips@ == chains_of(nodes@, nodes.arrivals()),
    {
        let mut clips = ExtractedClips::new();
        let ghost heads = nodes.arrivals();
        proof {
            nodes.lemma_arrivals();
            assert(heads.take(0) =~= Seq::<u64>::empty());
        }
        let mut i: usize = 0;
        while i < nodes.len()
            invariant
                nodes.wf(),
                heads == nodes.arrivals(),
                forall|key: u64| #[trigger] heads.contains(key) <==> nodes@.dom().contains(key),
                i <= heads.len(),
                clips.wf(),
                clips@ == chains_of(nodes@, heads.take(i as int)),
            decreases heads.len() - i,
        {
            let head: u64 = nodes.key_at(i);
            proof {
                assert(heads.contains(head));
                assert(heads.take(i + 1).drop_last() =~= heads.take(i as int));
            }
            if clips.entries.len() < MAX_CLIPS {
                clips.push_chain(nodes, head);
            }
            i = i + 1;
        }
        assert(heads.take(heads.len() as int) =~= heads);
        clips
    }

    /// The chain reference of content that is clipped by an entity: zero where
    /// it is not clipped, or by nothing that was resolved.
    pub fn reference(&self, clipped: Option<ClippedBy>) -> (packed: Scalar)
        requires
            self.wf(),
        ensures
            packed.denotes(
                match clipped {
                    Some(by) if self@.chains.dom().contains(by.0) => chain_number(
                        self@.chains[by.0].0,
                        self@.chains[by.0].1,
                    ) as nat,
                    _ => 0,
                },
                0,
            ),
            packed.magnitude() == 0 <==> !(clipped matches Some(by)
                && self@.chains.dom().contains(by.0)),
    {
        let packed: Scalar = match clipped {
            None => Scalar::from_u32(0),
            Some(by) => match self.chains.get(by.0) {
                None => Scalar::from_u32(0),
                Some(found) => {
                    let (start, count): (u32, u32) = *found;
                    pack_clip(start, count)
                },
            },
        };
        proof {
            lemma_denotes_zero(
                packed,
                match clipped {
                    Some(by) if self@.chains.dom().contains(by.0) => chain_number(
                        self@.chains[by.0].0,
                        self@.chains[by.0].1,
                    ) as nat,
                    _ => 0,
                },
                0,
            );
        }
        packed
    }
}

/// References read back: a packed reference to a chain that starts below
/// `2^20` tells its start and its count (up to seven).
pub proof fn lemma_packed_references_read_back(
    packed: Scalar,
    start: u32,
    count: u32,
    other_start: u32,
    other_count: u32,
)
    requires
        start < 0x10_0000,
        other_start < 0x10_0000,
        count <= 7,
        other_count <= 7,
        packed.rounds(chain_number(start, count) as nat),
        packed.rounds(chain_number(other_start, other_count) as nat),
    ensures
        start == other_start,
        count == other_count,
{
    lemma_denotes_one_number(
        packed,
        chain_number(start, count) as nat,
        chain_number(other_start, other_count) as nat,
        0,
    );
}

/// A resolved chain is the region's own entry and those of its ancestors, as
/// many as nest and fit: between one and four, all inside the buffer.
pub proof fn lemma_chains_hold_their_ancestors(
    nodes: Map<u64, ClipNode>,
    heads: Seq<u64>,
    head: u64,
)
    requires
        heads.no_duplicates(),
        forall|i: int| 0 <= i < heads.len() ==> nodes.dom().contains(#[trigger] heads[i]),
    ensures
        chains_of(nodes, heads).entries.len() <= MAX_CLIPS,
        chains_of(nodes, heads).chains.dom().contains(head) ==> {
            let view = chains_of(nodes, heads);
            let (start, count) = view.chains[head];
            let ancestry = chain(nodes, Some(head), MAX_CLIP_DEPTH as nat);
            &&& heads.contains(head)
            &&& 1 <= count <= ancestry.len() <= MAX_CLIP_DEPTH
            &&& start + count <= view.entries.len()
            &&& view.entries.subrange(start as int, start + count) == ancestry.take(count as int)
            &&& count < ancestry.len() ==> start + count == MAX_CLIPS
        },
        chains_of(nodes, heads).entries.len() < MAX_CLIPS ==> (heads.contains(head)
            ==> chains_of(nodes, heads).chains.dom().contains(head)),
    decreases heads.len(),
{
    if heads.len() > 0 {
        let rest = heads.drop_last();
        let last = heads.last();
        assert forall|i: int| 0 <= i < rest.len() implies nodes.dom().contains(
            #[trigger] rest[i],
        ) by {
            assert(nodes.dom().contains(heads[i]));
        }
        assert(nodes.dom().contains(heads[heads.len() - 1]));
        lemma_chains_hold_their_ancestors(nodes, rest, head);
        let earlier = chains_of(nodes, rest);
        let view = chains_of(nodes, heads);
        if heads.contains(head) && head != last {
            let i = choose|i: int| 0 <= i < heads.len() && heads[i] == head;
            assert(rest[i] == head);
        }
        if rest.contains(head) {
            let i = choose|i: int| 0 <= i < rest.len() && rest[i] == head;
            assert(heads[i] == head);
        }
        assert(heads[heads.len() - 1] == last);
        lemma_chain_length(nodes, Some(last), MAX_CLIP_DEPTH as nat);
        let ancestry = chain(nodes, Some(last), MAX_CLIP_DEPTH as nat);
        assert(ancestry.len() >= 1);
        if earlier.entries.len() < MAX_CLIPS {
            let start = earlier.entries.len() as int;
            let own = fitting(ancestry, MAX_CLIPS - start);
            if head == last {
                assert(own =~= ancestry.take(own.len() as int));
                assert(view.entries.subrange(start, start + own.len()) =~= own);
            } else if earlier.chains.dom().contains(head) {
                let (s, c) = earlier.chains[head];
                assert(view.entries.subrange(s as int, s + c) =~= earlier.entries.subrange(
                    s as int,
                    s + c,
                ));
            }
        }
    }
}

/// A chain's entries hold a slot of the buffer.
pub open spec fn holds_slot(view: ClipsView, head: u64, slot: int) -> bool {
    view.chains.dom().contains(head) && view.chains[head].0 <= slot < view.chains[head].0
        + view.chains[head].1
}

/// Some chain's entries hold the slot.
pub open spec fn slot_is_held(view: ClipsView, slot: int) -> bool {
    exists|head: u64| #[trigger] holds_slot(view, head, slot)
}

/// The chains share no entry and leave none over: every slot of the buffer
/// belongs to exactly one of them, and no chain reaches beyond it.
pub proof fn lemma_chains_tile_the_buffer(nodes: Map<u64, ClipNode>, heads: Seq<u64>)
    requires
        heads.no_duplicates(),
        forall|i: int| 0 <= i < heads.len() ==> nodes.dom().contains(#[trigger] heads[i]),
    ensures
        forall|head: u64, slot: int| #[trigger]
            holds_slot(chains_of(nodes, heads), head, slot) ==> 0 <= slot < chains_of(
                nodes,
                heads,
            ).entries.len(),
        forall|slot: int|
            0 <= slot < chains_of(nodes, heads).entries.len() ==> #[trigger] slot_is_held(
                chains_of(nodes, heads),
                slot,
            ),
        forall|a: u64, b: u64, slot: int| #[trigger]
            holds_slot(chains_of(nodes, heads), a, slot) && #[trigger] holds_slot(
                chains_of(nodes, heads),
                b,
                slot,
            ) ==> a == b,
    decreases heads.len(),
{
    if heads.len() > 0 {
        let rest = heads.drop_last();
        let last = heads.last();
        assert forall|i: int| 0 <= i < rest.len() implies nodes.dom().contains(
            #[trigger] rest[i],
        ) by {
            assert(nodes.dom().contains(heads[i]));
        }
        lemma_chains_tile_the_buffer(nodes, rest);
        lemma_chains_hold_their_ancestors(nodes, rest, last);
        let earlier = chains_of(nodes, rest);
        let view = chains_of(nodes, heads);
        assert(!earlier.chains.dom().contains(last)) by {
            if rest.contains(last) {
                let i = choose|i: int| 0 <= i < rest.len() && rest[i] == last;
                assert(heads[i] == heads[heads.len() - 1]);
            }
        }
        if earlier.entries.len() < MAX_CLIPS {
            let start = earlier.entries.len() as int;
            let own = fitting(
                chain(nodes, Some(last), MAX_CLIP_DEPTH as nat),
                MAX_CLIPS - start,
            );
            assert(own.len() <= MAX_CLIPS - start);
            assert(view.chains[last] == (start as u32, own.len() as u32));
            assert forall|head: u64, slot: int| #[trigger]
                holds_slot(view, head, slot) == if head == last {
                start <= slot < start + own.len()
            } else {
                holds_slot(earlier, head, slot)
            } by {}
            assert forall|slot: int| 0 <= slot < view.entries.len() implies #[trigger] slot_is_held(
                view,
                slot,
            ) by {
                if slot < start {
                    assert(slot_is_held(earlier, slot));
                    let head = choose|head: u64| #[trigger] holds_slot(earlier, head, slot);
                    assert(holds_slot(view, head, slot));
                } else {
                    assert(holds_slot(view, last, slot));
                }
            }
        }
    }
}


/// A line of regions from the given one on, each clipped by the next.
pub open spec fn is_line(nodes: Map<u64, ClipNode>, line: Seq<u64>, head: u64) -> bool {
    &&& line.len() > 0
    &&& line[0] == head
    &&& forall|i: int| 0 <= i < line.len() ==> nodes.dom().contains(#[trigger] line[i])
    &&& forall|i: int, j: int|
        0 <= i && j == i + 1 && j < line.len() ==> nodes[#[trigger] line[i]].parent == Some(
            #[trigger] line[j],
        )
}

/// The line ends because nothing clips its last region.
pub open spec fn ends_unclipped(nodes: Map<u64, ClipNode>, line: Seq<u64>) -> bool {
    match nodes[line.last()].parent {
        None => true,
        Some(parent) => !nodes.dom().contains(parent),
    }
}

/// From `start` on the buffer holds the entries of the line, in its order.
pub open spec fn holds_line(
    nodes: Map<u64, ClipNode>,
    entries: Seq<GpuClip>,
    start: int,
    line: Seq<u64>,
) -> bool {
    &&& 0 <= start && start + line.len() <= entries.len()
    &&& forall|k: int|
        0 <= k < line.len() ==> entries[start + k] == nodes[#[trigger] line[k]].entry
}

proof fn lemma_chain_is_a_line(nodes: Map<u64, ClipNode>, head: u64, depth: nat) -> (line: Seq<u64>)
    requires
        depth > 0,
        nodes.dom().contains(head),
    ensures
        is_line(nodes, line, head),
        line.len() == chain(nodes, Some(head), depth).len() <= depth,
        holds_line(nodes, chain(nodes, Some(head), depth), 0, line),
        line.len() < depth ==> ends_unclipped(nodes, line),
    decreases depth,
{
    let parent = nodes[head].parent;
    let whole = chain(nodes, Some(head), depth);
    let above = chain(nodes, parent, (depth - 1) as nat);
    assert(whole == seq![nodes[head].entry] + above);
    if depth > 1 && parent is Some && nodes.dom().contains(parent->0) {
        let rest = lemma_chain_is_a_line(nodes, parent->0, (depth - 1) as nat);
        let line = seq![head] + rest;
        assert forall|i: int| 0 <= i < line.len() implies nodes.dom().contains(
            #[trigger] line[i],
        ) by {
            if i > 0 {
                assert(line[i] == rest[i - 1]);
            }
        }
        assert forall|i: int, j: int| 0 <= i && j == i + 1 && j < line.len() implies nodes[
            #[trigger] line[i]].parent == Some(#[trigger] line[j]) by {
            assert(line[j] == rest[j - 1]);
            if i > 0 {
                assert(line[i] == rest[i - 1]);
            }
        }
        assert forall|k: int| 0 <= k < line.len() implies whole[0 + k] == nodes[
            #[trigger] line[k]].entry by {
            if k > 0 {
                assert(line[k] == rest[k - 1]);
                assert(above[0 + (k - 1)] == nodes[rest[k - 1]].entry);
            }
        }
        assert(line.last() == rest.last());
        line
    } else {
        assert(above.len() == 0);
        let line = seq![head];
        line
    }
}

/// Nested clips cut together: the entries of a region are its own, then that of
/// the region that clips it, and so on along the line. At most four nest, and
/// the line stops short of that only where nothing clips further or the buffer
/// of 1024 entries is full. Every region of the frame has its entries unless the
/// buffer is full.
pub proof fn lemma_clips_nest_along_a_line(
    nodes: Map<u64, ClipNode>,
    heads: Seq<u64>,
    clips: ClipsView,
    head: u64,
)
    requires
        heads.no_duplicates(),
        forall|i: int| 0 <= i < heads.len() ==> nodes.dom().contains(#[trigger] heads[i]),
        clips == chains_of(nodes, heads),
    ensures
        clips.entries.len() <= 1024,
        heads.contains(head) && clips.entries.len() < 1024 ==> clips.chains.dom().contains(head),
        clips.chains.dom().contains(head) ==> {
            let (start, count) = clips.chains[head];
            &&& heads.contains(head)
            &&& exists|line: Seq<u64>|
                {
                    &&& #[trigger] is_line(nodes, line, head)
                    &&& line.len() == count <= 4
                    &&& holds_line(nodes, clips.entries, start as int, line)
                    &&& count == 4 || start + count == 1024 || ends_unclipped(nodes, line)
                }
        },
{
    lemma_chains_hold_their_ancestors(nodes, heads, head);
    if clips.chains.dom().contains(head) {
        let (start, count) = clips.chains[head];
        let i = choose|i: int| 0 <= i < heads.len() && heads[i] == head;
        assert(nodes.dom().contains(heads[i]));
        let whole = lemma_chain_is_a_line(nodes, head, MAX_CLIP_DEPTH as nat);
        let ancestry = chain(nodes, Some(head), MAX_CLIP_DEPTH as nat);
        let line = whole.take(count as int);
        assert(is_line(nodes, line, head)) by {
            assert forall|i: int| 0 <= i < line.len() implies nodes.dom().contains(
                #[trigger] line[i],
            ) by {
                assert(line[i] == whole[i]);
            }
            assert forall|i: int, j: int| 0 <= i && j == i + 1 && j < line.len() implies nodes[
                #[trigger] line[i]].parent == Some(#[trigger] line[j]) by {
                assert(line[i] == whole[i] && line[j] == whole[j]);
            }
        }
        let own = clips.entries.subrange(start as int, start + count);
        assert forall|k: int| 0 <= k < line.len() implies clips.entries[start + k] == nodes[
            #[trigger] line[k]].entry by {
            assert(line[k] == whole[k]);
            assert(ancestry[0 + k] == nodes[whole[k]].entry);
            assert(own[k] == ancestry.take(count as int)[k]);
        }
        assert(holds_line(nodes, clips.entries, start as int, line));
        if count == ancestry.len() {
            assert(line =~= whole);
        }
    }
}

/// A reference is told apart from no reference, and its last three bits and the
/// rest of it are the number of entries and where they start.
pub proof fn lemma_references_tell_start_and_count(start: u32, count: u32)
    ensures
        chain_number(start, count) / 8 == start,
        count <= 7 ==> chain_number(start, count) % 8 == count,
        count > 7 ==> chain_number(start, count) % 8 == 7,
{
}

} // verus!
