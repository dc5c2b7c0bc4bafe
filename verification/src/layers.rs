//! Render-layer masks and the per-frame table that interns them.

use bevy::camera::visibility::RenderLayers;
use vstd::prelude::*;

verus! {

#[verifier::external_type_specification]
#[verifier::external_body]
pub struct ExRenderLayers(RenderLayers);

/// The bit words of a layer mask, 64 layers a word, as `RenderLayers::bits`
/// lists them.
pub uninterp spec fn layer_words(layers: RenderLayers) -> Seq<u64>;

/// `RenderLayers::default`: the mask of layer 0 alone, one word.
#[verifier::external_body]
fn layers_default() -> (layers: RenderLayers)
    ensures
        layer_words(layers) == seq![1u64],
{
    RenderLayers::default()
}

/// `RenderLayers::clone` (derived): the same words.
#[verifier::external_body]
pub(crate) fn layers_clone(layers: &RenderLayers) -> (copy: RenderLayers)
    ensures
        layer_words(copy) == layer_words(*layers),
{
    layers.clone()
}

/// `RenderLayers::eq` (derived): masks are equal when their words are.
#[verifier::external_body]
fn layers_equal(a: &RenderLayers, b: &RenderLayers) -> (r: bool)
    ensures
        r == (layer_words(*a) == layer_words(*b)),
{
    a == b
}

/// `RenderLayers::intersects`: some word of one mask has a bit in common with
/// the same word of the other. The call answers `true` at once for two masks
/// that share their storage; a mask that is taken by value shares its storage
/// with no other.
#[verifier::external_body]
fn layers_intersect(a: &RenderLayers, b: RenderLayers) -> (r: bool)
    ensures
        r == words_intersect(layer_words(*a), layer_words(b)),
{
    a.intersects(&b)
}

/// The masks share a layer.
pub open spec fn words_intersect(a: Seq<u64>, b: Seq<u64>) -> bool {
    exists|i: int| 0 <= i < a.len() && i < b.len() && #[trigger] a[i] & #[trigger] b[i] != 0
}

/// The words of the mask that content without a mask of its own has.
pub open spec fn default_words() -> Seq<u64> {
    seq![1u64]
}

/// The words of an optional mask; the default mask where there is none.
pub open spec fn mask_words(layers: Option<RenderLayers>) -> Seq<u64> {
    match layers {
        Some(layers) => layer_words(layers),
        None => default_words(),
    }
}

/// Where a mask stands in the table, or would stand after it is added.
pub open spec fn mask_position(masks: Seq<Seq<u64>>, mask: Seq<u64>) -> int
    decreases masks.len(),
{
    if masks.len() == 0 {
        0
    } else if masks[0] == mask {
        0
    } else {
        1 + mask_position(masks.drop_first(), mask)
    }
}

/// The table after a mask is interned: the default mask is entered first, and
/// a mask is entered once.
pub open spec fn with_mask(masks: Seq<Seq<u64>>, mask: Seq<u64>) -> Seq<Seq<u64>> {
    let seeded = if masks.len() == 0 {
        seq![default_words()]
    } else {
        masks
    };
    if seeded.contains(mask) {
        seeded
    } else {
        seeded.push(mask)
    }
}

/// Content with this id shows in a view: its mask shares a layer with the
/// view's. Ids outside the table show everywhere.
pub open spec fn shows(masks: Seq<Seq<u64>>, id: u16, view: Seq<u64>) -> bool {
    id >= masks.len() || words_intersect(masks[id as int], view)
}

/// Per-frame interned layer masks. Instances and batches carry a small id into
/// this table; id 0 is the default mask.
pub struct LayerTable {
    masks: Vec<RenderLayers>,
}

impl View for LayerTable {
    type V = Seq<Seq<u64>>;

    closed spec fn view(&self) -> Seq<Seq<u64>> {
        self.masks@.map_values(|layers: RenderLayers| layer_words(layers))
    }
}

impl LayerTable {
    /// Masks are distinct, and the default mask leads.
    pub open spec fn wf(self) -> bool {
        &&& self@.no_duplicates()
        &&& self@.len() > 0 ==> self@[0] == default_words()
    }

    pub fn new() -> (table: LayerTable)
        ensures
            table.wf(),
            table@ == Seq::<Seq<u64>>::empty(),
    {
        let table = LayerTable { masks: Vec::new() };
        assert(table@ =~= Seq::<Seq<u64>>::empty());
        table
    }

    pub fn clear(&mut self)
        ensures
            final(self).wf(),
            final(self)@ == Seq::<Seq<u64>>::empty(),
    {
        self.masks.clear();
        assert(self@ =~= Seq::<Seq<u64>>::empty());
    }

    /// The id of a mask, entered into the table on first sight. Ids count up
    /// to `u16::MAX` and wrap beyond that.
    pub fn intern(&mut self, layers: &Option<RenderLayers>) -> (id: u16)
        requires
            old(self).wf(),
        ensures
            final(self).wf(),
            final(self)@ == with_mask(old(self)@, mask_words(*layers)),
            id == mask_position(final(self)@, mask_words(*layers)) as u16,
            final(self)@[mask_position(final(self)@, mask_words(*layers))] == mask_words(*layers),
            0 <= mask_position(final(self)@, mask_words(*layers)) < final(self)@.len(),
    {
        let ghost mask = mask_words(*layers);
        if self.masks.len() == 0 {
            self.masks.push(layers_default());
            assert(self@ =~= seq![default_words()]);
        }
        let ghost seeded = self@;
        match layers {
            None => {
                proof {
                    assert(seeded[0] == mask);
                    lemma_first_position(seeded, mask, 0);
                }
                0
            },
            Some(layers) => {
                let mut i: usize = 0;
                #[verifier::loop_isolation(false)]
                while i < self.masks.len()
                    invariant
                        i <= self.masks@.len(),
                        self@ == seeded,
                        mask == layer_words(*layers),
                        forall|j: int| 0 <= j < i ==> #[trigger] seeded[j] != mask,
                    decreases self.masks@.len() - i,
                {
                    assert(seeded[i as int] == layer_words(self.masks@[i as int]));
                    if layers_equal(&self.masks[i], layers) {
                        proof {
                            lemma_first_position(seeded, mask, i as int);
                            assert(seeded.contains(mask));
                        }
                        return #[verifier::truncate] (i as u16);
                    }
                    i = i + 1;
                }
                self.masks.push(layers_clone(layers));
                proof {
                    assert(self@ =~= seeded.push(mask));
                    lemma_first_position(self@, mask, i as int);
                }
                let last: usize = self.masks.len() - 1;
                #[verifier::truncate]
                (last as u16)
            },
        }
    }

    /// Whether content with this id shows in a view.
    pub fn visible(&self, id: u16, view: &RenderLayers) -> (r: bool)
        ensures
            r == shows(self@, id, layer_words(*view)),
    {
        if (id as usize) < self.masks.len() {
            layers_intersect(&self.masks[id as usize], layers_clone(view))
        } else {
            true
        }
    }
}

proof fn lemma_first_position(masks: Seq<Seq<u64>>, mask: Seq<u64>, i: int)
    requires
        0 <= i < masks.len(),
        masks[i] == mask,
        forall|j: int| 0 <= j < i ==> #[trigger] masks[j] != mask,
    ensures
        mask_position(masks, mask) == i,
    decreases i,
{
    if i > 0 {
        assert(masks[0] != mask);
        let rest = masks.drop_first();
        assert(rest[i - 1] == mask);
        assert forall|j: int| 0 <= j < i - 1 implies #[trigger] rest[j] != mask by {
            assert(masks[j + 1] != mask);
        }
        lemma_first_position(rest, mask, i - 1);
    }
}

proof fn lemma_position(masks: Seq<Seq<u64>>, mask: Seq<u64>)
    requires
        masks.contains(mask),
    ensures
        0 <= mask_position(masks, mask) < masks.len(),
        masks[mask_position(masks, mask)] == mask,
    decreases masks.len(),
{
    if masks[0] != mask {
        let rest = masks.drop_first();
        let i = choose|i: int| 0 <= i < masks.len() && masks[i] == mask;
        assert(rest[i - 1] == mask);
        lemma_position(rest, mask);
    }
}

proof fn lemma_position_in_longer(masks: Seq<Seq<u64>>, more: Seq<u64>, mask: Seq<u64>)
    requires
        masks.contains(mask),
    ensures
        mask_position(masks.push(more), mask) == mask_position(masks, mask),
    decreases masks.len(),
{
    if masks[0] != mask {
        let rest = masks.drop_first();
        let i = choose|i: int| 0 <= i < masks.len() && masks[i] == mask;
        assert(rest[i - 1] == mask);
        lemma_position_in_longer(rest, more, mask);
        assert(masks.push(more).drop_first() =~= rest.push(more));
    }
}

/// A mask that has been interned stays where it is: interning it again enters
/// nothing and gives the same id, also after others were interned.
pub proof fn lemma_interning_is_stable(masks: Seq<Seq<u64>>, mask: Seq<u64>, other: Seq<u64>)
    requires
        masks.contains(mask),
    ensures
        with_mask(masks, mask) == masks,
        with_mask(masks, other).contains(mask),
        mask_position(with_mask(masks, other), mask) == mask_position(masks, mask),
{
    lemma_position(masks, mask);
    if !masks.contains(other) {
        lemma_position_in_longer(masks, other, mask);
        assert(masks.push(other)[mask_position(masks, mask)] == mask);
    }
}

/// Below 65536 masks, two masks have the same id only if they are the same
/// mask, and the id of no mask is 0.
pub proof fn lemma_ids_tell_masks_apart(masks: Seq<Seq<u64>>, a: Seq<u64>, b: Seq<u64>)
    requires
        masks.len() <= 0x1_0000,
        masks.contains(a),
        masks.contains(b),
        masks[0] == default_words(),
    ensures
        mask_position(masks, a) as u16 == mask_position(masks, b) as u16 ==> a == b,
        mask_position(masks, default_words()) as u16 == 0,
{
    lemma_position(masks, a);
    lemma_position(masks, b);
}

/// Interned content shows in exactly the views that share a layer with its
/// mask, as long as ids have not wrapped.
pub proof fn lemma_interned_content_shows_by_mask(
    masks: Seq<Seq<u64>>,
    mask: Seq<u64>,
    view: Seq<u64>,
)
    requires
        masks.len() <= 0x1_0000,
        masks.contains(mask),
    ensures
        shows(masks, mask_position(masks, mask) as u16, view) == words_intersect(mask, view),
{
    lemma_position(masks, mask);
}

/// Interning enters a mask at most once and moves none: the table keeps what it
/// held, gains the mask where it was new (behind the default mask, which is the
/// first of every table), and the mask stands where its id says.
pub proof fn lemma_masks_are_entered_once(masks: Seq<Seq<u64>>, mask: Seq<u64>)
    ensures
        ({
            let after = with_mask(masks, mask);
            let at = mask_position(after, mask);
            &&& 0 <= at < after.len()
            &&& after[at] == mask
            &&& forall|i: int| 0 <= i < masks.len() ==> after[i] == #[trigger] masks[i]
            &&& masks.len() == 0 ==> after[0] == seq![1u64]
            &&& masks.contains(mask) ==> after == masks
            &&& masks.len() > 0 && !masks.contains(mask) ==> after.len() == masks.len() + 1
                && after.last() == mask
            &&& masks.len() == 0 ==> after.len() == (if mask == seq![1u64] {
                1nat
            } else {
                2nat
            })
        }),
{
    let seeded = if masks.len() == 0 {
        seq![default_words()]
    } else {
        masks
    };
    let after = with_mask(masks, mask);
    if !seeded.contains(mask) {
        assert(after[seeded.len() as int] == mask);
    }
    assert(after.contains(mask));
    lemma_position(after, mask);
    if masks.len() == 0 {
        assert(seeded[0] == seq![1u64]);
        if mask == seq![1u64] {
            assert(seeded.contains(mask));
        } else if seeded.contains(mask) {
            let i = choose|i: int| 0 <= i < seeded.len() && seeded[i] == mask;
            assert(i == 0);
        }
    }
}

/// Content shows in a view that has a layer in common with its mask, and in no
/// other; an id that the table does not know shows everywhere.
pub proof fn lemma_shown_content_shares_a_layer(masks: Seq<Seq<u64>>, id: u16, view: Seq<u64>)
    ensures
        id >= masks.len() ==> shows(masks, id, view),
        id < masks.len() ==> (shows(masks, id, view) <==> exists|i: int|
            0 <= i < masks[id as int].len() && i < view.len() && #[trigger] masks[id as int][i]
                & #[trigger] view[i] != 0),
{
}

} // verus!
