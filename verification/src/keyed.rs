//! A keyed store: values found by a 64-bit key through the engine's hash map,
//! and kept in the order in which their keys first arrived.

use bevy::platform::collections::HashMap;
use bevy::platform::hash::FixedHasher;
use vstd::prelude::*;

verus! {

#[verifier::external_type_specification]
#[verifier::external_body]
pub struct ExFixedHasher(FixedHasher);

#[verifier::external_type_specification]
#[verifier::external_body]
#[verifier::reject_recursive_types(K)]
#[verifier::reject_recursive_types(V)]
#[verifier::reject_recursive_types(S)]
pub struct ExHashMap<K, V, S>(HashMap<K, V, S>);

/// What a slot index holds: the slot of each key.
pub uninterp spec fn slots(index: HashMap<u64, usize>) -> Map<u64, usize>;

/// `bevy::platform::collections::HashMap::new`: a map without entries.
#[verifier::external_body]
fn slots_new() -> (index: HashMap<u64, usize>)
    ensures
        slots(index).dom() == Set::<u64>::empty(),
{
    HashMap::new()
}

/// `bevy::platform::collections::HashMap::get`: the value stored under the
/// key, if there is one.
#[verifier::external_body]
fn slots_get(index: &HashMap<u64, usize>, key: u64) -> (slot: Option<usize>)
    ensures
        slot == (if slots(*index).dom().contains(key) {
            Some(slots(*index)[key])
        } else {
            None::<usize>
        }),
{
    index.get(&key).copied()
}

/// `bevy::platform::collections::HashMap::insert`: stores the value under the
/// key, in place of what was stored there.
#[verifier::external_body]
fn slots_insert(index: &mut HashMap<u64, usize>, key: u64, slot: usize)
    ensures
        slots(*final(index)) == slots(*old(index)).insert(key, slot),
{
    index.insert(key, slot);
}

/// Values by key. The view is the map from keys to values; `arrivals` is the
/// order in which the keys came.
#[verifier::reject_recursive_types(V)]
pub struct KeyedStore<V> {
    index: HashMap<u64, usize>,
    keys: Vec<u64>,
    values: Vec<V>,
}

impl<V> View for KeyedStore<V> {
    type V = Map<u64, V>;

    closed spec fn view(&self) -> Map<u64, V> {
        Map::new(
            |key: u64| slots(self.index).dom().contains(key),
            |key: u64| self.values@[slots(self.index)[key] as int],
        )
    }
}

impl<V> KeyedStore<V> {
    /// The keys in the order in which they first arrived.
    pub closed spec fn arrivals(self) -> Seq<u64> {
        self.keys@
    }

    /// The index and the two columns agree.
    pub closed spec fn wf(self) -> bool {
        &&& self.keys@.len() == self.values@.len()
        &&& forall|i: int|
            0 <= i < self.keys@.len() ==> slots(self.index).dom().contains(
                #[trigger] self.keys@[i],
            ) && slots(self.index)[self.keys@[i]] == i
        &&& forall|key: u64| #[trigger]
            slots(self.index).dom().contains(key) ==> slots(self.index)[key] < self.keys@.len()
                && self.keys@[slots(self.index)[key] as int] == key
    }

    /// The arrivals are exactly the keys of the map, each once.
    pub proof fn lemma_arrivals(self)
        requires
            self.wf(),
        ensures
            forall|key: u64| #[trigger] self.arrivals().contains(key) <==> self@.dom().contains(key),
            self.arrivals().no_duplicates(),
    {
        assert forall|key: u64| #[trigger]
            self.arrivals().contains(key) <==> self@.dom().contains(key) by {
            if self@.dom().contains(key) {
                assert(self.keys@[slots(self.index)[key] as int] == key);
            }
        }
    }

    pub fn new() -> (store: KeyedStore<V>)
        ensures
            store.wf(),
            store@ == Map::<u64, V>::empty(),
            store.arrivals() == Seq::<u64>::empty(),
    {
        let store = KeyedStore { index: slots_new(), keys: Vec::new(), values: Vec::new() };
        assert(store@ =~= Map::<u64, V>::empty());
        store
    }

    pub fn len(&self) -> (n: usize)
        requires
            self.wf(),
        ensures
            n == self.arrivals().len(),
    {
        self.keys.len()
    }

    pub fn contains(&self, key: u64) -> (r: bool)
        requires
            self.wf(),
        ensures
            r == self@.dom().contains(key),
    {
        slots_get(&self.index, key).is_some()
    }

    pub fn get(&self, key: u64) -> (value: Option<&V>)
        requires
            self.wf(),
        ensures
            self@.dom().contains(key) ==> value == Some(&self@[key]),
            !self@.dom().contains(key) ==> value is None,
    {
        match slots_get(&self.index, key) {
            Some(slot) => Some(&self.values[slot]),
            None => None,
        }
    }

    pub fn key_at(&self, i: usize) -> (key: u64)
        requires
            self.wf(),
            i < self.arrivals().len(),
        ensures
            key == self.arrivals()[i as int],
    {
        self.keys[i]
    }

    /// Stores a value, in place of the one under the same key.
    pub fn insert(&mut self, key: u64, value: V)
        requires
            old(self).wf(),
        ensures
            final(self).wf(),
            final(self)@ == old(self)@.insert(key, value),
            final(self).arrivals() == (if old(self)@.dom().contains(key) {
                old(self).arrivals()
            } else {
                old(self).arrivals().push(key)
            }),
    {
        match slots_get(&self.index, key) {
            Some(slot) => {
                self.values.set(slot, value);
                assert(self@ =~= old(self)@.insert(key, value)) by {
                    assert forall|other: u64| other != key && slots(self.index).dom().contains(
                        other,
                    ) implies slots(self.index)[other] != slot by {
                        assert(self.keys@[slots(self.index)[other] as int] == other);
                    }
                }
            },
            None => {
                let slot: usize = self.keys.len();
                slots_insert(&mut self.index, key, slot);
                self.keys.push(key);
                self.values.push(value);
                assert(self@ =~= old(self)@.insert(key, value));
                assert forall|i: int| 0 <= i < self.keys@.len() implies slots(
                    self.index,
                ).dom().contains(#[trigger] self.keys@[i]) && slots(self.index)[self.keys@[i]]
                    == i by {
                    if i < slot {
                        assert(old(self).keys@[i] == self.keys@[i]);
                    }
                }
            },
        }
    }

    pub fn clear(&mut self)
        ensures
            final(self).wf(),
            final(self)@ == Map::<u64, V>::empty(),
            final(self).arrivals() == Seq::<u64>::empty(),
    {
        *self = KeyedStore::new();
    }
}

} // verus!
