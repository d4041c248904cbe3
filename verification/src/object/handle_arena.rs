//! A store that hands out a stable handle for each value put into it.

use vstd::prelude::*;
use super::slot_store::{
    arena_capacity, arena_generation, arena_get, arena_insert, arena_remove, arena_replace,
    arena_room, arena_slots, arena_with_capacity, room_after_insert, slots_fit,
};
use generational_arena::Arena;

verus! {

/// A store that hands out a stable key for each value put into it.
/// A key is a slot number and a generation. A slot is used again after a
/// removal, under a new generation, so a key that was removed stays dead
/// and is never handed out again. The values are kept densely, in the order
/// `keys()`; a removal moves the last value into the gap.
/// The generation is a `u64` that grows by one with each removal. A store
/// that has come to the last generation is exhausted and removes no more.
pub struct HandleArena<V> {
    slots: Arena<usize>,
    keys: Vec<(usize, u64)>,
    values: Vec<V>,
    removals: u64,
    retired: Ghost<Set<(usize, u64)>>,
}

/// `s` with the element at `i` taken out and the last element moved into
/// its place.
pub open spec fn swap_removed<A>(s: Seq<A>, i: int) -> Seq<A> {
    s.update(i, s.last()).drop_last()
}

/// Taking an element out of a sequence without repeats leaves the other
/// elements, still without repeats.
pub proof fn lemma_swap_removed<A>(s: Seq<A>, i: int)
    requires
        0 <= i < s.len(),
        s.no_duplicates(),
    ensures
        swap_removed(s, i).no_duplicates(),
        swap_removed(s, i).len() == s.len() - 1,
        forall|x: A| #[trigger] swap_removed(s, i).contains(x) <==> s.contains(x) && x != s[i],
{
    let t = swap_removed(s, i);
    let last = s.len() - 1;
    assert forall|x: A| #[trigger] t.contains(x) <==> s.contains(x) && x != s[i] by {
        if t.contains(x) {
            let k = t.index_of(x);
            assert(t[k] == x);
            if k == i {
                assert(s[last] == x);
            } else {
                assert(s[k] == x);
            }
        }
        if s.contains(x) && x != s[i] {
            let k = s.index_of(x);
            assert(s[k] == x);
            if k == last {
                assert(t[i] == x);
            } else {
                assert(t[k] == x);
            }
        }
    }
}

impl<V> HandleArena<V> {
    /// The live keys, in storage order.
    pub closed spec fn keys(&self) -> Seq<(usize, u64)> {
        self.keys@
    }

    /// The values, each at the position of its key.
    pub closed spec fn values(&self) -> Seq<V> {
        self.values@
    }

    /// The keys that were removed.
    pub closed spec fn retired(&self) -> Set<(usize, u64)> {
        self.retired@
    }

    /// The number of removals so far.
    pub closed spec fn removals(&self) -> u64 {
        self.removals
    }

    /// Whether the store has come to its last generation.
    pub open spec fn exhausted(&self) -> bool {
        self.removals() == u64::MAX
    }

    /// The key table and the dense storage agree, and the generations of
    /// the keys are in order: no live key is of a generation to come, and
    /// every removed key is of a generation that is past.
    pub closed spec fn wf(&self) -> bool {
        let slots = arena_slots(self.slots);
        &&& self.removals == arena_generation(self.slots)
        &&& forall|k: (usize, u64)| #[trigger] slots.dom().contains(k) ==> k.1 <= self.removals
        &&& forall|k: (usize, u64)| #[trigger] self.retired@.contains(k) ==> k.1 < self.removals
        &&& forall|k: (usize, u64)| #[trigger]
            self.retired@.contains(k) ==> !slots.dom().contains(k)
        &&& self.counted()
        &&& forall|k: (usize, u64)| #[trigger]
            slots.dom().contains(k) ==> slots[k] < self.keys@.len() && self.keys@[slots[k] as int]
                == k
        &&& forall|i: int|
            0 <= i < self.keys@.len() ==> slots.dom().contains(#[trigger] self.keys@[i])
                && slots[self.keys@[i]] == i
        &&& forall|k1: (usize, u64), k2: (usize, u64)|
            #![trigger slots.dom().contains(k1), slots.dom().contains(k2)]
            slots.dom().contains(k1) && slots.dom().contains(k2) && k1.0 == k2.0 ==> k1 == k2
    }

    /// Whether `key` is live.
    pub open spec fn contains(&self, key: (usize, u64)) -> bool {
        self.keys().contains(key)
    }

    /// Position of a live key in storage order.
    pub open spec fn position(&self, key: (usize, u64)) -> int {
        self.keys().index_of(key)
    }

    /// The value under a live key.
    pub open spec fn value(&self, key: (usize, u64)) -> V {
        self.values()[self.position(key)]
    }

    /// In a well-formed store there is a value for each key, no slot number
    /// occurs under two live keys, and so each live key has one position.
    pub proof fn lemma_keys_distinct(&self)
        requires
            self.wf(),
        ensures
            self.keys().len() == self.values().len(),
            forall|i: int, j: int|
                0 <= i < self.keys().len() && 0 <= j < self.keys().len() && (
                #[trigger] self.keys()[i]).0 == (#[trigger] self.keys()[j]).0 ==> i == j,
            forall|i: int|
                0 <= i < self.keys().len() ==> self.position(#[trigger] self.keys()[i]) == i,
    {
        let slots = arena_slots(self.slots);
        assert forall|i: int, j: int|
            0 <= i < self.keys().len() && 0 <= j < self.keys().len() && (
            #[trigger] self.keys()[i]).0 == (#[trigger] self.keys()[j]).0 implies i == j by {
            assert(slots.dom().contains(self.keys@[i]));
            assert(slots.dom().contains(self.keys@[j]));
        }
        assert forall|i: int| 0 <= i < self.keys().len() implies self.position(
            #[trigger] self.keys()[i],
        ) == i by {
            let k = self.keys()[i];
            assert(self.keys().contains(k));
            let p = self.keys().index_of(k);
            assert(self.keys()[p] == k);
        }
    }

    /// An empty store with room for four values.
    pub fn new() -> (s: Self)
        ensures
            s.wf(),
            s.keys() == Seq::<(usize, u64)>::empty(),
            s.values() == Seq::<V>::empty(),
            s.retired() == Set::<(usize, u64)>::empty(),
            s.removals() == 0,
            s.room() == 4,
    {
        Self::with_capacity(4)
    }

    /// An empty store with room for `n` values, and for one where `n` is
    /// zero: so many values it takes before it grows.
    pub fn with_capacity(n: usize) -> (s: Self)
        requires
            slots_fit(n),
        ensures
            s.wf(),
            s.keys() == Seq::<(usize, u64)>::empty(),
            s.values() == Seq::<V>::empty(),
            s.retired() == Set::<(usize, u64)>::empty(),
            s.removals() == 0,
            s.room() == if n == 0 { 1usize } else { n },
    {
        HandleArena {
            slots: arena_with_capacity(n),
            keys: Vec::new(),
            values: Vec::new(),
            removals: 0,
            retired: Ghost(Set::empty()),
        }
    }

    /// The room of the store: the number of values that it holds without
    /// growing. It stays through removals, and doubles with an insertion
    /// into a store that is full.
    pub closed spec fn room(&self) -> usize {
        arena_room(self.slots)
    }

    /// There is a value for each key, and the key table holds the keys and
    /// no more.
    pub closed spec fn counted(&self) -> bool {
        &&& self.keys@.len() == self.values@.len()
        &&& arena_slots(self.slots).dom().finite()
        &&& arena_slots(self.slots).dom().len() == self.keys@.len()
    }

    /// The number of values that the store holds without growing.
    pub fn capacity(&self) -> (n: usize)
        ensures
            n == self.room(),
    {
        arena_capacity(&self.slots)
    }

    /// Whether the store has come to its last generation and removes no more.
    pub fn is_exhausted(&self) -> (r: bool)
        ensures
            r == self.exhausted(),
    {
        self.removals == u64::MAX
    }

    /// Number of removals that the store can still make.
    pub fn removals_left(&self) -> (n: u64)
        ensures
            n == u64::MAX - self.removals(),
    {
        u64::MAX - self.removals
    }

    /// A key that was removed is not live, and never will be: no function
    /// of the store takes a key out of `retired()`, and `insert` hands out
    /// only keys that are not in it.
    pub proof fn lemma_retired_keys_are_dead(&self)
        requires
            self.wf(),
        ensures
            forall|k: (usize, u64)| #[trigger] self.retired().contains(k) ==> !self.contains(k),
    {
        assert forall|k: (usize, u64)| #[trigger] self.retired().contains(k) implies !self.contains(
            k,
        ) by {
            if self.keys@.contains(k) {
                let i = self.keys@.index_of(k);
                assert(arena_slots(self.slots).dom().contains(self.keys@[i]));
            }
        }
    }

    /// Number of live keys.
    pub fn len(&self) -> (n: usize)
        requires
            self.wf(),
        ensures
            n == self.keys().len(),
            n == self.values().len(),
    {
        self.keys.len()
    }

    /// The key at a position.
    pub fn key_at(&self, i: usize) -> (key: (usize, u64))
        requires
            self.wf(),
            i < self.keys().len(),
        ensures
            key == self.keys()[i as int],
    {
        self.keys[i]
    }

    /// The value at a position.
    pub fn value_at(&self, i: usize) -> (v: &V)
        requires
            self.wf(),
            i < self.keys().len(),
        ensures
            *v == self.values()[i as int],
    {
        &self.values[i]
    }

    /// The value at a position, to be changed in place.
    pub fn value_at_mut(&mut self, i: usize) -> (v: &mut V)
        requires
            old(self).wf(),
            i < old(self).keys().len(),
        ensures
            *v == old(self).values()[i as int],
            final(self).wf(),
            final(self).keys() == old(self).keys(),
            final(self).values() == old(self).values().update(i as int, *final(v)),
            final(self).retired() == old(self).retired(),
            final(self).removals() == old(self).removals(),
            final(self).room() == old(self).room(),
    {
        &mut self.values[i]
    }

    /// Position of `key`, or `None` if the key is not live.
    pub fn index_of(&self, key: (usize, u64)) -> (r: Option<usize>)
        requires
            self.wf(),
        ensures
            r.is_some() == self.contains(key),
            r.is_some() ==> r.unwrap() == self.position(key) && r.unwrap() < self.keys().len(),
    {
        let r = arena_get(&self.slots, key);
        proof {
            self.lemma_keys_distinct();
            if r.is_none() && self.keys@.contains(key) {
                let i = self.keys@.index_of(key);
                assert(arena_slots(self.slots).dom().contains(self.keys@[i]));
            }
        }
        r
    }

    /// The value under `key`, or `None` if the key is not live.
    pub fn get(&self, key: (usize, u64)) -> (r: Option<&V>)
        requires
            self.wf(),
        ensures
            r.is_some() == self.contains(key),
            r.is_some() ==> *r.unwrap() == self.value(key),
    {
        match self.index_of(key) {
            Some(i) => Some(&self.values[i]),
            None => None,
        }
    }

    /// The value under `key`, to be changed in place, or `None` if the key
    /// is not live.
    pub fn get_mut(&mut self, key: (usize, u64)) -> (r: Option<&mut V>)
        requires
            old(self).wf(),
        ensures
            r.is_some() == old(self).contains(key),
            final(self).wf(),
            final(self).keys() == old(self).keys(),
            final(self).retired() == old(self).retired(),
            final(self).removals() == old(self).removals(),
            final(self).room() == old(self).room(),
            r.is_some() ==> *r.unwrap() == old(self).value(key) && final(self).values()
                == old(self).values().update(old(self).position(key), *final(r.unwrap())),
            r.is_none() ==> final(self).values() == old(self).values(),
    {
        match self.index_of(key) {
            Some(i) => Some(&mut self.values[i]),
            None => None,
        }
    }

    /// Stores `value` at the end, under a new key, and returns the key. The
    /// key was not live, its slot number was under no live key, and it is
    /// none of the keys that were removed. A store that was full has twice
    /// the room afterwards.
    pub fn insert(&mut self, value: V) -> (key: (usize, u64))
        requires
            old(self).wf(),
        ensures
            final(self).wf(),
            !old(self).contains(key),
            !old(self).retired().contains(key),
            forall|i: int|
                0 <= i < old(self).keys().len() ==> (#[trigger] old(self).keys()[i]).0 != key.0,
            final(self).keys() == old(self).keys().push(key),
            final(self).values() == old(self).values().push(value),
            final(self).retired() == old(self).retired(),
            final(self).removals() == old(self).removals(),
            final(self).room() == room_after_insert(old(self).keys().len(), old(self).room()),
    {
        let position = self.keys.len();
        let key = arena_insert(&mut self.slots, position);
        self.keys.push(key);
        self.values.push(value);
        proof {
            let before = arena_slots(old(self).slots);
            assert forall|i: int| 0 <= i < old(self).keys@.len() implies (
            #[trigger] old(self).keys@[i]).0 != key.0 by {
                let k = old(self).keys@[i];
                assert(before.dom().contains(k));
                assert(!before.dom().contains((key.0, k.1)));
            }
            if old(self).keys@.contains(key) {
                let i = old(self).keys@.index_of(key);
                assert(old(self).keys@[i].0 == key.0);
            }
        }
        key
    }

    /// Takes the value under `key` out of the store, moves the last value
    /// into its position, and retires the key. Returns `None`, and changes
    /// nothing, if the key is not live or the store is exhausted. The other
    /// keys stay live.
    pub fn remove(&mut self, key: (usize, u64)) -> (r: Option<V>)
        requires
            old(self).wf(),
        ensures
            final(self).wf(),
            final(self).room() == old(self).room(),
            r.is_some() == (old(self).contains(key) && !old(self).exhausted()),
            r.is_none() ==> final(self).keys() == old(self).keys() && final(self).values()
                == old(self).values() && final(self).retired() == old(self).retired()
                && final(self).removals() == old(self).removals(),
            r.is_some() ==> r.unwrap() == old(self).value(key) && final(self).keys()
                == swap_removed(old(self).keys(), old(self).position(key)) && final(self).values()
                == swap_removed(old(self).values(), old(self).position(key))
                    && final(self).retired() == old(self).retired().insert(key)
                    && final(self).removals() == old(self).removals() + 1,
    {
        proof {
            self.lemma_keys_distinct();
        }
        if self.removals == u64::MAX {
            return None;
        }
        let found = arena_remove(&mut self.slots, key);
        match found {
            None => {
                proof {
                    if old(self).keys@.contains(key) {
                        let i = old(self).keys@.index_of(key);
                        assert(arena_slots(old(self).slots).dom().contains(old(self).keys@[i]));
                    }
                    assert(arena_slots(self.slots) =~= arena_slots(old(self).slots));
                }
                None
            },
            Some(position) => {
                assert(old(self).keys@[position as int] == key);
                let value = self.values.swap_remove(position);
                let _ = self.keys.swap_remove(position);
                if position < self.keys.len() {
                    let moved = self.keys[position];
                    assert(moved == old(self).keys@.last());
                    assert(arena_slots(old(self).slots).dom().contains(old(self).keys@.last()));
                    arena_replace(&mut self.slots, moved, position);
                }
                self.removals = self.removals + 1;
                self.retired = Ghost(self.retired@.insert(key));
                proof {
                    let before = arena_slots(old(self).slots);
                    let after = arena_slots(self.slots);
                    let last = old(self).keys@.len() - 1;
                    assert(before.dom().contains(key));
                    assert forall|k: (usize, u64)| #[trigger] after.dom().contains(k)
                        implies after[k]
                        < self.keys@.len() && self.keys@[after[k] as int] == k by {
                        assert(before.dom().contains(k));
                    }
                    assert forall|i: int| 0 <= i < self.keys@.len() implies after.dom().contains(
                        #[trigger] self.keys@[i],
                    ) && after[self.keys@[i]] == i by {
                        if i == position {
                            assert(before.dom().contains(old(self).keys@[last]));
                        } else {
                            assert(before.dom().contains(old(self).keys@[i]));
                        }
                    }
                    assert forall|k1: (usize, u64), k2: (usize, u64)|
                        #![trigger after.dom().contains(k1), after.dom().contains(k2)]
                        after.dom().contains(k1) && after.dom().contains(k2) && k1.0
                            == k2.0 implies k1 == k2 by {
                        assert(before.dom().contains(k1));
                        assert(before.dom().contains(k2));
                    }
                    assert forall|k: (usize, u64)| #[trigger] after.dom().contains(k) implies k.1
                        <= self.removals by {
                        assert(before.dom().contains(k));
                    }
                    assert forall|k: (usize, u64)| #[trigger] self.retired@.contains(k) implies k.1
                        < self.removals by {
                        if k != key {
                            assert(old(self).retired@.contains(k));
                        }
                    }
                }
                Some(value)
            },
        }
    }

    /// After a value was appended under a new key, the old keys are live as
    /// before and name the same values.
    pub proof fn lemma_after_push(&self, after: &Self, key: (usize, u64), value: V)
        requires
            self.wf(),
            after.wf(),
            after.keys() == self.keys().push(key),
            after.values() == self.values().push(value),
        ensures
            !self.contains(key),
            after.contains(key),
            after.value(key) == value,
            after.position(key) == self.keys().len(),
            forall|k: (usize, u64)| #[trigger] after.contains(k) <==> self.contains(k) || k == key,
            forall|k: (usize, u64)|
                self.contains(k) ==> #[trigger] after.value(k) == self.value(k) && after.position(k)
                    == self.position(k),
    {
        self.lemma_keys_distinct();
        after.lemma_keys_distinct();
        let n = self.keys().len() as int;
        assert(after.keys()[n] == key);
        if self.contains(key) {
            let i = self.keys().index_of(key);
            assert(after.keys()[i] == key);
        }
        assert forall|k: (usize, u64)| #[trigger] after.contains(k) <==> self.contains(k) || k
            == key by {
            if after.contains(k) {
                let i = after.keys().index_of(k);
                if i < n {
                    assert(self.keys()[i] == k);
                }
            }
            if self.contains(k) {
                let i = self.keys().index_of(k);
                assert(after.keys()[i] == k);
            }
        }
        assert forall|k: (usize, u64)| self.contains(k) implies #[trigger] after.value(k)
            == self.value(k) && after.position(k) == self.position(k) by {
            let i = self.keys().index_of(k);
            assert(after.keys()[i] == k);
        }
    }

    /// After the value at a position was replaced, the same keys are live,
    /// at the same positions, and the other keys name the same values.
    pub proof fn lemma_after_update(&self, after: &Self, position: int, value: V)
        requires
            self.wf(),
            after.wf(),
            0 <= position < self.keys().len(),
            after.keys() == self.keys(),
            after.values() == self.values().update(position, value),
        ensures
            after.value(self.keys()[position]) == value,
            forall|k: (usize, u64)| #[trigger] after.contains(k) == self.contains(k),
            forall|k: (usize, u64)| #[trigger] after.position(k) == self.position(k),
            forall|k: (usize, u64)|
                self.contains(k) && k != self.keys()[position] ==> #[trigger] after.value(k)
                    == self.value(k),
    {
        self.lemma_keys_distinct();
        assert forall|k: (usize, u64)|
            self.contains(k) && k != self.keys()[position] implies #[trigger] after.value(k)
            == self.value(k) by {
            let i = self.keys().index_of(k);
            assert(self.keys()[i] == k);
        }
    }

    /// After the key at a position was removed, the other keys are live as
    /// before and name the same values.
    pub proof fn lemma_after_swap_remove(&self, after: &Self, position: int)
        requires
            self.wf(),
            after.wf(),
            0 <= position < self.keys().len(),
            after.keys() == swap_removed(self.keys(), position),
            after.values() == swap_removed(self.values(), position),
        ensures
            !after.contains(self.keys()[position]),
            forall|k: (usize, u64)| #[trigger]
                after.contains(k) <==> self.contains(k) && k != self.keys()[position],
            forall|k: (usize, u64)| after.contains(k) ==> #[trigger] after.value(k)
                == self.value(k),
    {
        self.lemma_keys_distinct();
        after.lemma_keys_distinct();
        let n = self.keys().len() as int;
        assert forall|k: (usize, u64)| #[trigger]
            after.contains(k) <==> self.contains(k) && k != self.keys()[position] by {
            if after.contains(k) {
                let i = after.keys().index_of(k);
                assert(after.keys()[i] == k);
                if i == position {
                    assert(self.keys()[n - 1] == k);
                } else {
                    assert(self.keys()[i] == k);
                }
            }
            if self.contains(k) && k != self.keys()[position] {
                let i = self.keys().index_of(k);
                assert(self.keys()[i] == k);
                if i == n - 1 {
                    assert(after.keys()[position] == k);
                } else {
                    assert(after.keys()[i] == k);
                }
            }
        }
        assert forall|k: (usize, u64)| after.contains(k) implies #[trigger] after.value(k)
            == self.value(k) by {
            let i = after.keys().index_of(k);
            assert(after.keys()[i] == k);
            if i == position {
                assert(self.keys()[n - 1] == k);
            } else {
                assert(self.keys()[i] == k);
            }
        }
    }
}

} // verus!
