//! The set of the bodies of a world.

use vstd::prelude::*;
use super::body::Body;
use super::handle_arena::HandleArena;

verus! {

/// Unique identifier of a body stored in the world: the slot that the body
/// occupies and the generation in which it took the slot. A handle whose
/// body was removed is never valid again.
#[derive(Copy, Clone, Debug, Hash, PartialEq, Eq, PartialOrd, Ord)]
pub struct BodyHandle(pub (usize, u64));

impl BodyHandle {
    /// Whether two handles are the same.
    pub fn same(&self, other: &BodyHandle) -> (r: bool)
        ensures
            r == (*self == *other),
    {
        self.0.0 == other.0.0 && self.0.1 == other.0.1
    }
}

/// Container for bodies. Bodies are removed through `PhysicsWorld`, which
/// also detaches their colliders; reading and changing them is possible
/// through this structure.
pub struct BodySet {
    pub bodies: HandleArena<Body>,
}

impl Default for BodySet {
    fn default() -> (set: Self)
        ensures
            set.wf(),
            set.bodies.keys().len() == 0,
            set.bodies.values().len() == 0,
            set.bodies.retired() == Set::<(usize, u64)>::empty(),
            set.bodies.removals() == 0,
    {
        Self::new()
    }
}

impl BodySet {
    /// The store of the bodies is well formed.
    pub open spec fn wf(&self) -> bool {
        self.bodies.wf()
    }

    /// Whether `handle` names a body of the set.
    pub open spec fn contains(&self, handle: BodyHandle) -> bool {
        self.bodies.contains(handle.0)
    }

    /// The body that a live handle names.
    pub open spec fn body(&self, handle: BodyHandle) -> Body {
        self.bodies.value(handle.0)
    }

    /// A set without bodies.
    pub fn new() -> (set: Self)
        ensures
            set.wf(),
            set.bodies.keys().len() == 0,
            set.bodies.values().len() == 0,
            set.bodies.retired() == Set::<(usize, u64)>::empty(),
            set.bodies.removals() == 0,
    {
        Self { bodies: HandleArena::with_capacity(16) }
    }

    /// Inserts a new body into the set and returns its unique handle. The
    /// body comes last in the order of the set.
    pub fn insert(&mut self, body: Body) -> (handle: BodyHandle)
        requires
            old(self).wf(),
        ensures
            final(self).wf(),
            !old(self).contains(handle),
            !old(self).bodies.retired().contains(handle.0),
            final(self).bodies.keys() == old(self).bodies.keys().push(handle.0),
            final(self).bodies.values() == old(self).bodies.values().push(body),
            final(self).bodies.retired() == old(self).bodies.retired(),
            final(self).bodies.removals() == old(self).bodies.removals(),
    {
        let key = self.bodies.insert(body);
        BodyHandle(key)
    }

    /// The body of a handle, or `None` if the handle names none.
    pub fn get(&self, handle: BodyHandle) -> (r: Option<&Body>)
        requires
            self.wf(),
        ensures
            r.is_some() == self.contains(handle),
            r.is_some() ==> *r.unwrap() == self.body(handle),
    {
        self.bodies.get(handle.0)
    }

    /// The body of a handle, to be changed in place.
    pub fn get_mut(&mut self, handle: BodyHandle) -> (r: Option<&mut Body>)
        requires
            old(self).wf(),
        ensures
            r.is_some() == old(self).contains(handle),
            final(self).wf(),
            final(self).bodies.keys() == old(self).bodies.keys(),
            final(self).bodies.retired() == old(self).bodies.retired(),
            final(self).bodies.removals() == old(self).bodies.removals(),
            r.is_some() ==> *r.unwrap() == old(self).body(handle) && final(self).bodies.values()
                == old(self).bodies.values().update(
                old(self).bodies.position(handle.0),
                *final(r.unwrap()),
            ),
            r.is_none() ==> final(self).bodies.values() == old(self).bodies.values(),
    {
        self.bodies.get_mut(handle.0)
    }

    /// Number of bodies in the set.
    pub fn len(&self) -> (n: usize)
        requires
            self.wf(),
        ensures
            n == self.bodies.keys().len(),
    {
        self.bodies.len()
    }

    /// The handles and bodies of the set, in its order.
    pub fn iter(&self) -> (all: Vec<(BodyHandle, &Body)>)
        requires
            self.wf(),
        ensures
            all@.len() == self.bodies.keys().len(),
            forall|i: int|
                0 <= i < all@.len() ==> (#[trigger] all@[i]).0.0 == self.bodies.keys()[i]
                    && *all@[i].1 == self.bodies.values()[i],
    {
        let mut all: Vec<(BodyHandle, &Body)> = Vec::new();
        let n = self.bodies.len();
        let mut i: usize = 0;
        while i < n
            invariant
                self.wf(),
                n == self.bodies.keys().len(),
                0 <= i <= n,
                all@.len() == i,
                forall|j: int|
                    0 <= j < i ==> (#[trigger] all@[j]).0.0 == self.bodies.keys()[j] && *all@[j].1
                        == self.bodies.values()[j],
            decreases n - i,
        {
            all.push((BodyHandle(self.bodies.key_at(i)), self.bodies.value_at(i)));
            i += 1;
        }
        all
    }

    /// Removes a body from the set; `None` if the handle names none.
    pub(crate) fn internal_remove(&mut self, handle: BodyHandle) -> (r: Option<Body>)
        requires
            old(self).wf(),
        ensures
            final(self).wf(),
            r.is_some() == (old(self).contains(handle) && !old(self).bodies.exhausted()),
            r.is_none() ==> final(self).bodies.retired() == old(self).bodies.retired()
                && final(self).bodies.removals() == old(self).bodies.removals()
                && final(self).bodies.keys() == old(self).bodies.keys()
                && final(self).bodies.values() == old(self).bodies.values(),
            r.is_some() ==> final(self).bodies.retired() == old(self).bodies.retired().insert(
                handle.0,
            ) && final(self).bodies.removals() == old(self).bodies.removals() + 1 && r.unwrap()
                == old(self).body(handle) && final(self).bodies.keys()
                == crate::object::handle_arena::swap_removed(
                old(self).bodies.keys(),
                old(self).bodies.position(handle.0),
            ) && final(self).bodies.values() == crate::object::handle_arena::swap_removed(
                old(self).bodies.values(),
                old(self).bodies.position(handle.0),
            ),
    {
        self.bodies.remove(handle.0)
    }
}

} // verus!
