//! The set of the colliders of a world, and what ties it to the bodies
//! and to the graph.

use vstd::prelude::*;
use super::body_set::{BodyHandle, BodySet};
use super::collider::Collider;
use super::handle_arena::{swap_removed, HandleArena};
use crate::collision::collision_graph::CollisionGraph;

verus! {

/// Unique identifier of a collider stored in the world: the slot that the
/// collider occupies and the generation in which it took the slot. A handle
/// whose collider was removed is never valid again.
#[derive(Copy, Clone, Debug, Hash, PartialEq, Eq, PartialOrd, Ord)]
pub struct ColliderHandle(pub (usize, u64));

impl ColliderHandle {
    /// Whether two handles are the same.
    pub fn same(&self, other: &ColliderHandle) -> (r: bool)
        ensures
            r == (*self == *other),
    {
        self.0.0 == other.0.0 && self.0.1 == other.0.1
    }
}

/// Container for colliders. Colliders are removed through `PhysicsWorld`;
/// reading and changing them is possible through this structure.
pub struct ColliderSet<T> {
    pub colliders: HandleArena<Collider<T>>,
}

/// Every collider has a live owner whose list names it, and the list of
/// every body names, each once, live colliders that the body owns.
pub open spec fn attached<T>(bodies: &BodySet, colliders: &ColliderSet<T>) -> bool {
    &&& bodies.wf()
    &&& colliders.wf()
    &&& forall|j: int|
        0 <= j < colliders.colliders.keys().len() ==> bodies.contains(
            (#[trigger] colliders.colliders.values()[j]).owner,
        ) && bodies.body(colliders.colliders.values()[j].owner).colliders@.contains(
            ColliderHandle(colliders.colliders.keys()[j]),
        )
    &&& forall|i: int|
        0 <= i < bodies.bodies.keys().len() ==> owns_its_list(
            BodyHandle(bodies.bodies.keys()[i]),
            #[trigger] bodies.bodies.values()[i].colliders@,
            colliders,
        )
}

/// `list` names, each once, live colliders whose owner is `owner`.
pub open spec fn owns_its_list<T>(
    owner: BodyHandle,
    list: Seq<ColliderHandle>,
    colliders: &ColliderSet<T>,
) -> bool {
    &&& list.no_duplicates()
    &&& forall|k: int|
        0 <= k < list.len() ==> colliders.contains(#[trigger] list[k]) && colliders.collider(
            list[k],
        ).owner == owner
}

/// The nodes of the graph are the live colliders, each once.
pub open spec fn graph_matches<T>(colliders: &ColliderSet<T>, graph: &CollisionGraph) -> bool {
    &&& graph.wf()
    &&& graph.nodes().len() == colliders.colliders.keys().len()
    &&& forall|h: ColliderHandle| #[trigger] graph.has_node(h) <==> colliders.contains(h)
}

impl<T> Default for ColliderSet<T> {
    fn default() -> (set: Self)
        ensures
            set.wf(),
            set.colliders.keys().len() == 0,
            set.colliders.values().len() == 0,
            set.colliders.retired() == Set::<(usize, u64)>::empty(),
            set.colliders.removals() == 0,
    {
        Self::new()
    }
}

impl<T> ColliderSet<T> {
    /// The store of the colliders is well formed.
    pub open spec fn wf(&self) -> bool {
        self.colliders.wf()
    }

    /// Whether `handle` names a collider of the set.
    pub open spec fn contains(&self, handle: ColliderHandle) -> bool {
        self.colliders.contains(handle.0)
    }

    /// The collider that a live handle names.
    pub open spec fn collider(&self, handle: ColliderHandle) -> Collider<T> {
        self.colliders.value(handle.0)
    }

    /// A set without colliders.
    pub fn new() -> (set: Self)
        ensures
            set.wf(),
            set.colliders.keys().len() == 0,
            set.colliders.values().len() == 0,
            set.colliders.retired() == Set::<(usize, u64)>::empty(),
            set.colliders.removals() == 0,
    {
        Self { colliders: HandleArena::with_capacity(128) }
    }

    /// Inserts a new collider into the set if its owner exists, attaches it
    /// to that body and gives it a node in the graph of interactions. Where
    /// the body does not exist nothing changes and `None` is returned.
    pub fn insert(
        &mut self,
        collider: Collider<T>,
        bodies: &mut BodySet,
        graph: &mut CollisionGraph,
    ) -> (r: Option<ColliderHandle>)
        requires
            attached(old(bodies), old(self)),
            graph_matches(old(self), old(graph)),
        ensures
            attached(final(bodies), final(self)),
            graph_matches(final(self), final(graph)),
            r.is_some() == old(bodies).contains(collider.owner),
            final(bodies).bodies.keys() == old(bodies).bodies.keys(),
            final(bodies).bodies.retired() == old(bodies).bodies.retired(),
            final(bodies).bodies.removals() == old(bodies).bodies.removals(),
            final(self).colliders.retired() == old(self).colliders.retired(),
            final(self).colliders.removals() == old(self).colliders.removals(),
            final(graph).all_edges() == old(graph).all_edges(),
            r.is_none() ==> final(self).colliders.keys() == old(self).colliders.keys()
                && final(self).colliders.values() == old(self).colliders.values()
                && final(bodies).bodies.values()
                == old(bodies).bodies.values() && final(graph).nodes() == old(graph).nodes(),
            r.is_some() ==> {
                let handle = r.unwrap();
                let owner = old(bodies).bodies.position(collider.owner.0);
                let body = final(bodies).bodies.values()[owner];
                &&& !old(self).contains(handle)
                &&& !old(self).colliders.retired().contains(handle.0)
                &&& final(self).colliders.keys() == old(self).colliders.keys().push(handle.0)
                &&& final(self).colliders.values() == old(self).colliders.values().push(collider)
                &&& final(graph).nodes() == old(graph).nodes().push(handle)
                &&& final(bodies).bodies.values() == old(bodies).bodies.values().update(owner, body)
                &&& body.colliders@ == old(bodies).body(collider.owner).colliders@.push(handle)
                &&& body.position == old(bodies).body(collider.owner).position
                &&& body.movement == old(bodies).body(collider.owner).movement
                &&& body.same_but_list(&old(bodies).body(collider.owner))
            },
    {
        if bodies.get(collider.owner).is_none() {
            return None;
        }
        let ghost owner_handle = collider.owner;
        let owner = collider.owner;
        let key = self.colliders.insert(collider);
        let handle = ColliderHandle(key);
        proof {
            old(graph).lemma_wf();
            assert forall|i: int| 0 <= i < old(graph).nodes().len() implies (
            #[trigger] old(graph).nodes()[i]).0.0 != handle.0.0 by {
                let node = old(graph).nodes()[i];
                assert(old(graph).has_node(node));
                assert(old(self).contains(node));
                let p = old(self).colliders.keys().index_of(node.0);
                assert(old(self).colliders.keys()[p] == node.0);
            }
        }
        graph.add_node(handle);
        match bodies.get_mut(owner) {
            Some(body) => {
                body.colliders.push(handle);
            },
            None => {},
        }
        proof {
            let p = old(bodies).bodies.position(owner.0);
            old(bodies).bodies.lemma_keys_distinct();
            old(self).colliders.lemma_keys_distinct();
            let new_body = bodies.bodies.values()[p];
            old(bodies).bodies.lemma_after_update(&bodies.bodies, p, new_body);
            old(self).colliders.lemma_after_push(&self.colliders, key, collider);
            assert(old(bodies).bodies.keys()[p] == owner.0);
            let n = old(self).colliders.keys().len() as int;
            let old_list = old(bodies).body(owner).colliders@;
            assert(owns_its_list(
                BodyHandle(old(bodies).bodies.keys()[p]),
                old(bodies).bodies.values()[p].colliders@,
                old(self),
            ));
            assert(!old_list.contains(handle)) by {
                if old_list.contains(handle) {
                    let k = old_list.index_of(handle);
                    assert(old(self).contains(old_list[k]));
                }
            }
            assert forall|j: int| 0 <= j < self.colliders.keys().len() implies bodies.contains(
                (#[trigger] self.colliders.values()[j]).owner,
            ) && bodies.body(self.colliders.values()[j].owner).colliders@.contains(
                ColliderHandle(self.colliders.keys()[j]),
            ) by {
                if j < n {
                    let c = old(self).colliders.values()[j];
                    let h = ColliderHandle(old(self).colliders.keys()[j]);
                    assert(old(bodies).contains(c.owner));
                    let list = old(bodies).body(c.owner).colliders@;
                    assert(list.contains(h));
                    if c.owner.0 == owner.0 {
                        let k = list.index_of(h);
                        assert(new_body.colliders@[k] == h);
                    }
                } else {
                    assert(new_body.colliders@[old_list.len() as int] == handle);
                }
            }
            assert forall|i: int| 0 <= i < bodies.bodies.keys().len() implies owns_its_list(
                BodyHandle(bodies.bodies.keys()[i]),
                #[trigger] bodies.bodies.values()[i].colliders@,
                self,
            ) by {
                assert(owns_its_list(
                    BodyHandle(old(bodies).bodies.keys()[i]),
                    old(bodies).bodies.values()[i].colliders@,
                    old(self),
                ));
                let list = bodies.bodies.values()[i].colliders@;
                assert forall|k: int| 0 <= k < list.len() implies self.contains(#[trigger] list[k])
                    && self.collider(list[k]).owner == BodyHandle(bodies.bodies.keys()[i]) by {
                    if i == p && k == old_list.len() {
                    } else {
                        let h = old(bodies).bodies.values()[i].colliders@[k];
                        assert(old(self).contains(h));
                    }
                }
            }
            assert forall|h: ColliderHandle| #[trigger] graph.has_node(h) <==> self.contains(h) by {
                if graph.has_node(h) {
                    let i = graph.nodes().index_of(h);
                    if i < old(graph).nodes().len() {
                        assert(old(graph).nodes()[i] == h);
                        assert(old(graph).has_node(h));
                    }
                }
                if self.contains(h) {
                    if h.0 != key {
                        assert(old(graph).has_node(h));
                        let i = old(graph).nodes().index_of(h);
                        assert(graph.nodes()[i] == h);
                    } else {
                        assert(graph.nodes()[old(graph).nodes().len() as int] == h);
                    }
                }
            }
        }
        Some(handle)
    }

    /// The collider of a handle, or `None` if the handle names none.
    pub fn get(&self, handle: ColliderHandle) -> (r: Option<&Collider<T>>)
        requires
            self.wf(),
        ensures
            r.is_some() == self.contains(handle),
            r.is_some() ==> *r.unwrap() == self.collider(handle),
    {
        self.colliders.get(handle.0)
    }

    /// The collider of a handle, to be changed in place.
    pub fn get_mut(&mut self, handle: ColliderHandle) -> (r: Option<&mut Collider<T>>)
        requires
            old(self).wf(),
        ensures
            r.is_some() == old(self).contains(handle),
            final(self).wf(),
            final(self).colliders.keys() == old(self).colliders.keys(),
            final(self).colliders.retired() == old(self).colliders.retired(),
            final(self).colliders.removals() == old(self).colliders.removals(),
            r.is_some() ==> *r.unwrap() == old(self).collider(handle)
                && final(self).colliders.values() == old(self).colliders.values().update(
                old(self).colliders.position(handle.0),
                *final(r.unwrap()),
            ),
            r.is_none() ==> final(self).colliders.values() == old(self).colliders.values(),
    {
        self.colliders.get_mut(handle.0)
    }

    /// Number of colliders in the set.
    pub fn len(&self) -> (n: usize)
        requires
            self.wf(),
        ensures
            n == self.colliders.keys().len(),
    {
        self.colliders.len()
    }

    /// The handles and colliders of the set, in its order.
    pub fn iter(&self) -> (all: Vec<(ColliderHandle, &Collider<T>)>)
        requires
            self.wf(),
        ensures
            all@.len() == self.colliders.keys().len(),
            forall|i: int|
                0 <= i < all@.len() ==> (#[trigger] all@[i]).0.0 == self.colliders.keys()[i]
                    && *all@[i].1 == self.colliders.values()[i],
    {
        let mut all: Vec<(ColliderHandle, &Collider<T>)> = Vec::new();
        let n = self.colliders.len();
        let mut i: usize = 0;
        while i < n
            invariant
                self.wf(),
                n == self.colliders.keys().len(),
                0 <= i <= n,
                all@.len() == i,
                forall|j: int|
                    0 <= j < i ==> (#[trigger] all@[j]).0.0 == self.colliders.keys()[j]
                        && *all@[j].1 == self.colliders.values()[j],
            decreases n - i,
        {
            all.push((ColliderHandle(self.colliders.key_at(i)), self.colliders.value_at(i)));
            i += 1;
        }
        all
    }

    /// Removes a collider from the set; `None` if the handle names none.
    pub(crate) fn internal_remove(&mut self, handle: ColliderHandle) -> (r: Option<Collider<T>>)
        requires
            old(self).wf(),
        ensures
            final(self).wf(),
            r.is_some() == (old(self).contains(handle) && !old(self).colliders.exhausted()),
            r.is_none() ==> final(self).colliders.retired() == old(self).colliders.retired()
                && final(self).colliders.removals() == old(self).colliders.removals()
                && final(self).colliders.keys() == old(self).colliders.keys()
                && final(self).colliders.values() == old(self).colliders.values(),
            r.is_some() ==> final(self).colliders.retired() == old(self).colliders.retired().insert(
                handle.0,
            ) && final(self).colliders.removals() == old(self).colliders.removals() + 1
                && r.unwrap() == old(self).collider(handle) && final(self).colliders.keys()
                == swap_removed(old(self).colliders.keys(), old(self).colliders.position(handle.0))
                && final(self).colliders.values() == swap_removed(
                old(self).colliders.values(),
                old(self).colliders.position(handle.0),
            ),
    {
        self.colliders.remove(handle.0)
    }
}

} // verus!
