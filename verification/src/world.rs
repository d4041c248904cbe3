//! The world: the bodies, the colliders on them, the graph of their
//! interactions, and the events of the last step.

use vstd::prelude::*;
use super::collision::collision_graph::{
    edges_kept, neighbors_listed, CollisionGraph, GraphEdge,
};
use super::describe::{describe_collisions, diff_events, surviving};
use super::resolve::{lemma_attached_after_move, pass_x, pass_y, step_x, step_y};
use super::event::{ContactEvent, EventLog};
use super::laws::lemma_step_moves_only;
use super::object::collider_set::{attached, graph_matches, owns_its_list};
use super::object::handle_arena::{lemma_swap_removed, swap_removed};
use super::object::{
    Body, BodyHandle, BodySet, BodyStatus, Collider, ColliderHandle, ColliderSet,
};

verus! {

/// Why a removal did not take place.
#[derive(Copy, Clone, Debug, PartialEq, Eq)]
pub enum RemoveError {
    /// The handle names nothing that lives in the world.
    NotFound,
    /// A store has come to the last generation of its handles: it has made
    /// as many removals as a `u64` counts, and makes no more.
    Exhausted,
}

/// What `remove_collider` answers: the handle must name a collider, and
/// the set of colliders must not be exhausted.
pub open spec fn collider_removal<T: Copy>(
    world: &PhysicsWorld<T>,
    handle: ColliderHandle,
) -> Result<(), RemoveError> {
    if !world.colliders.contains(handle) {
        Err(RemoveError::NotFound)
    } else if world.colliders.colliders.exhausted() {
        Err(RemoveError::Exhausted)
    } else {
        Ok(())
    }
}

/// What `remove_body` answers: the handle must name a body, and neither
/// the set of bodies nor, by the removal of the body's colliders, the set
/// of colliders must come to be exhausted.
pub open spec fn body_removal<T: Copy>(world: &PhysicsWorld<T>, handle: BodyHandle) -> Result<
    (),
    RemoveError,
> {
    if !world.bodies.contains(handle) {
        Err(RemoveError::NotFound)
    } else if world.bodies.bodies.exhausted() || world.colliders.colliders.removals()
        + world.bodies.body(handle).colliders@.len() > u64::MAX {
        Err(RemoveError::Exhausted)
    } else {
        Ok(())
    }
}

/// T - User supplied type used as a tag, present in all events
pub struct PhysicsWorld<T> {
    pub bodies: BodySet,
    pub colliders: ColliderSet<T>,
    pub collision_graph: CollisionGraph,
    /// The events of the last step.
    pub events: EventLog<T>,
    /// The events that removals have put off until the next step.
    pub removal_events: EventLog<T>,
}

/// Index of the first occurrence of `handle` in `list`.
pub(crate) fn position_of(list: &Vec<ColliderHandle>, handle: ColliderHandle) -> (r: Option<usize>)
    ensures
        r.is_some() == list@.contains(handle),
        r.is_some() ==> r.unwrap() < list@.len() && list@[r.unwrap() as int] == handle,
{
    let mut i: usize = 0;
    while i < list.len()
        invariant
            0 <= i <= list@.len(),
            forall|k: int| 0 <= k < i ==> list@[k] != handle,
        decreases list@.len() - i,
    {
        if list[i].same(&handle) {
            return Some(i);
        }
        i += 1;
    }
    None
}

/// The events that report the end of the contacts of `handle` with each of
/// `others`, in their order.
pub open spec fn notices<T: Copy>(
    colliders: &ColliderSet<T>,
    handle: ColliderHandle,
    others: Seq<ColliderHandle>,
) -> Seq<ContactEvent<T>> {
    Seq::new(
        others.len(),
        |k: int|
            ContactEvent::started(
                handle,
                colliders.collider(handle),
                others[k],
                colliders.collider(others[k]),
            ).finished(),
    )
}

/// Colliders that differ in all but their owners are attached as before.
pub proof fn lemma_attached_after_change<T>(
    bodies: &BodySet,
    before: &ColliderSet<T>,
    after: &ColliderSet<T>,
)
    requires
        attached(bodies, before),
        after.wf(),
        after.colliders.keys() == before.colliders.keys(),
        after.colliders.values().len() == before.colliders.values().len(),
        forall|j: int|
            0 <= j < before.colliders.values().len()
                ==> (#[trigger] after.colliders.values()[j]).owner
                == before.colliders.values()[j].owner,
    ensures
        attached(bodies, after),
{
    before.colliders.lemma_keys_distinct();
    after.colliders.lemma_keys_distinct();
    bodies.bodies.lemma_keys_distinct();
    assert forall|j: int| 0 <= j < after.colliders.keys().len() implies bodies.contains(
        (#[trigger] after.colliders.values()[j]).owner,
    ) && bodies.body(after.colliders.values()[j].owner).colliders@.contains(
        ColliderHandle(after.colliders.keys()[j]),
    ) by {
        assert(bodies.contains(before.colliders.values()[j].owner));
    }
    assert forall|i: int| 0 <= i < bodies.bodies.keys().len() implies owns_its_list(
        BodyHandle(bodies.bodies.keys()[i]),
        #[trigger] bodies.bodies.values()[i].colliders@,
        after,
    ) by {
        assert(owns_its_list(
            BodyHandle(bodies.bodies.keys()[i]),
            bodies.bodies.values()[i].colliders@,
            before,
        ));
        let list = bodies.bodies.values()[i].colliders@;
        assert forall|k: int| 0 <= k < list.len() implies after.contains(#[trigger] list[k])
            && after.collider(list[k]).owner == BodyHandle(bodies.bodies.keys()[i]) by {
            assert(before.contains(list[k]));
            let j = before.colliders.keys().index_of(list[k].0);
            assert(before.colliders.keys()[j] == list[k].0);
            assert(after.colliders.values()[j].owner == before.colliders.values()[j].owner);
        }
    }
}

/// Whether two sets hold the same bodies but for their places: the same
/// handles, and under each a body with the same list of colliders.
pub open spec fn same_lists(before: &BodySet, after: &BodySet) -> bool {
    &&& after.wf()
    &&& after.bodies.keys() == before.bodies.keys()
    &&& after.bodies.values().len() == before.bodies.values().len()
    &&& forall|i: int|
        0 <= i < before.bodies.values().len() ==> (#[trigger] after.bodies.values()[i]).colliders@
            == before.bodies.values()[i].colliders@
}

/// Whether two sets hold the same colliders but for what they are: the
/// same handles, and under each a collider of the same owner.
pub open spec fn same_owners<T>(before: &ColliderSet<T>, after: &ColliderSet<T>) -> bool {
    &&& after.wf()
    &&& after.colliders.keys() == before.colliders.keys()
    &&& after.colliders.values().len() == before.colliders.values().len()
    &&& forall|j: int|
        0 <= j < before.colliders.values().len() ==> (#[trigger] after.colliders.values()[j]).owner
            == before.colliders.values()[j].owner
}

/// Whatever is changed of the bodies but their lists, the colliders stay
/// attached.
pub proof fn lemma_attached_wherever_the_bodies_are<T>(bodies: &BodySet, colliders: &ColliderSet<T>)
    requires
        attached(bodies, colliders),
    ensures
        forall|after: BodySet| #[trigger] same_lists(bodies, &after)
            ==> attached(&after, colliders),
{
    assert forall|after: BodySet| #[trigger] same_lists(bodies, &after) implies attached(
        &after,
        colliders,
    ) by {
        lemma_attached_after_move(bodies, &after, colliders);
    }
}

/// Whatever is changed of the colliders but their owners, they stay
/// attached, and the graph still matches them.
pub proof fn lemma_attached_whatever_the_colliders_are<T>(
    bodies: &BodySet,
    colliders: &ColliderSet<T>,
    graph: &CollisionGraph,
)
    requires
        attached(bodies, colliders),
        graph_matches(colliders, graph),
    ensures
        forall|after: ColliderSet<T>| #[trigger]
            same_owners(colliders, &after) ==> attached(bodies, &after) && graph_matches(
                &after,
                graph,
            ),
{
    assert forall|after: ColliderSet<T>| #[trigger] same_owners(colliders, &after) implies attached(
        bodies,
        &after,
    ) && graph_matches(&after, graph) by {
        lemma_attached_after_change(bodies, colliders, &after);
        assert forall|h: ColliderHandle| #[trigger] graph.has_node(h) <==> after.contains(h) by {
            assert(graph.has_node(h) <==> colliders.contains(h));
        }
    }
}

/// `body` with the movement that it is to make in a step of length `dt`: a
/// kinematic body moves by its velocity times `dt`, and a static body keeps
/// the movement that it has, which is never made.
pub open spec fn primed_body(body: Body, dt: int) -> Body {
    if body.status == BodyStatus::Kinematic {
        Body { movement: body.velocity.spec_times(dt), ..body }
    } else {
        body
    }
}

/// The bodies, each with its movement for a step of length `dt`.
pub open spec fn primed(bodies: Seq<Body>, dt: int) -> Seq<Body> {
    Seq::new(bodies.len(), |i: int| primed_body(bodies[i], dt))
}

/// The bodies and the edges after the two passes of a step of length `dt`:
/// the movements are set, then made along the horizontal axis and then
/// along the vertical one, where the edges of touching colliders are added.
pub open spec fn stepped<T>(
    keys: Seq<(usize, u64)>,
    bodies: Seq<Body>,
    colliders: &ColliderSet<T>,
    edges: Seq<GraphEdge>,
    dt: int,
) -> (Seq<Body>, Seq<GraphEdge>) {
    pass_y(keys, pass_x(keys, primed(bodies, dt), colliders, 0), colliders, edges, 0)
}

/// How `insert_body` changes a world: the body comes last, without
/// colliders and otherwise as it was given, under a handle that was not
/// live; all else stays.
pub open spec fn body_added<T: Copy>(
    before: &PhysicsWorld<T>,
    after: &PhysicsWorld<T>,
    body: Body,
    handle: BodyHandle,
) -> bool {
    &&& !before.bodies.contains(handle)
    &&& !before.bodies.bodies.retired().contains(handle.0)
    &&& after.bodies.contains(handle)
    &&& forall|h: BodyHandle| #[trigger]
        after.bodies.contains(h) <==> before.bodies.contains(h) || h == handle
    &&& after.bodies.bodies.retired() == before.bodies.bodies.retired()
    &&& after.bodies.bodies.removals() == before.bodies.bodies.removals()
    &&& after.bodies.bodies.keys() == before.bodies.bodies.keys().push(handle.0)
    &&& after.bodies.bodies.values().len() == before.bodies.bodies.values().len() + 1
    &&& after.bodies.bodies.values().drop_last() == before.bodies.bodies.values()
    &&& after.bodies.body(handle) == after.bodies.bodies.values().last()
    &&& after.bodies.body(handle).same_but_list(&body)
    &&& after.bodies.body(handle).colliders@.len() == 0
    &&& forall|h: BodyHandle|
        before.bodies.contains(h) ==> after.bodies.contains(h) && #[trigger] after.bodies.body(h)
            == before.bodies.body(h)
    &&& after.colliders == before.colliders
    &&& after.collision_graph == before.collision_graph
    &&& after.events == before.events
    &&& after.removal_events == before.removal_events
}

/// How `insert_collider` changes a world. Without a live owner nothing
/// changes. Else the collider comes last in the set, under a handle that
/// was not live; the handle comes last on its owner's list and last among
/// the nodes of the graph; and the edges and the events stay.
pub open spec fn collider_added<T: Copy>(
    before: &PhysicsWorld<T>,
    after: &PhysicsWorld<T>,
    collider: Collider<T>,
    r: Option<ColliderHandle>,
) -> bool {
    &&& after.events@ == before.events@
    &&& after.removal_events@ == before.removal_events@
    &&& after.bodies.bodies.keys() == before.bodies.bodies.keys()
    &&& after.collision_graph.all_edges() == before.collision_graph.all_edges()
    &&& after.same_retired(before)
    &&& r.is_none() ==> after.same_scene(before)
    &&& r.is_some() ==> {
        let handle = r.unwrap();
        let owner = before.bodies.bodies.position(collider.owner.0);
        let body = after.bodies.bodies.values()[owner];
        &&& !before.colliders.contains(handle)
        &&& !before.colliders.colliders.retired().contains(handle.0)
        &&& after.colliders.contains(handle)
        &&& forall|h: ColliderHandle| #[trigger]
            after.colliders.contains(h) <==> before.colliders.contains(h) || h == handle
        &&& after.colliders.collider(handle) == collider
        &&& after.colliders.colliders.keys() == before.colliders.colliders.keys().push(handle.0)
        &&& after.colliders.colliders.values() == before.colliders.colliders.values().push(
            collider,
        )
        &&& after.collision_graph.nodes() == before.collision_graph.nodes().push(handle)
        &&& after.bodies.bodies.values() == before.bodies.bodies.values().update(owner, body)
        &&& body.colliders@ == before.bodies.body(collider.owner).colliders@.push(handle)
        &&& body.same_but_list(&before.bodies.body(collider.owner))
        &&& others_stay(before, after, collider.owner, handle)
    }
}

/// Whether the bodies and the colliders of `before` are in `after` as they
/// were, but for the one body and the one collider named.
pub open spec fn others_stay<T>(
    before: &PhysicsWorld<T>,
    after: &PhysicsWorld<T>,
    body: BodyHandle,
    collider: ColliderHandle,
) -> bool {
    &&& forall|h: BodyHandle|
        before.bodies.contains(h) && h != body ==> after.bodies.contains(h)
            && #[trigger] after.bodies.body(h) == before.bodies.body(h)
    &&& forall|h: ColliderHandle|
        before.colliders.contains(h) && h != collider ==> after.colliders.contains(h)
            && #[trigger] after.colliders.collider(h) == before.colliders.collider(h)
}

/// How `remove_collider` changes a world. Where the handle names no
/// collider, nothing changes. Else the collider leaves the set, its handle
/// leaves its owner's list, its node leaves the graph with the edges that
/// end in it, and for each of those edges the event that ends the contact
/// is put off; the events of the last step stay.
pub open spec fn collider_removed<T: Copy>(
    before: &PhysicsWorld<T>,
    after: &PhysicsWorld<T>,
    handle: ColliderHandle,
    done: bool,
) -> bool {
    &&& after.events@ == before.events@
    &&& after.bodies.bodies.keys() == before.bodies.bodies.keys()
    &&& after.bodies.bodies.retired() == before.bodies.bodies.retired()
    &&& after.bodies.bodies.removals() == before.bodies.bodies.removals()
    &&& !done ==> after.same_scene(before) && after.same_retired(before) && after.removal_events@
        == before.removal_events@
    &&& done ==> {
        let place = before.colliders.colliders.position(handle.0);
        &&& after.colliders.colliders.retired() == before.colliders.colliders.retired().insert(
            handle.0,
        )
        &&& after.colliders.colliders.removals() == before.colliders.colliders.removals() + 1
        &&& after.colliders.colliders.keys() == swap_removed(
            before.colliders.colliders.keys(),
            place,
        )
        &&& after.colliders.colliders.values() == swap_removed(
            before.colliders.colliders.values(),
            place,
        )
        &&& after.collision_graph.nodes() == swap_removed(
            before.collision_graph.nodes(),
            before.collision_graph.nodes().index_of(handle),
        )
        &&& exists|order: Seq<int>| #[trigger]
            edges_kept(
                before.collision_graph.all_edges(),
                handle,
                after.collision_graph.all_edges(),
                order,
            )
        &&& exists|others: Seq<ColliderHandle>, order: Seq<int>| #[trigger]
            neighbors_listed(before.collision_graph.all_edges(), handle, others, order)
                && after.removal_events@ == before.removal_events@ + notices(
                &before.colliders,
                handle,
                others,
            )
        &&& ({
            let owner = before.bodies.bodies.position(before.colliders.collider(handle).owner.0);
            let was = before.bodies.bodies.values()[owner];
            let body = after.bodies.bodies.values()[owner];
            &&& after.bodies.bodies.values() == before.bodies.bodies.values().update(owner, body)
            &&& body.colliders@ == swap_removed(was.colliders@, was.colliders@.index_of(handle))
            &&& body.same_but_list(&was)
        })
        &&& !after.colliders.contains(handle)
        &&& others_stay(before, after, before.colliders.collider(handle).owner, handle)
    }
}

/// How `remove_body` changes a world. Where the handle names no body,
/// nothing changes. Else the body leaves the set, and with it the
/// colliders that it owned, and no others, leave the set of colliders and
/// the graph; events are put off, none fires, and none is lost.
pub open spec fn body_removed<T: Copy>(
    before: &PhysicsWorld<T>,
    after: &PhysicsWorld<T>,
    handle: BodyHandle,
    done: bool,
) -> bool {
    &&& after.events@ == before.events@
    &&& !done ==> after.same_scene(before) && after.same_retired(before) && after.removal_events@
        == before.removal_events@
    &&& done ==> {
        let place = before.bodies.bodies.position(handle.0);
        &&& after.bodies.bodies.retired() == before.bodies.bodies.retired().insert(handle.0)
        &&& after.bodies.bodies.removals() == before.bodies.bodies.removals() + 1
        &&& after.bodies.bodies.keys() == swap_removed(before.bodies.bodies.keys(), place)
        &&& after.bodies.bodies.values() == swap_removed(before.bodies.bodies.values(), place)
        &&& !after.bodies.contains(handle)
        &&& forall|h: BodyHandle|
            before.bodies.contains(h) && h != handle ==> after.bodies.contains(h)
                && #[trigger] after.bodies.body(h) == before.bodies.body(h)
        &&& forall|h: ColliderHandle| #[trigger]
            after.colliders.contains(h) <==> before.colliders.contains(h)
                && before.colliders.collider(h).owner != handle
        &&& forall|h: ColliderHandle|
            after.colliders.contains(h) ==> #[trigger] after.colliders.collider(h)
                == before.colliders.collider(h)
        &&& after.colliders.colliders.keys().len() == before.colliders.colliders.keys().len()
            - before.bodies.body(handle).colliders@.len()
        &&& after.collision_graph.nodes().len() == before.collision_graph.nodes().len()
            - before.bodies.body(handle).colliders@.len()
        &&& before.removal_events@.is_prefix_of(after.removal_events@)
        &&& before.colliders.colliders.retired().subset_of(after.colliders.colliders.retired())
        &&& exists|states: Seq<PhysicsWorld<T>>| #[trigger]
            cascaded(before, states, before.bodies.body(handle).colliders@) && after.colliders
                == states.last().colliders && after.collision_graph
                == states.last().collision_graph && after.removal_events
                == states.last().removal_events
    }
}

/// `states` are the worlds that the removal of the colliders of `list`, one
/// after the other and each as `remove_collider` does it, leads through,
/// from `before` on.
pub open spec fn cascaded<T: Copy>(
    before: &PhysicsWorld<T>,
    states: Seq<PhysicsWorld<T>>,
    list: Seq<ColliderHandle>,
) -> bool {
    &&& states.len() == list.len() + 1
    &&& states[0] == *before
    &&& forall|i: int|
        0 <= i < list.len() ==> (#[trigger] states[i + 1]).wf() && collider_removed(
            &states[i],
            &states[i + 1],
            list[i],
            true,
        )
}

/// Whether the bodies of `after` are those of `before` but for their
/// positions and movements, and the static ones as they were.
pub open spec fn bodies_only_moved<T>(before: &PhysicsWorld<T>, after: &PhysicsWorld<T>) -> bool {
    forall|h: BodyHandle|
        before.bodies.contains(h) ==> after.bodies.contains(h) && (
        #[trigger] after.bodies.body(h)).same_but_place(&before.bodies.body(h)) && (
        before.bodies.body(h).status == BodyStatus::Static ==> after.bodies.body(h)
            == before.bodies.body(h))
}

/// How `step` changes a world: the bodies are where the two passes put
/// them; the events are those that removals had put off, followed by those
/// of the edges as the passes left them, in the order of the edges; the
/// graph keeps the edges whose colliders touch, classified anew; the
/// colliders and the nodes stay; and no event is put off any longer.
pub open spec fn world_stepped<T: Copy>(
    before: &PhysicsWorld<T>,
    after: &PhysicsWorld<T>,
    dt: int,
) -> bool {
    let scene = stepped(
        before.bodies.bodies.keys(),
        before.bodies.bodies.values(),
        &before.colliders,
        before.collision_graph.all_edges(),
        dt,
    );
    &&& after.colliders == before.colliders
    &&& after.bodies.bodies.keys() == before.bodies.bodies.keys()
    &&& after.same_retired(before)
    &&& after.collision_graph.nodes() == before.collision_graph.nodes()
    &&& after.removal_events@.len() == 0
    &&& after.bodies.bodies.values() == scene.0
    &&& after.events@ == before.removal_events@ + diff_events(
        &after.bodies,
        &after.colliders,
        scene.1,
        0,
    )
    &&& after.collision_graph.all_edges() == surviving(&after.bodies, &after.colliders, scene.1)
}

impl<T: Copy> Default for PhysicsWorld<T> {
    fn default() -> (world: Self)
        ensures
            world.wf(),
            world.bodies.bodies.keys().len() == 0,
            world.colliders.colliders.keys().len() == 0,
            world.collision_graph.nodes().len() == 0,
            world.collision_graph.all_edges().len() == 0,
            world.events@.len() == 0,
            world.removal_events@.len() == 0,
            world.bodies.bodies.values().len() == 0,
            world.colliders.colliders.values().len() == 0,
            world.bodies.bodies.removals() == 0,
            world.colliders.colliders.removals() == 0,
            world.bodies.bodies.retired() == Set::<(usize, u64)>::empty(),
            world.colliders.colliders.retired() == Set::<(usize, u64)>::empty(),
    {
        Self::new()
    }
}

impl<T: Copy> PhysicsWorld<T> {
    /// The bodies, the colliders and the graph agree: see [`attached`] and
    /// [`graph_matches`].
    pub open spec fn consistent(&self) -> bool {
        &&& attached(&self.bodies, &self.colliders)
        &&& graph_matches(&self.colliders, &self.collision_graph)
    }

    /// Every edge of the graph is classified, as it is between two steps.
    pub open spec fn settled(&self) -> bool {
        forall|e: int|
            0 <= e < self.collision_graph.all_edges().len() ==> (
            #[trigger] self.collision_graph.all_edges()[e]).interaction.is_some()
    }

    /// The world as it is between two calls.
    pub open spec fn wf(&self) -> bool {
        self.consistent() && self.settled()
    }

    /// Whether `other` has the same bodies, colliders and graph.
    pub open spec fn same_scene(&self, other: &Self) -> bool {
        &&& self.bodies.bodies.keys() == other.bodies.bodies.keys()
        &&& self.bodies.bodies.values() == other.bodies.bodies.values()
        &&& self.colliders.colliders.keys() == other.colliders.colliders.keys()
        &&& self.colliders.colliders.values() == other.colliders.colliders.values()
        &&& self.collision_graph.nodes() == other.collision_graph.nodes()
        &&& self.collision_graph.all_edges() == other.collision_graph.all_edges()
    }

    /// Whether `other` has retired the same handles.
    pub open spec fn same_retired(&self, other: &Self) -> bool {
        &&& self.bodies.bodies.retired() == other.bodies.bodies.retired()
        &&& self.bodies.bodies.removals() == other.bodies.bodies.removals()
        &&& self.colliders.colliders.retired() == other.colliders.colliders.retired()
        &&& self.colliders.colliders.removals() == other.colliders.colliders.removals()
    }

    /// A world without bodies, colliders and events.
    pub fn new() -> (world: Self)
        ensures
            world.wf(),
            world.bodies.bodies.keys().len() == 0,
            world.colliders.colliders.keys().len() == 0,
            world.collision_graph.nodes().len() == 0,
            world.collision_graph.all_edges().len() == 0,
            world.events@.len() == 0,
            world.removal_events@.len() == 0,
            world.bodies.bodies.values().len() == 0,
            world.colliders.colliders.values().len() == 0,
            world.bodies.bodies.removals() == 0,
            world.colliders.colliders.removals() == 0,
            world.bodies.bodies.retired() == Set::<(usize, u64)>::empty(),
            world.colliders.colliders.retired() == Set::<(usize, u64)>::empty(),
    {
        let world = Self {
            bodies: BodySet::new(),
            colliders: ColliderSet::new(),
            collision_graph: CollisionGraph::with_capacity(128, 16),
            events: EventLog::with_capacity(16),
            removal_events: EventLog::with_capacity(8),
        };
        proof {
            assert forall|h: ColliderHandle| #[trigger]
                world.collision_graph.has_node(h) <==> world.colliders.contains(h) by {
                if world.collision_graph.has_node(h) {
                    let i = world.collision_graph.nodes().index_of(h);
                }
                if world.colliders.contains(h) {
                    let i = world.colliders.colliders.keys().index_of(h.0);
                }
            }
        }
        world
    }

    /// Inserts a new collider into the world if it's associated body exists.
    /// In the case where body doesn't exist returns `None`.
    pub fn insert_collider(&mut self, collider: Collider<T>) -> (r: Option<ColliderHandle>)
        requires
            old(self).wf(),
        ensures
            final(self).wf(),
            r.is_some() == old(self).bodies.contains(collider.owner),
            collider_added(old(self), final(self), collider, r),
    {
        let r = self.colliders.insert(collider, &mut self.bodies, &mut self.collision_graph);
        proof {
            if r.is_some() {
                old(self).colliders.colliders.lemma_after_push(
                    &self.colliders.colliders,
                    r.unwrap().0,
                    collider,
                );
                old(self).bodies.bodies.lemma_keys_distinct();
                let owner = old(self).bodies.bodies.position(collider.owner.0);
                assert(old(self).bodies.bodies.keys()[owner] == collider.owner.0);
                old(self).bodies.bodies.lemma_after_update(
                    &self.bodies.bodies,
                    owner,
                    self.bodies.bodies.values()[owner],
                );
            }
        }
        r
    }

    /// Removes a collider, with its node and its edges in the graph, and
    /// takes it off its owner's list. For each edge of the collider the event
    /// that ends the contact is put off until the next step; no event fires
    /// during the call. Fails, and changes nothing, if the handle names no
    /// collider or the set of colliders is exhausted.
    pub fn remove_collider(&mut self, handle: ColliderHandle) -> (r: Result<(), RemoveError>)
        requires
            old(self).wf(),
        ensures
            final(self).wf(),
            r == collider_removal(old(self), handle),
            collider_removed(old(self), final(self), handle, r.is_ok()),
    {
        let collider = match self.colliders.get(handle) {
            Some(collider) => collider,
            None => { return Err(RemoveError::NotFound); },
        };
        if self.colliders.colliders.is_exhausted() {
            return Err(RemoveError::Exhausted);
        }
        let owner = collider.owner;
        proof {
            self.collision_graph.lemma_wf();
            self.colliders.colliders.lemma_keys_distinct();
            self.bodies.bodies.lemma_keys_distinct();
        }
        // schedule collision/overlap ended events
        let neighbors = self.collision_graph.neighbors(handle);
        let ghost order = choose|order: Seq<int>| #[trigger]
            neighbors_listed(self.collision_graph.all_edges(), handle, neighbors@, order);
        let mut i: usize = 0;
        while i < neighbors.len()
            invariant
                0 <= i <= neighbors@.len(),
                self.colliders == old(self).colliders,
                self.collision_graph == old(self).collision_graph,
                self.bodies == old(self).bodies,
                self.events == old(self).events,
                old(self).wf(),
                old(self).colliders.contains(handle),
                *collider == old(self).colliders.collider(handle),
                neighbors_listed(old(self).collision_graph.all_edges(), handle, neighbors@, order),
                self.removal_events@ == old(self).removal_events@ + notices(
                    &old(self).colliders,
                    handle,
                    neighbors@.take(i as int),
                ),
            decreases neighbors@.len() - i,
        {
            let handle_other = neighbors[i];
            proof {
                self.collision_graph.lemma_wf();
                let e = self.collision_graph.all_edges()[order[i as int]];
                assert(self.collision_graph.has_node(e.first));
                assert(self.collision_graph.has_node(e.second));
                assert(self.collision_graph.has_node(handle_other));
            }
            match self.colliders.get(handle_other) {
                Some(collider_other) => {
                    let event = ContactEvent::new(handle, collider, handle_other, collider_other)
                        .into_finished();
                    self.removal_events.push(event);
                },
                None => {},
            }
            proof {
                assert(neighbors@.take(i + 1) =~= neighbors@.take(i as int).push(handle_other));
                assert(notices(&old(self).colliders, handle, neighbors@.take(i + 1)) =~= notices(
                    &old(self).colliders,
                    handle,
                    neighbors@.take(i as int),
                ).push(
                    ContactEvent::started(
                        handle,
                        old(self).colliders.collider(handle),
                        handle_other,
                        old(self).colliders.collider(handle_other),
                    ).finished(),
                ));
            }
            i += 1;
        }
        assert(neighbors@.take(neighbors@.len() as int) =~= neighbors@);
        self.collision_graph.remove_node(handle);
        let _ = self.colliders.internal_remove(handle);

        // the owner, which lives as long as its colliders, forgets the collider
        match self.bodies.get_mut(owner) {
            Some(body) => {
                match position_of(body.colliders.handles(), handle) {
                    Some(index) => {
                        let _ = body.colliders.swap_remove(index);
                    },
                    None => {},
                }
            },
            None => {},
        }
        proof {
            let place = old(self).colliders.colliders.position(handle.0);
            let pb = old(self).bodies.bodies.position(owner.0);
            let before = old(self).bodies.bodies.values()[pb];
            let body = self.bodies.bodies.values()[pb];
            let old_list = before.colliders@;
            assert(old(self).colliders.colliders.keys()[place] == handle.0);
            assert(old(self).colliders.colliders.values()[place].owner == owner);
            assert(old(self).bodies.contains(owner));
            assert(old(self).bodies.bodies.keys()[pb] == owner.0);
            assert(owns_its_list(
                BodyHandle(old(self).bodies.bodies.keys()[pb]),
                old(self).bodies.bodies.values()[pb].colliders@,
                &old(self).colliders,
            ));
            assert(old_list.contains(ColliderHandle(old(self).colliders.colliders.keys()[place])));
            let k = old_list.index_of(handle);
            assert(old_list[k] == handle);
            assert(body.colliders@ == swap_removed(old_list, k));
            lemma_swap_removed(old_list, k);
            old(self).bodies.bodies.lemma_after_update(&self.bodies.bodies, pb, body);
            old(self).colliders.colliders.lemma_after_swap_remove(&self.colliders.colliders, place);

            // every collider still has its owner, whose list still names it
            assert forall|j: int|
                0 <= j < self.colliders.colliders.keys().len() implies self.bodies.contains(
                (#[trigger] self.colliders.colliders.values()[j]).owner,
            ) && self.bodies.body(self.colliders.colliders.values()[j].owner).colliders@.contains(
                ColliderHandle(self.colliders.colliders.keys()[j]),
            ) by {
                let last = old(self).colliders.colliders.keys().len() - 1;
                let o = if j == place { last } else { j };
                let c = old(self).colliders.colliders.values()[o];
                let h = ColliderHandle(old(self).colliders.colliders.keys()[o]);
                assert(self.colliders.colliders.values()[j] == c);
                assert(self.colliders.colliders.keys()[j] == h.0);
                assert(old(self).bodies.contains(c.owner));
                assert(old(self).bodies.body(c.owner).colliders@.contains(h));
                assert(h != handle);
                if c.owner.0 == owner.0 {
                    assert(swap_removed(old_list, k).contains(h));
                }
            }
            // every list still names colliders that live
            assert forall|b: int| 0 <= b < self.bodies.bodies.keys().len() implies owns_its_list(
                BodyHandle(self.bodies.bodies.keys()[b]),
                #[trigger] self.bodies.bodies.values()[b].colliders@,
                &self.colliders,
            ) by {
                assert(owns_its_list(
                    BodyHandle(old(self).bodies.bodies.keys()[b]),
                    old(self).bodies.bodies.values()[b].colliders@,
                    &old(self).colliders,
                ));
                let list_before = old(self).bodies.bodies.values()[b].colliders@;
                let list = self.bodies.bodies.values()[b].colliders@;
                assert forall|m: int| 0 <= m < list.len() implies self.colliders.contains(
                    #[trigger] list[m],
                ) && self.colliders.collider(list[m]).owner == BodyHandle(
                    self.bodies.bodies.keys()[b],
                ) by {
                    if b == pb {
                        assert(swap_removed(old_list, k).contains(list[m]));
                        let q = old_list.index_of(list[m]);
                        assert(old(self).colliders.contains(old_list[q]));
                    } else {
                        assert(old(self).colliders.contains(list_before[m]));
                        assert(old(self).colliders.collider(list_before[m]).owner == BodyHandle(
                            old(self).bodies.bodies.keys()[b],
                        ));
                        assert(old(self).bodies.bodies.keys()[b] != owner.0);
                    }
                }
            }
            // the nodes are the colliders that are left
            let nodes = old(self).collision_graph.nodes();
            let a = nodes.index_of(handle);
            assert(old(self).collision_graph.has_node(handle));
            assert(nodes[a] == handle);
            assert(nodes.no_duplicates());
            lemma_swap_removed(nodes, a);
            lemma_swap_removed(old(self).colliders.colliders.keys(), place);
            assert forall|h: ColliderHandle| #[trigger]
                self.collision_graph.has_node(h) <==> self.colliders.contains(h) by {
                assert(old(self).collision_graph.has_node(h) <==> old(self).colliders.contains(h));
            }
            // the edges that are left were classified before
            let kept = choose|kept: Seq<int>| #[trigger]
                edges_kept(
                    old(self).collision_graph.all_edges(),
                    handle,
                    self.collision_graph.all_edges(),
                    kept,
                );
            assert forall|e: int| 0 <= e < self.collision_graph.all_edges().len() implies (
            #[trigger] self.collision_graph.all_edges()[e]).interaction.is_some() by {
                assert(self.collision_graph.all_edges()[e]
                    == old(self).collision_graph.all_edges()[kept[e]]);
            }
        }
        Ok(())
    }

    /// The collider of a handle, or `None` if the handle names none.
    pub fn get_collider(&self, handle: ColliderHandle) -> (r: Option<&Collider<T>>)
        requires
            self.wf(),
        ensures
            r.is_some() == self.colliders.contains(handle),
            r.is_some() ==> *r.unwrap() == self.colliders.collider(handle),
    {
        self.colliders.get(handle)
    }

    /// The collider of a handle, to be changed in place. The world stays
    /// well formed as long as the collider keeps its owner.
    pub fn mut_collider(&mut self, handle: ColliderHandle) -> (r: Option<&mut Collider<T>>)
        requires
            old(self).wf(),
        ensures
            r.is_some() == old(self).colliders.contains(handle),
            final(self).bodies == old(self).bodies,
            final(self).collision_graph == old(self).collision_graph,
            final(self).events == old(self).events,
            final(self).removal_events == old(self).removal_events,
            final(self).colliders.colliders.keys() == old(self).colliders.colliders.keys(),
            final(self).same_retired(old(self)),
            r.is_some() ==> *r.unwrap() == old(self).colliders.collider(handle)
                && final(self).colliders.colliders.values()
                == old(self).colliders.colliders.values().update(
                old(self).colliders.colliders.position(handle.0),
                *final(r.unwrap()),
            ),
            r.is_none() ==> final(self).colliders.colliders.values()
                == old(self).colliders.colliders.values(),
            final(self).colliders.wf(),
            same_owners(&old(self).colliders, &final(self).colliders) ==> final(self).wf(),
            r.is_none() ==> final(self).wf(),
            r.is_some() && final(r.unwrap()).owner == r.unwrap().owner ==> final(self).wf(),
    {
        proof {
            self.colliders.colliders.lemma_keys_distinct();
            lemma_attached_whatever_the_colliders_are(
                &self.bodies,
                &self.colliders,
                &self.collision_graph,
            );
        }
        self.colliders.get_mut(handle)
    }

    /// Inserts a new body into the world and returns it's unique handle. The
    /// body starts without colliders.
    pub fn insert_body(&mut self, body: Body) -> (handle: BodyHandle)
        requires
            old(self).wf(),
        ensures
            final(self).wf(),
            body_added(old(self), final(self), body, handle),
    {
        let mut body = body;
        body.colliders.clear();
        let handle = self.bodies.insert(body);
        proof {
            old(self).bodies.bodies.lemma_keys_distinct();
            self.bodies.bodies.lemma_keys_distinct();
            self.colliders.colliders.lemma_keys_distinct();
            old(self).bodies.bodies.lemma_after_push(&self.bodies.bodies, handle.0, body);
            assert(self.bodies.bodies.values().drop_last() =~= old(self).bodies.bodies.values());
            assert forall|j: int|
                0 <= j < self.colliders.colliders.keys().len() implies self.bodies.contains(
                (#[trigger] self.colliders.colliders.values()[j]).owner,
            ) && self.bodies.body(self.colliders.colliders.values()[j].owner).colliders@.contains(
                ColliderHandle(self.colliders.colliders.keys()[j]),
            ) by {
                let c = old(self).colliders.colliders.values()[j];
                assert(old(self).bodies.contains(c.owner));
            }
            assert forall|b: int| 0 <= b < self.bodies.bodies.keys().len() implies owns_its_list(
                BodyHandle(self.bodies.bodies.keys()[b]),
                #[trigger] self.bodies.bodies.values()[b].colliders@,
                &self.colliders,
            ) by {
                if b < old(self).bodies.bodies.keys().len() {
                    assert(owns_its_list(
                        BodyHandle(old(self).bodies.bodies.keys()[b]),
                        old(self).bodies.bodies.values()[b].colliders@,
                        &old(self).colliders,
                    ));
                }
            }
        }
        handle
    }

    /// Removes a body and, before it, each of its colliders, in the order of
    /// the body's list, as `remove_collider` does. Fails, and changes
    /// nothing, if the handle names no body or a store has not the
    /// generations left that the removals take.
    pub fn remove_body(&mut self, handle: BodyHandle) -> (r: Result<(), RemoveError>)
        requires
            old(self).wf(),
        ensures
            final(self).wf(),
            r == body_removal(old(self), handle),
            body_removed(old(self), final(self), handle, r.is_ok()),
    {
        let body = match self.bodies.get(handle) {
            Some(body) => body,
            None => { return Err(RemoveError::NotFound); },
        };
        if self.bodies.bodies.is_exhausted() {
            return Err(RemoveError::Exhausted);
        }
        let room = self.colliders.colliders.removals_left();
        if room < usize::MAX as u64 && body.colliders.len() > room as usize {
            return Err(RemoveError::Exhausted);
        }
        let mut owned: Vec<ColliderHandle> = Vec::new();
        let mut k: usize = 0;
        while k < body.colliders.len()
            invariant
                0 <= k <= body.colliders@.len(),
                owned@ == body.colliders@.take(k as int),
            decreases body.colliders@.len() - k,
        {
            owned.push(body.colliders.get(k));
            proof {
                assert(body.colliders@.take(k + 1) =~= body.colliders@.take(k as int).push(
                    body.colliders@[k as int],
                ));
            }
            k += 1;
        }
        let ghost place = old(self).bodies.bodies.position(handle.0);
        proof {
            assert(body.colliders@.take(body.colliders@.len() as int) =~= body.colliders@);
            old(self).bodies.bodies.lemma_keys_distinct();
            assert(old(self).bodies.bodies.keys()[place] == handle.0);
            assert(owns_its_list(
                BodyHandle(old(self).bodies.bodies.keys()[place]),
                old(self).bodies.bodies.values()[place].colliders@,
                &old(self).colliders,
            ));
        }
        let ghost mut states: Seq<PhysicsWorld<T>> = seq![*self];
        let mut i: usize = 0;
        while i < owned.len()
            invariant
                0 <= i <= owned@.len(),
                states.len() == i + 1,
                states[0] == *old(self),
                states.last() == *self,
                forall|m: int|
                    0 <= m < i ==> (#[trigger] states[m + 1]).wf() && collider_removed(
                        &states[m],
                        &states[m + 1],
                        owned@[m],
                        true,
                    ),
                old(self).wf(),
                old(self).bodies.contains(handle),
                place == old(self).bodies.bodies.position(handle.0),
                0 <= place < old(self).bodies.bodies.keys().len(),
                old(self).bodies.bodies.keys()[place] == handle.0,
                owned@ == old(self).bodies.body(handle).colliders@,
                owned@.no_duplicates(),
                self.wf(),
                self.events@ == old(self).events@,
                self.bodies.bodies.keys() == old(self).bodies.bodies.keys(),
                self.bodies.bodies.values().len() == old(self).bodies.bodies.values().len(),
                forall|b: int|
                    0 <= b < self.bodies.bodies.values().len() && b != place
                        ==> #[trigger] self.bodies.bodies.values()[b]
                            == old(self).bodies.bodies.values()[b],
                forall|x: ColliderHandle|
                    #[trigger] self.bodies.bodies.values()[place].colliders@.contains(x)
                        <==> exists|
                        m: int,
                    |
                        i <= m < owned@.len() && #[trigger] owned@[m] == x,
                forall|h: ColliderHandle| #[trigger]
                    self.colliders.contains(h) <==> old(self).colliders.contains(h) && !owned@.take(
                        i as int,
                    ).contains(h),
                forall|h: ColliderHandle|
                    self.colliders.contains(h) ==> #[trigger] self.colliders.collider(h)
                        == old(self).colliders.collider(h),
                self.colliders.colliders.keys().len() == old(self).colliders.colliders.keys().len()
                    - i,
                self.colliders.colliders.removals() == old(self).colliders.colliders.removals() + i,
                old(self).colliders.colliders.removals() + owned@.len() <= u64::MAX,
                self.bodies.bodies.removals() == old(self).bodies.bodies.removals(),
                self.bodies.bodies.retired() == old(self).bodies.bodies.retired(),
                old(self).colliders.colliders.retired().subset_of(
                    self.colliders.colliders.retired(),
                ),
                old(self).removal_events@.is_prefix_of(self.removal_events@),
            decreases owned@.len() - i,
        {
            let collider_handle = owned[i];
            let ghost before = *self;
            proof {
                self.bodies.bodies.lemma_keys_distinct();
                self.colliders.colliders.lemma_keys_distinct();
                let list = self.bodies.bodies.values()[place].colliders@;
                assert(list.contains(collider_handle));
                assert(owns_its_list(
                    BodyHandle(self.bodies.bodies.keys()[place]),
                    self.bodies.bodies.values()[place].colliders@,
                    &self.colliders,
                ));
                let q = list.index_of(collider_handle);
                assert(self.colliders.contains(list[q]));
                assert(self.colliders.collider(collider_handle).owner == handle);
                assert(self.bodies.bodies.position(handle.0) == place);
            }
            let _ = self.remove_collider(collider_handle);
            proof {
                let so_far = states;
                states = states.push(*self);
                assert forall|m: int| 0 <= m < i + 1 implies (#[trigger] states[m + 1]).wf()
                    && collider_removed(&states[m], &states[m + 1], owned@[m], true) by {
                    if m < i {
                        assert(so_far[m + 1].wf() && collider_removed(
                            &so_far[m],
                            &so_far[m + 1],
                            owned@[m],
                            true,
                        ));
                    }
                }
                let list = before.bodies.bodies.values()[place].colliders@;
                let q = list.index_of(collider_handle);
                assert(list[q] == collider_handle);
                lemma_swap_removed(list, q);
                let spot = before.colliders.colliders.position(collider_handle.0);
                assert(before.colliders.colliders.keys()[spot] == collider_handle.0);
                before.colliders.colliders.lemma_after_swap_remove(&self.colliders.colliders, spot);
                lemma_swap_removed(before.colliders.colliders.keys(), spot);
                assert(owned@.take(i + 1) =~= owned@.take(i as int).push(collider_handle));
                assert forall|x: ColliderHandle| #[trigger]
                    self.bodies.bodies.values()[place].colliders@.contains(x) <==> exists|m: int|
                        i + 1 <= m < owned@.len() && #[trigger] owned@[m] == x by {
                    if self.bodies.bodies.values()[place].colliders@.contains(x) {
                        assert(list.contains(x));
                        let m = choose|m: int| i <= m < owned@.len() && #[trigger] owned@[m] == x;
                        assert(m != i);
                    }
                    if exists|m: int| i + 1 <= m < owned@.len() && #[trigger] owned@[m] == x {
                        let m = choose|m: int| i + 1 <= m < owned@.len() && #[trigger] owned@[m]
                            == x;
                        assert(i <= m < owned@.len() && owned@[m] == x);
                        assert(list.contains(x));
                    }
                }
                assert forall|h: ColliderHandle| #[trigger]
                    self.colliders.contains(h) <==> old(self).colliders.contains(h) && !owned@.take(
                        i + 1,
                    ).contains(h) by {
                    assert(before.colliders.contains(h) <==> old(self).colliders.contains(h)
                        && !owned@.take(i as int).contains(h));
                    if owned@.take(i + 1).contains(h) {
                        let m = owned@.take(i + 1).index_of(h);
                        assert(owned@.take(i + 1)[m] == h);
                        if m < i {
                            assert(owned@.take(i as int)[m] == h);
                        }
                    }
                    if owned@.take(i as int).contains(h) {
                        let m = owned@.take(i as int).index_of(h);
                        assert(owned@.take(i + 1)[m] == h);
                    }
                    if h == collider_handle {
                        assert(owned@.take(i + 1)[i as int] == h);
                    }
                }
            }
            i += 1;
        }
        let ghost mid = *self;
        let _ = self.bodies.internal_remove(handle);
        proof {
            assert(cascaded(old(self), states, old(self).bodies.body(handle).colliders@));
            assert(owned@.take(owned@.len() as int) =~= owned@);
            mid.bodies.bodies.lemma_keys_distinct();
            mid.colliders.colliders.lemma_keys_distinct();
            old(self).colliders.colliders.lemma_keys_distinct();
            self.bodies.bodies.lemma_keys_distinct();
            mid.bodies.bodies.lemma_after_swap_remove(&self.bodies.bodies, place);
            // nothing is left on the body's list
            let list = mid.bodies.bodies.values()[place].colliders@;
            if list.len() > 0 {
                assert(list.contains(list[0]));
            }
            assert(self.bodies.bodies.values() =~= swap_removed(
                old(self).bodies.bodies.values(),
                place,
            ));
            assert forall|j: int|
                0 <= j < self.colliders.colliders.keys().len() implies self.bodies.contains(
                (#[trigger] self.colliders.colliders.values()[j]).owner,
            ) && self.bodies.body(self.colliders.colliders.values()[j].owner).colliders@.contains(
                ColliderHandle(self.colliders.colliders.keys()[j]),
            ) by {
                let c = mid.colliders.colliders.values()[j];
                assert(mid.bodies.contains(c.owner));
                assert(mid.bodies.body(c.owner).colliders@.contains(
                    ColliderHandle(mid.colliders.colliders.keys()[j]),
                ));
                if c.owner.0 == handle.0 {
                    assert(mid.bodies.bodies.position(handle.0) == place);
                }
            }
            assert forall|b: int| 0 <= b < self.bodies.bodies.keys().len() implies owns_its_list(
                BodyHandle(self.bodies.bodies.keys()[b]),
                #[trigger] self.bodies.bodies.values()[b].colliders@,
                &self.colliders,
            ) by {
                let last = mid.bodies.bodies.keys().len() - 1;
                let o = if b == place { last } else { b };
                assert(owns_its_list(
                    BodyHandle(mid.bodies.bodies.keys()[o]),
                    mid.bodies.bodies.values()[o].colliders@,
                    &mid.colliders,
                ));
            }
            assert forall|h: ColliderHandle| #[trigger]
                self.colliders.contains(h) <==> old(self).colliders.contains(h)
                    && old(self).colliders.collider(h).owner != handle by {
                if old(self).colliders.contains(h) {
                    if owned@.contains(h) {
                        let q = owned@.index_of(h);
                        assert(old(self).colliders.collider(owned@[q]).owner == handle);
                    }
                    if old(self).colliders.collider(h).owner == handle {
                        let j = old(self).colliders.colliders.keys().index_of(h.0);
                        assert(old(self).colliders.colliders.keys()[j] == h.0);
                        assert(old(self).colliders.colliders.values()[j].owner == handle);
                        assert(old(self).bodies.body(handle).colliders@.contains(
                            ColliderHandle(old(self).colliders.colliders.keys()[j]),
                        ));
                    }
                }
            }
        }
        Ok(())
    }

    /// The body of a handle, or `None` if the handle names none.
    pub fn get_body(&self, handle: BodyHandle) -> (r: Option<&Body>)
        requires
            self.wf(),
        ensures
            r.is_some() == self.bodies.contains(handle),
            r.is_some() ==> *r.unwrap() == self.bodies.body(handle),
    {
        self.bodies.get(handle)
    }

    /// The body of a handle, to be changed in place. The world stays well
    /// formed as long as the body keeps its list of colliders.
    pub fn mut_body(&mut self, handle: BodyHandle) -> (r: Option<&mut Body>)
        requires
            old(self).wf(),
        ensures
            r.is_some() == old(self).bodies.contains(handle),
            final(self).colliders == old(self).colliders,
            final(self).collision_graph == old(self).collision_graph,
            final(self).events == old(self).events,
            final(self).removal_events == old(self).removal_events,
            final(self).bodies.bodies.keys() == old(self).bodies.bodies.keys(),
            final(self).same_retired(old(self)),
            r.is_some() ==> *r.unwrap() == old(self).bodies.body(handle)
                && final(self).bodies.bodies.values() == old(self).bodies.bodies.values().update(
                old(self).bodies.bodies.position(handle.0),
                *final(r.unwrap()),
            ),
            r.is_none() ==> final(self).bodies.bodies.values() == old(self).bodies.bodies.values(),
            final(self).bodies.wf(),
            same_lists(&old(self).bodies, &final(self).bodies) ==> final(self).wf(),
            r.is_none() ==> final(self).wf(),
            r.is_some() && final(r.unwrap()).colliders@ == r.unwrap().colliders@
                ==> final(self).wf(),
    {
        proof {
            self.bodies.bodies.lemma_keys_distinct();
            lemma_attached_wherever_the_bodies_are(&self.bodies, &self.colliders);
        }
        self.bodies.get_mut(handle)
    }

    /// The events of the last step: first those that removals had put off,
    /// then those of the step itself.
    pub fn events(&self) -> (events: &Vec<ContactEvent<T>>)
        ensures
            events@ == self.events@,
    {
        self.events.as_vec()
    }

    /// Advances the world by `dt`, a fixed-point time: `SCALE` stands for
    /// one unit of time.
    ///
    /// The events of the last step are dropped, and those that removals had
    /// put off come first. Each kinematic body gets the movement
    /// `velocity * dt`. The movements are resolved and made along the
    /// horizontal axis, then along the vertical axis; the graph is brought up
    /// to date; and the contacts that began or ended are reported.
    pub fn step(&mut self, dt: i32)
        requires
            old(self).wf(),
        ensures
            final(self).wf(),
            world_stepped(old(self), final(self), dt as int),
            bodies_only_moved(old(self), final(self)),
    {
        self.events.clear();
        self.events.append(&mut self.removal_events);

        // compute the new maximum movement for every body
        let ghost values = self.bodies.bodies.values();
        let n = self.bodies.len();
        proof {
            self.bodies.bodies.lemma_keys_distinct();
        }
        let mut i: usize = 0;
        while i < n
            invariant
                0 <= i <= n,
                n == values.len(),
                values == old(self).bodies.bodies.values(),
                attached(&self.bodies, &self.colliders),
                self.colliders == old(self).colliders,
                self.collision_graph == old(self).collision_graph,
                self.events@ == old(self).removal_events@,
                self.removal_events@.len() == 0,
                self.bodies.bodies.keys() == old(self).bodies.bodies.keys(),
                self.bodies.bodies.retired() == old(self).bodies.bodies.retired(),
                self.bodies.bodies.removals() == old(self).bodies.bodies.removals(),
                self.bodies.bodies.keys().len() == n,
                self.bodies.bodies.values().len() == n,
                forall|j: int|
                    0 <= j < i ==> #[trigger] self.bodies.bodies.values()[j] == primed_body(
                        values[j],
                        dt as int,
                    ),
                forall|j: int| i <= j < n ==> #[trigger] self.bodies.bodies.values()[j]
                    == values[j],
            decreases n - i,
        {
            let ghost before = self.bodies;
            let body = self.bodies.bodies.value_at_mut(i);
            match body.status {
                BodyStatus::Kinematic => {
                    body.movement = body.velocity.times(dt);
                },
                BodyStatus::Static => {},
            }
            proof {
                lemma_attached_after_move(&before, &self.bodies, &self.colliders);
            }
            i += 1;
        }
        proof {
            assert(self.bodies.bodies.values() =~= primed(values, dt as int));
        }
        step_x(&mut self.bodies, &self.colliders);
        step_y(&mut self.bodies, &self.colliders, &mut self.collision_graph);

        describe_collisions(
            &self.bodies,
            &self.colliders,
            &mut self.collision_graph,
            &mut self.events,
        );
        proof {
            lemma_step_moves_only(old(self), self, dt as int);
            old(self).bodies.bodies.lemma_keys_distinct();
            assert forall|h: BodyHandle| old(self).bodies.contains(h) implies self.bodies.contains(
                h,
            ) && (#[trigger] self.bodies.body(h)).same_but_place(&old(self).bodies.body(h)) && (
            old(self).bodies.body(h).status == BodyStatus::Static ==> self.bodies.body(h)
                == old(self).bodies.body(h)) by {
                let at = old(self).bodies.bodies.position(h.0);
                assert(old(self).bodies.bodies.keys()[at] == h.0);
                assert(self.bodies.bodies.values()[at].same_but_place(
                    &old(self).bodies.bodies.values()[at],
                ));
            }
        }
    }
}

} // verus!
