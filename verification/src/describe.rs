//! The diff of a step: every edge of the graph is classified anew, the
//! changes become events, and the edges of colliders that no longer touch
//! leave the graph.

use vstd::prelude::*;
use super::collision::aabb::Contact;
use super::collision::collision_graph::{
    joined_in, link_in, unlinked, CollisionGraph, CollisionInfo, GraphEdge, Interaction,
};
use super::event::{ContactEvent, EventLog};
use super::object::collider::{colliding_at, manifold_between};
use super::object::collider_set::{attached, graph_matches};
use super::object::{
    collision_manifold, is_colliding, BodySet, Collider, ColliderHandle, ColliderSet,
    ColliderState,
};
use super::vector::Vec2;

verus! {

/// What a collision keeps of its best contact.
pub open spec fn info_of(contact: Contact) -> CollisionInfo {
    CollisionInfo {
        depth: contact.depth,
        normal: contact.normal,
        contact_point: contact.contact_point,
    }
}

/// How two colliders touch, with their bodies at `position1` and
/// `position2`: two solids collide, by the best contact of their manifold,
/// if they have one; any other two overlap if their boxes meet.
pub open spec fn classify<T>(
    collider1: Collider<T>,
    position1: Vec2,
    collider2: Collider<T>,
    position2: Vec2,
) -> Option<Interaction> {
    if collider1.state == ColliderState::Solid && collider2.state == ColliderState::Solid {
        match manifold_between(collider1, position1, collider2, position2) {
            Some(manifold) => Some(Interaction::Collision(info_of(manifold.spec_best_contact()))),
            None => None,
        }
    } else if colliding_at(
        collider1,
        position1.x as int,
        position1.y as int,
        collider2,
        position2.x as int,
        position2.y as int,
    ) {
        Some(Interaction::Overlap)
    } else {
        None
    }
}

/// How the two colliders of an edge touch where their bodies stand now.
pub open spec fn current<T>(bodies: &BodySet, colliders: &ColliderSet<T>, edge: GraphEdge)
    -> Option<
    Interaction,
> {
    let collider1 = colliders.collider(edge.first);
    let collider2 = colliders.collider(edge.second);
    classify(
        collider1,
        bodies.body(collider1.owner).position,
        collider2,
        bodies.body(collider2.owner).position,
    )
}

/// The event that an edge gives rise to: a start where the colliders touch
/// now and the edge was not classified, an end where they do not and it
/// was, and none otherwise.
pub open spec fn edge_events<T: Copy>(
    bodies: &BodySet,
    colliders: &ColliderSet<T>,
    edge: GraphEdge,
) -> Seq<ContactEvent<T>> {
    let start = ContactEvent::started(
        edge.first,
        colliders.collider(edge.first),
        edge.second,
        colliders.collider(edge.second),
    );
    if current(bodies, colliders, edge).is_some() && edge.interaction.is_none() {
        seq![start]
    } else if current(bodies, colliders, edge).is_none() && edge.interaction.is_some() {
        seq![start.finished()]
    } else {
        Seq::empty()
    }
}

/// The events of the edges from index `e` on, in their order.
pub open spec fn diff_events<T: Copy>(
    bodies: &BodySet,
    colliders: &ColliderSet<T>,
    edges: Seq<GraphEdge>,
    e: int,
) -> Seq<ContactEvent<T>>
    decreases edges.len() - e,
{
    if e < 0 || e >= edges.len() {
        Seq::empty()
    } else {
        edge_events(bodies, colliders, edges[e]) + diff_events(bodies, colliders, edges, e + 1)
    }
}

/// The pairs of handles of the edges from index `e` on whose colliders do
/// not touch now, in the order of the edges.
pub open spec fn lapsed<T>(
    bodies: &BodySet,
    colliders: &ColliderSet<T>,
    edges: Seq<GraphEdge>,
    e: int,
) -> Seq<(ColliderHandle, ColliderHandle)>
    decreases edges.len() - e,
{
    if e < 0 || e >= edges.len() {
        Seq::empty()
    } else if current(bodies, colliders, edges[e]).is_none() {
        seq![(edges[e].first, edges[e].second)] + lapsed(bodies, colliders, edges, e + 1)
    } else {
        lapsed(bodies, colliders, edges, e + 1)
    }
}

/// The edges, each classified anew.
pub open spec fn reclassified<T>(
    bodies: &BodySet,
    colliders: &ColliderSet<T>,
    edges: Seq<GraphEdge>,
) -> Seq<GraphEdge> {
    Seq::new(
        edges.len(),
        |i: int|
            GraphEdge {
                first: edges[i].first,
                second: edges[i].second,
                interaction: current(bodies, colliders, edges[i]),
            },
    )
}

/// `edges` after the edge of each pair from index `k` of `pairs` on was
/// taken out, one after the other.
pub open spec fn pruned(
    edges: Seq<GraphEdge>,
    pairs: Seq<(ColliderHandle, ColliderHandle)>,
    k: int,
) -> Seq<GraphEdge>
    decreases pairs.len() - k,
{
    if k < 0 || k >= pairs.len() {
        edges
    } else {
        pruned(unlinked(edges, pairs[k].0, pairs[k].1), pairs, k + 1)
    }
}

/// The edges that a step leaves: classified anew, without those whose
/// colliders have ceased to touch.
pub open spec fn surviving<T>(
    bodies: &BodySet,
    colliders: &ColliderSet<T>,
    edges: Seq<GraphEdge>,
) -> Seq<GraphEdge> {
    pruned(reclassified(bodies, colliders, edges), lapsed(bodies, colliders, edges, 0), 0)
}

/// Every edge from index `e` on whose colliders do not touch has its pair
/// among the lapsed ones.
pub proof fn lemma_lapsed_covers<T>(
    bodies: &BodySet,
    colliders: &ColliderSet<T>,
    edges: Seq<GraphEdge>,
    e: int,
)
    requires
        0 <= e <= edges.len(),
    ensures
        forall|i: int|
            e <= i < edges.len() && current(bodies, colliders, #[trigger] edges[i]).is_none()
                ==> lapsed(bodies, colliders, edges, e).contains((edges[i].first, edges[i].second)),
    decreases edges.len() - e,
{
    if e < edges.len() {
        lemma_lapsed_covers(bodies, colliders, edges, e + 1);
        let rest = lapsed(bodies, colliders, edges, e + 1);
        let all = lapsed(bodies, colliders, edges, e);
        assert forall|i: int|
            e <= i < edges.len()
                && current(bodies, colliders, #[trigger] edges[i]).is_none() implies all.contains(
            (edges[i].first, edges[i].second),
        ) by {
            let pair = (edges[i].first, edges[i].second);
            if i == e {
                assert(all[0] == pair);
            } else {
                let m = rest.index_of(pair);
                assert(rest[m] == pair);
                if current(bodies, colliders, edges[e]).is_none() {
                    assert(all[m + 1] == pair);
                } else {
                    assert(all[m] == pair);
                }
            }
        }
    }
}

/// Classifies two colliders; see [`classify`].
pub fn classify_pair<T>(
    collider1: &Collider<T>,
    position1: Vec2,
    collider2: &Collider<T>,
    position2: Vec2,
) -> (r: Option<Interaction>)
    ensures
        r == classify(*collider1, position1, *collider2, position2),
{
    if collider1.is_solid() && collider2.is_solid() {
        match collision_manifold(collider1, position1, collider2, position2) {
            Some(manifold) => Some(Interaction::Collision(CollisionInfo::from(manifold.best_contact()))),
            None => None,
        }
    } else if is_colliding(collider1, position1, collider2, position2) {
        Some(Interaction::Overlap)
    } else {
        None
    }
}

/// Brings the graph up to date with the positions of the bodies and
/// reports what changed: every edge is classified anew; an edge that was
/// not classified and is now gives a start event, one that was and is no
/// longer gives an end event; and the edges whose colliders no longer
/// touch leave the graph.
pub fn describe_collisions<T: Copy>(
    bodies: &BodySet,
    colliders: &ColliderSet<T>,
    collision_graph: &mut CollisionGraph,
    events: &mut EventLog<T>,
)
    requires
        attached(bodies, colliders),
        graph_matches(colliders, old(collision_graph)),
    ensures
        graph_matches(colliders, final(collision_graph)),
        final(collision_graph).nodes() == old(collision_graph).nodes(),
        final(events)@ == old(events)@ + diff_events(
            bodies,
            colliders,
            old(collision_graph).all_edges(),
            0,
        ),
        final(collision_graph).all_edges() == surviving(
            bodies,
            colliders,
            old(collision_graph).all_edges(),
        ),
        forall|e: int|
            0 <= e < final(collision_graph).all_edges().len() ==> (
            #[trigger] final(collision_graph).all_edges()[e]).interaction.is_some(),
{
    let ghost edges0 = collision_graph.all_edges();
    let ghost events0 = events@;
    let mut removed_edges: Vec<(ColliderHandle, ColliderHandle)> = Vec::new();
    let n = collision_graph.edge_count();

    // collision event and contact information
    let mut e: usize = 0;
    while e < n
        invariant
            0 <= e <= n,
            n == edges0.len(),
            attached(bodies, colliders),
            graph_matches(colliders, collision_graph),
            collision_graph.nodes() == old(collision_graph).nodes(),
            collision_graph.all_edges().len() == n,
            forall|i: int|
                0 <= i < e ==> #[trigger] collision_graph.all_edges()[i] == reclassified(
                    bodies,
                    colliders,
                    edges0,
                )[i],
            forall|i: int| e <= i < n ==> #[trigger] collision_graph.all_edges()[i] == edges0[i],
            events@ + diff_events(bodies, colliders, edges0, e as int) == events0 + diff_events(
                bodies,
                colliders,
                edges0,
                0,
            ),
            removed_edges@ + lapsed(bodies, colliders, edges0, e as int) == lapsed(
                bodies,
                colliders,
                edges0,
                0,
            ),
        decreases n - e,
    {
        let ghost graph_before = *collision_graph;
        let ghost events_before = events@;
        let ghost removed_before = removed_edges@;
        let edge = collision_graph.edge(e);
        proof {
            collision_graph.lemma_wf();
            assert(collision_graph.has_node(collision_graph.all_edges()[e as int].first));
            assert(collision_graph.has_node(collision_graph.all_edges()[e as int].second));
            assert(colliders.contains(edge.first));
            assert(colliders.contains(edge.second));
            colliders.colliders.lemma_keys_distinct();
            let spot1 = colliders.colliders.position(edge.first.0);
            assert(colliders.colliders.keys()[spot1] == edge.first.0);
            assert(bodies.contains(colliders.colliders.values()[spot1].owner));
            let spot2 = colliders.colliders.position(edge.second.0);
            assert(colliders.colliders.keys()[spot2] == edge.second.0);
            assert(bodies.contains(colliders.colliders.values()[spot2].owner));
        }
        match (colliders.get(edge.first), colliders.get(edge.second)) {
            (Some(collider1), Some(collider2)) => {
                match (bodies.get(collider1.owner), bodies.get(collider2.owner)) {
                    (Some(body1), Some(body2)) => {
                        let current_interaction = classify_pair(
                            collider1,
                            body1.position,
                            collider2,
                            body2.position,
                        );
                        if current_interaction.is_some() && edge.interaction.is_none() {
                            events.push(
                                ContactEvent::new(edge.first, collider1, edge.second, collider2),
                            );
                        }
                        if current_interaction.is_none() {
                            removed_edges.push((edge.first, edge.second));
                            if edge.interaction.is_some() {
                                events.push(
                                    ContactEvent::new(
                                        edge.first,
                                        collider1,
                                        edge.second,
                                        collider2,
                                    ).into_finished(),
                                );
                            }
                        }
                        collision_graph.set_interaction(e, current_interaction);
                    },
                    _ => {},
                }
            },
            _ => {},
        }
        proof {
            assert forall|h: ColliderHandle| #[trigger]
                collision_graph.has_node(h) <==> colliders.contains(h) by {
                assert(graph_before.has_node(h) <==> colliders.contains(h));
            }
            let step = edge_events(bodies, colliders, edges0[e as int]);
            let rest = diff_events(bodies, colliders, edges0, e + 1);
            assert(events@ =~= events_before + step);
            assert((events_before + step) + rest =~= events_before + (step + rest));
            let gone = lapsed(bodies, colliders, edges0, e + 1);
            if current(bodies, colliders, edges0[e as int]).is_none() {
                let pair = seq![(edges0[e as int].first, edges0[e as int].second)];
                assert(removed_edges@ =~= removed_before + pair);
                assert((removed_before + pair) + gone =~= removed_before + (pair + gone));
            }
        }
        e += 1;
    }
    proof {
        assert(collision_graph.all_edges() =~= reclassified(bodies, colliders, edges0));
        assert(removed_edges@ =~= lapsed(bodies, colliders, edges0, 0));
        lemma_lapsed_covers(bodies, colliders, edges0, 0);
        assert forall|i: int|
            0 <= i < collision_graph.all_edges().len() && (
            #[trigger] collision_graph.all_edges()[i]).interaction.is_none() implies exists|m: int|
            0 <= m < removed_edges@.len() && collision_graph.all_edges()[i].joins(
                (#[trigger] removed_edges@[m]).0,
                removed_edges@[m].1,
            ) by {
            let pair = (edges0[i].first, edges0[i].second);
            assert(current(bodies, colliders, edges0[i]).is_none());
            assert(removed_edges@.contains(pair));
            let m = removed_edges@.index_of(pair);
            assert(removed_edges@[m] == pair);
        }
    }

    let mut k: usize = 0;
    while k < removed_edges.len()
        invariant
            0 <= k <= removed_edges@.len(),
            graph_matches(colliders, collision_graph),
            collision_graph.nodes() == old(collision_graph).nodes(),
            pruned(collision_graph.all_edges(), removed_edges@, k as int) == pruned(
                reclassified(bodies, colliders, edges0),
                removed_edges@,
                0,
            ),
            forall|i: int|
                0 <= i < collision_graph.all_edges().len() && (
                #[trigger] collision_graph.all_edges()[i]).interaction.is_none() ==> exists|m: int|
                    k <= m < removed_edges@.len() && collision_graph.all_edges()[i].joins(
                        (#[trigger] removed_edges@[m]).0,
                        removed_edges@[m].1,
                    ),
        decreases removed_edges@.len() - k,
    {
        let ghost graph_before = *collision_graph;
        let pair = removed_edges[k];
        let _ = collision_graph.remove_edge_between(pair.0, pair.1);
        proof {
            graph_before.lemma_wf();
            assert forall|h: ColliderHandle| #[trigger]
                collision_graph.has_node(h) <==> colliders.contains(h) by {
                assert(graph_before.has_node(h) <==> colliders.contains(h));
            }
            let before = graph_before.all_edges();
            let after = collision_graph.all_edges();
            assert forall|i: int|
                0 <= i < after.len() && (#[trigger] after[i]).interaction.is_none() implies exists|
                m: int,
            |
                k + 1 <= m < removed_edges@.len() && after[i].joins(
                    (#[trigger] removed_edges@[m]).0,
                    removed_edges@[m].1,
                ) by {
                if joined_in(before, pair.0, pair.1) {
                    let link = link_in(before, pair.0, pair.1);
                    let last = before.len() - 1;
                    let o = if i == link { last } else { i };
                    assert(after[i] == before[o]);
                    assert(before[o].interaction.is_none());
                    let m = choose|m: int|
                        k <= m < removed_edges@.len() && before[o].joins(
                            (#[trigger] removed_edges@[m]).0,
                            removed_edges@[m].1,
                        );
                    if m == k {
                        assert(before[link].joins(before[o].first, before[o].second));
                        assert(link == o);
                    }
                    assert(k + 1 <= m < removed_edges@.len() && after[i].joins(
                        removed_edges@[m].0,
                        removed_edges@[m].1,
                    ));
                } else {
                    assert(after[i] == before[i]);
                    let m = choose|m: int|
                        k <= m < removed_edges@.len() && before[i].joins(
                            (#[trigger] removed_edges@[m]).0,
                            removed_edges@[m].1,
                        );
                    assert(m != k);
                    assert(k + 1 <= m < removed_edges@.len() && after[i].joins(
                        removed_edges@[m].0,
                        removed_edges@[m].1,
                    ));
                }
            }
        }
        k += 1;
    }
}

} // verus!
