//! What holds of the engine as a whole, proved from the contracts of its
//! functions: resolved movements do not penetrate, the two filters are
//! obeyed, events pair up with contacts, and a removed body leaves nothing
//! behind.

use vstd::prelude::*;
use super::collision::collision_graph::{
    joined_in, link_in, linked, neighbors_listed, unlinked, GraphEdge,
};
use super::describe::{
    classify, current, diff_events, edge_events, lapsed, lemma_lapsed_covers, pruned,
    reclassified, surviving,
};
use super::event::ContactEvent;
use super::object::BodySet;
use super::object::collider::{colliding_at, penetrating_at};
use super::vector::Vec2;
use super::object::{
    Body, BodyHandle, BodyStatus, Collider, ColliderHandle, ColliderSet, ColliderState,
};
use super::object::collider_set::owns_its_list;
use super::resolve::{
    body_at, categories_match, displaced, may_collide, moved_x, moved_y, pass_x, pass_y,
    pair_touches, pair_x, pair_y, resolved, scan_links, scan_x, scan_y, sweep_links, sweep_x,
    sweep_y, would_penetrate,
};
use super::vector::{saturated, TOLERANCE};
use super::world::{
    body_added, body_removed, collider_added, collider_removed, notices, primed, primed_body,
    stepped, world_stepped, PhysicsWorld,
};

verus! {

/// Whether a call of one of the functions that change a world leads from
/// `before` to `after`.
pub open spec fn follows<T: Copy>(before: &PhysicsWorld<T>, after: &PhysicsWorld<T>) -> bool {
    ||| exists|body: Body, handle: BodyHandle| #[trigger] body_added(before, after, body, handle)
    ||| exists|collider: Collider<T>, r: Option<ColliderHandle>| #[trigger]
        collider_added(before, after, collider, r)
    ||| exists|handle: ColliderHandle, done: bool| #[trigger]
        collider_removed(before, after, handle, done)
    ||| exists|handle: BodyHandle, done: bool| #[trigger] body_removed(before, after, handle, done)
    ||| exists|dt: int| #[trigger] world_stepped(before, after, dt)
}

/// A handle is never used again: through any sequence of insertions,
/// removals and steps, a handle that was removed once names nothing ever
/// after, though its slot be taken again.
pub proof fn lemma_handles_are_never_used_again<T: Copy>(
    states: Seq<PhysicsWorld<T>>,
    earlier: int,
    later: int,
)
    requires
        forall|i: int| 0 <= i < states.len() ==> (#[trigger] states[i]).wf(),
        forall|i: int| 0 <= i < states.len() - 1 ==> follows(&states[i], #[trigger] &states[i + 1]),
        0 <= earlier <= later < states.len(),
    ensures
        forall|h: BodyHandle| #[trigger]
            states[earlier].bodies.bodies.retired().contains(h.0)
                ==> !states[later].bodies.contains(
                h,
            ),
        forall|h: ColliderHandle| #[trigger]
            states[earlier].colliders.colliders.retired().contains(h.0)
                ==> !states[later].colliders.contains(h),
        states[earlier].bodies.bodies.retired().subset_of(states[later].bodies.bodies.retired()),
        states[earlier].colliders.colliders.retired().subset_of(
            states[later].colliders.colliders.retired(),
        ),
    decreases later - earlier,
{
    states[later].bodies.bodies.lemma_retired_keys_are_dead();
    states[later].colliders.colliders.lemma_retired_keys_are_dead();
    if earlier < later {
        lemma_handles_are_never_used_again(states, earlier, later - 1);
        assert(follows(&states[later - 1], &states[(later - 1) + 1]));
    }
    assert forall|h: BodyHandle| #[trigger]
        states[earlier].bodies.bodies.retired().contains(h.0)
            implies !states[later].bodies.contains(
        h,
    ) by {
        assert(states[later].bodies.bodies.retired().contains(h.0));
    }
    assert forall|h: ColliderHandle| #[trigger]
        states[earlier].colliders.colliders.retired().contains(
            h.0,
        ) implies !states[later].colliders.contains(h) by {
        assert(states[later].colliders.colliders.retired().contains(h.0));
    }
}

/// A movement that was resolved against a collider does not penetrate it:
/// the moving box, shrunk by the tolerance, does not meet the other box
/// where the movement ends, however long the movement was.
pub proof fn lemma_resolved_move_does_not_penetrate<T>(
    body1: &Body,
    collider1: &Collider<T>,
    collider2: &Collider<T>,
    body2: &Body,
    horizontal: bool,
    movement: int,
)
    ensures
        !would_penetrate(
            body1,
            collider1,
            collider2,
            body2,
            horizontal,
            resolved(body1, collider1, collider2, body2, horizontal, movement),
        ),
{
}

/// A body that made a resolved movement does not penetrate the collider
/// against which the movement was resolved, as long as the place where the
/// movement ends is within the range of the coordinates.
pub proof fn lemma_moved_body_does_not_penetrate<T>(
    body1: Body,
    collider1: &Collider<T>,
    collider2: &Collider<T>,
    body2: &Body,
    horizontal: bool,
    movement: int,
)
    requires
        ({
            let place = if horizontal {
                body1.position.x
            } else {
                body1.position.y
            };
            let end = place + resolved(&body1, collider1, collider2, body2, horizontal, movement);
            saturated(end) == end
        }),
    ensures
        ({
            let after = displaced(
                body1,
                horizontal,
                resolved(&body1, collider1, collider2, body2, horizontal, movement),
            );
            !penetrating_at(
                *collider1,
                after.position.x as int,
                after.position.y as int,
                *collider2,
                body2.position.x as int,
                body2.position.y as int,
                TOLERANCE as int,
            )
        }),
{
    lemma_resolved_move_does_not_penetrate(
        &body1,
        collider1,
        collider2,
        body2,
        horizontal,
        movement,
    );
}

/// The category filter does not depend on the order of the two colliders.
pub proof fn lemma_category_filter_symmetric<T>(collider1: &Collider<T>, collider2: &Collider<T>)
    ensures
        categories_match(collider1, collider2) == categories_match(collider2, collider1),
{
}

/// The category filter is mandatory: where the category of one of two
/// colliders is not in the mask of the other, a step resolves neither
/// against the other and links neither to the other, whichever of them
/// belongs to the body that moves.
pub proof fn lemma_category_filter_mandatory<T>(
    keys: Seq<(usize, u64)>,
    bodies: Seq<Body>,
    colliders: &ColliderSet<T>,
    body1: &Body,
    h1: ColliderHandle,
    j: int,
    movement: int,
)
    requires
        !categories_match(&colliders.collider(h1), &colliders.colliders.values()[j]),
    ensures
        !may_collide(body1, &colliders.collider(h1), &colliders.colliders.values()[j]),
        !may_collide(body1, &colliders.colliders.values()[j], &colliders.collider(h1)),
        pair_x(keys, bodies, colliders, body1, h1, j, movement) == movement,
        pair_y(keys, bodies, colliders, body1, h1, j, movement) == movement,
        !pair_touches(keys, bodies, colliders, body1, h1, j),
{
}

/// Two colliders of one body that has its colliders not collide with each
/// other are not resolved against each other and are not linked; if the
/// body allows it, they may collide as two colliders of different bodies do.
pub proof fn lemma_self_collision_opt_out<T>(
    keys: Seq<(usize, u64)>,
    bodies: Seq<Body>,
    colliders: &ColliderSet<T>,
    body1: &Body,
    h1: ColliderHandle,
    j: int,
    movement: int,
)
    requires
        colliders.collider(h1).owner == colliders.colliders.values()[j].owner,
    ensures
        !body1.self_collide ==> pair_x(keys, bodies, colliders, body1, h1, j, movement) == movement
            && pair_y(keys, bodies, colliders, body1, h1, j, movement) == movement && !pair_touches(
            keys,
            bodies,
            colliders,
            body1,
            h1,
            j,
        ),
        body1.self_collide ==> may_collide(
            body1,
            &colliders.collider(h1),
            &colliders.colliders.values()[j],
        ) == categories_match(&colliders.collider(h1), &colliders.colliders.values()[j]),
{
}

/// Inserting a body, inserting any number of colliders onto it, and then
/// removing the body leaves as many colliders, and as many nodes in the
/// graph, as there were before. `states` holds the world before the first
/// call and after each call.
pub proof fn lemma_round_trip_restores_counts<T: Copy>(
    states: Seq<PhysicsWorld<T>>,
    body: Body,
    handle: BodyHandle,
    added: Seq<Collider<T>>,
    handles: Seq<ColliderHandle>,
)
    requires
        states.len() == added.len() + 3,
        handles.len() == added.len(),
        states[0].wf(),
        states[1].wf(),
        body_added(&states[0], &states[1], body, handle),
        forall|i: int|
            0 <= i < added.len() ==> (#[trigger] added[i]).owner == handle && states[i + 2].wf()
                && collider_added(&states[i + 1], &states[i + 2], added[i], Some(handles[i])),
        body_removed(
            &states[added.len() as int + 1],
            &states[added.len() as int + 2],
            handle,
            true,
        ),
    ensures
        states.last().colliders.colliders.keys().len()
            == states[0].colliders.colliders.keys().len(),
        states.last().collision_graph.nodes().len() == states[0].collision_graph.nodes().len(),
{
    let n = added.len() as int;
    lemma_colliders_pile_up(states, body, handle, added, handles, n);
}

/// After `i` colliders were inserted onto a new body, the body has `i`
/// colliders and the world has `i` colliders and `i` nodes more.
proof fn lemma_colliders_pile_up<T: Copy>(
    states: Seq<PhysicsWorld<T>>,
    body: Body,
    handle: BodyHandle,
    added: Seq<Collider<T>>,
    handles: Seq<ColliderHandle>,
    i: int,
)
    requires
        0 <= i <= added.len(),
        states.len() == added.len() + 3,
        handles.len() == added.len(),
        states[0].wf(),
        states[1].wf(),
        body_added(&states[0], &states[1], body, handle),
        forall|i: int|
            0 <= i < added.len() ==> (#[trigger] added[i]).owner == handle && states[i + 2].wf()
                && collider_added(&states[i + 1], &states[i + 2], added[i], Some(handles[i])),
    ensures
        states[i + 1].wf(),
        states[i + 1].bodies.contains(handle),
        states[i + 1].bodies.body(handle).colliders@.len() == i,
        states[i + 1].colliders.colliders.keys().len() == states[0].colliders.colliders.keys().len()
            + i,
        states[i + 1].collision_graph.nodes().len() == states[0].collision_graph.nodes().len() + i,
    decreases i,
{
    if i > 0 {
        lemma_colliders_pile_up(states, body, handle, added, handles, i - 1);
        let before = states[i];
        let after = states[i + 1];
        assert(added[i - 1].owner == handle && collider_added(
            &states[(i - 1) + 1],
            &states[(i - 1) + 2],
            added[i - 1],
            Some(handles[i - 1]),
        ));
        before.bodies.bodies.lemma_keys_distinct();
        after.bodies.bodies.lemma_keys_distinct();
        let owner = before.bodies.bodies.position(handle.0);
        assert(before.bodies.bodies.keys()[owner] == handle.0);
        assert(after.bodies.bodies.keys()[owner] == handle.0);
    }
}

/// An edge as a step makes it: not yet classified, between two live
/// colliders, not the same, that may collide. The body that owns the first
/// collider is looked up among `bodies`, which stand in the order of `keys`.
pub open spec fn fresh_link<T>(
    keys: Seq<(usize, u64)>,
    bodies: Seq<Body>,
    colliders: &ColliderSet<T>,
    edge: GraphEdge,
) -> bool {
    &&& edge.interaction.is_none()
    &&& edge.first != edge.second
    &&& colliders.contains(edge.first)
    &&& colliders.contains(edge.second)
    &&& may_collide(
        &body_at(keys, bodies, colliders.collider(edge.first).owner),
        &colliders.collider(edge.first),
        &colliders.collider(edge.second),
    )
}

/// `after` holds the edges of `before`, at their indices, and after them
/// only fresh links, each between two colliders that no earlier edge joins.
pub open spec fn grown<T>(
    keys: Seq<(usize, u64)>,
    bodies: Seq<Body>,
    colliders: &ColliderSet<T>,
    before: Seq<GraphEdge>,
    after: Seq<GraphEdge>,
) -> bool {
    &&& before.len() <= after.len()
    &&& forall|i: int| 0 <= i < before.len() ==> #[trigger] after[i] == before[i]
    &&& forall|i: int|
        before.len() <= i < after.len() ==> fresh_link(keys, bodies, colliders, #[trigger] after[i])
            && !joined_in(after.take(i), after[i].first, after[i].second)
}

proof fn lemma_grown_chain<T>(
    keys: Seq<(usize, u64)>,
    bodies: Seq<Body>,
    colliders: &ColliderSet<T>,
    a: Seq<GraphEdge>,
    b: Seq<GraphEdge>,
    c: Seq<GraphEdge>,
)
    requires
        grown(keys, bodies, colliders, a, b),
        grown(keys, bodies, colliders, b, c),
    ensures
        grown(keys, bodies, colliders, a, c),
{
    assert forall|i: int| a.len() <= i < c.len() implies fresh_link(
        keys,
        bodies,
        colliders,
        #[trigger] c[i],
    ) && !joined_in(c.take(i), c[i].first, c[i].second) by {
        if i < b.len() {
            assert(c[i] == b[i]);
            assert(c.take(i) =~= b.take(i));
        }
    }
}

proof fn lemma_scan_links_grow<T>(
    keys: Seq<(usize, u64)>,
    bodies: Seq<Body>,
    colliders: &ColliderSet<T>,
    body1: &Body,
    h1: ColliderHandle,
    j: int,
    edges: Seq<GraphEdge>,
    flags: Seq<Body>,
)
    requires
        colliders.wf(),
        colliders.contains(h1),
        0 <= j,
        body1.self_collide == body_at(keys, flags, colliders.collider(h1).owner).self_collide,
    ensures
        grown(
            keys,
            flags,
            colliders,
            edges,
            scan_links(keys, bodies, colliders, body1, h1, j, edges),
        ),
    decreases colliders.colliders.keys().len() - j,
{
    if j < colliders.colliders.keys().len() {
        colliders.colliders.lemma_keys_distinct();
        let h2 = ColliderHandle(colliders.colliders.keys()[j]);
        let next = if pair_touches(keys, bodies, colliders, body1, h1, j) {
            linked(edges, h1, h2)
        } else {
            edges
        };
        assert(grown(keys, flags, colliders, edges, next)) by {
            if next != edges {
                assert(next.take(edges.len() as int) =~= edges);
                assert(colliders.colliders.keys().contains(h2.0));
                assert(colliders.collider(h2) == colliders.colliders.values()[j]);
            }
        }
        lemma_scan_links_grow(keys, bodies, colliders, body1, h1, j + 1, next, flags);
        lemma_grown_chain(
            keys,
            flags,
            colliders,
            edges,
            next,
            scan_links(keys, bodies, colliders, body1, h1, j, edges),
        );
    }
}

proof fn lemma_sweep_links_grow<T>(
    keys: Seq<(usize, u64)>,
    bodies: Seq<Body>,
    colliders: &ColliderSet<T>,
    body1: &Body,
    k: int,
    edges: Seq<GraphEdge>,
    flags: Seq<Body>,
)
    requires
        colliders.wf(),
        0 <= k,
        forall|m: int|
            k <= m < body1.colliders@.len() ==> colliders.contains(#[trigger] body1.colliders@[m])
                && body1.self_collide == body_at(
                keys,
                flags,
                colliders.collider(body1.colliders@[m]).owner,
            ).self_collide,
    ensures
        grown(
            keys,
            flags,
            colliders,
            edges,
            sweep_links(keys, bodies, colliders, body1, k, edges),
        ),
    decreases body1.colliders@.len() - k,
{
    if k < body1.colliders@.len() {
        let h1 = body1.colliders@[k];
        let next = scan_links(keys, bodies, colliders, body1, h1, 0, edges);
        lemma_scan_links_grow(keys, bodies, colliders, body1, h1, 0, edges, flags);
        lemma_sweep_links_grow(keys, bodies, colliders, body1, k + 1, next, flags);
        lemma_grown_chain(
            keys,
            flags,
            colliders,
            edges,
            next,
            sweep_links(keys, bodies, colliders, body1, k, edges),
        );
    }
}

/// Whether `bodies` agree with `flags`, one by one, in all but position
/// and movement, and the list of each names live colliders that it owns.
pub open spec fn lists_as_in<T>(
    keys: Seq<(usize, u64)>,
    bodies: Seq<Body>,
    colliders: &ColliderSet<T>,
    flags: Seq<Body>,
) -> bool {
    &&& keys.no_duplicates()
    &&& bodies.len() == keys.len()
    &&& flags.len() == keys.len()
    &&& forall|b: int| 0 <= b < bodies.len() ==> (#[trigger] bodies[b]).same_but_place(&flags[b])
    &&& forall|b: int|
        0 <= b < bodies.len() && flags[b].status == BodyStatus::Static ==> #[trigger] bodies[b]
            == flags[b]
    &&& forall|b: int|
        0 <= b < flags.len() ==> owns_its_list(
            BodyHandle(keys[b]),
            (#[trigger] flags[b]).colliders@,
            colliders,
        )
}

proof fn lemma_pass_y_grows<T>(
    keys: Seq<(usize, u64)>,
    bodies: Seq<Body>,
    colliders: &ColliderSet<T>,
    edges: Seq<GraphEdge>,
    i: int,
    flags: Seq<Body>,
)
    requires
        colliders.wf(),
        0 <= i,
        lists_as_in(keys, bodies, colliders, flags),
    ensures
        grown(keys, flags, colliders, edges, pass_y(keys, bodies, colliders, edges, i).1),
        lists_as_in(keys, pass_y(keys, bodies, colliders, edges, i).0, colliders, flags),
    decreases bodies.len() - i,
{
    if i < bodies.len() {
        if bodies[i].status == BodyStatus::Static {
            lemma_pass_y_grows(keys, bodies, colliders, edges, i + 1, flags);
        } else {
            let next = bodies.update(i, moved_y(keys, bodies, colliders, i));
            assert forall|b: int| 0 <= b < next.len() implies (#[trigger] next[b]).same_but_place(
                &flags[b],
            ) by {
                assert(bodies[b].same_but_place(&flags[b]));
            }
            let body1 = next[i];
            assert(body1.same_but_place(&flags[i]));
            assert(owns_its_list(BodyHandle(keys[i]), flags[i].colliders@, colliders));
            assert forall|m: int| 0 <= m < body1.colliders@.len() implies colliders.contains(
                #[trigger] body1.colliders@[m],
            ) && body1.self_collide == body_at(
                keys,
                flags,
                colliders.collider(body1.colliders@[m]).owner,
            ).self_collide by {
                assert(colliders.contains(flags[i].colliders@[m]));
                assert(keys.index_of(keys[i]) == i) by {
                    assert(keys.contains(keys[i]));
                }
            }
            let links = sweep_links(keys, next, colliders, &body1, 0, edges);
            lemma_sweep_links_grow(keys, next, colliders, &body1, 0, edges, flags);
            lemma_pass_y_grows(keys, next, colliders, links, i + 1, flags);
            lemma_grown_chain(
                keys,
                flags,
                colliders,
                edges,
                links,
                pass_y(keys, bodies, colliders, edges, i).1,
            );
        }
    }
}

proof fn lemma_pass_x_keeps_lists<T>(
    keys: Seq<(usize, u64)>,
    bodies: Seq<Body>,
    colliders: &ColliderSet<T>,
    i: int,
    flags: Seq<Body>,
)
    requires
        0 <= i,
        lists_as_in(keys, bodies, colliders, flags),
    ensures
        lists_as_in(keys, pass_x(keys, bodies, colliders, i), colliders, flags),
    decreases bodies.len() - i,
{
    if i < bodies.len() {
        let next = bodies.update(i, moved_x(keys, bodies, colliders, i));
        assert forall|b: int| 0 <= b < next.len() implies (#[trigger] next[b]).same_but_place(
            &flags[b],
        ) by {
            assert(bodies[b].same_but_place(&flags[b]));
        }
        lemma_pass_x_keeps_lists(keys, next, colliders, i + 1, flags);
    }
}

/// A step adds edges only at the end of the graph, each not yet classified
/// and between two colliders that no edge joined and that may collide: the
/// category of each is in the mask of the other, and they do not belong to
/// one body that keeps its colliders apart.
pub proof fn lemma_step_links_only_what_may_collide<T: Copy>(world: &PhysicsWorld<T>, dt: int)
    requires
        world.wf(),
    ensures
        grown(
            world.bodies.bodies.keys(),
            world.bodies.bodies.values(),
            &world.colliders,
            world.collision_graph.all_edges(),
            stepped(
                world.bodies.bodies.keys(),
                world.bodies.bodies.values(),
                &world.colliders,
                world.collision_graph.all_edges(),
                dt,
            ).1,
        ),
{
    let keys = world.bodies.bodies.keys();
    let values = world.bodies.bodies.values();
    world.bodies.bodies.lemma_keys_distinct();
    assert(keys.no_duplicates());
    let ready = primed(values, dt);
    assert(lists_as_in(keys, ready, &world.colliders, values));
    lemma_pass_x_keeps_lists(keys, ready, &world.colliders, 0, values);
    lemma_pass_y_grows(
        keys,
        pass_x(keys, ready, &world.colliders, 0),
        &world.colliders,
        world.collision_graph.all_edges(),
        0,
        values,
    );
}

/// No two edges join the same pair of handles.
pub open spec fn pairs_unique(edges: Seq<GraphEdge>) -> bool {
    forall|i: int, j: int|
        0 <= i < edges.len() && 0 <= j < edges.len() && (#[trigger] edges[i]).joins(
            (#[trigger] edges[j]).first,
            edges[j].second,
        ) ==> i == j
}

proof fn lemma_grown_unique<T>(
    keys: Seq<(usize, u64)>,
    bodies: Seq<Body>,
    colliders: &ColliderSet<T>,
    before: Seq<GraphEdge>,
    after: Seq<GraphEdge>,
)
    requires
        grown(keys, bodies, colliders, before, after),
        pairs_unique(before),
    ensures
        pairs_unique(after),
{
    assert forall|i: int, j: int|
        0 <= i < after.len() && 0 <= j < after.len() && (#[trigger] after[i]).joins(
            (#[trigger] after[j]).first,
            after[j].second,
        ) implies i == j by {
        if i < j {
            if j < before.len() {
                assert(before[i].joins(before[j].first, before[j].second));
            } else {
                assert(after.take(j)[i].joins(after[j].first, after[j].second));
            }
        } else if j < i {
            if i < before.len() {
                assert(before[i].joins(before[j].first, before[j].second));
            } else {
                assert(after.take(i)[j].joins(after[i].first, after[i].second));
            }
        }
    }
}

proof fn lemma_lapsed_sound<T>(
    bodies: &BodySet,
    colliders: &ColliderSet<T>,
    edges: Seq<GraphEdge>,
    e: int,
    m: int,
)
    requires
        0 <= e <= edges.len(),
        0 <= m < lapsed(bodies, colliders, edges, e).len(),
    ensures
        exists|i: int|
            e <= i < edges.len() && current(bodies, colliders, #[trigger] edges[i]).is_none()
                && lapsed(bodies, colliders, edges, e)[m] == (edges[i].first, edges[i].second),
    decreases edges.len() - e,
{
    if e < edges.len() {
        if current(bodies, colliders, edges[e]).is_none() {
            if m == 0 {
                assert(lapsed(bodies, colliders, edges, e)[m] == (edges[e].first, edges[e].second));
            } else {
                lemma_lapsed_sound(bodies, colliders, edges, e + 1, m - 1);
                let i = choose|i: int|
                    e + 1 <= i < edges.len()
                        && current(bodies, colliders, #[trigger] edges[i]).is_none()
                        && lapsed(bodies, colliders, edges, e + 1)[m - 1] == (
                        edges[i].first,
                        edges[i].second,
                    );
                assert(e <= i < edges.len() && current(bodies, colliders, edges[i]).is_none()
                    && lapsed(bodies, colliders, edges, e)[m] == (edges[i].first, edges[i].second));
            }
        } else {
            lemma_lapsed_sound(bodies, colliders, edges, e + 1, m);
            let i = choose|i: int|
                e + 1 <= i < edges.len()
                    && current(bodies, colliders, #[trigger] edges[i]).is_none()
                    && lapsed(bodies, colliders, edges, e + 1)[m]
                        == (edges[i].first, edges[i].second);
            assert(e <= i < edges.len() && current(bodies, colliders, edges[i]).is_none() && lapsed(
                bodies,
                colliders,
                edges,
                e,
            )[m] == (edges[i].first, edges[i].second));
        }
    }
}

/// Whether every unclassified edge joins one of `pairs` from index `k` on,
/// and every edge that joins one of those is unclassified.
spec fn marks_the_unclassified(
    edges: Seq<GraphEdge>,
    pairs: Seq<(ColliderHandle, ColliderHandle)>,
    k: int,
) -> bool {
    &&& forall|x: int|
        0 <= x < edges.len() && (#[trigger] edges[x]).interaction.is_none() ==> exists|m: int|
            k <= m < pairs.len() && edges[x].joins((#[trigger] pairs[m]).0, pairs[m].1)
    &&& forall|x: int, m: int|
        0 <= x < edges.len() && k <= m < pairs.len() && (#[trigger] edges[x]).joins(
            (#[trigger] pairs[m]).0,
            pairs[m].1,
        ) ==> edges[x].interaction.is_none()
}

proof fn lemma_pruned_keeps_classified(
    edges: Seq<GraphEdge>,
    pairs: Seq<(ColliderHandle, ColliderHandle)>,
    k: int,
)
    requires
        0 <= k <= pairs.len(),
        pairs_unique(edges),
        marks_the_unclassified(edges, pairs, k),
    ensures
        forall|y: int|
            0 <= y < pruned(edges, pairs, k).len() ==> (#[trigger] pruned(
                edges,
                pairs,
                k,
            )[y]).interaction.is_some() && edges.contains(pruned(edges, pairs, k)[y]),
        forall|x: int|
            0 <= x < edges.len() && (#[trigger] edges[x]).interaction.is_some() ==> pruned(
                edges,
                pairs,
                k,
            ).contains(edges[x]),
    decreases pairs.len() - k,
{
    if k < pairs.len() {
        let next = unlinked(edges, pairs[k].0, pairs[k].1);
        let out = pruned(edges, pairs, k);
        assert(out == pruned(next, pairs, k + 1));
        if joined_in(edges, pairs[k].0, pairs[k].1) {
            let link = link_in(edges, pairs[k].0, pairs[k].1);
            let last = edges.len() - 1;
            assert(edges[link].joins(pairs[k].0, pairs[k].1));
            assert(edges[link].interaction.is_none());
            // each edge that is left was at `origin` before
            let origin = |x: int| if x == link { last } else { x };
            assert forall|x: int| 0 <= x < next.len() implies #[trigger] next[x]
                == edges[origin(x)] by {}
            assert(pairs_unique(next)) by {
                assert forall|i: int, j: int|
                    0 <= i < next.len() && 0 <= j < next.len() && (#[trigger] next[i]).joins(
                        (#[trigger] next[j]).first,
                        next[j].second,
                    ) implies i == j by {
                    assert(edges[origin(i)].joins(edges[origin(j)].first, edges[origin(j)].second));
                }
            }
            assert(marks_the_unclassified(next, pairs, k + 1)) by {
                assert forall|x: int|
                    0 <= x < next.len() && (#[trigger] next[x]).interaction.is_none()
                        implies exists|
                    m: int,
                |
                    k + 1 <= m < pairs.len()
                        && next[x].joins((#[trigger] pairs[m]).0, pairs[m].1) by {
                    let o = origin(x);
                    assert(edges[o].interaction.is_none());
                    let m = choose|m: int|
                        k <= m < pairs.len() && edges[o].joins((#[trigger] pairs[m]).0, pairs[m].1);
                    if m == k {
                        assert(edges[link].joins(edges[o].first, edges[o].second));
                    }
                    assert(k + 1 <= m < pairs.len() && next[x].joins(pairs[m].0, pairs[m].1));
                }
                assert forall|x: int, m: int|
                    0 <= x < next.len() && k + 1 <= m < pairs.len() && (#[trigger] next[x]).joins(
                        (#[trigger] pairs[m]).0,
                        pairs[m].1,
                    ) implies next[x].interaction.is_none() by {
                    assert(edges[origin(x)].joins(pairs[m].0, pairs[m].1));
                }
            }
            lemma_pruned_keeps_classified(next, pairs, k + 1);
            assert forall|y: int| 0 <= y < out.len()
                implies (#[trigger] out[y]).interaction.is_some()
                && edges.contains(out[y]) by {
                assert(next.contains(out[y]));
                let x = next.index_of(out[y]);
                assert(next[x] == edges[origin(x)]);
            }
            assert forall|x: int|
                0 <= x < edges.len() && (#[trigger] edges[x]).interaction.is_some()
                    implies out.contains(
                edges[x],
            ) by {
                assert(x != link);
                if x == last {
                    assert(next[link] == edges[x]);
                } else {
                    assert(next[x] == edges[x]);
                }
            }
        } else {
            assert(marks_the_unclassified(next, pairs, k + 1)) by {
                assert forall|x: int|
                    0 <= x < next.len() && (#[trigger] next[x]).interaction.is_none()
                        implies exists|
                    m: int,
                |
                    k + 1 <= m < pairs.len()
                        && next[x].joins((#[trigger] pairs[m]).0, pairs[m].1) by {
                    let m = choose|m: int|
                        k <= m < pairs.len() && edges[x].joins((#[trigger] pairs[m]).0, pairs[m].1);
                    assert(m != k);
                    assert(k + 1 <= m < pairs.len() && next[x].joins(pairs[m].0, pairs[m].1));
                }
            }
            lemma_pruned_keeps_classified(next, pairs, k + 1);
        }
    } else {
        assert forall|y: int| 0 <= y < edges.len()
            implies (#[trigger] edges[y]).interaction.is_some() by {
            if edges[y].interaction.is_none() {
                let m = choose|m: int|
                    k <= m < pairs.len() && edges[y].joins((#[trigger] pairs[m]).0, pairs[m].1);
            }
        }
    }
}

/// Of edges among which no pair is joined twice, a step keeps those whose
/// colliders touch, and no others: two colliders are joined after the step
/// exactly if an edge joined them whose colliders touch where the bodies
/// stand.
pub proof fn lemma_survivors_are_the_touching<T>(
    bodies: &BodySet,
    colliders: &ColliderSet<T>,
    edges: Seq<GraphEdge>,
    h1: ColliderHandle,
    h2: ColliderHandle,
)
    requires
        pairs_unique(edges),
    ensures
        joined_in(surviving(bodies, colliders, edges), h1, h2) <==> exists|i: int|
            0 <= i < edges.len() && (#[trigger] edges[i]).joins(h1, h2) && current(
                bodies,
                colliders,
                edges[i],
            ).is_some(),
{
    let anew = reclassified(bodies, colliders, edges);
    let gone = lapsed(bodies, colliders, edges, 0);
    let out = surviving(bodies, colliders, edges);
    assert(pairs_unique(anew)) by {
        assert forall|i: int, j: int|
            0 <= i < anew.len() && 0 <= j < anew.len() && (#[trigger] anew[i]).joins(
                (#[trigger] anew[j]).first,
                anew[j].second,
            ) implies i == j by {
            assert(edges[i].joins(edges[j].first, edges[j].second));
        }
    }
    lemma_lapsed_covers(bodies, colliders, edges, 0);
    assert(marks_the_unclassified(anew, gone, 0)) by {
        assert forall|x: int|
            0 <= x < anew.len() && (#[trigger] anew[x]).interaction.is_none() implies exists|m: int|
            0 <= m < gone.len() && anew[x].joins((#[trigger] gone[m]).0, gone[m].1) by {
            let pair = (edges[x].first, edges[x].second);
            assert(current(bodies, colliders, edges[x]).is_none());
            assert(gone.contains(pair));
            let m = gone.index_of(pair);
            assert(0 <= m < gone.len() && anew[x].joins(gone[m].0, gone[m].1));
        }
        assert forall|x: int, m: int|
            0 <= x < anew.len() && 0 <= m < gone.len() && (#[trigger] anew[x]).joins(
                (#[trigger] gone[m]).0,
                gone[m].1,
            ) implies anew[x].interaction.is_none() by {
            lemma_lapsed_sound(bodies, colliders, edges, 0, m);
            let i = choose|i: int|
                0 <= i < edges.len() && current(bodies, colliders, #[trigger] edges[i]).is_none()
                    && gone[m] == (edges[i].first, edges[i].second);
            assert(anew[x].joins(anew[i].first, anew[i].second));
        }
    }
    lemma_pruned_keeps_classified(anew, gone, 0);
    if joined_in(out, h1, h2) {
        let y = link_in(out, h1, h2);
        assert(out[y].joins(h1, h2));
        assert(anew.contains(out[y]));
        let i = anew.index_of(out[y]);
        assert(anew[i] == out[y]);
        assert(edges[i].joins(h1, h2) && current(bodies, colliders, edges[i]).is_some());
    }
    if exists|i: int|
        0 <= i < edges.len() && (#[trigger] edges[i]).joins(h1, h2) && current(
            bodies,
            colliders,
            edges[i],
        ).is_some() {
        let i = choose|i: int|
            0 <= i < edges.len() && (#[trigger] edges[i]).joins(h1, h2) && current(
                bodies,
                colliders,
                edges[i],
            ).is_some();
        assert(anew[i].interaction.is_some());
        assert(out.contains(anew[i]));
        let y = out.index_of(anew[i]);
        assert(out[y].joins(h1, h2));
    }
}

/// Of edges among which no pair is joined twice, each edge that a step
/// keeps is one of them, classified anew, and is classified.
proof fn lemma_survivors_hold_what_they_were<T>(
    bodies: &BodySet,
    colliders: &ColliderSet<T>,
    edges: Seq<GraphEdge>,
)
    requires
        pairs_unique(edges),
    ensures
        forall|y: int|
            0 <= y < surviving(bodies, colliders, edges).len() ==> (#[trigger] surviving(
                bodies,
                colliders,
                edges,
            )[y]).interaction.is_some() && reclassified(bodies, colliders, edges).contains(
                surviving(bodies, colliders, edges)[y],
            ),
{
    let anew = reclassified(bodies, colliders, edges);
    let gone = lapsed(bodies, colliders, edges, 0);
    assert(pairs_unique(anew)) by {
        assert forall|i: int, j: int|
            0 <= i < anew.len() && 0 <= j < anew.len() && (#[trigger] anew[i]).joins(
                (#[trigger] anew[j]).first,
                anew[j].second,
            ) implies i == j by {
            assert(edges[i].joins(edges[j].first, edges[j].second));
        }
    }
    lemma_lapsed_covers(bodies, colliders, edges, 0);
    assert(marks_the_unclassified(anew, gone, 0)) by {
        assert forall|x: int|
            0 <= x < anew.len() && (#[trigger] anew[x]).interaction.is_none() implies exists|m: int|
            0 <= m < gone.len() && anew[x].joins((#[trigger] gone[m]).0, gone[m].1) by {
            let pair = (edges[x].first, edges[x].second);
            assert(current(bodies, colliders, edges[x]).is_none());
            assert(gone.contains(pair));
            let m = gone.index_of(pair);
            assert(0 <= m < gone.len() && anew[x].joins(gone[m].0, gone[m].1));
        }
        assert forall|x: int, m: int|
            0 <= x < anew.len() && 0 <= m < gone.len() && (#[trigger] anew[x]).joins(
                (#[trigger] gone[m]).0,
                gone[m].1,
            ) implies anew[x].interaction.is_none() by {
            lemma_lapsed_sound(bodies, colliders, edges, 0, m);
            let i = choose|i: int|
                0 <= i < edges.len() && current(bodies, colliders, #[trigger] edges[i]).is_none()
                    && gone[m] == (edges[i].first, edges[i].second);
            assert(anew[x].joins(anew[i].first, anew[i].second));
        }
    }
    lemma_pruned_keeps_classified(anew, gone, 0);
}

proof fn lemma_diff_events_sources<T: Copy>(
    bodies: &BodySet,
    colliders: &ColliderSet<T>,
    edges: Seq<GraphEdge>,
    e: int,
    m: int,
)
    requires
        0 <= e <= edges.len(),
        0 <= m < diff_events(bodies, colliders, edges, e).len(),
    ensures
        exists|i: int|
            e <= i < edges.len() && edge_events(bodies, colliders, #[trigger] edges[i]) == seq![
                diff_events(bodies, colliders, edges, e)[m],
            ],
    decreases edges.len() - e,
{
    if e < edges.len() {
        let here = edge_events(bodies, colliders, edges[e]);
        let all = diff_events(bodies, colliders, edges, e);
        if m < here.len() {
            assert(here =~= seq![all[m]]);
        } else {
            lemma_diff_events_sources(bodies, colliders, edges, e + 1, m - here.len());
            let i = choose|i: int|
                e + 1 <= i < edges.len() && edge_events(bodies, colliders, #[trigger] edges[i])
                    == seq![
                    diff_events(bodies, colliders, edges, e + 1)[m - here.len()],
                ];
            assert(e <= i < edges.len() && edge_events(bodies, colliders, edges[i])
                == seq![all[m]]);
        }
    }
}

/// The events of a step pair up with the contacts. A start event is
/// reported only for two colliders that no edge joined before the step and
/// that an edge joins after it; an end event only for two colliders that an
/// edge joined before the step and that none joins after it. So two starts
/// for one pair are never reported without an end between them.
pub proof fn lemma_events_pair_up<T: Copy>(
    before: &PhysicsWorld<T>,
    after: &PhysicsWorld<T>,
    dt: int,
    m: int,
)
    requires
        before.wf(),
        world_stepped(before, after, dt),
        before.removal_events@.len() <= m < after.events@.len(),
    ensures
        ({
            let event = after.events@[m];
            let (h1, h2) = event.handles();
            if event.is_start() {
                !before.collision_graph.joined(h1, h2) && after.collision_graph.joined(h1, h2)
            } else {
                before.collision_graph.joined(h1, h2) && !after.collision_graph.joined(h1, h2)
            }
        }),
{
    let keys = before.bodies.bodies.keys();
    let values = before.bodies.bodies.values();
    let old_edges = before.collision_graph.all_edges();
    let edges = stepped(keys, values, &before.colliders, old_edges, dt).1;
    let event = after.events@[m];
    let (h1, h2) = event.handles();
    lemma_step_links_only_what_may_collide(before, dt);
    before.collision_graph.lemma_wf();
    assert(pairs_unique(old_edges));
    lemma_grown_unique(keys, values, &before.colliders, old_edges, edges);
    let reported = diff_events(&after.bodies, &after.colliders, edges, 0);
    let at = m - before.removal_events@.len();
    assert(event == reported[at]);
    lemma_diff_events_sources(&after.bodies, &after.colliders, edges, 0, at);
    let i = choose|i: int|
        0 <= i < edges.len() && edge_events(&after.bodies, &after.colliders, #[trigger] edges[i])
            == seq![reported[at]];
    let source = edge_events(&after.bodies, &after.colliders, edges[i]);
    assert(source[0] == event);
    assert(edges[i].joins(h1, h2));
    lemma_survivors_are_the_touching(&after.bodies, &after.colliders, edges, h1, h2);
    if event.is_start() {
        assert(edges[i].interaction.is_none());
        if i < old_edges.len() {
            assert(edges[i] == old_edges[i]);
            assert(old_edges[i].interaction.is_some());
        }
        if joined_in(old_edges, h1, h2) {
            let x = link_in(old_edges, h1, h2);
            assert(edges[x] == old_edges[x]);
            assert(edges.take(i)[x].joins(edges[i].first, edges[i].second));
        }
    } else {
        assert(edges[i].interaction.is_some());
        assert(i < old_edges.len());
        assert(edges[i] == old_edges[i]);
        assert(old_edges[i].joins(h1, h2));
        if after.collision_graph.joined(h1, h2) {
            let x = choose|x: int|
                0 <= x < edges.len() && (#[trigger] edges[x]).joins(h1, h2) && current(
                    &after.bodies,
                    &after.colliders,
                    edges[x],
                ).is_some();
            assert(edges[x].joins(edges[i].first, edges[i].second));
        }
    }
}

/// Index of the edge that gives rise to the event at index `m` of the
/// events of the edges from index `e` on.
pub open spec fn source_of<T: Copy>(
    bodies: &BodySet,
    colliders: &ColliderSet<T>,
    edges: Seq<GraphEdge>,
    e: int,
    m: int,
) -> int
    decreases edges.len() - e,
{
    if e < 0 || e >= edges.len() {
        e
    } else if m < edge_events(bodies, colliders, edges[e]).len() {
        e
    } else {
        source_of(
            bodies,
            colliders,
            edges,
            e + 1,
            m - edge_events(bodies, colliders, edges[e]).len(),
        )
    }
}

proof fn lemma_source_of<T: Copy>(
    bodies: &BodySet,
    colliders: &ColliderSet<T>,
    edges: Seq<GraphEdge>,
    e: int,
    m: int,
)
    requires
        0 <= e <= edges.len(),
        0 <= m < diff_events(bodies, colliders, edges, e).len(),
    ensures
        e <= source_of(bodies, colliders, edges, e, m) < edges.len(),
        edge_events(bodies, colliders, edges[source_of(bodies, colliders, edges, e, m)]) == seq![
            diff_events(bodies, colliders, edges, e)[m],
        ],
        forall|later: int|
            m < later < diff_events(bodies, colliders, edges, e).len() ==> source_of(
                bodies,
                colliders,
                edges,
                e,
                m,
            ) < #[trigger] source_of(bodies, colliders, edges, e, later),
    decreases edges.len() - e,
{
    if e < edges.len() {
        let here = edge_events(bodies, colliders, edges[e]);
        let all = diff_events(bodies, colliders, edges, e);
        if m < here.len() {
            assert(here =~= seq![all[m]]);
            assert forall|later: int| m < later < all.len() implies e < #[trigger] source_of(
                bodies,
                colliders,
                edges,
                e,
                later,
            ) by {
                lemma_source_of(bodies, colliders, edges, e + 1, later - here.len());
            }
        } else {
            lemma_source_of(bodies, colliders, edges, e + 1, m - here.len());
            assert forall|later: int| m < later < all.len() implies source_of(
                bodies,
                colliders,
                edges,
                e,
                m,
            ) < #[trigger] source_of(bodies, colliders, edges, e, later) by {
                assert(source_of(bodies, colliders, edges, e, later) == source_of(
                    bodies,
                    colliders,
                    edges,
                    e + 1,
                    later - here.len(),
                ));
            }
        }
    }
}

proof fn lemma_diff_events_cover<T: Copy>(
    bodies: &BodySet,
    colliders: &ColliderSet<T>,
    edges: Seq<GraphEdge>,
    e: int,
    i: int,
)
    requires
        0 <= e <= i < edges.len(),
        edge_events(bodies, colliders, edges[i]).len() == 1,
    ensures
        exists|m: int|
            0 <= m < diff_events(bodies, colliders, edges, e).len() && #[trigger] diff_events(
                bodies,
                colliders,
                edges,
                e,
            )[m] == edge_events(bodies, colliders, edges[i])[0],
    decreases i - e,
{
    let here = edge_events(bodies, colliders, edges[e]);
    let all = diff_events(bodies, colliders, edges, e);
    if e == i {
        assert(all[0] == here[0]);
    } else {
        lemma_diff_events_cover(bodies, colliders, edges, e + 1, i);
        let rest = diff_events(bodies, colliders, edges, e + 1);
        let m = choose|m: int|
            0 <= m < rest.len() && #[trigger] rest[m] == edge_events(
                bodies,
                colliders,
                edges[i],
            )[0];
        assert(all[here.len() + m] == rest[m]);
    }
}

/// The start events of a step obey the two filters: a start is reported
/// only for two colliders of which each has its category in the mask of
/// the other, and which do not belong to one body that keeps its colliders
/// apart.
pub proof fn lemma_start_events_obey_the_filters<T: Copy>(
    before: &PhysicsWorld<T>,
    after: &PhysicsWorld<T>,
    dt: int,
    m: int,
)
    requires
        before.wf(),
        world_stepped(before, after, dt),
        before.removal_events@.len() <= m < after.events@.len(),
        after.events@[m].is_start(),
    ensures
        ({
            let (h1, h2) = after.events@[m].handles();
            let collider1 = before.colliders.collider(h1);
            let collider2 = before.colliders.collider(h2);
            &&& h1 != h2
            &&& before.colliders.contains(h1)
            &&& before.colliders.contains(h2)
            &&& categories_match(&collider1, &collider2)
            &&& collider1.owner != collider2.owner || before.bodies.body(
                collider1.owner,
            ).self_collide
        }),
{
    let keys = before.bodies.bodies.keys();
    let values = before.bodies.bodies.values();
    let old_edges = before.collision_graph.all_edges();
    let edges = stepped(keys, values, &before.colliders, old_edges, dt).1;
    lemma_step_links_only_what_may_collide(before, dt);
    let reported = diff_events(&after.bodies, &after.colliders, edges, 0);
    let at = m - before.removal_events@.len();
    assert(after.events@[m] == reported[at]);
    lemma_source_of(&after.bodies, &after.colliders, edges, 0, at);
    let i = source_of(&after.bodies, &after.colliders, edges, 0, at);
    let source = edge_events(&after.bodies, &after.colliders, edges[i]);
    assert(source[0] == reported[at]);
    assert(edges[i].interaction.is_none());
    if i < old_edges.len() {
        assert(edges[i] == old_edges[i]);
        assert(old_edges[i].interaction.is_some());
    }
    assert(fresh_link(keys, values, &before.colliders, edges[i]));
}

/// An event names a solid before a sensor, and tells a collision, which is
/// between two solids, from an overlap, in which a sensor takes part: of
/// the event for two colliders, at its start or at its end, the first
/// handle is that of a sensor only if the second is that of a sensor too.
pub proof fn lemma_event_names_the_solid_first<T: Copy>(
    h1: ColliderHandle,
    collider1: Collider<T>,
    h2: ColliderHandle,
    collider2: Collider<T>,
)
    ensures
        ({
            let event = ContactEvent::started(h1, collider1, h2, collider2);
            let solids = collider1.state == ColliderState::Solid && collider2.state
                == ColliderState::Solid;
            &&& event.is_start()
            &&& !event.finished().is_start()
            &&& event.finished().handles() == event.handles()
            &&& event.finished().tags() == event.tags()
            &&& event.tags() == if collider1.state == ColliderState::Sensor && collider2.state
                == ColliderState::Solid {
                (collider2.user_tag, collider1.user_tag)
            } else {
                (collider1.user_tag, collider2.user_tag)
            }
            &&& event is CollisionStarted <==> solids
            &&& event.finished() is CollisionEnded <==> solids
            &&& event.handles() == if collider1.state == ColliderState::Sensor && collider2.state
                == ColliderState::Solid {
                (h2, h1)
            } else {
                (h1, h2)
            }
        }),
{
}

/// The events of a step name a solid before a sensor: where the first
/// handle of an event is that of a sensor, so is the second. An event
/// tells of a collision exactly where both colliders are solid. And it
/// carries the tags of its two colliders, in the order of the handles.
pub proof fn lemma_step_events_name_the_solid_first<T: Copy>(
    before: &PhysicsWorld<T>,
    after: &PhysicsWorld<T>,
    dt: int,
    m: int,
)
    requires
        before.wf(),
        world_stepped(before, after, dt),
        before.removal_events@.len() <= m < after.events@.len(),
    ensures
        ({
            let event = after.events@[m];
            let (h1, h2) = event.handles();
            let state1 = before.colliders.collider(h1).state;
            let state2 = before.colliders.collider(h2).state;
            &&& state1 == ColliderState::Sensor ==> state2 == ColliderState::Sensor
            &&& (event is CollisionStarted || event is CollisionEnded) <==> state1
                == ColliderState::Solid && state2 == ColliderState::Solid
            &&& event.tags() == (
                before.colliders.collider(h1).user_tag,
                before.colliders.collider(h2).user_tag,
            )
        }),
{
    let keys = before.bodies.bodies.keys();
    let values = before.bodies.bodies.values();
    let old_edges = before.collision_graph.all_edges();
    let edges = stepped(keys, values, &before.colliders, old_edges, dt).1;
    let reported = diff_events(&after.bodies, &after.colliders, edges, 0);
    let at = m - before.removal_events@.len();
    assert(after.events@[m] == reported[at]);
    lemma_source_of(&after.bodies, &after.colliders, edges, 0, at);
    let i = source_of(&after.bodies, &after.colliders, edges, 0, at);
    let source = edge_events(&after.bodies, &after.colliders, edges[i]);
    assert(source[0] == reported[at]);
    lemma_event_names_the_solid_first(
        edges[i].first,
        before.colliders.collider(edges[i].first),
        edges[i].second,
        before.colliders.collider(edges[i].second),
    );
}

/// Every change of the contacts in a step is reported: where an edge joined
/// two colliders before the step and none joins them after it, the step
/// has an end event for the two; where none joined them before and one
/// does after, the step has a start event for them.
pub proof fn lemma_contact_changes_are_reported<T: Copy>(
    before: &PhysicsWorld<T>,
    after: &PhysicsWorld<T>,
    dt: int,
    h1: ColliderHandle,
    h2: ColliderHandle,
)
    requires
        before.wf(),
        world_stepped(before, after, dt),
        before.collision_graph.joined(h1, h2) != after.collision_graph.joined(h1, h2),
    ensures
        exists|m: int|
            before.removal_events@.len() <= m < after.events@.len() && (
            #[trigger] after.events@[m]).is_start() == after.collision_graph.joined(h1, h2) && (
            after.events@[m].handles() == (h1, h2) || after.events@[m].handles() == (h2, h1)),
{
    let keys = before.bodies.bodies.keys();
    let values = before.bodies.bodies.values();
    let old_edges = before.collision_graph.all_edges();
    let edges = stepped(keys, values, &before.colliders, old_edges, dt).1;
    lemma_step_links_only_what_may_collide(before, dt);
    before.collision_graph.lemma_wf();
    assert(pairs_unique(old_edges));
    lemma_grown_unique(keys, values, &before.colliders, old_edges, edges);
    lemma_survivors_are_the_touching(&after.bodies, &after.colliders, edges, h1, h2);
    let reported = diff_events(&after.bodies, &after.colliders, edges, 0);
    let i = if after.collision_graph.joined(h1, h2) {
        let i = choose|i: int|
            0 <= i < edges.len() && (#[trigger] edges[i]).joins(h1, h2) && current(
                &after.bodies,
                &after.colliders,
                edges[i],
            ).is_some();
        if i < old_edges.len() {
            assert(old_edges[i].joins(h1, h2));
        }
        assert(edges[i].interaction.is_none());
        i
    } else {
        let i = link_in(old_edges, h1, h2);
        assert(old_edges[i].joins(h1, h2));
        assert(edges[i] == old_edges[i]);
        assert(edges[i].interaction.is_some());
        i
    };
    assert(edges[i].joins(h1, h2));
    let source = edge_events(&after.bodies, &after.colliders, edges[i]);
    assert(source.len() == 1);
    lemma_diff_events_cover(&after.bodies, &after.colliders, edges, 0, i);
    let at = choose|at: int| 0 <= at < reported.len() && #[trigger] reported[at] == source[0];
    let m = before.removal_events@.len() + at;
    assert(after.events@[m] == source[0]);
    assert(before.removal_events@.len() <= m < after.events@.len() && after.events@[m].is_start()
        == after.collision_graph.joined(h1, h2) && (after.events@[m].handles() == (h1, h2)
        || after.events@[m].handles() == (h2, h1)));
}

/// A step reports at most one event for a pair of colliders: two events of
/// one step, those put off by removals aside, never name the same two
/// handles.
pub proof fn lemma_one_event_for_a_pair<T: Copy>(
    before: &PhysicsWorld<T>,
    after: &PhysicsWorld<T>,
    dt: int,
    m1: int,
    m2: int,
)
    requires
        before.wf(),
        world_stepped(before, after, dt),
        before.removal_events@.len() <= m1 < m2 < after.events@.len(),
    ensures
        after.events@[m1].handles() != after.events@[m2].handles(),
        after.events@[m1].handles() != (after.events@[m2].handles().1, after.events@[m2].handles().0),
{
    let keys = before.bodies.bodies.keys();
    let values = before.bodies.bodies.values();
    let old_edges = before.collision_graph.all_edges();
    let edges = stepped(keys, values, &before.colliders, old_edges, dt).1;
    lemma_step_links_only_what_may_collide(before, dt);
    before.collision_graph.lemma_wf();
    assert(pairs_unique(old_edges));
    lemma_grown_unique(keys, values, &before.colliders, old_edges, edges);
    let reported = diff_events(&after.bodies, &after.colliders, edges, 0);
    let a1 = m1 - before.removal_events@.len();
    let a2 = m2 - before.removal_events@.len();
    assert(after.events@[m1] == reported[a1]);
    assert(after.events@[m2] == reported[a2]);
    lemma_source_of(&after.bodies, &after.colliders, edges, 0, a1);
    lemma_source_of(&after.bodies, &after.colliders, edges, 0, a2);
    let i1 = source_of(&after.bodies, &after.colliders, edges, 0, a1);
    let i2 = source_of(&after.bodies, &after.colliders, edges, 0, a2);
    assert(i1 < i2);
    let e1 = edge_events(&after.bodies, &after.colliders, edges[i1]);
    let e2 = edge_events(&after.bodies, &after.colliders, edges[i2]);
    assert(e1[0] == reported[a1]);
    assert(e2[0] == reported[a2]);
    let (f1, s1) = reported[a1].handles();
    let (f2, s2) = reported[a2].handles();
    assert(edges[i1].joins(f1, s1));
    assert(edges[i2].joins(f2, s2));
    if (f1, s1) == (f2, s2) || (f1, s1) == (s2, f2) {
        assert(edges[i1].joins(edges[i2].first, edges[i2].second));
    }
}

/// A step changes nothing of a body but its position and its movement,
/// and nothing at all of a static body.
pub proof fn lemma_step_moves_only<T: Copy>(
    before: &PhysicsWorld<T>,
    after: &PhysicsWorld<T>,
    dt: int,
)
    requires
        before.wf(),
        world_stepped(before, after, dt),
    ensures
        after.bodies.bodies.values().len() == before.bodies.bodies.values().len(),
        forall|b: int|
            0 <= b < before.bodies.bodies.values().len() ==> (
            #[trigger] after.bodies.bodies.values()[b]).same_but_place(
                &before.bodies.bodies.values()[b],
            ),
        forall|b: int|
            0 <= b < before.bodies.bodies.values().len() && before.bodies.bodies.values()[b].status
                == BodyStatus::Static ==> #[trigger] after.bodies.bodies.values()[b]
                == before.bodies.bodies.values()[b],
{
    let keys = before.bodies.bodies.keys();
    let values = before.bodies.bodies.values();
    before.bodies.bodies.lemma_keys_distinct();
    let ready = primed(values, dt);
    assert(lists_as_in(keys, ready, &before.colliders, values));
    lemma_pass_x_keeps_lists(keys, ready, &before.colliders, 0, values);
    lemma_pass_y_grows(
        keys,
        pass_x(keys, ready, &before.colliders, 0),
        &before.colliders,
        before.collision_graph.all_edges(),
        0,
        values,
    );
}

/// Two colliders are classified as touching exactly when their boxes meet,
/// whether they are solids, which collide, or not, which overlap.
pub proof fn lemma_classified_iff_boxes_meet<T>(
    collider1: Collider<T>,
    position1: Vec2,
    collider2: Collider<T>,
    position2: Vec2,
)
    ensures
        classify(collider1, position1, collider2, position2).is_some() == colliding_at(
            collider1,
            position1.x as int,
            position1.y as int,
            collider2,
            position2.x as int,
            position2.y as int,
        ),
{
}

/// Whether none of the colliders of `body1` may collide with another
/// collider of the set.
pub open spec fn idle<T>(colliders: &ColliderSet<T>, body1: &Body) -> bool {
    forall|k: int, j: int|
        0 <= k < body1.colliders@.len() && 0 <= j < colliders.colliders.keys().len() ==> (
        #[trigger] body1.colliders@[k]) == ColliderHandle(
            #[trigger] colliders.colliders.keys()[j],
        ) || !may_collide(
            body1,
            &colliders.collider(body1.colliders@[k]),
            &colliders.colliders.values()[j],
        )
}

/// Whether no collider of any of the bodies may collide with another: each
/// pair is shut out by the categories and masks, or belongs to one body
/// that keeps its colliders apart.
pub open spec fn nothing_may_collide<T>(bodies: Seq<Body>, colliders: &ColliderSet<T>) -> bool {
    forall|b: int| 0 <= b < bodies.len() ==> idle(colliders, &#[trigger] bodies[b])
}

/// `body` after its movement was made in full along the horizontal axis.
pub open spec fn freely_x(body: Body) -> Body {
    if body.status == BodyStatus::Static {
        body
    } else {
        displaced(body, true, body.movement.x as int)
    }
}

/// `body` after its movement was made in full along the vertical axis.
pub open spec fn freely_y(body: Body) -> Body {
    if body.status == BodyStatus::Static {
        body
    } else {
        displaced(body, false, body.movement.y as int)
    }
}

/// `body` after a step of length `dt` in which nothing stopped it: moved by
/// its velocity times `dt`, saturating, if it is kinematic.
pub open spec fn moved_freely(body: Body, dt: int) -> Body {
    freely_y(freely_x(primed_body(body, dt)))
}

proof fn lemma_scan_idle<T>(
    keys: Seq<(usize, u64)>,
    bodies: Seq<Body>,
    colliders: &ColliderSet<T>,
    body1: &Body,
    k: int,
    j: int,
    movement: int,
    edges: Seq<GraphEdge>,
)
    requires
        idle(colliders, body1),
        0 <= k < body1.colliders@.len(),
        0 <= j,
    ensures
        scan_x(keys, bodies, colliders, body1, body1.colliders@[k], j, movement) == movement,
        scan_y(keys, bodies, colliders, body1, body1.colliders@[k], j, movement) == movement,
        scan_links(keys, bodies, colliders, body1, body1.colliders@[k], j, edges) == edges,
    decreases colliders.colliders.keys().len() - j,
{
    if j < colliders.colliders.keys().len() {
        let h1 = body1.colliders@[k];
        let h2 = ColliderHandle(colliders.colliders.keys()[j]);
        assert(h1 == h2 || !may_collide(
            body1,
            &colliders.collider(h1),
            &colliders.colliders.values()[j],
        ));
        lemma_scan_idle(keys, bodies, colliders, body1, k, j + 1, movement, edges);
    }
}

proof fn lemma_sweep_idle<T>(
    keys: Seq<(usize, u64)>,
    bodies: Seq<Body>,
    colliders: &ColliderSet<T>,
    body1: &Body,
    k: int,
    movement: int,
    edges: Seq<GraphEdge>,
)
    requires
        idle(colliders, body1),
        0 <= k,
    ensures
        sweep_x(keys, bodies, colliders, body1, k, movement) == movement,
        sweep_y(keys, bodies, colliders, body1, k, movement) == movement,
        sweep_links(keys, bodies, colliders, body1, k, edges) == edges,
    decreases body1.colliders@.len() - k,
{
    if k < body1.colliders@.len() {
        lemma_scan_idle(keys, bodies, colliders, body1, k, 0, movement, edges);
        lemma_sweep_idle(keys, bodies, colliders, body1, k + 1, movement, edges);
    }
}

proof fn lemma_idle_wherever<T>(colliders: &ColliderSet<T>, body: Body, other: Body)
    requires
        idle(colliders, &body),
        other.self_collide == body.self_collide,
        other.colliders@ == body.colliders@,
    ensures
        idle(colliders, &other),
{
    assert forall|k: int, j: int|
        0 <= k < other.colliders@.len() && 0 <= j < colliders.colliders.keys().len() implies (
        #[trigger] other.colliders@[k]) == ColliderHandle(
        #[trigger] colliders.colliders.keys()[j],
    ) || !may_collide(
        &other,
        &colliders.collider(other.colliders@[k]),
        &colliders.colliders.values()[j],
    ) by {
        assert(body.colliders@[k] == ColliderHandle(colliders.colliders.keys()[j]) || !may_collide(
            &body,
            &colliders.collider(body.colliders@[k]),
            &colliders.colliders.values()[j],
        ));
    }
}

proof fn lemma_pass_x_idle<T>(
    keys: Seq<(usize, u64)>,
    bodies: Seq<Body>,
    colliders: &ColliderSet<T>,
    i: int,
)
    requires
        0 <= i,
        nothing_may_collide(bodies, colliders),
    ensures
        pass_x(keys, bodies, colliders, i).len() == bodies.len(),
        forall|b: int|
            0 <= b < bodies.len() ==> #[trigger] pass_x(keys, bodies, colliders, i)[b] == if b >= i {
                freely_x(bodies[b])
            } else {
                bodies[b]
            },
    decreases bodies.len() - i,
{
    if i < bodies.len() {
        let body = bodies[i];
        assert(idle(colliders, &bodies[i]));
        lemma_sweep_idle(keys, bodies, colliders, &body, 0, body.movement.x as int, Seq::empty());
        let next = bodies.update(i, moved_x(keys, bodies, colliders, i));
        assert(next[i] == freely_x(body));
        assert(nothing_may_collide(next, colliders)) by {
            assert forall|b: int| 0 <= b < next.len() implies idle(colliders, &#[trigger] next[b]) by {
                assert(idle(colliders, &bodies[b]));
                lemma_idle_wherever(colliders, bodies[b], next[b]);
            }
        }
        lemma_pass_x_idle(keys, next, colliders, i + 1);
    }
}

proof fn lemma_pass_y_idle<T>(
    keys: Seq<(usize, u64)>,
    bodies: Seq<Body>,
    colliders: &ColliderSet<T>,
    edges: Seq<GraphEdge>,
    i: int,
)
    requires
        0 <= i,
        nothing_may_collide(bodies, colliders),
    ensures
        pass_y(keys, bodies, colliders, edges, i).0.len() == bodies.len(),
        pass_y(keys, bodies, colliders, edges, i).1 == edges,
        forall|b: int|
            0 <= b < bodies.len() ==> #[trigger] pass_y(keys, bodies, colliders, edges, i).0[b]
                == if b >= i {
                freely_y(bodies[b])
            } else {
                bodies[b]
            },
    decreases bodies.len() - i,
{
    if i < bodies.len() {
        let body = bodies[i];
        assert(idle(colliders, &bodies[i]));
        if body.status == BodyStatus::Static {
            lemma_pass_y_idle(keys, bodies, colliders, edges, i + 1);
        } else {
            lemma_sweep_idle(keys, bodies, colliders, &body, 0, body.movement.y as int, edges);
            let next = bodies.update(i, moved_y(keys, bodies, colliders, i));
            assert(next[i] == freely_y(body));
            assert(nothing_may_collide(next, colliders)) by {
                assert forall|b: int| 0 <= b < next.len() implies idle(
                    colliders,
                    &#[trigger] next[b],
                ) by {
                    assert(idle(colliders, &bodies[b]));
                    lemma_idle_wherever(colliders, bodies[b], next[b]);
                }
            }
            lemma_sweep_idle(keys, next, colliders, &next[i], 0, 0, edges);
            lemma_pass_y_idle(keys, next, colliders, edges, i + 1);
        }
    }
}

/// Where no collider may collide with another, a step stops nothing and
/// links nothing: each kinematic body makes its whole movement, no edge is
/// added, and no contact starts. In a world without edges the step reports
/// only what removals had put off, and leaves the graph without edges.
pub proof fn lemma_step_without_collisions<T: Copy>(
    before: &PhysicsWorld<T>,
    after: &PhysicsWorld<T>,
    dt: int,
)
    requires
        before.wf(),
        world_stepped(before, after, dt),
        nothing_may_collide(before.bodies.bodies.values(), &before.colliders),
    ensures
        after.bodies.bodies.values().len() == before.bodies.bodies.values().len(),
        forall|b: int|
            0 <= b < before.bodies.bodies.values().len() ==> #[trigger] after.bodies.bodies.values()[b]
                == moved_freely(before.bodies.bodies.values()[b], dt),
        nothing_may_collide(after.bodies.bodies.values(), &after.colliders),
        after.events@ == before.removal_events@ + diff_events(
            &after.bodies,
            &after.colliders,
            before.collision_graph.all_edges(),
            0,
        ),
        after.collision_graph.all_edges() == surviving(
            &after.bodies,
            &after.colliders,
            before.collision_graph.all_edges(),
        ),
        before.collision_graph.all_edges().len() == 0 ==> after.events@ == before.removal_events@
            && after.collision_graph.all_edges().len() == 0,
{
    let keys = before.bodies.bodies.keys();
    let values = before.bodies.bodies.values();
    let colliders = &before.colliders;
    let edges = before.collision_graph.all_edges();
    let ready = primed(values, dt);
    assert(nothing_may_collide(ready, colliders)) by {
        assert forall|b: int| 0 <= b < ready.len() implies idle(colliders, &#[trigger] ready[b]) by {
            assert(idle(colliders, &values[b]));
            lemma_idle_wherever(colliders, values[b], ready[b]);
        }
    }
    lemma_pass_x_idle(keys, ready, colliders, 0);
    let across = pass_x(keys, ready, colliders, 0);
    assert(nothing_may_collide(across, colliders)) by {
        assert forall|b: int| 0 <= b < across.len() implies idle(colliders, &#[trigger] across[b]) by {
            assert(idle(colliders, &ready[b]));
            lemma_idle_wherever(colliders, ready[b], across[b]);
        }
    }
    lemma_pass_y_idle(keys, across, colliders, edges, 0);
    let down = pass_y(keys, across, colliders, edges, 0).0;
    assert(nothing_may_collide(down, colliders)) by {
        assert forall|b: int| 0 <= b < down.len() implies idle(colliders, &#[trigger] down[b]) by {
            assert(idle(colliders, &across[b]));
            lemma_idle_wherever(colliders, across[b], down[b]);
        }
    }
    if edges.len() == 0 {
        assert(diff_events(&after.bodies, &after.colliders, edges, 0) =~= Seq::<
            ContactEvent<T>,
        >::empty());
        assert(reclassified(&after.bodies, &after.colliders, edges).len() == 0);
        assert(lapsed(&after.bodies, &after.colliders, edges, 0).len() == 0);
        assert(after.events@ =~= before.removal_events@);
    }
}

/// The categories and masks alone keep a world from colliding: where of
/// every two colliders the category of one is not in the mask of the
/// other, nothing may collide.
pub proof fn lemma_mismatched_masks_shut_out_all<T: Copy>(world: &PhysicsWorld<T>)
    requires
        world.wf(),
        forall|h1: ColliderHandle, h2: ColliderHandle|
            #![trigger world.colliders.contains(h1), world.colliders.contains(h2)]
            world.colliders.contains(h1) && world.colliders.contains(h2) && h1 != h2
                ==> !categories_match(
                &world.colliders.collider(h1),
                &world.colliders.collider(h2),
            ),
    ensures
        nothing_may_collide(world.bodies.bodies.values(), &world.colliders),
{
    let bodies = world.bodies.bodies.values();
    let colliders = &world.colliders;
    world.bodies.bodies.lemma_keys_distinct();
    colliders.colliders.lemma_keys_distinct();
    assert forall|b: int| 0 <= b < bodies.len() implies idle(colliders, &#[trigger] bodies[b]) by {
        assert(owns_its_list(
            BodyHandle(world.bodies.bodies.keys()[b]),
            bodies[b].colliders@,
            colliders,
        ));
        assert forall|k: int, j: int|
            0 <= k < bodies[b].colliders@.len() && 0 <= j < colliders.colliders.keys().len() implies (
            #[trigger] bodies[b].colliders@[k]) == ColliderHandle(
            #[trigger] colliders.colliders.keys()[j],
        ) || !may_collide(
            &bodies[b],
            &colliders.collider(bodies[b].colliders@[k]),
            &colliders.colliders.values()[j],
        ) by {
            let h1 = bodies[b].colliders@[k];
            assert(colliders.contains(h1));
            let h2 = ColliderHandle(colliders.colliders.keys()[j]);
            assert(colliders.contains(h2)) by {
                assert(colliders.colliders.keys().contains(h2.0));
            }
            assert(colliders.collider(h2) == colliders.colliders.values()[j]);
            if h1 != h2 {
                assert(!categories_match(&colliders.collider(h1), &colliders.collider(h2)));
            }
        }
    }
}

/// A body that keeps its colliders apart and owns every collider of the
/// world keeps the world from colliding.
pub proof fn lemma_one_body_apart_shuts_out_all<T: Copy>(world: &PhysicsWorld<T>, owner: BodyHandle)
    requires
        world.wf(),
        world.bodies.contains(owner),
        !world.bodies.body(owner).self_collide,
        forall|h: ColliderHandle| #[trigger]
            world.colliders.contains(h) ==> world.colliders.collider(h).owner == owner,
    ensures
        nothing_may_collide(world.bodies.bodies.values(), &world.colliders),
{
    let bodies = world.bodies.bodies.values();
    let colliders = &world.colliders;
    world.bodies.bodies.lemma_keys_distinct();
    colliders.colliders.lemma_keys_distinct();
    let at = world.bodies.bodies.keys().index_of(owner.0);
    assert(world.bodies.bodies.keys()[at] == owner.0);
    assert forall|b: int| 0 <= b < bodies.len() implies idle(colliders, &#[trigger] bodies[b]) by {
        assert(owns_its_list(
            BodyHandle(world.bodies.bodies.keys()[b]),
            bodies[b].colliders@,
            colliders,
        ));
        assert forall|k: int, j: int|
            0 <= k < bodies[b].colliders@.len() && 0 <= j < colliders.colliders.keys().len() implies (
            #[trigger] bodies[b].colliders@[k]) == ColliderHandle(
            #[trigger] colliders.colliders.keys()[j],
        ) || !may_collide(
            &bodies[b],
            &colliders.collider(bodies[b].colliders@[k]),
            &colliders.colliders.values()[j],
        ) by {
            let h1 = bodies[b].colliders@[k];
            assert(colliders.contains(h1));
            let h2 = ColliderHandle(colliders.colliders.keys()[j]);
            assert(colliders.contains(h2)) by {
                assert(colliders.colliders.keys().contains(h2.0));
            }
            assert(colliders.collider(h2) == colliders.colliders.values()[j]);
            assert(colliders.collider(h1).owner == owner);
            assert(colliders.collider(h2).owner == owner);
            assert(b == at);
        }
    }
}

/// A body that nothing stops keeps, along each axis, the coordinate along
/// which it has no velocity; a static body keeps both.
pub proof fn lemma_resting_body_stays(body: Body, dt: int)
    ensures
        body.velocity.x == 0 ==> moved_freely(body, dt).position.x == body.position.x,
        body.velocity.y == 0 ==> moved_freely(body, dt).position.y == body.position.y,
        body.status == BodyStatus::Static ==> moved_freely(body, dt) == body,
{
    assert(0 * dt == 0);
}

/// Through any number of steps of a world in which nothing may collide and
/// no edge stands, no event is reported, beyond what removals before the
/// first step had put off, and no edge appears.
pub proof fn lemma_never_any_contact<T: Copy>(
    states: Seq<PhysicsWorld<T>>,
    dts: Seq<int>,
    i: int,
)
    requires
        states.len() == dts.len() + 1,
        forall|k: int| 0 <= k < states.len() ==> (#[trigger] states[k]).wf(),
        forall|k: int|
            0 <= k < dts.len() ==> world_stepped(&states[k], #[trigger] &states[k + 1], dts[k]),
        nothing_may_collide(states[0].bodies.bodies.values(), &states[0].colliders),
        states[0].collision_graph.all_edges().len() == 0,
        0 <= i < states.len(),
    ensures
        nothing_may_collide(states[i].bodies.bodies.values(), &states[i].colliders),
        states[i].collision_graph.all_edges().len() == 0,
        i >= 1 ==> states[i].events@ == states[i - 1].removal_events@,
        i >= 2 ==> states[i].events@.len() == 0,
    decreases i,
{
    if i > 0 {
        lemma_never_any_contact(states, dts, i - 1);
        assert(world_stepped(&states[i - 1], &states[(i - 1) + 1], dts[i - 1]));
        lemma_step_without_collisions(&states[i - 1], &states[i], dts[i - 1]);
        if i >= 2 {
            assert(world_stepped(&states[i - 2], &states[(i - 2) + 1], dts[i - 2]));
        }
    }
}

/// Whether nothing can stop `body1`: none of its solid colliders may
/// collide with another solid collider of the set.
pub open spec fn unhindered<T>(colliders: &ColliderSet<T>, body1: &Body) -> bool {
    forall|k: int, j: int|
        0 <= k < body1.colliders@.len() && 0 <= j < colliders.colliders.keys().len() ==> (
        #[trigger] body1.colliders@[k]) == ColliderHandle(
            #[trigger] colliders.colliders.keys()[j],
        ) || !may_collide(
            body1,
            &colliders.collider(body1.colliders@[k]),
            &colliders.colliders.values()[j],
        ) || colliders.collider(body1.colliders@[k]).state != ColliderState::Solid
            || colliders.colliders.values()[j].state != ColliderState::Solid
}

proof fn lemma_scan_free<T>(
    keys: Seq<(usize, u64)>,
    bodies: Seq<Body>,
    colliders: &ColliderSet<T>,
    body1: &Body,
    k: int,
    j: int,
    movement: int,
)
    requires
        unhindered(colliders, body1),
        0 <= k < body1.colliders@.len(),
        0 <= j,
    ensures
        colliders.collider(body1.colliders@[k]).state == ColliderState::Solid ==> scan_x(
            keys,
            bodies,
            colliders,
            body1,
            body1.colliders@[k],
            j,
            movement,
        ) == movement,
        scan_y(keys, bodies, colliders, body1, body1.colliders@[k], j, movement) == movement,
    decreases colliders.colliders.keys().len() - j,
{
    if j < colliders.colliders.keys().len() {
        let h1 = body1.colliders@[k];
        let h2 = ColliderHandle(colliders.colliders.keys()[j]);
        assert(h1 == h2 || !may_collide(
            body1,
            &colliders.collider(h1),
            &colliders.colliders.values()[j],
        ) || colliders.collider(h1).state != ColliderState::Solid
            || colliders.colliders.values()[j].state != ColliderState::Solid);
        lemma_scan_free(keys, bodies, colliders, body1, k, j + 1, movement);
    }
}

proof fn lemma_sweep_free<T>(
    keys: Seq<(usize, u64)>,
    bodies: Seq<Body>,
    colliders: &ColliderSet<T>,
    body1: &Body,
    k: int,
    movement: int,
)
    requires
        unhindered(colliders, body1),
        0 <= k,
    ensures
        sweep_x(keys, bodies, colliders, body1, k, movement) == movement,
        sweep_y(keys, bodies, colliders, body1, k, movement) == movement,
    decreases body1.colliders@.len() - k,
{
    if k < body1.colliders@.len() {
        lemma_scan_free(keys, bodies, colliders, body1, k, 0, movement);
        lemma_sweep_free(keys, bodies, colliders, body1, k + 1, movement);
    }
}

proof fn lemma_unhindered_wherever<T>(colliders: &ColliderSet<T>, body: Body, other: Body)
    requires
        unhindered(colliders, &body),
        other.self_collide == body.self_collide,
        other.colliders@ == body.colliders@,
    ensures
        unhindered(colliders, &other),
{
    assert forall|k: int, j: int|
        0 <= k < other.colliders@.len() && 0 <= j < colliders.colliders.keys().len() implies (
        #[trigger] other.colliders@[k]) == ColliderHandle(
        #[trigger] colliders.colliders.keys()[j],
    ) || !may_collide(
        &other,
        &colliders.collider(other.colliders@[k]),
        &colliders.colliders.values()[j],
    ) || colliders.collider(other.colliders@[k]).state != ColliderState::Solid
        || colliders.colliders.values()[j].state != ColliderState::Solid by {
        assert(body.colliders@[k] == ColliderHandle(colliders.colliders.keys()[j]) || !may_collide(
            &body,
            &colliders.collider(body.colliders@[k]),
            &colliders.colliders.values()[j],
        ) || colliders.collider(body.colliders@[k]).state != ColliderState::Solid
            || colliders.colliders.values()[j].state != ColliderState::Solid);
    }
}

proof fn lemma_pass_x_free<T>(
    keys: Seq<(usize, u64)>,
    bodies: Seq<Body>,
    colliders: &ColliderSet<T>,
    i: int,
)
    requires
        0 <= i,
    ensures
        pass_x(keys, bodies, colliders, i).len() == bodies.len(),
        forall|b: int|
            0 <= b < bodies.len() && b < i ==> #[trigger] pass_x(keys, bodies, colliders, i)[b]
                == bodies[b],
        forall|b: int|
            i <= b < bodies.len() && unhindered(colliders, &bodies[b]) ==> #[trigger] pass_x(
                keys,
                bodies,
                colliders,
                i,
            )[b] == freely_x(bodies[b]),
    decreases bodies.len() - i,
{
    if i < bodies.len() {
        let body = bodies[i];
        let next = bodies.update(i, moved_x(keys, bodies, colliders, i));
        if unhindered(colliders, &bodies[i]) {
            lemma_sweep_free(keys, bodies, colliders, &body, 0, body.movement.x as int);
            assert(next[i] == freely_x(body));
        }
        lemma_pass_x_free(keys, next, colliders, i + 1);
        assert forall|b: int|
            i <= b < bodies.len() && unhindered(colliders, &bodies[b]) implies #[trigger] pass_x(
            keys,
            bodies,
            colliders,
            i,
        )[b] == freely_x(bodies[b]) by {
            if b > i {
                assert(next[b] == bodies[b]);
            }
        }
    }
}

proof fn lemma_pass_y_free<T>(
    keys: Seq<(usize, u64)>,
    bodies: Seq<Body>,
    colliders: &ColliderSet<T>,
    edges: Seq<GraphEdge>,
    i: int,
)
    requires
        0 <= i,
    ensures
        pass_y(keys, bodies, colliders, edges, i).0.len() == bodies.len(),
        forall|b: int|
            0 <= b < bodies.len() && b < i ==> #[trigger] pass_y(
                keys,
                bodies,
                colliders,
                edges,
                i,
            ).0[b] == bodies[b],
        forall|b: int|
            i <= b < bodies.len() && unhindered(colliders, &bodies[b]) ==> #[trigger] pass_y(
                keys,
                bodies,
                colliders,
                edges,
                i,
            ).0[b] == freely_y(bodies[b]),
    decreases bodies.len() - i,
{
    if i < bodies.len() {
        let body = bodies[i];
        if body.status == BodyStatus::Static {
            lemma_pass_y_free(keys, bodies, colliders, edges, i + 1);
        } else {
            let next = bodies.update(i, moved_y(keys, bodies, colliders, i));
            if unhindered(colliders, &bodies[i]) {
                lemma_sweep_free(keys, bodies, colliders, &body, 0, body.movement.y as int);
                assert(next[i] == freely_y(body));
            }
            let links = sweep_links(keys, next, colliders, &next[i], 0, edges);
            lemma_pass_y_free(keys, next, colliders, links, i + 1);
            assert forall|b: int|
                i <= b < bodies.len() && unhindered(colliders, &bodies[b]) implies #[trigger] pass_y(
                keys,
                bodies,
                colliders,
                edges,
                i,
            ).0[b] == freely_y(bodies[b]) by {
                if b > i {
                    assert(next[b] == bodies[b]);
                }
            }
        }
    }
}

/// A body that nothing can stop makes its whole movement in a step,
/// whatever else the world holds: it moves by its velocity times `dt`,
/// saturating, if it is kinematic, and stays if it is static.
pub proof fn lemma_unhindered_body_moves_freely<T: Copy>(
    before: &PhysicsWorld<T>,
    after: &PhysicsWorld<T>,
    dt: int,
    handle: BodyHandle,
)
    requires
        before.wf(),
        world_stepped(before, after, dt),
        before.bodies.contains(handle),
        unhindered(&before.colliders, &before.bodies.body(handle)),
    ensures
        after.bodies.body(handle) == moved_freely(before.bodies.body(handle), dt),
{
    let keys = before.bodies.bodies.keys();
    let values = before.bodies.bodies.values();
    let colliders = &before.colliders;
    before.bodies.bodies.lemma_keys_distinct();
    let b = keys.index_of(handle.0);
    assert(keys[b] == handle.0);
    let ready = primed(values, dt);
    lemma_unhindered_wherever(colliders, values[b], ready[b]);
    lemma_pass_x_free(keys, ready, colliders, 0);
    let across = pass_x(keys, ready, colliders, 0);
    assert(across[b] == freely_x(ready[b]));
    lemma_unhindered_wherever(colliders, ready[b], across[b]);
    lemma_pass_y_free(keys, across, colliders, before.collision_graph.all_edges(), 0);
}

/// Whether `longer` holds the edges of `shorter`, at their indices.
pub open spec fn extends(shorter: Seq<GraphEdge>, longer: Seq<GraphEdge>) -> bool {
    &&& shorter.len() <= longer.len()
    &&& forall|i: int| 0 <= i < shorter.len() ==> #[trigger] longer[i] == shorter[i]
}

proof fn lemma_extends_keeps_joined(
    shorter: Seq<GraphEdge>,
    longer: Seq<GraphEdge>,
    h1: ColliderHandle,
    h2: ColliderHandle,
)
    requires
        extends(shorter, longer),
        joined_in(shorter, h1, h2),
    ensures
        joined_in(longer, h1, h2),
{
    let i = link_in(shorter, h1, h2);
    assert(longer[i].joins(h1, h2));
}

proof fn lemma_linked_joins(edges: Seq<GraphEdge>, h1: ColliderHandle, h2: ColliderHandle)
    ensures
        extends(edges, linked(edges, h1, h2)),
        joined_in(linked(edges, h1, h2), h1, h2),
{
    if !joined_in(edges, h1, h2) {
        assert(linked(edges, h1, h2)[edges.len() as int].joins(h1, h2));
    }
}

proof fn lemma_scan_links_join<T>(
    keys: Seq<(usize, u64)>,
    bodies: Seq<Body>,
    colliders: &ColliderSet<T>,
    body1: &Body,
    h1: ColliderHandle,
    j: int,
    edges: Seq<GraphEdge>,
)
    requires
        0 <= j,
    ensures
        extends(edges, scan_links(keys, bodies, colliders, body1, h1, j, edges)),
        forall|t: int|
            j <= t < colliders.colliders.keys().len() && pair_touches(
                keys,
                bodies,
                colliders,
                body1,
                h1,
                t,
            ) ==> joined_in(
                scan_links(keys, bodies, colliders, body1, h1, j, edges),
                h1,
                ColliderHandle(#[trigger] colliders.colliders.keys()[t]),
            ),
    decreases colliders.colliders.keys().len() - j,
{
    if j < colliders.colliders.keys().len() {
        let h2 = ColliderHandle(colliders.colliders.keys()[j]);
        let next = if pair_touches(keys, bodies, colliders, body1, h1, j) {
            linked(edges, h1, h2)
        } else {
            edges
        };
        let all = scan_links(keys, bodies, colliders, body1, h1, j, edges);
        lemma_linked_joins(edges, h1, h2);
        lemma_scan_links_join(keys, bodies, colliders, body1, h1, j + 1, next);
        assert(extends(edges, all));
        assert forall|t: int|
            j <= t < colliders.colliders.keys().len() && pair_touches(
                keys,
                bodies,
                colliders,
                body1,
                h1,
                t,
            ) implies joined_in(all, h1, ColliderHandle(#[trigger] colliders.colliders.keys()[t])) by {
            if t == j {
                lemma_extends_keeps_joined(next, all, h1, h2);
            }
        }
    }
}

proof fn lemma_sweep_links_join<T>(
    keys: Seq<(usize, u64)>,
    bodies: Seq<Body>,
    colliders: &ColliderSet<T>,
    body1: &Body,
    k: int,
    edges: Seq<GraphEdge>,
)
    requires
        0 <= k,
    ensures
        extends(edges, sweep_links(keys, bodies, colliders, body1, k, edges)),
        forall|s: int, t: int|
            k <= s < body1.colliders@.len() && 0 <= t < colliders.colliders.keys().len()
                && pair_touches(
                keys,
                bodies,
                colliders,
                body1,
                #[trigger] body1.colliders@[s],
                t,
            ) ==> joined_in(
                sweep_links(keys, bodies, colliders, body1, k, edges),
                body1.colliders@[s],
                ColliderHandle(#[trigger] colliders.colliders.keys()[t]),
            ),
    decreases body1.colliders@.len() - k,
{
    if k < body1.colliders@.len() {
        let h1 = body1.colliders@[k];
        let next = scan_links(keys, bodies, colliders, body1, h1, 0, edges);
        let all = sweep_links(keys, bodies, colliders, body1, k, edges);
        lemma_scan_links_join(keys, bodies, colliders, body1, h1, 0, edges);
        lemma_sweep_links_join(keys, bodies, colliders, body1, k + 1, next);
        assert(extends(edges, all));
        assert forall|s: int, t: int|
            k <= s < body1.colliders@.len() && 0 <= t < colliders.colliders.keys().len()
                && pair_touches(
                keys,
                bodies,
                colliders,
                body1,
                #[trigger] body1.colliders@[s],
                t,
            ) implies joined_in(
            all,
            body1.colliders@[s],
            ColliderHandle(#[trigger] colliders.colliders.keys()[t]),
        ) by {
            if s == k {
                lemma_extends_keeps_joined(
                    next,
                    all,
                    h1,
                    ColliderHandle(colliders.colliders.keys()[t]),
                );
            }
        }
    }
}

/// Whether the owner of the collider at position `t` of the set stands
/// where it ends the step when the body at position `b` has its turn in the
/// vertical pass: it had its turn before, or is that body, or is static.
pub open spec fn turn_covers<T>(
    keys: Seq<(usize, u64)>,
    flags: Seq<Body>,
    colliders: &ColliderSet<T>,
    b: int,
    t: int,
) -> bool {
    let at = keys.index_of(colliders.colliders.values()[t].owner.0);
    0 <= at < flags.len() && (at <= b || flags[at].status == BodyStatus::Static)
}

proof fn lemma_pass_y_joins<T>(
    keys: Seq<(usize, u64)>,
    bodies: Seq<Body>,
    colliders: &ColliderSet<T>,
    edges: Seq<GraphEdge>,
    i: int,
    flags: Seq<Body>,
)
    requires
        colliders.wf(),
        0 <= i,
        lists_as_in(keys, bodies, colliders, flags),
    ensures
        extends(edges, pass_y(keys, bodies, colliders, edges, i).1),
        pass_y(keys, bodies, colliders, edges, i).0.len() == bodies.len(),
        forall|b: int|
            0 <= b < bodies.len() && (b < i || flags[b].status == BodyStatus::Static)
                ==> #[trigger] pass_y(keys, bodies, colliders, edges, i).0[b] == bodies[b],
        forall|b: int, s: int, t: int|
            #![trigger turn_covers(keys, flags, colliders, b, t), flags[b].colliders@[s]]
            i <= b < bodies.len() && flags[b].status != BodyStatus::Static && 0 <= s
                < flags[b].colliders@.len() && 0 <= t < colliders.colliders.keys().len()
                && turn_covers(keys, flags, colliders, b, t) && pair_touches(
                keys,
                pass_y(keys, bodies, colliders, edges, i).0,
                colliders,
                &pass_y(keys, bodies, colliders, edges, i).0[b],
                flags[b].colliders@[s],
                t,
            ) ==> joined_in(
                pass_y(keys, bodies, colliders, edges, i).1,
                flags[b].colliders@[s],
                ColliderHandle(colliders.colliders.keys()[t]),
            ),
    decreases bodies.len() - i,
{
    if i < bodies.len() {
        assert(bodies[i].same_but_place(&flags[i]));
        if bodies[i].status == BodyStatus::Static {
            lemma_pass_y_joins(keys, bodies, colliders, edges, i + 1, flags);
        } else {
            let moved = bodies.update(i, moved_y(keys, bodies, colliders, i));
            assert forall|b: int| 0 <= b < moved.len() implies (
            #[trigger] moved[b]).same_but_place(&flags[b]) by {
                assert(bodies[b].same_but_place(&flags[b]));
            }
            assert forall|b: int|
                0 <= b < moved.len() && flags[b].status == BodyStatus::Static implies #[trigger] moved[b]
                == flags[b] by {
                assert(bodies[b] == flags[b]);
            }
            let links = sweep_links(keys, moved, colliders, &moved[i], 0, edges);
            lemma_sweep_links_join(keys, moved, colliders, &moved[i], 0, edges);
            lemma_pass_y_joins(keys, moved, colliders, links, i + 1, flags);
            let fin = pass_y(keys, bodies, colliders, edges, i).0;
            let all = pass_y(keys, bodies, colliders, edges, i).1;
            assert(extends(edges, all));
            assert forall|b: int|
                0 <= b < bodies.len() && (b < i || flags[b].status
                    == BodyStatus::Static) implies #[trigger] fin[b] == bodies[b] by {
                assert(fin[b] == moved[b]);
                assert(bodies[b].same_but_place(&flags[b]));
            }
            assert forall|b: int, s: int, t: int|
                #![trigger turn_covers(keys, flags, colliders, b, t), flags[b].colliders@[s]]
                i <= b < bodies.len() && flags[b].status != BodyStatus::Static && 0 <= s
                    < flags[b].colliders@.len() && 0 <= t < colliders.colliders.keys().len()
                    && turn_covers(keys, flags, colliders, b, t) && pair_touches(
                    keys,
                    fin,
                    colliders,
                    &fin[b],
                    flags[b].colliders@[s],
                    t,
                ) implies joined_in(
                all,
                flags[b].colliders@[s],
                ColliderHandle(colliders.colliders.keys()[t]),
            ) by {
                if b == i {
                    let h1 = flags[i].colliders@[s];
                    let at = keys.index_of(colliders.colliders.values()[t].owner.0);
                    assert(fin[i] == moved[i]);
                    assert(fin[at] == moved[at]);
                    assert(moved[i].colliders@[s] == h1);
                    assert(pair_touches(keys, moved, colliders, &moved[i], h1, t));
                    assert(joined_in(links, h1, ColliderHandle(colliders.colliders.keys()[t])));
                    lemma_extends_keeps_joined(
                        links,
                        all,
                        h1,
                        ColliderHandle(colliders.colliders.keys()[t]),
                    );
                }
            }
        }
    }
}

/// After a step an edge joins every two colliders that touch: where two
/// colliders that may collide, of which one at least is on a body that is
/// not static, have boxes that meet where their bodies stand after the
/// step, the graph joins them.
pub proof fn lemma_touching_pairs_are_joined<T: Copy>(
    before: &PhysicsWorld<T>,
    after: &PhysicsWorld<T>,
    dt: int,
    h1: ColliderHandle,
    h2: ColliderHandle,
)
    requires
        before.wf(),
        world_stepped(before, after, dt),
        before.colliders.contains(h1),
        before.colliders.contains(h2),
        h1 != h2,
        ({
            let collider1 = before.colliders.collider(h1);
            let collider2 = before.colliders.collider(h2);
            let body1 = after.bodies.body(collider1.owner);
            let body2 = after.bodies.body(collider2.owner);
            &&& body1.status != BodyStatus::Static || body2.status != BodyStatus::Static
            &&& may_collide(&body1, &collider1, &collider2)
            &&& colliding_at(
                collider1,
                body1.position.x as int,
                body1.position.y as int,
                collider2,
                body2.position.x as int,
                body2.position.y as int,
            )
        }),
    ensures
        after.collision_graph.joined(h1, h2),
{
    let keys = before.bodies.bodies.keys();
    let values = before.bodies.bodies.values();
    let colliders = &before.colliders;
    let old_edges = before.collision_graph.all_edges();
    before.bodies.bodies.lemma_keys_distinct();
    colliders.colliders.lemma_keys_distinct();
    before.collision_graph.lemma_wf();
    let ready = primed(values, dt);
    assert(lists_as_in(keys, ready, colliders, values));
    lemma_pass_x_keeps_lists(keys, ready, colliders, 0, values);
    let across = pass_x(keys, ready, colliders, 0);
    lemma_pass_y_grows(keys, across, colliders, old_edges, 0, values);
    lemma_pass_y_joins(keys, across, colliders, old_edges, 0, values);
    let fin = pass_y(keys, across, colliders, old_edges, 0).0;
    let edges = pass_y(keys, across, colliders, old_edges, 0).1;
    assert(fin == after.bodies.bodies.values());

    let collider1 = colliders.collider(h1);
    let collider2 = colliders.collider(h2);
    let j1 = colliders.colliders.keys().index_of(h1.0);
    let j2 = colliders.colliders.keys().index_of(h2.0);
    assert(colliders.colliders.keys()[j1] == h1.0 && colliders.colliders.keys()[j2] == h2.0);
    assert(ColliderHandle(colliders.colliders.keys()[j1]) == h1);
    assert(ColliderHandle(colliders.colliders.keys()[j2]) == h2);
    assert(before.bodies.contains(colliders.colliders.values()[j1].owner));
    assert(before.bodies.contains(colliders.colliders.values()[j2].owner));
    let b1 = keys.index_of(collider1.owner.0);
    let b2 = keys.index_of(collider2.owner.0);
    assert(keys[b1] == collider1.owner.0 && keys[b2] == collider2.owner.0);
    assert(fin[b1].same_but_place(&values[b1]) && fin[b2].same_but_place(&values[b2]));
    // each collider stands on the list of its owner
    assert(values[b1].colliders@.contains(ColliderHandle(colliders.colliders.keys()[j1])));
    assert(values[b2].colliders@.contains(ColliderHandle(colliders.colliders.keys()[j2])));
    let s1 = values[b1].colliders@.index_of(h1);
    let s2 = values[b2].colliders@.index_of(h2);
    assert(values[b1].colliders@[s1] == h1 && values[b2].colliders@[s2] == h2);

    if fin[b1].status != BodyStatus::Static && (b2 <= b1 || fin[b2].status
        == BodyStatus::Static) {
        assert(turn_covers(keys, values, colliders, b1, j2));
        assert(pair_touches(keys, fin, colliders, &fin[b1], values[b1].colliders@[s1], j2));
        assert(joined_in(edges, h1, h2));
    } else {
        assert(fin[b2].status != BodyStatus::Static);
        assert(turn_covers(keys, values, colliders, b2, j1));
        assert(collider1.owner == collider2.owner ==> b1 == b2);
        assert(pair_touches(keys, fin, colliders, &fin[b2], values[b2].colliders@[s2], j1));
        assert(joined_in(edges, h2, h1));
        let i = link_in(edges, h2, h1);
        assert(edges[i].joins(h1, h2));
    }
    // the edge is kept, since its colliders touch
    assert(pairs_unique(old_edges));
    lemma_grown_unique(keys, values, colliders, old_edges, edges);
    lemma_survivors_are_the_touching(&after.bodies, &after.colliders, edges, h1, h2);
    let i = link_in(edges, h1, h2);
    assert(edges[i].joins(h1, h2));
    lemma_classified_iff_boxes_meet(
        collider1,
        after.bodies.body(collider1.owner).position,
        collider2,
        after.bodies.body(collider2.owner).position,
    );
    lemma_classified_iff_boxes_meet(
        collider2,
        after.bodies.body(collider2.owner).position,
        collider1,
        after.bodies.body(collider1.owner).position,
    );
    assert(current(&after.bodies, &after.colliders, edges[i]).is_some());
}

/// After a step the colliders that an edge joins touch: their boxes meet
/// where their bodies stand.
pub proof fn lemma_joined_pairs_touch<T: Copy>(
    before: &PhysicsWorld<T>,
    after: &PhysicsWorld<T>,
    dt: int,
    e: int,
)
    requires
        before.wf(),
        world_stepped(before, after, dt),
        0 <= e < after.collision_graph.all_edges().len(),
    ensures
        ({
            let edge = after.collision_graph.all_edges()[e];
            let collider1 = after.colliders.collider(edge.first);
            let collider2 = after.colliders.collider(edge.second);
            let body1 = after.bodies.body(collider1.owner);
            let body2 = after.bodies.body(collider2.owner);
            &&& edge.interaction == classify(collider1, body1.position, collider2, body2.position)
            &&& colliding_at(
                collider1,
                body1.position.x as int,
                body1.position.y as int,
                collider2,
                body2.position.x as int,
                body2.position.y as int,
            )
        }),
{
    let keys = before.bodies.bodies.keys();
    let values = before.bodies.bodies.values();
    let old_edges = before.collision_graph.all_edges();
    let edges = stepped(keys, values, &before.colliders, old_edges, dt).1;
    lemma_step_links_only_what_may_collide(before, dt);
    before.collision_graph.lemma_wf();
    assert(pairs_unique(old_edges));
    lemma_grown_unique(keys, values, &before.colliders, old_edges, edges);
    let anew = reclassified(&after.bodies, &after.colliders, edges);
    let gone = lapsed(&after.bodies, &after.colliders, edges, 0);
    lemma_survivors_hold_what_they_were(&after.bodies, &after.colliders, edges);
    let edge = after.collision_graph.all_edges()[e];
    assert(anew.contains(edge));
    let i = anew.index_of(edge);
    assert(anew[i] == edge);
    lemma_classified_iff_boxes_meet(
        after.colliders.collider(edge.first),
        after.bodies.body(after.colliders.collider(edge.first).owner).position,
        after.colliders.collider(edge.second),
        after.bodies.body(after.colliders.collider(edge.second).owner).position,
    );
}

/// Whether the world holds one kinematic body, `mover`, with one solid
/// collider, `h1`, and one static body, `blocker`, with one solid collider,
/// `h2`, that may collide with it, and nothing else.
pub open spec fn one_mover_one_blocker<T: Copy>(
    world: &PhysicsWorld<T>,
    mover: BodyHandle,
    blocker: BodyHandle,
    h1: ColliderHandle,
    h2: ColliderHandle,
) -> bool {
    &&& world.bodies.bodies.keys().len() == 2
    &&& world.colliders.colliders.keys().len() == 2
    &&& world.bodies.contains(mover)
    &&& world.bodies.contains(blocker)
    &&& world.bodies.body(mover).status == BodyStatus::Kinematic
    &&& world.bodies.body(blocker).status == BodyStatus::Static
    &&& world.colliders.contains(h1)
    &&& world.colliders.contains(h2)
    &&& world.colliders.collider(h1).owner == mover
    &&& world.colliders.collider(h2).owner == blocker
    &&& world.colliders.collider(h1).state == ColliderState::Solid
    &&& world.colliders.collider(h2).state == ColliderState::Solid
    &&& may_collide(
        &world.bodies.body(mover),
        &world.colliders.collider(h1),
        &world.colliders.collider(h2),
    )
}

/// In a world of one mover and one blocker, the blocker stays where it is,
/// and the moving collider does not penetrate the other after a step,
/// whatever the speed of the body and the length of the step, as long as
/// the body does not end the step at the limit of the coordinate range,
/// where its position saturates.
pub proof fn lemma_single_mover_stays_out<T: Copy>(
    before: &PhysicsWorld<T>,
    after: &PhysicsWorld<T>,
    dt: int,
    mover: BodyHandle,
    blocker: BodyHandle,
    h1: ColliderHandle,
    h2: ColliderHandle,
)
    requires
        before.wf(),
        world_stepped(before, after, dt),
        one_mover_one_blocker(before, mover, blocker, h1, h2),
        i32::MIN < after.bodies.body(mover).position.y < i32::MAX,
    ensures
        after.bodies.body(blocker) == before.bodies.body(blocker),
        !penetrating_at(
            before.colliders.collider(h1),
            after.bodies.body(mover).position.x as int,
            after.bodies.body(mover).position.y as int,
            before.colliders.collider(h2),
            after.bodies.body(blocker).position.x as int,
            after.bodies.body(blocker).position.y as int,
            TOLERANCE as int,
        ),
{
    lemma_single_mover_resolves(before, after, dt, mover, blocker, h1, h2);
}

/// Whether a coordinate lies in the inner quarter of the range.
pub open spec fn well_within(v: int) -> bool {
    -0x1000_0000 <= v <= 0x1000_0000
}

/// In a world of one mover and one blocker, the blocker stays where it is,
/// and the moving collider does not penetrate the other after a step,
/// whatever the speed of the body, where it starts, and the length of the
/// step, as long as the blocker, the two boxes and their offsets lie in the
/// inner quarter of the coordinate range: a mover whose position saturates
/// is then far from the blocker.
pub proof fn lemma_single_mover_stays_out_of_a_blocker_well_within<T: Copy>(
    before: &PhysicsWorld<T>,
    after: &PhysicsWorld<T>,
    dt: int,
    mover: BodyHandle,
    blocker: BodyHandle,
    h1: ColliderHandle,
    h2: ColliderHandle,
)
    requires
        before.wf(),
        world_stepped(before, after, dt),
        one_mover_one_blocker(before, mover, blocker, h1, h2),
        well_within(before.bodies.body(blocker).position.y as int),
        well_within(before.colliders.collider(h1).offset.y as int),
        well_within(before.colliders.collider(h2).offset.y as int),
        well_within(before.colliders.collider(h1).shape.half_exts.y as int),
        well_within(before.colliders.collider(h2).shape.half_exts.y as int),
    ensures
        after.bodies.body(blocker) == before.bodies.body(blocker),
        !penetrating_at(
            before.colliders.collider(h1),
            after.bodies.body(mover).position.x as int,
            after.bodies.body(mover).position.y as int,
            before.colliders.collider(h2),
            after.bodies.body(blocker).position.x as int,
            after.bodies.body(blocker).position.y as int,
            TOLERANCE as int,
        ),
{
    lemma_single_mover_resolves(before, after, dt, mover, blocker, h1, h2);
}

proof fn lemma_single_mover_resolves<T: Copy>(
    before: &PhysicsWorld<T>,
    after: &PhysicsWorld<T>,
    dt: int,
    mover: BodyHandle,
    blocker: BodyHandle,
    h1: ColliderHandle,
    h2: ColliderHandle,
)
    requires
        before.wf(),
        world_stepped(before, after, dt),
        one_mover_one_blocker(before, mover, blocker, h1, h2),
    ensures
        after.bodies.body(blocker) == before.bodies.body(blocker),
        exists|wide: int|
            after.bodies.body(mover).position.y == saturated(wide) && !#[trigger] penetrating_at(
                before.colliders.collider(h1),
                after.bodies.body(mover).position.x as int,
                wide,
                before.colliders.collider(h2),
                after.bodies.body(blocker).position.x as int,
                after.bodies.body(blocker).position.y as int,
                TOLERANCE as int,
            ),
{
    let keys = before.bodies.bodies.keys();
    let values = before.bodies.bodies.values();
    let colliders = &before.colliders;
    let edges = before.collision_graph.all_edges();
    let c1 = colliders.collider(h1);
    let c2 = colliders.collider(h2);
    before.bodies.bodies.lemma_keys_distinct();
    colliders.colliders.lemma_keys_distinct();
    let pm = keys.index_of(mover.0);
    let pb = keys.index_of(blocker.0);
    assert(keys[pm] == mover.0 && keys[pb] == blocker.0);
    assert(pm != pb);
    let j1 = colliders.colliders.keys().index_of(h1.0);
    let j2 = colliders.colliders.keys().index_of(h2.0);
    assert(colliders.colliders.keys()[j1] == h1.0 && colliders.colliders.keys()[j2] == h2.0);
    assert(j1 != j2);
    assert(h1 != h2);

    // the list of the mover names its one collider
    let list = values[pm].colliders@;
    assert(owns_its_list(BodyHandle(keys[pm]), values[pm].colliders@, colliders));
    assert(list.contains(ColliderHandle(colliders.colliders.keys()[j1]))) by {
        assert(colliders.colliders.values()[j1].owner == mover);
    }
    assert forall|k: int| 0 <= k < list.len() implies #[trigger] list[k] == h1 by {
        assert(colliders.contains(list[k]));
        let j = colliders.colliders.keys().index_of(list[k].0);
        assert(colliders.colliders.keys()[j] == list[k].0);
        if j == j2 {
            assert(colliders.collider(list[k]).owner == blocker);
        }
    }
    assert(list.len() == 1) by {
        let at = list.index_of(h1);
        if list.len() > 1 {
            assert(list[0] == list[1]);
        }
    }
    assert(list[0] == h1);

    // the horizontal pass leaves the blocker and the mover's list
    let b0 = primed(values, dt);
    let b1 = b0.update(0, moved_x(keys, b0, colliders, 0));
    let b2 = b1.update(1, moved_x(keys, b1, colliders, 1));
    assert(pass_x(keys, b0, colliders, 0) == b2) by {
        reveal_with_fuel(pass_x, 3);
    }
    assert(b2[pb] == values[pb]);
    let body1 = b2[pm];
    assert(body1.colliders@ == list);
    assert(body1.status == BodyStatus::Kinematic);
    assert(body1.self_collide == values[pm].self_collide);

    // the vertical pass resolves the one movement against the one blocker
    let start = body1.movement.y as int;
    let end = resolved(&body1, &c1, &c2, &values[pb], false, start);
    assert(body_at(keys, b2, c2.owner) == values[pb]);
    assert(colliders.colliders.values()[j1] == c1);
    assert(colliders.colliders.values()[j2] == c2);
    assert(may_collide(&body1, &c1, &c2));
    assert(pair_y(keys, b2, colliders, &body1, h1, j1, start) == start);
    assert(pair_y(keys, b2, colliders, &body1, h1, j1, end) == end);
    assert(pair_y(keys, b2, colliders, &body1, h1, j2, start) == end);
    assert(scan_y(keys, b2, colliders, &body1, h1, 0, start) == end) by {
        reveal_with_fuel(scan_y, 3);
    }
    assert(sweep_y(keys, b2, colliders, &body1, 0, start) == end) by {
        reveal_with_fuel(sweep_y, 2);
    }
    let moved = b2.update(pm, displaced(body1, false, end));
    assert(moved_y(keys, b2, colliders, pm) == displaced(body1, false, end));
    assert(pass_y(keys, b2, colliders, edges, 0).0 == moved) by {
        reveal_with_fuel(pass_y, 3);
    }
    assert(after.bodies.bodies.values() == moved);
    assert(after.bodies.body(mover) == moved[pm]);
    assert(after.bodies.body(blocker) == values[pb]);
    lemma_resolved_move_does_not_penetrate(&body1, &c1, &c2, &values[pb], false, start);
    let wide = body1.position.y + end;
    assert(after.bodies.body(mover).position.y == saturated(wide));
    assert(!penetrating_at(
        c1,
        after.bodies.body(mover).position.x as int,
        wide,
        c2,
        after.bodies.body(blocker).position.x as int,
        after.bodies.body(blocker).position.y as int,
        TOLERANCE as int,
    ));
}

/// The events that the removal of a collider puts off are the first events
/// of the next step, if none was put off before: for each edge of the
/// collider, the end of the contact.
pub proof fn lemma_removal_is_reported_first<T: Copy>(
    before: &PhysicsWorld<T>,
    between: &PhysicsWorld<T>,
    after: &PhysicsWorld<T>,
    handle: ColliderHandle,
    dt: int,
)
    requires
        before.removal_events@.len() == 0,
        collider_removed(before, between, handle, true),
        world_stepped(between, after, dt),
    ensures
        between.events@ == before.events@,
        exists|others: Seq<ColliderHandle>, order: Seq<int>| #[trigger]
            neighbors_listed(before.collision_graph.all_edges(), handle, others, order) && notices(
                &before.colliders,
                handle,
                others,
            ).is_prefix_of(after.events@),
{
    let (others, order) = choose|others: Seq<ColliderHandle>, order: Seq<int>| #[trigger]
        neighbors_listed(before.collision_graph.all_edges(), handle, others, order)
            && between.removal_events@ == before.removal_events@ + notices(
            &before.colliders,
            handle,
            others,
        );
    assert(between.removal_events@ =~= notices(&before.colliders, handle, others));
    assert(neighbors_listed(before.collision_graph.all_edges(), handle, others, order) && notices(
        &before.colliders,
        handle,
        others,
    ).is_prefix_of(after.events@));
}

} // verus!
