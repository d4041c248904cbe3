//! The two passes of a step: each body that moves is resolved against the
//! colliders in its way, first along the horizontal axis, then along the
//! vertical one, and the graph learns which colliders touch.

use vstd::prelude::*;
use super::collision::collision_graph::{linked, CollisionGraph, GraphEdge};
use super::object::collider::{colliding_at, penetrating_at, penetrating_wide};
use super::object::collider_set::{attached, graph_matches, owns_its_list};
use super::object::{
    is_colliding, Body, BodyHandle, BodySet, BodyStatus, Collider, ColliderHandle, ColliderSet,
    ColliderState,
};
use super::vector::{greater, lesser, saturate, saturated, Vec2, TOLERANCE};

verus! {

/// Whether the category of each collider is in the mask of the other.
pub open spec fn categories_match<T>(collider1: &Collider<T>, collider2: &Collider<T>) -> bool {
    &&& (collider1.category_bits & collider2.mask_bits) != 0
    &&& (collider2.category_bits & collider1.mask_bits) != 0
}

/// Whether two colliders belong to one body that has its colliders not
/// collide with each other; `body1` is the owner of the first.
pub open spec fn kept_apart<T>(body1: &Body, collider1: &Collider<T>, collider2: &Collider<T>)
    -> bool {
    collider1.owner == collider2.owner && !body1.self_collide
}

/// Whether two colliders may collide at all: the category of each must be in
/// the mask of the other, and colliders of one body collide only if the body
/// allows it.
pub open spec fn may_collide<T>(body1: &Body, collider1: &Collider<T>, collider2: &Collider<T>)
    -> bool {
    categories_match(collider1, collider2) && !kept_apart(body1, collider1, collider2)
}

/// Tests the two filters; see [`may_collide`]. `body1` is the owner of the
/// first collider.
pub fn can_collide<T>(body1: &Body, collider1: &Collider<T>, collider2: &Collider<T>) -> (r: bool)
    ensures
        r == may_collide(body1, collider1, collider2),
{
    let category_mismatch = ((collider1.category_bits & collider2.mask_bits) == 0) || ((
    collider2.category_bits & collider1.mask_bits) == 0);
    // only colliders with matching masks can collide
    if category_mismatch {
        return false;
    }
    // don't collide with same body if it's disabled
    if collider1.owner.same(&collider2.owner) && !body1.self_collide {
        return false;
    }
    true
}

/// Bound on a movement that is being resolved.
pub open spec fn in_move_range(movement: int) -> bool {
    -0x4_0000_0000 <= movement <= 0x4_0000_0000
}

/// The movement along one axis that brings the first collider into contact
/// with the second: with its near face if `forward`, else with its far face.
pub open spec fn contact_move<T>(
    body1: &Body,
    collider1: &Collider<T>,
    collider2: &Collider<T>,
    body2: &Body,
    horizontal: bool,
    forward: bool,
) -> int {
    if horizontal {
        if forward {
            body2.position.x - collider1.offset.x + collider2.offset.x
                - collider2.shape.half_exts.x - collider1.shape.half_exts.x - body1.position.x
        } else {
            body2.position.x - collider1.offset.x + collider2.offset.x
                + collider2.shape.half_exts.x + collider1.shape.half_exts.x - body1.position.x
        }
    } else {
        if forward {
            body2.position.y - collider1.offset.y + collider2.offset.y
                - collider2.shape.half_exts.y - collider1.shape.half_exts.y - body1.position.y
        } else {
            body2.position.y - collider1.offset.y + collider2.offset.y
                + collider2.shape.half_exts.y + collider1.shape.half_exts.y - body1.position.y
        }
    }
}

/// Whether the first collider, moved by `movement` along one axis, sinks
/// into the second by more than the tolerance.
pub open spec fn would_penetrate<T>(
    body1: &Body,
    collider1: &Collider<T>,
    collider2: &Collider<T>,
    body2: &Body,
    horizontal: bool,
    movement: int,
) -> bool {
    if horizontal {
        penetrating_at(
            *collider1,
            body1.position.x + movement,
            body1.position.y as int,
            *collider2,
            body2.position.x as int,
            body2.position.y as int,
            TOLERANCE as int,
        )
    } else {
        penetrating_at(
            *collider1,
            body1.position.x as int,
            body1.position.y + movement,
            *collider2,
            body2.position.x as int,
            body2.position.y as int,
            TOLERANCE as int,
        )
    }
}

/// One movement of the first collider resolved against the second: where
/// the movement would penetrate, it is cut to the contact with the near
/// face, if the body's velocity along the axis is positive, and else raised
/// to the contact with the far face.
pub open spec fn resolved<T>(
    body1: &Body,
    collider1: &Collider<T>,
    collider2: &Collider<T>,
    body2: &Body,
    horizontal: bool,
    movement: int,
) -> int {
    if would_penetrate(body1, collider1, collider2, body2, horizontal, movement) {
        let speed = if horizontal {
            body1.velocity.x
        } else {
            body1.velocity.y
        };
        if speed > 0 {
            lesser(movement, contact_move(body1, collider1, collider2, body2, horizontal, true))
        } else {
            greater(movement, contact_move(body1, collider1, collider2, body2, horizontal, false))
        }
    } else {
        movement
    }
}

/// Resolves one movement of a collider against another collider.
pub fn resolve_axis<T>(
    body1: &Body,
    collider1: &Collider<T>,
    collider2: &Collider<T>,
    body2: &Body,
    horizontal: bool,
    movement: i64,
) -> (r: i64)
    requires
        in_move_range(movement as int),
    ensures
        r == resolved(body1, collider1, collider2, body2, horizontal, movement as int),
        in_move_range(r as int),
{
    let penetrating = if horizontal {
        penetrating_wide(
            collider1,
            body1.position.x as i64 + movement,
            body1.position.y as i64,
            collider2,
            body2.position,
            TOLERANCE,
        )
    } else {
        penetrating_wide(
            collider1,
            body1.position.x as i64,
            body1.position.y as i64 + movement,
            collider2,
            body2.position,
            TOLERANCE,
        )
    };
    if !penetrating {
        return movement;
    }
    let (place1, place2, offset1, offset2, half1, half2, speed) = if horizontal {
        (
            body1.position.x as i64,
            body2.position.x as i64,
            collider1.offset.x as i64,
            collider2.offset.x as i64,
            collider1.shape.half_exts.x as i64,
            collider2.shape.half_exts.x as i64,
            body1.velocity.x,
        )
    } else {
        (
            body1.position.y as i64,
            body2.position.y as i64,
            collider1.offset.y as i64,
            collider2.offset.y as i64,
            collider1.shape.half_exts.y as i64,
            collider2.shape.half_exts.y as i64,
            body1.velocity.y,
        )
    };
    if speed > 0 {
        let limit: i64 = place2 - offset1 + offset2 - half2 - half1 - place1;
        if limit < movement {
            limit
        } else {
            movement
        }
    } else {
        let limit: i64 = place2 - offset1 + offset2 + half2 + half1 - place1;
        if limit > movement {
            limit
        } else {
            movement
        }
    }
}

/// The body that a handle names among `bodies`, which stand in the order of `keys`.
pub open spec fn body_at(keys: Seq<(usize, u64)>, bodies: Seq<Body>, handle: BodyHandle) -> Body {
    bodies[keys.index_of(handle.0)]
}

/// The horizontal movement of `body1` after its collider `h1` was resolved
/// against the collider at position `j` of the set: as it was if that is
/// the same collider, a sensor, or one that may not collide with it.
pub open spec fn pair_x<T>(
    keys: Seq<(usize, u64)>,
    bodies: Seq<Body>,
    colliders: &ColliderSet<T>,
    body1: &Body,
    h1: ColliderHandle,
    j: int,
    movement: int,
) -> int {
    let collider1 = colliders.collider(h1);
    let collider2 = colliders.colliders.values()[j];
    let h2 = ColliderHandle(colliders.colliders.keys()[j]);
    if h1 == h2 || collider2.state != ColliderState::Solid || !may_collide(
        body1,
        &collider1,
        &collider2,
    ) {
        movement
    } else {
        resolved(
            body1,
            &collider1,
            &collider2,
            &body_at(keys, bodies, collider2.owner),
            true,
            movement,
        )
    }
}

/// The horizontal movement after the collider `h1` was resolved against the
/// colliders of the set from position `j` on, in their order.
pub open spec fn scan_x<T>(
    keys: Seq<(usize, u64)>,
    bodies: Seq<Body>,
    colliders: &ColliderSet<T>,
    body1: &Body,
    h1: ColliderHandle,
    j: int,
    movement: int,
) -> int
    decreases colliders.colliders.keys().len() - j,
{
    if j < 0 || j >= colliders.colliders.keys().len() {
        movement
    } else {
        scan_x(
            keys,
            bodies,
            colliders,
            body1,
            h1,
            j + 1,
            pair_x(keys, bodies, colliders, body1, h1, j, movement),
        )
    }
}

/// The horizontal movement after the colliders of `body1` from position `k`
/// of its list on were resolved, each solid one against the whole set.
pub open spec fn sweep_x<T>(
    keys: Seq<(usize, u64)>,
    bodies: Seq<Body>,
    colliders: &ColliderSet<T>,
    body1: &Body,
    k: int,
    movement: int,
) -> int
    decreases body1.colliders@.len() - k,
{
    if k < 0 || k >= body1.colliders@.len() {
        movement
    } else {
        let h1 = body1.colliders@[k];
        sweep_x(
            keys,
            bodies,
            colliders,
            body1,
            k + 1,
            if colliders.collider(h1).state == ColliderState::Solid {
                scan_x(keys, bodies, colliders, body1, h1, 0, movement)
            } else {
                movement
            },
        )
    }
}

/// `body` displaced by `movement` along one axis, saturating.
pub open spec fn displaced(body: Body, horizontal: bool, movement: int) -> Body {
    if horizontal {
        Body {
            position: Vec2 {
                x: saturated(body.position.x + movement) as i32,
                y: body.position.y,
            },
            ..body
        }
    } else {
        Body {
            position: Vec2 {
                x: body.position.x,
                y: saturated(body.position.y + movement) as i32,
            },
            ..body
        }
    }
}

/// The body at position `i` after its horizontal movement was resolved and
/// made. A static body stays.
pub open spec fn moved_x<T>(
    keys: Seq<(usize, u64)>,
    bodies: Seq<Body>,
    colliders: &ColliderSet<T>,
    i: int,
) -> Body {
    let body = bodies[i];
    if body.status == BodyStatus::Static {
        body
    } else {
        displaced(
            body,
            true,
            sweep_x(keys, bodies, colliders, &body, 0, body.movement.x as int),
        )
    }
}

/// The bodies after the horizontal pass over those from position `i` on:
/// each body moves in turn, and the later ones are resolved against the new
/// positions of the earlier.
pub open spec fn pass_x<T>(
    keys: Seq<(usize, u64)>,
    bodies: Seq<Body>,
    colliders: &ColliderSet<T>,
    i: int,
) -> Seq<Body>
    decreases bodies.len() - i,
{
    if i < 0 || i >= bodies.len() {
        bodies
    } else {
        pass_x(keys, bodies.update(i, moved_x(keys, bodies, colliders, i)), colliders, i + 1)
    }
}

/// Bodies that differ in position and movement only are attached as before.
pub proof fn lemma_attached_after_move<T>(
    before: &BodySet,
    after: &BodySet,
    colliders: &ColliderSet<T>,
)
    requires
        attached(before, colliders),
        after.wf(),
        after.bodies.keys() == before.bodies.keys(),
        after.bodies.values().len() == before.bodies.values().len(),
        forall|i: int|
            0 <= i < before.bodies.values().len()
                ==> (#[trigger] after.bodies.values()[i]).colliders@
                == before.bodies.values()[i].colliders@,
    ensures
        attached(after, colliders),
{
    before.bodies.lemma_keys_distinct();
    after.bodies.lemma_keys_distinct();
    colliders.colliders.lemma_keys_distinct();
    assert forall|j: int| 0 <= j < colliders.colliders.keys().len() implies after.contains(
        (#[trigger] colliders.colliders.values()[j]).owner,
    ) && after.body(colliders.colliders.values()[j].owner).colliders@.contains(
        ColliderHandle(colliders.colliders.keys()[j]),
    ) by {
        let owner = colliders.colliders.values()[j].owner;
        assert(before.contains(owner));
        let p = before.bodies.keys().index_of(owner.0);
        assert(before.bodies.keys()[p] == owner.0);
        assert(after.bodies.values()[p].colliders@ == before.bodies.values()[p].colliders@);
    }
    assert forall|i: int| 0 <= i < after.bodies.keys().len() implies owns_its_list(
        BodyHandle(after.bodies.keys()[i]),
        #[trigger] after.bodies.values()[i].colliders@,
        colliders,
    ) by {
        assert(owns_its_list(
            BodyHandle(before.bodies.keys()[i]),
            before.bodies.values()[i].colliders@,
            colliders,
        ));
    }
}

/// The horizontal pass: every body that is not static is resolved against
/// the solid colliders and moved, in the order of the set.
pub fn step_x<T>(bodies: &mut BodySet, colliders: &ColliderSet<T>)
    requires
        attached(old(bodies), colliders),
    ensures
        attached(final(bodies), colliders),
        final(bodies).bodies.keys() == old(bodies).bodies.keys(),
        final(bodies).bodies.retired() == old(bodies).bodies.retired(),
        final(bodies).bodies.removals() == old(bodies).bodies.removals(),
        final(bodies).bodies.values() == pass_x(
            old(bodies).bodies.keys(),
            old(bodies).bodies.values(),
            colliders,
            0,
        ),
{
    let ghost keys = bodies.bodies.keys();
    let n = bodies.len();
    proof {
        bodies.bodies.lemma_keys_distinct();
    }
    let mut i: usize = 0;
    while i < n
        invariant
            0 <= i <= n,
            n == keys.len(),
            attached(bodies, colliders),
            bodies.bodies.keys() == keys,
            bodies.bodies.retired() == old(bodies).bodies.retired(),
            bodies.bodies.removals() == old(bodies).bodies.removals(),
            bodies.bodies.values().len() == n,
            pass_x(keys, bodies.bodies.values(), colliders, i as int) == pass_x(
                keys,
                old(bodies).bodies.values(),
                colliders,
                0,
            ),
        decreases n - i,
    {
        let ghost before = *bodies;
        let ghost values = bodies.bodies.values();
        let body1 = bodies.bodies.value_at(i);
        if !body1.is_static() {
            let mut move_x: i64 = body1.movement.x as i64;
            let m = body1.colliders.len();
            let mut k: usize = 0;
            while k < m
                invariant
                    0 <= k <= m,
                    m == body1.colliders@.len(),
                    0 <= i < n,
                    n == keys.len(),
                    attached(bodies, colliders),
                    bodies.bodies.keys() == keys,
                    bodies.bodies.values() == values,
                    values.len() == n,
                    *body1 == values[i as int],
                    in_move_range(move_x as int),
                    sweep_x(keys, values, colliders, body1, k as int, move_x as int) == sweep_x(
                        keys,
                        values,
                        colliders,
                        body1,
                        0,
                        body1.movement.x as int,
                    ),
                decreases m - k,
            {
                let h1 = body1.colliders.get(k);
                proof {
                    assert(owns_its_list(
                        BodyHandle(bodies.bodies.keys()[i as int]),
                        bodies.bodies.values()[i as int].colliders@,
                        colliders,
                    ));
                    assert(colliders.contains(body1.colliders@[k as int]));
                }
                match colliders.get(h1) {
                    Some(collider1) => {
                        // for x step we skip sensors completely
                        if collider1.is_solid() {
                            let ghost start = move_x;
                            let count = colliders.len();
                            let mut j: usize = 0;
                            while j < count
                                invariant
                                    0 <= j <= count,
                                    count == colliders.colliders.keys().len(),
                                    attached(bodies, colliders),
                                    bodies.bodies.keys() == keys,
                                    bodies.bodies.values() == values,
                                    colliders.contains(h1),
                                    *collider1 == colliders.collider(h1),
                                    in_move_range(move_x as int),
                                    scan_x(
                                        keys,
                                        values,
                                        colliders,
                                        body1,
                                        h1,
                                        j as int,
                                        move_x as int,
                                    ) == scan_x(keys, values, colliders, body1, h1, 0, start as int),
                                decreases count - j,
                            {
                                proof {
                                    colliders.colliders.lemma_keys_distinct();
                                }
                                let h2 = ColliderHandle(colliders.colliders.key_at(j));
                                let collider2 = colliders.colliders.value_at(j);
                                // no collider colliding with itself
                                if !h1.same(&h2) && collider2.is_solid() && can_collide(
                                    body1,
                                    collider1,
                                    collider2,
                                ) {
                                    assert(bodies.contains(colliders.colliders.values()[j as int].owner));
                                    match bodies.get(collider2.owner) {
                                        Some(body2) => {
                                            move_x = resolve_axis(
                                                body1,
                                                collider1,
                                                collider2,
                                                body2,
                                                true,
                                                move_x,
                                            );
                                        },
                                        None => {},
                                    }
                                }
                                j += 1;
                            }
                        }
                    },
                    None => {},
                }
                k += 1;
            }
            let x = saturate(body1.position.x as i64 + move_x);
            let body = bodies.bodies.value_at_mut(i);
            body.position.x = x;
            proof {
                assert(bodies.bodies.values() =~= values.update(
                    i as int,
                    moved_x(keys, values, colliders, i as int),
                ));
                lemma_attached_after_move(&before, bodies, colliders);
            }
        } else {
            proof {
                assert(values.update(i as int, moved_x(keys, values, colliders, i as int)) =~= values);
            }
        }
        i += 1;
    }
}

/// The vertical movement of `body1` after its collider `h1` was resolved
/// against the collider at position `j` of the set: as it was unless both
/// are solid, are not the same, and may collide.
pub open spec fn pair_y<T>(
    keys: Seq<(usize, u64)>,
    bodies: Seq<Body>,
    colliders: &ColliderSet<T>,
    body1: &Body,
    h1: ColliderHandle,
    j: int,
    movement: int,
) -> int {
    let collider1 = colliders.collider(h1);
    let collider2 = colliders.colliders.values()[j];
    let h2 = ColliderHandle(colliders.colliders.keys()[j]);
    if h1 == h2 || !may_collide(body1, &collider1, &collider2) {
        movement
    } else if collider1.state == ColliderState::Solid && collider2.state == ColliderState::Solid {
        resolved(
            body1,
            &collider1,
            &collider2,
            &body_at(keys, bodies, collider2.owner),
            false,
            movement,
        )
    } else {
        movement
    }
}

/// Whether the collider `h1` of `body1` and the collider at position `j` of
/// the set are two colliders that may collide and whose boxes meet, with
/// the bodies where they are.
pub open spec fn pair_touches<T>(
    keys: Seq<(usize, u64)>,
    bodies: Seq<Body>,
    colliders: &ColliderSet<T>,
    body1: &Body,
    h1: ColliderHandle,
    j: int,
) -> bool {
    let collider1 = colliders.collider(h1);
    let collider2 = colliders.colliders.values()[j];
    let h2 = ColliderHandle(colliders.colliders.keys()[j]);
    let body2 = body_at(keys, bodies, collider2.owner);
    &&& h1 != h2
    &&& may_collide(body1, &collider1, &collider2)
    &&& colliding_at(
        collider1,
        body1.position.x as int,
        body1.position.y as int,
        collider2,
        body2.position.x as int,
        body2.position.y as int,
    )
}

/// The vertical movement after the collider `h1` was resolved against the
/// colliders of the set from position `j` on, in their order.
pub open spec fn scan_y<T>(
    keys: Seq<(usize, u64)>,
    bodies: Seq<Body>,
    colliders: &ColliderSet<T>,
    body1: &Body,
    h1: ColliderHandle,
    j: int,
    movement: int,
) -> int
    decreases colliders.colliders.keys().len() - j,
{
    if j < 0 || j >= colliders.colliders.keys().len() {
        movement
    } else {
        scan_y(
            keys,
            bodies,
            colliders,
            body1,
            h1,
            j + 1,
            pair_y(keys, bodies, colliders, body1, h1, j, movement),
        )
    }
}

/// The vertical movement after the colliders of `body1` from position `k`
/// of its list on were resolved, each against the whole set.
pub open spec fn sweep_y<T>(
    keys: Seq<(usize, u64)>,
    bodies: Seq<Body>,
    colliders: &ColliderSet<T>,
    body1: &Body,
    k: int,
    movement: int,
) -> int
    decreases body1.colliders@.len() - k,
{
    if k < 0 || k >= body1.colliders@.len() {
        movement
    } else {
        sweep_y(
            keys,
            bodies,
            colliders,
            body1,
            k + 1,
            scan_y(keys, bodies, colliders, body1, body1.colliders@[k], 0, movement),
        )
    }
}

/// The body at position `i` after its vertical movement was resolved and
/// made. A static body stays.
pub open spec fn moved_y<T>(
    keys: Seq<(usize, u64)>,
    bodies: Seq<Body>,
    colliders: &ColliderSet<T>,
    i: int,
) -> Body {
    let body = bodies[i];
    if body.status == BodyStatus::Static {
        body
    } else {
        displaced(
            body,
            false,
            sweep_y(keys, bodies, colliders, &body, 0, body.movement.y as int),
        )
    }
}

/// The edges after the collider `h1` of `body1` was linked to each of the
/// colliders of the set from position `j` on that it touches, in their
/// order.
pub open spec fn scan_links<T>(
    keys: Seq<(usize, u64)>,
    bodies: Seq<Body>,
    colliders: &ColliderSet<T>,
    body1: &Body,
    h1: ColliderHandle,
    j: int,
    edges: Seq<GraphEdge>,
) -> Seq<GraphEdge>
    decreases colliders.colliders.keys().len() - j,
{
    if j < 0 || j >= colliders.colliders.keys().len() {
        edges
    } else {
        scan_links(
            keys,
            bodies,
            colliders,
            body1,
            h1,
            j + 1,
            if pair_touches(keys, bodies, colliders, body1, h1, j) {
                linked(edges, h1, ColliderHandle(colliders.colliders.keys()[j]))
            } else {
                edges
            },
        )
    }
}

/// The edges after the colliders of `body1` from position `k` of its list
/// on, sensors too, were linked to the colliders that they touch.
pub open spec fn sweep_links<T>(
    keys: Seq<(usize, u64)>,
    bodies: Seq<Body>,
    colliders: &ColliderSet<T>,
    body1: &Body,
    k: int,
    edges: Seq<GraphEdge>,
) -> Seq<GraphEdge>
    decreases body1.colliders@.len() - k,
{
    if k < 0 || k >= body1.colliders@.len() {
        edges
    } else {
        sweep_links(
            keys,
            bodies,
            colliders,
            body1,
            k + 1,
            scan_links(keys, bodies, colliders, body1, body1.colliders@[k], 0, edges),
        )
    }
}

/// The bodies and the edges after the vertical pass over the bodies from
/// position `i` on. Each body that is not static first makes its resolved
/// movement; then each of its colliders is linked to the colliders that it
/// may collide with and that it touches where the body now stands. A static
/// body stays and links nothing.
pub open spec fn pass_y<T>(
    keys: Seq<(usize, u64)>,
    bodies: Seq<Body>,
    colliders: &ColliderSet<T>,
    edges: Seq<GraphEdge>,
    i: int,
) -> (Seq<Body>, Seq<GraphEdge>)
    decreases bodies.len() - i,
{
    if i < 0 || i >= bodies.len() {
        (bodies, edges)
    } else if bodies[i].status == BodyStatus::Static {
        pass_y(keys, bodies, colliders, edges, i + 1)
    } else {
        let moved = bodies.update(i, moved_y(keys, bodies, colliders, i));
        pass_y(
            keys,
            moved,
            colliders,
            sweep_links(keys, moved, colliders, &moved[i], 0, edges),
            i + 1,
        )
    }
}

/// The vertical pass: every body that is not static is resolved against the
/// solid colliders and moved, in the order of the set; and every collider of
/// such a body gets an edge to each collider that it may collide with and
/// that it touches where the body stands after this move.
pub fn step_y<T>(
    bodies: &mut BodySet,
    colliders: &ColliderSet<T>,
    collision_graph: &mut CollisionGraph,
)
    requires
        attached(old(bodies), colliders),
        graph_matches(colliders, old(collision_graph)),
    ensures
        attached(final(bodies), colliders),
        graph_matches(colliders, final(collision_graph)),
        final(bodies).bodies.keys() == old(bodies).bodies.keys(),
        final(bodies).bodies.retired() == old(bodies).bodies.retired(),
        final(bodies).bodies.removals() == old(bodies).bodies.removals(),
        final(collision_graph).nodes() == old(collision_graph).nodes(),
        (final(bodies).bodies.values(), final(collision_graph).all_edges()) == pass_y(
            old(bodies).bodies.keys(),
            old(bodies).bodies.values(),
            colliders,
            old(collision_graph).all_edges(),
            0,
        ),
{
    let ghost keys = bodies.bodies.keys();
    let n = bodies.len();
    proof {
        bodies.bodies.lemma_keys_distinct();
    }
    let mut i: usize = 0;
    while i < n
        invariant
            0 <= i <= n,
            n == keys.len(),
            attached(bodies, colliders),
            graph_matches(colliders, collision_graph),
            collision_graph.nodes() == old(collision_graph).nodes(),
            bodies.bodies.keys() == keys,
            bodies.bodies.retired() == old(bodies).bodies.retired(),
            bodies.bodies.removals() == old(bodies).bodies.removals(),
            bodies.bodies.values().len() == n,
            pass_y(
                keys,
                bodies.bodies.values(),
                colliders,
                collision_graph.all_edges(),
                i as int,
            ) == pass_y(
                keys,
                old(bodies).bodies.values(),
                colliders,
                old(collision_graph).all_edges(),
                0,
            ),
        decreases n - i,
    {
        let ghost before = *bodies;
        let ghost values = bodies.bodies.values();
        let ghost edges_before = collision_graph.all_edges();
        let body1 = bodies.bodies.value_at(i);
        if !body1.is_static() {
            // the movement is resolved and made
            let mut move_y: i64 = body1.movement.y as i64;
            let m = body1.colliders.len();
            let mut k: usize = 0;
            while k < m
                invariant
                    0 <= k <= m,
                    m == body1.colliders@.len(),
                    0 <= i < n,
                    n == keys.len(),
                    attached(bodies, colliders),
                    bodies.bodies.keys() == keys,
                    bodies.bodies.values() == values,
                    values.len() == n,
                    *body1 == values[i as int],
                    in_move_range(move_y as int),
                    sweep_y(keys, values, colliders, body1, k as int, move_y as int) == sweep_y(
                        keys,
                        values,
                        colliders,
                        body1,
                        0,
                        body1.movement.y as int,
                    ),
                decreases m - k,
            {
                let h1 = body1.colliders.get(k);
                proof {
                    assert(owns_its_list(
                        BodyHandle(bodies.bodies.keys()[i as int]),
                        bodies.bodies.values()[i as int].colliders@,
                        colliders,
                    ));
                    assert(colliders.contains(body1.colliders@[k as int]));
                }
                match colliders.get(h1) {
                    Some(collider1) => {
                        let ghost start = move_y;
                        let count = colliders.len();
                        let mut j: usize = 0;
                        while j < count
                            invariant
                                0 <= j <= count,
                                count == colliders.colliders.keys().len(),
                                attached(bodies, colliders),
                                bodies.bodies.keys() == keys,
                                bodies.bodies.values() == values,
                                colliders.contains(h1),
                                *collider1 == colliders.collider(h1),
                                in_move_range(move_y as int),
                                scan_y(
                                    keys,
                                    values,
                                    colliders,
                                    body1,
                                    h1,
                                    j as int,
                                    move_y as int,
                                ) == scan_y(keys, values, colliders, body1, h1, 0, start as int),
                            decreases count - j,
                        {
                            proof {
                                colliders.colliders.lemma_keys_distinct();
                            }
                            let h2 = ColliderHandle(colliders.colliders.key_at(j));
                            let collider2 = colliders.colliders.value_at(j);
                            // no collider colliding with itself
                            if !h1.same(&h2) && can_collide(body1, collider1, collider2)
                                && collider1.is_solid() && collider2.is_solid() {
                                assert(bodies.contains(
                                    colliders.colliders.values()[j as int].owner,
                                ));
                                match bodies.get(collider2.owner) {
                                    Some(body2) => {
                                        move_y = resolve_axis(
                                            body1,
                                            collider1,
                                            collider2,
                                            body2,
                                            false,
                                            move_y,
                                        );
                                    },
                                    None => {},
                                }
                            }
                            j += 1;
                        }
                    },
                    None => {},
                }
                k += 1;
            }
            let y = saturate(body1.position.y as i64 + move_y);
            let body = bodies.bodies.value_at_mut(i);
            body.position.y = y;
            proof {
                assert(bodies.bodies.values() =~= values.update(
                    i as int,
                    moved_y(keys, values, colliders, i as int),
                ));
                lemma_attached_after_move(&before, bodies, colliders);
            }

            // the colliders are linked to what they touch where the body stands now
            let ghost moved = bodies.bodies.values();
            let body1 = bodies.bodies.value_at(i);
            let m = body1.colliders.len();
            let mut k: usize = 0;
            while k < m
                invariant
                    0 <= k <= m,
                    m == body1.colliders@.len(),
                    0 <= i < n,
                    n == keys.len(),
                    attached(bodies, colliders),
                    graph_matches(colliders, collision_graph),
                    collision_graph.nodes() == old(collision_graph).nodes(),
                    bodies.bodies.keys() == keys,
                    bodies.bodies.values() == moved,
                    moved.len() == n,
                    *body1 == moved[i as int],
                    sweep_links(
                        keys,
                        moved,
                        colliders,
                        body1,
                        k as int,
                        collision_graph.all_edges(),
                    ) == sweep_links(keys, moved, colliders, body1, 0, edges_before),
                decreases m - k,
            {
                let h1 = body1.colliders.get(k);
                proof {
                    assert(owns_its_list(
                        BodyHandle(bodies.bodies.keys()[i as int]),
                        bodies.bodies.values()[i as int].colliders@,
                        colliders,
                    ));
                    assert(colliders.contains(body1.colliders@[k as int]));
                }
                match colliders.get(h1) {
                    Some(collider1) => {
                        let ghost start_edges = collision_graph.all_edges();
                        let count = colliders.len();
                        let mut j: usize = 0;
                        while j < count
                            invariant
                                0 <= j <= count,
                                count == colliders.colliders.keys().len(),
                                attached(bodies, colliders),
                                graph_matches(colliders, collision_graph),
                                collision_graph.nodes() == old(collision_graph).nodes(),
                                bodies.bodies.keys() == keys,
                                bodies.bodies.values() == moved,
                                colliders.contains(h1),
                                *collider1 == colliders.collider(h1),
                                scan_links(
                                    keys,
                                    moved,
                                    colliders,
                                    body1,
                                    h1,
                                    j as int,
                                    collision_graph.all_edges(),
                                ) == scan_links(
                                    keys,
                                    moved,
                                    colliders,
                                    body1,
                                    h1,
                                    0,
                                    start_edges,
                                ),
                            decreases count - j,
                        {
                            proof {
                                colliders.colliders.lemma_keys_distinct();
                            }
                            let h2 = ColliderHandle(colliders.colliders.key_at(j));
                            let collider2 = colliders.colliders.value_at(j);
                            // no collider colliding with itself
                            if !h1.same(&h2) && can_collide(body1, collider1, collider2) {
                                assert(bodies.contains(
                                    colliders.colliders.values()[j as int].owner,
                                ));
                                match bodies.get(collider2.owner) {
                                    Some(body2) => {
                                        if is_colliding(
                                            collider1,
                                            body1.position,
                                            collider2,
                                            body2.position,
                                        ) {
                                            let ghost graph_before = *collision_graph;
                                            proof {
                                                assert(colliders.contains(h2));
                                                assert(collision_graph.has_node(h1));
                                                assert(collision_graph.has_node(h2));
                                            }
                                            collision_graph.update_edge(h1, h2);
                                            proof {
                                                assert forall|h: ColliderHandle| #[trigger]
                                                    collision_graph.has_node(h)
                                                        <==> colliders.contains(h) by {
                                                    assert(graph_before.has_node(h)
                                                        <==> colliders.contains(h));
                                                }
                                            }
                                        }
                                    },
                                    None => {},
                                }
                            }
                            j += 1;
                        }
                    },
                    None => {},
                }
                k += 1;
            }
        }
        i += 1;
    }
}

} // verus!
