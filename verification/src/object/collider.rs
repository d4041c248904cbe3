//! Colliders, and the tests of two colliders against each other.

use vstd::prelude::*;
use super::body_set::BodyHandle;
use crate::collision::aabb::{
    boxes_meet, boxes_meet_wide, manifold_at, manifold_wide, ContactManifold, AABB,
};
use crate::vector::Vec2;

verus! {

/// State of the collider, determines default collision resolution and types of events sent.
#[derive(Copy, Clone, Debug, PartialEq, Eq, Structural)]
pub enum ColliderState {
    /// Solid body resolves collision.
    Solid,
    /// Sensor sends events about possible overlap.
    Sensor,
}

/// Describes a collider in the shape of a box. Attached to a body.
#[derive(Clone, Debug)]
pub struct Collider<T> {
    /// Currently the only shape is `AABB`
    pub shape: AABB,
    /// Offset from the body's position, 0 for centered
    pub offset: Vec2,
    /// Whether to treat the body as physical or not
    pub state: ColliderState,
    /// Ideally only one bit should be set
    pub category_bits: u32,
    /// Bodies only collide if both of their masks match
    pub mask_bits: u32,
    /// User supplied tag for identification
    pub user_tag: T,
    /// Body who owns the collider
    pub owner: BodyHandle,
}

impl<T> Collider<T> {
    pub fn new(
        shape: AABB,
        offset: Vec2,
        state: ColliderState,
        category_bits: u32,
        mask_bits: u32,
        user_tag: T,
        owner: BodyHandle,
    ) -> (collider: Self)
        ensures
            collider == (Collider {
                shape,
                offset,
                state,
                category_bits,
                mask_bits,
                user_tag,
                owner,
            }),
    {
        Self { shape, offset, state, category_bits, mask_bits, user_tag, owner }
    }

    /// Whether the collider resolves collisions.
    pub fn is_solid(&self) -> (r: bool)
        ensures
            r == (self.state == ColliderState::Solid),
    {
        match self.state {
            ColliderState::Solid => true,
            ColliderState::Sensor => false,
        }
    }
}

/// Whether the boxes of two colliders meet, with their bodies at `(x1, y1)`
/// and `(x2, y2)`.
pub open spec fn colliding_at<T>(
    collider1: Collider<T>,
    x1: int,
    y1: int,
    collider2: Collider<T>,
    x2: int,
    y2: int,
) -> bool {
    boxes_meet(
        x1 + collider1.offset.x,
        y1 + collider1.offset.y,
        collider1.shape.half_exts.x as int,
        collider1.shape.half_exts.y as int,
        x2 + collider2.offset.x,
        y2 + collider2.offset.y,
        collider2.shape.half_exts.x as int,
        collider2.shape.half_exts.y as int,
    )
}

/// Whether the box of the first collider, shrunk by `tolerance` on every
/// side, meets the box of the second.
pub open spec fn penetrating_at<T>(
    collider1: Collider<T>,
    x1: int,
    y1: int,
    collider2: Collider<T>,
    x2: int,
    y2: int,
    tolerance: int,
) -> bool {
    boxes_meet(
        x1 + collider1.offset.x,
        y1 + collider1.offset.y,
        collider1.shape.half_exts.x - tolerance,
        collider1.shape.half_exts.y - tolerance,
        x2 + collider2.offset.x,
        y2 + collider2.offset.y,
        collider2.shape.half_exts.x as int,
        collider2.shape.half_exts.y as int,
    )
}

/// The manifold of the boxes of two colliders, with their bodies at
/// `position1` and `position2`.
pub open spec fn manifold_between<T>(
    collider1: Collider<T>,
    position1: Vec2,
    collider2: Collider<T>,
    position2: Vec2,
) -> Option<ContactManifold> {
    manifold_at(
        position1.x + collider1.offset.x,
        position1.y + collider1.offset.y,
        collider1.shape.half_exts.x as int,
        collider1.shape.half_exts.y as int,
        position2.x + collider2.offset.x,
        position2.y + collider2.offset.y,
        collider2.shape.half_exts.x as int,
        collider2.shape.half_exts.y as int,
    )
}

/// Bound on the position of a body that is being moved within a step.
pub open spec fn in_step_range(v: int) -> bool {
    -0x10_0000_0000 <= v <= 0x10_0000_0000
}

/// The penetration test with the first body at a wide position.
pub(crate) fn penetrating_wide<T>(
    collider1: &Collider<T>,
    x1: i64,
    y1: i64,
    collider2: &Collider<T>,
    position2: Vec2,
    tolerance: i32,
) -> (r: bool)
    requires
        in_step_range(x1 as int),
        in_step_range(y1 as int),
    ensures
        r == penetrating_at(
            *collider1,
            x1 as int,
            y1 as int,
            *collider2,
            position2.x as int,
            position2.y as int,
            tolerance as int,
        ),
{
    boxes_meet_wide(
        x1 + collider1.offset.x as i64,
        y1 + collider1.offset.y as i64,
        collider1.shape.half_exts.x as i64 - tolerance as i64,
        collider1.shape.half_exts.y as i64 - tolerance as i64,
        position2.x as i64 + collider2.offset.x as i64,
        position2.y as i64 + collider2.offset.y as i64,
        collider2.shape.half_exts.x as i64,
        collider2.shape.half_exts.y as i64,
    )
}

/// Boolean test whether two `Colliders` collided.
pub fn is_colliding<T>(
    collider1: &Collider<T>,
    position1: Vec2,
    collider2: &Collider<T>,
    position2: Vec2,
) -> (r: bool)
    ensures
        r == colliding_at(
            *collider1,
            position1.x as int,
            position1.y as int,
            *collider2,
            position2.x as int,
            position2.y as int,
        ),
{
    // apply offset
    boxes_meet_wide(
        position1.x as i64 + collider1.offset.x as i64,
        position1.y as i64 + collider1.offset.y as i64,
        collider1.shape.half_exts.x as i64,
        collider1.shape.half_exts.y as i64,
        position2.x as i64 + collider2.offset.x as i64,
        position2.y as i64 + collider2.offset.y as i64,
        collider2.shape.half_exts.x as i64,
        collider2.shape.half_exts.y as i64,
    )
}

/// Tests whether the first collider, shrunk by `tolerance`, still meets the
/// second: whether it has sunk into it rather than grazing it.
pub fn is_penetrating<T>(
    collider1: &Collider<T>,
    position1: Vec2,
    collider2: &Collider<T>,
    position2: Vec2,
    tolerance: i32,
) -> (r: bool)
    ensures
        r == penetrating_at(
            *collider1,
            position1.x as int,
            position1.y as int,
            *collider2,
            position2.x as int,
            position2.y as int,
            tolerance as int,
        ),
{
    penetrating_wide(
        collider1,
        position1.x as i64,
        position1.y as i64,
        collider2,
        position2,
        tolerance,
    )
}

/// Generates a ContactManifold if two `Colliders` collided.
pub fn collision_manifold<T>(
    collider1: &Collider<T>,
    position1: Vec2,
    collider2: &Collider<T>,
    position2: Vec2,
) -> (r: Option<ContactManifold>)
    ensures
        r == manifold_between(*collider1, position1, *collider2, position2),
{
    // apply offset
    manifold_wide(
        position1.x as i64 + collider1.offset.x as i64,
        position1.y as i64 + collider1.offset.y as i64,
        collider1.shape.half_exts.x as i64,
        collider1.shape.half_exts.y as i64,
        position2.x as i64 + collider2.offset.x as i64,
        position2.y as i64 + collider2.offset.y as i64,
        collider2.shape.half_exts.x as i64,
        collider2.shape.half_exts.y as i64,
    )
}

} // verus!
