//! Builders for bodies and colliders.

use vstd::prelude::*;
use super::{Body, BodyHandle, BodyStatus, Collider, ColliderState};
use crate::collision::aabb::AABB;
use crate::vector::Vec2;

verus! {

/// Builder for the `Body`. Start with `new`, finish with `build`.
#[derive(Debug, Clone)]
pub struct BodyDesc {
    pub position: Vec2,
    pub velocity: Vec2,
    pub status: BodyStatus,
    pub self_collide: bool,
}

impl BodyDesc {
    /// A kinematic body at rest at the origin, whose colliders collide with
    /// each other.
    pub fn new() -> (desc: Self)
        ensures
            desc == (BodyDesc {
                position: Vec2 { x: 0, y: 0 },
                velocity: Vec2 { x: 0, y: 0 },
                status: BodyStatus::Kinematic,
                self_collide: true,
            }),
    {
        Self {
            position: Vec2::zero(),
            velocity: Vec2::zero(),
            status: BodyStatus::Kinematic,
            self_collide: true,
        }
    }

    pub fn with_position(self, position: Vec2) -> (desc: Self)
        ensures
            desc == (BodyDesc { position, ..self }),
    {
        let mut desc = self;
        desc.position = position;
        desc
    }

    pub fn with_velocity(self, velocity: Vec2) -> (desc: Self)
        ensures
            desc == (BodyDesc { velocity, ..self }),
    {
        let mut desc = self;
        desc.velocity = velocity;
        desc
    }

    pub fn make_static(self) -> (desc: Self)
        ensures
            desc == (BodyDesc { status: BodyStatus::Static, ..self }),
    {
        let mut desc = self;
        desc.status = BodyStatus::Static;
        desc
    }

    pub fn self_collision(self, check: bool) -> (desc: Self)
        ensures
            desc == (BodyDesc { self_collide: check, ..self }),
    {
        let mut desc = self;
        desc.self_collide = check;
        desc
    }

    pub fn build(self) -> (body: Body)
        ensures
            body.position == self.position,
            body.velocity == self.velocity,
            body.movement == (Vec2 { x: 0, y: 0 }),
            body.status == self.status,
            body.self_collide == self.self_collide,
            body.colliders@.len() == 0,
    {
        Body::new(self.position, self.velocity, self.status, self.self_collide)
    }
}

/// Builder for the `Collider`. Start with `new`, finish with `build`.
#[derive(Debug, Clone)]
pub struct ColliderDesc<T> {
    pub shape: AABB,
    pub offset: Vec2,
    pub state: ColliderState,
    pub category_bits: u32,
    pub mask_bits: u32,
    pub user_tag: T,
}

impl<T: Copy> ColliderDesc<T> {
    /// A solid collider centred on its body, of the first category, that
    /// collides with every category.
    pub fn new(shape: AABB, user_tag: T) -> (desc: Self)
        ensures
            desc == (ColliderDesc {
                shape,
                offset: Vec2 { x: 0, y: 0 },
                state: ColliderState::Solid,
                category_bits: 1,
                mask_bits: u32::MAX,
                user_tag,
            }),
    {
        Self {
            shape,
            offset: Vec2::zero(),
            state: ColliderState::Solid,
            category_bits: 1,
            mask_bits: u32::MAX,
            user_tag,
        }
    }

    pub fn with_shape(self, shape: AABB) -> (desc: Self)
        ensures
            desc == (ColliderDesc { shape, ..self }),
    {
        let mut desc = self;
        desc.shape = shape;
        desc
    }

    pub fn with_offset(self, offset: Vec2) -> (desc: Self)
        ensures
            desc == (ColliderDesc { offset, ..self }),
    {
        let mut desc = self;
        desc.offset = offset;
        desc
    }

    pub fn sensor(self) -> (desc: Self)
        ensures
            desc == (ColliderDesc { state: ColliderState::Sensor, ..self }),
    {
        let mut desc = self;
        desc.state = ColliderState::Sensor;
        desc
    }

    pub fn with_category(self, category_bits: u32) -> (desc: Self)
        ensures
            desc == (ColliderDesc { category_bits, ..self }),
    {
        let mut desc = self;
        desc.category_bits = category_bits;
        desc
    }

    pub fn with_mask(self, mask_bits: u32) -> (desc: Self)
        ensures
            desc == (ColliderDesc { mask_bits, ..self }),
    {
        let mut desc = self;
        desc.mask_bits = mask_bits;
        desc
    }

    pub fn with_tag(self, user_tag: T) -> (desc: Self)
        ensures
            desc == (ColliderDesc { user_tag, ..self }),
    {
        let mut desc = self;
        desc.user_tag = user_tag;
        desc
    }

    pub fn build(self, owner: BodyHandle) -> (collider: Collider<T>)
        ensures
            collider == (Collider {
                shape: self.shape,
                offset: self.offset,
                state: self.state,
                category_bits: self.category_bits,
                mask_bits: self.mask_bits,
                user_tag: self.user_tag,
                owner,
            }),
    {
        Collider::new(
            self.shape,
            self.offset,
            self.state,
            self.category_bits,
            self.mask_bits,
            self.user_tag,
            owner,
        )
    }
}

} // verus!
