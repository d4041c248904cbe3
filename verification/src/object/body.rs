//! Bodies.

use vstd::prelude::*;
use super::collider_set::ColliderHandle;
use super::handle_arena::swap_removed;
use crate::vector::Vec2;

verus! {

/// Status of the body, determines how it's affected by other bodies.
#[derive(Copy, Clone, Debug, PartialEq, Eq, Structural)]
pub enum BodyStatus {
    /// Never moves, and so never collides with anything of its own accord.
    Static,
    /// Moves by its velocity and is stopped by solid colliders.
    Kinematic,
}

/// The list of the colliders of a body, in the order in which they were
/// attached. It can be read by all; only the world writes it, as colliders
/// come and go.
#[derive(Clone, Debug)]
pub struct ColliderList {
    handles: Vec<ColliderHandle>,
}

impl View for ColliderList {
    type V = Seq<ColliderHandle>;

    closed spec fn view(&self) -> Seq<ColliderHandle> {
        self.handles@
    }
}

impl ColliderList {
    /// A list without handles.
    pub(crate) fn new() -> (list: Self)
        ensures
            list@ == Seq::<ColliderHandle>::empty(),
    {
        ColliderList { handles: Vec::new() }
    }

    /// Number of handles on the list.
    pub fn len(&self) -> (n: usize)
        ensures
            n == self@.len(),
    {
        self.handles.len()
    }

    /// Whether the list is empty.
    pub fn is_empty(&self) -> (r: bool)
        ensures
            r == (self@.len() == 0),
    {
        self.handles.len() == 0
    }

    /// The handle at a position of the list.
    pub fn get(&self, i: usize) -> (handle: ColliderHandle)
        requires
            i < self@.len(),
        ensures
            handle == self@[i as int],
    {
        self.handles[i]
    }

    /// The handles of the list, in its order.
    pub fn handles(&self) -> (all: &Vec<ColliderHandle>)
        ensures
            all@ == self@,
    {
        &self.handles
    }

    /// Appends a handle.
    pub(crate) fn push(&mut self, handle: ColliderHandle)
        ensures
            final(self)@ == old(self)@.push(handle),
    {
        self.handles.push(handle);
    }

    /// Takes out the handle at a position and moves the last handle into
    /// its place.
    pub(crate) fn swap_remove(&mut self, i: usize) -> (handle: ColliderHandle)
        requires
            i < old(self)@.len(),
        ensures
            handle == old(self)@[i as int],
            final(self)@ == swap_removed(old(self)@, i as int),
    {
        self.handles.swap_remove(i)
    }

    /// Empties the list.
    pub(crate) fn clear(&mut self)
        ensures
            final(self)@ == Seq::<ColliderHandle>::empty(),
    {
        self.handles.clear();
    }
}

/// Describes a body.
///
/// It functions as a container for colliders.
#[derive(Clone, Debug)]
pub struct Body {
    pub position: Vec2,
    /// A static body may have a velocity; it behaves as if it had infinite
    /// mass and does not move.
    pub velocity: Vec2,
    /// The displacement that the body is still to make in the current step.
    pub movement: Vec2,
    /// Type of body - `static` or `kinematic`
    pub status: BodyStatus,
    /// Whether colliders of the same body should collide
    pub self_collide: bool,
    /// Cached list of the colliders that belong to the body. The world keeps
    /// it.
    pub colliders: ColliderList,
}

impl Body {
    /// Whether two bodies agree in all but their position and movement.
    pub open spec fn same_but_place(&self, other: &Body) -> bool {
        &&& self.velocity == other.velocity
        &&& self.status == other.status
        &&& self.self_collide == other.self_collide
        &&& self.colliders@ == other.colliders@
    }

    /// Whether two bodies agree in all but their list of colliders.
    pub open spec fn same_but_list(&self, other: &Body) -> bool {
        &&& self.position == other.position
        &&& self.velocity == other.velocity
        &&& self.movement == other.movement
        &&& self.status == other.status
        &&& self.self_collide == other.self_collide
    }

    /// A body without colliders and without a movement to make.
    pub fn new(position: Vec2, velocity: Vec2, status: BodyStatus, self_collide: bool) -> (body:
        Self)
        ensures
            body.position == position,
            body.velocity == velocity,
            body.movement == (Vec2 { x: 0, y: 0 }),
            body.status == status,
            body.self_collide == self_collide,
            body.colliders@ == Seq::<ColliderHandle>::empty(),
    {
        Self {
            position,
            velocity,
            movement: Vec2::zero(),
            status,
            self_collide,
            colliders: ColliderList::new(),
        }
    }

    /// Whether the body never moves.
    pub fn is_static(&self) -> (r: bool)
        ensures
            r == (self.status == BodyStatus::Static),
    {
        match self.status {
            BodyStatus::Static => true,
            BodyStatus::Kinematic => false,
        }
    }
}

} // verus!
