//! The events that report where contacts begin and end.

use vstd::prelude::*;
use super::object::{Collider, ColliderHandle, ColliderState};

verus! {

/// Event generated by the collision engine.
/// In case of an overlap between a solid body and sensor the solid body is
/// guaranteed to be the first handle.
#[derive(Debug, Clone, Copy, PartialEq, Eq)]
pub enum ContactEvent<T> {
    OverlapStarted(ColliderHandle, ColliderHandle, T, T),
    OverlapEnded(ColliderHandle, ColliderHandle, T, T),
    CollisionStarted(ColliderHandle, ColliderHandle, T, T),
    CollisionEnded(ColliderHandle, ColliderHandle, T, T),
}

impl<T: Copy> ContactEvent<T> {
    /// The event for the start of a contact of two colliders: a collision
    /// between two solids, an overlap otherwise. Of a solid and a sensor the
    /// solid comes first; else the handles keep their order.
    pub open spec fn started(
        h1: ColliderHandle,
        collider1: Collider<T>,
        h2: ColliderHandle,
        collider2: Collider<T>,
    ) -> ContactEvent<T> {
        match (collider1.state, collider2.state) {
            (ColliderState::Solid, ColliderState::Solid) => ContactEvent::CollisionStarted(
                h1,
                h2,
                collider1.user_tag,
                collider2.user_tag,
            ),
            (ColliderState::Sensor, ColliderState::Solid) => ContactEvent::OverlapStarted(
                h2,
                h1,
                collider2.user_tag,
                collider1.user_tag,
            ),
            _ => ContactEvent::OverlapStarted(h1, h2, collider1.user_tag, collider2.user_tag),
        }
    }

    /// The event with `Started` turned into `Ended`.
    pub open spec fn finished(self) -> ContactEvent<T> {
        match self {
            ContactEvent::OverlapStarted(h1, h2, t1, t2) => ContactEvent::OverlapEnded(
                h1,
                h2,
                t1,
                t2,
            ),
            ContactEvent::CollisionStarted(h1, h2, t1, t2) => ContactEvent::CollisionEnded(
                h1,
                h2,
                t1,
                t2,
            ),
            _ => self,
        }
    }

    /// Whether the event reports the start of a contact.
    pub open spec fn is_start(self) -> bool {
        self is OverlapStarted || self is CollisionStarted
    }

    /// The two tags of the event, in its order.
    pub open spec fn tags(self) -> (T, T) {
        match self {
            ContactEvent::OverlapStarted(_, _, t1, t2) => (t1, t2),
            ContactEvent::OverlapEnded(_, _, t1, t2) => (t1, t2),
            ContactEvent::CollisionStarted(_, _, t1, t2) => (t1, t2),
            ContactEvent::CollisionEnded(_, _, t1, t2) => (t1, t2),
        }
    }

    /// The two handles of the event, in its order.
    pub open spec fn handles(self) -> (ColliderHandle, ColliderHandle) {
        match self {
            ContactEvent::OverlapStarted(h1, h2, _, _) => (h1, h2),
            ContactEvent::OverlapEnded(h1, h2, _, _) => (h1, h2),
            ContactEvent::CollisionStarted(h1, h2, _, _) => (h1, h2),
            ContactEvent::CollisionEnded(h1, h2, _, _) => (h1, h2),
        }
    }

    /// The event for the start of the contact of two colliders; see
    /// [`ContactEvent::started`].
    pub fn new(
        h1: ColliderHandle,
        collider1: &Collider<T>,
        h2: ColliderHandle,
        collider2: &Collider<T>,
    ) -> (event: ContactEvent<T>)
        ensures
            event == Self::started(h1, *collider1, h2, *collider2),
    {
        match (&collider1.state, &collider2.state) {
            (ColliderState::Solid, ColliderState::Solid) => {
                ContactEvent::CollisionStarted(h1, h2, collider1.user_tag, collider2.user_tag)
            },
            (ColliderState::Solid, ColliderState::Sensor) => {
                ContactEvent::OverlapStarted(h1, h2, collider1.user_tag, collider2.user_tag)
            },
            (ColliderState::Sensor, ColliderState::Solid) => {
                ContactEvent::OverlapStarted(h2, h1, collider2.user_tag, collider1.user_tag)
            },
            (ColliderState::Sensor, ColliderState::Sensor) => {
                ContactEvent::OverlapStarted(h1, h2, collider1.user_tag, collider2.user_tag)
            },
        }
    }

    /// Changes started events into ended.
    pub fn into_finished(self) -> (event: ContactEvent<T>)
        ensures
            event == self.finished(),
    {
        match self {
            Self::OverlapStarted(h1, h2, t1, t2) => Self::OverlapEnded(h1, h2, t1, t2),
            Self::CollisionStarted(h1, h2, t1, t2) => Self::CollisionEnded(h1, h2, t1, t2),
            _ => self,
        }
    }
}

/// A list of events. It can be read by all; only the world writes it.
pub struct EventLog<T> {
    list: Vec<ContactEvent<T>>,
}

impl<T> View for EventLog<T> {
    type V = Seq<ContactEvent<T>>;

    closed spec fn view(&self) -> Seq<ContactEvent<T>> {
        self.list@
    }
}

impl<T> EventLog<T> {
    /// A list without events, with room for `n`.
    pub(crate) fn with_capacity(n: usize) -> (log: Self)
        ensures
            log@ == Seq::<ContactEvent<T>>::empty(),
    {
        EventLog { list: Vec::with_capacity(n) }
    }

    /// The events of the list, in its order.
    pub fn as_vec(&self) -> (all: &Vec<ContactEvent<T>>)
        ensures
            all@ == self@,
    {
        &self.list
    }

    /// Appends an event.
    pub(crate) fn push(&mut self, event: ContactEvent<T>)
        ensures
            final(self)@ == old(self)@.push(event),
    {
        self.list.push(event);
    }

    /// Empties the list.
    pub(crate) fn clear(&mut self)
        ensures
            final(self)@ == Seq::<ContactEvent<T>>::empty(),
    {
        self.list.clear();
    }

    /// Moves the events of `other` to the end of this list.
    pub(crate) fn append(&mut self, other: &mut EventLog<T>)
        ensures
            final(self)@ == old(self)@ + old(other)@,
            final(other)@ == Seq::<ContactEvent<T>>::empty(),
    {
        self.list.append(&mut other.list);
    }
}

} // verus!
