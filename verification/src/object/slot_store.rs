//! The arena of `generational_arena`, as the store of handles uses it.
//! The contracts of the functions in this file are not proved: they state
//! what the code of that crate does.

use vstd::prelude::*;
use generational_arena::{Arena, Index};

verus! {

// `generational_arena::Arena`, opaque.
#[verifier::external_type_specification]
#[verifier::external_body]
#[verifier::reject_recursive_types(T)]
pub struct ExArena<T>(Arena<T>);

/// What an arena of positions holds: for each live key, given as its slot
/// number and its generation, the position stored under it.
pub uninterp spec fn arena_slots(a: Arena<usize>) -> Map<(usize, u64), usize>;

/// The generation of an arena: the number of its removals so far, which is
/// the generation that the next key gets.
pub uninterp spec fn arena_generation(a: Arena<usize>) -> u64;

/// The room of an arena: the number of its slots, free and taken, which is
/// the number of values that it holds without growing.
pub uninterp spec fn arena_room(a: Arena<usize>) -> usize;

/// The room of an arena after an insertion, where it had `room` slots of
/// which `live` were taken: as it was while a slot was free; else twice
/// that, or one slot where there was none.
pub open spec fn room_after_insert(live: nat, room: usize) -> int {
    if live < room {
        room as int
    } else if room == 0 {
        1
    } else {
        2 * room
    }
}

/// Whether `n` slots are within the limit that Rust sets on the size of one
/// allocation, `isize::MAX` bytes; a slot of an arena of positions takes at
/// most 32 bytes.
pub open spec fn slots_fit(n: usize) -> bool {
    n * 32 <= isize::MAX
}

/// The contents of an arena that holds nothing.
pub open spec fn no_slots() -> Map<(usize, u64), usize> {
    Map::empty()
}

/// `Arena::with_capacity`: the new arena holds nothing, is in its first
/// generation, and has `n` slots, or one slot where `n` is zero. It panics
/// where the slots exceed the size of an allocation.
#[verifier::external_body]
pub(crate) fn arena_with_capacity(n: usize) -> (arena: Arena<usize>)
    requires
        slots_fit(n),
    ensures
        arena_slots(arena) == no_slots(),
        arena_generation(arena) == 0,
        arena_room(arena) == if n == 0 { 1usize } else { n },
{
    Arena::with_capacity(n)
}

/// `Arena::insert`: stores `value` in a slot that was free, so that no key
/// that was live has the slot number of the new key, and returns the new
/// key, which is of the arena's generation. The other entries and the
/// generation stay as they are. Where no slot was free, the arena first
/// grows to twice its slots.
#[verifier::external_body]
pub(crate) fn arena_insert(a: &mut Arena<usize>, value: usize) -> (key: (usize, u64))
    ensures
        forall|generation: u64| !arena_slots(*old(a)).dom().contains((key.0, generation)),
        key.1 == arena_generation(*old(a)),
        arena_slots(*final(a)) == arena_slots(*old(a)).insert(key, value),
        arena_generation(*final(a)) == arena_generation(*old(a)),
        arena_room(*final(a)) == room_after_insert(
            arena_slots(*old(a)).dom().len(),
            arena_room(*old(a)),
        ),
{
    a.insert(value).into_raw_parts()
}

/// `Arena::get`: the position stored under `key`, if the key is live, which
/// asks for the slot to be occupied in the key's generation.
#[verifier::external_body]
pub(crate) fn arena_get(a: &Arena<usize>, key: (usize, u64)) -> (r: Option<usize>)
    ensures
        r == if arena_slots(*a).dom().contains(key) {
            Some(arena_slots(*a)[key])
        } else {
            None::<usize>
        },
{
    a.get(Index::from_raw_parts(key.0, key.1)).copied()
}

/// `Arena::remove`: frees the slot of a live key, returns what it held and
/// goes on to the next generation; leaves the arena as it is and returns
/// `None` for any other key. The generation is a `u64` that the arena adds
/// one to, so it must not be the last.
#[verifier::external_body]
pub(crate) fn arena_remove(a: &mut Arena<usize>, key: (usize, u64)) -> (r: Option<usize>)
    requires
        arena_generation(*old(a)) < u64::MAX,
    ensures
        arena_generation(*final(a)) == if arena_slots(*old(a)).dom().contains(key) {
            arena_generation(*old(a)) + 1
        } else {
            arena_generation(*old(a)) as int
        },
        r == if arena_slots(*old(a)).dom().contains(key) {
            Some(arena_slots(*old(a))[key])
        } else {
            None::<usize>
        },
        arena_slots(*final(a)) == arena_slots(*old(a)).remove(key),
        arena_room(*final(a)) == arena_room(*old(a)),
{
    a.remove(Index::from_raw_parts(key.0, key.1))
}

/// `IndexMut::index_mut` of `Arena`, assigned through: replaces the position
/// stored under a live key.
#[verifier::external_body]
pub(crate) fn arena_replace(a: &mut Arena<usize>, key: (usize, u64), value: usize)
    requires
        arena_slots(*old(a)).dom().contains(key),
    ensures
        arena_slots(*final(a)) == arena_slots(*old(a)).insert(key, value),
        arena_generation(*final(a)) == arena_generation(*old(a)),
        arena_room(*final(a)) == arena_room(*old(a)),
{
    a[Index::from_raw_parts(key.0, key.1)] = value;
}

/// `Arena::capacity`: the number of slots.
#[verifier::external_body]
pub(crate) fn arena_capacity(a: &Arena<usize>) -> (n: usize)
    ensures
        n == arena_room(*a),
{
    a.capacity()
}

} // verus!
