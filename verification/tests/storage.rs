use resphys::builder::{BodyDesc, ColliderDesc};
use resphys::{
    Body, BodyHandle, BodySet, BodyStatus, Collider, ColliderHandle, ColliderSet, ColliderState,
    CollisionGraph, CollisionInfo, Contact, HandleArena, Interaction, Vec2, AABB, SCALE,
};

#[test]
fn arena_hands_out_keys_and_finds_values() {
    let mut arena: HandleArena<u32> = HandleArena::new();
    let a = arena.insert(10);
    let b = arena.insert(20);
    let c = arena.insert(30);
    assert_eq!(arena.len(), 3);
    assert_ne!(a, b);
    assert_ne!(b, c);
    assert_eq!(arena.get(a), Some(&10));
    assert_eq!(arena.get(b), Some(&20));
    assert_eq!(arena.get(c), Some(&30));
    assert_eq!(arena.index_of(b), Some(1));
    assert_eq!(arena.key_at(2), c);
    assert_eq!(*arena.value_at(0), 10);
    assert_eq!(arena.get((99, 0)), None);
    assert_eq!(arena.get((a.0, a.1 + 1)), None);
}

#[test]
fn arena_removal_moves_the_last_value_into_the_gap() {
    let mut arena: HandleArena<u32> = HandleArena::with_capacity(2);
    let a = arena.insert(10);
    let b = arena.insert(20);
    let c = arena.insert(30);
    assert_eq!(arena.remove(a), Some(10));
    assert_eq!(arena.len(), 2);
    assert_eq!(arena.key_at(0), c);
    assert_eq!(arena.key_at(1), b);
    assert_eq!(arena.index_of(c), Some(0));
    assert_eq!(arena.get(c), Some(&30));
    assert_eq!(arena.get(b), Some(&20));
    assert_eq!(arena.get(a), None);
    assert_eq!(arena.remove(a), None);
    assert_eq!(arena.remove(b), Some(20));
    assert_eq!(arena.remove(c), Some(30));
    assert_eq!(arena.len(), 0);
}

#[test]
fn arena_uses_a_slot_again_under_a_new_generation() {
    let mut arena: HandleArena<u32> = HandleArena::new();
    let a = arena.insert(1);
    assert_eq!(arena.remove(a), Some(1));
    let b = arena.insert(2);
    assert_eq!(b.0, a.0);
    assert_ne!(b.1, a.1);
    assert_eq!(arena.get(a), None);
    assert_eq!(arena.get(b), Some(&2));
}

#[test]
fn arena_values_can_be_changed_in_place() {
    let mut arena: HandleArena<u32> = HandleArena::new();
    let a = arena.insert(1);
    let b = arena.insert(2);
    *arena.get_mut(b).unwrap() = 7;
    *arena.value_at_mut(0) += 4;
    assert_eq!(arena.get(a), Some(&5));
    assert_eq!(arena.get(b), Some(&7));
    assert!(arena.get_mut((5, 5)).is_none());
}

#[test]
fn body_set_keeps_bodies_in_order() {
    let mut bodies = BodySet::new();
    let a = bodies.insert(Body::new(
        Vec2::new(1, 2),
        Vec2::new(3, 4),
        BodyStatus::Kinematic,
        true,
    ));
    let b = bodies.insert(BodyDesc::new().make_static().build());
    assert_eq!(bodies.len(), 2);
    assert_eq!(bodies.get(a).unwrap().position, Vec2::new(1, 2));
    assert_eq!(bodies.get(b).unwrap().status, BodyStatus::Static);
    bodies.get_mut(a).unwrap().velocity = Vec2::new(9, 9);
    let all = bodies.iter();
    assert_eq!(all.len(), 2);
    assert_eq!(all[0].0, a);
    assert_eq!(all[0].1.velocity, Vec2::new(9, 9));
    assert_eq!(all[1].0, b);
    assert!(bodies.get(BodyHandle((5, 0))).is_none());
    assert!(a.same(&a));
    assert!(!a.same(&b));
}

#[test]
fn collider_set_insert_attaches_and_adds_a_node() {
    let mut bodies = BodySet::new();
    let mut colliders: ColliderSet<u8> = ColliderSet::new();
    let mut graph = CollisionGraph::with_capacity(4, 4);
    let owner = bodies.insert(BodyDesc::new().build());
    let shape = AABB { half_exts: Vec2::new(1, 1) };
    let a = colliders
        .insert(ColliderDesc::new(shape, 1).build(owner), &mut bodies, &mut graph)
        .unwrap();
    let b = colliders
        .insert(ColliderDesc::new(shape, 2).sensor().build(owner), &mut bodies, &mut graph)
        .unwrap();
    assert_eq!(*bodies.get(owner).unwrap().colliders.handles(), vec![a, b]);
    assert_eq!(bodies.get(owner).unwrap().colliders.len(), 2);
    assert_eq!(bodies.get(owner).unwrap().colliders.get(1), b);
    assert_eq!(graph.node_count(), 2);
    assert_eq!(graph.get_node_index(a), Some(0));
    assert_eq!(graph.get_node_index(b), Some(1));
    assert_eq!(colliders.len(), 2);
    assert_eq!(colliders.get(b).unwrap().state, ColliderState::Sensor);
    colliders.get_mut(a).unwrap().mask_bits = 6;
    let all = colliders.iter();
    assert_eq!((all[0].0, all[0].1.mask_bits), (a, 6));
    assert_eq!((all[1].0, all[1].1.user_tag), (b, 2));

    let nobody = BodyHandle((owner.0 .0 + 1, 0));
    let orphan: Collider<u8> = ColliderDesc::new(shape, 3).build(nobody);
    assert!(colliders.insert(orphan, &mut bodies, &mut graph).is_none());
    assert_eq!(colliders.len(), 2);
    assert_eq!(graph.node_count(), 2);
}

#[test]
fn graph_edges_are_made_once_and_listed_from_both_ends() {
    let mut graph = CollisionGraph::with_capacity(4, 4);
    let a = ColliderHandle((0, 0));
    let b = ColliderHandle((1, 0));
    let c = ColliderHandle((2, 5));
    graph.add_node(a);
    graph.add_node(b);
    graph.add_node(c);
    graph.update_edge(a, b);
    graph.update_edge(b, a);
    graph.update_edge(c, a);
    assert_eq!(graph.edge_count(), 2);
    let first = graph.edge(0);
    assert_eq!((first.first, first.second, first.interaction), (a, b, None));
    let second = graph.edge(1);
    assert_eq!((second.first, second.second), (c, a));

    // an edge that is not classified is a neighbor, but no interaction
    let mut around = graph.neighbors(a);
    around.sort();
    assert_eq!(around, vec![b, c]);
    assert!(graph.edges(a).is_empty());

    graph.set_interaction(1, Some(Interaction::Overlap));
    assert_eq!(graph.edges(a), vec![(c, Interaction::Overlap)]);
    assert_eq!(graph.edges(c), vec![(a, Interaction::Overlap)]);
    assert!(graph.edges(b).is_empty());
    assert_eq!(graph.neighbors(b), vec![a]);
    assert!(graph.neighbors(ColliderHandle((9, 9))).is_empty());
}

#[test]
fn graph_removes_edges_by_their_ends() {
    let mut graph = CollisionGraph::with_capacity(4, 4);
    let a = ColliderHandle((0, 0));
    let b = ColliderHandle((1, 0));
    let c = ColliderHandle((2, 0));
    graph.add_node(a);
    graph.add_node(b);
    graph.add_node(c);
    graph.update_edge(a, b);
    graph.update_edge(b, c);
    graph.update_edge(c, a);
    assert!(graph.remove_edge_between(b, a));
    assert!(!graph.remove_edge_between(a, b));
    assert_eq!(graph.edge_count(), 2);
    // the last edge took the place of the removed one
    let moved = graph.edge(0);
    assert_eq!((moved.first, moved.second), (c, a));
    let kept = graph.edge(1);
    assert_eq!((kept.first, kept.second), (b, c));
    assert!(!graph.remove_edge_between(a, ColliderHandle((7, 7))));
}

#[test]
fn graph_rebinds_the_node_that_moves_on_removal() {
    let mut graph = CollisionGraph::with_capacity(4, 4);
    let a = ColliderHandle((0, 0));
    let b = ColliderHandle((1, 0));
    let c = ColliderHandle((2, 0));
    graph.add_node(a);
    graph.add_node(b);
    graph.add_node(c);
    graph.update_edge(a, b);
    graph.update_edge(b, c);
    graph.set_interaction(1, Some(Interaction::Overlap));
    graph.remove_node(a);
    assert_eq!(graph.node_count(), 2);
    assert_eq!(graph.edge_count(), 1);
    assert_eq!(graph.get_node_index(a), None);
    assert_eq!(graph.get_node_index(c), Some(0));
    assert_eq!(graph.get_node_index(b), Some(1));
    let edge = graph.edge(0);
    assert_eq!((edge.first, edge.second, edge.interaction), (b, c, Some(Interaction::Overlap)));
    assert_eq!(graph.edges(c), vec![(b, Interaction::Overlap)]);
    // the slot of the removed handle can be bound again
    let again = ColliderHandle((0, 1));
    graph.add_node(again);
    assert_eq!(graph.get_node_index(again), Some(2));
    assert_eq!(graph.get_node_index(a), None);
}

#[test]
fn interaction_accessors() {
    let contact = Contact::new(4, Vec2::new(SCALE, 0), Vec2::new(1, 2));
    let info = CollisionInfo::from(&contact);
    assert_eq!(info, CollisionInfo { depth: 4, normal: Vec2::new(SCALE, 0), contact_point: Vec2::new(1, 2) });
    let collision = Interaction::Collision(info);
    assert_eq!(collision.collision(), Some(&info));
    assert!(!collision.is_overlap());
    assert_eq!(Interaction::Overlap.collision(), None);
    assert!(Interaction::Overlap.is_overlap());
}

#[test]
fn arena_counts_its_removals() {
    let mut arena: HandleArena<u8> = HandleArena::new();
    assert!(!arena.is_exhausted());
    assert_eq!(arena.removals_left(), u64::MAX);
    let a = arena.insert(1);
    assert_eq!(a.1, 0);
    assert_eq!(arena.remove(a), Some(1));
    assert_eq!(arena.removals_left(), u64::MAX - 1);
    // a removal that does not take place is not counted
    assert_eq!(arena.remove(a), None);
    assert_eq!(arena.removals_left(), u64::MAX - 1);
    let b = arena.insert(2);
    assert_eq!(b, (a.0, 1));
}

#[test]
fn arena_has_the_room_that_it_was_made_with() {
    let made: HandleArena<u8> = HandleArena::with_capacity(10);
    assert_eq!(made.capacity(), 10);
    let least: HandleArena<u8> = HandleArena::with_capacity(0);
    assert_eq!(least.capacity(), 1);
    let plain: HandleArena<u8> = HandleArena::new();
    assert_eq!(plain.capacity(), 4);
}

#[test]
fn arena_doubles_its_room_when_it_is_full() {
    let mut arena: HandleArena<u8> = HandleArena::with_capacity(3);
    let a = arena.insert(1);
    arena.insert(2);
    assert_eq!(arena.capacity(), 3);
    arena.insert(3);
    assert_eq!(arena.capacity(), 3);
    arena.insert(4);
    assert_eq!(arena.capacity(), 6);
    // a removal leaves the room, and frees a slot for the next value
    assert_eq!(arena.remove(a), Some(1));
    assert_eq!(arena.capacity(), 6);
    for value in 5..8 {
        arena.insert(value);
    }
    assert_eq!(arena.len(), 6);
    assert_eq!(arena.capacity(), 6);
    arena.insert(8);
    assert_eq!(arena.capacity(), 12);
}

#[test]
fn stores_can_be_made_with_much_room() {
    let arena: HandleArena<u8> = HandleArena::with_capacity(100_000);
    assert_eq!(arena.capacity(), 100_000);
    assert_eq!(arena.len(), 0);
    let mut graph = CollisionGraph::with_capacity(100_000, 200_000);
    assert_eq!(graph.node_count(), 0);
    graph.add_node(ColliderHandle((0, 0)));
    assert_eq!(graph.node_count(), 1);
}
