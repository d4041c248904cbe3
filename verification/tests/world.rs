use resphys::builder::{BodyDesc, ColliderDesc};
use resphys::{
    is_colliding, is_penetrating, BodyHandle, BodyStatus, ColliderHandle, ColliderState,
    ContactEvent, Interaction, PhysicsWorld, Ray, RemoveError, Vec2, AABB, SCALE, TOLERANCE,
};

#[derive(Clone, Copy, Debug, PartialEq, Eq)]
enum Tag {
    Player,
    Wall,
    Zone,
}

fn v(x: i32, y: i32) -> Vec2 {
    Vec2::new(x, y)
}

fn square(half: i32) -> AABB {
    AABB { half_exts: v(half, half) }
}

fn mover(world: &mut PhysicsWorld<Tag>, position: Vec2, velocity: Vec2) -> BodyHandle {
    world.insert_body(BodyDesc::new().with_position(position).with_velocity(velocity).build())
}

fn fixed(world: &mut PhysicsWorld<Tag>, position: Vec2) -> BodyHandle {
    world.insert_body(BodyDesc::new().with_position(position).make_static().build())
}

fn solid(world: &mut PhysicsWorld<Tag>, owner: BodyHandle, half: i32, tag: Tag) -> ColliderHandle {
    world.insert_collider(ColliderDesc::new(square(half), tag).build(owner)).unwrap()
}

fn sensor(world: &mut PhysicsWorld<Tag>, owner: BodyHandle, half: i32, tag: Tag) -> ColliderHandle {
    world.insert_collider(ColliderDesc::new(square(half), tag).sensor().build(owner)).unwrap()
}

#[test]
fn new_world_is_empty() {
    let world: PhysicsWorld<Tag> = PhysicsWorld::new();
    assert_eq!(world.bodies.len(), 0);
    assert_eq!(world.colliders.len(), 0);
    assert_eq!(world.collision_graph.node_count(), 0);
    assert_eq!(world.collision_graph.edge_count(), 0);
    assert!(world.events().is_empty());
}

#[test]
fn free_body_moves_by_velocity_times_dt() {
    let mut world: PhysicsWorld<Tag> = PhysicsWorld::new();
    let body = mover(&mut world, v(1_000, 2_000), v(3_000, -5_000));
    world.step(16);
    // 3000 * 16 / 1000 = 48, -5000 * 16 / 1000 = -80
    assert_eq!(world.get_body(body).unwrap().position, v(1_048, 1_920));
    assert_eq!(world.get_body(body).unwrap().movement, v(48, -80));
    world.step(SCALE);
    assert_eq!(world.get_body(body).unwrap().position, v(4_048, -3_080));
}

#[test]
fn movement_rounds_toward_zero() {
    let mut world: PhysicsWorld<Tag> = PhysicsWorld::new();
    let body = mover(&mut world, v(0, 0), v(999, -999));
    world.step(1);
    assert_eq!(world.get_body(body).unwrap().position, v(0, 0));
    world.step(-1_500);
    // 999 * -1500 / 1000 = -1498.5, toward zero
    assert_eq!(world.get_body(body).unwrap().position, v(-1_498, 1_498));
}

#[test]
fn position_saturates_at_the_end_of_the_range() {
    let mut world: PhysicsWorld<Tag> = PhysicsWorld::new();
    let body = mover(&mut world, v(i32::MAX - 5, 0), v(i32::MAX, i32::MIN));
    world.step(i32::MAX);
    assert_eq!(world.get_body(body).unwrap().position, v(i32::MAX, i32::MIN));
}

#[test]
fn static_body_never_moves() {
    let mut world: PhysicsWorld<Tag> = PhysicsWorld::new();
    let body = world.insert_body(
        BodyDesc::new().with_position(v(5, 5)).with_velocity(v(1_000, 1_000)).make_static().build(),
    );
    world.step(SCALE);
    assert_eq!(world.get_body(body).unwrap().position, v(5, 5));
    assert_eq!(world.get_body(body).unwrap().status, BodyStatus::Static);
}

#[test]
fn mover_never_ends_a_step_inside_the_blocker() {
    for speed in [1_000, 50_000, 1_000_000, 2_400_000, 7_000_000, i32::MAX] {
        let mut world: PhysicsWorld<Tag> = PhysicsWorld::new();
        let player = mover(&mut world, v(0, 0), v(speed, 0));
        let wall = fixed(&mut world, v(100_000, 0));
        let a = solid(&mut world, player, 10_000, Tag::Player);
        let b = solid(&mut world, wall, 10_000, Tag::Wall);
        for _ in 0..6_000 {
            world.step(16);
            let at = world.get_body(player).unwrap().position;
            assert!(
                !is_penetrating(
                    world.get_collider(a).unwrap(),
                    at,
                    world.get_collider(b).unwrap(),
                    v(100_000, 0),
                    TOLERANCE
                ),
                "speed {} rests at {:?}",
                speed,
                at
            );
        }
    }
}

#[test]
fn mover_stops_at_the_near_face_of_the_blocker() {
    for speed in [1_000, 50_000, 1_000_000, 2_400_000] {
        let mut world: PhysicsWorld<Tag> = PhysicsWorld::new();
        let player = mover(&mut world, v(0, 0), v(speed, 0));
        let wall = fixed(&mut world, v(100_000, 0));
        solid(&mut world, player, 10_000, Tag::Player);
        solid(&mut world, wall, 10_000, Tag::Wall);
        for _ in 0..6_000 {
            world.step(16);
            assert!(world.get_body(player).unwrap().position.x <= 80_000);
        }
        assert_eq!(world.get_body(player).unwrap().position, v(80_000, 0));
    }
}

#[test]
fn body_that_starts_inside_a_blocker_is_put_at_its_far_face() {
    // a body at rest counts as moving backward: it leaves by the far face
    let mut world: PhysicsWorld<Tag> = PhysicsWorld::new();
    let player = mover(&mut world, v(0, 0), v(0, 0));
    let a = solid(&mut world, player, 10, Tag::Player);
    let wall = fixed(&mut world, v(15, 0));
    let b = solid(&mut world, wall, 10, Tag::Wall);
    world.step(16);
    assert_eq!(world.get_body(player).unwrap().position, v(35, 0));
    assert_eq!(
        world.events().clone(),
        vec![ContactEvent::CollisionStarted(a, b, Tag::Player, Tag::Wall)]
    );
    let contacts = world.collisions_of(a);
    assert_eq!(contacts.len(), 1);
    assert_eq!(contacts[0].0, b);
    assert_eq!(contacts[0].1.depth, 0);
    assert_eq!(contacts[0].1.normal, v(-SCALE, 0));
    assert_eq!(contacts[0].1.contact_point, v(25, 0));
}

#[test]
fn mover_is_stopped_when_it_comes_from_the_right() {
    let mut world: PhysicsWorld<Tag> = PhysicsWorld::new();
    let player = mover(&mut world, v(200_000, 0), v(-700_000, 0));
    let wall = fixed(&mut world, v(100_000, 0));
    solid(&mut world, player, 10_000, Tag::Player);
    solid(&mut world, wall, 10_000, Tag::Wall);
    for _ in 0..50 {
        world.step(16);
    }
    assert_eq!(world.get_body(player).unwrap().position, v(120_000, 0));
}

#[test]
fn fast_body_stops_on_two_adjacent_boxes_and_reports_each_once() {
    let mut world: PhysicsWorld<Tag> = PhysicsWorld::new();
    let player = mover(&mut world, v(360_000, 285_000), v(0, 1_600_000));
    let player_box = solid(&mut world, player, 36_000, Tag::Player);
    let left = fixed(&mut world, v(340_000, 450_000));
    let left_box = solid(&mut world, left, 36_000, Tag::Wall);
    let right = fixed(&mut world, v(360_000, 450_000));
    let right_box = solid(&mut world, right, 36_000, Tag::Wall);

    let mut started: Vec<(ColliderHandle, ColliderHandle)> = Vec::new();
    let mut others = 0;
    for _ in 0..60 {
        world.step(16);
        for event in world.events().iter() {
            match event {
                ContactEvent::CollisionStarted(h1, h2, t1, t2) => {
                    assert_eq!((*t1, *t2), (Tag::Player, Tag::Wall));
                    started.push((*h1, *h2));
                }
                _ => others += 1,
            }
        }
    }
    // 450000 - 36000 - 36000
    assert_eq!(world.get_body(player).unwrap().position, v(360_000, 378_000));
    assert_eq!(others, 0);
    assert_eq!(started.len(), 2);
    assert!(started.contains(&(player_box, left_box)));
    assert!(started.contains(&(player_box, right_box)));
}

#[test]
fn contact_is_reported_in_the_step_that_makes_it() {
    let mut world: PhysicsWorld<Tag> = PhysicsWorld::new();
    let player = mover(&mut world, v(0, 0), v(0, 30));
    let wall = fixed(&mut world, v(0, 40));
    let a = solid(&mut world, player, 10, Tag::Player);
    let b = solid(&mut world, wall, 10, Tag::Wall);
    // the move of 30 is cut to 20, where the boxes touch
    world.step(SCALE);
    assert_eq!(world.get_body(player).unwrap().position, v(0, 20));
    assert_eq!(
        world.events().clone(),
        vec![ContactEvent::CollisionStarted(a, b, Tag::Player, Tag::Wall)]
    );
    assert_eq!(world.collision_graph.edge_count(), 1);
    world.step(SCALE);
    assert!(world.events().is_empty());
    assert_eq!(world.collision_graph.edge_count(), 1);
}

#[test]
fn mover_that_lands_from_above_is_linked_at_once() {
    let mut world: PhysicsWorld<Tag> = PhysicsWorld::new();
    let player = mover(&mut world, v(0, 10), v(0, -9));
    let wall = fixed(&mut world, v(0, 0));
    let a = solid(&mut world, player, 1, Tag::Player);
    let b = solid(&mut world, wall, 1, Tag::Wall);
    world.step(SCALE);
    assert_eq!(world.get_body(player).unwrap().position, v(0, 2));
    assert_eq!(
        world.events().clone(),
        vec![ContactEvent::CollisionStarted(a, b, Tag::Player, Tag::Wall)]
    );
    assert_eq!(world.interactions_of(b).len(), 1);
}

#[test]
fn contact_made_by_the_horizontal_move_is_linked_in_the_same_step() {
    let mut world: PhysicsWorld<Tag> = PhysicsWorld::new();
    let player = mover(&mut world, v(0, 0), v(30, 0));
    let wall = fixed(&mut world, v(40, 0));
    let a = solid(&mut world, player, 10, Tag::Player);
    let b = solid(&mut world, wall, 10, Tag::Wall);
    world.step(SCALE);
    assert_eq!(world.get_body(player).unwrap().position, v(20, 0));
    assert_eq!(
        world.events().clone(),
        vec![ContactEvent::CollisionStarted(a, b, Tag::Player, Tag::Wall)]
    );
}

#[test]
fn overlap_event_names_the_solid_first() {
    let mut world: PhysicsWorld<Tag> = PhysicsWorld::new();
    let body = mover(&mut world, v(0, 0), v(0, 0));
    let zone = sensor(&mut world, body, 10_000, Tag::Zone);
    let wall = fixed(&mut world, v(5_000, 0));
    let block = solid(&mut world, wall, 10_000, Tag::Wall);
    assert!(zone < block);
    world.step(16);
    assert_eq!(
        world.events().clone(),
        vec![ContactEvent::OverlapStarted(block, zone, Tag::Wall, Tag::Zone)]
    );
    assert_eq!(world.interactions_of(zone), vec![(block, Interaction::Overlap)]);
    assert_eq!(world.overlaps_of(block), vec![(zone, Interaction::Overlap)]);
    assert!(world.collisions_of(block).is_empty());
}

#[test]
fn two_sensors_keep_the_order_of_the_edge() {
    let mut world: PhysicsWorld<Tag> = PhysicsWorld::new();
    let first = mover(&mut world, v(0, 0), v(0, 0));
    let a = sensor(&mut world, first, 10, Tag::Zone);
    let second = fixed(&mut world, v(5, 5));
    let b = sensor(&mut world, second, 10, Tag::Player);
    world.step(16);
    assert_eq!(
        world.events().clone(),
        vec![ContactEvent::OverlapStarted(a, b, Tag::Zone, Tag::Player)]
    );
}

#[test]
fn contact_that_ends_is_reported_once() {
    let mut world: PhysicsWorld<Tag> = PhysicsWorld::new();
    let player = mover(&mut world, v(0, 0), v(0, 0));
    let a = solid(&mut world, player, 10, Tag::Player);
    let wall = fixed(&mut world, v(20, 0));
    let b = solid(&mut world, wall, 10, Tag::Wall);
    world.step(16);
    assert_eq!(
        world.events().clone(),
        vec![ContactEvent::CollisionStarted(a, b, Tag::Player, Tag::Wall)]
    );
    let contacts = world.collisions_of(a);
    assert_eq!(contacts.len(), 1);
    assert_eq!(contacts[0].0, b);
    assert_eq!(contacts[0].1.depth, 0);
    assert_eq!(contacts[0].1.normal, v(SCALE, 0));
    assert_eq!(contacts[0].1.contact_point, v(10, 0));

    world.mut_body(player).unwrap().velocity = v(-1_000, 0);
    world.step(SCALE);
    assert_eq!(world.get_body(player).unwrap().position, v(-1_000, 0));
    assert_eq!(
        world.events().clone(),
        vec![ContactEvent::CollisionEnded(a, b, Tag::Player, Tag::Wall)]
    );
    assert_eq!(world.collision_graph.edge_count(), 0);
    world.step(SCALE);
    assert!(world.events().is_empty());
}

#[test]
fn removing_a_collider_defers_the_end_event_to_the_head_of_the_next_step() {
    let mut world: PhysicsWorld<Tag> = PhysicsWorld::new();
    let player = mover(&mut world, v(0, 0), v(0, 0));
    let a = solid(&mut world, player, 10, Tag::Player);
    let wall = fixed(&mut world, v(20, 0));
    let b = solid(&mut world, wall, 10, Tag::Wall);
    let other = fixed(&mut world, v(0, 15));
    let c = sensor(&mut world, other, 10, Tag::Zone);
    world.step(16);
    assert_eq!(world.events().len(), 2);
    let before = world.events().clone();

    assert_eq!(world.remove_collider(b), Ok(()));
    // nothing fires during the removal
    assert_eq!(world.events().clone(), before);
    assert!(world.get_collider(b).is_none());
    assert_eq!(world.collision_graph.node_count(), 2);
    assert_eq!(world.collision_graph.edge_count(), 1);

    world.step(16);
    assert_eq!(world.events()[0], ContactEvent::CollisionEnded(b, a, Tag::Wall, Tag::Player));
    assert_eq!(world.events().len(), 1);
    assert_eq!(world.interactions_of(a), vec![(c, Interaction::Overlap)]);
    world.step(16);
    assert!(world.events().is_empty());
}

#[test]
fn removing_a_sensor_in_contact_with_a_solid_names_the_solid_first() {
    let mut world: PhysicsWorld<Tag> = PhysicsWorld::new();
    let body = mover(&mut world, v(0, 0), v(0, 0));
    let zone = sensor(&mut world, body, 10, Tag::Zone);
    let wall = fixed(&mut world, v(5, 0));
    let block = solid(&mut world, wall, 10, Tag::Wall);
    world.step(16);
    assert_eq!(world.remove_collider(zone), Ok(()));
    world.step(16);
    assert_eq!(
        world.events().clone(),
        vec![ContactEvent::OverlapEnded(block, zone, Tag::Wall, Tag::Zone)]
    );
}

#[test]
fn removal_of_what_is_not_there_fails() {
    let mut world: PhysicsWorld<Tag> = PhysicsWorld::new();
    let body = mover(&mut world, v(0, 0), v(0, 0));
    let a = solid(&mut world, body, 10, Tag::Player);
    assert_eq!(world.remove_collider(ColliderHandle((7, 0))), Err(RemoveError::NotFound));
    assert_eq!(world.remove_body(BodyHandle((7, 0))), Err(RemoveError::NotFound));
    assert_eq!(world.remove_collider(a), Ok(()));
    assert_eq!(world.remove_collider(a), Err(RemoveError::NotFound));
    assert_eq!(world.remove_body(body), Ok(()));
    assert_eq!(world.remove_body(body), Err(RemoveError::NotFound));
}

#[test]
fn collider_without_a_body_is_not_inserted() {
    let mut world: PhysicsWorld<Tag> = PhysicsWorld::new();
    let body = mover(&mut world, v(0, 0), v(0, 0));
    assert_eq!(world.remove_body(body), Ok(()));
    let orphan = ColliderDesc::new(square(10), Tag::Player).build(body);
    assert!(world.insert_collider(orphan).is_none());
    assert_eq!(world.colliders.len(), 0);
    assert_eq!(world.collision_graph.node_count(), 0);
}

#[test]
fn removing_a_body_takes_its_colliders_along() {
    let mut world: PhysicsWorld<Tag> = PhysicsWorld::new();
    let keep = fixed(&mut world, v(0, 0));
    let kept = solid(&mut world, keep, 10, Tag::Wall);
    let colliders_before = world.colliders.len();
    let nodes_before = world.collision_graph.node_count();

    let body = mover(&mut world, v(5, 0), v(0, 0));
    let mut handles = Vec::new();
    for i in 0..5 {
        handles.push(solid(&mut world, body, 10 + i, Tag::Player));
    }
    assert_eq!(*world.get_body(body).unwrap().colliders.handles(), handles);
    assert_eq!(world.colliders.len(), colliders_before + 5);
    world.step(16);
    assert!(world.collision_graph.edge_count() > 0);

    assert_eq!(world.remove_body(body), Ok(()));
    assert_eq!(world.colliders.len(), colliders_before);
    assert_eq!(world.collision_graph.node_count(), nodes_before);
    assert_eq!(world.collision_graph.edge_count(), 0);
    assert!(world.get_body(body).is_none());
    for handle in handles {
        assert!(world.get_collider(handle).is_none());
    }
    assert_eq!(world.get_collider(kept).unwrap().user_tag, Tag::Wall);
    assert_eq!(*world.get_body(keep).unwrap().colliders.handles(), vec![kept]);

    // the contacts of the removed colliders all end at the next step
    world.step(16);
    assert!(!world.events().is_empty());
    for event in world.events().iter() {
        assert!(matches!(event, ContactEvent::CollisionEnded(..)));
    }
}

#[test]
fn graph_survives_the_removal_of_an_early_node() {
    let mut world: PhysicsWorld<Tag> = PhysicsWorld::new();
    let gone = fixed(&mut world, v(1_000, 1_000));
    let first = solid(&mut world, gone, 10, Tag::Wall);
    let player = mover(&mut world, v(0, 0), v(0, 0));
    let a = solid(&mut world, player, 10, Tag::Player);
    let wall = fixed(&mut world, v(15, 0));
    let b = solid(&mut world, wall, 10, Tag::Wall);
    world.step(16);
    assert_eq!(world.interactions_of(a).len(), 1);
    // the node of `b`, the last one, moves to the index of the removed node
    assert_eq!(world.remove_collider(first), Ok(()));
    assert_eq!(world.collision_graph.get_node_index(b), Some(0));
    assert_eq!(world.collision_graph.get_node_index(a), Some(1));
    assert_eq!(world.collision_graph.get_node_index(first), None);
    assert_eq!(world.interactions_of(a)[0].0, b);
    assert_eq!(world.interactions_of(b)[0].0, a);
    world.step(16);
    assert!(world.events().is_empty());
    assert_eq!(world.collision_graph.edge_count(), 1);
}

#[test]
fn stale_handle_stays_dead_after_its_slot_is_used_again() {
    let mut world: PhysicsWorld<Tag> = PhysicsWorld::new();
    let body = mover(&mut world, v(0, 0), v(0, 0));
    let old = solid(&mut world, body, 10, Tag::Player);
    assert_eq!(world.remove_collider(old), Ok(()));
    let new = solid(&mut world, body, 20, Tag::Wall);
    assert_eq!(new.0 .0, old.0 .0);
    assert_ne!(new, old);
    assert!(world.get_collider(old).is_none());
    assert_eq!(world.get_collider(new).unwrap().user_tag, Tag::Wall);
    assert_eq!(world.remove_collider(old), Err(RemoveError::NotFound));
    assert_eq!(world.collision_graph.get_node_index(old), None);
    assert_eq!(world.collision_graph.get_node_index(new), Some(0));
}

#[test]
fn masks_must_match_both_ways() {
    for (mask_a, mask_b, collide) in [(2, 1, true), (2, 4, false), (4, 1, false), (0, 0, false)] {
        let mut world: PhysicsWorld<Tag> = PhysicsWorld::new();
        let player = mover(&mut world, v(0, 0), v(10_000, 0));
        let wall = fixed(&mut world, v(100, 0));
        world
            .insert_collider(
                ColliderDesc::new(square(10), Tag::Player)
                    .with_category(1)
                    .with_mask(mask_a)
                    .build(player),
            )
            .unwrap();
        world
            .insert_collider(
                ColliderDesc::new(square(10), Tag::Wall)
                    .with_category(2)
                    .with_mask(mask_b)
                    .build(wall),
            )
            .unwrap();
        let mut events = 0;
        for _ in 0..20 {
            world.step(1);
            events += world.events().len();
        }
        let x = world.get_body(player).unwrap().position.x;
        if collide {
            assert_eq!(x, 80);
            assert_eq!(events, 1);
        } else {
            assert_eq!(x, 200);
            assert_eq!(events, 0);
        }
    }
}

#[test]
fn colliders_of_one_body_collide_only_if_it_allows() {
    for allow in [false, true] {
        let mut world: PhysicsWorld<Tag> = PhysicsWorld::new();
        let body = world.insert_body(BodyDesc::new().self_collision(allow).build());
        let a = solid(&mut world, body, 10, Tag::Player);
        let b = world
            .insert_collider(
                ColliderDesc::new(square(10), Tag::Zone).with_offset(v(5, 0)).build(body),
            )
            .unwrap();
        world.step(16);
        if allow {
            assert_eq!(
                world.events().clone(),
                vec![ContactEvent::CollisionStarted(a, b, Tag::Player, Tag::Zone)]
            );
        } else {
            assert!(world.events().is_empty());
            assert_eq!(world.collision_graph.edge_count(), 0);
        }
    }
}

#[test]
fn sensors_do_not_block() {
    let mut world: PhysicsWorld<Tag> = PhysicsWorld::new();
    let player = mover(&mut world, v(0, 0), v(10_000, 10_000));
    let a = solid(&mut world, player, 10, Tag::Player);
    let area = fixed(&mut world, v(40, 40));
    let zone = sensor(&mut world, area, 10, Tag::Zone);
    let mut log = Vec::new();
    for _ in 0..8 {
        world.step(1);
        log.extend(world.events().iter().cloned());
    }
    assert_eq!(world.get_body(player).unwrap().position, v(80, 80));
    assert_eq!(
        log,
        vec![
            ContactEvent::OverlapStarted(a, zone, Tag::Player, Tag::Zone),
            ContactEvent::OverlapEnded(a, zone, Tag::Player, Tag::Zone),
        ]
    );
}

#[test]
fn resolution_is_horizontal_first() {
    // moving diagonally into a corner: the horizontal move is made in full,
    // the vertical one is then cut at the top of the box
    let mut world: PhysicsWorld<Tag> = PhysicsWorld::new();
    let player = mover(&mut world, v(0, 0), v(30_000, 30_000));
    solid(&mut world, player, 10, Tag::Player);
    let wall = fixed(&mut world, v(30, 40));
    solid(&mut world, wall, 10, Tag::Wall);
    world.step(1);
    assert_eq!(world.get_body(player).unwrap().position, v(30, 20));
}

#[test]
fn overlap_test_filters_by_category_and_place() {
    let mut world: PhysicsWorld<Tag> = PhysicsWorld::new();
    let body = fixed(&mut world, v(100, 100));
    let a = world
        .insert_collider(ColliderDesc::new(square(10), Tag::Wall).with_category(1).build(body))
        .unwrap();
    let b = world
        .insert_collider(
            ColliderDesc::new(square(10), Tag::Zone)
                .with_category(2)
                .with_offset(v(50, 0))
                .sensor()
                .build(body),
        )
        .unwrap();
    assert_eq!(world.overlap_test(v(100, 100), v(1, 1), 1), vec![a]);
    assert_eq!(world.overlap_test(v(100, 100), v(1, 1), 2), Vec::<ColliderHandle>::new());
    assert_eq!(world.overlap_test(v(125, 100), v(15, 1), 3), vec![a, b]);
    assert_eq!(world.overlap_test(v(125, 100), v(15, 1), 2), vec![b]);
    assert_eq!(world.overlap_test(v(125, 100), v(14, 1), 3), Vec::<ColliderHandle>::new());
    assert_eq!(world.overlap_test(v(0, 0), v(1, 1), u32::MAX), Vec::<ColliderHandle>::new());
}

#[test]
fn project_ray_reports_every_hit() {
    let mut world: PhysicsWorld<Tag> = PhysicsWorld::new();
    let near = fixed(&mut world, v(5_000, 0));
    let a = solid(&mut world, near, 1_000, Tag::Wall);
    let far = fixed(&mut world, v(8_000, 0));
    let b = world
        .insert_collider(ColliderDesc::new(square(1_000), Tag::Zone).with_category(2).build(far))
        .unwrap();
    let aside = fixed(&mut world, v(5_000, 9_000));
    solid(&mut world, aside, 1_000, Tag::Wall);
    let ray = Ray { origin: v(0, 0), dir: v(10_000, 0), toi: SCALE };
    let hits = world.project_ray(&ray, 3);
    assert_eq!(hits.len(), 2);
    assert_eq!((hits[0].0, hits[0].1.toi, hits[0].1.normal), (a, 400, v(-SCALE, 0)));
    assert_eq!((hits[1].0, hits[1].1.toi, hits[1].1.normal), (b, 700, v(-SCALE, 0)));
    let only_second = world.project_ray(&ray, 2);
    assert_eq!(only_second.len(), 1);
    assert_eq!(only_second[0].0, b);
    assert!(world.project_ray(&ray, 4).is_empty());
}

#[test]
fn colliders_can_be_changed_in_place() {
    let mut world: PhysicsWorld<Tag> = PhysicsWorld::new();
    let body = fixed(&mut world, v(0, 0));
    let a = solid(&mut world, body, 10, Tag::Wall);
    world.mut_collider(a).unwrap().state = ColliderState::Sensor;
    world.mut_collider(a).unwrap().offset = v(3, 4);
    assert_eq!(world.get_collider(a).unwrap().state, ColliderState::Sensor);
    assert_eq!(world.get_collider(a).unwrap().offset, v(3, 4));
    assert!(world.mut_collider(ColliderHandle((9, 9))).is_none());
    assert!(world.mut_body(BodyHandle((9, 9))).is_none());
}

#[test]
fn inserted_body_starts_without_colliders() {
    let mut world: PhysicsWorld<Tag> = PhysicsWorld::new();
    let first = mover(&mut world, v(0, 0), v(0, 0));
    solid(&mut world, first, 10, Tag::Player);
    // a copy of a body that has a collider brings its list along
    let copy = world.get_body(first).unwrap().clone();
    assert_eq!(copy.colliders.len(), 1);
    let second = world.insert_body(copy);
    assert!(world.get_body(second).unwrap().colliders.is_empty());
    assert_eq!(world.get_body(first).unwrap().colliders.len(), 1);
}

#[test]
fn solid_and_sensor_of_one_body_overlap_if_it_allows() {
    let mut world: PhysicsWorld<Tag> = PhysicsWorld::new();
    let body = world.insert_body(BodyDesc::new().self_collision(true).build());
    let c1 = solid(&mut world, body, 10, Tag::Player);
    let c2 = world
        .insert_collider(
            ColliderDesc::new(square(10), Tag::Zone).with_offset(v(5, 0)).sensor().build(body),
        )
        .unwrap();
    world.step(16);
    assert_eq!(
        world.events().clone(),
        vec![ContactEvent::OverlapStarted(c1, c2, Tag::Player, Tag::Zone)]
    );
    assert_eq!(world.interactions_of(c1), vec![(c2, Interaction::Overlap)]);
    assert_eq!(world.get_body(body).unwrap().position, v(0, 0));
    world.step(16);
    assert!(world.events().is_empty());
}

#[test]
fn filtered_pair_is_passed_through_without_a_trace() {
    let mut world: PhysicsWorld<Tag> = PhysicsWorld::new();
    let player = mover(&mut world, v(0, 0), v(1_000, 1_000));
    let wall = fixed(&mut world, v(30, 30));
    let a = world
        .insert_collider(
            ColliderDesc::new(square(10), Tag::Player).with_category(1).with_mask(1).build(player),
        )
        .unwrap();
    let b = world
        .insert_collider(
            ColliderDesc::new(square(10), Tag::Wall).with_category(2).with_mask(2).build(wall),
        )
        .unwrap();
    for step in 1..=60 {
        world.step(1);
        assert_eq!(world.get_body(player).unwrap().position, v(step, step));
        assert!(world.events().is_empty());
        assert!(world.interactions_of(a).is_empty());
        assert!(world.interactions_of(b).is_empty());
    }
    assert_eq!(world.get_body(wall).unwrap().position, v(30, 30));
}

#[test]
fn edges_stand_exactly_between_the_colliders_that_touch() {
    let mut world: PhysicsWorld<Tag> = PhysicsWorld::new();
    let left = mover(&mut world, v(0, 0), v(1_000, 0));
    let right = mover(&mut world, v(100, 0), v(-1_000, 0));
    let a = solid(&mut world, left, 10, Tag::Player);
    let b = solid(&mut world, right, 10, Tag::Wall);
    let mut started = 0;
    for _ in 0..100 {
        world.step(1);
        started += world.events().len();
        let pa = world.get_body(left).unwrap().position;
        let pb = world.get_body(right).unwrap().position;
        let touching = is_colliding(
            world.get_collider(a).unwrap(),
            pa,
            world.get_collider(b).unwrap(),
            pb,
        );
        assert_eq!(world.collision_graph.edge_count() == 1, touching);
        assert_eq!(world.interactions_of(a).len() == 1, touching);
    }
    assert_eq!(started, 1);
    assert_eq!(world.collision_graph.edge_count(), 1);
}

#[test]
fn event_lists_can_be_read_where_they_stand() {
    let mut world: PhysicsWorld<Tag> = PhysicsWorld::new();
    let player = mover(&mut world, v(0, 0), v(0, 0));
    let a = solid(&mut world, player, 10, Tag::Player);
    let wall = fixed(&mut world, v(20, 0));
    let b = solid(&mut world, wall, 10, Tag::Wall);
    world.step(16);
    assert_eq!(world.events.as_vec().len(), 1);
    assert!(world.removal_events.as_vec().is_empty());
    assert_eq!(world.remove_collider(a), Ok(()));
    assert_eq!(
        world.removal_events.as_vec().clone(),
        vec![ContactEvent::CollisionEnded(a, b, Tag::Player, Tag::Wall)]
    );
    assert_eq!(world.events.as_vec().len(), 1);
}
