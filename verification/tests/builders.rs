use resphys::builder::{BodyDesc, ColliderDesc};
use resphys::{
    BodyHandle, BodyStatus, Collider, ColliderHandle, ColliderState, ContactEvent, Vec2, AABB,
    SCALE, TOLERANCE,
};

#[test]
fn body_desc_defaults() {
    let body = BodyDesc::new().build();
    assert_eq!(body.position, Vec2::zero());
    assert_eq!(body.velocity, Vec2::zero());
    assert_eq!(body.movement, Vec2::zero());
    assert_eq!(body.status, BodyStatus::Kinematic);
    assert!(body.self_collide);
    assert!(body.colliders.is_empty());
    assert!(!body.is_static());
}

#[test]
fn body_desc_setters() {
    let body = BodyDesc::new()
        .with_position(Vec2::new(1, 2))
        .with_velocity(Vec2::new(3, 4))
        .make_static()
        .self_collision(false)
        .build();
    assert_eq!(body.position, Vec2::new(1, 2));
    assert_eq!(body.velocity, Vec2::new(3, 4));
    assert_eq!(body.status, BodyStatus::Static);
    assert!(!body.self_collide);
    assert!(body.is_static());
}

#[test]
fn collider_desc_defaults() {
    let owner = BodyHandle((3, 1));
    let shape = AABB { half_exts: Vec2::new(5, 6) };
    let collider = ColliderDesc::new(shape, 'a').build(owner);
    assert_eq!(collider.shape, shape);
    assert_eq!(collider.offset, Vec2::zero());
    assert_eq!(collider.state, ColliderState::Solid);
    assert_eq!(collider.category_bits, 1);
    assert_eq!(collider.mask_bits, u32::MAX);
    assert_eq!(collider.user_tag, 'a');
    assert_eq!(collider.owner, owner);
    assert!(collider.is_solid());
}

#[test]
fn collider_desc_setters() {
    let owner = BodyHandle((0, 0));
    let collider = ColliderDesc::new(AABB { half_exts: Vec2::new(5, 6) }, 1u8)
        .with_shape(AABB { half_exts: Vec2::splat(9) })
        .with_offset(Vec2::new(-1, 1))
        .sensor()
        .with_category(4)
        .with_mask(12)
        .with_tag(2)
        .build(owner);
    assert_eq!(collider.shape.half_exts, Vec2::new(9, 9));
    assert_eq!(collider.offset, Vec2::new(-1, 1));
    assert_eq!(collider.state, ColliderState::Sensor);
    assert_eq!(collider.category_bits, 4);
    assert_eq!(collider.mask_bits, 12);
    assert_eq!(collider.user_tag, 2);
    assert!(!collider.is_solid());
}

#[test]
fn events_order_their_handles() {
    let owner = BodyHandle((0, 0));
    let shape = AABB { half_exts: Vec2::new(1, 1) };
    let solid: Collider<u8> = ColliderDesc::new(shape, 1).build(owner);
    let sensor: Collider<u8> = ColliderDesc::new(shape, 2).sensor().build(owner);
    let h1 = ColliderHandle((0, 0));
    let h2 = ColliderHandle((1, 0));
    assert_eq!(
        ContactEvent::new(h1, &solid, h2, &solid),
        ContactEvent::CollisionStarted(h1, h2, 1, 1)
    );
    assert_eq!(
        ContactEvent::new(h1, &solid, h2, &sensor),
        ContactEvent::OverlapStarted(h1, h2, 1, 2)
    );
    assert_eq!(
        ContactEvent::new(h1, &sensor, h2, &solid),
        ContactEvent::OverlapStarted(h2, h1, 1, 2)
    );
    assert_eq!(
        ContactEvent::new(h1, &sensor, h2, &sensor),
        ContactEvent::OverlapStarted(h1, h2, 2, 2)
    );
}

#[test]
fn finished_events() {
    let h1 = ColliderHandle((0, 0));
    let h2 = ColliderHandle((1, 0));
    assert_eq!(
        ContactEvent::OverlapStarted(h1, h2, 1u8, 2u8).into_finished(),
        ContactEvent::OverlapEnded(h1, h2, 1, 2)
    );
    assert_eq!(
        ContactEvent::CollisionStarted(h1, h2, 1u8, 2u8).into_finished(),
        ContactEvent::CollisionEnded(h1, h2, 1, 2)
    );
    assert_eq!(
        ContactEvent::CollisionEnded(h1, h2, 1u8, 2u8).into_finished(),
        ContactEvent::CollisionEnded(h1, h2, 1, 2)
    );
}

#[test]
fn fixed_point_arithmetic() {
    assert_eq!(SCALE, 1000);
    assert_eq!(TOLERANCE, 1);
    assert_eq!(Vec2::new(1_500, -1_500).times(SCALE), Vec2::new(1_500, -1_500));
    assert_eq!(Vec2::new(1_500, -1_500).times(500), Vec2::new(750, -750));
    assert_eq!(Vec2::new(3, -3).times(500), Vec2::new(1, -1));
    assert_eq!(Vec2::new(i32::MAX, i32::MIN).times(2 * SCALE), Vec2::new(i32::MAX, i32::MIN));
    assert_eq!(resphys::vector::saturate(i64::MAX), i32::MAX);
    assert_eq!(resphys::vector::saturate(i64::MIN), i32::MIN);
    assert_eq!(resphys::vector::saturate(-7), -7);
    assert_eq!(resphys::vector::scaled_product(7, 500), 3);
    assert_eq!(resphys::vector::scaled_product(-7, 500), -3);
}

#[test]
fn defaults_are_empty() {
    assert_eq!(Vec2::default(), Vec2::zero());
    assert_eq!(AABB::default().half_exts, Vec2::zero());
    let bodies = resphys::BodySet::default();
    assert_eq!(bodies.len(), 0);
    let colliders: resphys::ColliderSet<u8> = resphys::ColliderSet::default();
    assert_eq!(colliders.len(), 0);
    let world: resphys::PhysicsWorld<u8> = resphys::PhysicsWorld::default();
    assert_eq!(world.bodies.len(), 0);
    assert!(world.events().is_empty());
}
