use resphys::{
    collision_aabb_aabb, collision_aabb_aabb_manifold, collision_manifold, is_colliding,
    is_penetrating, BodyHandle, Collider, ColliderState, Contact, ContactManifold, Vec2, AABB,
    SCALE, TOLERANCE,
};

fn v(x: i32, y: i32) -> Vec2 {
    Vec2::new(x, y)
}

fn solid(half: Vec2, offset: Vec2) -> Collider<u8> {
    Collider::new(
        AABB { half_exts: half },
        offset,
        ColliderState::Solid,
        1,
        u32::MAX,
        0,
        BodyHandle((0, 0)),
    )
}

#[test]
fn overlapping_boxes_intersect() {
    assert!(collision_aabb_aabb(v(0, 0), v(10, 10), v(15, 5), v(10, 10)));
}

#[test]
fn separated_boxes_do_not_intersect() {
    assert!(!collision_aabb_aabb(v(0, 0), v(10, 10), v(21, 0), v(10, 10)));
    assert!(!collision_aabb_aabb(v(0, 0), v(10, 10), v(0, -21), v(10, 10)));
}

#[test]
fn touching_boxes_intersect() {
    assert!(collision_aabb_aabb(v(0, 0), v(10, 10), v(20, 0), v(10, 10)));
    assert!(collision_aabb_aabb(v(0, 0), v(10, 10), v(20, 20), v(10, 10)));
}

#[test]
fn intersection_is_symmetric_on_samples() {
    let boxes = [
        (v(0, 0), v(10, 10)),
        (v(20, 0), v(10, 10)),
        (v(21, 0), v(10, 10)),
        (v(-5, 30), v(3, 25)),
        (v(i32::MAX, i32::MIN), v(i32::MAX, 1)),
        (v(7, 7), v(0, 0)),
    ];
    for a in boxes.iter() {
        for b in boxes.iter() {
            assert_eq!(
                collision_aabb_aabb(a.0, a.1, b.0, b.1),
                collision_aabb_aabb(b.0, b.1, a.0, a.1)
            );
        }
    }
}

#[test]
fn manifold_exists_exactly_when_boxes_intersect() {
    let boxes = [
        (v(0, 0), v(10, 10)),
        (v(20, 0), v(10, 10)),
        (v(21, 0), v(10, 10)),
        (v(-5, 30), v(3, 25)),
        (v(i32::MAX, i32::MIN), v(i32::MAX, 1)),
    ];
    for a in boxes.iter() {
        for b in boxes.iter() {
            assert_eq!(
                collision_aabb_aabb_manifold(a.0, a.1, b.0, b.1).is_some(),
                collision_aabb_aabb(a.0, a.1, b.0, b.1)
            );
        }
    }
}

#[test]
fn manifold_reports_depth_normal_and_contact_point() {
    let manifold = collision_aabb_aabb_manifold(v(0, 0), v(10, 10), v(15, -4), v(10, 10)).unwrap();
    assert_eq!(
        manifold.contact_x,
        Contact { depth: 5, normal: v(SCALE, 0), contact_point: v(10, 0) }
    );
    assert_eq!(
        manifold.contact_y,
        Contact { depth: 16, normal: v(0, -SCALE), contact_point: v(0, -10) }
    );
    assert_eq!(manifold.best_contact().depth, 5);
}

#[test]
fn manifold_of_touching_boxes_has_depth_zero() {
    let manifold = collision_aabb_aabb_manifold(v(0, 0), v(10, 10), v(20, 0), v(10, 10)).unwrap();
    assert_eq!(manifold.contact_x.depth, 0);
    assert_eq!(manifold.contact_y.depth, 20);
}

#[test]
fn manifold_normal_is_positive_at_zero_distance() {
    let manifold = collision_aabb_aabb_manifold(v(3, 3), v(1, 1), v(3, 3), v(1, 1)).unwrap();
    assert_eq!(manifold.contact_x.normal, v(SCALE, 0));
    assert_eq!(manifold.contact_y.normal, v(0, SCALE));
    assert_eq!(manifold.contact_x.contact_point, v(4, 3));
    assert_eq!(manifold.contact_y.contact_point, v(3, 4));
}

#[test]
fn manifold_depth_saturates() {
    let manifold = collision_aabb_aabb_manifold(
        v(0, 0),
        v(i32::MAX, i32::MAX),
        v(0, 0),
        v(i32::MAX, i32::MAX),
    )
    .unwrap();
    assert_eq!(manifold.contact_x.depth, i32::MAX);
    assert!(manifold.contact_y.depth >= 0);
}

#[test]
fn best_contact_prefers_smaller_depth_and_x_on_tie() {
    let x = Contact::new(3, v(SCALE, 0), v(1, 2));
    let y = Contact::new(3, v(0, SCALE), v(2, 1));
    let tie = ContactManifold { contact_x: x, contact_y: y };
    assert_eq!(*tie.best_contact(), x);
    let shallow_y = ContactManifold { contact_x: x, contact_y: Contact::new(2, v(0, SCALE), v(2, 1)) };
    assert_eq!(shallow_y.best_contact().normal, v(0, SCALE));
    let shallow_x = ContactManifold { contact_x: Contact::new(1, v(-SCALE, 0), v(0, 0)), contact_y: y };
    assert_eq!(shallow_x.best_contact().normal, v(-SCALE, 0));
}

#[test]
fn colliders_apply_their_offsets() {
    let a = solid(v(10, 10), v(100, 0));
    let b = solid(v(10, 10), v(0, 0));
    assert!(!is_colliding(&a, v(0, 0), &b, v(0, 0)));
    assert!(is_colliding(&a, v(0, 0), &b, v(100, 0)));
    assert!(is_colliding(&a, v(-80, 0), &b, v(0, 0)));
    let manifold = collision_manifold(&a, v(0, 0), &b, v(115, 0)).unwrap();
    assert_eq!(manifold.contact_x.depth, 5);
    assert_eq!(manifold.contact_x.contact_point, v(110, 0));
    assert!(collision_manifold(&a, v(0, 0), &b, v(0, 0)).is_none());
}

#[test]
fn grazing_is_not_penetrating() {
    let a = solid(v(10, 10), v(0, 0));
    let b = solid(v(10, 10), v(0, 0));
    // the boxes touch: they collide, but the first has not sunk in
    assert!(is_colliding(&a, v(0, 0), &b, v(20, 0)));
    assert!(!is_penetrating(&a, v(0, 0), &b, v(20, 0), TOLERANCE));
    // one step deeper the faces of the shrunk box meet
    assert!(is_penetrating(&a, v(1, 0), &b, v(20, 0), TOLERANCE));
    // with no tolerance the test is the plain intersection
    assert!(is_penetrating(&a, v(0, 0), &b, v(20, 0), 0));
}

#[test]
fn penetration_shrinks_only_the_first_collider() {
    let small = solid(v(1, 1), v(0, 0));
    let big = solid(v(10, 10), v(0, 0));
    // a tolerance of the first box's size makes it a point that still meets
    assert!(is_penetrating(&small, v(0, 0), &big, v(10, 0), 1));
    assert!(!is_penetrating(&small, v(0, 0), &big, v(11, 0), 1));
    assert!(is_penetrating(&big, v(0, 0), &small, v(10, 0), 1));
    assert!(!is_penetrating(&big, v(0, 0), &small, v(11, 0), 1));
}
