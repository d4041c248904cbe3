use resphys::{contact_ray_aabb, Ray, Raycast, Vec2, SCALE};

fn v(x: i32, y: i32) -> Vec2 {
    Vec2::new(x, y)
}

#[test]
fn ray_hits_left_face() {
    let ray = Ray { origin: v(0, 0), dir: v(10_000, 0), toi: SCALE };
    let hit = contact_ray_aabb(&ray, v(5_000, 0), v(1_000, 1_000));
    // the left face is at 4000 of 10000: four tenths of the ray
    assert_eq!(hit, Some(Raycast { toi: 400, normal: v(-SCALE, 0) }));
}

#[test]
fn ray_hits_right_face() {
    let ray = Ray { origin: v(10_000, 0), dir: v(-10_000, 0), toi: SCALE };
    let hit = contact_ray_aabb(&ray, v(5_000, 0), v(1_000, 1_000));
    assert_eq!(hit, Some(Raycast { toi: 400, normal: v(SCALE, 0) }));
}

#[test]
fn ray_hits_top_and_bottom_faces() {
    let down = Ray { origin: v(0, -8_000), dir: v(0, 16_000), toi: SCALE };
    assert_eq!(
        contact_ray_aabb(&down, v(0, 0), v(2_000, 2_000)),
        Some(Raycast { toi: 375, normal: v(0, -SCALE) })
    );
    let up = Ray { origin: v(0, 8_000), dir: v(0, -16_000), toi: SCALE };
    assert_eq!(
        contact_ray_aabb(&up, v(0, 0), v(2_000, 2_000)),
        Some(Raycast { toi: 375, normal: v(0, SCALE) })
    );
}

#[test]
fn ray_time_is_scaled_by_its_length() {
    // half of the direction is covered: the end lies at 10000
    let ray = Ray { origin: v(0, 0), dir: v(20_000, 0), toi: 500 };
    let hit = contact_ray_aabb(&ray, v(5_000, 0), v(1_000, 1_000));
    assert_eq!(hit, Some(Raycast { toi: 200, normal: v(-SCALE, 0) }));
}

#[test]
fn ray_time_rounds_toward_zero() {
    let ray = Ray { origin: v(0, 0), dir: v(3, 0), toi: SCALE };
    // the face at 1 of 3: a third, 333 thousandths
    let hit = contact_ray_aabb(&ray, v(2, 0), v(1, 1));
    assert_eq!(hit, Some(Raycast { toi: 333, normal: v(-SCALE, 0) }));
}

#[test]
fn diagonal_ray_takes_the_later_crossing() {
    let ray = Ray { origin: v(0, 0), dir: v(10_000, 10_000), toi: SCALE };
    // crosses the left plane at 0.3 and the top plane at 0.4
    let hit = contact_ray_aabb(&ray, v(5_000, 5_000), v(2_000, 1_000));
    assert_eq!(hit, Some(Raycast { toi: 400, normal: v(0, -SCALE) }));
}

#[test]
fn equal_crossings_report_the_left_plane_first() {
    let ray = Ray { origin: v(0, 0), dir: v(10_000, 10_000), toi: SCALE };
    let hit = contact_ray_aabb(&ray, v(5_000, 5_000), v(1_000, 1_000));
    assert_eq!(hit, Some(Raycast { toi: 400, normal: v(-SCALE, 0) }));
}

#[test]
fn short_ray_misses() {
    let ray = Ray { origin: v(0, 0), dir: v(10_000, 0), toi: 300 };
    assert_eq!(contact_ray_aabb(&ray, v(5_000, 0), v(1_000, 1_000)), None);
}

#[test]
fn ray_beside_the_box_misses() {
    let ray = Ray { origin: v(0, 5_000), dir: v(10_000, 0), toi: SCALE };
    assert_eq!(contact_ray_aabb(&ray, v(5_000, 0), v(1_000, 1_000)), None);
}

#[test]
fn diagonal_ray_past_the_corner_misses() {
    // the bounding boxes meet, but the box lies on one side of the line
    let ray = Ray { origin: v(0, 0), dir: v(10_000, 10_000), toi: SCALE };
    assert_eq!(contact_ray_aabb(&ray, v(8_000, 2_000), v(1_000, 1_000)), None);
}

#[test]
fn ray_from_inside_reports_time_zero() {
    let ray = Ray { origin: v(0, 0), dir: v(10_000, 0), toi: SCALE };
    let hit = contact_ray_aabb(&ray, v(0, 0), v(1_000, 1_000));
    assert_eq!(hit, Some(Raycast { toi: 0, normal: v(-SCALE, 0) }));
}

#[test]
fn ray_of_no_length_inside_the_box_hits_at_zero() {
    let ray = Ray { origin: v(0, 0), dir: v(10_000, 0), toi: 0 };
    let hit = contact_ray_aabb(&ray, v(0, 0), v(1_000, 1_000));
    assert_eq!(hit, Some(Raycast { toi: 0, normal: v(-SCALE, 0) }));
}

#[test]
fn ray_at_the_ends_of_the_range_does_not_overflow() {
    let ray = Ray { origin: v(i32::MIN, i32::MIN), dir: v(i32::MAX, i32::MAX), toi: i32::MAX };
    let hit = contact_ray_aabb(&ray, v(i32::MAX, i32::MAX), v(i32::MAX, i32::MAX));
    assert!(hit.is_some());
    let back = Ray { origin: v(i32::MAX, i32::MAX), dir: v(i32::MIN, i32::MIN), toi: i32::MIN };
    let _ = contact_ray_aabb(&back, v(i32::MIN, i32::MIN), v(i32::MIN, i32::MIN));
}
