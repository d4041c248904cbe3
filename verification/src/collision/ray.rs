//! Rays: where a ray enters a box.

use vstd::prelude::*;
use crate::vector::{
    greater, lesser, magnitude, saturate, saturated, scaled, scaled_product, Vec2, SCALE,
};

verus! {

/// A ray from `origin` to `origin + dir * toi`.
#[derive(Copy, Clone, Debug, PartialEq, Eq, Structural)]
pub struct Ray {
    pub origin: Vec2,
    pub dir: Vec2,
    /// Fraction of `dir` that the ray covers, as a fixed-point value:
    /// `SCALE` stands for the whole of `dir`.
    pub toi: i32,
}

/// Where a ray enters a box.
#[derive(Copy, Clone, Debug, PartialEq, Eq, Structural)]
pub struct Raycast {
    /// The fraction of `dir` covered when the ray enters the box.
    pub toi: i32,
    /// Outward unit normal of the face through which the ray enters.
    pub normal: Vec2,
}

/// Coordinate at which a ray ends on one axis.
pub open spec fn ray_end(origin: int, dir: int, toi: int) -> int {
    origin + scaled(dir, toi)
}

/// Whether the segment between `from` and `to` and the interval
/// `[centre - half, centre + half]` share a point.
pub open spec fn span_meets(from: int, to: int, centre: int, half: int) -> bool {
    !(centre + half < lesser(from, to) || greater(from, to) < centre - half)
}

/// Fraction of a one-dimensional ray at which it crosses a plane, given the
/// signed distances `da` of its start and `db` of its end in front of the
/// plane. `SCALE` means that the ray does not cross; zero that it starts
/// behind the plane.
pub open spec fn plane_time(da: int, db: int) -> int {
    if da < 0 {
        0
    } else if da * db >= 0 {
        SCALE as int
    } else {
        da * SCALE / (da - db)
    }
}

/// Fraction at which the ray from `from` to `to` crosses the plane at
/// `plane` whose normal points along `sign` (`1` or `-1`).
pub open spec fn plane_crossing(from: int, to: int, sign: int, plane: int) -> int {
    plane_time((from - plane) * sign, (to - plane) * sign)
}

/// A crossing counts only if it comes before the end of the ray.
pub open spec fn accepted(t: int) -> int {
    if t < SCALE {
        t
    } else {
        0
    }
}

/// Twice the signed area that separates the line through the ray from the
/// box: positive when the whole box lies on one side of that line.
pub open spec fn line_clearance(
    origin_x: int,
    origin_y: int,
    end_x: int,
    end_y: int,
    pos_x: int,
    pos_y: int,
    half_exts: Vec2,
) -> int {
    let nx = -(end_y - origin_y);
    let ny = end_x - origin_x;
    magnitude(nx * (origin_x - pos_x) + ny * (origin_y - pos_y)) - (magnitude(nx) * half_exts.x
        + magnitude(ny) * half_exts.y)
}

/// The four plane crossings of a ray against a box, in the order left,
/// right, top, bottom.
pub open spec fn crossings(ray: Ray, pos_x: int, pos_y: int, half_exts: Vec2) -> (
    int,
    int,
    int,
    int,
) {
    let end_x = ray_end(ray.origin.x as int, ray.dir.x as int, ray.toi as int);
    let end_y = ray_end(ray.origin.y as int, ray.dir.y as int, ray.toi as int);
    (
        plane_crossing(ray.origin.x as int, end_x, -1, pos_x - half_exts.x),
        plane_crossing(ray.origin.x as int, end_x, 1, pos_x + half_exts.x),
        plane_crossing(ray.origin.y as int, end_y, -1, pos_y - half_exts.y),
        plane_crossing(ray.origin.y as int, end_y, 1, pos_y + half_exts.y),
    )
}

/// Whether the ray can reach the box at all: its bounding box meets the box
/// and the box does not lie wholly on one side of the ray's line.
pub open spec fn ray_reaches(ray: Ray, pos_x: int, pos_y: int, half_exts: Vec2) -> bool {
    let end_x = ray_end(ray.origin.x as int, ray.dir.x as int, ray.toi as int);
    let end_y = ray_end(ray.origin.y as int, ray.dir.y as int, ray.toi as int);
    &&& span_meets(ray.origin.x as int, end_x, pos_x, half_exts.x as int)
    &&& span_meets(ray.origin.y as int, end_y, pos_y, half_exts.y as int)
    &&& line_clearance(
        ray.origin.x as int,
        ray.origin.y as int,
        end_x,
        end_y,
        pos_x,
        pos_y,
        half_exts,
    ) <= 0
}

/// The hit of a ray on a box.
pub open spec fn raycast(ray: Ray, pos: Vec2, half_exts: Vec2) -> Option<Raycast> {
    raycast_at(ray, pos.x as int, pos.y as int, half_exts)
}

/// The hit of a ray on the box with its centre at `(pos_x, pos_y)`: the
/// latest accepted plane crossing, with the normal of the first plane, in
/// the order left, right, top, bottom, that has it.
pub open spec fn raycast_at(ray: Ray, pos_x: int, pos_y: int, half_exts: Vec2) -> Option<Raycast> {
    let (left, right, top, bottom) = crossings(ray, pos_x, pos_y, half_exts);
    if !ray_reaches(ray, pos_x, pos_y, half_exts) {
        None
    } else if !(left < SCALE || right < SCALE || top < SCALE || bottom < SCALE) {
        None
    } else {
        let t_left = accepted(left);
        let t_right = accepted(right);
        let t_top = accepted(top);
        let t_bottom = accepted(bottom);
        let t_max = greater(greater(greater(t_left, t_right), t_top), t_bottom);
        Some(
            Raycast {
                toi: saturated(scaled(ray.toi as int, t_max)) as i32,
                normal: if t_left == t_max {
                    Vec2 { x: (-SCALE) as i32, y: 0 }
                } else if t_right == t_max {
                    Vec2 { x: SCALE, y: 0 }
                } else if t_top == t_max {
                    Vec2 { x: 0, y: (-SCALE) as i32 }
                } else {
                    Vec2 { x: 0, y: SCALE }
                },
            },
        )
    }
}

/// Bound on the coordinates that the ray arithmetic works on.
pub open spec fn ray_coordinate(v: int) -> bool {
    -0x4000_0001_0000_0000 <= v <= 0x4000_0001_0000_0000
}

fn span_meets_wide(from: i64, to: i64, centre: i64, half: i32) -> (r: bool)
    requires
        -0x1_0000_0000 <= centre <= 0x1_0000_0000,
    ensures
        r == span_meets(from as int, to as int, centre as int, half as int),
{
    let low: i64 = if from <= to { from } else { to };
    let high: i64 = if from >= to { from } else { to };
    !(centre + (half as i64) < low || high < centre - half as i64)
}

fn wide_product(a: i64, b: i64) -> (r: i128)
    requires
        -0x2_0000_0000 <= b <= 0x2_0000_0000,
    ensures
        r == a * b,
        -0x1_0000_0000_0000_0000_0000_0000 <= r <= 0x1_0000_0000_0000_0000_0000_0000,
{
    assert(-0x1_0000_0000_0000_0000_0000_0000 <= (a as int) * (b as int)
        <= 0x1_0000_0000_0000_0000_0000_0000) by (nonlinear_arith)
        requires
            -0x8000_0000_0000_0000 <= (a as int) <= 0x8000_0000_0000_0000,
            -0x2_0000_0000 <= (b as int) <= 0x2_0000_0000,
    ;
    (a as i128) * (b as i128)
}

fn wide_magnitude(v: i128) -> (r: i128)
    requires
        v > i128::MIN,
    ensures
        r == magnitude(v as int),
{
    if v < 0 {
        -v
    } else {
        v
    }
}

fn line_clears_box(
    origin: Vec2,
    end_x: i64,
    end_y: i64,
    pos_x: i64,
    pos_y: i64,
    half_exts: Vec2,
) -> (r: bool)
    requires
        ray_coordinate(end_x as int),
        ray_coordinate(end_y as int),
        -0x1_0000_0000 <= pos_x <= 0x1_0000_0000,
        -0x1_0000_0000 <= pos_y <= 0x1_0000_0000,
    ensures
        r == (line_clearance(
            origin.x as int,
            origin.y as int,
            end_x as int,
            end_y as int,
            pos_x as int,
            pos_y as int,
            half_exts,
        ) > 0),
{
    let nx: i64 = -(end_y - origin.y as i64);
    let ny: i64 = end_x - origin.x as i64;
    let across: i128 = wide_product(nx, origin.x as i64 - pos_x) + wide_product(
        ny,
        origin.y as i64 - pos_y,
    );
    let nx_size: i64 = if nx < 0 { -nx } else { nx };
    let ny_size: i64 = if ny < 0 { -ny } else { ny };
    let extent: i128 = wide_product(nx_size, half_exts.x as i64) + wide_product(
        ny_size,
        half_exts.y as i64,
    );
    wide_magnitude(across) - extent > 0
}

/// Time at which a one-dimensional ray crosses a plane; see [`plane_time`].
fn ray_plane_1d_time(da: i64, db: i64) -> (t: i32)
    requires
        -0x8_0000_0000 <= da <= 0x8_0000_0000,
        -0x4000_0003_0000_0000 <= db <= 0x4000_0003_0000_0000,
    ensures
        t == plane_time(da as int, db as int),
        0 <= t <= SCALE,
{
    if da < 0 {
        0
    } else if da == 0 || db >= 0 {
        assert((da as int) * (db as int) >= 0) by (nonlinear_arith)
            requires
                da >= 0,
                da == 0 || db >= 0,
        ;
        SCALE
    } else {
        assert((da as int) * (db as int) < 0) by (nonlinear_arith)
            requires
                da > 0,
                db < 0,
        ;
        let span: i64 = da - db;
        let t: i64 = da * (SCALE as i64) / span;
        assert(0 <= (da as int) * (SCALE as int) / (span as int) < SCALE as int)
            by (nonlinear_arith)
            requires
                0 < da < span,
                SCALE == 1000,
        ;
        t as i32
    }
}

/// Time at which the ray from `from` to `to` crosses the plane at `plane`;
/// `outward` is true for a plane whose normal points along the axis.
fn ray_plane_1d(from: i32, to: i64, outward: bool, plane: i64) -> (t: i32)
    requires
        ray_coordinate(to as int),
        -0x2_0000_0000 <= plane <= 0x2_0000_0000,
    ensures
        t == plane_crossing(from as int, to as int, if outward { 1 } else { -1 }, plane as int),
        0 <= t <= SCALE,
{
    if outward {
        ray_plane_1d_time(from as i64 - plane, to - plane)
    } else {
        ray_plane_1d_time(plane - from as i64, plane - to)
    }
}

/// Casts a ray at a box by the slab method.
///
/// Returns `None` when the ray's bounding box misses the box, when the box
/// lies wholly beside the ray's line, or when the ray crosses none of the
/// box's four planes before its end. Otherwise the hit is the latest of the
/// accepted crossings, and its normal that of the plane crossed then.
pub fn contact_ray_aabb(ray: &Ray, aabb_pos: Vec2, aabb_half_exts: Vec2) -> (hit: Option<Raycast>)
    ensures
        hit == raycast(*ray, aabb_pos, aabb_half_exts),
{
    ray_hit_wide(ray, aabb_pos.x as i64, aabb_pos.y as i64, aabb_half_exts)
}

/// The ray cast at a box whose centre is given in wide coordinates.
pub(crate) fn ray_hit_wide(ray: &Ray, pos_x: i64, pos_y: i64, half_exts: Vec2) -> (hit: Option<
    Raycast,
>)
    requires
        -0x1_0000_0000 <= pos_x <= 0x1_0000_0000,
        -0x1_0000_0000 <= pos_y <= 0x1_0000_0000,
    ensures
        hit == raycast_at(*ray, pos_x as int, pos_y as int, half_exts),
{
    let end_x: i64 = ray.origin.x as i64 + scaled_product(ray.dir.x, ray.toi);
    let end_y: i64 = ray.origin.y as i64 + scaled_product(ray.dir.y, ray.toi);

    let reach_x = span_meets_wide(ray.origin.x as i64, end_x, pos_x, half_exts.x);
    let reach_y = span_meets_wide(ray.origin.y as i64, end_y, pos_y, half_exts.y);
    let clear = line_clears_box(ray.origin, end_x, end_y, pos_x, pos_y, half_exts);

    let left = ray_plane_1d(ray.origin.x, end_x, false, pos_x - half_exts.x as i64);
    let right = ray_plane_1d(ray.origin.x, end_x, true, pos_x + half_exts.x as i64);
    let top = ray_plane_1d(ray.origin.y, end_y, false, pos_y - half_exts.y as i64);
    let bottom = ray_plane_1d(ray.origin.y, end_y, true, pos_y + half_exts.y as i64);

    if !reach_x || !reach_y || clear {
        return None;
    }
    let hit_left = left < SCALE;
    let hit_right = right < SCALE;
    let hit_top = top < SCALE;
    let hit_bottom = bottom < SCALE;
    if !(hit_left || hit_right || hit_top || hit_bottom) {
        return None;
    }
    // a crossing that comes too late counts as zero
    let t_left: i32 = if hit_left { left } else { 0 };
    let t_right: i32 = if hit_right { right } else { 0 };
    let t_top: i32 = if hit_top { top } else { 0 };
    let t_bottom: i32 = if hit_bottom { bottom } else { 0 };

    let mut t_max: i32 = t_left;
    if t_right > t_max {
        t_max = t_right;
    }
    if t_top > t_max {
        t_max = t_top;
    }
    if t_bottom > t_max {
        t_max = t_bottom;
    }
    let toi = saturate(scaled_product(ray.toi, t_max));
    let normal = if t_left == t_max {
        Vec2::new(-SCALE, 0)
    } else if t_right == t_max {
        Vec2::new(SCALE, 0)
    } else if t_top == t_max {
        Vec2::new(0, -SCALE)
    } else {
        Vec2::new(0, SCALE)
    };
    Some(Raycast { toi, normal })
}

} // verus!
