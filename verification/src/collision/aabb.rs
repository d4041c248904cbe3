//! Boxes: whether two of them meet, and by how much.

use vstd::prelude::*;
use crate::vector::{saturate, saturated, magnitude, Vec2, SCALE};

verus! {

/// An axis-aligned box, given by its half width and half height.
#[derive(Default, Copy, Clone, Debug, PartialEq, Eq, Structural)]
pub struct AABB {
    /// half width, half height
    pub half_exts: Vec2,
}

/// One axis of a contact between two boxes.
#[derive(Copy, Clone, Debug, PartialEq, Eq, Structural)]
pub struct Contact {
    /// How far the boxes overlap along the axis; never negative.
    pub depth: i32,
    /// Unit vector along the axis, pointing from the first box to the second.
    pub normal: Vec2,
    /// Middle of the first box's face on the side of the second box.
    pub contact_point: Vec2,
}

impl Contact {
    pub fn new(depth: i32, normal: Vec2, contact_point: Vec2) -> (c: Contact)
        ensures
            c == (Contact { depth, normal, contact_point }),
    {
        Contact { depth, normal, contact_point }
    }
}

/// The contacts of two overlapping boxes, one per axis.
#[derive(Copy, Clone, Debug, PartialEq, Eq, Structural)]
pub struct ContactManifold {
    pub contact_x: Contact,
    pub contact_y: Contact,
}

impl ContactManifold {
    /// The contact of smaller depth; the horizontal one when both are equal.
    pub open spec fn spec_best_contact(self) -> Contact {
        if self.contact_y.depth < self.contact_x.depth {
            self.contact_y
        } else {
            self.contact_x
        }
    }

    pub fn best_contact(&self) -> (best: &Contact)
        ensures
            *best == self.spec_best_contact(),
    {
        if self.contact_y.depth < self.contact_x.depth {
            &self.contact_y
        } else {
            &self.contact_x
        }
    }
}

/// Whether two intervals `[a - ah, a + ah]` and `[b - bh, b + bh]` are apart:
/// one ends strictly below the start of the other.
pub open spec fn apart(a: int, ah: int, b: int, bh: int) -> bool {
    b + bh < a - ah || a + ah < b - bh
}

/// Whether the box at `(ax, ay)` meets the box at `(bx, by)`: they are apart
/// on neither axis. Boxes that only touch do meet.
pub open spec fn boxes_meet(
    ax: int,
    ay: int,
    ahx: int,
    ahy: int,
    bx: int,
    by: int,
    bhx: int,
    bhy: int,
) -> bool {
    !apart(ax, ahx, bx, bhx) && !apart(ay, ahy, by, bhy)
}

/// The intersection test on stored vectors.
pub open spec fn intersects(a_loc: Vec2, a_half_exts: Vec2, b_loc: Vec2, b_half_exts: Vec2)
    -> bool {
    boxes_meet(
        a_loc.x as int,
        a_loc.y as int,
        a_half_exts.x as int,
        a_half_exts.y as int,
        b_loc.x as int,
        b_loc.y as int,
        b_half_exts.x as int,
        b_half_exts.y as int,
    )
}

/// Overlap of two intervals along one axis: the sum of the half lengths less
/// the distance of the centres. Negative when the intervals are apart.
pub open spec fn overlap(a: int, ah: int, b: int, bh: int) -> int {
    ah + bh - magnitude(b - a)
}

/// Sign of a centre-to-centre distance as a fixed-point unit; a zero
/// distance counts as positive.
pub open spec fn direction(distance: int) -> int {
    if distance < 0 {
        -(SCALE as int)
    } else {
        SCALE as int
    }
}

/// Coordinate of the face of `[a - ah, a + ah]` that looks toward `b`.
pub open spec fn facing_side(a: int, ah: int, b: int) -> int {
    if b - a < 0 {
        a - ah
    } else {
        a + ah
    }
}

/// The manifold of the box at `(ax, ay)` against the box at `(bx, by)`, if
/// they meet. Depths and contact points saturate when they are stored.
pub open spec fn manifold_at(
    ax: int,
    ay: int,
    ahx: int,
    ahy: int,
    bx: int,
    by: int,
    bhx: int,
    bhy: int,
) -> Option<ContactManifold> {
    let over_x = overlap(ax, ahx, bx, bhx);
    let over_y = overlap(ay, ahy, by, bhy);
    if over_x < 0 || over_y < 0 {
        None
    } else {
        Some(
            ContactManifold {
                contact_x: Contact {
                    depth: saturated(over_x) as i32,
                    normal: Vec2 { x: direction(bx - ax) as i32, y: 0 },
                    contact_point: Vec2 {
                        x: saturated(facing_side(ax, ahx, bx)) as i32,
                        y: saturated(ay) as i32,
                    },
                },
                contact_y: Contact {
                    depth: saturated(over_y) as i32,
                    normal: Vec2 { x: 0, y: direction(by - ay) as i32 },
                    contact_point: Vec2 {
                        x: saturated(ax) as i32,
                        y: saturated(facing_side(ay, ahy, by)) as i32,
                    },
                },
            },
        )
    }
}

/// The manifold of two boxes given by stored vectors.
pub open spec fn manifold(a_loc: Vec2, a_half_exts: Vec2, b_loc: Vec2, b_half_exts: Vec2) -> Option<
    ContactManifold,
> {
    manifold_at(
        a_loc.x as int,
        a_loc.y as int,
        a_half_exts.x as int,
        a_half_exts.y as int,
        b_loc.x as int,
        b_loc.y as int,
        b_half_exts.x as int,
        b_half_exts.y as int,
    )
}

/// Largest magnitude that the wide intersection test takes.
pub const WIDE_LIMIT: i64 = 0x1000_0000_0000_0000;

/// Whether a magnitude is within the limit of the wide tests.
pub open spec fn in_wide_range(v: int) -> bool {
    -(WIDE_LIMIT as int) <= v <= WIDE_LIMIT as int
}

/// The intersection test on wide coordinates.
pub(crate) fn boxes_meet_wide(
    ax: i64,
    ay: i64,
    ahx: i64,
    ahy: i64,
    bx: i64,
    by: i64,
    bhx: i64,
    bhy: i64,
) -> (r: bool)
    requires
        in_wide_range(ax as int),
        in_wide_range(ay as int),
        in_wide_range(ahx as int),
        in_wide_range(ahy as int),
        in_wide_range(bx as int),
        in_wide_range(by as int),
        in_wide_range(bhx as int),
        in_wide_range(bhy as int),
    ensures
        r == boxes_meet(
            ax as int,
            ay as int,
            ahx as int,
            ahy as int,
            bx as int,
            by as int,
            bhx as int,
            bhy as int,
        ),
{
    let d0 = bx + bhx < ax - ahx;
    let d1 = ax + ahx < bx - bhx;
    let d2 = by + bhy < ay - ahy;
    let d3 = ay + ahy < by - bhy;
    !(d0 || d1 || d2 || d3)
}

/// Tests whether two boxes meet: whether they overlap or touch on both axes.
pub fn collision_aabb_aabb(a_loc: Vec2, a_half_exts: Vec2, b_loc: Vec2, b_half_exts: Vec2) -> (r:
    bool)
    ensures
        r == intersects(a_loc, a_half_exts, b_loc, b_half_exts),
{
    boxes_meet_wide(
        a_loc.x as i64,
        a_loc.y as i64,
        a_half_exts.x as i64,
        a_half_exts.y as i64,
        b_loc.x as i64,
        b_loc.y as i64,
        b_half_exts.x as i64,
        b_half_exts.y as i64,
    )
}

/// The manifold on wide coordinates.
pub(crate) fn manifold_wide(
    ax: i64,
    ay: i64,
    ahx: i64,
    ahy: i64,
    bx: i64,
    by: i64,
    bhx: i64,
    bhy: i64,
) -> (r: Option<ContactManifold>)
    requires
        in_wide_range(ax as int),
        in_wide_range(ay as int),
        in_wide_range(ahx as int),
        in_wide_range(ahy as int),
        in_wide_range(bx as int),
        in_wide_range(by as int),
        in_wide_range(bhx as int),
        in_wide_range(bhy as int),
    ensures
        r == manifold_at(
            ax as int,
            ay as int,
            ahx as int,
            ahy as int,
            bx as int,
            by as int,
            bhx as int,
            bhy as int,
        ),
{
    let distance_x: i64 = bx - ax;
    let distance_y: i64 = by - ay;
    let reach_x: i64 = if distance_x < 0 { -distance_x } else { distance_x };
    let reach_y: i64 = if distance_y < 0 { -distance_y } else { distance_y };
    let over_x: i64 = ahx + bhx - reach_x;
    let over_y: i64 = ahy + bhy - reach_y;

    if over_x < 0 || over_y < 0 {
        return None;
    }
    let sign_x: i32 = if distance_x < 0 { -SCALE } else { SCALE };
    let sign_y: i32 = if distance_y < 0 { -SCALE } else { SCALE };
    let side_x: i64 = if distance_x < 0 { ax - ahx } else { ax + ahx };
    let side_y: i64 = if distance_y < 0 { ay - ahy } else { ay + ahy };
    let contact_x = Contact::new(
        saturate(over_x),
        Vec2::new(sign_x, 0),
        Vec2::new(saturate(side_x), saturate(ay)),
    );
    let contact_y = Contact::new(
        saturate(over_y),
        Vec2::new(0, sign_y),
        Vec2::new(saturate(ax), saturate(side_y)),
    );
    Some(ContactManifold { contact_x, contact_y })
}

/// Computes the contacts of two boxes, one per axis, or `None` when the
/// boxes are apart on some axis.
///
/// The contact points are not exact: each lies in the middle of the first
/// box's face on the side of the second box.
pub fn collision_aabb_aabb_manifold(
    a_loc: Vec2,
    a_half_exts: Vec2,
    b_loc: Vec2,
    b_half_exts: Vec2,
) -> (r: Option<ContactManifold>)
    ensures
        r == manifold(a_loc, a_half_exts, b_loc, b_half_exts),
{
    manifold_wide(
        a_loc.x as i64,
        a_loc.y as i64,
        a_half_exts.x as i64,
        a_half_exts.y as i64,
        b_loc.x as i64,
        b_loc.y as i64,
        b_half_exts.x as i64,
        b_half_exts.y as i64,
    )
}

/// The intersection test does not depend on the order of the two boxes.
pub proof fn lemma_intersection_symmetric(
    a_loc: Vec2,
    a_half_exts: Vec2,
    b_loc: Vec2,
    b_half_exts: Vec2,
)
    ensures
        intersects(a_loc, a_half_exts, b_loc, b_half_exts) == intersects(
            b_loc,
            b_half_exts,
            a_loc,
            a_half_exts,
        ),
{
}

/// Two boxes have a manifold exactly when they meet.
pub proof fn lemma_manifold_iff_intersects(
    a_loc: Vec2,
    a_half_exts: Vec2,
    b_loc: Vec2,
    b_half_exts: Vec2,
)
    ensures
        manifold(a_loc, a_half_exts, b_loc, b_half_exts).is_some() == intersects(
            a_loc,
            a_half_exts,
            b_loc,
            b_half_exts,
        ),
{
}

/// Both depths of a manifold are at least zero, and so is the depth of its
/// best contact.
pub proof fn lemma_manifold_depth_nonnegative(
    a_loc: Vec2,
    a_half_exts: Vec2,
    b_loc: Vec2,
    b_half_exts: Vec2,
)
    requires
        manifold(a_loc, a_half_exts, b_loc, b_half_exts).is_some(),
    ensures
        manifold(a_loc, a_half_exts, b_loc, b_half_exts).unwrap().contact_x.depth >= 0,
        manifold(a_loc, a_half_exts, b_loc, b_half_exts).unwrap().contact_y.depth >= 0,
        manifold(a_loc, a_half_exts, b_loc, b_half_exts).unwrap().spec_best_contact().depth >= 0,
{
}

} // verus!
