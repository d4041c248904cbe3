//! Fixed-point numbers and vectors.

use vstd::prelude::*;

verus! {

/// Number of fixed-point steps in one unit: the value `1.0` is stored as `SCALE`.
pub const SCALE: i32 = 1000;

/// Depth by which a moving box may sink into another before the move counts
/// as penetrating: one fixed-point step, a thousandth of a unit.
pub const TOLERANCE: i32 = 1;

/// A point or displacement in the plane, in fixed-point steps.
#[derive(Default, Copy, Clone, Debug, PartialEq, Eq, Structural, Hash)]
pub struct Vec2 {
    pub x: i32,
    pub y: i32,
}

/// The nearest value to `v` that an `i32` can hold.
pub open spec fn saturated(v: int) -> int {
    if v < i32::MIN {
        i32::MIN as int
    } else if v > i32::MAX {
        i32::MAX as int
    } else {
        v
    }
}

/// Quotient of `a` by a positive `b`, rounded toward zero.
pub open spec fn quotient(a: int, b: int) -> int {
    if a >= 0 {
        a / b
    } else {
        -((-a) / b)
    }
}

/// Fixed-point product of two fixed-point values: `a * b / SCALE`, rounded toward zero.
pub open spec fn scaled(a: int, b: int) -> int {
    quotient(a * b, SCALE as int)
}

/// Absolute value.
pub open spec fn magnitude(v: int) -> int {
    if v < 0 {
        -v
    } else {
        v
    }
}

/// The lesser of two values.
pub open spec fn lesser(a: int, b: int) -> int {
    if a <= b {
        a
    } else {
        b
    }
}

/// The greater of two values.
pub open spec fn greater(a: int, b: int) -> int {
    if a >= b {
        a
    } else {
        b
    }
}

/// Stores a wide value in an `i32`, clamping it to the ends of the range.
pub fn saturate(v: i64) -> (r: i32)
    ensures
        r == saturated(v as int),
{
    if v < i32::MIN as i64 {
        i32::MIN
    } else if v > i32::MAX as i64 {
        i32::MAX
    } else {
        v as i32
    }
}

/// Fixed-point product, exact in 64 bits.
pub fn scaled_product(a: i32, b: i32) -> (r: i64)
    ensures
        r == scaled(a as int, b as int),
        -0x4000_0000_0000_0000 <= r <= 0x4000_0000_0000_0000,
{
    assert(-0x4000_0000_0000_0000 <= (a as int) * (b as int) <= 0x4000_0000_0000_0000)
        by (nonlinear_arith)
        requires
            -0x8000_0000 <= (a as int) <= 0x7fff_ffff,
            -0x8000_0000 <= (b as int) <= 0x7fff_ffff,
    ;
    let p: i64 = (a as i64) * (b as i64);
    if p >= 0 {
        p / (SCALE as i64)
    } else {
        -((-p) / (SCALE as i64))
    }
}

impl Vec2 {
    pub fn new(x: i32, y: i32) -> (v: Vec2)
        ensures
            v == (Vec2 { x, y }),
    {
        Vec2 { x, y }
    }

    /// The origin.
    pub fn zero() -> (v: Vec2)
        ensures
            v == (Vec2 { x: 0, y: 0 }),
    {
        Vec2 { x: 0, y: 0 }
    }

    /// The vector with both components equal to `v`.
    pub fn splat(v: i32) -> (r: Vec2)
        ensures
            r == (Vec2 { x: v, y: v }),
    {
        Vec2 { x: v, y: v }
    }

    /// This vector multiplied by the fixed-point factor `factor`, each
    /// component rounded toward zero and saturated.
    pub open spec fn spec_times(self, factor: int) -> Vec2 {
        Vec2 {
            x: saturated(scaled(self.x as int, factor)) as i32,
            y: saturated(scaled(self.y as int, factor)) as i32,
        }
    }

    /// Multiplies by a fixed-point factor: `times(SCALE)` is the identity.
    pub fn times(self, factor: i32) -> (r: Vec2)
        ensures
            r == self.spec_times(factor as int),
    {
        Vec2 {
            x: saturate(scaled_product(self.x, factor)),
            y: saturate(scaled_product(self.y, factor)),
        }
    }
}

} // verus!
