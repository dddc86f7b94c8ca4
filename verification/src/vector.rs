//! Lattice vectors and the scalar helpers the geometry is stated with.

use vstd::prelude::*;

verus! {

/// The coordinate that stands for `v`: `v` itself where it fits in 32 bits,
/// otherwise the nearest end of the coordinate range.
pub open spec fn clamp_coord(v: int) -> int {
    if v < i32::MIN {
        i32::MIN as int
    } else if v > i32::MAX {
        i32::MAX as int
    } else {
        v
    }
}

/// The sign of `v`: -1, 0 or 1.
pub open spec fn sign_of(v: int) -> int {
    if v < 0 {
        -1
    } else if v > 0 {
        1
    } else {
        0
    }
}

/// The absolute value of `v`.
pub open spec fn magnitude(v: int) -> int {
    if v < 0 {
        -v
    } else {
        v
    }
}

/// Clamps a wide intermediate result to the coordinate range.
pub fn clamp_to_coord(v: i64) -> (r: i32)
    ensures
        r == clamp_coord(v as int),
{
    if v < i32::MIN as i64 {
        i32::MIN
    } else if v > i32::MAX as i64 {
        i32::MAX
    } else {
        v as i32
    }
}

/// Clamps a result computed in 128 bits to the coordinate range.
pub fn clamp_wide(v: i128) -> (r: i32)
    ensures
        r == clamp_coord(v as int),
{
    if v < i32::MIN as i128 {
        i32::MIN
    } else if v > i32::MAX as i128 {
        i32::MAX
    } else {
        v as i32
    }
}

/// The sign of a wide value as a coordinate.
pub fn sign_i64(v: i64) -> (r: i32)
    ensures
        r == sign_of(v as int),
{
    if v < 0 {
        -1
    } else if v > 0 {
        1
    } else {
        0
    }
}

/// The absolute value of a difference of two coordinates, which always fits in 64 bits.
pub fn abs_i64(v: i64) -> (r: i64)
    requires
        v > i64::MIN,
    ensures
        r == magnitude(v as int),
{
    if v < 0 {
        -v
    } else {
        v
    }
}

/// A point or a displacement on the lattice.
#[derive(Clone, Copy, Debug, PartialEq, Eq, Structural)]
pub struct Vector {
    pub x: i32,
    pub y: i32,
}

impl Vector {
    /// The vector with the given coordinates.
    pub fn new(x: i32, y: i32) -> (v: Vector)
        ensures
            v == (Vector { x, y }),
    {
        Vector { x, y }
    }

    /// The origin.
    pub fn zero() -> (v: Vector)
        ensures
            v == (Vector { x: 0, y: 0 }),
    {
        Vector { x: 0, y: 0 }
    }

    /// The sum of two vectors, clamped per axis.
    pub fn plus(self, other: Vector) -> (v: Vector)
        ensures
            v == self.advanced(other, 1),
    {
        Vector {
            x: clamp_to_coord(self.x as i64 + other.x as i64),
            y: clamp_to_coord(self.y as i64 + other.y as i64),
        }
    }

    /// The sum `self + scale * step`, clamped per axis.
    pub open spec fn advanced(self, step: Vector, scale: int) -> Vector {
        Vector {
            x: clamp_coord(self.x + step.x * scale) as i32,
            y: clamp_coord(self.y + step.y * scale) as i32,
        }
    }
}

impl Default for Vector {
    /// The origin.
    fn default() -> (v: Vector)
        ensures
            v == (Vector { x: 0, y: 0 }),
    {
        Vector { x: 0, y: 0 }
    }
}

} // verus!
