//! Overlap tests and contact manifolds for axis-aligned boxes.

use vstd::prelude::*;
use crate::vector::{abs_i64, clamp_coord, clamp_to_coord, magnitude, sign_i64, sign_of, Vector};

verus! {

/// What two overlapping boxes share: for each axis a penetration depth, the
/// direction from the first box to the second, and a point on the first box's edge.
#[derive(Clone, Copy, Debug)]
pub struct ContactManifold {
    pub depth: Vector,
    pub contact_points: (Vector, Vector),
    pub normal: Vector,
}

/// One axis of a manifold: the candidate along which a pair is pushed apart.
#[derive(Clone, Copy, Debug, PartialEq, Eq, Structural)]
pub struct Contact {
    pub contact_point: Vector,
    pub normal: Vector,
    pub depth: i32,
}

/// How far two intervals with the given centres and half-lengths reach into
/// each other; negative when they are apart.
pub open spec fn penetration(a_pos: int, a_half: int, b_pos: int, b_half: int) -> int {
    a_half + b_half - magnitude(b_pos - a_pos)
}

/// The separating-axis test: on both axes each box starts before the other ends.
pub open spec fn boxes_overlap(a_loc: Vector, a_half: Vector, b_loc: Vector, b_half: Vector) -> bool {
    &&& a_loc.x - a_half.x <= b_loc.x + b_half.x
    &&& b_loc.x - b_half.x <= a_loc.x + a_half.x
    &&& a_loc.y - a_half.y <= b_loc.y + b_half.y
    &&& b_loc.y - b_half.y <= a_loc.y + a_half.y
}

/// The smaller of two coordinates.
pub open spec fn low(a: int, b: int) -> int {
    if a <= b {
        a
    } else {
        b
    }
}

/// The larger of two coordinates.
pub open spec fn high(a: int, b: int) -> int {
    if a <= b {
        b
    } else {
        a
    }
}

/// The separating-axis test for the regions that two moving boxes sweep:
/// each box covers, on every axis, the span from where it starts to where it ends.
pub open spec fn sweeps_overlap(
    a_loc: Vector,
    a_next: Vector,
    a_half: Vector,
    b_loc: Vector,
    b_next: Vector,
    b_half: Vector,
) -> bool {
    &&& low(a_loc.x as int, a_next.x as int) - a_half.x <= high(b_loc.x as int, b_next.x as int) + b_half.x
    &&& low(b_loc.x as int, b_next.x as int) - b_half.x <= high(a_loc.x as int, a_next.x as int) + a_half.x
    &&& low(a_loc.y as int, a_next.y as int) - a_half.y <= high(b_loc.y as int, b_next.y as int) + b_half.y
    &&& low(b_loc.y as int, b_next.y as int) - b_half.y <= high(a_loc.y as int, a_next.y as int) + a_half.y
}

/// The manifold of box `a` against box `b`, or `None` when an axis separates them.
pub open spec fn manifold_of(a_loc: Vector, a_half: Vector, b_loc: Vector, b_half: Vector) -> Option<
    ContactManifold,
> {
    let depth_x = penetration(a_loc.x as int, a_half.x as int, b_loc.x as int, b_half.x as int);
    let depth_y = penetration(a_loc.y as int, a_half.y as int, b_loc.y as int, b_half.y as int);
    if depth_x < 0 || depth_y < 0 {
        None
    } else {
        let normal_x = sign_of(b_loc.x - a_loc.x);
        let normal_y = sign_of(b_loc.y - a_loc.y);
        Some(
            ContactManifold {
                depth: Vector { x: clamp_coord(depth_x) as i32, y: clamp_coord(depth_y) as i32 },
                contact_points: (
                    Vector { x: clamp_coord(a_loc.x + a_half.x * normal_x) as i32, y: a_loc.y },
                    Vector { x: a_loc.x, y: clamp_coord(a_loc.y + a_half.y * normal_y) as i32 },
                ),
                normal: Vector { x: normal_x as i32, y: normal_y as i32 },
            },
        )
    }
}

impl ContactManifold {
    pub fn new(depth: Vector, contact_points: (Vector, Vector), normal: Vector) -> (m: Self)
        ensures
            m == (ContactManifold { depth, contact_points, normal }),
    {
        Self { depth, contact_points, normal }
    }

    /// The axis of least penetration, the X axis where both are equally deep.
    pub open spec fn prefers_x(self) -> bool {
        magnitude(self.depth.x as int) <= magnitude(self.depth.y as int)
    }

    /// The contact along the preferred axis.
    pub open spec fn best(self) -> Contact {
        if self.prefers_x() {
            Contact {
                contact_point: self.contact_points.0,
                normal: Vector { x: self.normal.x, y: 0 },
                depth: self.depth.x,
            }
        } else {
            Contact {
                contact_point: self.contact_points.1,
                normal: Vector { x: 0, y: self.normal.y },
                depth: self.depth.y,
            }
        }
    }

    /// Picks the contact of least penetration; a tie goes to the X axis.
    pub fn best_contact(&self) -> (c: Contact)
        ensures
            c == self.best(),
    {
        let dx: i64 = abs_i64(self.depth.x as i64);
        let dy: i64 = abs_i64(self.depth.y as i64);
        if dx <= dy {
            Contact {
                contact_point: self.contact_points.0,
                normal: Vector { x: self.normal.x, y: 0 },
                depth: self.depth.x,
            }
        } else {
            Contact {
                contact_point: self.contact_points.1,
                normal: Vector { x: 0, y: self.normal.y },
                depth: self.depth.y,
            }
        }
    }
}

impl Default for ContactManifold {
    /// The manifold of no depth, with no direction, at the origin.
    fn default() -> (m: ContactManifold)
        ensures
            m == (ContactManifold {
                depth: Vector { x: 0, y: 0 },
                contact_points: (Vector { x: 0, y: 0 }, Vector { x: 0, y: 0 }),
                normal: Vector { x: 0, y: 0 },
            }),
    {
        ContactManifold {
            depth: Vector::zero(),
            contact_points: (Vector::zero(), Vector::zero()),
            normal: Vector::zero(),
        }
    }
}

impl Contact {
    /// The displacement that undoes the contact: `-normal * depth`, clamped per axis.
    pub open spec fn correction(self) -> Vector {
        Vector {
            x: clamp_coord(-(self.normal.x * self.depth)) as i32,
            y: clamp_coord(-(self.normal.y * self.depth)) as i32,
        }
    }

    /// Computes `correction`.
    pub fn push_out(&self) -> (v: Vector)
        ensures
            v == self.correction(),
    {
        let nx: i64 = self.normal.x as i64;
        let ny: i64 = self.normal.y as i64;
        let d: i64 = self.depth as i64;
        assert(-0x4000_0000_0000_0000 <= nx * d <= 0x4000_0000_0000_0000) by (nonlinear_arith)
            requires
                -0x8000_0000 <= nx <= 0x7fff_ffff,
                -0x8000_0000 <= d <= 0x7fff_ffff,
        ;
        assert(-0x4000_0000_0000_0000 <= ny * d <= 0x4000_0000_0000_0000) by (nonlinear_arith)
            requires
                -0x8000_0000 <= ny <= 0x7fff_ffff,
                -0x8000_0000 <= d <= 0x7fff_ffff,
        ;
        Vector { x: clamp_to_coord(-(nx * d)), y: clamp_to_coord(-(ny * d)) }
    }
}

/// A half-extent taken in the direction of a sign.
fn toward(half: i32, sign: i32) -> (r: i64)
    requires
        -1 <= sign <= 1,
    ensures
        r == half * sign,
        -0x8000_0000 <= r <= 0x8000_0000,
{
    assert(sign == -1 ==> half * sign == -half) by (nonlinear_arith);
    assert(sign == 1 ==> half * sign == half) by (nonlinear_arith);
    assert(sign == 0 ==> half * sign == 0) by (nonlinear_arith);
    if sign < 0 {
        -(half as i64)
    } else if sign > 0 {
        half as i64
    } else {
        0
    }
}

/// Tells whether two boxes intersect; boxes that only touch do.
pub fn collision_aabb_aabb(a_loc: Vector, a_half_exts: Vector, b_loc: Vector, b_half_exts: Vector) -> (hit:
    bool)
    ensures
        hit == boxes_overlap(a_loc, a_half_exts, b_loc, b_half_exts),
{
    let a_min_x: i64 = a_loc.x as i64 - a_half_exts.x as i64;
    let a_max_x: i64 = a_loc.x as i64 + a_half_exts.x as i64;
    let b_min_x: i64 = b_loc.x as i64 - b_half_exts.x as i64;
    let b_max_x: i64 = b_loc.x as i64 + b_half_exts.x as i64;
    let a_min_y: i64 = a_loc.y as i64 - a_half_exts.y as i64;
    let a_max_y: i64 = a_loc.y as i64 + a_half_exts.y as i64;
    let b_min_y: i64 = b_loc.y as i64 - b_half_exts.y as i64;
    let b_max_y: i64 = b_loc.y as i64 + b_half_exts.y as i64;

    let d0 = b_max_x < a_min_x;
    let d1 = a_max_x < b_min_x;
    let d2 = b_max_y < a_min_y;
    let d3 = a_max_y < b_min_y;

    !(d0 || d1 || d2 || d3)
}

fn low_of(a: i32, b: i32) -> (r: i64)
    ensures
        r == low(a as int, b as int),
{
    if a <= b {
        a as i64
    } else {
        b as i64
    }
}

fn high_of(a: i32, b: i32) -> (r: i64)
    ensures
        r == high(a as int, b as int),
{
    if a <= b {
        b as i64
    } else {
        a as i64
    }
}

/// Tells whether the regions swept by two moving boxes intersect. Boxes that
/// touch at some moment of their motion sweep regions that do.
pub fn sweep_aabb_aabb(
    a_loc: Vector,
    a_next: Vector,
    a_half_exts: Vector,
    b_loc: Vector,
    b_next: Vector,
    b_half_exts: Vector,
) -> (hit: bool)
    ensures
        hit == sweeps_overlap(a_loc, a_next, a_half_exts, b_loc, b_next, b_half_exts),
{
    let d0 = high_of(b_loc.x, b_next.x) + (b_half_exts.x as i64) < low_of(a_loc.x, a_next.x) - a_half_exts.x as i64;
    let d1 = high_of(a_loc.x, a_next.x) + (a_half_exts.x as i64) < low_of(b_loc.x, b_next.x) - b_half_exts.x as i64;
    let d2 = high_of(b_loc.y, b_next.y) + (b_half_exts.y as i64) < low_of(a_loc.y, a_next.y) - a_half_exts.y as i64;
    let d3 = high_of(a_loc.y, a_next.y) + (a_half_exts.y as i64) < low_of(b_loc.y, b_next.y) - b_half_exts.y as i64;

    !(d0 || d1 || d2 || d3)
}

/// Builds the manifold of box `a` against box `b`, if they intersect.
pub fn collision_aabb_aabb_manifold(
    a_loc: Vector,
    a_half_exts: Vector,
    b_loc: Vector,
    b_half_exts: Vector,
) -> (found: Option<ContactManifold>)
    ensures
        found == manifold_of(a_loc, a_half_exts, b_loc, b_half_exts),
{
    let distance_x: i64 = b_loc.x as i64 - a_loc.x as i64;
    let distance_y: i64 = b_loc.y as i64 - a_loc.y as i64;

    let overlap_x: i64 = a_half_exts.x as i64 + b_half_exts.x as i64 - abs_i64(distance_x);
    let overlap_y: i64 = a_half_exts.y as i64 + b_half_exts.y as i64 - abs_i64(distance_y);

    if overlap_x < 0 || overlap_y < 0 {
        return None;
    }
    let depth = Vector { x: clamp_to_coord(overlap_x), y: clamp_to_coord(overlap_y) };
    let normal = Vector { x: sign_i64(distance_x), y: sign_i64(distance_y) };
    let contact_point_x = Vector {
        x: clamp_to_coord(a_loc.x as i64 + toward(a_half_exts.x, normal.x)),
        y: a_loc.y,
    };
    let contact_point_y = Vector {
        x: a_loc.x,
        y: clamp_to_coord(a_loc.y as i64 + toward(a_half_exts.y, normal.y)),
    };
    let contact_points = (contact_point_x, contact_point_y);

    Some(ContactManifold::new(depth, contact_points, normal))
}

/// Overlap does not depend on which box is named first.
pub proof fn lemma_overlap_symmetric(a_loc: Vector, a_half: Vector, b_loc: Vector, b_half: Vector)
    ensures
        boxes_overlap(a_loc, a_half, b_loc, b_half) == boxes_overlap(b_loc, b_half, a_loc, a_half),
{
}

/// For boxes that do not move, the swept regions are the boxes.
pub proof fn lemma_sweep_at_rest(a_loc: Vector, a_half: Vector, b_loc: Vector, b_half: Vector)
    ensures
        sweeps_overlap(a_loc, a_loc, a_half, b_loc, b_loc, b_half) == boxes_overlap(
            a_loc,
            a_half,
            b_loc,
            b_half,
        ),
{
}

/// Two boxes have a manifold exactly when they overlap; boxes that do not
/// overlap have none.
pub proof fn lemma_manifold_iff_overlap(a_loc: Vector, a_half: Vector, b_loc: Vector, b_half: Vector)
    ensures
        manifold_of(a_loc, a_half, b_loc, b_half).is_some() == boxes_overlap(a_loc, a_half, b_loc, b_half),
        !boxes_overlap(a_loc, a_half, b_loc, b_half) ==> manifold_of(a_loc, a_half, b_loc, b_half)
            == None::<ContactManifold>,
{
}

} // verus!
