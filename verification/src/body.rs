//! Bodies and the handles that name them.

use vstd::prelude::*;
use crate::shape::{
    boxes_overlap, collision_aabb_aabb, collision_aabb_aabb_manifold, manifold_of, ContactManifold,
};
use crate::vector::{clamp_coord, clamp_wide, Vector};

verus! {

/// The outline of a body.
#[allow(clippy::upper_case_acronyms)]
#[derive(Clone, Copy, Debug, PartialEq, Eq, Structural)]
pub enum Shape {
    /// An axis-aligned box, given by its half-extents.
    AABB(Vector),
}

/// How a body takes part in the simulation.
#[derive(Clone, Copy, Debug, PartialEq, Eq, Structural)]
pub enum BodyType {
    /// Never advanced by its velocity, and never tested against another static body.
    Static,
    /// Advanced each step, and tested against every body it interacts with.
    Dynamic,
}

/// What an overlap with the body means.
#[derive(Clone, Copy, Debug, PartialEq, Eq, Structural)]
pub enum BodyState {
    /// A solid body is pushed out of other solid bodies.
    Solid,
    /// A zone only reports what enters and leaves it.
    Zone,
}

/// Names a body stored in a world.
#[derive(Clone, Copy, Debug, PartialEq, Eq, Structural, Hash, PartialOrd, Ord)]
pub struct BodyHandle(pub usize);

/// A simulated body with a single shape.
#[derive(Clone, Copy, Debug, PartialEq, Eq, Structural)]
pub struct Body {
    pub shape: Shape,
    pub position: Vector,
    /// A static body may have a velocity; it is never advanced by it.
    pub velocity: Vector,
    pub btype: BodyType,
    pub state: BodyState,
    /// The categories the body belongs to; ideally a single bit.
    pub category_bits: u32,
    /// The categories the body accepts contact with.
    pub mask_bits: u32,
}

impl Shape {
    /// The half-extents of the shape's bounding box.
    pub open spec fn half_extents(self) -> Vector {
        match self {
            Shape::AABB(half_extents) => half_extents,
        }
    }

    /// The shape grown by `margin` on every side, clamped per axis.
    pub open spec fn inflated(self, margin: int) -> Shape {
        Shape::AABB(
            Vector {
                x: clamp_coord(self.half_extents().x + margin) as i32,
                y: clamp_coord(self.half_extents().y + margin) as i32,
            },
        )
    }

    /// Grows the shape by `margin` on every side.
    pub fn inflate(&self, margin: i32) -> (grown: Shape)
        ensures
            grown == self.inflated(margin as int),
    {
        match self {
            Shape::AABB(half_extents) => Shape::AABB(
                Vector {
                    x: clamp_wide(half_extents.x as i128 + margin as i128),
                    y: clamp_wide(half_extents.y as i128 + margin as i128),
                },
            ),
        }
    }
}

impl Body {
    pub fn new(
        shape: Shape,
        position: Vector,
        velocity: Vector,
        btype: BodyType,
        state: BodyState,
        category_bits: u32,
        mask_bits: u32,
    ) -> (body: Self)
        ensures
            body == (Body { shape, position, velocity, btype, state, category_bits, mask_bits }),
    {
        Self { shape, position, velocity, btype, state, category_bits, mask_bits }
    }

    /// Where a step of length `dt` takes the body when nothing is in its
    /// way: a dynamic body goes `velocity * dt` further, a static body stays.
    pub open spec fn next_position(self, dt: int) -> Vector {
        match self.btype {
            BodyType::Dynamic => self.position.advanced(self.velocity, dt),
            BodyType::Static => self.position,
        }
    }

    /// Computes `next_position`.
    pub fn predicted_position(&self, dt: u32) -> (next: Vector)
        ensures
            next == self.next_position(dt as int),
    {
        match self.btype {
            BodyType::Dynamic => {
                let vx: i128 = self.velocity.x as i128;
                let vy: i128 = self.velocity.y as i128;
                let t: i128 = dt as i128;
                assert(-0x8000_0000 * 0x1_0000_0000 <= vx * t <= 0x8000_0000 * 0x1_0000_0000)
                    by (nonlinear_arith)
                    requires
                        -0x8000_0000 <= vx < 0x8000_0000,
                        0 <= t < 0x1_0000_0000,
                ;
                assert(-0x8000_0000 * 0x1_0000_0000 <= vy * t <= 0x8000_0000 * 0x1_0000_0000)
                    by (nonlinear_arith)
                    requires
                        -0x8000_0000 <= vy < 0x8000_0000,
                        0 <= t < 0x1_0000_0000,
                ;
                Vector {
                    x: clamp_wide(self.position.x as i128 + vx * t),
                    y: clamp_wide(self.position.y as i128 + vy * t),
                }
            },
            BodyType::Static => self.position,
        }
    }

    /// The body at another position.
    pub open spec fn moved_to(self, position: Vector) -> Body {
        Body { position, ..self }
    }

    /// Each body belongs to a category that the other accepts.
    pub open spec fn accepts(self, other: Body) -> bool {
        (self.category_bits & other.mask_bits) != 0 && (other.category_bits & self.mask_bits) != 0
    }

    /// Tells whether the two bodies may collide at all: both masks must
    /// match the other body's category.
    pub fn interacts_with(&self, other: &Body) -> (r: bool)
        ensures
            r == self.accepts(*other),
    {
        (self.category_bits & other.mask_bits) != 0 && (other.category_bits & self.mask_bits) != 0
    }
}

/// The shapes of the two bodies intersect where the bodies are.
pub open spec fn bodies_overlap(body1: Body, body2: Body) -> bool {
    boxes_overlap(
        body1.position,
        body1.shape.half_extents(),
        body2.position,
        body2.shape.half_extents(),
    )
}

/// The manifold of the first body against the second.
pub open spec fn bodies_manifold(body1: Body, body2: Body) -> Option<ContactManifold> {
    manifold_of(
        body1.position,
        body1.shape.half_extents(),
        body2.position,
        body2.shape.half_extents(),
    )
}

/// Tells whether two bodies collided.
pub fn collided(body1: &Body, body2: &Body) -> (hit: bool)
    ensures
        hit == bodies_overlap(*body1, *body2),
{
    match (body1.shape, body2.shape) {
        (Shape::AABB(half_extents1), Shape::AABB(half_extents2)) => collision_aabb_aabb(
            body1.position,
            half_extents1,
            body2.position,
            half_extents2,
        ),
    }
}

/// Generates the contact manifold of two bodies, if they collided.
pub fn collision_info(body1: &Body, body2: &Body) -> (found: Option<ContactManifold>)
    ensures
        found == bodies_manifold(*body1, *body2),
{
    match (body1.shape, body2.shape) {
        (Shape::AABB(half_extents1), Shape::AABB(half_extents2)) => collision_aabb_aabb_manifold(
            body1.position,
            half_extents1,
            body2.position,
            half_extents2,
        ),
    }
}

/// Whether two bodies interact does not depend on which is named first, and
/// a single mask that misses the other body's category is enough to keep
/// them from interacting.
pub proof fn lemma_filter_is_mutual(body1: Body, body2: Body)
    ensures
        body1.accepts(body2) == body2.accepts(body1),
        (body1.category_bits & body2.mask_bits) == 0 ==> !body1.accepts(body2),
        (body2.category_bits & body1.mask_bits) == 0 ==> !body1.accepts(body2),
{
}

} // verus!
