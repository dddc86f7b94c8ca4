//! Step-by-step construction of a body.

use vstd::prelude::*;
use crate::body::{Body, BodyState, BodyType, Shape};
use crate::vector::Vector;

verus! {

/// Collects the properties of a body; shape and position are required, the
/// rest has defaults.
#[derive(Clone, Copy, Debug)]
pub struct BodyBuilder {
    pub shape: Shape,
    pub position: Vector,
    pub velocity: Vector,
    pub btype: BodyType,
    pub state: BodyState,
    pub category_bits: u32,
    pub mask_bits: u32,
}

impl BodyBuilder {
    /// A dynamic, solid body at rest, of category 1, that accepts every category.
    pub fn new(shape: Shape, position: Vector) -> (builder: Self)
        ensures
            builder == (BodyBuilder {
                shape,
                position,
                velocity: Vector { x: 0, y: 0 },
                btype: BodyType::Dynamic,
                state: BodyState::Solid,
                category_bits: 1,
                mask_bits: u32::MAX,
            }),
    {
        Self {
            shape,
            position,
            velocity: Vector::zero(),
            btype: BodyType::Dynamic,
            state: BodyState::Solid,
            category_bits: 1,
            mask_bits: u32::MAX,
        }
    }

    pub fn with_position(self, position: Vector) -> (builder: Self)
        ensures
            builder == (BodyBuilder { position, ..self }),
    {
        Self { position, ..self }
    }

    pub fn with_velocity(self, velocity: Vector) -> (builder: Self)
        ensures
            builder == (BodyBuilder { velocity, ..self }),
    {
        Self { velocity, ..self }
    }

    pub fn make_static(self) -> (builder: Self)
        ensures
            builder == (BodyBuilder { btype: BodyType::Static, ..self }),
    {
        Self { btype: BodyType::Static, ..self }
    }

    /// Makes the body a zone, which senses overlaps and is pushed by nothing.
    pub fn sensor(self) -> (builder: Self)
        ensures
            builder == (BodyBuilder { state: BodyState::Zone, ..self }),
    {
        Self { state: BodyState::Zone, ..self }
    }

    pub fn with_category(self, category_bits: u32) -> (builder: Self)
        ensures
            builder == (BodyBuilder { category_bits, ..self }),
    {
        Self { category_bits, ..self }
    }

    pub fn with_mask(self, mask_bits: u32) -> (builder: Self)
        ensures
            builder == (BodyBuilder { mask_bits, ..self }),
    {
        Self { mask_bits, ..self }
    }

    pub fn build(self) -> (body: Body)
        ensures
            body == (Body {
                shape: self.shape,
                position: self.position,
                velocity: self.velocity,
                btype: self.btype,
                state: self.state,
                category_bits: self.category_bits,
                mask_bits: self.mask_bits,
            }),
    {
        Body::new(
            self.shape,
            self.position,
            self.velocity,
            self.btype,
            self.state,
            self.category_bits,
            self.mask_bits,
        )
    }
}

} // verus!
