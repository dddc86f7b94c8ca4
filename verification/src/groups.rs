//! Collision groups, and the correction that keeps bodies out of the terrain.

use vstd::prelude::*;
use crate::shape::Contact;
use crate::vector::{abs_i64, magnitude, Vector};

verus! {

/// What a body is to the game.
#[derive(Clone, Copy, Debug, PartialEq, Eq, Structural)]
pub enum BodyTag {
    PC,
    DummyArea,
    RectangleUnder,
    RectangleRight,
}

/// The group a body belongs to. A body is in one group only.
#[derive(Clone, Copy, Debug, PartialEq, Eq, Structural)]
pub enum CollisionGroup {
    Terrain,
    Ally,
    Test1,
    Test2,
}

/// What the game attaches to a body.
#[derive(Clone, Copy, Debug, PartialEq, Eq, Structural)]
pub struct CollisionData {
    pub group: CollisionGroup,
}

impl CollisionGroup {
    /// The group has a category and a mask of its own.
    pub open spec fn handled(self) -> bool {
        self == CollisionGroup::Terrain || self == CollisionGroup::Ally
    }

    /// The category bit of the group: the terrain has the lowest bit, and
    /// every group after it the next one.
    pub open spec fn category(self) -> u32 {
        match self {
            CollisionGroup::Terrain => 0b0001,
            CollisionGroup::Ally => 0b0010,
            CollisionGroup::Test1 => 0b0100,
            CollisionGroup::Test2 => 0b1000,
        }
    }

    /// The categories that the group accepts: the terrain accepts all, an
    /// ally accepts the terrain and the two test groups. A test group has
    /// no mask of its own and accepts nothing.
    pub open spec fn mask(self) -> u32 {
        match self {
            CollisionGroup::Terrain => u32::MAX,
            CollisionGroup::Ally => 0b1101,
            _ => 0,
        }
    }

    /// Computes `category`.
    pub fn category_bits(self) -> (bits: u32)
        ensures
            bits == self.category(),
    {
        match self {
            CollisionGroup::Terrain => 0b0001,
            CollisionGroup::Ally => 0b0010,
            CollisionGroup::Test1 => 0b0100,
            CollisionGroup::Test2 => 0b1000,
        }
    }

    /// Computes `mask` for a group that has one.
    pub fn mask_bits(self) -> (bits: u32)
        requires
            self.handled(),
        ensures
            bits == self.mask(),
    {
        match self {
            CollisionGroup::Terrain => u32::MAX,
            CollisionGroup::Ally => 0b1101,
            _ => 0,
        }
    }
}

/// Of two corrections along an axis the larger; the first where they are
/// equally large.
pub open spec fn larger_correction(a: int, b: int) -> int {
    if magnitude(a) >= magnitude(b) {
        a
    } else {
        b
    }
}

/// Picks the larger of two corrections along an axis.
pub fn best_correction(a: i32, b: i32) -> (r: i32)
    ensures
        r == larger_correction(a as int, b as int),
{
    if abs_i64(a as i64) >= abs_i64(b as i64) {
        a
    } else {
        b
    }
}

/// The correction of a body after one more of its pairs has been looked at.
/// Only a pair with the terrain as its second body counts, and only if it
/// has a contact whose correction is not zero; the correction then grows,
/// on each axis, to the larger of what it was and what the contact asks for.
pub open spec fn corrected(
    data1: CollisionData,
    data2: CollisionData,
    contact: Option<Contact>,
    current: Vector,
) -> Vector {
    if data2.group == CollisionGroup::Terrain && contact.is_some() && contact.unwrap().correction() != (Vector {
        x: 0,
        y: 0,
    }) {
        Vector {
            x: larger_correction(current.x as int, contact.unwrap().correction().x as int) as i32,
            y: larger_correction(current.y as int, contact.unwrap().correction().y as int) as i32,
        }
    } else {
        current
    }
}

/// Takes one pair of a body into account in the body's correction.
pub fn classify_collision(
    data1: &CollisionData,
    data2: &CollisionData,
    contact: Option<Contact>,
    current_correction: &mut Vector,
)
    ensures
        *final(current_correction) == corrected(*data1, *data2, contact, *old(current_correction)),
{
    match (data1.group, data2.group) {
        (_, CollisionGroup::Terrain) => {
            if let Some(deepest) = contact {
                let pos_correction = deepest.push_out();
                if pos_correction == Vector::zero() {
                    return ;
                }
                *current_correction = Vector::new(
                    best_correction(current_correction.x, pos_correction.x),
                    best_correction(current_correction.y, pos_correction.y),
                );
            }
        },
        _ => {},
    }
}

} // verus!
