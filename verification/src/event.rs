//! What a step reports to the game around it.

use vstd::prelude::*;
use crate::body::BodyHandle;

verus! {

/// A change in how two bodies relate, found during one step.
#[derive(Clone, Copy, Debug, PartialEq, Eq, Structural)]
pub enum PhysicsEvent {
    /// Two solid bodies began to touch.
    CollisionStarted(BodyHandle, BodyHandle),
    /// Two solid bodies no longer touch.
    CollisionEnded(BodyHandle, BodyHandle),
    /// A body entered a zone, or two zones began to overlap.
    OverlapStarted(BodyHandle, BodyHandle),
    /// A body left a zone, or two zones no longer overlap.
    OverlapEnded(BodyHandle, BodyHandle),
}

} // verus!
