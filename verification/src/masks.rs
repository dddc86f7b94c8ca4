//! Bodies whose masks do not match ignore each other.

use vstd::prelude::*;
use crate::body::BodyHandle;
use crate::broad::{broad_phase_of, lemma_broad_phase_tracks_candidates};
use crate::ccd::ccd_phase_of;
use crate::event::PhysicsEvent;
use crate::graph::connected;
use crate::narrow::{
    lemma_contacts_come_from_edges, lemma_events_come_from_edges, lemma_kept_come_from_edges,
};
use crate::world::{step_of, WorldState};

verus! {

/// The two bodies that an event is about.
pub open spec fn subjects(event: PhysicsEvent) -> (BodyHandle, BodyHandle) {
    match event {
        PhysicsEvent::CollisionStarted(h1, h2) => (h1, h2),
        PhysicsEvent::CollisionEnded(h1, h2) => (h1, h2),
        PhysicsEvent::OverlapStarted(h1, h2) => (h1, h2),
        PhysicsEvent::OverlapEnded(h1, h2) => (h1, h2),
    }
}

/// The two keys are `a` and `b`, in either order.
pub open spec fn is_pair(k1: usize, k2: usize, a: usize, b: usize) -> bool {
    (k1 == a && k2 == b) || (k1 == b && k2 == a)
}

/// Two bodies that are not tracked and of which one does not accept the
/// other's category are nothing to each other: a step does not track them,
/// records no contact between them and reports no event about them,
/// wherever they are and however they move.
pub proof fn lemma_unaccepted_pair_is_ignored(w: WorldState, dt: int, a: usize, b: usize)
    requires
        w.wf(),
        !w.bodies[a].accepts(w.bodies[b]),
        !connected(w.edges, a, b),
    ensures
        !connected(step_of(w, dt).edges, a, b),
        forall|j: int|
            0 <= j < step_of(w, dt).contacts.len() ==> !is_pair(
                (#[trigger] step_of(w, dt).contacts[j]).0,
                step_of(w, dt).contacts[j].1,
                a,
                b,
            ),
        forall|j: int|
            0 <= j < step_of(w, dt).events.len() ==> !is_pair(
                subjects(#[trigger] step_of(w, dt).events[j]).0.0,
                subjects(step_of(w, dt).events[j]).1.0,
                a,
                b,
            ),
{
    let pairs = broad_phase_of(w.bodies, dt, w.edges);
    let moved = ccd_phase_of(w.bodies, dt, pairs, w.skin);
    let after = step_of(w, dt);
    lemma_broad_phase_tracks_candidates(w.bodies, dt, w.edges);
    assert forall|i: int| 0 <= i < pairs.len() implies !(#[trigger] pairs[i]).joins(a, b) by {}
    if connected(after.edges, a, b) {
        let j = choose|j: int| 0 <= j < after.edges.len() && #[trigger] after.edges[j].joins(a, b);
        lemma_kept_come_from_edges(moved, pairs, j);
        let i = choose|i: int| 0 <= i < pairs.len() && (#[trigger] pairs[i]).settled() == after.edges[j];
        assert(pairs[i].joins(a, b));
    }
    assert forall|j: int| 0 <= j < after.contacts.len() implies !is_pair(
        (#[trigger] after.contacts[j]).0,
        after.contacts[j].1,
        a,
        b,
    ) by {
        lemma_contacts_come_from_edges(moved, pairs, j);
    }
    assert forall|j: int| 0 <= j < after.events.len() implies !is_pair(
        subjects(#[trigger] after.events[j]).0.0,
        subjects(after.events[j]).1.0,
        a,
        b,
    ) by {
        lemma_events_come_from_edges(moved, pairs, j);
    }
}

} // verus!
