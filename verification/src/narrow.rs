//! The narrow phase: what each tracked pair is now, and which events follow.

use vstd::prelude::*;
use crate::body::{bodies_manifold, bodies_overlap, collided, collision_info, Body, BodyHandle, BodyState};
use crate::event::PhysicsEvent;
use crate::graph::{simple, Edge};
use crate::store::arena_get;
use crate::world::{ContactInfo, PhysicsWorld, WorldState};

verus! {

/// Both bodies are solid: an overlap of the two is a contact.
pub open spec fn solid_pair(body1: Body, body2: Body) -> bool {
    body1.state == BodyState::Solid && body2.state == BodyState::Solid
}

/// The sequence of what an option holds.
pub open spec fn optional<T>(found: Option<T>) -> Seq<T> {
    match found {
        Some(value) => seq![value],
        None => Seq::empty(),
    }
}

/// The event that a tracked pair gives rise to. A pair that overlaps on the
/// step it was found has started; a pair that was tracked before and no
/// longer overlaps has ended; nothing else is an event. Two solid bodies
/// collide; with a zone there is an overlap, reported with the solid body first.
pub open spec fn pair_event(h1: usize, body1: Body, h2: usize, body2: Body, fresh: bool) -> Option<
    PhysicsEvent,
> {
    let touching = bodies_overlap(body1, body2);
    if touching != fresh {
        None
    } else {
        Some(
            match (body1.state, body2.state) {
                (BodyState::Solid, BodyState::Solid) => if touching {
                    PhysicsEvent::CollisionStarted(BodyHandle(h1), BodyHandle(h2))
                } else {
                    PhysicsEvent::CollisionEnded(BodyHandle(h1), BodyHandle(h2))
                },
                (BodyState::Zone, BodyState::Solid) => if touching {
                    PhysicsEvent::OverlapStarted(BodyHandle(h2), BodyHandle(h1))
                } else {
                    PhysicsEvent::OverlapEnded(BodyHandle(h2), BodyHandle(h1))
                },
                _ => if touching {
                    PhysicsEvent::OverlapStarted(BodyHandle(h1), BodyHandle(h2))
                } else {
                    PhysicsEvent::OverlapEnded(BodyHandle(h1), BodyHandle(h2))
                },
            },
        )
    }
}

/// The contact that a tracked pair is recorded with: the manifold of two
/// solid bodies that overlap. A pair with a zone in it has none.
pub open spec fn pair_contact(h1: usize, body1: Body, h2: usize, body2: Body) -> Option<ContactInfo> {
    if solid_pair(body1, body2) {
        match bodies_manifold(body1, body2) {
            Some(manifold) => Some((h1, h2, manifold)),
            None => None,
        }
    } else {
        None
    }
}

/// Classifies one tracked pair. Pushes the event it gives rise to, if any,
/// and the contact to resolve, if any; the pair is no longer new afterwards.
/// Returns whether the pair has separated and is to be dropped.
pub fn detect_collision(
    h1: usize,
    body1: &Body,
    h2: usize,
    body2: &Body,
    new_edge: &mut bool,
    manifolds: &mut Vec<ContactInfo>,
    events: &mut Vec<PhysicsEvent>,
) -> (remove_edge: bool)
    ensures
        remove_edge == !bodies_overlap(*body1, *body2),
        *final(new_edge) == false,
        final(manifolds)@ == old(manifolds)@ + optional(pair_contact(h1, *body1, h2, *body2)),
        final(events)@ == old(events)@ + optional(
            pair_event(h1, *body1, h2, *body2, *old(new_edge)),
        ),
{
    proof {
        crate::shape::lemma_manifold_iff_overlap(
            body1.position,
            body1.shape.half_extents(),
            body2.position,
            body2.shape.half_extents(),
        );
    }
    let remove_edge = match (body1.state, body2.state) {
        (BodyState::Solid, BodyState::Solid) => {
            if let Some(manifold) = collision_info(body1, body2) {
                if *new_edge {
                    events.push(PhysicsEvent::CollisionStarted(BodyHandle(h1), BodyHandle(h2)));
                }
                manifolds.push((h1, h2, manifold));
                false
            } else {
                if !*new_edge {
                    events.push(PhysicsEvent::CollisionEnded(BodyHandle(h1), BodyHandle(h2)));
                }
                true
            }
        },
        (BodyState::Solid, BodyState::Zone) => {
            if collided(body1, body2) {
                if *new_edge {
                    events.push(PhysicsEvent::OverlapStarted(BodyHandle(h1), BodyHandle(h2)));
                }
                false
            } else {
                if !*new_edge {
                    events.push(PhysicsEvent::OverlapEnded(BodyHandle(h1), BodyHandle(h2)));
                }
                true
            }
        },
        (BodyState::Zone, BodyState::Solid) => {
            if collided(body1, body2) {
                if *new_edge {
                    events.push(PhysicsEvent::OverlapStarted(BodyHandle(h2), BodyHandle(h1)));
                }
                false
            } else {
                if !*new_edge {
                    events.push(PhysicsEvent::OverlapEnded(BodyHandle(h2), BodyHandle(h1)));
                }
                true
            }
        },
        (BodyState::Zone, BodyState::Zone) => {
            if collided(body1, body2) {
                if *new_edge {
                    events.push(PhysicsEvent::OverlapStarted(BodyHandle(h1), BodyHandle(h2)));
                }
                false
            } else {
                if !*new_edge {
                    events.push(PhysicsEvent::OverlapEnded(BodyHandle(h1), BodyHandle(h2)));
                }
                true
            }
        },
    };
    *new_edge = false;
    assert(final(events)@ =~= old(events)@ + optional(
        pair_event(h1, *body1, h2, *body2, *old(new_edge)),
    ));
    remove_edge
}

/// What a tracked pair gives rise to, by the states of its bodies. Two
/// solid bodies have a contact exactly when they overlap, and their events
/// are collisions; any other pair has no contact, and its events are
/// overlaps. Whatever the states, a pair that is found overlapping starts, a
/// pair that was tracked and is found apart ends, and nothing else is an event.
pub proof fn lemma_pair_reports(h1: usize, body1: Body, h2: usize, body2: Body, fresh: bool)
    ensures
        pair_contact(h1, body1, h2, body2).is_some() == (solid_pair(body1, body2) && bodies_overlap(
            body1,
            body2,
        )),
        pair_event(h1, body1, h2, body2, fresh).is_some() == (bodies_overlap(body1, body2) == fresh),
        solid_pair(body1, body2) ==> pair_event(h1, body1, h2, body2, fresh) == (if bodies_overlap(
            body1,
            body2,
        ) && fresh {
            Some(PhysicsEvent::CollisionStarted(BodyHandle(h1), BodyHandle(h2)))
        } else if !bodies_overlap(body1, body2) && !fresh {
            Some(PhysicsEvent::CollisionEnded(BodyHandle(h1), BodyHandle(h2)))
        } else {
            None
        }),
        body1.state == BodyState::Zone && body2.state == BodyState::Zone ==> pair_event(
            h1,
            body1,
            h2,
            body2,
            fresh,
        ) == (if bodies_overlap(body1, body2) && fresh {
            Some(PhysicsEvent::OverlapStarted(BodyHandle(h1), BodyHandle(h2)))
        } else if !bodies_overlap(body1, body2) && !fresh {
            Some(PhysicsEvent::OverlapEnded(BodyHandle(h1), BodyHandle(h2)))
        } else {
            None
        }),
{
    crate::shape::lemma_manifold_iff_overlap(
        body1.position,
        body1.shape.half_extents(),
        body2.position,
        body2.shape.half_extents(),
    );
}

/// A pair of a solid body and a zone: it never has a contact. It starts to
/// overlap on the step on which it is found overlapping, it ends to overlap
/// on the step on which it is tracked and found apart, and it is reported
/// with the solid body first. A pair is dropped exactly when it is found apart.
pub proof fn lemma_zone_pair_reports(h1: usize, body1: Body, h2: usize, body2: Body, fresh: bool)
    requires
        body1.state == BodyState::Solid,
        body2.state == BodyState::Zone,
    ensures
        pair_contact(h1, body1, h2, body2).is_none(),
        pair_contact(h2, body2, h1, body1).is_none(),
        pair_event(h1, body1, h2, body2, fresh) == pair_event(h2, body2, h1, body1, fresh),
        pair_event(h1, body1, h2, body2, fresh) == (if bodies_overlap(body1, body2) && fresh {
            Some(PhysicsEvent::OverlapStarted(BodyHandle(h1), BodyHandle(h2)))
        } else if !bodies_overlap(body1, body2) && !fresh {
            Some(PhysicsEvent::OverlapEnded(BodyHandle(h1), BodyHandle(h2)))
        } else {
            None
        }),
{
    crate::shape::lemma_overlap_symmetric(
        body1.position,
        body1.shape.half_extents(),
        body2.position,
        body2.shape.half_extents(),
    );
}

/// The event of an edge, among the given bodies.
pub open spec fn edge_event(bodies: Map<usize, Body>) -> spec_fn(Edge) -> Option<PhysicsEvent> {
    |e: Edge| pair_event(e.a, bodies[e.a], e.b, bodies[e.b], e.fresh)
}

/// The contact of an edge, among the given bodies.
pub open spec fn edge_contact(bodies: Map<usize, Body>) -> spec_fn(Edge) -> Option<ContactInfo> {
    |e: Edge| pair_contact(e.a, bodies[e.a], e.b, bodies[e.b])
}

/// What is left of an edge: an edge whose bodies overlap stays, no longer
/// fresh; any other edge goes.
pub open spec fn edge_kept(bodies: Map<usize, Body>) -> spec_fn(Edge) -> Option<Edge> {
    |e: Edge|
        if bodies_overlap(bodies[e.a], bodies[e.b]) {
            Some(e.settled())
        } else {
            None
        }
}

/// Every kept edge is one of the first `n` edges, no longer fresh.
spec fn drawn_from(kept: Seq<Edge>, edges: Seq<Edge>, n: int) -> bool {
    forall|j: int|
        #![trigger kept[j]]
        0 <= j < kept.len() ==> exists|k: int|
            #![trigger edges[k]]
            0 <= k < n && kept[j] == edges[k].settled()
}

/// Every contact is the contact of an edge, and its first body is the
/// edge's first body.
pub proof fn lemma_contacts_come_from_edges(bodies: Map<usize, Body>, edges: Seq<Edge>, j: int)
    requires
        0 <= j < edges.filter_map(edge_contact(bodies)).len(),
    ensures
        exists|i: int|
            0 <= i < edges.len() && pair_contact(
                (#[trigger] edges[i]).a,
                bodies[edges[i].a],
                edges[i].b,
                bodies[edges[i].b],
            ) == Some(edges.filter_map(edge_contact(bodies))[j]) && edges.filter_map(
                edge_contact(bodies),
            )[j].0 == edges[i].a,
    decreases edges.len(),
{
    let contacts = edges.filter_map(edge_contact(bodies));
    if edges.len() > 0 {
        let front = edges.drop_last();
        let last = edges.last();
        let before = front.filter_map(edge_contact(bodies));
        if j < before.len() {
            lemma_contacts_come_from_edges(bodies, front, j);
            let i = choose|i: int|
                0 <= i < front.len() && pair_contact(
                    (#[trigger] front[i]).a,
                    bodies[front[i].a],
                    front[i].b,
                    bodies[front[i].b],
                ) == Some(before[j]) && before[j].0 == front[i].a;
            assert(edges[i] == front[i]);
            assert(contacts[j] == before[j]);
        } else {
            assert(edges[edges.len() - 1] == last);
        }
    }
}

/// Every event is the event of an edge.
pub proof fn lemma_events_come_from_edges(bodies: Map<usize, Body>, edges: Seq<Edge>, j: int)
    requires
        0 <= j < edges.filter_map(edge_event(bodies)).len(),
    ensures
        exists|i: int|
            0 <= i < edges.len() && pair_event(
                (#[trigger] edges[i]).a,
                bodies[edges[i].a],
                edges[i].b,
                bodies[edges[i].b],
                edges[i].fresh,
            ) == Some(edges.filter_map(edge_event(bodies))[j]),
    decreases edges.len(),
{
    let events = edges.filter_map(edge_event(bodies));
    if edges.len() > 0 {
        let front = edges.drop_last();
        let last = edges.last();
        let before = front.filter_map(edge_event(bodies));
        if j < before.len() {
            lemma_events_come_from_edges(bodies, front, j);
            let i = choose|i: int|
                0 <= i < front.len() && pair_event(
                    (#[trigger] front[i]).a,
                    bodies[front[i].a],
                    front[i].b,
                    bodies[front[i].b],
                    front[i].fresh,
                ) == Some(before[j]);
            assert(edges[i] == front[i]);
            assert(events[j] == before[j]);
        } else {
            assert(edges[edges.len() - 1] == last);
        }
    }
}

/// Every edge that is kept is one of the edges, no longer fresh.
pub proof fn lemma_kept_come_from_edges(bodies: Map<usize, Body>, edges: Seq<Edge>, j: int)
    requires
        0 <= j < edges.filter_map(edge_kept(bodies)).len(),
    ensures
        exists|i: int|
            0 <= i < edges.len() && (#[trigger] edges[i]).settled() == edges.filter_map(
                edge_kept(bodies),
            )[j],
    decreases edges.len(),
{
    let kept = edges.filter_map(edge_kept(bodies));
    if edges.len() > 0 {
        let front = edges.drop_last();
        let last = edges.last();
        let before = front.filter_map(edge_kept(bodies));
        if j < before.len() {
            lemma_kept_come_from_edges(bodies, front, j);
            let i = choose|i: int| 0 <= i < front.len() && (#[trigger] front[i]).settled() == before[j];
            assert(edges[i] == front[i]);
            assert(kept[j] == before[j]);
        } else {
            assert(edges[edges.len() - 1] == last);
        }
    }
}

/// Every contact names, as the body to push, a body that exists.
pub open spec fn contacts_live(w: WorldState) -> bool {
    forall|i: int| 0 <= i < w.contacts.len() ==> w.bodies.contains_key((#[trigger] w.contacts[i]).0)
}

impl PhysicsWorld {
    /// Classifies every tracked pair in the order in which the pairs were
    /// found, records events and contacts, and drops the pairs that separated.
    pub(crate) fn narrow_phase(&mut self)
        requires
            old(self).wf(),
            old(self)@.contacts.len() == 0,
            old(self)@.events.len() == 0,
        ensures
            final(self).wf(),
            contacts_live(final(self)@),
            final(self)@ == (WorldState {
                edges: old(self)@.edges.filter_map(edge_kept(old(self)@.bodies)),
                contacts: old(self)@.edges.filter_map(edge_contact(old(self)@.bodies)),
                events: old(self)@.edges.filter_map(edge_event(old(self)@.bodies)),
                ..old(self)@
            }),
    {
        let ghost start = self@;
        let ghost bodies = start.bodies;
        let count = self.collision_graph.edge_count();
        let mut kept: Vec<Edge> = Vec::with_capacity(count);
        let mut i: usize = 0;
        while i < count
            invariant
                i <= count,
                count == start.edges.len(),
                start.wf(),
                bodies == start.bodies,
                self@.bodies == bodies,
                self@.edges == start.edges,
                self@.skin == start.skin,
                kept@ == start.edges.take(i as int).filter_map(edge_kept(bodies)),
                self@.contacts == start.edges.take(i as int).filter_map(edge_contact(bodies)),
                self@.events == start.edges.take(i as int).filter_map(edge_event(bodies)),
                drawn_from(kept@, start.edges, i as int),
                forall|j: int|
                    0 <= j < self@.contacts.len() ==> bodies.contains_key((#[trigger] self@.contacts[j]).0),
                simple(kept@),
            decreases count - i,
        {
            let edge = self.collision_graph.edge(i);
            let body1: Body = *arena_get(&self.bodies, edge.a).unwrap();
            let body2: Body = *arena_get(&self.bodies, edge.b).unwrap();
            let mut edge_status = edge.fresh;
            proof {
                start.edges.lemma_filter_map_take_succ(edge_kept(bodies), i as int);
                start.edges.lemma_filter_map_take_succ(edge_contact(bodies), i as int);
                start.edges.lemma_filter_map_take_succ(edge_event(bodies), i as int);
            }
            let remove_edge = detect_collision(
                edge.a,
                &body1,
                edge.b,
                &body2,
                &mut edge_status,
                &mut self.manifolds,
                &mut self.events,
            );
            if !remove_edge {
                let ghost before = kept@;
                kept.push(Edge { a: edge.a, b: edge.b, fresh: edge_status });
                assert forall|j: int| 0 <= j < kept.len() implies exists|k: int|
                    #![trigger start.edges[k]]
                    0 <= k < i + 1 && #[trigger] kept@[j] == start.edges[k].settled() by {
                    if j < before.len() {
                        let k = choose|k: int| 0 <= k < i && before[j] == (#[trigger] start.edges[k]).settled();
                        assert(kept@[j] == start.edges[k].settled());
                    } else {
                        assert(kept@[j] == start.edges[i as int].settled());
                    }
                }
                assert forall|a: int, b: int| 0 <= a < b < kept.len() implies !(#[trigger] kept@[b]).joins(
                    (#[trigger] kept@[a]).a,
                    kept@[a].b,
                ) by {
                    if b == before.len() {
                        let k = choose|k: int| 0 <= k < i && before[a] == (#[trigger] start.edges[k]).settled();
                        assert(!start.edges[i as int].joins(start.edges[k].a, start.edges[k].b));
                    } else {
                        assert(kept@[a] == before[a] && kept@[b] == before[b]);
                    }
                }
            } else {
                assert forall|j: int| 0 <= j < kept.len() implies exists|k: int|
                    #![trigger start.edges[k]]
                    0 <= k < i + 1 && #[trigger] kept@[j] == start.edges[k].settled() by {
                    let k = choose|k: int| 0 <= k < i && kept@[j] == (#[trigger] start.edges[k]).settled();
                    assert(kept@[j] == start.edges[k].settled());
                }
            }
            i += 1;
        }
        assert(start.edges.take(count as int) == start.edges);
        assert forall|j: int| 0 <= j < kept.len() implies bodies.contains_key((#[trigger] kept@[j]).a)
            && bodies.contains_key(kept@[j].b) by {
            let k = choose|k: int| 0 <= k < count && kept@[j] == (#[trigger] start.edges[k]).settled();
            assert(bodies.contains_key(start.edges[k].a));
        }
        self.collision_graph.set_edges(kept);
    }
}

} // verus!
