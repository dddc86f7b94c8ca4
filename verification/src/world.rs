//! The world: the bodies, the tracked pairs, and what the last step found.

use vstd::prelude::*;
use crate::body::{bodies_manifold, collision_info, Body, BodyHandle};
use crate::broad::broad_phase_of;
use crate::ccd::ccd_phase_of;
use crate::event::PhysicsEvent;
use crate::graph::{away_from, clear_of, lemma_filter_simple, lemma_filter_twice, simple, CollisionGraph, Edge};
use crate::narrow::{edge_contact, edge_event, edge_kept};
use crate::resolve::resolve_all;
use crate::shape::ContactManifold;
use crate::store::{
    arena_bodies, arena_get, arena_get_mut, arena_insert, arena_keys, arena_len, arena_new, arena_remove,
    lemma_key_order_unique, MAX_BODIES,
};

verus! {

/// A contact found by a step: the body to push, the body it is pushed out
/// of, and their manifold.
pub type ContactInfo = (usize, usize, ContactManifold);

/// The margin by which a body is kept clear of what it ran into, unless the
/// world is made with another.
pub const DEFAULT_SKIN: i32 = 1;

/// Everything a world holds, as plain values.
pub struct WorldState {
    /// The bodies by key.
    pub bodies: Map<usize, Body>,
    /// The tracked pairs, in the order in which they were found.
    pub edges: Seq<Edge>,
    /// The contacts between solid bodies that the last step found.
    pub contacts: Seq<ContactInfo>,
    /// The events of the last step.
    pub events: Seq<PhysicsEvent>,
    /// The skin margin.
    pub skin: int,
}

impl WorldState {
    /// There are finitely many bodies, and the tracked pairs are simple and
    /// join bodies that exist.
    pub open spec fn wf(self) -> bool {
        &&& self.bodies.dom().finite()
        &&& simple(self.edges)
        &&& forall|i: int|
            0 <= i < self.edges.len() ==> self.bodies.contains_key((#[trigger] self.edges[i]).a)
                && self.bodies.contains_key(self.edges[i].b)
    }
}

/// The keys that a list of handles names.
pub open spec fn handle_keys(handles: Seq<BodyHandle>) -> Set<usize> {
    Set::new(|k: usize| exists|i: int| 0 <= i < handles.len() && (#[trigger] handles[i]).0 == k)
}

/// The world after one step of length `dt`.
///
/// The broad phase tracks the pairs that may touch during the step.
/// Continuous collision detection then moves the bodies: a body that would
/// run into a solid body stops at its earliest impact, every other body
/// goes where its velocity takes it. The narrow phase classifies every
/// tracked pair where the bodies are now: it yields the events and the
/// contacts of the step and keeps the pairs that overlap. Resolution at
/// last pushes the first body of every contact out of the second.
pub open spec fn step_of(w: WorldState, dt: int) -> WorldState {
    let pairs = broad_phase_of(w.bodies, dt, w.edges);
    let moved = ccd_phase_of(w.bodies, dt, pairs, w.skin);
    let contacts = pairs.filter_map(edge_contact(moved));
    WorldState {
        bodies: resolve_all(moved, contacts, contacts.len()),
        edges: pairs.filter_map(edge_kept(moved)),
        contacts,
        events: pairs.filter_map(edge_event(moved)),
        skin: w.skin,
    }
}

/// A simulated world.
pub struct PhysicsWorld {
    pub(crate) bodies: slab::Slab<Body>,
    pub(crate) collision_graph: CollisionGraph,
    pub(crate) manifolds: Vec<ContactInfo>,
    pub(crate) events: Vec<PhysicsEvent>,
    pub(crate) skin: i32,
}

impl View for PhysicsWorld {
    type V = WorldState;

    open(crate) spec fn view(&self) -> WorldState {
        WorldState {
            bodies: arena_bodies(self.bodies),
            edges: self.collision_graph@,
            contacts: self.manifolds@,
            events: self.events@,
            skin: self.skin as int,
        }
    }
}

impl PhysicsWorld {
    /// The world's invariant: there are finitely many bodies, and the tracked
    /// pairs are simple and join bodies that exist. Every world made and
    /// changed through this interface has it.
    pub open spec fn wf(&self) -> bool {
        self@.wf()
    }

    /// An empty world with the default skin margin.
    pub fn new() -> (world: Self)
        ensures
            world.wf(),
            world@ == (WorldState {
                bodies: Map::empty(),
                edges: Seq::empty(),
                contacts: Seq::empty(),
                events: Seq::empty(),
                skin: DEFAULT_SKIN as int,
            }),
    {
        Self::with_skin(DEFAULT_SKIN)
    }

    /// An empty world with the given skin margin.
    pub fn with_skin(skin: i32) -> (world: Self)
        ensures
            world.wf(),
            world@ == (WorldState {
                bodies: Map::empty(),
                edges: Seq::empty(),
                contacts: Seq::empty(),
                events: Seq::empty(),
                skin: skin as int,
            }),
    {
        Self {
            bodies: arena_new(128),
            collision_graph: CollisionGraph::with_capacity(128, 16),
            manifolds: Vec::with_capacity(128),
            events: Vec::with_capacity(16),
            skin,
        }
    }

    /// The number of bodies in the world.
    pub fn len(&self) -> (count: usize)
        requires
            self.wf(),
        ensures
            count == self@.bodies.dom().len(),
    {
        arena_len(&self.bodies)
    }

    /// Stores a body and returns the handle that names it from now on. The
    /// handle names no other body of the world. A world takes fewer than
    /// `MAX_BODIES` bodies.
    pub fn add(&mut self, body: Body) -> (handle: BodyHandle)
        requires
            old(self).wf(),
            old(self)@.bodies.dom().len() < MAX_BODIES,
        ensures
            final(self).wf(),
            !old(self)@.bodies.contains_key(handle.0),
            final(self)@ == (WorldState { bodies: old(self)@.bodies.insert(handle.0, body), ..old(self)@ }),
    {
        let key = arena_insert(&mut self.bodies, body);
        BodyHandle(key)
    }

    /// The body that a handle names, if it names one.
    pub fn get_body(&self, handle: BodyHandle) -> (found: Option<&Body>)
        ensures
            found.is_some() == self@.bodies.contains_key(handle.0),
            found.is_some() ==> *found.unwrap() == self@.bodies[handle.0],
    {
        arena_get(&self.bodies, handle.0)
    }

    /// A mutable borrow of the body that a handle names, if it names one.
    /// What the borrower writes replaces that body; nothing else changes.
    pub fn mut_body(&mut self, handle: BodyHandle) -> (found: Option<&mut Body>)
        requires
            old(self).wf(),
        ensures
            final(self).wf(),
            found.is_some() == old(self)@.bodies.contains_key(handle.0),
            found.is_some() ==> *found.unwrap() == old(self)@.bodies[handle.0] && final(self)@ == (WorldState {
                bodies: old(self)@.bodies.insert(handle.0, *final(found.unwrap())),
                ..old(self)@
            }),
            found.is_none() ==> final(self)@ == old(self)@,
    {
        arena_get_mut(&mut self.bodies, handle.0)
    }

    /// The events of the last step.
    pub fn events(&self) -> (events: &Vec<PhysicsEvent>)
        ensures
            events@ == self@.events,
    {
        &self.events
    }

    /// The tracked pairs.
    pub fn collision_graph(&self) -> (graph: &CollisionGraph)
        ensures
            graph@ == self@.edges,
    {
        &self.collision_graph
    }

    /// The skin margin of the world.
    pub fn skin(&self) -> (skin: i32)
        ensures
            skin == self@.skin,
    {
        self.skin
    }

    /// The contacts between solid bodies that the last step found.
    pub fn manifolds(&self) -> (contacts: &Vec<ContactInfo>)
        ensures
            contacts@ == self@.contacts,
    {
        &self.manifolds
    }

    /// The manifold of the first body against the second where the bodies
    /// are now, if both handles name a body and the bodies overlap.
    pub fn contact_pair(&self, handle1: BodyHandle, handle2: BodyHandle) -> (found: Option<ContactManifold>)
        ensures
            found == (if self@.bodies.contains_key(handle1.0) && self@.bodies.contains_key(handle2.0) {
                bodies_manifold(self@.bodies[handle1.0], self@.bodies[handle2.0])
            } else {
                None
            }),
    {
        match (arena_get(&self.bodies, handle1.0), arena_get(&self.bodies, handle2.0)) {
            (Some(body1), Some(body2)) => collision_info(body1, body2),
            _ => None,
        }
    }

    /// Takes the named bodies out of the world, and with them every tracked
    /// pair that one of them is part of. A handle that names no body is passed over.
    pub fn remove(&mut self, handles: &[BodyHandle])
        requires
            old(self).wf(),
        ensures
            final(self).wf(),
            final(self)@ == (WorldState {
                bodies: old(self)@.bodies.remove_keys(handle_keys(handles@)),
                edges: old(self)@.edges.filter(clear_of(handle_keys(handles@))),
                ..old(self)@
            }),
    {
        let ghost start = self@;
        let mut i: usize = 0;
        proof {
            assert(handle_keys(handles@.take(0)) =~= Set::<usize>::empty());
            assert(start.bodies.remove_keys(Set::<usize>::empty()) =~= start.bodies);
            lemma_keeps_all(start.edges, clear_of(Set::<usize>::empty()));
        }
        while i < handles.len()
            invariant
                i <= handles.len(),
                self.wf(),
                start.wf(),
                self@ == (WorldState {
                    bodies: start.bodies.remove_keys(handle_keys(handles@.take(i as int))),
                    edges: start.edges.filter(clear_of(handle_keys(handles@.take(i as int)))),
                    ..start
                }),
            decreases handles.len() - i,
        {
            let key = handles[i].0;
            let ghost gone = handle_keys(handles@.take(i as int));
            let ghost gone_now = handle_keys(handles@.take(i as int + 1));
            proof {
                assert forall|k: usize| gone_now.contains(k) == (gone.contains(k) || k == key) by {
                    if gone.contains(k) {
                        let j = choose|j: int|
                            0 <= j < handles@.take(i as int).len() && (#[trigger] handles@.take(
                                i as int,
                            )[j]).0 == k;
                        assert(handles@.take(i as int + 1)[j].0 == k);
                    }
                    if k == key {
                        assert(handles@.take(i as int + 1)[i as int].0 == k);
                    }
                }
                lemma_filter_twice(start.edges, clear_of(gone), away_from(key), clear_of(gone_now));
                lemma_filter_simple(self@.edges, away_from(key));
                assert(start.bodies.remove_keys(gone).remove(key) =~= start.bodies.remove_keys(gone_now));
            }
            let _ = arena_remove(&mut self.bodies, key);
            self.collision_graph.remove_node(key);
            proof {
                let edges = self@.edges;
                assert forall|j: int| 0 <= j < edges.len() implies self@.bodies.contains_key(
                    (#[trigger] edges[j]).a,
                ) && self@.bodies.contains_key(edges[j].b) by {
                    assert(edges.contains(edges[j]));
                    let before = start.edges.filter(clear_of(gone));
                    let n = choose|n: int| 0 <= n < before.len() && before[n] == edges[j];
                    assert(self@.bodies.contains_key(before[n].a));
                }
            }
            i += 1;
        }
        assert(handles@.take(i as int) == handles@);
    }

    /// Advances the world by one step of length `dt`. The events and the
    /// contacts of the step before are forgotten.
    pub fn step(&mut self, dt: u32)
        requires
            old(self).wf(),
        ensures
            final(self).wf(),
            final(self)@ == step_of(old(self)@, dt as int),
            final(self)@.bodies.dom() == old(self)@.bodies.dom(),
    {
        self.manifolds.clear();
        self.events.clear();
        let keys = arena_keys(&self.bodies);
        proof {
            lemma_key_order_unique(keys@, self@.bodies.dom());
        }
        self.broad_phase(&keys, dt);
        self.ccd_phase(&keys, dt);
        self.narrow_phase();
        self.resolve();
    }
}

/// A test that every edge passes drops none.
proof fn lemma_keeps_all(edges: Seq<Edge>, keep: spec_fn(Edge) -> bool)
    requires
        forall|e: Edge| #[trigger] keep(e),
    ensures
        edges.filter(keep) == edges,
    decreases edges.len(),
{
    reveal(Seq::filter);
    if edges.len() > 0 {
        lemma_keeps_all(edges.drop_last(), keep);
    }
}

} // verus!
