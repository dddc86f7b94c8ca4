//! The broad phase: finding the pairs of bodies that may touch during a step.

use vstd::prelude::*;
use crate::body::{bodies_overlap, Body, BodyType, Shape};
use crate::graph::{connected, lemma_with_edge_simple, simple, with_edge, Edge};
use crate::shape::{sweep_aabb_aabb, sweeps_overlap};
use crate::store::{arena_get, is_key_order, key_order, lemma_key_order_exists};
use crate::world::{PhysicsWorld, WorldState};

verus! {

/// The regions that two bodies sweep during a step of length `dt` overlap.
pub open spec fn sweeps_meet(body1: Body, body2: Body, dt: int) -> bool {
    sweeps_overlap(
        body1.position,
        body1.next_position(dt),
        body1.shape.half_extents(),
        body2.position,
        body2.next_position(dt),
        body2.shape.half_extents(),
    )
}

/// The sweeps of two bodies overlap wherever the bodies overlap, be it
/// where they are or where the step would take them; for two bodies that
/// the step does not move, the sweeps overlap exactly when the bodies do.
pub proof fn lemma_sweeps_cover_overlaps(body1: Body, body2: Body, dt: int)
    ensures
        bodies_overlap(body1, body2) ==> sweeps_meet(body1, body2, dt),
        bodies_overlap(
            body1.moved_to(body1.next_position(dt)),
            body2.moved_to(body2.next_position(dt)),
        ) ==> sweeps_meet(body1, body2, dt),
        body1.next_position(dt) == body1.position && body2.next_position(dt) == body2.position ==> sweeps_meet(
            body1,
            body2,
            dt,
        ) == bodies_overlap(body1, body2),
{
}

/// The pair is tested and found: the first body is dynamic, the two are
/// different, each accepts the other's category, and their sweeps overlap.
pub open spec fn is_candidate(bodies: Map<usize, Body>, dt: int, k1: usize, k2: usize) -> bool {
    &&& k1 != k2
    &&& bodies[k1].btype == BodyType::Dynamic
    &&& bodies[k1].accepts(bodies[k2])
    &&& sweeps_meet(bodies[k1], bodies[k2], dt)
}

/// The edges after body `k1` has been tested against the first `n` keys.
pub open spec fn scan_row(
    bodies: Map<usize, Body>,
    dt: int,
    keys: Seq<usize>,
    k1: usize,
    n: nat,
    edges: Seq<Edge>,
) -> Seq<Edge>
    decreases n,
{
    if n == 0 {
        edges
    } else {
        let before = scan_row(bodies, dt, keys, k1, (n - 1) as nat, edges);
        if is_candidate(bodies, dt, k1, keys[n - 1]) {
            with_edge(before, k1, keys[n - 1])
        } else {
            before
        }
    }
}

/// The edges after each of the first `m` keys has been tested against every key.
pub open spec fn scan_rows(bodies: Map<usize, Body>, dt: int, keys: Seq<usize>, m: nat, edges: Seq<Edge>) -> Seq<
    Edge,
>
    decreases m,
{
    if m == 0 {
        edges
    } else {
        scan_row(
            bodies,
            dt,
            keys,
            keys[m - 1],
            keys.len(),
            scan_rows(bodies, dt, keys, (m - 1) as nat, edges),
        )
    }
}

/// The tracked pairs after the broad phase: the bodies are taken in key
/// order, each tested against all others in key order, and every pair found
/// that was not tracked yet is added as a fresh edge.
pub open spec fn broad_phase_of(bodies: Map<usize, Body>, dt: int, edges: Seq<Edge>) -> Seq<Edge> {
    let keys = key_order(bodies.dom());
    scan_rows(bodies, dt, keys, keys.len(), edges)
}

/// A body that is not dynamic starts no test.
pub proof fn lemma_static_row(
    bodies: Map<usize, Body>,
    dt: int,
    keys: Seq<usize>,
    k1: usize,
    n: nat,
    edges: Seq<Edge>,
)
    requires
        bodies[k1].btype != BodyType::Dynamic,
    ensures
        scan_row(bodies, dt, keys, k1, n, edges) == edges,
    decreases n,
{
    if n > 0 {
        lemma_static_row(bodies, dt, keys, k1, (n - 1) as nat, edges);
    }
}

/// `later` is `earlier` with nothing but fresh edges behind it, each of
/// which joins a pair that the broad phase finds.
pub open spec fn grown_from(later: Seq<Edge>, earlier: Seq<Edge>, bodies: Map<usize, Body>, dt: int) -> bool {
    &&& earlier.len() <= later.len()
    &&& forall|i: int| 0 <= i < earlier.len() ==> later[i] == earlier[i]
    &&& forall|i: int|
        earlier.len() <= i < later.len() ==> (#[trigger] later[i]).fresh && is_candidate(
            bodies,
            dt,
            later[i].a,
            later[i].b,
        ) && bodies.contains_key(later[i].a) && bodies.contains_key(later[i].b)
}

proof fn lemma_grown_keeps_connected(later: Seq<Edge>, earlier: Seq<Edge>, bodies: Map<usize, Body>, dt: int)
    requires
        grown_from(later, earlier, bodies, dt),
    ensures
        forall|a: usize, b: usize| connected(earlier, a, b) ==> connected(later, a, b),
{
    assert forall|a: usize, b: usize| connected(earlier, a, b) implies connected(later, a, b) by {
        let i = choose|i: int| 0 <= i < earlier.len() && #[trigger] earlier[i].joins(a, b);
        assert(later[i].joins(a, b));
    }
}

proof fn lemma_row_grows(bodies: Map<usize, Body>, dt: int, keys: Seq<usize>, k1: usize, n: nat, edges: Seq<Edge>)
    requires
        n <= keys.len(),
        bodies.contains_key(k1),
        forall|j: int| 0 <= j < keys.len() ==> bodies.contains_key(#[trigger] keys[j]),
        simple(edges),
    ensures
        simple(scan_row(bodies, dt, keys, k1, n, edges)),
        grown_from(scan_row(bodies, dt, keys, k1, n, edges), edges, bodies, dt),
        forall|j: int|
            0 <= j < n && is_candidate(bodies, dt, k1, #[trigger] keys[j]) ==> connected(
                scan_row(bodies, dt, keys, k1, n, edges),
                k1,
                keys[j],
            ),
    decreases n,
{
    if n > 0 {
        let before = scan_row(bodies, dt, keys, k1, (n - 1) as nat, edges);
        let after = scan_row(bodies, dt, keys, k1, n, edges);
        lemma_row_grows(bodies, dt, keys, k1, (n - 1) as nat, edges);
        let k2 = keys[n - 1];
        if is_candidate(bodies, dt, k1, k2) {
            lemma_with_edge_simple(before, k1, k2);
            if !connected(before, k1, k2) {
                assert(after[before.len() as int].joins(k1, k2));
            }
            lemma_grown_keeps_connected(after, before, bodies, dt);
        }
    }
}

proof fn lemma_rows_grow(bodies: Map<usize, Body>, dt: int, keys: Seq<usize>, m: nat, edges: Seq<Edge>)
    requires
        m <= keys.len(),
        forall|j: int| 0 <= j < keys.len() ==> bodies.contains_key(#[trigger] keys[j]),
        simple(edges),
    ensures
        simple(scan_rows(bodies, dt, keys, m, edges)),
        grown_from(scan_rows(bodies, dt, keys, m, edges), edges, bodies, dt),
        forall|i: int, j: int|
            0 <= i < m && 0 <= j < keys.len() && is_candidate(bodies, dt, #[trigger] keys[i], #[trigger] keys[j])
                ==> connected(scan_rows(bodies, dt, keys, m, edges), keys[i], keys[j]),
    decreases m,
{
    if m > 0 {
        let before = scan_rows(bodies, dt, keys, (m - 1) as nat, edges);
        let after = scan_rows(bodies, dt, keys, m, edges);
        lemma_rows_grow(bodies, dt, keys, (m - 1) as nat, edges);
        lemma_row_grows(bodies, dt, keys, keys[m - 1], keys.len(), before);
        lemma_grown_keeps_connected(after, before, bodies, dt);
    }
}

/// What the broad phase does to the tracked pairs: the pairs tracked before
/// stay as they are and where they are; every edge behind them is fresh and
/// joins a pair of bodies that was found; no pair gets a second edge; and
/// every pair that is found is tracked afterwards. A pair is found only if
/// each body accepts the other's category.
pub proof fn lemma_broad_phase_tracks_candidates(bodies: Map<usize, Body>, dt: int, edges: Seq<Edge>)
    requires
        bodies.dom().finite(),
        simple(edges),
    ensures
        simple(broad_phase_of(bodies, dt, edges)),
        grown_from(broad_phase_of(bodies, dt, edges), edges, bodies, dt),
        forall|k1: usize, k2: usize|
            bodies.contains_key(k1) && bodies.contains_key(k2) && #[trigger] is_candidate(bodies, dt, k1, k2)
                ==> connected(broad_phase_of(bodies, dt, edges), k1, k2),
        forall|a: usize, b: usize|
            !bodies[a].accepts(bodies[b]) && !connected(edges, a, b) ==> !#[trigger] connected(
                broad_phase_of(bodies, dt, edges),
                a,
                b,
            ),
{
    let keys = key_order(bodies.dom());
    let after = broad_phase_of(bodies, dt, edges);
    lemma_key_order_exists(bodies.dom());
    assert forall|j: int| 0 <= j < keys.len() implies bodies.contains_key(#[trigger] keys[j]) by {
        assert(keys.contains(keys[j]));
    }
    lemma_rows_grow(bodies, dt, keys, keys.len(), edges);
    assert forall|k1: usize, k2: usize|
        bodies.contains_key(k1) && bodies.contains_key(k2) && #[trigger] is_candidate(
            bodies,
            dt,
            k1,
            k2,
        ) implies connected(after, k1, k2) by {
        let i = choose|i: int| 0 <= i < keys.len() && keys[i] == k1;
        let j = choose|j: int| 0 <= j < keys.len() && keys[j] == k2;
        assert(is_candidate(bodies, dt, keys[i], keys[j]));
    }
    assert forall|a: usize, b: usize|
        !bodies[a].accepts(bodies[b]) && !connected(edges, a, b) implies !#[trigger] connected(after, a, b) by {
        if connected(after, a, b) {
            let i = choose|i: int| 0 <= i < after.len() && #[trigger] after[i].joins(a, b);
            if i < edges.len() {
                assert(edges[i].joins(a, b));
            } else {
                assert(is_candidate(bodies, dt, after[i].a, after[i].b));
            }
        }
    }
}

impl PhysicsWorld {
    /// Tests every dynamic body against every other body and tracks the
    /// pairs that interact and whose sweeps overlap.
    pub(crate) fn broad_phase(&mut self, keys: &Vec<usize>, dt: u32)
        requires
            old(self).wf(),
            is_key_order(keys@, old(self)@.bodies.dom()),
        ensures
            final(self).wf(),
            final(self)@ == (WorldState {
                edges: scan_rows(old(self)@.bodies, dt as int, keys@, keys@.len(), old(self)@.edges),
                ..old(self)@
            }),
    {
        let ghost start = self@;
        let mut i: usize = 0;
        while i < keys.len()
            invariant
                i <= keys.len(),
                self.wf(),
                start.wf(),
                is_key_order(keys@, start.bodies.dom()),
                self@ == (WorldState {
                    edges: scan_rows(start.bodies, dt as int, keys@, i as nat, start.edges),
                    ..start
                }),
            decreases keys.len() - i,
        {
            let k1 = keys[i];
            let body1: Body = *arena_get(&self.bodies, k1).unwrap();
            let ghost row_start = self@.edges;
            match body1.btype {
                BodyType::Dynamic => {
                    let next1 = body1.predicted_position(dt);
                    let mut j: usize = 0;
                    while j < keys.len()
                        invariant
                            j <= keys.len(),
                            self.wf(),
                            start.wf(),
                            is_key_order(keys@, start.bodies.dom()),
                            start.bodies.contains_key(k1),
                            body1 == start.bodies[k1],
                            body1.btype == BodyType::Dynamic,
                            next1 == body1.next_position(dt as int),
                            self@ == (WorldState {
                                edges: scan_row(start.bodies, dt as int, keys@, k1, j as nat, row_start),
                                ..start
                            }),
                        decreases keys.len() - j,
                    {
                        let k2 = keys[j];
                        let body2: Body = *arena_get(&self.bodies, k2).unwrap();
                        if k1 != k2 && body1.interacts_with(&body2) {
                            let next2 = body2.predicted_position(dt);
                            let (Shape::AABB(half1), Shape::AABB(half2)) = (body1.shape, body2.shape);
                            if sweep_aabb_aabb(body1.position, next1, half1, body2.position, next2, half2) {
                                proof {
                                    lemma_with_edge_simple(self@.edges, k1, k2);
                                }
                                self.collision_graph.update_edge(k1, k2);
                            }
                        }
                        j += 1;
                    }
                },
                BodyType::Static => {
                    proof {
                        lemma_static_row(start.bodies, dt as int, keys@, k1, keys@.len(), row_start);
                    }
                },
            }
            i += 1;
        }
    }
}

} // verus!
