//! A step of length zero, and the worlds that it leaves as they are.

use vstd::prelude::*;
use crate::body::{bodies_overlap, Body};
use crate::broad::{broad_phase_of, is_candidate, scan_row, scan_rows};
use crate::ccd::{ccd_phase_of, displaced, fix_hits, release};
use crate::graph::{connected, Edge};
use crate::narrow::{edge_contact, edge_kept, lemma_contacts_come_from_edges};
use crate::resolve::{resolve_all, resolved_body};
use crate::store::{key_order, lemma_key_order_exists};
use crate::world::{step_of, ContactInfo, WorldState};

verus! {

/// The test that turns an edge into the same edge, no longer fresh.
pub open spec fn settle_edge() -> spec_fn(Edge) -> Edge {
    |e: Edge| e.settled()
}

/// The world has nothing left to do: every pair of bodies that the broad
/// phase would find without any motion is tracked already, every tracked
/// pair overlaps, and no contact between two solid bodies asks its first
/// body to move or to stop.
pub open spec fn at_rest(w: WorldState) -> bool {
    let contacts = w.edges.filter_map(edge_contact(w.bodies));
    &&& forall|k1: usize, k2: usize|
        w.bodies.contains_key(k1) && w.bodies.contains_key(k2) && #[trigger] is_candidate(
            w.bodies,
            0,
            k1,
            k2,
        ) ==> connected(w.edges, k1, k2)
    &&& forall|i: int|
        0 <= i < w.edges.len() ==> bodies_overlap(
            w.bodies[(#[trigger] w.edges[i]).a],
            w.bodies[w.edges[i].b],
        )
    &&& forall|j: int|
        0 <= j < contacts.len() ==> resolved_body(
            w.bodies[(#[trigger] contacts[j]).0],
            contacts[j].2.best(),
        ) == w.bodies[contacts[j].0]
}

/// In no time a body gets nowhere.
pub proof fn lemma_zero_dt_keeps_position(body: Body)
    ensures
        body.next_position(0) == body.position,
        !displaced(body, 0),
{
    assert(body.velocity.x * 0 == 0);
    assert(body.velocity.y * 0 == 0);
}

proof fn lemma_zero_dt_fixes_nothing(
    bodies: Map<usize, Body>,
    edges: Seq<Edge>,
    skin: int,
    keys: Seq<usize>,
    n: nat,
)
    ensures
        fix_hits(bodies, 0, edges, skin, keys, n) == bodies,
    decreases n,
{
    if n > 0 {
        lemma_zero_dt_fixes_nothing(bodies, edges, skin, keys, (n - 1) as nat);
        lemma_zero_dt_keeps_position(bodies[keys[n - 1]]);
    }
}

/// In a step of length zero no body is moved by continuous collision detection.
pub proof fn lemma_zero_dt_moves_nothing(bodies: Map<usize, Body>, edges: Seq<Edge>, skin: int)
    ensures
        ccd_phase_of(bodies, 0, edges, skin) == bodies,
{
    let keys = key_order(bodies.dom());
    lemma_zero_dt_fixes_nothing(bodies, edges, skin, keys, keys.len());
    let released = release(bodies, bodies, 0, edges);
    assert forall|k: usize| bodies.contains_key(k) implies #[trigger] released[k] == bodies[k] by {
        lemma_zero_dt_keeps_position(bodies[k]);
    }
}

proof fn lemma_row_finds_nothing(
    bodies: Map<usize, Body>,
    keys: Seq<usize>,
    k1: usize,
    n: nat,
    edges: Seq<Edge>,
)
    requires
        n <= keys.len(),
        bodies.contains_key(k1),
        forall|j: int| 0 <= j < keys.len() ==> bodies.contains_key(#[trigger] keys[j]),
        forall|a: usize, b: usize|
            bodies.contains_key(a) && bodies.contains_key(b) && #[trigger] is_candidate(bodies, 0, a, b)
                ==> connected(edges, a, b),
    ensures
        scan_row(bodies, 0, keys, k1, n, edges) == edges,
    decreases n,
{
    if n > 0 {
        lemma_row_finds_nothing(bodies, keys, k1, (n - 1) as nat, edges);
    }
}

proof fn lemma_rows_find_nothing(bodies: Map<usize, Body>, keys: Seq<usize>, m: nat, edges: Seq<Edge>)
    requires
        m <= keys.len(),
        forall|j: int| 0 <= j < keys.len() ==> bodies.contains_key(#[trigger] keys[j]),
        forall|a: usize, b: usize|
            bodies.contains_key(a) && bodies.contains_key(b) && #[trigger] is_candidate(bodies, 0, a, b)
                ==> connected(edges, a, b),
    ensures
        scan_rows(bodies, 0, keys, m, edges) == edges,
    decreases m,
{
    if m > 0 {
        lemma_rows_find_nothing(bodies, keys, (m - 1) as nat, edges);
        lemma_row_finds_nothing(bodies, keys, keys[m - 1], keys.len(), edges);
    }
}

proof fn lemma_all_kept(bodies: Map<usize, Body>, edges: Seq<Edge>)
    requires
        forall|i: int|
            0 <= i < edges.len() ==> bodies_overlap(bodies[(#[trigger] edges[i]).a], bodies[edges[i].b]),
    ensures
        edges.filter_map(edge_kept(bodies)) == edges.map_values(settle_edge()),
    decreases edges.len(),
{
    if edges.len() > 0 {
        let front = edges.drop_last();
        assert forall|i: int| 0 <= i < front.len() implies bodies_overlap(
            bodies[(#[trigger] front[i]).a],
            bodies[front[i].b],
        ) by {
            assert(front[i] == edges[i]);
        }
        lemma_all_kept(bodies, front);
    } else {
        assert(edges.filter_map(edge_kept(bodies)) =~= edges.map_values(settle_edge()));
    }
}

proof fn lemma_nothing_resolved(bodies: Map<usize, Body>, contacts: Seq<ContactInfo>, n: nat)
    requires
        n <= contacts.len(),
        forall|j: int|
            0 <= j < contacts.len() ==> bodies.contains_key((#[trigger] contacts[j]).0) && resolved_body(
                bodies[contacts[j].0],
                contacts[j].2.best(),
            ) == bodies[contacts[j].0],
    ensures
        resolve_all(bodies, contacts, n) == bodies,
    decreases n,
{
    if n > 0 {
        lemma_nothing_resolved(bodies, contacts, (n - 1) as nat);
        let h1 = contacts[n - 1].0;
        assert(bodies.insert(h1, bodies[h1]) =~= bodies);
    }
}

/// A step of length zero leaves a world at rest as it is: no body changes,
/// and the same pairs are tracked afterwards, none of them fresh.
pub proof fn lemma_zero_step_at_rest(w: WorldState)
    requires
        w.wf(),
        at_rest(w),
    ensures
        step_of(w, 0).bodies == w.bodies,
        step_of(w, 0).edges == w.edges.map_values(settle_edge()),
{
    let keys = key_order(w.bodies.dom());
    lemma_key_order_exists(w.bodies.dom());
    assert forall|j: int| 0 <= j < keys.len() implies w.bodies.contains_key(#[trigger] keys[j]) by {
        assert(keys.contains(keys[j]));
    }
    lemma_rows_find_nothing(w.bodies, keys, keys.len(), w.edges);
    assert(broad_phase_of(w.bodies, 0, w.edges) == w.edges);
    lemma_zero_dt_moves_nothing(w.bodies, w.edges, w.skin);
    lemma_all_kept(w.bodies, w.edges);
    let contacts = w.edges.filter_map(edge_contact(w.bodies));
    assert forall|j: int| 0 <= j < contacts.len() implies w.bodies.contains_key(
        (#[trigger] contacts[j]).0,
    ) by {
        lemma_contacts_come_from_edges(w.bodies, w.edges, j);
    }
    lemma_nothing_resolved(w.bodies, contacts, contacts.len());
}

} // verus!
