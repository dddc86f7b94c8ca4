//! What holds of a world of two bodies: two solid bodies that run into each
//! other head-on do not pass through each other, and a solid body that
//! crosses a zone is reported when it enters and when it leaves.

use vstd::prelude::*;
use crate::body::{bodies_manifold, bodies_overlap, Body, BodyHandle, BodyState, BodyType};
use crate::broad::{broad_phase_of, is_candidate, lemma_broad_phase_tracks_candidates, sweeps_meet};
use crate::ccd::{
    backs_away, body_sweep, ccd_phase_of, displaced, earliest_hit, fix_hits, fix_one,
    lemma_settling_backs_away, release, settled_at, stop_position, within_tolerance, MAX_ITERATIONS,
};
use crate::event::PhysicsEvent;
use crate::graph::{connected, simple, Edge};
use crate::narrow::{
    edge_contact, edge_event, edge_kept, lemma_contacts_come_from_edges, lemma_zone_pair_reports, pair_contact,
    pair_event, solid_pair,
};
use crate::resolve::{resolve_all, resolved_body};
use crate::shape::lemma_overlap_symmetric;
use crate::store::{key_order, lemma_key_order_unique};
use crate::toi::{
    axis_entry, lemma_axis_stops_at_contact, lemma_contact_within_sweeps, lemma_partway_between,
    lemma_toi_in_step, lemma_toi_is_mutual, lemma_toi_meets, toi_of, trunc_div, Sweep,
};
use crate::vector::Vector;
use crate::world::{step_of, ContactInfo, WorldState};

verus! {

/// The coordinate of a vector along one of the two axes.
pub open spec fn coord(v: Vector, along_x: bool) -> int {
    if along_x {
        v.x as int
    } else {
        v.y as int
    }
}

/// On one axis two boxes begin apart, and neither moves away from the
/// other. The boxes have their centres at `a0` and `b0` and would go to
/// `a_next` and `b_next`; `h` is the sum of their half-extents.
pub open spec fn head_on(a0: int, a_next: int, b0: int, b_next: int, h: int) -> bool {
    ||| (b0 - a0 > h && a_next >= a0 && b_next <= b0)
    ||| (a0 - b0 > h && a_next <= a0 && b_next >= b0)
}

/// On one axis two boxes that began apart are still apart or touch, each
/// on the side of the other on which it began.
pub open spec fn kept_apart(a0: int, b0: int, a1: int, b1: int, h: int) -> bool {
    ||| (b0 - a0 > h && b1 - a1 >= h)
    ||| (a0 - b0 > h && a1 - b1 >= h)
}

/// The axis decides the time of impact: it separates the boxes when the
/// step begins and is the last to stop separating them.
pub open spec fn deciding_axis(s: Sweep, along_x: bool) -> bool {
    let entry = if along_x {
        axis_entry(s.px, s.dx, s.hx)
    } else {
        axis_entry(s.py, s.dy, s.hy)
    };
    toi_of(s).is_some() && entry == toi_of(s) && toi_of(s).unwrap().0 > 0
}

/// Where the first of two bodies is after continuous collision detection,
/// when the two have an impact at the moment `t`.
pub open spec fn first_end(first: Body, second: Body, dt: int, skin: int, t: (int, int)) -> Vector {
    if displaced(first, dt) {
        settled_at(
            stop_position(first, dt, t),
            first.shape.inflated(skin),
            second,
            MAX_ITERATIONS as nat,
        )
    } else {
        first.position
    }
}

/// Where the second of two bodies is after continuous collision detection,
/// when the first has been moved to `first_at` before.
pub open spec fn second_end(first: Body, first_at: Vector, second: Body, dt: int, skin: int, t: (int, int)) -> Vector {
    if displaced(second, dt) {
        settled_at(
            stop_position(second, dt, t),
            second.shape.inflated(skin),
            first.moved_to(first_at),
            MAX_ITERATIONS as nat,
        )
    } else {
        second.position
    }
}

proof fn lemma_stop_on_axis(body: Body, dt: int, t: (int, int), along_x: bool)
    requires
        0 <= t.0 <= t.1,
        0 < t.1,
    ensures
        coord(stop_position(body, dt, t), along_x) == (if within_tolerance(t) {
            coord(body.position, along_x)
        } else {
            coord(body.position, along_x) + trunc_div(
                (coord(body.next_position(dt), along_x) - coord(body.position, along_x)) * t.0,
                t.1,
            )
        }),
        coord(body.position, along_x) <= coord(body.next_position(dt), along_x) ==> coord(
            body.position,
            along_x,
        ) <= coord(stop_position(body, dt, t), along_x) <= coord(body.next_position(dt), along_x),
        coord(body.position, along_x) >= coord(body.next_position(dt), along_x) ==> coord(
            body.position,
            along_x,
        ) >= coord(stop_position(body, dt, t), along_x) >= coord(body.next_position(dt), along_x),
{
    lemma_partway_between(body.position.x as int, body.next_position(dt).x as int, t.0, t.1);
    lemma_partway_between(body.position.y as int, body.next_position(dt).y as int, t.0, t.1);
}

proof fn lemma_stops_kept_apart(first: Body, second: Body, dt: int, along_x: bool)
    requires
        deciding_axis(body_sweep(first, second, dt), along_x),
        head_on(
            coord(first.position, along_x),
            coord(first.next_position(dt), along_x),
            coord(second.position, along_x),
            coord(second.next_position(dt), along_x),
            coord(first.shape.half_extents(), along_x) + coord(second.shape.half_extents(), along_x),
        ),
    ensures
        ({
            let t = toi_of(body_sweep(first, second, dt)).unwrap();
            let a0 = coord(first.position, along_x);
            let b0 = coord(second.position, along_x);
            let s1 = coord(stop_position(first, dt, t), along_x);
            let s2 = coord(stop_position(second, dt, t), along_x);
            let h = coord(first.shape.half_extents(), along_x) + coord(second.shape.half_extents(), along_x);
            &&& h >= 0
            &&& kept_apart(a0, b0, s1, s2, h)
            &&& b0 - a0 > h ==> a0 <= s1 && s2 <= b0
            &&& a0 - b0 > h ==> s1 <= a0 && s2 >= b0
            &&& !displaced(first, dt) ==> s1 == a0
            &&& !displaced(second, dt) ==> s2 == b0
        }),
{
    let s = body_sweep(first, second, dt);
    let t = toi_of(s).unwrap();
    lemma_toi_in_step(s);
    let a0 = coord(first.position, along_x);
    let an = coord(first.next_position(dt), along_x);
    let b0 = coord(second.position, along_x);
    let bn = coord(second.next_position(dt), along_x);
    let h = coord(first.shape.half_extents(), along_x) + coord(second.shape.half_extents(), along_x);
    lemma_stop_on_axis(first, dt, t, along_x);
    lemma_stop_on_axis(second, dt, t, along_x);
    if !within_tolerance(t) {
        lemma_axis_stops_at_contact(a0, an, b0, bn, h);
    }
}

proof fn lemma_ends_back_away(first: Body, second: Body, dt: int, skin: int, along_x: bool, t: (int, int))
    ensures
        ({
            let end1 = first_end(first, second, dt, skin, t);
            let end2 = second_end(first, end1, second, dt, skin, t);
            &&& displaced(first, dt) ==> backs_away(
                coord(stop_position(first, dt, t), along_x),
                coord(end1, along_x),
                coord(second.position, along_x),
            )
            &&& !displaced(first, dt) ==> end1 == first.position
            &&& displaced(second, dt) ==> backs_away(
                coord(stop_position(second, dt, t), along_x),
                coord(end2, along_x),
                coord(end1, along_x),
            )
            &&& !displaced(second, dt) ==> end2 == second.position
        }),
{
    let end1 = first_end(first, second, dt, skin, t);
    lemma_settling_backs_away(
        stop_position(first, dt, t),
        first.shape.inflated(skin),
        second,
        MAX_ITERATIONS as nat,
    );
    lemma_settling_backs_away(
        stop_position(second, dt, t),
        second.shape.inflated(skin),
        first.moved_to(end1),
        MAX_ITERATIONS as nat,
    );
}

proof fn lemma_backing_away_keeps_apart(a0: int, b0: int, s1: int, s2: int, e1: int, e2: int, h: int)
    requires
        h >= 0,
        kept_apart(a0, b0, s1, s2, h),
        b0 - a0 > h ==> a0 <= s1 && s2 <= b0,
        a0 - b0 > h ==> s1 <= a0 && s2 >= b0,
        backs_away(s1, e1, b0),
        backs_away(s2, e2, e1),
    ensures
        kept_apart(a0, b0, e1, e2, h),
{
}

/// Two bodies that meet head-on along the axis that decides their time of
/// impact, the first stopped and settled against the second where that one
/// began, the second then stopped and settled against the first where that
/// one is now, are kept apart along that axis.
pub proof fn lemma_pair_kept_apart(first: Body, second: Body, dt: int, skin: int, along_x: bool)
    requires
        deciding_axis(body_sweep(first, second, dt), along_x),
        head_on(
            coord(first.position, along_x),
            coord(first.next_position(dt), along_x),
            coord(second.position, along_x),
            coord(second.next_position(dt), along_x),
            coord(first.shape.half_extents(), along_x) + coord(second.shape.half_extents(), along_x),
        ),
    ensures
        ({
            let t = toi_of(body_sweep(first, second, dt)).unwrap();
            let end1 = first_end(first, second, dt, skin, t);
            let end2 = second_end(first, end1, second, dt, skin, t);
            kept_apart(
                coord(first.position, along_x),
                coord(second.position, along_x),
                coord(end1, along_x),
                coord(end2, along_x),
                coord(first.shape.half_extents(), along_x) + coord(second.shape.half_extents(), along_x),
            )
        }),
{
    let t = toi_of(body_sweep(first, second, dt)).unwrap();
    let end1 = first_end(first, second, dt, skin, t);
    let end2 = second_end(first, end1, second, dt, skin, t);
    lemma_stops_kept_apart(first, second, dt, along_x);
    lemma_ends_back_away(first, second, dt, skin, along_x, t);
    lemma_backing_away_keeps_apart(
        coord(first.position, along_x),
        coord(second.position, along_x),
        coord(stop_position(first, dt, t), along_x),
        coord(stop_position(second, dt, t), along_x),
        coord(end1, along_x),
        coord(end2, along_x),
        coord(first.shape.half_extents(), along_x) + coord(second.shape.half_extents(), along_x),
    );
}

proof fn lemma_two_keys(lo: usize, hi: usize, domain: Set<usize>)
    requires
        lo < hi,
        forall|k: usize| domain.contains(k) <==> (k == lo || k == hi),
    ensures
        key_order(domain) == seq![lo, hi],
{
    let keys = seq![lo, hi];
    assert forall|k: usize| domain.contains(k) <==> keys.contains(k) by {
        if keys.contains(k) {
            let i = choose|i: int| 0 <= i < keys.len() && keys[i] == k;
        }
    }
    lemma_key_order_unique(keys, domain);
}

proof fn lemma_single_partner_hit(
    bodies: Map<usize, Body>,
    dt: int,
    edges: Seq<Edge>,
    k: usize,
    p: usize,
    n: nat,
)
    requires
        n <= edges.len(),
        forall|i: int| 0 <= i < edges.len() && (#[trigger] edges[i]).touches(k) ==> edges[i].other(k) == p,
        solid_pair(bodies[k], bodies[p]),
        toi_of(body_sweep(bodies[k], bodies[p], dt)).is_some(),
    ensures
        earliest_hit(bodies, dt, edges, k, n) == (if exists|i: int|
            0 <= i < n && (#[trigger] edges[i]).touches(k) {
            Some((p, toi_of(body_sweep(bodies[k], bodies[p], dt)).unwrap()))
        } else {
            None
        }),
    decreases n,
{
    if n > 0 {
        lemma_single_partner_hit(bodies, dt, edges, k, p, (n - 1) as nat);
        let e = edges[n - 1];
        if e.touches(k) {
            assert(edges[n - 1].touches(k));
        } else {
            if exists|i: int| 0 <= i < n && (#[trigger] edges[i]).touches(k) {
                let i = choose|i: int| 0 <= i < n && (#[trigger] edges[i]).touches(k);
                assert(0 <= i < n - 1 && edges[i].touches(k));
            }
        }
    }
}

proof fn lemma_two_body_ccd(
    bodies: Map<usize, Body>,
    dt: int,
    edges: Seq<Edge>,
    skin: int,
    lo: usize,
    hi: usize,
    t: (int, int),
)
    requires
        lo < hi,
        forall|k: usize| bodies.contains_key(k) <==> (k == lo || k == hi),
        earliest_hit(bodies, dt, edges, lo, edges.len()) == Some((hi, t)),
        earliest_hit(bodies, dt, edges, hi, edges.len()) == Some((lo, t)),
    ensures
        ({
            let moved = ccd_phase_of(bodies, dt, edges, skin);
            let end1 = first_end(bodies[lo], bodies[hi], dt, skin, t);
            let end2 = second_end(bodies[lo], end1, bodies[hi], dt, skin, t);
            &&& forall|k: usize| moved.contains_key(k) <==> (k == lo || k == hi)
            &&& moved[lo] == bodies[lo].moved_to(end1)
            &&& moved[hi] == bodies[hi].moved_to(end2)
        }),
{
    lemma_two_keys(lo, hi, bodies.dom());
    let keys = key_order(bodies.dom());
    assert(keys.len() == 2 && keys[0] == lo && keys[1] == hi);
    let m0 = fix_hits(bodies, dt, edges, skin, keys, 0);
    let m1 = fix_hits(bodies, dt, edges, skin, keys, 1);
    let m2 = fix_hits(bodies, dt, edges, skin, keys, 2);
    assert(m0 == bodies);
    assert(m1 == fix_one(bodies, m0, dt, edges, skin, lo));
    assert(m2 == fix_one(bodies, m1, dt, edges, skin, hi));
    let end1 = first_end(bodies[lo], bodies[hi], dt, skin, t);
    let end2 = second_end(bodies[lo], end1, bodies[hi], dt, skin, t);
    assert(m1[lo] == bodies[lo].moved_to(end1));
    assert(m1[hi] == bodies[hi]);
    assert(m2[lo] == m1[lo]);
    assert(m2[hi] == bodies[hi].moved_to(end2));
    let moved = release(bodies, m2, dt, edges);
    assert(forall|k: usize| m1.contains_key(k) <==> (k == lo || k == hi));
    assert(forall|k: usize| m2.contains_key(k) <==> (k == lo || k == hi));
    assert(moved[lo] == m2[lo]);
    assert(moved[hi] == m2[hi]);
}

proof fn lemma_resolution_keeps_positions(bodies: Map<usize, Body>, contacts: Seq<ContactInfo>, n: nat)
    requires
        n <= contacts.len(),
        forall|j: int|
            0 <= j < contacts.len() ==> bodies.contains_key((#[trigger] contacts[j]).0)
                && contacts[j].2.best().correction() == (Vector { x: 0, y: 0 }),
    ensures
        resolve_all(bodies, contacts, n).dom() == bodies.dom(),
        forall|k: usize|
            bodies.contains_key(k) ==> (#[trigger] resolve_all(bodies, contacts, n)[k]).position
                == bodies[k].position,
    decreases n,
{
    if n > 0 {
        lemma_resolution_keeps_positions(bodies, contacts, (n - 1) as nat);
        let before = resolve_all(bodies, contacts, (n - 1) as nat);
        let h1 = contacts[n - 1].0;
        let contact = contacts[n - 1].2.best();
        assert(contact.correction().x * 1 == 0);
        assert(contact.correction().y * 1 == 0);
        assert(resolved_body(before[h1], contact).position == before[h1].position);
        assert(before.insert(h1, resolved_body(before[h1], contact)).dom() =~= bodies.dom());
    }
}

proof fn lemma_no_correction_when_apart(body1: Body, body2: Body, along_x: bool)
    requires
        bodies_manifold(body1, body2).is_some(),
        coord(body2.position, along_x) - coord(body1.position, along_x) >= coord(
            body1.shape.half_extents(),
            along_x,
        ) + coord(body2.shape.half_extents(), along_x) || coord(body1.position, along_x) - coord(
            body2.position,
            along_x,
        ) >= coord(body1.shape.half_extents(), along_x) + coord(body2.shape.half_extents(), along_x),
    ensures
        bodies_manifold(body1, body2).unwrap().best().correction() == (Vector { x: 0, y: 0 }),
{
    let m = bodies_manifold(body1, body2).unwrap();
    let contact = m.best();
    assert(contact.depth == 0);
    assert(contact.normal.x * 0 == 0);
    assert(contact.normal.y * 0 == 0);
}

/// The world holds the two bodies `ka` and `kb` and no other; both are
/// solid and dynamic, and each accepts the other's category.
pub open spec fn solid_pair_world(w: WorldState, ka: usize, kb: usize) -> bool {
    &&& w.wf()
    &&& ka != kb
    &&& forall|k: usize| w.bodies.contains_key(k) <==> (k == ka || k == kb)
    &&& solid_pair(w.bodies[ka], w.bodies[kb])
    &&& w.bodies[ka].btype == BodyType::Dynamic
    &&& w.bodies[kb].btype == BodyType::Dynamic
    &&& w.bodies[ka].accepts(w.bodies[kb])
}

/// Every edge joins the two bodies `ka` and `kb`.
spec fn joins_only(edges: Seq<Edge>, ka: usize, kb: usize) -> bool {
    forall|i: int| 0 <= i < edges.len() ==> (#[trigger] edges[i]).joins(ka, kb)
}

proof fn lemma_two_body_pairs(w: WorldState, dt: int, ka: usize, kb: usize)
    requires
        solid_pair_world(w, ka, kb),
        toi_of(body_sweep(w.bodies[ka], w.bodies[kb], dt)).is_some(),
    ensures
        joins_only(broad_phase_of(w.bodies, dt, w.edges), ka, kb),
        broad_phase_of(w.bodies, dt, w.edges).len() > 0,
{
    let bodies = w.bodies;
    let pairs = broad_phase_of(bodies, dt, w.edges);
    let a = bodies[ka];
    let b = bodies[kb];
    let s = body_sweep(a, b, dt);
    lemma_toi_in_step(s);
    lemma_toi_meets(s);
    let t = toi_of(s).unwrap();
    lemma_contact_within_sweeps(
        a.position,
        a.next_position(dt),
        a.shape.half_extents(),
        b.position,
        b.next_position(dt),
        b.shape.half_extents(),
        t.0,
        t.1,
    );
    assert(sweeps_meet(a, b, dt));
    assert(is_candidate(bodies, dt, ka, kb));
    lemma_broad_phase_tracks_candidates(bodies, dt, w.edges);
    assert(connected(pairs, ka, kb));
    assert forall|i: int| 0 <= i < pairs.len() implies (#[trigger] pairs[i]).joins(ka, kb) by {
        if i < w.edges.len() {
            assert(pairs[i] == w.edges[i]);
            assert(bodies.contains_key(w.edges[i].a) && bodies.contains_key(w.edges[i].b));
        }
        assert(bodies.contains_key(pairs[i].a) && bodies.contains_key(pairs[i].b));
        assert(pairs[i].a != pairs[i].b);
    }
}

proof fn lemma_two_body_hits(bodies: Map<usize, Body>, dt: int, pairs: Seq<Edge>, ka: usize, kb: usize)
    requires
        ka != kb,
        solid_pair(bodies[ka], bodies[kb]),
        toi_of(body_sweep(bodies[ka], bodies[kb], dt)).is_some(),
        joins_only(pairs, ka, kb),
        pairs.len() > 0,
    ensures
        earliest_hit(bodies, dt, pairs, ka, pairs.len()) == Some(
            (kb, toi_of(body_sweep(bodies[ka], bodies[kb], dt)).unwrap()),
        ),
        earliest_hit(bodies, dt, pairs, kb, pairs.len()) == Some(
            (ka, toi_of(body_sweep(bodies[ka], bodies[kb], dt)).unwrap()),
        ),
{
    let a = bodies[ka];
    let b = bodies[kb];
    lemma_toi_is_mutual(
        a.position,
        a.next_position(dt),
        a.shape.half_extents(),
        b.position,
        b.next_position(dt),
        b.shape.half_extents(),
    );
    assert forall|i: int| 0 <= i < pairs.len() && (#[trigger] pairs[i]).touches(ka) implies pairs[i].other(ka)
        == kb by {
        assert(pairs[i].joins(ka, kb));
    }
    assert forall|i: int| 0 <= i < pairs.len() && (#[trigger] pairs[i]).touches(kb) implies pairs[i].other(kb)
        == ka by {
        assert(pairs[i].joins(ka, kb));
    }
    lemma_single_partner_hit(bodies, dt, pairs, ka, kb, pairs.len());
    lemma_single_partner_hit(bodies, dt, pairs, kb, ka, pairs.len());
}

proof fn lemma_head_on_is_mutual(a: Body, b: Body, dt: int, along_x: bool)
    requires
        deciding_axis(body_sweep(a, b, dt), along_x),
    ensures
        deciding_axis(body_sweep(b, a, dt), along_x),
        toi_of(body_sweep(b, a, dt)) == toi_of(body_sweep(a, b, dt)),
{
    lemma_toi_is_mutual(
        a.position,
        a.next_position(dt),
        a.shape.half_extents(),
        b.position,
        b.next_position(dt),
        b.shape.half_extents(),
    );
    let s = body_sweep(a, b, dt);
    let r = body_sweep(b, a, dt);
    assert(axis_entry(s.px, s.dx, s.hx) == axis_entry(r.px, r.dx, r.hx));
    assert(axis_entry(s.py, s.dy, s.hy) == axis_entry(r.py, r.dy, r.hy));
}

proof fn lemma_two_bodies_moved_apart(
    bodies: Map<usize, Body>,
    dt: int,
    pairs: Seq<Edge>,
    skin: int,
    ka: usize,
    kb: usize,
    along_x: bool,
)
    requires
        ka != kb,
        forall|k: usize| bodies.contains_key(k) <==> (k == ka || k == kb),
        solid_pair(bodies[ka], bodies[kb]),
        joins_only(pairs, ka, kb),
        pairs.len() > 0,
        deciding_axis(body_sweep(bodies[ka], bodies[kb], dt), along_x),
        head_on(
            coord(bodies[ka].position, along_x),
            coord(bodies[ka].next_position(dt), along_x),
            coord(bodies[kb].position, along_x),
            coord(bodies[kb].next_position(dt), along_x),
            coord(bodies[ka].shape.half_extents(), along_x) + coord(bodies[kb].shape.half_extents(), along_x),
        ),
    ensures
        ({
            let moved = ccd_phase_of(bodies, dt, pairs, skin);
            &&& forall|k: usize| moved.contains_key(k) <==> (k == ka || k == kb)
            &&& moved[ka].shape == bodies[ka].shape
            &&& moved[kb].shape == bodies[kb].shape
            &&& kept_apart(
                coord(bodies[ka].position, along_x),
                coord(bodies[kb].position, along_x),
                coord(moved[ka].position, along_x),
                coord(moved[kb].position, along_x),
                coord(bodies[ka].shape.half_extents(), along_x) + coord(
                    bodies[kb].shape.half_extents(),
                    along_x,
                ),
            )
        }),
{
    let t = toi_of(body_sweep(bodies[ka], bodies[kb], dt)).unwrap();
    lemma_two_body_hits(bodies, dt, pairs, ka, kb);
    if ka < kb {
        lemma_two_body_ccd(bodies, dt, pairs, skin, ka, kb, t);
        lemma_pair_kept_apart(bodies[ka], bodies[kb], dt, skin, along_x);
    } else {
        lemma_head_on_is_mutual(bodies[ka], bodies[kb], dt, along_x);
        lemma_two_body_ccd(bodies, dt, pairs, skin, kb, ka, t);
        lemma_pair_kept_apart(bodies[kb], bodies[ka], dt, skin, along_x);
    }
}

proof fn lemma_two_bodies_stay_apart(
    moved: Map<usize, Body>,
    pairs: Seq<Edge>,
    ka: usize,
    kb: usize,
    along_x: bool,
)
    requires
        ka != kb,
        forall|k: usize| moved.contains_key(k) <==> (k == ka || k == kb),
        joins_only(pairs, ka, kb),
        coord(moved[kb].position, along_x) - coord(moved[ka].position, along_x) >= coord(
            moved[ka].shape.half_extents(),
            along_x,
        ) + coord(moved[kb].shape.half_extents(), along_x) || coord(moved[ka].position, along_x) - coord(
            moved[kb].position,
            along_x,
        ) >= coord(moved[ka].shape.half_extents(), along_x) + coord(moved[kb].shape.half_extents(), along_x),
    ensures
        ({
            let contacts = pairs.filter_map(edge_contact(moved));
            let after = resolve_all(moved, contacts, contacts.len());
            &&& after.dom() == moved.dom()
            &&& after[ka].position == moved[ka].position
            &&& after[kb].position == moved[kb].position
        }),
{
    let contacts = pairs.filter_map(edge_contact(moved));
    assert forall|j: int| 0 <= j < contacts.len() implies moved.contains_key((#[trigger] contacts[j]).0)
        && contacts[j].2.best().correction() == (Vector { x: 0, y: 0 }) by {
        lemma_contacts_come_from_edges(moved, pairs, j);
        let i = choose|i: int|
            0 <= i < pairs.len() && pair_contact(
                (#[trigger] pairs[i]).a,
                moved[pairs[i].a],
                pairs[i].b,
                moved[pairs[i].b],
            ) == Some(contacts[j]) && contacts[j].0 == pairs[i].a;
        lemma_no_correction_when_apart(moved[pairs[i].a], moved[pairs[i].b], along_x);
    }
    lemma_resolution_keeps_positions(moved, contacts, contacts.len());
}

/// Two solid dynamic bodies alone in a world that run into each other
/// head-on do not pass through each other, however fast they are: along the
/// axis that decides their time of impact they are, after the step, still
/// apart or they touch, each on the side of the other on which it began.
pub proof fn lemma_head_on_bodies_do_not_tunnel(w: WorldState, dt: int, ka: usize, kb: usize, along_x: bool)
    requires
        solid_pair_world(w, ka, kb),
        deciding_axis(body_sweep(w.bodies[ka], w.bodies[kb], dt), along_x),
        head_on(
            coord(w.bodies[ka].position, along_x),
            coord(w.bodies[ka].next_position(dt), along_x),
            coord(w.bodies[kb].position, along_x),
            coord(w.bodies[kb].next_position(dt), along_x),
            coord(w.bodies[ka].shape.half_extents(), along_x) + coord(
                w.bodies[kb].shape.half_extents(),
                along_x,
            ),
        ),
    ensures
        step_of(w, dt).bodies.dom() == w.bodies.dom(),
        kept_apart(
            coord(w.bodies[ka].position, along_x),
            coord(w.bodies[kb].position, along_x),
            coord(step_of(w, dt).bodies[ka].position, along_x),
            coord(step_of(w, dt).bodies[kb].position, along_x),
            coord(w.bodies[ka].shape.half_extents(), along_x) + coord(
                w.bodies[kb].shape.half_extents(),
                along_x,
            ),
        ),
{
    let pairs = broad_phase_of(w.bodies, dt, w.edges);
    let moved = ccd_phase_of(w.bodies, dt, pairs, w.skin);
    lemma_two_body_pairs(w, dt, ka, kb);
    lemma_two_bodies_moved_apart(w.bodies, dt, pairs, w.skin, ka, kb, along_x);
    lemma_two_bodies_stay_apart(moved, pairs, ka, kb, along_x);
}

/// The world holds the solid body `s` and the zone `z` and no other; each
/// accepts the other's category.
pub open spec fn zone_pair_world(w: WorldState, s: usize, z: usize) -> bool {
    &&& w.wf()
    &&& s != z
    &&& forall|k: usize| w.bodies.contains_key(k) <==> (k == s || k == z)
    &&& w.bodies[s].state == BodyState::Solid
    &&& w.bodies[z].state == BodyState::Zone
    &&& w.bodies[s].accepts(w.bodies[z])
}

proof fn lemma_one_edge_at_most(pairs: Seq<Edge>, ka: usize, kb: usize)
    requires
        simple(pairs),
        joins_only(pairs, ka, kb),
    ensures
        pairs.len() <= 1,
{
    if pairs.len() > 1 {
        assert(pairs[0].joins(ka, kb));
        assert(pairs[1].joins(ka, kb));
    }
}

proof fn lemma_no_hit_without_contact(bodies: Map<usize, Body>, dt: int, pairs: Seq<Edge>, k: usize, n: nat)
    requires
        n <= pairs.len(),
        forall|i: int|
            0 <= i < pairs.len() && (#[trigger] pairs[i]).touches(k) ==> !solid_pair(
                bodies[k],
                bodies[pairs[i].other(k)],
            ),
    ensures
        earliest_hit(bodies, dt, pairs, k, n).is_none(),
    decreases n,
{
    if n > 0 {
        lemma_no_hit_without_contact(bodies, dt, pairs, k, (n - 1) as nat);
    }
}

/// In a world of a solid body and a zone every body goes where its
/// velocity takes it.
proof fn lemma_zone_pair_moves_freely(bodies: Map<usize, Body>, dt: int, pairs: Seq<Edge>, skin: int, s: usize, z: usize)
    requires
        s != z,
        forall|k: usize| bodies.contains_key(k) <==> (k == s || k == z),
        bodies[s].state == BodyState::Solid,
        bodies[z].state == BodyState::Zone,
        joins_only(pairs, s, z),
    ensures
        ({
            let moved = ccd_phase_of(bodies, dt, pairs, skin);
            &&& forall|k: usize| moved.contains_key(k) <==> (k == s || k == z)
            &&& moved[s] == bodies[s].moved_to(bodies[s].next_position(dt))
            &&& moved[z] == bodies[z].moved_to(bodies[z].next_position(dt))
        }),
{
    assert forall|i: int| 0 <= i < pairs.len() && (#[trigger] pairs[i]).touches(s) implies !solid_pair(
        bodies[s],
        bodies[pairs[i].other(s)],
    ) by {
        assert(pairs[i].joins(s, z));
    }
    assert forall|i: int| 0 <= i < pairs.len() && (#[trigger] pairs[i]).touches(z) implies !solid_pair(
        bodies[z],
        bodies[pairs[i].other(z)],
    ) by {
        assert(pairs[i].joins(s, z));
    }
    lemma_no_hit_without_contact(bodies, dt, pairs, s, pairs.len());
    lemma_no_hit_without_contact(bodies, dt, pairs, z, pairs.len());
    let lo = if s < z {
        s
    } else {
        z
    };
    let hi = if s < z {
        z
    } else {
        s
    };
    lemma_two_keys(lo, hi, bodies.dom());
    let keys = key_order(bodies.dom());
    assert(keys.len() == 2 && keys[0] == lo && keys[1] == hi);
    let m0 = fix_hits(bodies, dt, pairs, skin, keys, 0);
    let m1 = fix_hits(bodies, dt, pairs, skin, keys, 1);
    let m2 = fix_hits(bodies, dt, pairs, skin, keys, 2);
    assert(m0 == bodies);
    assert(m1 == fix_one(bodies, m0, dt, pairs, skin, lo));
    assert(m2 == fix_one(bodies, m1, dt, pairs, skin, hi));
    assert(m2 == bodies);
    let moved = release(bodies, m2, dt, pairs);
    assert(moved[s] == bodies[s].moved_to(bodies[s].next_position(dt)));
    assert(moved[z] == bodies[z].moved_to(bodies[z].next_position(dt)));
}

/// What a step makes of a world of a solid body and a zone, given the one
/// edge that the broad phase leaves: the bodies go where their velocities
/// take them, nothing is recorded as a contact, and the edge decides the
/// event, if there is one.
proof fn lemma_zone_pair_step(w: WorldState, dt: int, s: usize, z: usize)
    requires
        zone_pair_world(w, s, z),
        broad_phase_of(w.bodies, dt, w.edges).len() == 1,
        broad_phase_of(w.bodies, dt, w.edges)[0].joins(s, z),
    ensures
        ({
            let e = broad_phase_of(w.bodies, dt, w.edges)[0];
            let after = step_of(w, dt);
            &&& after.bodies.dom() == w.bodies.dom()
            &&& after.bodies[s] == w.bodies[s].moved_to(w.bodies[s].next_position(dt))
            &&& after.bodies[z] == w.bodies[z].moved_to(w.bodies[z].next_position(dt))
            &&& after.contacts == Seq::<ContactInfo>::empty()
            &&& after.events == crate::narrow::optional(
                pair_event(s, after.bodies[s], z, after.bodies[z], e.fresh),
            )
            &&& after.edges == (if bodies_overlap(after.bodies[s], after.bodies[z]) {
                seq![e.settled()]
            } else {
                Seq::<Edge>::empty()
            })
        }),
{
    let pairs = broad_phase_of(w.bodies, dt, w.edges);
    let e = pairs[0];
    assert(pairs =~= seq![e]);
    lemma_zone_pair_moves_freely(w.bodies, dt, pairs, w.skin, s, z);
    let moved = ccd_phase_of(w.bodies, dt, pairs, w.skin);
    Seq::<Edge>::lemma_filter_map_singleton(e, edge_contact(moved));
    Seq::<Edge>::lemma_filter_map_singleton(e, edge_event(moved));
    Seq::<Edge>::lemma_filter_map_singleton(e, edge_kept(moved));
    lemma_zone_pair_reports(s, moved[s], z, moved[z], e.fresh);
    lemma_overlap_symmetric(
        moved[s].position,
        moved[s].shape.half_extents(),
        moved[z].position,
        moved[z].shape.half_extents(),
    );
    let contacts = pairs.filter_map(edge_contact(moved));
    assert(contacts =~= Seq::<ContactInfo>::empty());
    assert(pairs.filter_map(edge_kept(moved)) =~= (if bodies_overlap(moved[s], moved[z]) {
        seq![e.settled()]
    } else {
        Seq::<Edge>::empty()
    }));
    assert(pairs.filter_map(edge_event(moved)) =~= crate::narrow::optional(
        pair_event(s, moved[s], z, moved[z], e.fresh),
    ));
}

/// A solid body and a zone that are not tracked and overlap after a step:
/// the step reports one event, that the overlap has started, with the solid
/// body first. It records no contact, and the pair is tracked afterwards.
pub proof fn lemma_zone_overlap_starts(w: WorldState, dt: int, s: usize, z: usize)
    requires
        zone_pair_world(w, s, z),
        w.edges.len() == 0,
        w.bodies[s].btype == BodyType::Dynamic || w.bodies[z].btype == BodyType::Dynamic,
        bodies_overlap(
            w.bodies[s].moved_to(w.bodies[s].next_position(dt)),
            w.bodies[z].moved_to(w.bodies[z].next_position(dt)),
        ),
    ensures
        step_of(w, dt).events == seq![PhysicsEvent::OverlapStarted(BodyHandle(s), BodyHandle(z))],
        step_of(w, dt).contacts == Seq::<ContactInfo>::empty(),
        step_of(w, dt).edges.len() == 1,
        step_of(w, dt).edges[0].joins(s, z),
        !step_of(w, dt).edges[0].fresh,
        bodies_overlap(step_of(w, dt).bodies[s], step_of(w, dt).bodies[z]),
{
    let pairs = broad_phase_of(w.bodies, dt, w.edges);
    lemma_broad_phase_tracks_candidates(w.bodies, dt, w.edges);
    crate::body::lemma_filter_is_mutual(w.bodies[s], w.bodies[z]);
    assert(sweeps_meet(w.bodies[s], w.bodies[z], dt));
    assert(sweeps_meet(w.bodies[z], w.bodies[s], dt));
    if is_candidate(w.bodies, dt, s, z) {
        assert(connected(pairs, s, z));
    } else {
        assert(is_candidate(w.bodies, dt, z, s));
        assert(connected(pairs, z, s));
        let i = choose|i: int| 0 <= i < pairs.len() && #[trigger] pairs[i].joins(z, s);
        assert(pairs[i].joins(s, z));
    }
    assert(pairs.len() > 0);
    assert forall|i: int| 0 <= i < pairs.len() implies (#[trigger] pairs[i]).joins(s, z) by {
        assert(w.bodies.contains_key(pairs[i].a) && w.bodies.contains_key(pairs[i].b));
        assert(pairs[i].a != pairs[i].b);
    }
    lemma_one_edge_at_most(pairs, s, z);
    assert(pairs[0].fresh);
    lemma_zone_pair_step(w, dt, s, z);
}

/// A solid body and a zone that are tracked and no longer overlap after a
/// step: the step reports one event, that the overlap has ended, with the
/// solid body first. It records no contact, and the pair is no longer
/// tracked afterwards.
pub proof fn lemma_zone_overlap_ends(w: WorldState, dt: int, s: usize, z: usize)
    requires
        zone_pair_world(w, s, z),
        w.edges.len() == 1,
        w.edges[0].joins(s, z),
        !w.edges[0].fresh,
        !bodies_overlap(
            w.bodies[s].moved_to(w.bodies[s].next_position(dt)),
            w.bodies[z].moved_to(w.bodies[z].next_position(dt)),
        ),
    ensures
        step_of(w, dt).events == seq![PhysicsEvent::OverlapEnded(BodyHandle(s), BodyHandle(z))],
        step_of(w, dt).contacts == Seq::<ContactInfo>::empty(),
        step_of(w, dt).edges.len() == 0,
{
    lemma_tracked_pair_stays(w, dt, s, z);
    lemma_zone_pair_step(w, dt, s, z);
}

/// A solid body and a zone that are tracked and still overlap after a
/// step: the step reports nothing and records no contact, and the pair
/// stays tracked.
pub proof fn lemma_zone_overlap_lasts(w: WorldState, dt: int, s: usize, z: usize)
    requires
        zone_pair_world(w, s, z),
        w.edges.len() == 1,
        w.edges[0].joins(s, z),
        !w.edges[0].fresh,
        bodies_overlap(
            w.bodies[s].moved_to(w.bodies[s].next_position(dt)),
            w.bodies[z].moved_to(w.bodies[z].next_position(dt)),
        ),
    ensures
        step_of(w, dt).events == Seq::<PhysicsEvent>::empty(),
        step_of(w, dt).contacts == Seq::<ContactInfo>::empty(),
        step_of(w, dt).edges == w.edges,
{
    lemma_tracked_pair_stays(w, dt, s, z);
    lemma_zone_pair_step(w, dt, s, z);
}

proof fn lemma_tracked_pair_stays(w: WorldState, dt: int, s: usize, z: usize)
    requires
        zone_pair_world(w, s, z),
        w.edges.len() == 1,
        w.edges[0].joins(s, z),
    ensures
        broad_phase_of(w.bodies, dt, w.edges).len() == 1,
        broad_phase_of(w.bodies, dt, w.edges)[0] == w.edges[0],
{
    let pairs = broad_phase_of(w.bodies, dt, w.edges);
    lemma_broad_phase_tracks_candidates(w.bodies, dt, w.edges);
    assert forall|i: int| 0 <= i < pairs.len() implies (#[trigger] pairs[i]).joins(s, z) by {
        if i < w.edges.len() {
            assert(pairs[i] == w.edges[i]);
        } else {
            assert(w.bodies.contains_key(pairs[i].a) && w.bodies.contains_key(pairs[i].b));
        }
    }
    lemma_one_edge_at_most(pairs, s, z);
}

} // verus!
