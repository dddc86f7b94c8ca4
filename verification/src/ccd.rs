//! Continuous collision detection: keeping fast bodies from passing through others.

use vstd::prelude::*;
use crate::body::{Body, BodyState, Shape};
use crate::graph::Edge;
use crate::narrow::solid_pair;
use crate::shape::{collision_aabb_aabb_manifold, manifold_of};
use crate::store::{arena_get, arena_get_mut, is_key_order, key_order};
use crate::toi::{advance, partway, sweep_of, time_of_impact, toi_of, Sweep, Toi};
use crate::vector::Vector;
use crate::world::{PhysicsWorld, WorldState};

verus! {

/// The number of rounds after which the correction pass gives up.
pub const MAX_ITERATIONS: u32 = 20;

/// Numerator of the tolerance: an impact no later than this fraction of the
/// step counts as touching already.
pub const TOLERANCE_NUM: i64 = 1;

/// Denominator of the tolerance.
pub const TOLERANCE_DEN: i64 = 100;

/// What continuous collision detection decides for one body.
#[derive(Clone, Copy, Debug, PartialEq, Eq, Structural)]
pub enum Plan {
    /// The body does not move during the step.
    Rest,
    /// Nothing is in the body's way: it goes to its predicted position.
    Free { next: Vector },
    /// The body runs into `partner`: it goes as far as `stop` and is then
    /// kept clear of the partner.
    Clamped { partner: usize, stop: Vector },
}

/// The earliest impact found for a body.
#[derive(Clone, Copy, Debug)]
pub struct Hit {
    pub partner: usize,
    pub toi: Toi,
}

/// The sweep of `partner` relative to `mover` during a step of length `dt`.
pub open spec fn body_sweep(mover: Body, partner: Body, dt: int) -> Sweep {
    sweep_of(
        mover.position,
        mover.next_position(dt),
        mover.shape.half_extents(),
        partner.position,
        partner.next_position(dt),
        partner.shape.half_extents(),
    )
}

/// The moment `a` comes strictly before the moment `b`.
pub open spec fn comes_before(a: (int, int), b: (int, int)) -> bool {
    a.0 * b.1 < b.0 * a.1
}

/// The earliest impact of body `k` among the first `n` edges: only edges
/// that join `k` to a body it is in contact interaction with count, that is
/// edges between two solid bodies. Of two impacts at the same moment the one
/// on the earlier edge stands.
pub open spec fn earliest_hit(bodies: Map<usize, Body>, dt: int, edges: Seq<Edge>, k: usize, n: nat) -> Option<
    (usize, (int, int)),
>
    decreases n,
{
    if n == 0 {
        None
    } else {
        let before = earliest_hit(bodies, dt, edges, k, (n - 1) as nat);
        let e = edges[n - 1];
        if e.touches(k) && solid_pair(bodies[k], bodies[e.other(k)]) {
            match toi_of(body_sweep(bodies[k], bodies[e.other(k)], dt)) {
                Some(t) => if before.is_none() || comes_before(t, before.unwrap().1) {
                    Some((e.other(k), t))
                } else {
                    before
                },
                None => before,
            }
        } else {
            before
        }
    }
}

/// The step would move the body.
pub open spec fn displaced(body: Body, dt: int) -> bool {
    body.next_position(dt) != body.position
}

/// The moment is within the tolerance of the start of the step.
pub open spec fn within_tolerance(t: (int, int)) -> bool {
    t.0 * TOLERANCE_DEN <= TOLERANCE_NUM * t.1
}

/// Where a body stops that has an impact at the moment `t`: where it is, if
/// the impact is within the tolerance; else as far along its way as the
/// moment `t` takes it.
pub open spec fn stop_position(body: Body, dt: int, t: (int, int)) -> Vector {
    if within_tolerance(t) {
        body.position
    } else {
        partway(body.position, body.next_position(dt), t.0, t.1)
    }
}

/// The plan for body `k`: a body that the step does not move rests; a body
/// with an impact is clamped at its earliest impact; any other body is free.
pub open spec fn plan_of(bodies: Map<usize, Body>, dt: int, edges: Seq<Edge>, k: usize) -> Plan {
    if !displaced(bodies[k], dt) {
        Plan::Rest
    } else {
        match earliest_hit(bodies, dt, edges, k, edges.len()) {
            Some((partner, t)) => Plan::Clamped { partner, stop: stop_position(bodies[k], dt, t) },
            None => Plan::Free { next: bodies[k].next_position(dt) },
        }
    }
}

/// Where the correction pass leaves a box of the given shape that starts at
/// `position`: as long as it has a contact with the partner whose
/// correction is not zero, and for at most `rounds` rounds, it is moved by
/// the correction of its best contact.
pub open spec fn settled_at(position: Vector, shape: Shape, partner: Body, rounds: nat) -> Vector
    decreases rounds,
{
    if rounds == 0 {
        position
    } else {
        match manifold_of(position, shape.half_extents(), partner.position, partner.shape.half_extents()) {
            None => position,
            Some(manifold) => {
                let correction = manifold.best().correction();
                if correction == (Vector { x: 0, y: 0 }) {
                    position
                } else {
                    settled_at(position.advanced(correction, 1), shape, partner, (rounds - 1) as nat)
                }
            },
        }
    }
}

/// A coordinate that goes from `from` to `to` does not get nearer to
/// `partner`, nor past it.
pub open spec fn backs_away(from: int, to: int, partner: int) -> bool {
    &&& partner > from ==> to <= from
    &&& partner < from ==> to >= from
    &&& partner == from ==> to == from
}

/// Settling only ever moves a box away from its partner: on neither axis
/// does the box end nearer to the partner's centre than it began, or on the
/// other side of it.
pub proof fn lemma_settling_backs_away(position: Vector, shape: Shape, partner: Body, rounds: nat)
    ensures
        backs_away(
            position.x as int,
            settled_at(position, shape, partner, rounds).x as int,
            partner.position.x as int,
        ),
        backs_away(
            position.y as int,
            settled_at(position, shape, partner, rounds).y as int,
            partner.position.y as int,
        ),
    decreases rounds,
{
    if rounds > 0 {
        match manifold_of(position, shape.half_extents(), partner.position, partner.shape.half_extents()) {
            None => {},
            Some(manifold) => {
                let contact = manifold.best();
                let correction = contact.correction();
                if correction != (Vector { x: 0, y: 0 }) {
                    let moved = position.advanced(correction, 1);
                    let nx = contact.normal.x as int;
                    let ny = contact.normal.y as int;
                    let depth = contact.depth as int;
                    assert(depth >= 0);
                    assert(nx == 1 ==> nx * depth == depth) by (nonlinear_arith);
                    assert(nx == -1 ==> nx * depth == -depth) by (nonlinear_arith);
                    assert(nx == 0 ==> nx * depth == 0) by (nonlinear_arith);
                    assert(ny == 1 ==> ny * depth == depth) by (nonlinear_arith);
                    assert(ny == -1 ==> ny * depth == -depth) by (nonlinear_arith);
                    assert(ny == 0 ==> ny * depth == 0) by (nonlinear_arith);
                    assert(correction.x * 1 == correction.x);
                    assert(correction.y * 1 == correction.y);
                    assert(backs_away(position.x as int, moved.x as int, partner.position.x as int));
                    assert(backs_away(position.y as int, moved.y as int, partner.position.y as int));
                    lemma_settling_backs_away(moved, shape, partner, (rounds - 1) as nat);
                }
            },
        }
    }
}

/// Both coordinates are small enough for sums of a few of them to stay in
/// the coordinate range.
pub open spec fn modest(v: Vector) -> bool {
    &&& -0x1000_0000 <= v.x <= 0x1000_0000
    &&& -0x1000_0000 <= v.y <= 0x1000_0000
}

/// Away from the ends of the coordinate range one round settles a box: the
/// rounds after the first change nothing, and where the box is then, it has
/// no contact with its partner that asks for a correction.
pub proof fn lemma_one_round_settles(position: Vector, shape: Shape, partner: Body, rounds: nat)
    requires
        rounds >= 1,
        modest(position),
        modest(shape.half_extents()),
        modest(partner.position),
        modest(partner.shape.half_extents()),
    ensures
        settled_at(position, shape, partner, rounds) == settled_at(position, shape, partner, 1),
        settled_at(settled_at(position, shape, partner, rounds), shape, partner, 1) == settled_at(
            position,
            shape,
            partner,
            rounds,
        ),
{
    let half = shape.half_extents();
    let other = partner.shape.half_extents();
    match manifold_of(position, half, partner.position, other) {
        None => {
            assert(settled_at(position, shape, partner, 1) == position);
            assert(settled_at(position, shape, partner, rounds) == position);
        },
        Some(manifold) => {
            let contact = manifold.best();
            let correction = contact.correction();
            let nx = contact.normal.x as int;
            let ny = contact.normal.y as int;
            let depth = contact.depth as int;
            assert(nx == 1 ==> nx * depth == depth) by (nonlinear_arith);
            assert(nx == -1 ==> nx * depth == -depth) by (nonlinear_arith);
            assert(nx == 0 ==> nx * depth == 0) by (nonlinear_arith);
            assert(ny == 1 ==> ny * depth == depth) by (nonlinear_arith);
            assert(ny == -1 ==> ny * depth == -depth) by (nonlinear_arith);
            assert(ny == 0 ==> ny * depth == 0) by (nonlinear_arith);
            if correction != (Vector { x: 0, y: 0 }) {
                let moved = position.advanced(correction, 1);
                assert(correction.x * 1 == correction.x);
                assert(correction.y * 1 == correction.y);
                let again = manifold_of(moved, half, partner.position, other);
                assert(again.is_some());
                let next = again.unwrap().best();
                assert(next.depth == 0);
                assert(next.normal.x * 0 == 0);
                assert(next.normal.y * 0 == 0);
                assert(next.correction() == (Vector { x: 0, y: 0 }));
                assert(settled_at(moved, shape, partner, 0) == moved);
                assert(settled_at(moved, shape, partner, 1) == moved);
                assert(settled_at(moved, shape, partner, (rounds - 1) as nat) == moved);
                assert(settled_at(position, shape, partner, 1) == moved);
                assert(settled_at(position, shape, partner, rounds) == moved);
            } else {
                assert(settled_at(position, shape, partner, 1) == position);
                assert(settled_at(position, shape, partner, rounds) == position);
            }
        },
    }
}

/// The bodies after the plan of body `k` has been carried out, if it is
/// clamped: the body goes to where it stops and is then settled, with its
/// shape grown by the skin margin, against its partner as the partner is now.
pub open spec fn fix_one(
    start: Map<usize, Body>,
    current: Map<usize, Body>,
    dt: int,
    edges: Seq<Edge>,
    skin: int,
    k: usize,
) -> Map<usize, Body> {
    match plan_of(start, dt, edges, k) {
        Plan::Clamped { partner, stop } => current.insert(
            k,
            current[k].moved_to(
                settled_at(stop, current[k].shape.inflated(skin), current[partner], MAX_ITERATIONS as nat),
            ),
        ),
        _ => current,
    }
}

/// The bodies after the clamped bodies among the first `n` keys have been
/// moved, in key order. The plans are those made before any body moved.
pub open spec fn fix_hits(
    start: Map<usize, Body>,
    dt: int,
    edges: Seq<Edge>,
    skin: int,
    keys: Seq<usize>,
    n: nat,
) -> Map<usize, Body>
    decreases n,
{
    if n == 0 {
        start
    } else {
        fix_one(start, fix_hits(start, dt, edges, skin, keys, (n - 1) as nat), dt, edges, skin, keys[n - 1])
    }
}

/// Body `k` once the free bodies have moved.
pub open spec fn released_body(
    start: Map<usize, Body>,
    fixed: Map<usize, Body>,
    dt: int,
    edges: Seq<Edge>,
    k: usize,
) -> Body {
    match plan_of(start, dt, edges, k) {
        Plan::Free { next } => fixed[k].moved_to(next),
        _ => fixed[k],
    }
}

/// The bodies once every free body has gone to its predicted position.
pub open spec fn release(start: Map<usize, Body>, fixed: Map<usize, Body>, dt: int, edges: Seq<Edge>) -> Map<
    usize,
    Body,
> {
    Map::new(|k: usize| fixed.contains_key(k), |k: usize| released_body(start, fixed, dt, edges, k))
}

/// The bodies after continuous collision detection: the clamped bodies are
/// moved first, in key order, then the free ones.
pub open spec fn ccd_phase_of(bodies: Map<usize, Body>, dt: int, edges: Seq<Edge>, skin: int) -> Map<usize, Body> {
    let keys = key_order(bodies.dom());
    release(bodies, fix_hits(bodies, dt, edges, skin, keys, keys.len()), dt, edges)
}

/// The impact a computed hit stands for.
pub open spec fn hit_view(hit: Option<Hit>) -> Option<(usize, (int, int))> {
    match hit {
        Some(h) => Some((h.partner, h.toi@)),
        None => None,
    }
}

/// An earliest impact is an impact on one of the edges seen, with the body
/// across that edge.
pub proof fn lemma_hit_on_edge(bodies: Map<usize, Body>, dt: int, edges: Seq<Edge>, k: usize, n: nat)
    requires
        n <= edges.len(),
        earliest_hit(bodies, dt, edges, k, n).is_some(),
    ensures
        exists|i: int|
            0 <= i < n && (#[trigger] edges[i]).touches(k) && edges[i].other(k) == earliest_hit(
                bodies,
                dt,
                edges,
                k,
                n,
            ).unwrap().0 && solid_pair(bodies[k], bodies[edges[i].other(k)]) && toi_of(
                body_sweep(bodies[k], bodies[edges[i].other(k)], dt),
            ) == Some(earliest_hit(bodies, dt, edges, k, n).unwrap().1),
    decreases n,
{
    let before = earliest_hit(bodies, dt, edges, k, (n - 1) as nat);
    let e = edges[n - 1];
    if earliest_hit(bodies, dt, edges, k, n) == before {
        lemma_hit_on_edge(bodies, dt, edges, k, (n - 1) as nat);
        let i = choose|i: int|
            0 <= i < n - 1 && (#[trigger] edges[i]).touches(k) && edges[i].other(k) == before.unwrap().0
                && solid_pair(bodies[k], bodies[edges[i].other(k)]) && toi_of(
                body_sweep(bodies[k], bodies[edges[i].other(k)], dt),
            ) == Some(before.unwrap().1);
        assert(edges[i].touches(k));
    } else {
        assert(edges[n - 1].touches(k));
    }
}

/// Of three moments, one that is not before the second is not before a
/// third that is before the second.
proof fn lemma_not_before_earlier(a: (int, int), b: (int, int), c: (int, int))
    requires
        a.1 > 0,
        b.1 > 0,
        c.1 > 0,
        !comes_before(a, b),
        comes_before(c, b),
    ensures
        !comes_before(a, c),
{
    assert(a.0 * c.1 >= c.0 * a.1) by (nonlinear_arith)
        requires
            a.1 > 0,
            b.1 > 0,
            c.1 > 0,
            a.0 * b.1 >= b.0 * a.1,
            c.0 * b.1 < b.0 * c.1,
    {
        assert((a.0 * b.1) * c.1 >= (b.0 * a.1) * c.1);
        assert((c.0 * b.1) * a.1 <= (b.0 * c.1) * a.1);
        assert((a.0 * c.1) * b.1 >= (c.0 * a.1) * b.1);
    }
}

/// An earliest impact is at a moment of the step.
pub proof fn lemma_hit_in_step(bodies: Map<usize, Body>, dt: int, edges: Seq<Edge>, k: usize, n: nat)
    requires
        n <= edges.len(),
        earliest_hit(bodies, dt, edges, k, n).is_some(),
    ensures
        0 <= earliest_hit(bodies, dt, edges, k, n).unwrap().1.0 <= earliest_hit(
            bodies,
            dt,
            edges,
            k,
            n,
        ).unwrap().1.1,
        0 < earliest_hit(bodies, dt, edges, k, n).unwrap().1.1,
{
    lemma_hit_on_edge(bodies, dt, edges, k, n);
    let hit = earliest_hit(bodies, dt, edges, k, n).unwrap();
    let i = choose|i: int|
        0 <= i < n && (#[trigger] edges[i]).touches(k) && edges[i].other(k) == hit.0 && solid_pair(
            bodies[k],
            bodies[edges[i].other(k)],
        ) && toi_of(body_sweep(bodies[k], bodies[edges[i].other(k)], dt)) == Some(hit.1);
    crate::toi::lemma_toi_in_step(body_sweep(bodies[k], bodies[edges[i].other(k)], dt));
}

/// No impact of body `k` on one of the edges seen comes before its
/// earliest impact.
pub proof fn lemma_earliest_hit_is_least(
    bodies: Map<usize, Body>,
    dt: int,
    edges: Seq<Edge>,
    k: usize,
    n: nat,
    i: int,
)
    requires
        n <= edges.len(),
        0 <= i < n,
        edges[i].touches(k),
        solid_pair(bodies[k], bodies[edges[i].other(k)]),
        toi_of(body_sweep(bodies[k], bodies[edges[i].other(k)], dt)).is_some(),
    ensures
        earliest_hit(bodies, dt, edges, k, n).is_some(),
        earliest_hit(bodies, dt, edges, k, n).unwrap().1.1 > 0,
        !comes_before(
            toi_of(body_sweep(bodies[k], bodies[edges[i].other(k)], dt)).unwrap(),
            earliest_hit(bodies, dt, edges, k, n).unwrap().1,
        ),
    decreases n,
{
    let t = toi_of(body_sweep(bodies[k], bodies[edges[i].other(k)], dt)).unwrap();
    crate::toi::lemma_toi_in_step(body_sweep(bodies[k], bodies[edges[i].other(k)], dt));
    let before = earliest_hit(bodies, dt, edges, k, (n - 1) as nat);
    let after = earliest_hit(bodies, dt, edges, k, n);
    let e = edges[n - 1];
    if e.touches(k) && solid_pair(bodies[k], bodies[e.other(k)]) {
        crate::toi::lemma_toi_in_step(body_sweep(bodies[k], bodies[e.other(k)], dt));
    }
    if i < n - 1 {
        lemma_earliest_hit_is_least(bodies, dt, edges, k, (n - 1) as nat, i);
        if after != before {
            lemma_not_before_earlier(t, before.unwrap().1, after.unwrap().1);
        }
    } else if before.is_some() {
        lemma_hit_in_step(bodies, dt, edges, k, (n - 1) as nat);
    }
}

impl Plan {
    /// A clamped body has a partner that exists and is another body.
    pub open spec fn sound(self, bodies: Map<usize, Body>, k: usize) -> bool {
        match self {
            Plan::Clamped { partner, stop } => bodies.contains_key(partner) && partner != k,
            _ => true,
        }
    }
}

impl PhysicsWorld {
    /// Finds the earliest impact of body `k`, which moves to `next`, among
    /// the tracked pairs it is part of.
    fn find_earliest_hit(&self, k: usize, body: &Body, next: Vector, dt: u32) -> (hit: Option<Hit>)
        requires
            self.wf(),
            self@.bodies.contains_key(k),
            *body == self@.bodies[k],
            next == body.next_position(dt as int),
        ensures
            hit_view(hit) == earliest_hit(self@.bodies, dt as int, self@.edges, k, self@.edges.len()),
            hit matches Some(h) ==> h.toi.wf(),
    {
        let Shape::AABB(half) = body.shape;
        let mut best: Option<Hit> = None;
        let count = self.collision_graph.edge_count();
        let mut i: usize = 0;
        while i < count
            invariant
                i <= count,
                count == self@.edges.len(),
                self.wf(),
                self@.bodies.contains_key(k),
                *body == self@.bodies[k],
                next == body.next_position(dt as int),
                half == body.shape.half_extents(),
                hit_view(best) == earliest_hit(self@.bodies, dt as int, self@.edges, k, i as nat),
                best matches Some(h) ==> h.toi.wf(),
            decreases count - i,
        {
            let e = self.collision_graph.edge(i);
            if e.a == k || e.b == k {
                let other = if e.a == k {
                    e.b
                } else {
                    e.a
                };
                let partner: Body = *arena_get(&self.bodies, other).unwrap();
                if is_solid(body) && is_solid(&partner) {
                    let Shape::AABB(partner_half) = partner.shape;
                    let toi = time_of_impact(
                        body.position,
                        next,
                        half,
                        partner.position,
                        partner.predicted_position(dt),
                        partner_half,
                    );
                    if let Some(t) = toi {
                        let earlier = match &best {
                            Some(h) => t.is_before(&h.toi),
                            None => true,
                        };
                        if earlier {
                            best = Some(Hit { partner: other, toi: t });
                        }
                    }
                }
            }
            i += 1;
        }
        best
    }

    /// Settles body `hits` against body `is_hit`: with its shape grown by
    /// `skin_factor`, the body is moved out of the other by the correction of
    /// its best contact, until no contact is left, the correction is zero, or
    /// `max_iterations` rounds are over.
    pub(crate) fn non_linear_gauss_seidel(&mut self, hits: usize, is_hit: usize, max_iterations: u32, skin_factor: i32)
        requires
            old(self).wf(),
            old(self)@.bodies.contains_key(hits),
            old(self)@.bodies.contains_key(is_hit),
            hits != is_hit,
        ensures
            final(self).wf(),
            final(self)@ == (WorldState {
                bodies: old(self)@.bodies.insert(
                    hits,
                    old(self)@.bodies[hits].moved_to(
                        settled_at(
                            old(self)@.bodies[hits].position,
                            old(self)@.bodies[hits].shape.inflated(skin_factor as int),
                            old(self)@.bodies[is_hit],
                            max_iterations as nat,
                        ),
                    ),
                ),
                ..old(self)@
            }),
    {
        let mover: Body = *arena_get(&self.bodies, hits).unwrap();
        let partner: Body = *arena_get(&self.bodies, is_hit).unwrap();
        // grow the body by the skin factor
        let skin_shape = mover.shape.inflate(skin_factor);
        let Shape::AABB(skin_half) = skin_shape;
        let Shape::AABB(partner_half) = partner.shape;
        let mut position = mover.position;
        let mut n: u32 = 0;
        while n < max_iterations
            invariant
                n <= max_iterations,
                skin_half == skin_shape.half_extents(),
                partner_half == partner.shape.half_extents(),
                settled_at(mover.position, skin_shape, partner, max_iterations as nat) == settled_at(
                    position,
                    skin_shape,
                    partner,
                    (max_iterations - n) as nat,
                ),
            ensures
                settled_at(mover.position, skin_shape, partner, max_iterations as nat) == position,
            decreases max_iterations - n,
        {
            let pos_correction;
            match collision_aabb_aabb_manifold(position, skin_half, partner.position, partner_half) {
                Some(manifold) => {
                    pos_correction = manifold.best_contact().push_out();
                },
                None => {
                    break ;
                },
            }
            if pos_correction == Vector::zero() {
                break ;
            } else {
                // correct the position slightly
                position = position.plus(pos_correction);
            }
            n += 1;
        }
        // the body keeps its own shape
        let found = arena_get_mut(&mut self.bodies, hits);
        let body = found.unwrap();
        body.position = position;
    }
}

impl PhysicsWorld {
    /// Makes the plan of every body, in key order, from the world as it is.
    fn make_plans(&self, keys: &Vec<usize>, dt: u32) -> (plans: Vec<Plan>)
        requires
            self.wf(),
            is_key_order(keys@, self@.bodies.dom()),
        ensures
            plans@.len() == keys@.len(),
            forall|j: int|
                0 <= j < keys@.len() ==> (#[trigger] plans@[j]) == plan_of(
                    self@.bodies,
                    dt as int,
                    self@.edges,
                    keys@[j],
                ) && plans@[j].sound(self@.bodies, keys@[j]),
    {
        let mut plans: Vec<Plan> = Vec::with_capacity(keys.len());
        let mut i: usize = 0;
        while i < keys.len()
            invariant
                i <= keys.len(),
                self.wf(),
                is_key_order(keys@, self@.bodies.dom()),
                plans@.len() == i,
                forall|j: int|
                    0 <= j < i ==> (#[trigger] plans@[j]) == plan_of(
                        self@.bodies,
                        dt as int,
                        self@.edges,
                        keys@[j],
                    ) && plans@[j].sound(self@.bodies, keys@[j]),
            decreases keys.len() - i,
        {
            let k = keys[i];
            let body: Body = *arena_get(&self.bodies, k).unwrap();
            let next = body.predicted_position(dt);
            let plan = if next == body.position {
                Plan::Rest
            } else {
                match self.find_earliest_hit(k, &body, next, dt) {
                    Some(hit) => {
                        proof {
                            lemma_hit_on_edge(
                                self@.bodies,
                                dt as int,
                                self@.edges,
                                k,
                                self@.edges.len(),
                            );
                        }
                        // an impact this early means the bodies touch already
                        let stop = if hit.toi.is_within(TOLERANCE_NUM, TOLERANCE_DEN) {
                            body.position
                        } else {
                            advance(body.position, next, &hit.toi)
                        };
                        Plan::Clamped { partner: hit.partner, stop }
                    },
                    None => Plan::Free { next },
                }
            };
            plans.push(plan);
            i += 1;
        }
        plans
    }

    /// Moves the bodies that a step of length `dt` displaces. A body with an
    /// impact goes as far as its earliest impact and is settled against the
    /// body it hit; every other body goes to its predicted position.
    pub(crate) fn ccd_phase(&mut self, keys: &Vec<usize>, dt: u32)
        requires
            old(self).wf(),
            is_key_order(keys@, old(self)@.bodies.dom()),
        ensures
            final(self).wf(),
            final(self)@.bodies.dom() == old(self)@.bodies.dom(),
            final(self)@ == (WorldState {
                bodies: release(
                    old(self)@.bodies,
                    fix_hits(
                        old(self)@.bodies,
                        dt as int,
                        old(self)@.edges,
                        old(self)@.skin,
                        keys@,
                        keys@.len(),
                    ),
                    dt as int,
                    old(self)@.edges,
                ),
                ..old(self)@
            }),
    {
        let ghost start = self@;
        let plans = self.make_plans(keys, dt);

        let mut i: usize = 0;
        while i < keys.len()
            invariant
                i <= keys.len(),
                self.wf(),
                start.wf(),
                is_key_order(keys@, start.bodies.dom()),
                plans@.len() == keys@.len(),
                forall|j: int|
                    0 <= j < keys@.len() ==> (#[trigger] plans@[j]) == plan_of(
                        start.bodies,
                        dt as int,
                        start.edges,
                        keys@[j],
                    ) && plans@[j].sound(start.bodies, keys@[j]),
                self@.bodies.dom() == start.bodies.dom(),
                self@ == (WorldState {
                    bodies: fix_hits(start.bodies, dt as int, start.edges, start.skin, keys@, i as nat),
                    ..start
                }),
            decreases keys.len() - i,
        {
            let k = keys[i];
            match plans[i] {
                Plan::Clamped { partner, stop } => {
                    let ghost current = self@.bodies;
                    let found = arena_get_mut(&mut self.bodies, k);
                    let body = found.unwrap();
                    body.position = stop;
                    let skin = self.skin;
                    self.non_linear_gauss_seidel(k, partner, MAX_ITERATIONS, skin);
                    assert(self@.bodies =~= fix_one(
                        start.bodies,
                        current,
                        dt as int,
                        start.edges,
                        start.skin,
                        k,
                    ));
                },
                _ => {},
            }
            i += 1;
        }

        // lastly move every body that nothing stopped
        let ghost fixed = self@.bodies;
        let mut i: usize = 0;
        while i < keys.len()
            invariant
                i <= keys.len(),
                self.wf(),
                start.wf(),
                is_key_order(keys@, start.bodies.dom()),
                plans@.len() == keys@.len(),
                forall|j: int|
                    0 <= j < keys@.len() ==> (#[trigger] plans@[j]) == plan_of(
                        start.bodies,
                        dt as int,
                        start.edges,
                        keys@[j],
                    ),
                fixed.dom() == start.bodies.dom(),
                self@.bodies.dom() == start.bodies.dom(),
                self@ == (WorldState { bodies: self@.bodies, ..start }),
                forall|j: int|
                    0 <= j < keys@.len() ==> self@.bodies[#[trigger] keys@[j]] == (if j < i {
                        released_body(start.bodies, fixed, dt as int, start.edges, keys@[j])
                    } else {
                        fixed[keys@[j]]
                    }),
            decreases keys.len() - i,
        {
            let k = keys[i];
            match plans[i] {
                Plan::Free { next } => {
                    let found = arena_get_mut(&mut self.bodies, k);
                    let body = found.unwrap();
                    body.position = next;
                },
                _ => {},
            }
            i += 1;
        }
        proof {
            let released = release(start.bodies, fixed, dt as int, start.edges);
            assert forall|k: usize| self@.bodies.contains_key(k) implies #[trigger] self@.bodies[k]
                == released[k] by {
                let j = choose|j: int| 0 <= j < keys@.len() && keys@[j] == k;
                assert(self@.bodies[keys@[j]] == released_body(
                    start.bodies,
                    fixed,
                    dt as int,
                    start.edges,
                    keys@[j],
                ));
            }
            assert(self@.bodies =~= released);
        }
    }
}

fn is_solid(body: &Body) -> (r: bool)
    ensures
        r == (body.state == BodyState::Solid),
{
    match body.state {
        BodyState::Solid => true,
        BodyState::Zone => false,
    }
}

} // verus!
