//! The pairs of bodies that are tracked from one step to the next.

use vstd::prelude::*;

verus! {

/// A tracked pair. The endpoints are kept in the order in which the pair was
/// found; `fresh` says that the pair was found during the current step.
#[derive(Clone, Copy, Debug, PartialEq, Eq, Structural)]
pub struct Edge {
    pub a: usize,
    pub b: usize,
    pub fresh: bool,
}

impl Edge {
    /// The edge joins `a` and `b`, in either order.
    pub open spec fn joins(self, a: usize, b: usize) -> bool {
        (self.a == a && self.b == b) || (self.a == b && self.b == a)
    }

    /// The edge has `key` as an endpoint.
    pub open spec fn touches(self, key: usize) -> bool {
        self.a == key || self.b == key
    }

    /// The endpoint across from `key`.
    pub open spec fn other(self, key: usize) -> usize {
        if self.a == key {
            self.b
        } else {
            self.a
        }
    }

    /// The same pair, no longer fresh.
    pub open spec fn settled(self) -> Edge {
        Edge { fresh: false, ..self }
    }
}

/// Some edge joins `a` and `b`.
pub open spec fn connected(edges: Seq<Edge>, a: usize, b: usize) -> bool {
    exists|i: int| 0 <= i < edges.len() && #[trigger] edges[i].joins(a, b)
}

/// The edges once `a` and `b` are known to be joined: a pair that is not
/// joined yet gets a fresh edge at the end.
pub open spec fn with_edge(edges: Seq<Edge>, a: usize, b: usize) -> Seq<Edge> {
    if a == b || connected(edges, a, b) {
        edges
    } else {
        edges.push(Edge { a, b, fresh: true })
    }
}

/// No edge joins a body to itself, and no pair has two edges.
pub open spec fn simple(edges: Seq<Edge>) -> bool {
    &&& forall|i: int| 0 <= i < edges.len() ==> (#[trigger] edges[i]).a != edges[i].b
    &&& forall|i: int, j: int|
        0 <= i < j < edges.len() ==> !(#[trigger] edges[j]).joins((#[trigger] edges[i]).a, edges[i].b)
}

/// The test that an edge has no endpoint at `key`.
pub open spec fn away_from(key: usize) -> spec_fn(Edge) -> bool {
    |e: Edge| !e.touches(key)
}

/// Joining a pair keeps the edges simple.
pub proof fn lemma_with_edge_simple(edges: Seq<Edge>, a: usize, b: usize)
    requires
        simple(edges),
    ensures
        simple(with_edge(edges, a, b)),
        connected(with_edge(edges, a, b), a, b) || a == b,
{
    let after = with_edge(edges, a, b);
    if a != b && !connected(edges, a, b) {
        let last = edges.len() as int;
        assert(after[last].joins(a, b));
        assert forall|i: int, j: int| 0 <= i < j < after.len() implies !(#[trigger] after[j]).joins(
            (#[trigger] after[i]).a,
            after[i].b,
        ) by {
            if j == last {
                if after[j].joins(after[i].a, after[i].b) {
                    assert(edges[i].joins(a, b));
                }
            } else {
                assert(after[i] == edges[i] && after[j] == edges[j]);
            }
        }
    }
}

/// Dropping edges keeps the rest simple.
pub proof fn lemma_filter_simple(edges: Seq<Edge>, keep: spec_fn(Edge) -> bool)
    requires
        simple(edges),
    ensures
        simple(edges.filter(keep)),
        forall|e: Edge| #[trigger] edges.filter(keep).contains(e) ==> edges.contains(e) && keep(e),
    decreases edges.len(),
{
    reveal(Seq::filter);
    if edges.len() > 0 {
        let front = edges.drop_last();
        let last = edges.last();
        lemma_filter_simple(front, keep);
        let kept = front.filter(keep);
        let all = edges.filter(keep);
        assert forall|e: Edge| #[trigger] all.contains(e) implies edges.contains(e) && keep(e) by {
            let i = choose|i: int| 0 <= i < all.len() && all[i] == e;
            if i < kept.len() {
                assert(kept.contains(all[i]));
                let k = choose|k: int| 0 <= k < front.len() && front[k] == e;
                assert(edges[k] == e);
            } else {
                assert(edges[edges.len() - 1] == e);
            }
        }
        if keep(last) {
            assert forall|i: int, j: int| 0 <= i < j < all.len() implies !(#[trigger] all[j]).joins(
                (#[trigger] all[i]).a,
                all[i].b,
            ) by {
                if j == kept.len() {
                    assert(kept.contains(all[i]));
                    let k = choose|k: int| 0 <= k < front.len() && front[k] == all[i];
                    assert(edges[k] == all[i]);
                } else {
                    assert(kept[i] == all[i] && kept[j] == all[j]);
                }
            }
        }
    }
}

/// The test that an edge has no endpoint among `keys`.
pub open spec fn clear_of(keys: Set<usize>) -> spec_fn(Edge) -> bool {
    |e: Edge| !keys.contains(e.a) && !keys.contains(e.b)
}

/// Filtering twice is filtering by both tests at once.
pub proof fn lemma_filter_twice(
    edges: Seq<Edge>,
    first: spec_fn(Edge) -> bool,
    second: spec_fn(Edge) -> bool,
    both: spec_fn(Edge) -> bool,
)
    requires
        forall|e: Edge| #[trigger] both(e) == (first(e) && second(e)),
    ensures
        edges.filter(first).filter(second) == edges.filter(both),
    decreases edges.len(),
{
    reveal(Seq::filter);
    if edges.len() > 0 {
        let front = edges.drop_last();
        let last = edges.last();
        lemma_filter_twice(front, first, second, both);
        front.lemma_filter_push(last, first);
        front.lemma_filter_push(last, both);
        front.filter(first).lemma_filter_push(last, second);
    }
}

/// The graph of tracked pairs, in the order in which the pairs were found.
pub struct CollisionGraph {
    edges: Vec<Edge>,
}

impl View for CollisionGraph {
    type V = Seq<Edge>;

    closed spec fn view(&self) -> Seq<Edge> {
        self.edges@
    }
}

impl CollisionGraph {
    /// An empty graph with room for the given number of edges.
    pub fn with_capacity(nodes: usize, edges: usize) -> (graph: Self)
        ensures
            graph@ == Seq::<Edge>::empty(),
    {
        let _ = nodes;
        CollisionGraph { edges: Vec::with_capacity(edges) }
    }

    /// The number of tracked pairs.
    pub fn edge_count(&self) -> (n: usize)
        ensures
            n == self@.len(),
    {
        self.edges.len()
    }

    /// The tracked pair at `index`.
    pub fn edge(&self, index: usize) -> (e: Edge)
        requires
            index < self@.len(),
        ensures
            e == self@[index as int],
    {
        self.edges[index]
    }

    /// Tells whether a pair is tracked.
    pub fn is_connected(&self, a: usize, b: usize) -> (r: bool)
        ensures
            r == connected(self@, a, b),
    {
        let mut i: usize = 0;
        while i < self.edges.len()
            invariant
                i <= self.edges.len(),
                forall|j: int| 0 <= j < i ==> !(#[trigger] self@[j]).joins(a, b),
            decreases self.edges.len() - i,
        {
            let e = self.edges[i];
            if (e.a == a && e.b == b) || (e.a == b && e.b == a) {
                assert(self@[i as int].joins(a, b));
                return true;
            }
            i += 1;
        }
        false
    }

    /// Makes sure that the pair is tracked. A pair that was not tracked is
    /// marked fresh; a body is never paired with itself.
    pub fn update_edge(&mut self, a: usize, b: usize)
        ensures
            final(self)@ == with_edge(old(self)@, a, b),
    {
        if a != b && !self.is_connected(a, b) {
            self.edges.push(Edge { a, b, fresh: true });
        }
    }

    /// Forgets every pair that `key` is part of.
    pub fn remove_node(&mut self, key: usize)
        ensures
            final(self)@ == old(self)@.filter(away_from(key)),
    {
        let mut kept: Vec<Edge> = Vec::with_capacity(self.edges.len());
        let mut i: usize = 0;
        while i < self.edges.len()
            invariant
                i <= self.edges.len(),
                kept@ == self@.take(i as int).filter(away_from(key)),
            decreases self.edges.len() - i,
        {
            let e = self.edges[i];
            proof {
                assert(self@.take(i as int + 1) == self@.take(i as int).push(e));
                self@.take(i as int).lemma_filter_push(e, away_from(key));
            }
            if e.a != key && e.b != key {
                kept.push(e);
            }
            i += 1;
        }
        assert(self@.take(i as int) == self@);
        self.edges = kept;
    }

    /// Replaces the tracked pairs.
    pub(crate) fn set_edges(&mut self, edges: Vec<Edge>)
        ensures
            final(self)@ == edges@,
    {
        self.edges = edges;
    }
}

} // verus!
