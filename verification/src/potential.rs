//! Potentials and weights on a graph.
//!
//! A weight function gives each edge a number. A potential gives each vertex a
//! number; it is feasible where no edge leads to a vertex whose number is above
//! that of the edge's source plus the edge's weight. Everything here is
//! specification and proof.

use crate::digraph::{graph_adjacency, is_edge, Digraph, EdgeRef};
use crate::rational::{all_numbers, is_number, value_of};
use num::BigRational;
use vstd::prelude::*;

verus! {

/// The weight that `f` gives to `e`.
pub open spec fn weight<F: Fn(EdgeRef) -> BigRational>(f: F, e: EdgeRef) -> real {
    value_of(choose|r: BigRational| call_ensures(f, (e,), r))
}

/// The weights that `f` gives, as a function of the edge.
pub open spec fn weights_of<F: Fn(EdgeRef) -> BigRational>(f: F) -> spec_fn(EdgeRef) -> real {
    |e: EdgeRef| weight(f, e)
}

/// `f` is a weight function on `g`: it may be called on every edge of `g`,
/// and what it returns for an edge is a number that depends on the edge alone.
pub open spec fn weight_fn_on<F: Fn(EdgeRef) -> BigRational>(f: F, g: Digraph) -> bool {
    &&& forall|e: EdgeRef| #[trigger] is_edge(g, e) ==> call_requires(f, (e,))
    &&& forall|e: EdgeRef, r: BigRational|
        is_edge(g, e) && #[trigger] call_ensures(f, (e,), r) ==> is_number(r) && value_of(r)
            == weight(f, e)
}

/// `f` has returned on `e`: the edge has a weight that `f` gave it.
pub open spec fn returns_at<F: Fn(EdgeRef) -> BigRational>(f: F, e: EdgeRef) -> bool {
    exists|r: BigRational| call_ensures(f, (e,), r)
}

/// `f` has returned on every edge of `g`.
pub open spec fn returns_on<F: Fn(EdgeRef) -> BigRational>(f: F, g: Digraph) -> bool {
    forall|e: EdgeRef| #[trigger] is_edge(g, e) ==> returns_at(f, e)
}

/// `dist` is a potential on `g`: one number for each vertex.
pub open spec fn potential_on(dist: Seq<BigRational>, g: Digraph) -> bool {
    &&& dist.len() == graph_adjacency(g).len()
    &&& all_numbers(dist)
}

/// No entry of `after` is above the same entry of `before`.
pub open spec fn pointwise_le(after: Seq<BigRational>, before: Seq<BigRational>) -> bool {
    &&& after.len() == before.len()
    &&& forall|v: int|
        0 <= v < after.len() ==> value_of(#[trigger] after[v]) <= value_of(before[v])
}

/// The potential does not violate `e`: `dist[target] <= dist[source] + w(e)`.
pub open spec fn edge_feasible<F: Fn(EdgeRef) -> BigRational>(
    dist: Seq<BigRational>,
    f: F,
    e: EdgeRef,
) -> bool {
    value_of(dist[e.target as int]) <= value_of(dist[e.source as int]) + weight(f, e)
}

/// The potential respects the weights `w`: for every edge `e` of the graph,
/// `dist[target] <= dist[source] + w(e)`.
pub open spec fn respects(g: Digraph, dist: Seq<BigRational>, w: spec_fn(EdgeRef) -> real) -> bool {
    forall|e: EdgeRef| #[trigger]
        is_edge(g, e) ==> value_of(dist[e.target as int]) <= value_of(dist[e.source as int]) + w(
            e,
        )
}

/// The potential is feasible for the weights that `f` gives: it violates no
/// edge of the graph.
pub open spec fn feasible<F: Fn(EdgeRef) -> BigRational>(
    g: Digraph,
    dist: Seq<BigRational>,
    f: F,
) -> bool {
    respects(g, dist, weights_of(f))
}

/// The sum of the weights `w` of the edges of `path`.
pub open spec fn total(w: spec_fn(EdgeRef) -> real, path: Seq<EdgeRef>) -> real
    decreases path.len(),
{
    if path.len() == 0 {
        0real
    } else {
        total(w, path.drop_last()) + w(path.last())
    }
}

/// The sum of the weights that `f` gives to the edges of `path`.
pub open spec fn path_weight<F: Fn(EdgeRef) -> BigRational>(f: F, path: Seq<EdgeRef>) -> real {
    total(weights_of(f), path)
}

/// Edge `j` of `path` ends where the next edge starts.
pub open spec fn joined(path: Seq<EdgeRef>, j: int) -> bool {
    path[j].target == path[j + 1].source
}

/// `path` is a closed walk: each edge starts where the one before it ends, and
/// the first starts where the last ends.
pub open spec fn closed_walk(path: Seq<EdgeRef>) -> bool {
    &&& path.len() > 0
    &&& forall|j: int| 0 <= j < path.len() - 1 ==> #[trigger] joined(path, j)
    &&& path.last().target == path[0].source
}

/// `path` is a closed walk in `g`.
pub open spec fn closed_walk_in(g: Digraph, path: Seq<EdgeRef>) -> bool {
    &&& closed_walk(path)
    &&& forall|j: int| 0 <= j < path.len() ==> is_edge(g, #[trigger] path[j])
}

/// The graph has a closed walk whose weight under `w` is negative.
pub open spec fn negative_cycle_under(g: Digraph, w: spec_fn(EdgeRef) -> real) -> bool {
    exists|path: Seq<EdgeRef>| #[trigger] closed_walk_in(g, path) && total(w, path) < 0real
}

/// The graph has a closed walk to which `f` gives negative weight.
pub open spec fn has_negative_cycle<F: Fn(EdgeRef) -> BigRational>(g: Digraph, f: F) -> bool {
    negative_cycle_under(g, weights_of(f))
}

/// Being nowhere above is transitive.
pub proof fn lemma_pointwise_le_trans(
    a: Seq<BigRational>,
    b: Seq<BigRational>,
    c: Seq<BigRational>,
)
    requires
        pointwise_le(a, b),
        pointwise_le(b, c),
    ensures
        pointwise_le(a, c),
{
    assert forall|x: int| 0 <= x < a.len() implies value_of(#[trigger] a[x]) <= value_of(c[x]) by {
        assert(value_of(a[x]) <= value_of(b[x]));
        assert(value_of(b[x]) <= value_of(c[x]));
    }
}

/// The weight of a path that grows by one edge grows by that edge's weight.
pub proof fn lemma_total_take(w: spec_fn(EdgeRef) -> real, path: Seq<EdgeRef>, m: int)
    requires
        0 <= m < path.len(),
    ensures
        total(w, path.take(m + 1)) == total(w, path.take(m)) + w(path[m]),
        total(w, path.take(0)) == 0real,
        total(w, path.take(path.len() as int)) == total(w, path),
{
    assert(path.take(m + 1).drop_last() =~= path.take(m));
    assert(path.take(m + 1).last() == path[m]);
    assert(path.take(0).len() == 0);
    assert(path.take(path.len() as int) =~= path);
}

/// Weights that are nowhere below other weights sum to no less.
pub proof fn lemma_total_monotone(
    low: spec_fn(EdgeRef) -> real,
    high: spec_fn(EdgeRef) -> real,
    path: Seq<EdgeRef>,
)
    requires
        forall|j: int| 0 <= j < path.len() ==> low(#[trigger] path[j]) <= high(path[j]),
    ensures
        total(low, path) <= total(high, path),
    decreases path.len(),
{
    if path.len() > 0 {
        assert forall|j: int| 0 <= j < path.drop_last().len() implies low(
            #[trigger] path.drop_last()[j],
        ) <= high(path.drop_last()[j]) by {
            assert(path.drop_last()[j] == path[j]);
        }
        lemma_total_monotone(low, high, path.drop_last());
        assert(low(path[path.len() - 1]) <= high(path[path.len() - 1]));
    }
}

/// Weights that agree on the edges of a path sum to the same.
pub proof fn lemma_total_agree(
    a: spec_fn(EdgeRef) -> real,
    b: spec_fn(EdgeRef) -> real,
    path: Seq<EdgeRef>,
)
    requires
        forall|j: int| 0 <= j < path.len() ==> a(#[trigger] path[j]) == b(path[j]),
    ensures
        total(a, path) == total(b, path),
{
    lemma_total_monotone(a, b, path);
    lemma_total_monotone(b, a, path);
}

/// Along a closed walk in the graph a potential that respects the weights
/// pays for itself: the first `m` edges weigh at least the rise in potential
/// along them.
pub proof fn lemma_respects_prefix(
    g: Digraph,
    dist: Seq<BigRational>,
    w: spec_fn(EdgeRef) -> real,
    path: Seq<EdgeRef>,
    m: int,
)
    requires
        respects(g, dist, w),
        closed_walk_in(g, path),
        1 <= m <= path.len(),
    ensures
        value_of(dist[path[m - 1].target as int]) <= value_of(dist[path[0].source as int]) + total(
            w,
            path.take(m),
        ),
    decreases m,
{
    lemma_total_take(w, path, m - 1);
    assert(is_edge(g, path[m - 1]));
    if m > 1 {
        lemma_respects_prefix(g, dist, w, path, m - 1);
        assert(joined(path, m - 2));
    }
}

/// Where a potential respects the weights, no closed walk of the graph has
/// negative weight.
pub proof fn lemma_respects_no_negative_walk(
    g: Digraph,
    dist: Seq<BigRational>,
    w: spec_fn(EdgeRef) -> real,
    path: Seq<EdgeRef>,
)
    requires
        respects(g, dist, w),
        closed_walk_in(g, path),
    ensures
        total(w, path) >= 0real,
{
    lemma_respects_prefix(g, dist, w, path, path.len() as int);
    lemma_total_take(w, path, 0);
}

/// Where a potential respects the weights, the graph has no closed walk of
/// negative weight.
pub proof fn lemma_respects_none(g: Digraph, dist: Seq<BigRational>, w: spec_fn(EdgeRef) -> real)
    requires
        respects(g, dist, w),
    ensures
        !negative_cycle_under(g, w),
{
    assert forall|path: Seq<EdgeRef>| #[trigger] closed_walk_in(g, path) implies !(total(w, path)
        < 0real) by {
        lemma_respects_no_negative_walk(g, dist, w, path);
    }
}

/// With a feasible potential the graph has no closed walk of negative weight.
pub proof fn lemma_feasible_no_negative_cycle<F: Fn(EdgeRef) -> BigRational>(
    g: Digraph,
    dist: Seq<BigRational>,
    f: F,
)
    requires
        feasible(g, dist, f),
    ensures
        !has_negative_cycle(g, f),
{
    assert forall|path: Seq<EdgeRef>| #[trigger] closed_walk_in(g, path) implies !(total(
        weights_of(f),
        path,
    ) < 0real) by {
        lemma_respects_no_negative_walk(g, dist, weights_of(f), path);
    }
}

} // verus!
