//! Ghost bookkeeping for the relaxation passes of Howard's algorithm.
//!
//! A ledger records when each vertex was last lowered. It shows that a cycle
//! of the policy graph has negative weight, and that the passes come to an
//! end.

use crate::digraph::{graph_adjacency, is_edge, Digraph, EdgeRef};
use crate::policy::{acyclic, follows_policy, has_cycle, policy_on, ranks_policy};
use crate::potential::{
    closed_walk, edge_feasible, feasible, joined, path_weight, potential_on, returns_at,
    returns_on, weight, weights_of,
};
use crate::rational::{is_number, value_of};
use crate::relaxation::{
    after_passes, ends_with_pass, goes_on, pass_result, policy_slack, relax_lists, relaxed_upto,
    values, Labelling,
};
use num::BigRational;
use vstd::prelude::*;

verus! {

/// Ghost record of when each vertex was last lowered: `stamp` counts single
/// relaxations, `round_of` counts passes.
pub(crate) ghost struct Ledger {
    pub(crate) stamp: Seq<nat>,
    pub(crate) clock: nat,
    pub(crate) round_of: Seq<nat>,
    pub(crate) round: nat,
}

/// What the ledger records of vertex `v`.
pub(crate) open spec fn vertex_tracked<F: Fn(EdgeRef) -> BigRational>(
    pred: Seq<Option<EdgeRef>>,
    dist: Seq<BigRational>,
    f: F,
    book: Ledger,
    v: int,
) -> bool {
    &&& book.stamp[v] <= book.clock
    &&& book.round_of[v] <= book.round
    &&& match pred[v] {
        None => book.round_of[v] == 0,
        Some(e) => {
            &&& value_of(dist[v]) >= value_of(dist[e.source as int]) + weight(f, e)
            &&& book.stamp[e.source as int] >= book.stamp[v] ==> value_of(dist[v]) > value_of(
                dist[e.source as int],
            ) + weight(f, e)
            &&& book.round_of[v] >= 1
            &&& book.round_of[e.source as int] + 1 >= book.round_of[v]
        },
    }
}

/// The ledger agrees with the policy and the potential between two passes.
#[verifier::opaque]
pub(crate) open spec fn tracks<F: Fn(EdgeRef) -> BigRational>(
    g: Digraph,
    pred: Seq<Option<EdgeRef>>,
    dist: Seq<BigRational>,
    f: F,
    book: Ledger,
) -> bool {
    &&& book.stamp.len() == pred.len()
    &&& book.round_of.len() == pred.len()
    &&& forall|v: int| 0 <= v < pred.len() ==> #[trigger] vertex_tracked(pred, dist, f, book, v)
    &&& forall|u: int, i: int|
        #![trigger graph_adjacency(g)[u][i]]
        0 <= u < graph_adjacency(g).len() && 0 <= i < graph_adjacency(g)[u].len() ==> {
            ||| edge_feasible(dist, f, graph_adjacency(g)[u][i])
            ||| book.round_of[u] == book.round
        }
}

/// The ledger agrees with the policy and the potential inside a pass that has
/// scanned the lists before `at` and the first `upto` edges of list `at`.
pub(crate) open spec fn tracks_scan<F: Fn(EdgeRef) -> BigRational>(
    g: Digraph,
    pred: Seq<Option<EdgeRef>>,
    dist: Seq<BigRational>,
    f: F,
    book: Ledger,
    at: int,
    upto: int,
) -> bool {
    &&& book.stamp.len() == pred.len()
    &&& book.round_of.len() == pred.len()
    &&& forall|v: int| 0 <= v < pred.len() ==> #[trigger] vertex_tracked(pred, dist, f, book, v)
    &&& forall|u: int, i: int|
        #![trigger graph_adjacency(g)[u][i]]
        0 <= u < graph_adjacency(g).len() && 0 <= i < graph_adjacency(g)[u].len() ==> {
            ||| edge_feasible(dist, f, graph_adjacency(g)[u][i])
            ||| book.round_of[u] + 1 >= book.round
        }
    &&& forall|u: int, i: int|
        #![trigger graph_adjacency(g)[u][i]]
        0 <= u < graph_adjacency(g).len() && 0 <= i < graph_adjacency(g)[u].len() && (u < at || (u
            == at && i < upto)) ==> {
            ||| edge_feasible(dist, f, graph_adjacency(g)[u][i])
            ||| book.round_of[u] == book.round
        }
}

/// The edges scanned so far, the lists before `at` and the first `upto` edges
/// of list `at`, are not violated.
pub(crate) open spec fn scanned_feasible<F: Fn(EdgeRef) -> BigRational>(
    g: Digraph,
    dist: Seq<BigRational>,
    f: F,
    at: int,
    upto: int,
) -> bool {
    forall|u: int, i: int|
        #![trigger graph_adjacency(g)[u][i]]
        0 <= u < graph_adjacency(g).len() && 0 <= i < graph_adjacency(g)[u].len() && (u < at || (u
            == at && i < upto)) ==> edge_feasible(dist, f, graph_adjacency(g)[u][i])
}

/// On the edges scanned so far the weight function has returned.
pub(crate) open spec fn scanned_returned<F: Fn(EdgeRef) -> BigRational>(
    g: Digraph,
    f: F,
    at: int,
    upto: int,
) -> bool {
    forall|u: int, i: int|
        #![trigger graph_adjacency(g)[u][i]]
        0 <= u < graph_adjacency(g).len() && 0 <= i < graph_adjacency(g)[u].len() && (u < at || (u
            == at && i < upto)) ==> returns_at(f, graph_adjacency(g)[u][i])
}

/// The state of a pass that has scanned the lists before `at` and the first
/// `upto` edges of list `at`: `changed` tells whether a potential was lowered,
/// and then `hit` is a vertex whose potential was.
#[verifier::opaque]
pub(crate) open spec fn scanning<F: Fn(EdgeRef) -> BigRational>(
    g: Digraph,
    pred0: Seq<Option<EdgeRef>>,
    dist0: Seq<BigRational>,
    pred: Seq<Option<EdgeRef>>,
    dist: Seq<BigRational>,
    f: F,
    book: Ledger,
    bk: Ledger,
    changed: bool,
    hit: int,
    at: int,
    upto: int,
) -> bool {
    &&& pass_result(pred0, dist0, pred, dist, f)
    &&& changed ==> 0 <= hit < dist.len() && value_of(dist[hit]) < value_of(dist0[hit])
    &&& !changed ==> dist == dist0 && pred == pred0
    &&& !changed ==> scanned_feasible(g, dist, f, at, upto)
    &&& feasible(g, dist0, f) ==> !changed
    &&& scanned_returned(g, f, at, upto)
    &&& (Labelling { vals: values(dist), pred }) == relaxed_upto(
        Labelling { vals: values(dist0), pred: pred0 },
        weights_of(f),
        graph_adjacency(g),
        at,
        upto,
    )
    &&& bk.round == book.round + 1
    &&& tracks(g, pred0, dist0, f, book) ==> {
        &&& tracks_scan(g, pred, dist, f, bk, at, upto)
        &&& changed ==> bk.round_of[hit] == bk.round
    }
}

/// A pass starts with nothing scanned and nothing changed.
pub(crate) proof fn lemma_scan_start<F: Fn(EdgeRef) -> BigRational>(
    g: Digraph,
    pred0: Seq<Option<EdgeRef>>,
    dist0: Seq<BigRational>,
    f: F,
    book: Ledger,
)
    requires
        policy_on(pred0, g),
        potential_on(dist0, g),
    ensures
        scanning(
            g,
            pred0,
            dist0,
            pred0,
            dist0,
            f,
            book,
            Ledger { round: book.round + 1, ..book },
            false,
            0,
            0,
            0,
        ),
{
    reveal(scanning);
    reveal(tracks);
    crate::relaxation::lemma_relaxed_none(
        Labelling { vals: values(dist0), pred: pred0 },
        weights_of(f),
        graph_adjacency(g),
    );
    let bk = Ledger { round: book.round + 1, ..book };
    if tracks(g, pred0, dist0, f, book) {
        assert forall|v: int| 0 <= v < pred0.len() implies #[trigger] vertex_tracked(
            pred0,
            dist0,
            f,
            bk,
            v,
        ) by {
            assert(vertex_tracked(pred0, dist0, f, book, v));
        }
    }
}

/// An edge that is not violated is passed over.
pub(crate) proof fn lemma_scan_skip<F: Fn(EdgeRef) -> BigRational>(
    g: Digraph,
    pred0: Seq<Option<EdgeRef>>,
    dist0: Seq<BigRational>,
    pred: Seq<Option<EdgeRef>>,
    dist: Seq<BigRational>,
    f: F,
    book: Ledger,
    bk: Ledger,
    changed: bool,
    hit: int,
    u: int,
    i: int,
)
    requires
        scanning(g, pred0, dist0, pred, dist, f, book, bk, changed, hit, u, i),
        0 <= u < graph_adjacency(g).len(),
        0 <= i < graph_adjacency(g)[u].len(),
        edge_feasible(dist, f, graph_adjacency(g)[u][i]),
        returns_at(f, graph_adjacency(g)[u][i]),
        graph_adjacency(g)[u][i].source < dist.len(),
        graph_adjacency(g)[u][i].target < dist.len(),
    ensures
        scanning(g, pred0, dist0, pred, dist, f, book, bk, changed, hit, u, i + 1),
{
    reveal(scanning);
    crate::relaxation::lemma_relaxed_step(
        Labelling { vals: values(dist0), pred: pred0 },
        weights_of(f),
        graph_adjacency(g),
        u,
        i,
    );
}

/// A violated edge is relaxed: the potential of its target becomes that of
/// its source plus its weight, and it becomes the policy edge of its target.
pub(crate) proof fn lemma_scan_relax<F: Fn(EdgeRef) -> BigRational>(
    g: Digraph,
    pred0: Seq<Option<EdgeRef>>,
    dist0: Seq<BigRational>,
    pred1: Seq<Option<EdgeRef>>,
    dist1: Seq<BigRational>,
    pred2: Seq<Option<EdgeRef>>,
    dist2: Seq<BigRational>,
    f: F,
    book: Ledger,
    bk1: Ledger,
    bk2: Ledger,
    changed: bool,
    hit: int,
    u: int,
    i: int,
)
    requires
        policy_on(pred1, g),
        potential_on(dist1, g),
        scanning(g, pred0, dist0, pred1, dist1, f, book, bk1, changed, hit, u, i),
        0 <= u < graph_adjacency(g).len(),
        0 <= i < graph_adjacency(g)[u].len(),
        dist2.len() == dist1.len(),
        returns_at(f, graph_adjacency(g)[u][i]),
        ({
            let e = graph_adjacency(g)[u][i];
            &&& is_number(dist2[e.target as int])
            &&& value_of(dist2[e.target as int]) == value_of(dist1[e.source as int]) + weight(f, e)
            &&& value_of(dist2[e.target as int]) < value_of(dist1[e.target as int])
            &&& forall|v: int| 0 <= v < dist1.len() && v != e.target ==> dist2[v] == dist1[v]
            &&& pred2 == pred1.update(e.target as int, Some(e))
            &&& bk2 == (Ledger {
                stamp: bk1.stamp.update(e.target as int, bk1.clock + 1),
                clock: bk1.clock + 1,
                round_of: bk1.round_of.update(e.target as int, bk1.round),
                round: bk1.round,
            })
        }),
    ensures
        policy_on(pred2, g),
        potential_on(dist2, g),
        scanning(
            g,
            pred0,
            dist0,
            pred2,
            dist2,
            f,
            book,
            bk2,
            true,
            graph_adjacency(g)[u][i].target as int,
            u,
            i + 1,
        ),
{
    reveal(scanning);
    let e = graph_adjacency(g)[u][i];
    assert(graph_adjacency(g)[u].contains(e));
    assert(e.source == u);
    crate::digraph::lemma_edge_ends(g, e);
    lemma_relaxed(g, pred0, dist0, pred1, dist1, pred2, dist2, f, e);
    assert(value_of(dist1[e.target as int]) <= value_of(dist0[e.target as int]));
    if feasible(g, dist0, f) && !changed {
        assert(is_edge(g, e));
        assert(weights_of(f)(e) == weight(f, e));
    }
    crate::relaxation::lemma_relaxed_step(
        Labelling { vals: values(dist0), pred: pred0 },
        weights_of(f),
        graph_adjacency(g),
        u,
        i,
    );
    assert(values(dist2) =~= values(dist1).update(
        e.target as int,
        value_of(dist1[e.source as int]) + weight(f, e),
    ));
    if tracks(g, pred0, dist0, f, book) {
        lemma_relaxed_tracked(g, pred1, dist1, pred2, dist2, f, bk1, bk2, e, u, i);
    }
}

/// After the last edge of a list the next list begins.
pub(crate) proof fn lemma_scan_next<F: Fn(EdgeRef) -> BigRational>(
    g: Digraph,
    pred0: Seq<Option<EdgeRef>>,
    dist0: Seq<BigRational>,
    pred: Seq<Option<EdgeRef>>,
    dist: Seq<BigRational>,
    f: F,
    book: Ledger,
    bk: Ledger,
    changed: bool,
    hit: int,
    u: int,
)
    requires
        0 <= u < graph_adjacency(g).len(),
        scanning(
            g,
            pred0,
            dist0,
            pred,
            dist,
            f,
            book,
            bk,
            changed,
            hit,
            u,
            graph_adjacency(g)[u].len() as int,
        ),
    ensures
        scanning(g, pred0, dist0, pred, dist, f, book, bk, changed, hit, u + 1, 0),
{
    reveal(scanning);
    crate::relaxation::lemma_relaxed_next(
        Labelling { vals: values(dist0), pred: pred0 },
        weights_of(f),
        graph_adjacency(g),
        u,
    );
}

/// What a pass has done when every list is scanned.
pub(crate) proof fn lemma_scan_end<F: Fn(EdgeRef) -> BigRational>(
    g: Digraph,
    pred0: Seq<Option<EdgeRef>>,
    dist0: Seq<BigRational>,
    pred: Seq<Option<EdgeRef>>,
    dist: Seq<BigRational>,
    f: F,
    book: Ledger,
    bk: Ledger,
    changed: bool,
    hit: int,
)
    requires
        policy_on(pred, g),
        potential_on(dist, g),
        scanning(
            g,
            pred0,
            dist0,
            pred,
            dist,
            f,
            book,
            bk,
            changed,
            hit,
            graph_adjacency(g).len() as int,
            0,
        ),
    ensures
        pass_result(pred0, dist0, pred, dist, f),
        changed <==> exists|v: int|
            0 <= v < dist.len() && value_of(#[trigger] dist[v]) < value_of(dist0[v]),
        changed <==> !feasible(g, dist0, f),
        !changed ==> dist == dist0 && pred == pred0,
        returns_on(f, g),
        (Labelling { vals: values(dist), pred }) == relax_lists(
            Labelling { vals: values(dist0), pred: pred0 },
            weights_of(f),
            graph_adjacency(g),
        ),
        tracks(g, pred0, dist0, f, book) ==> {
            &&& tracks(g, pred, dist, f, bk)
            &&& bk.round == book.round + 1
            &&& changed ==> exists|v: int|
                0 <= v < dist.len() && #[trigger] bk.round_of[v] == bk.round
        },
{
    reveal(scanning);
    reveal(tracks);
    let adj = graph_adjacency(g);
    if adj.len() > 0 {
        crate::relaxation::lemma_relaxed_next(
            Labelling { vals: values(dist0), pred: pred0 },
            weights_of(f),
            adj,
            adj.len() - 1,
        );
    } else {
        crate::relaxation::lemma_relaxed_none(
            Labelling { vals: values(dist0), pred: pred0 },
            weights_of(f),
            adj,
        );
    }
    assert forall|e: EdgeRef| #[trigger] is_edge(g, e) implies returns_at(f, e) by {
        let k = choose|k: int| 0 <= k < adj[e.source as int].len() && adj[e.source as int][k] == e;
        assert(returns_at(f, adj[e.source as int][k]));
    }
    if !changed {
        assert forall|e: EdgeRef| #[trigger] is_edge(g, e) implies value_of(
            dist[e.target as int],
        ) <= value_of(dist[e.source as int]) + weights_of(f)(e) by {
            let k = choose|k: int|
                0 <= k < adj[e.source as int].len() && adj[e.source as int][k] == e;
            assert(edge_feasible(dist, f, adj[e.source as int][k]));
        }
    } else {
        assert(value_of(dist[hit]) < value_of(dist0[hit]));
        if tracks(g, pred0, dist0, f, book) {
            assert(bk.round_of[hit] == bk.round);
        }
    }
}

/// Relaxing edge `e` keeps what a pass promises of the state before it.
pub(crate) proof fn lemma_relaxed<F: Fn(EdgeRef) -> BigRational>(
    g: Digraph,
    pred0: Seq<Option<EdgeRef>>,
    dist0: Seq<BigRational>,
    pred1: Seq<Option<EdgeRef>>,
    dist1: Seq<BigRational>,
    pred2: Seq<Option<EdgeRef>>,
    dist2: Seq<BigRational>,
    f: F,
    e: EdgeRef,
)
    requires
        policy_on(pred1, g),
        potential_on(dist1, g),
        is_edge(g, e),
        pass_result(pred0, dist0, pred1, dist1, f),
        dist2.len() == dist1.len(),
        is_number(dist2[e.target as int]),
        value_of(dist2[e.target as int]) == value_of(dist1[e.source as int]) + weight(f, e),
        value_of(dist2[e.target as int]) < value_of(dist1[e.target as int]),
        forall|v: int| 0 <= v < dist1.len() && v != e.target ==> dist2[v] == dist1[v],
        pred2 == pred1.update(e.target as int, Some(e)),
    ensures
        policy_on(pred2, g),
        potential_on(dist2, g),
        pass_result(pred0, dist0, pred2, dist2, f),
{
    crate::digraph::lemma_edge_ends(g, e);
    assert forall|v: int| 0 <= v < dist2.len() implies is_number(#[trigger] dist2[v]) by {
        if v != e.target {
            assert(is_number(dist1[v]));
        }
    }
    assert forall|v: int| 0 <= v < dist2.len() && v < pred2.len() implies if value_of(
        #[trigger] dist2[v],
    ) < value_of(dist0[v]) {
        pred2[v] is Some && policy_slack(pred2, dist2, f, v)
    } else {
        pred2[v] == pred0[v] && dist2[v] == dist0[v]
    } by {
        assert(value_of(dist1[v]) <= value_of(dist0[v]));
        assert(value_of(dist1[e.target as int]) <= value_of(dist0[e.target as int]));
        if v == e.target {
        } else {
            if value_of(dist1[v]) < value_of(dist0[v]) {
                assert(policy_slack(pred1, dist1, f, v));
            }
        }
    }
    assert forall|v: int| 0 <= v < dist2.len() implies value_of(#[trigger] dist2[v]) <= value_of(
        dist0[v],
    ) by {
        assert(value_of(dist1[v]) <= value_of(dist0[v]));
    }
}

/// Relaxing edge `e`, the `i`-th of list `u`, keeps the ledger in step.
pub(crate) proof fn lemma_relaxed_tracked<F: Fn(EdgeRef) -> BigRational>(
    g: Digraph,
    pred1: Seq<Option<EdgeRef>>,
    dist1: Seq<BigRational>,
    pred2: Seq<Option<EdgeRef>>,
    dist2: Seq<BigRational>,
    f: F,
    bk1: Ledger,
    bk2: Ledger,
    e: EdgeRef,
    u: int,
    i: int,
)
    requires
        policy_on(pred1, g),
        potential_on(dist1, g),
        0 <= u < graph_adjacency(g).len(),
        0 <= i < graph_adjacency(g)[u].len(),
        e == graph_adjacency(g)[u][i],
        tracks_scan(g, pred1, dist1, f, bk1, u, i),
        bk1.round >= 1,
        dist2.len() == dist1.len(),
        is_number(dist2[e.target as int]),
        value_of(dist2[e.target as int]) == value_of(dist1[e.source as int]) + weight(f, e),
        value_of(dist2[e.target as int]) < value_of(dist1[e.target as int]),
        forall|v: int| 0 <= v < dist1.len() && v != e.target ==> dist2[v] == dist1[v],
        pred2 == pred1.update(e.target as int, Some(e)),
        bk2 == (Ledger {
            stamp: bk1.stamp.update(e.target as int, bk1.clock + 1),
            clock: bk1.clock + 1,
            round_of: bk1.round_of.update(e.target as int, bk1.round),
            round: bk1.round,
        }),
    ensures
        tracks_scan(g, pred2, dist2, f, bk2, u, i),
        edge_feasible(dist2, f, e) || bk2.round_of[u] == bk2.round,
{
    let adj = graph_adjacency(g);
    let t = e.target as int;
    assert(e.source == u && e.target < adj.len());
    assert(!edge_feasible(dist1, f, adj[u][i]));
    assert(bk1.round_of[u] + 1 >= bk1.round);
    assert(vertex_tracked(pred1, dist1, f, bk1, t));
    assert(vertex_tracked(pred1, dist1, f, bk1, u));
    assert forall|v: int| 0 <= v < pred2.len() implies #[trigger] vertex_tracked(
        pred2,
        dist2,
        f,
        bk2,
        v,
    ) by {
        assert(vertex_tracked(pred1, dist1, f, bk1, v));
        if v == t {
        } else {
            match pred1[v] {
                None => {},
                Some(p) => {
                    assert(vertex_tracked(pred1, dist1, f, bk1, p.source as int));
                },
            }
        }
    }
    assert forall|a: int, b: int|
        #![trigger adj[a][b]]
        0 <= a < adj.len() && 0 <= b < adj[a].len() implies (edge_feasible(dist2, f, adj[a][b])
        || bk2.round_of[a] + 1 >= bk2.round) && ((a < u || (a == u && b < i)) ==> (edge_feasible(
        dist2,
        f,
        adj[a][b],
    ) || bk2.round_of[a] == bk2.round)) by {
        let x = adj[a][b];
        assert(x.source == a && x.target < adj.len());
        assert(vertex_tracked(pred1, dist1, f, bk1, a));
        if a == t {
        } else {
            if x.target == t {
            } else {
            }
        }
    }
}

/// Between passes no vertex was last lowered in a later pass than its rank
/// in an acyclic policy graph allows.
pub(crate) proof fn lemma_round_below_rank<F: Fn(EdgeRef) -> BigRational>(
    pred: Seq<Option<EdgeRef>>,
    dist: Seq<BigRational>,
    f: F,
    book: Ledger,
    rank: Seq<nat>,
    v: int,
)
    requires
        forall|x: int| 0 <= x < pred.len() ==> #[trigger] vertex_tracked(pred, dist, f, book, x),
        ranks_policy(pred, rank),
        0 <= v < pred.len(),
    ensures
        book.round_of[v] <= rank[v],
        book.round_of[v] < pred.len(),
    decreases rank[v],
{
    assert(vertex_tracked(pred, dist, f, book, v));
    assert(rank[v] < pred.len());
    match pred[v] {
        None => {},
        Some(e) => {
            lemma_round_below_rank(pred, dist, f, book, rank, e.source as int);
        },
    }
}

/// A pass that lowered a potential and left the policy graph without a cycle
/// was not the last that the number of vertices allows.
pub(crate) proof fn lemma_round_bound<F: Fn(EdgeRef) -> BigRational>(
    g: Digraph,
    pred: Seq<Option<EdgeRef>>,
    dist: Seq<BigRational>,
    f: F,
    book: Ledger,
)
    requires
        tracks(g, pred, dist, f, book),
        acyclic(pred),
        dist.len() == pred.len(),
        exists|v: int| 0 <= v < dist.len() && #[trigger] book.round_of[v] == book.round,
    ensures
        book.round < pred.len(),
{
    reveal(tracks);
    let rank = choose|rank: Seq<nat>| ranks_policy(pred, rank);
    let x = choose|x: int| 0 <= x < dist.len() && #[trigger] book.round_of[x] == book.round;
    lemma_round_below_rank(pred, dist, f, book, rank, x);
}

/// Before the first pass, with an empty policy, a ledger of zeros is in step.
pub(crate) proof fn lemma_tracks_fresh<F: Fn(EdgeRef) -> BigRational>(
    g: Digraph,
    pred: Seq<Option<EdgeRef>>,
    dist: Seq<BigRational>,
    f: F,
    book: Ledger,
)
    requires
        forall|x: int| 0 <= x < pred.len() ==> pred[x] is None,
        book == (Ledger {
            stamp: Seq::new(pred.len(), |x: int| 0nat),
            clock: 0,
            round_of: Seq::new(pred.len(), |x: int| 0nat),
            round: 0,
        }),
        pred.len() == graph_adjacency(g).len(),
    ensures
        tracks(g, pred, dist, f, book),
{
    reveal(tracks);
    assert forall|x: int| 0 <= x < pred.len() implies #[trigger] vertex_tracked(
        pred,
        dist,
        f,
        book,
        x,
    ) by {}
}

/// Along a closed walk of policy edges the potential pays for the weight,
/// and somewhere strictly: the first `m` edges weigh at most the rise in
/// potential along them, and less unless the stamps rise all the way.
pub(crate) proof fn lemma_policy_prefix<F: Fn(EdgeRef) -> BigRational>(
    pred: Seq<Option<EdgeRef>>,
    dist: Seq<BigRational>,
    f: F,
    book: Ledger,
    path: Seq<EdgeRef>,
    m: int,
)
    requires
        forall|x: int| 0 <= x < pred.len() ==> #[trigger] vertex_tracked(pred, dist, f, book, x),
        closed_walk(path),
        follows_policy(pred, path),
        1 <= m <= path.len(),
    ensures
        value_of(dist[path[m - 1].target as int]) >= value_of(dist[path[0].source as int])
            + path_weight(f, path.take(m)),
        value_of(dist[path[m - 1].target as int]) > value_of(dist[path[0].source as int])
            + path_weight(f, path.take(m)) || book.stamp[path[0].source as int]
            < book.stamp[path[m - 1].target as int],
    decreases m,
{
    crate::potential::lemma_total_take(weights_of(f), path, m - 1);
    let e = path[m - 1];
    assert(pred[e.target as int] == Some(e));
    assert(vertex_tracked(pred, dist, f, book, e.target as int));
    if m > 1 {
        lemma_policy_prefix(pred, dist, f, book, path, m - 1);
        assert(joined(path, m - 2));
    }
}

/// A closed walk along policy edges has negative weight.
pub(crate) proof fn lemma_policy_cycle_negative<F: Fn(EdgeRef) -> BigRational>(
    g: Digraph,
    pred: Seq<Option<EdgeRef>>,
    dist: Seq<BigRational>,
    f: F,
    book: Ledger,
    path: Seq<EdgeRef>,
)
    requires
        tracks(g, pred, dist, f, book),
        closed_walk(path),
        follows_policy(pred, path),
    ensures
        path_weight(f, path) < 0real,
{
    reveal(tracks);
    lemma_policy_prefix(pred, dist, f, book, path, path.len() as int);
    crate::potential::lemma_total_take(weights_of(f), path, 0);
}

/// The course of Howard's algorithm so far: `k` passes have made `cur` of
/// `s`, and each has changed something and left the policy graph acyclic.
#[verifier::opaque]
pub(crate) open spec fn course(
    s: Labelling,
    w: spec_fn(EdgeRef) -> real,
    adj: Seq<Seq<EdgeRef>>,
    k: nat,
    cur: Labelling,
) -> bool {
    &&& cur == after_passes(s, w, adj, k)
    &&& forall|j: nat| 1 <= j <= k ==> #[trigger] goes_on(s, w, adj, j)
}

/// A pass that changes something and leaves the policy graph acyclic is not
/// the last.
pub(crate) proof fn lemma_course_goes_on(
    s: Labelling,
    w: spec_fn(EdgeRef) -> real,
    adj: Seq<Seq<EdgeRef>>,
    k: nat,
    cur: Labelling,
    next: Labelling,
)
    requires
        course(s, w, adj, k, cur),
        next == relax_lists(cur, w, adj),
        next != cur,
        !has_cycle(next.pred),
    ensures
        course(s, w, adj, k + 1, next),
{
    reveal(course);
    assert(after_passes(s, w, adj, k + 1) == relax_lists(after_passes(s, w, adj, k), w, adj));
}

/// A pass that changes nothing, or leaves a cycle in the policy graph, is the
/// last.
pub(crate) proof fn lemma_course_ends(
    s: Labelling,
    w: spec_fn(EdgeRef) -> real,
    adj: Seq<Seq<EdgeRef>>,
    k: nat,
    cur: Labelling,
    next: Labelling,
)
    requires
        course(s, w, adj, k, cur),
        next == relax_lists(cur, w, adj),
        next == cur || has_cycle(next.pred),
    ensures
        ends_with_pass(s, w, adj, k + 1, next == cur),
        next == after_passes(s, w, adj, k + 1),
{
    reveal(course);
    assert(after_passes(s, w, adj, k + 1) == relax_lists(after_passes(s, w, adj, k), w, adj));
}

/// Where a potential was lowered, the numbers are no longer the same.
pub(crate) proof fn lemma_lowered_differs(after: Seq<BigRational>, before: Seq<BigRational>)
    requires
        exists|v: int| 0 <= v < after.len() && value_of(#[trigger] after[v]) < value_of(before[v]),
        after.len() == before.len(),
    ensures
        values(after) != values(before),
{
    let v = choose|v: int| 0 <= v < after.len() && value_of(#[trigger] after[v]) < value_of(before[v]);
    assert(values(after)[v] != values(before)[v]);
}

} // verus!
