//! What relaxation passes do, as functions on the numbers at the vertices
//! and the policy. Everything here is specification and proof.

use crate::digraph::EdgeRef;
use crate::policy::{
    first_cycle_entry, has_cycle, lemma_first_cycle_entry_unique, lemma_traces_unique, traces,
    traces_first_cycle,
};
use crate::potential::{pointwise_le, weight};
use crate::rational::value_of;
use num::BigRational;
use vstd::prelude::*;

verus! {

/// What a relaxation pass works on: the number at each vertex, and the
/// policy.
pub ghost struct Labelling {
    pub vals: Seq<real>,
    pub pred: Seq<Option<EdgeRef>>,
}

/// The numbers that the entries of `dist` stand for.
pub open spec fn values(dist: Seq<BigRational>) -> Seq<real> {
    Seq::new(dist.len(), |v: int| value_of(dist[v]))
}

/// The policy that is set nowhere.
pub open spec fn empty_policy(n: nat) -> Seq<Option<EdgeRef>> {
    Seq::new(n, |v: int| None)
}

/// Relaxing one edge: where the number at the target is above the number at
/// the source plus the edge's weight, it is lowered to that, and the edge
/// becomes the policy edge of its target.
pub open spec fn relax_edge(s: Labelling, w: spec_fn(EdgeRef) -> real, e: EdgeRef) -> Labelling {
    if s.vals[e.target as int] > s.vals[e.source as int] + w(e) {
        Labelling {
            vals: s.vals.update(e.target as int, s.vals[e.source as int] + w(e)),
            pred: s.pred.update(e.target as int, Some(e)),
        }
    } else {
        s
    }
}

/// Relaxing the edges of `list` one after the other.
pub open spec fn relax_list(s: Labelling, w: spec_fn(EdgeRef) -> real, list: Seq<EdgeRef>) -> Labelling
    decreases list.len(),
{
    if list.len() == 0 {
        s
    } else {
        relax_edge(relax_list(s, w, list.drop_last()), w, list.last())
    }
}

/// Relaxing the edges of each list of `adj`, list after list.
pub open spec fn relax_lists(
    s: Labelling,
    w: spec_fn(EdgeRef) -> real,
    adj: Seq<Seq<EdgeRef>>,
) -> Labelling
    decreases adj.len(),
{
    if adj.len() == 0 {
        s
    } else {
        relax_list(relax_lists(s, w, adj.drop_last()), w, adj.last())
    }
}

/// What `k` passes make of `s`.
pub open spec fn after_passes(
    s: Labelling,
    w: spec_fn(EdgeRef) -> real,
    adj: Seq<Seq<EdgeRef>>,
    k: nat,
) -> Labelling
    decreases k,
{
    if k == 0 {
        s
    } else {
        relax_lists(after_passes(s, w, adj, (k - 1) as nat), w, adj)
    }
}

/// Pass `j` changes something and leaves the policy graph without a cycle,
/// so that Howard's algorithm goes on after it.
pub open spec fn goes_on(
    s: Labelling,
    w: spec_fn(EdgeRef) -> real,
    adj: Seq<Seq<EdgeRef>>,
    j: nat,
) -> bool {
    &&& after_passes(s, w, adj, j) != after_passes(s, w, adj, (j - 1) as nat)
    &&& !has_cycle(after_passes(s, w, adj, j).pred)
}

/// The course of Howard's algorithm from `s`: it ends with pass `k`, which is
/// the first pass that changes nothing or leaves a cycle in the policy graph.
/// `quiet` tells that pass `k` changed nothing.
pub open spec fn ends_with_pass(
    s: Labelling,
    w: spec_fn(EdgeRef) -> real,
    adj: Seq<Seq<EdgeRef>>,
    k: nat,
    quiet: bool,
) -> bool {
    &&& k >= 1
    &&& forall|j: nat| 1 <= j < k ==> #[trigger] goes_on(s, w, adj, j)
    &&& quiet <==> after_passes(s, w, adj, k) == after_passes(s, w, adj, (k - 1) as nat)
    &&& !quiet ==> has_cycle(after_passes(s, w, adj, k).pred)
}

/// Howard's algorithm ends with one pass only: the first pass that changes
/// nothing or leaves a cycle in the policy graph.
pub proof fn lemma_ends_with_pass_unique(
    s: Labelling,
    w: spec_fn(EdgeRef) -> real,
    adj: Seq<Seq<EdgeRef>>,
    k1: nat,
    quiet1: bool,
    k2: nat,
    quiet2: bool,
)
    requires
        ends_with_pass(s, w, adj, k1, quiet1),
        ends_with_pass(s, w, adj, k2, quiet2),
    ensures
        k1 == k2,
        quiet1 == quiet2,
{
    if k1 < k2 {
        assert(goes_on(s, w, adj, k1));
    } else if k2 < k1 {
        assert(goes_on(s, w, adj, k2));
    }
}

/// The policy edge of a vertex explains its potential: the potential of `v` is
/// at least that of the edge's source plus the edge's weight.
pub open spec fn policy_slack<F: Fn(EdgeRef) -> BigRational>(
    pred: Seq<Option<EdgeRef>>,
    dist: Seq<BigRational>,
    f: F,
    v: int,
) -> bool {
    pred[v] is Some ==> value_of(dist[v]) >= value_of(dist[pred[v].unwrap().source as int])
        + weight(f, pred[v].unwrap())
}

/// What one pass leaves of the state before it.
pub open spec fn pass_result<F: Fn(EdgeRef) -> BigRational>(
    pred0: Seq<Option<EdgeRef>>,
    dist0: Seq<BigRational>,
    pred: Seq<Option<EdgeRef>>,
    dist: Seq<BigRational>,
    f: F,
) -> bool {
    &&& pointwise_le(dist, dist0)
    &&& pred.len() == pred0.len()
    &&& forall|v: int|
        0 <= v < dist.len() && v < pred.len() ==> if value_of(dist[v]) < value_of(dist0[v]) {
            (#[trigger] pred[v]) is Some && policy_slack(pred, dist, f, v)
        } else {
            pred[v] == pred0[v] && dist[v] == dist0[v]
        }
}

/// What a pass has made of `s` when it has scanned the first `at` lists of
/// `adj` and the first `upto` edges of the next.
pub open spec fn relaxed_upto(
    s: Labelling,
    w: spec_fn(EdgeRef) -> real,
    adj: Seq<Seq<EdgeRef>>,
    at: int,
    upto: int,
) -> Labelling {
    relax_list(
        relax_lists(s, w, adj.take(at)),
        w,
        if 0 <= at < adj.len() {
            adj[at].take(upto)
        } else {
            Seq::empty()
        },
    )
}

/// A pass that has scanned nothing has changed nothing.
pub proof fn lemma_relaxed_none(s: Labelling, w: spec_fn(EdgeRef) -> real, adj: Seq<Seq<EdgeRef>>)
    ensures
        relaxed_upto(s, w, adj, 0, 0) == s,
{
    assert(adj.take(0).len() == 0);
    if 0 < adj.len() {
        assert(adj[0].take(0).len() == 0);
    }
}

/// Scanning one more edge of a list relaxes that edge.
pub proof fn lemma_relaxed_step(
    s: Labelling,
    w: spec_fn(EdgeRef) -> real,
    adj: Seq<Seq<EdgeRef>>,
    at: int,
    upto: int,
)
    requires
        0 <= at < adj.len(),
        0 <= upto < adj[at].len(),
    ensures
        relaxed_upto(s, w, adj, at, upto + 1) == relax_edge(
            relaxed_upto(s, w, adj, at, upto),
            w,
            adj[at][upto],
        ),
{
    assert(adj[at].take(upto + 1).drop_last() =~= adj[at].take(upto));
    assert(adj[at].take(upto + 1).last() == adj[at][upto]);
}

/// After the last edge of a list the next list begins; after the last list
/// the pass is complete.
pub proof fn lemma_relaxed_next(
    s: Labelling,
    w: spec_fn(EdgeRef) -> real,
    adj: Seq<Seq<EdgeRef>>,
    at: int,
)
    requires
        0 <= at < adj.len(),
    ensures
        relaxed_upto(s, w, adj, at + 1, 0) == relaxed_upto(s, w, adj, at, adj[at].len() as int),
        at + 1 == adj.len() ==> relaxed_upto(s, w, adj, at + 1, 0) == relax_lists(s, w, adj),
{
    assert(adj.take(at + 1).drop_last() =~= adj.take(at));
    assert(adj.take(at + 1).last() == adj[at]);
    assert(adj[at].take(adj[at].len() as int) =~= adj[at]);
    if at + 1 < adj.len() {
        assert(adj[at + 1].take(0).len() == 0);
    } else {
        assert(adj.take(at + 1) =~= adj);
    }
}

/// The numbers `vals` with the policy that is set nowhere.
pub open spec fn fresh(vals: Seq<real>) -> Labelling {
    Labelling { vals, pred: empty_policy(vals.len()) }
}

/// What Howard's algorithm makes of the numbers `vals`: started with the
/// empty policy it ends, after its last pass, with the labelling `out`, and it
/// returns `found`, the first cycle of the policy graph of `out`, or `None`
/// where the last pass changed nothing. It makes no more passes than there
/// are vertices, and at least one.
pub open spec fn howard_outcome(
    vals: Seq<real>,
    w: spec_fn(EdgeRef) -> real,
    adj: Seq<Seq<EdgeRef>>,
    out: Labelling,
    found: Option<Seq<EdgeRef>>,
) -> bool {
    &&& exists|k: nat|
        {
            &&& ends_with_pass(fresh(vals), w, adj, k, found is None)
            &&& out == #[trigger] after_passes(fresh(vals), w, adj, k)
            &&& k <= vals.len() || k == 1
        }
    &&& found is Some ==> traces_first_cycle(out.pred, found.unwrap())
}

/// Howard's algorithm has one outcome.
pub proof fn lemma_howard_outcome_unique(
    vals: Seq<real>,
    w: spec_fn(EdgeRef) -> real,
    adj: Seq<Seq<EdgeRef>>,
    out1: Labelling,
    found1: Option<Seq<EdgeRef>>,
    out2: Labelling,
    found2: Option<Seq<EdgeRef>>,
)
    requires
        howard_outcome(vals, w, adj, out1, found1),
        howard_outcome(vals, w, adj, out2, found2),
    ensures
        out1 == out2,
        found1 == found2,
{
    let k1 = choose|k: nat|
        ends_with_pass(fresh(vals), w, adj, k, found1 is None) && out1 == #[trigger] after_passes(
            fresh(vals),
            w,
            adj,
            k,
        ) && (k <= vals.len() || k == 1);
    let k2 = choose|k: nat|
        ends_with_pass(fresh(vals), w, adj, k, found2 is None) && out2 == #[trigger] after_passes(
            fresh(vals),
            w,
            adj,
            k,
        ) && (k <= vals.len() || k == 1);
    lemma_ends_with_pass_unique(fresh(vals), w, adj, k1, found1 is None, k2, found2 is None);
    if found1 is Some {
        let h1 = choose|h: int| #[trigger]
            first_cycle_entry(out1.pred, h) && traces(out1.pred, h, found1.unwrap());
        let h2 = choose|h: int| #[trigger]
            first_cycle_entry(out2.pred, h) && traces(out2.pred, h, found2.unwrap());
        lemma_first_cycle_entry_unique(out1.pred, h1, h2);
        lemma_traces_unique(out1.pred, h1, found1.unwrap(), found2.unwrap());
    }
}

/// Weights that agree on the edges of a list make the same of it.
pub proof fn lemma_relax_list_agree(
    s: Labelling,
    w1: spec_fn(EdgeRef) -> real,
    w2: spec_fn(EdgeRef) -> real,
    list: Seq<EdgeRef>,
)
    requires
        forall|i: int| 0 <= i < list.len() ==> w1(#[trigger] list[i]) == w2(list[i]),
    ensures
        relax_list(s, w1, list) == relax_list(s, w2, list),
    decreases list.len(),
{
    if list.len() > 0 {
        assert forall|i: int| 0 <= i < list.drop_last().len() implies w1(
            #[trigger] list.drop_last()[i],
        ) == w2(list.drop_last()[i]) by {
            assert(list.drop_last()[i] == list[i]);
        }
        lemma_relax_list_agree(s, w1, w2, list.drop_last());
        assert(w1(list[list.len() - 1]) == w2(list[list.len() - 1]));
    }
}

/// Weights that agree on the edges of the lists make the same of a pass.
pub proof fn lemma_relax_lists_agree(
    s: Labelling,
    w1: spec_fn(EdgeRef) -> real,
    w2: spec_fn(EdgeRef) -> real,
    adj: Seq<Seq<EdgeRef>>,
)
    requires
        forall|u: int, i: int|
            0 <= u < adj.len() && 0 <= i < adj[u].len() ==> w1(#[trigger] adj[u][i]) == w2(
                adj[u][i],
            ),
    ensures
        relax_lists(s, w1, adj) == relax_lists(s, w2, adj),
    decreases adj.len(),
{
    if adj.len() > 0 {
        let front = adj.drop_last();
        assert forall|u: int, i: int| 0 <= u < front.len() && 0 <= i < front[u].len() implies w1(
            #[trigger] front[u][i],
        ) == w2(front[u][i]) by {
            assert(front[u][i] == adj[u][i]);
        }
        lemma_relax_lists_agree(s, w1, w2, front);
        let list = adj.last();
        assert forall|i: int| 0 <= i < list.len() implies w1(#[trigger] list[i]) == w2(list[i]) by {
            assert(list[i] == adj[adj.len() - 1][i]);
        }
        lemma_relax_list_agree(relax_lists(s, w1, front), w1, w2, list);
    }
}

/// Weights that agree on the edges of the lists make the same of any number
/// of passes.
pub proof fn lemma_after_passes_agree(
    s: Labelling,
    w1: spec_fn(EdgeRef) -> real,
    w2: spec_fn(EdgeRef) -> real,
    adj: Seq<Seq<EdgeRef>>,
    k: nat,
)
    requires
        forall|u: int, i: int|
            0 <= u < adj.len() && 0 <= i < adj[u].len() ==> w1(#[trigger] adj[u][i]) == w2(
                adj[u][i],
            ),
    ensures
        after_passes(s, w1, adj, k) == after_passes(s, w2, adj, k),
    decreases k,
{
    if k > 0 {
        lemma_after_passes_agree(s, w1, w2, adj, (k - 1) as nat);
        lemma_relax_lists_agree(after_passes(s, w1, adj, (k - 1) as nat), w1, w2, adj);
    }
}

/// Weights that agree on the edges of the lists give Howard's algorithm the
/// same outcome.
pub proof fn lemma_howard_outcome_agree(
    vals: Seq<real>,
    w1: spec_fn(EdgeRef) -> real,
    w2: spec_fn(EdgeRef) -> real,
    adj: Seq<Seq<EdgeRef>>,
    out: Labelling,
    found: Option<Seq<EdgeRef>>,
)
    requires
        forall|u: int, i: int|
            0 <= u < adj.len() && 0 <= i < adj[u].len() ==> w1(#[trigger] adj[u][i]) == w2(
                adj[u][i],
            ),
        howard_outcome(vals, w1, adj, out, found),
    ensures
        howard_outcome(vals, w2, adj, out, found),
{
    let k = choose|k: nat|
        ends_with_pass(fresh(vals), w1, adj, k, found is None) && out == #[trigger] after_passes(
            fresh(vals),
            w1,
            adj,
            k,
        ) && (k <= vals.len() || k == 1);
    lemma_after_passes_agree(fresh(vals), w1, w2, adj, k);
    lemma_after_passes_agree(fresh(vals), w1, w2, adj, (k - 1) as nat);
    assert forall|j: nat| 1 <= j < k implies #[trigger] goes_on(fresh(vals), w2, adj, j) by {
        assert(goes_on(fresh(vals), w1, adj, j));
        lemma_after_passes_agree(fresh(vals), w1, w2, adj, j);
        lemma_after_passes_agree(fresh(vals), w1, w2, adj, (j - 1) as nat);
    }
    assert(ends_with_pass(fresh(vals), w2, adj, k, found is None));
    assert(out == after_passes(fresh(vals), w2, adj, k));
}

} // verus!
