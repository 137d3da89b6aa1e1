//! Predecessor policies and their cycles.
//!
//! A policy gives to some vertices one edge that enters them. Following the
//! policy backwards from a vertex either ends at a vertex without a policy
//! edge or runs into a cycle. Everything here is specification and proof.

use crate::digraph::{adjacency_wf, graph_adjacency, is_edge, Digraph, EdgeRef};
use crate::potential::{closed_walk, closed_walk_in, joined};
use vstd::prelude::*;

verus! {

/// `pred` is a policy on `g`: it has one entry for each vertex, and an entry
/// that is set holds an edge of `g` that enters that vertex.
pub open spec fn policy_on(pred: Seq<Option<EdgeRef>>, g: Digraph) -> bool {
    &&& pred.len() == graph_adjacency(g).len()
    &&& adjacency_wf(graph_adjacency(g))
    &&& forall|v: int|
        0 <= v < pred.len() && (#[trigger] pred[v]) is Some ==> {
            &&& is_edge(g, pred[v].unwrap())
            &&& pred[v].unwrap().target == v
            &&& pred[v].unwrap().source < pred.len()
        }
}

/// Every edge of `path` is the policy edge of the vertex it enters.
pub open spec fn follows_policy(pred: Seq<Option<EdgeRef>>, path: Seq<EdgeRef>) -> bool {
    forall|j: int|
        0 <= j < path.len() ==> (#[trigger] path[j]).target < pred.len() && pred[path[j].target as int]
            == Some(path[j])
}

/// No vertex is entered twice by `path`.
pub open spec fn simple(path: Seq<EdgeRef>) -> bool {
    forall|i: int, j: int|
        0 <= i < j < path.len() ==> (#[trigger] path[i]).target != (#[trigger] path[j]).target
}

/// A cycle of the policy graph: a simple closed walk along policy edges.
pub open spec fn policy_cycle(pred: Seq<Option<EdgeRef>>, path: Seq<EdgeRef>) -> bool {
    &&& closed_walk(path)
    &&& simple(path)
    &&& follows_policy(pred, path)
}

/// The vertex reached from `v` by following the policy backwards `k` times,
/// `None` where the policy ends before that.
pub open spec fn walk(pred: Seq<Option<EdgeRef>>, v: int, k: nat) -> Option<int>
    decreases k,
{
    if k == 0 {
        Some(v)
    } else {
        match walk(pred, v, (k - 1) as nat) {
            Some(x) => if 0 <= x < pred.len() && pred[x] is Some {
                Some(pred[x].unwrap().source as int)
            } else {
                None
            },
            None => None,
        }
    }
}

/// `h` lies on a cycle of the policy graph: following the policy backwards
/// from `h` comes back to `h`.
pub open spec fn on_cycle(pred: Seq<Option<EdgeRef>>, h: int) -> bool {
    exists|k: nat| k >= 1 && #[trigger] walk(pred, h, k) == Some(h)
}

/// Some vertex lies on a cycle of the policy graph.
pub open spec fn has_cycle(pred: Seq<Option<EdgeRef>>) -> bool {
    exists|v: int| 0 <= v < pred.len() && #[trigger] on_cycle(pred, v)
}

/// Following the policy backwards from `v` leads into a cycle.
pub open spec fn leads_to_cycle(pred: Seq<Option<EdgeRef>>, v: int) -> bool {
    exists|k: nat| #[trigger]
        walk(pred, v, k) is Some && on_cycle(pred, walk(pred, v, k).unwrap())
}

/// `h` is where the policy, followed backwards from `v`, first meets a cycle.
pub open spec fn enters_cycle_at(pred: Seq<Option<EdgeRef>>, v: int, h: int) -> bool {
    exists|k: nat|
        {
            &&& #[trigger] walk(pred, v, k) == Some(h)
            &&& on_cycle(pred, h)
            &&& forall|j: nat|
                j < k ==> walk(pred, v, j) is Some && !on_cycle(
                    pred,
                    #[trigger] walk(pred, v, j).unwrap(),
                )
        }
}

/// `h` is where the policy, followed backwards from the least vertex that
/// leads into a cycle, first meets that cycle.
pub open spec fn first_cycle_entry(pred: Seq<Option<EdgeRef>>, h: int) -> bool {
    exists|v: int|
        {
            &&& 0 <= v < pred.len()
            &&& #[trigger] enters_cycle_at(pred, v, h)
            &&& forall|x: int| 0 <= x < v ==> !leads_to_cycle(pred, x)
        }
}

/// `rank` shows that the policy graph has no cycle: ranks are below the number
/// of vertices and fall along every policy edge.
pub open spec fn ranks_policy(pred: Seq<Option<EdgeRef>>, rank: Seq<nat>) -> bool {
    &&& rank.len() == pred.len()
    &&& forall|v: int|
        0 <= v < pred.len() ==> {
            &&& rank[v] < pred.len()
            &&& (#[trigger] pred[v]) is Some ==> {
                &&& pred[v].unwrap().source < pred.len()
                &&& rank[pred[v].unwrap().source as int] < rank[v]
            }
        }
}

/// The policy graph has no cycle.
pub open spec fn acyclic(pred: Seq<Option<EdgeRef>>) -> bool {
    exists|rank: Seq<nat>| ranks_policy(pred, rank)
}

/// `path` lists the policy edges met on the way from `h` backwards to `h`, in
/// the direction of the edges, so that the edge met first stands last; `h` is
/// not met in between.
pub open spec fn traces(pred: Seq<Option<EdgeRef>>, h: int, path: Seq<EdgeRef>) -> bool {
    &&& path.len() >= 1
    &&& walk(pred, h, path.len()) == Some(h)
    &&& forall|j: nat| 0 < j < path.len() ==> #[trigger] walk(pred, h, j) != Some(h)
    &&& forall|i: nat|
        i < path.len() ==> {
            &&& (#[trigger] walk(pred, h, i)) is Some
            &&& 0 <= walk(pred, h, i).unwrap() < pred.len()
            &&& pred[walk(pred, h, i).unwrap()] == Some(path[path.len() - 1 - i])
        }
}

/// `path` is the cycle of the policy graph that is met first: it lists, in
/// the direction of the edges, the policy edges on the way from the first
/// cycle entry back to it.
pub open spec fn traces_first_cycle(pred: Seq<Option<EdgeRef>>, path: Seq<EdgeRef>) -> bool {
    exists|h: int| #[trigger] first_cycle_entry(pred, h) && traces(pred, h, path)
}

/// A walk that exists has every shorter walk from the same vertex.
pub proof fn lemma_walk_prefix(pred: Seq<Option<EdgeRef>>, v: int, j: nat, k: nat)
    requires
        j <= k,
        walk(pred, v, k) is Some,
    ensures
        walk(pred, v, j) is Some,
    decreases k,
{
    if j < k {
        lemma_walk_prefix(pred, v, j, (k - 1) as nat);
    }
}

/// Walking `a` steps and then `b` steps is walking `a + b` steps.
pub proof fn lemma_walk_add(pred: Seq<Option<EdgeRef>>, v: int, a: nat, b: nat)
    ensures
        walk(pred, v, a + b) == match walk(pred, v, a) {
            Some(x) => walk(pred, x, b),
            None => None,
        },
    decreases b,
{
    if b > 0 {
        lemma_walk_add(pred, v, a, (b - 1) as nat);
        assert(a + b - 1 == a + (b - 1) as nat);
    }
}

/// Vertex `k` of `order` has its policy edge from vertex `k + 1` of `order`.
pub open spec fn linked(pred: Seq<Option<EdgeRef>>, order: Seq<int>, k: int) -> bool {
    &&& 0 <= order[k] < pred.len()
    &&& pred[order[k]] is Some
    &&& pred[order[k]].unwrap().source == order[k + 1]
}

/// Following a chain of policy edges, listed vertex by vertex in `order`,
/// from position `p` to position `k` is a walk of `k - p` steps.
pub proof fn lemma_walk_chain(pred: Seq<Option<EdgeRef>>, order: Seq<int>, p: int, k: int)
    requires
        0 <= p <= k < order.len(),
        forall|j: int| p <= j < k ==> #[trigger] linked(pred, order, j),
    ensures
        walk(pred, order[p], (k - p) as nat) == Some(order[k]),
    decreases k - p,
{
    if k > p {
        lemma_walk_chain(pred, order, p, k - 1);
        assert(linked(pred, order, k - 1));
    }
}

/// A list of distinct vertices is no longer than the number of vertices.
pub proof fn lemma_distinct_len(order: Seq<int>, n: int)
    requires
        0 <= n,
        order.no_duplicates(),
        forall|k: int| 0 <= k < order.len() ==> 0 <= #[trigger] order[k] < n,
    ensures
        order.len() <= n,
{
    order.unique_seq_to_set();
    vstd::set_lib::lemma_int_range(0, n);
    let all = vstd::set_lib::set_int_range(0, n);
    assert(order.to_set().subset_of(all)) by {
        assert forall|x: int| order.to_set().contains(x) implies all.contains(x) by {
            let k = choose|k: int| 0 <= k < order.len() && order[k] == x;
            assert(0 <= order[k] < n);
        }
    }
    vstd::set_lib::lemma_len_subset(order.to_set(), all);
}

/// Ranks fall along a walk: a walk of `k` steps from `v` ends at a vertex
/// whose rank is at least `k` below that of `v`.
pub proof fn lemma_walk_rank(pred: Seq<Option<EdgeRef>>, rank: Seq<nat>, v: int, k: nat)
    requires
        ranks_policy(pred, rank),
        0 <= v < pred.len(),
        walk(pred, v, k) is Some,
    ensures
        0 <= walk(pred, v, k).unwrap() < pred.len(),
        rank[walk(pred, v, k).unwrap()] + k <= rank[v],
    decreases k,
{
    if k > 0 {
        lemma_walk_rank(pred, rank, v, (k - 1) as nat);
        let x = walk(pred, v, (k - 1) as nat).unwrap();
        assert(rank[x] < pred.len());
    }
}

/// A policy graph with a ranking has no vertex on a cycle.
pub proof fn lemma_acyclic_no_cycle(pred: Seq<Option<EdgeRef>>, h: int)
    requires
        acyclic(pred),
        0 <= h < pred.len(),
    ensures
        !on_cycle(pred, h),
{
    if on_cycle(pred, h) {
        let rank = choose|rank: Seq<nat>| ranks_policy(pred, rank);
        let k = choose|k: nat| k >= 1 && #[trigger] walk(pred, h, k) == Some(h);
        lemma_walk_rank(pred, rank, h, k);
    }
}

/// The way from a vertex on a cycle back to itself is a cycle of the policy
/// graph, and it starts and ends at that vertex.
pub proof fn lemma_trace_is_cycle(g: Digraph, pred: Seq<Option<EdgeRef>>, h: int, path: Seq<EdgeRef>)
    requires
        policy_on(pred, g),
        0 <= h < pred.len(),
        traces(pred, h, path),
    ensures
        policy_cycle(pred, path),
        closed_walk_in(g, path),
        path[0].source == h,
        path.last().target == h,
{
    let len = path.len();
    assert forall|j: int| 0 <= j < len implies {
        &&& (#[trigger] path[j]).target < pred.len()
        &&& pred[path[j].target as int] == Some(path[j])
        &&& is_edge(g, path[j])
        &&& walk(pred, h, (len - 1 - j) as nat) == Some(path[j].target as int)
        &&& walk(pred, h, (len - j) as nat) == Some(path[j].source as int)
    } by {
        let i = (len - 1 - j) as nat;
        let x = walk(pred, h, i).unwrap();
        assert(pred[x] == Some(path[len - 1 - i]));
        assert(pred[x].unwrap().target == x);
        assert(walk(pred, h, (i + 1) as nat) == Some(pred[x].unwrap().source as int));
    }
    assert forall|j: int| 0 <= j < len - 1 implies #[trigger] joined(path, j) by {
        assert(walk(pred, h, (len - 1 - j) as nat) == Some(path[j].target as int));
        assert(walk(pred, h, (len - (j + 1)) as nat) == Some(path[j + 1].source as int));
    }
    assert(walk(pred, h, 0) == Some(h));
    assert(walk(pred, h, (len - 1 - (len - 1)) as nat) == Some(path[len - 1].target as int));
    assert(walk(pred, h, (len - 0) as nat) == Some(path[0].source as int));
    assert forall|i: int, j: int| 0 <= i < j < len implies (#[trigger] path[i]).target != (
    #[trigger] path[j]).target by {
        if path[i].target == path[j].target {
            // position a = len-1-j is met before position b = len-1-i
            let a = (len - 1 - j) as nat;
            let b = (len - 1 - i) as nat;
            assert(walk(pred, h, a) == Some(path[j].target as int));
            assert(walk(pred, h, b) == Some(path[i].target as int));
            let rest = (len - b) as nat;
            lemma_walk_add(pred, h, b, rest);
            lemma_walk_add(pred, h, a, rest);
            assert(b + rest == len);
            assert(walk(pred, h, a + rest) == Some(h));
            assert(0 < a + rest < len);
        }
    }
}

/// A simple closed walk along policy edges has at most as many edges as the
/// graph has vertices.
pub proof fn lemma_simple_len(pred: Seq<Option<EdgeRef>>, path: Seq<EdgeRef>)
    requires
        simple(path),
        follows_policy(pred, path),
    ensures
        path.len() <= pred.len(),
{
    let targets = Seq::new(path.len(), |j: int| path[j].target as int);
    assert forall|i: int, j: int| 0 <= i < targets.len() && 0 <= j < targets.len() && i
        != j implies targets[i] != targets[j] by {
        if i < j {
            assert(path[i].target != path[j].target);
        } else {
            assert(path[j].target != path[i].target);
        }
    }
    assert forall|k: int| 0 <= k < targets.len() implies 0 <= #[trigger] targets[k]
        < pred.len() by {
        assert(path[k].target < pred.len());
    }
    lemma_distinct_len(targets, pred.len() as int);
}

/// The policy graph has at most one first cycle entry.
pub proof fn lemma_first_cycle_entry_unique(pred: Seq<Option<EdgeRef>>, h1: int, h2: int)
    requires
        first_cycle_entry(pred, h1),
        first_cycle_entry(pred, h2),
    ensures
        h1 == h2,
{
    let v1 = choose|v: int|
        0 <= v < pred.len() && #[trigger] enters_cycle_at(pred, v, h1) && forall|x: int|
            0 <= x < v ==> !leads_to_cycle(pred, x);
    let v2 = choose|v: int|
        0 <= v < pred.len() && #[trigger] enters_cycle_at(pred, v, h2) && forall|x: int|
            0 <= x < v ==> !leads_to_cycle(pred, x);
    let k1 = choose|k: nat|
        #[trigger] walk(pred, v1, k) == Some(h1) && on_cycle(pred, h1) && forall|j: nat|
            j < k ==> walk(pred, v1, j) is Some && !on_cycle(
                pred,
                #[trigger] walk(pred, v1, j).unwrap(),
            );
    let k2 = choose|k: nat|
        #[trigger] walk(pred, v2, k) == Some(h2) && on_cycle(pred, h2) && forall|j: nat|
            j < k ==> walk(pred, v2, j) is Some && !on_cycle(
                pred,
                #[trigger] walk(pred, v2, j).unwrap(),
            );
    assert(walk(pred, v1, k1) is Some);
    assert(walk(pred, v2, k2) is Some);
    assert(leads_to_cycle(pred, v1));
    assert(leads_to_cycle(pred, v2));
    assert(v1 == v2);
    if k1 < k2 {
        assert(!on_cycle(pred, walk(pred, v2, k1).unwrap()));
    } else if k2 < k1 {
        assert(!on_cycle(pred, walk(pred, v1, k2).unwrap()));
    }
}

/// The way from a vertex on a cycle back to itself is one list of edges only.
pub proof fn lemma_traces_unique(
    pred: Seq<Option<EdgeRef>>,
    h: int,
    path1: Seq<EdgeRef>,
    path2: Seq<EdgeRef>,
)
    requires
        traces(pred, h, path1),
        traces(pred, h, path2),
    ensures
        path1 == path2,
{
    if path1.len() < path2.len() {
        assert(walk(pred, h, path1.len()) != Some(h));
    } else if path2.len() < path1.len() {
        assert(walk(pred, h, path2.len()) != Some(h));
    }
    assert forall|j: int| 0 <= j < path1.len() implies path1[j] == path2[j] by {
        let i = (path1.len() - 1 - j) as nat;
        assert(pred[walk(pred, h, i).unwrap()] == Some(path1[path1.len() - 1 - i]));
        assert(pred[walk(pred, h, i).unwrap()] == Some(path2[path2.len() - 1 - i]));
    }
    assert(path1 =~= path2);
}

} // verus!
