//! Ghost bookkeeping for the search of the policy graph for a cycle.
//!
//! The search stamps each vertex with the root from which it was reached.
//! Vertices reached from earlier roots are ranked: the ranks show that none of
//! them leads into a cycle.

use crate::digraph::{Digraph, EdgeRef};
use crate::policy::{
    enters_cycle_at, first_cycle_entry, leads_to_cycle, linked, on_cycle, policy_on, walk,
};
use vstd::prelude::*;

verus! {

/// `order` lists the visited vertices, each once, and `pos` finds each
/// visited vertex in it.
pub(crate) open spec fn listed(visited: Seq<Option<usize>>, order: Seq<int>, pos: Seq<int>) -> bool {
    &&& pos.len() == visited.len()
    &&& forall|k: int|
        0 <= k < order.len() ==> 0 <= #[trigger] order[k] < visited.len() && visited[order[k]] is Some
            && pos[order[k]] == k
    &&& forall|x: int|
        0 <= x < visited.len() && (#[trigger] visited[x]) is Some ==> 0 <= pos[x] < order.len()
            && order[pos[x]] == x
}

/// A vertex stamped by a root below `root` has its rank: below `bound`, and
/// above the rank of its policy predecessor, which such a root stamped too.
pub(crate) open spec fn settled(
    pred: Seq<Option<EdgeRef>>,
    visited: Seq<Option<usize>>,
    rank: Seq<nat>,
    root: int,
    bound: int,
    x: int,
) -> bool {
    visited[x] is Some && visited[x].unwrap() < root ==> {
        &&& rank[x] < bound
        &&& pred[x] is Some ==> {
            &&& visited[pred[x].unwrap().source as int] is Some
            &&& visited[pred[x].unwrap().source as int].unwrap() < root
            &&& rank[pred[x].unwrap().source as int] < rank[x]
        }
    }
}

/// The state of the search before root `v` is tried.
pub(crate) open spec fn searched(
    pred: Seq<Option<EdgeRef>>,
    visited: Seq<Option<usize>>,
    order: Seq<int>,
    pos: Seq<int>,
    rank: Seq<nat>,
    v: int,
) -> bool {
    &&& listed(visited, order, pos)
    &&& visited.len() == pred.len()
    &&& rank.len() == pred.len()
    &&& forall|x: int|
        0 <= x < pred.len() ==> {
            &&& (#[trigger] visited[x]) is Some ==> visited[x].unwrap() < v
            &&& settled(pred, visited, rank, v, order.len() as int, x)
            &&& x < v ==> visited[x] is Some
        }
}

/// The state of the search while the policy is followed from root `v`: the
/// vertices from position `start` of `order` on are the chain walked so far,
/// and `u` is the vertex that follows it.
pub(crate) open spec fn walking(
    pred: Seq<Option<EdgeRef>>,
    visited: Seq<Option<usize>>,
    order: Seq<int>,
    pos: Seq<int>,
    rank: Seq<nat>,
    v: int,
    start: int,
    u: int,
) -> bool {
    &&& listed(visited, order, pos)
    &&& visited.len() == pred.len()
    &&& rank.len() == pred.len()
    &&& 0 <= start <= order.len()
    &&& 0 <= u < pred.len()
    &&& visited[u] is None
    &&& forall|x: int|
        0 <= x < pred.len() ==> {
            &&& (#[trigger] visited[x]) is Some ==> visited[x].unwrap() <= v && ((visited[x].unwrap()
                == v) == (pos[x] >= start))
            &&& settled(pred, visited, rank, v, start, x)
            &&& x < v ==> visited[x] is Some && visited[x].unwrap() < v
        }
    &&& forall|k: int| start <= k < order.len() - 1 ==> #[trigger] linked(pred, order, k)
    &&& if order.len() > start {
        &&& order[start] == v
        &&& pred[order.last()] is Some
        &&& pred[order.last()].unwrap().source == u
    } else {
        u == v
    }
}

/// The ranks after the chain walked from root `v` has ended: a vertex of the
/// chain gets `base` plus the number of vertices that follow it.
pub(crate) open spec fn ranked_chain(
    visited: Seq<Option<usize>>,
    pos: Seq<int>,
    rank: Seq<nat>,
    v: int,
    last: int,
    base: int,
) -> Seq<nat> {
    Seq::new(
        rank.len(),
        |x: int|
            if visited[x] is Some && visited[x].unwrap() == v {
                (base + last - pos[x]) as nat
            } else {
                rank[x]
            },
    )
}

/// Stamping `u` for root `v` extends the chain by `u`.
pub(crate) proof fn lemma_stamp(
    pred: Seq<Option<EdgeRef>>,
    visited: Seq<Option<usize>>,
    order: Seq<int>,
    pos: Seq<int>,
    rank: Seq<nat>,
    v: int,
    start: int,
    u: int,
)
    requires
        walking(pred, visited, order, pos, rank, v, start, u),
        0 <= v < pred.len(),
    ensures
        listed(visited.update(u, Some(v as usize)), order.push(u), pos.update(u, order.len() as int)),
        order.len() < pred.len(),
{
    let visited2 = visited.update(u, Some(v as usize));
    let order2 = order.push(u);
    let pos2 = pos.update(u, order.len() as int);
    assert forall|k: int| 0 <= k < order2.len() implies 0 <= #[trigger] order2[k] < visited2.len()
        && visited2[order2[k]] is Some && pos2[order2[k]] == k by {
        if k < order.len() {
            assert(order[k] == order2[k]);
            assert(visited[order[k]] is Some);
        }
    }
    assert forall|x: int| 0 <= x < visited2.len() && (#[trigger] visited2[x]) is Some implies 0
        <= pos2[x] < order2.len() && order2[pos2[x]] == x by {
        if x != u {
            assert(visited[x] is Some);
        }
    }
    assert(order2.no_duplicates()) by {
        assert forall|i: int, j: int| 0 <= i < order2.len() && 0 <= j < order2.len() && i
            != j implies order2[i] != order2[j] by {
            assert(pos2[order2[i]] == i);
            assert(pos2[order2[j]] == j);
        }
    }
    crate::policy::lemma_distinct_len(order2, pred.len() as int);
}

/// When the chain walked from root `v` ends at its last vertex, without a
/// policy edge or at a vertex that an earlier root stamped, ranking the chain
/// completes the search from `v`.
pub(crate) proof fn lemma_chain_ranked(
    pred: Seq<Option<EdgeRef>>,
    visited: Seq<Option<usize>>,
    order: Seq<int>,
    pos: Seq<int>,
    rank: Seq<nat>,
    v: int,
    start: int,
    base: int,
)
    requires
        listed(visited, order, pos),
        visited.len() == pred.len(),
        rank.len() == pred.len(),
        0 <= v < pred.len(),
        0 <= start < order.len(),
        order[start] == v,
        forall|x: int|
            0 <= x < pred.len() ==> {
                &&& (#[trigger] visited[x]) is Some ==> visited[x].unwrap() <= v && ((
                visited[x].unwrap() == v) == (pos[x] >= start))
                &&& settled(pred, visited, rank, v, start, x)
                &&& x < v ==> visited[x] is Some && visited[x].unwrap() < v
            },
        forall|k: int| start <= k < order.len() - 1 ==> #[trigger] linked(pred, order, k),
        0 <= base <= start,
        forall|x: int|
            0 <= x < pred.len() && (#[trigger] pred[x]) is Some ==> pred[x].unwrap().source
                < pred.len(),
        match pred[order.last()] {
            None => true,
            Some(e) => {
                &&& e.source < pred.len()
                &&& visited[e.source as int] is Some
                &&& visited[e.source as int].unwrap() < v
                &&& rank[e.source as int] < base
            },
        },
    ensures
        searched(
            pred,
            visited,
            order,
            pos,
            ranked_chain(visited, pos, rank, v, order.len() - 1, base),
            v + 1,
        ),
{
    let last = order.len() - 1;
    let rank2 = ranked_chain(visited, pos, rank, v, last, base);
    assert(visited[order[start]] is Some);
    assert forall|x: int| 0 <= x < pred.len() implies {
        &&& (#[trigger] visited[x]) is Some ==> visited[x].unwrap() < v + 1
        &&& settled(pred, visited, rank2, v + 1, order.len() as int, x)
        &&& x < v + 1 ==> visited[x] is Some
    } by {
        assert(settled(pred, visited, rank, v, start, x));
        if visited[x] is Some {
            let p = pos[x];
            assert(order[p] == x);
            if visited[x].unwrap() == v {
                if p < last {
                    let y = order[p + 1];
                    assert(linked(pred, order, p));
                    assert(visited[y] is Some);
                    assert(pos[y] == p + 1);
                }
            } else {
                if pred[x] is Some {
                    let y = pred[x].unwrap().source as int;
                    assert(visited[y].unwrap() < v);
                }
            }
        }
    }
}

/// Vertices stamped by a root below `root` do not lead into a cycle: a walk
/// from one stays among them, and ranks fall along it.
pub(crate) proof fn lemma_settled_walk(
    pred: Seq<Option<EdgeRef>>,
    visited: Seq<Option<usize>>,
    rank: Seq<nat>,
    root: int,
    bound: int,
    x: int,
    k: nat,
)
    requires
        visited.len() == pred.len(),
        rank.len() == pred.len(),
        forall|y: int| 0 <= y < pred.len() ==> #[trigger] settled(pred, visited, rank, root, bound, y),
        forall|y: int|
            0 <= y < pred.len() && (#[trigger] pred[y]) is Some ==> pred[y].unwrap().source
                < pred.len(),
        0 <= x < pred.len(),
        visited[x] is Some,
        visited[x].unwrap() < root,
        walk(pred, x, k) is Some,
    ensures
        0 <= walk(pred, x, k).unwrap() < pred.len(),
        visited[walk(pred, x, k).unwrap()] is Some,
        visited[walk(pred, x, k).unwrap()].unwrap() < root,
        rank[walk(pred, x, k).unwrap()] + k <= rank[x],
    decreases k,
{
    if k > 0 {
        lemma_settled_walk(pred, visited, rank, root, bound, x, (k - 1) as nat);
        let y = walk(pred, x, (k - 1) as nat).unwrap();
        assert(settled(pred, visited, rank, root, bound, y));
    }
}

/// A vertex stamped by a root below `root` does not lead into a cycle.
pub(crate) proof fn lemma_settled_no_cycle(
    pred: Seq<Option<EdgeRef>>,
    visited: Seq<Option<usize>>,
    rank: Seq<nat>,
    root: int,
    bound: int,
    x: int,
)
    requires
        visited.len() == pred.len(),
        rank.len() == pred.len(),
        forall|y: int| 0 <= y < pred.len() ==> #[trigger] settled(pred, visited, rank, root, bound, y),
        forall|y: int|
            0 <= y < pred.len() && (#[trigger] pred[y]) is Some ==> pred[y].unwrap().source
                < pred.len(),
        0 <= x < pred.len(),
        visited[x] is Some,
        visited[x].unwrap() < root,
    ensures
        !leads_to_cycle(pred, x),
{
    if leads_to_cycle(pred, x) {
        let k = choose|k: nat| #[trigger]
            walk(pred, x, k) is Some && on_cycle(pred, walk(pred, x, k).unwrap());
        lemma_settled_walk(pred, visited, rank, root, bound, x, k);
        let y = walk(pred, x, k).unwrap();
        let m = choose|m: nat| m >= 1 && #[trigger] walk(pred, y, m) == Some(y);
        lemma_settled_walk(pred, visited, rank, root, bound, y, m);
    }
}

/// A walk that starts on the loop `order[p..=last]` stays on it.
pub(crate) proof fn lemma_loop_closed(
    pred: Seq<Option<EdgeRef>>,
    order: Seq<int>,
    p: int,
    t: int,
    i: nat,
)
    requires
        0 <= p <= t < order.len(),
        forall|k: int| p <= k < order.len() - 1 ==> #[trigger] linked(pred, order, k),
        0 <= order.last() < pred.len(),
        pred[order.last()] is Some,
        pred[order.last()].unwrap().source == order[p],
    ensures
        exists|t2: int| p <= t2 < order.len() && walk(pred, order[t], i) == Some(#[trigger] order[t2]),
    decreases i,
{
    if i == 0 {
        assert(walk(pred, order[t], i) == Some(order[t]));
    } else {
        lemma_loop_closed(pred, order, p, t, (i - 1) as nat);
        let t1 = choose|t1: int|
            p <= t1 < order.len() && walk(pred, order[t], (i - 1) as nat) == Some(
                #[trigger] order[t1],
            );
        if t1 < order.len() - 1 {
            assert(linked(pred, order, t1));
            assert(walk(pred, order[t], i) == Some(order[t1 + 1]));
        } else {
            assert(walk(pred, order[t], i) == Some(order[p]));
        }
    }
}

/// A vertex of the chain before the loop `order[p..=last]` is on no cycle.
pub(crate) proof fn lemma_tail_not_on_cycle(pred: Seq<Option<EdgeRef>>, order: Seq<int>, q: int, p: int)
    requires
        0 <= q < p < order.len(),
        forall|i: int, j: int|
            0 <= i < order.len() && 0 <= j < order.len() && i != j ==> order[i] != order[j],
        forall|k: int| q <= k < order.len() - 1 ==> #[trigger] linked(pred, order, k),
        0 <= order.last() < pred.len(),
        pred[order.last()] is Some,
        pred[order.last()].unwrap().source == order[p],
    ensures
        !on_cycle(pred, order[q]),
{
    if on_cycle(pred, order[q]) {
        let m = choose|m: nat| m >= 1 && #[trigger] walk(pred, order[q], m) == Some(order[q]);
        let last = order.len() - 1;
        if m <= last - q {
            crate::policy::lemma_walk_chain(pred, order, q, q + m);
        } else {
            crate::policy::lemma_walk_chain(pred, order, q, last);
            let rest = (m - (last - q)) as nat;
            crate::policy::lemma_walk_add(pred, order[q], (last - q) as nat, rest);
            lemma_loop_closed(pred, order, p, last, rest);
        }
    }
}

/// The chain walked from root `v` has come back to `next`, a vertex that
/// bears the stamp of `v`: `next` is where the walk from the least vertex that
/// leads into a cycle enters that cycle.
pub(crate) proof fn lemma_entry_found(
    g: Digraph,
    pred: Seq<Option<EdgeRef>>,
    visited: Seq<Option<usize>>,
    order: Seq<int>,
    pos: Seq<int>,
    rank: Seq<nat>,
    v: int,
    start: int,
    next: int,
)
    requires
        policy_on(pred, g),
        listed(visited, order, pos),
        visited.len() == pred.len(),
        rank.len() == pred.len(),
        0 <= v < pred.len(),
        0 <= start < order.len(),
        order[start] == v,
        forall|x: int|
            0 <= x < pred.len() ==> {
                &&& (#[trigger] visited[x]) is Some ==> visited[x].unwrap() <= v && ((
                visited[x].unwrap() == v) == (pos[x] >= start))
                &&& settled(pred, visited, rank, v, start, x)
                &&& x < v ==> visited[x] is Some && visited[x].unwrap() < v
            },
        forall|k: int| start <= k < order.len() - 1 ==> #[trigger] linked(pred, order, k),
        pred[order.last()] is Some,
        pred[order.last()].unwrap().source == next,
        0 <= next < pred.len(),
        visited[next] == Some(v as usize),
    ensures
        on_cycle(pred, next),
        first_cycle_entry(pred, next),
{
    let p = pos[next];
    let last = order.len() - 1;
    assert(order[p] == next);
    assert(visited[next].unwrap() == v);
    assert(p >= start);
    assert forall|i: int, j: int|
        0 <= i < order.len() && 0 <= j < order.len() && i != j implies order[i] != order[j] by {
        assert(pos[order[i]] == i);
        assert(pos[order[j]] == j);
    }
    assert(0 <= order[last] < pred.len());
    crate::policy::lemma_walk_chain(pred, order, p, last);
    assert(walk(pred, next, (last - p + 1) as nat) == Some(next));
    crate::policy::lemma_walk_chain(pred, order, start, p);
    let k = (p - start) as nat;
    assert forall|j: nat| j < k implies walk(pred, v, j) is Some && !on_cycle(
        pred,
        #[trigger] walk(pred, v, j).unwrap(),
    ) by {
        crate::policy::lemma_walk_chain(pred, order, start, start + j);
        lemma_tail_not_on_cycle(pred, order, start + j, p);
    }
    assert(enters_cycle_at(pred, v, next)) by {
        assert(walk(pred, v, k) == Some(next));
    }
    assert forall|x: int| 0 <= x < v implies !leads_to_cycle(pred, x) by {
        lemma_settled_no_cycle(pred, visited, rank, v, start, x);
    }
}

} // verus!
