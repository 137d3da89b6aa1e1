//! Howard's policy iteration for finding a negative cycle.

use crate::digraph::{
    edges_of, graph_adjacency, is_edge, node_count, out_edges, Digraph, EdgeRef,
};
use crate::ledger::{
    course, lemma_course_ends, lemma_course_goes_on, lemma_lowered_differs,
    lemma_policy_cycle_negative, lemma_round_bound, lemma_scan_end, lemma_scan_next,
    lemma_scan_relax, lemma_scan_skip, lemma_scan_start, lemma_tracks_fresh, scanning, tracks,
    Ledger,
};
use crate::policy::{
    acyclic, first_cycle_entry, has_cycle, linked, on_cycle, policy_cycle, policy_on,
    ranks_policy, traces, walk,
};
use crate::potential::{
    closed_walk_in, feasible, has_negative_cycle, path_weight, pointwise_le, potential_on,
    returns_at, returns_on, weight, weight_fn_on, weights_of,
};
use crate::rational::{is_number, rational_add, rational_is_number, rational_lt, value_of};
use crate::relaxation::{
    empty_policy, fresh, howard_outcome, pass_result, relax_lists, values, Labelling,
};
use crate::search::{
    lemma_chain_ranked, lemma_entry_found, lemma_stamp, ranked_chain, searched, settled, walking,
};
use num::BigRational;
use vstd::prelude::*;

verus! {

/// Finds negative cycles in a directed graph by relaxing potentials and
/// searching the predecessor policy for a cycle.
#[derive(Debug, Clone)]
pub struct NegCycleFinder<'a> {
    /// The graph searched.
    pub digraph: &'a Digraph,
    /// The policy: for each vertex, the edge that last lowered its potential.
    pub pred: Vec<Option<EdgeRef>>,
}

impl<'a> NegCycleFinder<'a> {
    /// The finder's policy has one entry for each vertex of its graph, and
    /// each entry that is set holds an edge of the graph into that vertex.
    pub open spec fn wf(&self) -> bool {
        policy_on(self.pred@, *self.digraph)
    }

    /// A finder for `digraph` with an empty policy.
    pub fn new(digraph: &'a Digraph) -> (finder: Self)
        ensures
            finder.wf(),
            finder.digraph == digraph,
            forall|v: int| 0 <= v < finder.pred@.len() ==> finder.pred@[v] is None,
    {
        let n = node_count(digraph);
        let mut pred: Vec<Option<EdgeRef>> = Vec::new();
        let mut v: usize = 0;
        while v < n
            invariant
                v <= n,
                pred@.len() == v,
                forall|x: int| 0 <= x < v ==> pred@[x] is None,
            decreases n - v,
        {
            pred.push(None);
            v += 1;
        }
        NegCycleFinder { digraph, pred }
    }

    /// Whether `dist` is a potential on the finder's graph: it has one entry
    /// for each vertex, and each entry stands for a number.
    pub fn is_potential(&self, dist: &[BigRational]) -> (ok: bool)
        ensures
            ok == potential_on(dist@, *self.digraph),
    {
        if dist.len() != node_count(self.digraph) {
            return false;
        }
        let mut v: usize = 0;
        while v < dist.len()
            invariant
                v <= dist@.len(),
                forall|x: int| 0 <= x < v ==> is_number(#[trigger] dist@[x]),
            decreases dist@.len() - v,
        {
            if !rational_is_number(&dist[v]) {
                return false;
            }
            v += 1;
        }
        true
    }

    /// Searches the policy graph for a cycle.
    ///
    /// Vertices are tried as roots in index order. From a root the policy is
    /// followed backwards, each vertex stamped with the root, until the policy
    /// ends or a stamped vertex is met. A vertex that bears the stamp of the
    /// current root lies on a cycle, and is returned.
    pub fn find_cycle(&self) -> (handle: Option<usize>)
        requires
            self.wf(),
        ensures
            match handle {
                Some(h) => {
                    &&& h < self.pred@.len()
                    &&& on_cycle(self.pred@, h as int)
                    &&& first_cycle_entry(self.pred@, h as int)
                },
                None => acyclic(self.pred@),
            },
            handle is Some <==> has_cycle(self.pred@),
    {
        let n = self.pred.len();
        let mut visited: Vec<Option<usize>> = Vec::new();
        let mut x: usize = 0;
        while x < n
            invariant
                x <= n,
                visited@.len() == x,
                forall|y: int| 0 <= y < x ==> visited@[y] is None,
            decreases n - x,
        {
            visited.push(None);
            x += 1;
        }
        let ghost mut order: Seq<int> = Seq::empty();
        let ghost mut pos: Seq<int> = Seq::new(n as nat, |y: int| 0int);
        let ghost mut rank: Seq<nat> = Seq::new(n as nat, |y: int| 0nat);
        let mut v: usize = 0;
        while v < n
            invariant
                v <= n,
                n == self.pred@.len(),
                self.wf(),
                searched(self.pred@, visited@, order, pos, rank, v as int),
            decreases n - v,
        {
            if visited[v].is_none() {
                let ghost start = order.len() as int;
                let mut u = v;
                loop
                    invariant_except_break
                        walking(self.pred@, visited@, order, pos, rank, v as int, start, u as int),
                    invariant
                        v < n,
                        n == self.pred@.len(),
                        self.wf(),
                    ensures
                        searched(self.pred@, visited@, order, pos, rank, v + 1),
                    decreases n - order.len(),
                {
                    proof {
                        lemma_stamp(self.pred@, visited@, order, pos, rank, v as int, start, u as int);
                    }
                    let ghost visited1 = visited@;
                    let ghost order1 = order;
                    visited[u] = Some(v);
                    proof {
                        order = order.push(u as int);
                        pos = pos.update(u as int, order1.len() as int);
                        assert forall|y: int| 0 <= y < n implies {
                            &&& (#[trigger] visited@[y]) is Some ==> visited@[y].unwrap() <= v && ((
                            visited@[y].unwrap() == v) == (pos[y] >= start))
                            &&& settled(self.pred@, visited@, rank, v as int, start, y)
                            &&& y < v ==> visited@[y] is Some && visited@[y].unwrap() < v
                        } by {
                            assert(settled(self.pred@, visited1, rank, v as int, start, y));
                            if y != u {
                                if visited1[y] is Some {
                                    assert(order1[pos[y]] == y);
                                }
                            }
                        }
                        assert forall|k: int| start <= k < order.len() - 1 implies #[trigger] linked(
                            self.pred@,
                            order,
                            k,
                        ) by {
                            if k < order1.len() - 1 {
                                assert(linked(self.pred@, order1, k));
                                assert(order1[k] == order[k]);
                                assert(order1[k + 1] == order[k + 1]);
                            } else {
                                assert(order1.last() == order[k]);
                            }
                        }
                        assert(order[start] == v) by {
                            if order1.len() > start {
                                assert(order1[start] == order[start]);
                            }
                        }
                    }
                    match self.pred[u] {
                        None => {
                            proof {
                                lemma_chain_ranked(
                                    self.pred@,
                                    visited@,
                                    order,
                                    pos,
                                    rank,
                                    v as int,
                                    start,
                                    0,
                                );
                                rank = ranked_chain(visited@, pos, rank, v as int, order.len() - 1, 0);
                            }
                            break ;
                        },
                        Some(e) => {
                            let next = e.source;
                            match visited[next] {
                                Some(s) => {
                                    if s == v {
                                        proof {
                                            lemma_entry_found(
                                                *self.digraph,
                                                self.pred@,
                                                visited@,
                                                order,
                                                pos,
                                                rank,
                                                v as int,
                                                start,
                                                next as int,
                                            );
                                        }
                                        return Some(next);
                                    }
                                    proof {
                                        assert(settled(
                                            self.pred@,
                                            visited@,
                                            rank,
                                            v as int,
                                            start,
                                            next as int,
                                        ));
                                        lemma_chain_ranked(
                                            self.pred@,
                                            visited@,
                                            order,
                                            pos,
                                            rank,
                                            v as int,
                                            start,
                                            (rank[next as int] + 1) as int,
                                        );
                                        rank = ranked_chain(
                                            visited@,
                                            pos,
                                            rank,
                                            v as int,
                                            order.len() - 1,
                                            (rank[next as int] + 1) as int,
                                        );
                                    }
                                    break ;
                                },
                                None => {
                                    u = next;
                                },
                            }
                        },
                    }
                }
            }
            v += 1;
        }
        proof {
            assert(order.no_duplicates()) by {
                assert forall|i: int, j: int| 0 <= i < order.len() && 0 <= j < order.len() && i
                    != j implies order[i] != order[j] by {
                    assert(pos[order[i]] == i);
                    assert(pos[order[j]] == j);
                }
            }
            crate::policy::lemma_distinct_len(order, n as int);
            assert forall|y: int| 0 <= y < n implies {
                &&& (#[trigger] rank[y]) < n
                &&& self.pred@[y] is Some ==> {
                    &&& self.pred@[y].unwrap().source < n
                    &&& rank[self.pred@[y].unwrap().source as int] < rank[y]
                }
            } by {
                assert(visited@[y] is Some);
                assert(settled(self.pred@, visited@, rank, n as int, order.len() as int, y));
            }
            assert(crate::policy::ranks_policy(self.pred@, rank));
            assert forall|y: int| 0 <= y < n implies !on_cycle(self.pred@, y) by {
                crate::policy::lemma_acyclic_no_cycle(self.pred@, y);
            }
        }
        None
    }

    /// One relaxation pass: every edge `e` from `u` to `v` is scanned once, in
    /// the order of the adjacency lists, and where `dist[v] > dist[u] + w(e)`
    /// the potential of `v` is lowered to `dist[u] + w(e)` and `e` becomes the
    /// policy edge of `v`. Returns whether a potential was lowered.
    pub fn relax<F: Fn(EdgeRef) -> BigRational>(
        &mut self,
        dist: &mut [BigRational],
        get_weight: F,
    ) -> (changed: bool)
        requires
            old(self).wf(),
            potential_on(old(dist)@, *old(self).digraph),
            weight_fn_on(get_weight, *old(self).digraph),
        ensures
            final(self).wf(),
            final(self).digraph == old(self).digraph,
            potential_on(final(dist)@, *final(self).digraph),
            pass_result(old(self).pred@, old(dist)@, final(self).pred@, final(dist)@, get_weight),
            changed <==> exists|v: int|
                0 <= v < final(dist)@.len() && value_of(#[trigger] final(dist)@[v]) < value_of(
                    old(dist)@[v],
                ),
            changed <==> !feasible(*old(self).digraph, old(dist)@, get_weight),
            !changed ==> final(dist)@ == old(dist)@ && final(self).pred@ == old(self).pred@,
            returns_on(get_weight, *old(self).digraph),
            (Labelling { vals: values(final(dist)@), pred: final(self).pred@ }) == relax_lists(
                Labelling { vals: values(old(dist)@), pred: old(self).pred@ },
                weights_of(get_weight),
                graph_adjacency(*old(self).digraph),
            ),
    {
        let ghost book = Ledger { stamp: Seq::empty(), clock: 0, round_of: Seq::empty(), round: 0 };
        let (changed, _) = self.relax_pass(dist, &get_weight, Ghost(book));
        changed
    }

    /// Howard's algorithm: clears the policy, then relaxes pass after pass
    /// until a pass lowers no potential, or the policy graph has a cycle.
    ///
    /// Returns a cycle of negative weight where the graph has one, and `None`
    /// where it has none; `dist` is then a feasible potential. The cycle is a
    /// cycle of the policy as the finder holds it on return, listed edge by
    /// edge in the direction of the edges.
    pub fn howard<F: Fn(EdgeRef) -> BigRational>(
        &mut self,
        dist: &mut [BigRational],
        get_weight: F,
    ) -> (found: Option<Vec<EdgeRef>>)
        requires
            potential_on(old(dist)@, *old(self).digraph),
            weight_fn_on(get_weight, *old(self).digraph),
        ensures
            final(self).wf(),
            final(self).digraph == old(self).digraph,
            potential_on(final(dist)@, *final(self).digraph),
            pointwise_le(final(dist)@, old(dist)@),
            match found {
                Some(cycle) => {
                    &&& policy_cycle(final(self).pred@, cycle@)
                    &&& closed_walk_in(*final(self).digraph, cycle@)
                    &&& path_weight(get_weight, cycle@) < 0real
                },
                None => feasible(*final(self).digraph, final(dist)@, get_weight),
            },
            found is Some <==> has_negative_cycle(*old(self).digraph, get_weight),
            feasible(*old(self).digraph, old(dist)@, get_weight) ==> final(dist)@ == old(dist)@,
            returns_on(get_weight, *old(self).digraph),
            howard_outcome(
                values(old(dist)@),
                weights_of(get_weight),
                graph_adjacency(*old(self).digraph),
                Labelling { vals: values(final(dist)@), pred: final(self).pred@ },
                edges_of(found),
            ),
    {
        let ghost g = *self.digraph;
        let ghost dist0 = dist@;
        let n = node_count(self.digraph);
        self.pred.clear();
        let mut v: usize = 0;
        while v < n
            invariant
                v <= n,
                self.pred@.len() == v,
                self.digraph == old(self).digraph,
                forall|x: int| 0 <= x < v ==> self.pred@[x] is None,
            decreases n - v,
        {
            self.pred.push(None);
            v += 1;
        }
        let ghost mut book = Ledger {
            stamp: Seq::new(n as nat, |x: int| 0nat),
            clock: 0,
            round_of: Seq::new(n as nat, |x: int| 0nat),
            round: 0,
        };
        let ghost adj = graph_adjacency(g);
        let ghost w = weights_of(get_weight);
        let ghost s0 = fresh(values(dist0));
        proof {
            lemma_tracks_fresh(g, self.pred@, dist@, get_weight, book);
            assert(self.pred@ =~= empty_policy(n as nat));
            reveal(course);
        }
        loop
            invariant
                adj == graph_adjacency(g),
                w == weights_of(get_weight),
                s0 == fresh(values(dist0)),
                n == dist0.len(),
                course(
                    s0,
                    w,
                    adj,
                    book.round,
                    Labelling { vals: values(dist@), pred: self.pred@ },
                ),
                n == self.pred@.len(),
                g == *self.digraph,
                self.digraph == old(self).digraph,
                dist0 == old(dist)@,
                self.wf(),
                potential_on(dist@, g),
                weight_fn_on(get_weight, g),
                pointwise_le(dist@, dist0),
                tracks(g, self.pred@, dist@, get_weight, book),
                book.round < n || book.round == 0,
                book.round == 0 ==> dist@ == dist0,
                book.round > 0 ==> !feasible(g, dist0, get_weight),
            decreases n - book.round,
        {
            let ghost dist1 = dist@;
            let ghost pred1 = self.pred@;
            let (changed, Ghost(next)) = self.relax_pass(dist, &get_weight, Ghost(book));
            proof {
                crate::potential::lemma_pointwise_le_trans(dist@, dist1, dist0);
            }
            if !changed {
                proof {
                    crate::potential::lemma_feasible_no_negative_cycle(g, dist@, get_weight);
                    lemma_course_ends(
                        s0,
                        w,
                        adj,
                        book.round,
                        Labelling { vals: values(dist1), pred: pred1 },
                        Labelling { vals: values(dist@), pred: self.pred@ },
                    );
                }
                return None;
            }
            proof {
                lemma_lowered_differs(dist@, dist1);
            }
            match self.find_cycle() {
                Some(handle) => {
                    let cycle = self.cycle_list(handle);
                    proof {
                        lemma_course_ends(
                            s0,
                            w,
                            adj,
                            book.round,
                            Labelling { vals: values(dist1), pred: pred1 },
                            Labelling { vals: values(dist@), pred: self.pred@ },
                        );
                        assert(first_cycle_entry(self.pred@, handle as int) && traces(
                            self.pred@,
                            handle as int,
                            cycle@,
                        ));
                        crate::policy::lemma_trace_is_cycle(g, self.pred@, handle as int, cycle@);
                        lemma_policy_cycle_negative(g, self.pred@, dist@, get_weight, next, cycle@);
                        if feasible(g, dist0, get_weight) {
                            crate::potential::lemma_feasible_no_negative_cycle(g, dist0, get_weight);
                        }
                    }
                    return Some(cycle);
                },
                None => {
                    proof {
                        lemma_round_bound(g, self.pred@, dist@, get_weight, next);
                        assert forall|y: int| 0 <= y < n implies !on_cycle(self.pred@, y) by {
                            crate::policy::lemma_acyclic_no_cycle(self.pred@, y);
                        }
                        lemma_course_goes_on(
                            s0,
                            w,
                            adj,
                            book.round,
                            Labelling { vals: values(dist1), pred: pred1 },
                            Labelling { vals: values(dist@), pred: self.pred@ },
                        );
                    }
                },
            }
            proof {
                book = next;
            }
        }
    }

    /// The policy cycle through `handle`, a vertex that lies on one: the
    /// policy is followed backwards from `handle` until it comes back, and the
    /// edges met are listed in the direction of the edges.
    fn cycle_list(&self, handle: usize) -> (cycle: Vec<EdgeRef>)
        requires
            self.wf(),
            handle < self.pred@.len(),
            on_cycle(self.pred@, handle as int),
        ensures
            traces(self.pred@, handle as int, cycle@),
    {
        let ghost pred = self.pred@;
        let ghost h = handle as int;
        let ghost period = choose|k: nat| k >= 1 && #[trigger] walk(pred, h, k) == Some(h);
        let mut vtx = handle;
        let mut back: Vec<EdgeRef> = Vec::new();
        loop
            invariant_except_break
                back@.len() < period,
                walk(pred, h, back@.len()) == Some(vtx as int),
                forall|j: nat| 0 < j <= back@.len() ==> #[trigger] walk(pred, h, j) != Some(h),
            invariant
                pred == self.pred@,
                h == handle,
                self.wf(),
                period >= 1,
                walk(pred, h, period) == Some(h),
                vtx < pred.len(),
                forall|i: nat|
                    i < back@.len() ==> {
                        &&& (#[trigger] walk(pred, h, i)) is Some
                        &&& 0 <= walk(pred, h, i).unwrap() < pred.len()
                        &&& pred[walk(pred, h, i).unwrap()] == Some(back@[i as int])
                    },
            ensures
                back@.len() >= 1,
                walk(pred, h, back@.len()) == Some(h),
                forall|j: nat| 0 < j < back@.len() ==> #[trigger] walk(pred, h, j) != Some(h),
            decreases period - back@.len(),
        {
            proof {
                crate::policy::lemma_walk_prefix(pred, h, (back@.len() + 1) as nat, period);
            }
            match self.pred[vtx] {
                Some(edge) => {
                    back.push(edge);
                    vtx = edge.source;
                    if vtx == handle {
                        break ;
                    }
                },
                None => {
                    proof {
                        assert(false);
                    }
                    break ;
                },
            }
        }
        let mut cycle: Vec<EdgeRef> = Vec::new();
        let mut k = back.len();
        while k > 0
            invariant
                k <= back@.len(),
                cycle@.len() == back@.len() - k,
                forall|j: int| 0 <= j < cycle@.len() ==> cycle@[j] == back@[back@.len() - 1 - j],
            decreases k,
        {
            k -= 1;
            cycle.push(back[k]);
        }
        proof {
            assert forall|i: nat| i < cycle@.len() implies {
                &&& (#[trigger] walk(pred, h, i)) is Some
                &&& 0 <= walk(pred, h, i).unwrap() < pred.len()
                &&& pred[walk(pred, h, i).unwrap()] == Some(cycle@[cycle@.len() - 1 - i])
            } by {
                assert(cycle@[cycle@.len() - 1 - i] == back@[i as int]);
            }
        }
        cycle
    }

    /// One relaxation pass with the ledger kept.
    fn relax_pass<F: Fn(EdgeRef) -> BigRational>(
        &mut self,
        dist: &mut [BigRational],
        get_weight: &F,
        Ghost(book): Ghost<Ledger>,
    ) -> (out: (bool, Ghost<Ledger>))
        requires
            old(self).wf(),
            potential_on(old(dist)@, *old(self).digraph),
            weight_fn_on(*get_weight, *old(self).digraph),
        ensures
            final(self).wf(),
            final(self).digraph == old(self).digraph,
            potential_on(final(dist)@, *final(self).digraph),
            pass_result(old(self).pred@, old(dist)@, final(self).pred@, final(dist)@, *get_weight),
            out.0 <==> exists|v: int|
                0 <= v < final(dist)@.len() && value_of(#[trigger] final(dist)@[v]) < value_of(
                    old(dist)@[v],
                ),
            out.0 <==> !feasible(*old(self).digraph, old(dist)@, *get_weight),
            !out.0 ==> final(dist)@ == old(dist)@ && final(self).pred@ == old(self).pred@,
            returns_on(*get_weight, *old(self).digraph),
            (Labelling { vals: values(final(dist)@), pred: final(self).pred@ }) == relax_lists(
                Labelling { vals: values(old(dist)@), pred: old(self).pred@ },
                weights_of(*get_weight),
                graph_adjacency(*old(self).digraph),
            ),
            tracks(*old(self).digraph, old(self).pred@, old(dist)@, *get_weight, book) ==> {
                &&& tracks(
                    *final(self).digraph,
                    final(self).pred@,
                    final(dist)@,
                    *get_weight,
                    out.1@,
                )
                &&& out.1@.round == book.round + 1
                &&& out.0 ==> exists|v: int|
                    0 <= v < final(dist)@.len() && #[trigger] out.1@.round_of[v] == out.1@.round
            },
    {
        let ghost g = *self.digraph;
        let ghost adj = graph_adjacency(g);
        let ghost dist0 = dist@;
        let ghost pred0 = self.pred@;
        let ghost mut bk = Ledger { round: book.round + 1, ..book };
        let ghost mut hit: int = 0;
        let n = self.pred.len();
        let mut changed = false;
        let mut u: usize = 0;
        proof {
            lemma_scan_start(g, pred0, dist0, *get_weight, book);
        }
        while u < n
            invariant
                u <= n,
                n == adj.len(),
                g == *self.digraph,
                adj == graph_adjacency(g),
                self.wf(),
                potential_on(dist@, g),
                weight_fn_on(*get_weight, g),
                scanning(
                    g,
                    pred0,
                    dist0,
                    self.pred@,
                    dist@,
                    *get_weight,
                    book,
                    bk,
                    changed,
                    hit,
                    u as int,
                    0,
                ),
            decreases n - u,
        {
            let edges = out_edges(self.digraph, u);
            let mut i: usize = 0;
            while i < edges.len()
                invariant
                    u < n,
                    i <= edges.len(),
                    edges@ == adj[u as int],
                    n == adj.len(),
                    g == *self.digraph,
                    adj == graph_adjacency(g),
                    self.wf(),
                    potential_on(dist@, g),
                    weight_fn_on(*get_weight, g),
                    scanning(
                        g,
                        pred0,
                        dist0,
                        self.pred@,
                        dist@,
                        *get_weight,
                        book,
                        bk,
                        changed,
                        hit,
                        u as int,
                        i as int,
                    ),
                decreases edges.len() - i,
            {
                let e = edges[i];
                proof {
                    assert(e == adj[u as int][i as int]);
                    assert(adj[u as int].contains(e));
                    assert(is_edge(g, e));
                    crate::digraph::lemma_edge_ends(g, e);
                }
                let w = get_weight(e);
                proof {
                    assert(call_ensures(*get_weight, (adj[u as int][i as int],), w));
                    assert(returns_at(*get_weight, adj[u as int][i as int]));
                }
                let cand = rational_add(&dist[e.source], &w);
                if rational_lt(&cand, &dist[e.target]) {
                    let ghost dist1 = dist@;
                    let ghost pred1 = self.pred@;
                    let ghost bk1 = bk;
                    dist[e.target] = cand;
                    self.pred[e.target] = Some(e);
                    proof {
                        bk = Ledger {
                            stamp: bk1.stamp.update(e.target as int, bk1.clock + 1),
                            clock: bk1.clock + 1,
                            round_of: bk1.round_of.update(e.target as int, bk1.round),
                            round: bk1.round,
                        };
                        assert(self.pred@ == pred1.update(e.target as int, Some(e)));
                        lemma_scan_relax(
                            g,
                            pred0,
                            dist0,
                            pred1,
                            dist1,
                            self.pred@,
                            dist@,
                            *get_weight,
                            book,
                            bk1,
                            bk,
                            changed,
                            hit,
                            u as int,
                            i as int,
                        );
                        hit = e.target as int;
                    }
                    changed = true;
                } else {
                    proof {
                        lemma_scan_skip(
                            g,
                            pred0,
                            dist0,
                            self.pred@,
                            dist@,
                            *get_weight,
                            book,
                            bk,
                            changed,
                            hit,
                            u as int,
                            i as int,
                        );
                    }
                }
                i += 1;
            }
            proof {
                lemma_scan_next(
                    g,
                    pred0,
                    dist0,
                    self.pred@,
                    dist@,
                    *get_weight,
                    book,
                    bk,
                    changed,
                    hit,
                    u as int,
                );
            }
            u += 1;
        }
        proof {
            lemma_scan_end(
                g,
                pred0,
                dist0,
                self.pred@,
                dist@,
                *get_weight,
                book,
                bk,
                changed,
                hit,
            );
        }
        (changed, Ghost(bk))
    }
}

} // verus!
