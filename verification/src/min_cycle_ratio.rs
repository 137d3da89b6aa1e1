//! The minimum cycle ratio of cost over time.
//!
//! Each edge has a cost and a positive time. The ratio of a cycle is its cost
//! over its time. The solver finds the least ratio that a cycle attains below
//! a given ratio, and a cycle that attains it.

use crate::digraph::{
    adjacency_wf, graph_adjacency, is_edge, node_count, out_edges, Digraph, EdgeRef,
};
use crate::parametric::{
    describes, lemma_ratio_is_lower_bound, lemma_ratio_problem_conforms, ratio_problem,
    reweighted, run_result, weights_at, MaxParametricSolver, ParametricAPI,
};
use crate::policy::simple;
use crate::potential::{closed_walk_in, pointwise_le, potential_on, respects, total};
use crate::rational::{
    all_numbers, is_number, rational_add, rational_div, rational_is_number, rational_lt,
    rational_mul, rational_sub, rational_zero, value_of,
};
use num::BigRational;
use vstd::prelude::*;

verus! {

/// The costs and the times of the edges of a graph, by edge index. Every
/// time is positive.
pub struct CycleRatio {
    cost: Vec<BigRational>,
    time: Vec<BigRational>,
}

impl CycleRatio {
    #[verifier::type_invariant]
    spec fn inv(self) -> bool {
        self.wf()
    }

    /// There are as many costs as times, all are numbers, and every time is
    /// positive.
    pub closed spec fn wf(self) -> bool {
        &&& self.cost@.len() == self.time@.len()
        &&& all_numbers(self.cost@)
        &&& all_numbers(self.time@)
        &&& forall|i: int| 0 <= i < self.time@.len() ==> value_of(#[trigger] self.time@[i]) > 0real
    }

    /// The number of edges that have a cost and a time.
    pub closed spec fn len(self) -> nat {
        self.cost@.len()
    }

    /// The cost of `e`; zero for an edge without one.
    pub closed spec fn cost_of(self, e: EdgeRef) -> real {
        if e.id < self.cost@.len() {
            value_of(self.cost@[e.id as int])
        } else {
            0real
        }
    }

    /// The time of `e`; zero for an edge without one.
    pub closed spec fn time_of(self, e: EdgeRef) -> real {
        if e.id < self.time@.len() {
            value_of(self.time@[e.id as int])
        } else {
            0real
        }
    }

    /// The costs, as a function of the edge.
    pub open spec fn costs(self) -> spec_fn(EdgeRef) -> real {
        |e: EdgeRef| self.cost_of(e)
    }

    /// The times, as a function of the edge.
    pub open spec fn times(self) -> spec_fn(EdgeRef) -> real {
        |e: EdgeRef| self.time_of(e)
    }

    /// Every edge of `g` has a cost and a time.
    pub open spec fn covers(self, g: Digraph) -> bool {
        forall|e: EdgeRef| #[trigger] is_edge(g, e) ==> e.id < self.len()
    }

    /// The costs `cost` and the times `time`, by edge index; `None` unless
    /// there are as many costs as times, all are numbers, and every time is
    /// positive.
    pub fn new(cost: Vec<BigRational>, time: Vec<BigRational>) -> (made: Option<Self>)
        ensures
            made is Some <==> {
                &&& cost@.len() == time@.len()
                &&& all_numbers(cost@)
                &&& all_numbers(time@)
                &&& forall|i: int| 0 <= i < time@.len() ==> value_of(#[trigger] time@[i]) > 0real
            },
            made is Some ==> {
                &&& made.unwrap().wf()
                &&& made.unwrap().len() == cost@.len()
                &&& forall|e: EdgeRef|
                    e.id < cost@.len() ==> #[trigger] made.unwrap().cost_of(e) == value_of(
                        cost@[e.id as int],
                    )
                &&& forall|e: EdgeRef|
                    e.id < time@.len() ==> #[trigger] made.unwrap().time_of(e) == value_of(
                        time@[e.id as int],
                    )
                &&& forall|e: EdgeRef|
                    e.id >= cost@.len() ==> #[trigger] made.unwrap().cost_of(e) == 0real
                &&& forall|e: EdgeRef|
                    e.id >= time@.len() ==> #[trigger] made.unwrap().time_of(e) == 0real
            },
    {
        if cost.len() != time.len() {
            return None;
        }
        let zero = rational_zero();
        let mut i: usize = 0;
        while i < cost.len()
            invariant
                i <= cost@.len(),
                cost@.len() == time@.len(),
                value_of(zero) == 0real,
                is_number(zero),
                forall|j: int| 0 <= j < i ==> is_number(#[trigger] cost@[j]),
                forall|j: int|
                    0 <= j < i ==> is_number(#[trigger] time@[j]) && value_of(time@[j]) > 0real,
            decreases cost@.len() - i,
        {
            if !rational_is_number(&cost[i]) || !rational_is_number(&time[i]) {
                return None;
            }
            if !rational_lt(&zero, &time[i]) {
                return None;
            }
            i += 1;
        }
        Some(CycleRatio { cost, time })
    }

    /// Whether every edge of `g` has a cost and a time.
    pub fn covers_graph(&self, g: &Digraph) -> (ok: bool)
        ensures
            ok == self.covers(*g),
    {
        let n = node_count(g);
        let ghost adj = graph_adjacency(*g);
        let mut u: usize = 0;
        while u < n
            invariant
                u <= n,
                n == adj.len(),
                adj == graph_adjacency(*g),
                adjacency_wf(adj),
                forall|a: int, b: int|
                    0 <= a < u && 0 <= b < adj[a].len() ==> (#[trigger] adj[a][b]).id < self.len(),
            decreases n - u,
        {
            let edges = out_edges(g, u);
            let mut i: usize = 0;
            while i < edges.len()
                invariant
                    u < n,
                    i <= edges@.len(),
                    n == adj.len(),
                    adj == graph_adjacency(*g),
                    adjacency_wf(adj),
                    edges@ == adj[u as int],
                    forall|a: int, b: int|
                        0 <= a < u && 0 <= b < adj[a].len() ==> (#[trigger] adj[a][b]).id
                            < self.len(),
                    forall|b: int| 0 <= b < i ==> (#[trigger] adj[u as int][b]).id < self.len(),
                decreases edges@.len() - i,
            {
                if edges[i].id >= self.cost.len() {
                    proof {
                        let e = adj[u as int][i as int];
                        assert(adj[u as int].contains(e));
                        assert(is_edge(*g, e));
                    }
                    return false;
                }
                i += 1;
            }
            u += 1;
        }
        proof {
            assert forall|e: EdgeRef| #[trigger] is_edge(*g, e) implies e.id < self.len() by {
                let k = choose|k: int|
                    0 <= k < adj[e.source as int].len() && adj[e.source as int][k] == e;
                assert(adj[e.source as int][k].id < self.len());
            }
        }
        true
    }
}

impl ParametricAPI for CycleRatio {
    /// The cost of `edge` less `ratio` times its time.
    fn distance(&self, ratio: &BigRational, edge: &EdgeRef) -> (d: BigRational)
        ensures
            is_number(d),
            value_of(d) == self.cost_of(*edge) - value_of(*ratio) * self.time_of(*edge),
    {
        proof {
            use_type_invariant(self);
        }
        if edge.id < self.cost.len() {
            let scaled = rational_mul(ratio, &self.time[edge.id]);
            rational_sub(&self.cost[edge.id], &scaled)
        } else {
            proof {
                let r = value_of(*ratio);
                assert(r * 0real == 0real) by (nonlinear_arith);
            }
            rational_zero()
        }
    }

    /// The cost of `cycle` over its time; its cost where it takes no time.
    fn zero_cancel(&self, cycle: &[EdgeRef]) -> (zero: BigRational)
        ensures
            is_number(zero),
            total(self.times(), cycle@) >= 0real,
            total(self.times(), cycle@) > 0real ==> value_of(zero) == total(self.costs(), cycle@)
                / total(self.times(), cycle@),
            total(self.times(), cycle@) > 0real ==> value_of(zero) * total(self.times(), cycle@)
                == total(self.costs(), cycle@),
            total(self.times(), cycle@) == 0real ==> value_of(zero) == total(self.costs(), cycle@),
    {
        proof {
            use_type_invariant(self);
        }
        let nothing = rational_zero();
        let mut cost = rational_zero();
        let mut time = rational_zero();
        let mut k: usize = 0;
        while k < cycle.len()
            invariant
                k <= cycle@.len(),
                self.wf(),
                is_number(cost),
                is_number(time),
                value_of(cost) == total(self.costs(), cycle@.take(k as int)),
                value_of(time) == total(self.times(), cycle@.take(k as int)),
                value_of(time) >= 0real,
            decreases cycle@.len() - k,
        {
            proof {
                crate::potential::lemma_total_take(self.costs(), cycle@, k as int);
                crate::potential::lemma_total_take(self.times(), cycle@, k as int);
            }
            let id = cycle[k].id;
            if id < self.cost.len() {
                cost = rational_add(&cost, &self.cost[id]);
                time = rational_add(&time, &self.time[id]);
            }
            k += 1;
        }
        proof {
            assert(cycle@.take(cycle@.len() as int) =~= cycle@);
        }
        if rational_lt(&nothing, &time) {
            proof {
                let c = value_of(cost);
                let t = value_of(time);
                assert((c / t) * t == c) by (nonlinear_arith)
                    requires
                        t > 0real,
                ;
            }
            rational_div(&cost, &time)
        } else {
            cost
        }
    }
}

/// A walk along edges that take positive time takes positive time.
pub proof fn lemma_total_positive(time: spec_fn(EdgeRef) -> real, path: Seq<EdgeRef>)
    requires
        path.len() > 0,
        forall|j: int| 0 <= j < path.len() ==> time(#[trigger] path[j]) > 0real,
    ensures
        total(time, path) > 0real,
    decreases path.len(),
{
    if path.len() > 1 {
        assert forall|j: int| 0 <= j < path.drop_last().len() implies time(
            #[trigger] path.drop_last()[j],
        ) > 0real by {
            assert(path.drop_last()[j] == path[j]);
        }
        lemma_total_positive(time, path.drop_last());
    } else {
        reveal_with_fuel(total, 2);
    }
    assert(time(path[path.len() - 1]) > 0real);
}

/// Costs and times that cover a graph pose a ratio problem on it.
pub proof fn lemma_cycle_ratio_poses(omega: CycleRatio, g: Digraph)
    requires
        omega.wf(),
        omega.covers(g),
    ensures
        ratio_problem(omega, g, omega.costs(), omega.times()),
        describes(omega, g, reweighted(omega.costs(), omega.times())),
        forall|path: Seq<EdgeRef>| #[trigger]
            closed_walk_in(g, path) ==> total(omega.times(), path) > 0real,
{
    assert forall|path: Seq<EdgeRef>| #[trigger] closed_walk_in(g, path) implies total(
        omega.times(),
        path,
    ) > 0real by {
        assert forall|j: int| 0 <= j < path.len() implies omega.times()(#[trigger] path[j])
            > 0real by {
            assert(is_edge(g, path[j]));
        }
        lemma_total_positive(omega.times(), path);
    }
    assert forall|e: EdgeRef| #[trigger] is_edge(g, e) implies omega.times()(e) >= 0real by {}
    assert(ratio_problem(omega, g, omega.costs(), omega.times()));
    lemma_ratio_problem_conforms(omega, g, omega.costs(), omega.times());
}

/// Finds the minimum cycle ratio of cost over time on a graph.
pub struct MinCycleRatioSolver<'a> {
    solver: MaxParametricSolver<'a, CycleRatio>,
}

impl<'a> MinCycleRatioSolver<'a> {
    /// The graph.
    pub closed spec fn graph(self) -> Digraph {
        *self.solver.ncf.digraph
    }

    /// The costs and times of the edges.
    pub closed spec fn omega(self) -> CycleRatio {
        self.solver.omega
    }

    /// The policy that the last search has left.
    pub closed spec fn policy(self) -> Seq<Option<EdgeRef>> {
        self.solver.ncf.pred@
    }

    /// A solver for `grph` with the costs `cost` and the times `time` of its
    /// edges, by edge index, and with a policy that is set nowhere; `None`
    /// unless every edge has a cost and a time, all are numbers, and every
    /// time is positive.
    pub fn new(grph: &'a Digraph, cost: Vec<BigRational>, time: Vec<BigRational>) -> (made: Option<
        Self,
    >)
        ensures
            made is Some ==> {
                &&& made.unwrap().graph() == *grph
                &&& made.unwrap().policy().len() == graph_adjacency(*grph).len()
                &&& forall|v: int|
                    0 <= v < made.unwrap().policy().len() ==> made.unwrap().policy()[v] is None
                &&& made.unwrap().omega().wf()
                &&& made.unwrap().omega().covers(*grph)
                &&& made.unwrap().omega().len() == cost@.len()
                &&& forall|e: EdgeRef|
                    e.id < cost@.len() ==> #[trigger] made.unwrap().omega().cost_of(e) == value_of(
                        cost@[e.id as int],
                    )
                &&& forall|e: EdgeRef|
                    e.id < time@.len() ==> #[trigger] made.unwrap().omega().time_of(e) == value_of(
                        time@[e.id as int],
                    )
                &&& forall|e: EdgeRef|
                    e.id >= cost@.len() ==> #[trigger] made.unwrap().omega().cost_of(e) == 0real
                &&& forall|e: EdgeRef|
                    e.id >= time@.len() ==> #[trigger] made.unwrap().omega().time_of(e) == 0real
            },
            made is Some <==> {
                &&& cost@.len() == time@.len()
                &&& all_numbers(cost@)
                &&& all_numbers(time@)
                &&& forall|i: int| 0 <= i < time@.len() ==> value_of(#[trigger] time@[i]) > 0real
                &&& forall|e: EdgeRef| #[trigger] is_edge(*grph, e) ==> e.id < cost@.len()
            },
    {
        match CycleRatio::new(cost, time) {
            None => None,
            Some(omega) => {
                if omega.covers_graph(grph) {
                    Some(MinCycleRatioSolver { solver: MaxParametricSolver::new(grph, omega) })
                } else {
                    None
                }
            },
        }
    }

    /// Lowers `*ratio` to the minimum cycle ratio below it, if there is one,
    /// and returns a cycle that attains it; returns an empty list and leaves
    /// `*ratio` where no cycle has a ratio below it. `dist` starts as any
    /// potential and ends as one that is feasible under the final ratio.
    ///
    /// Returns `None`, and changes nothing, unless `dist` has one number for
    /// each vertex, `*ratio` is a number, and every edge of the graph has a
    /// cost and a time, as it has in a solver that `new` has made.
    pub fn run(&mut self, dist: &mut [BigRational], ratio: &mut BigRational) -> (found: Option<
        Vec<EdgeRef>,
    >)
        ensures
            final(self).graph() == old(self).graph(),
            final(self).omega() == old(self).omega(),
            found is Some <==> {
                &&& potential_on(old(dist)@, old(self).graph())
                &&& is_number(*old(ratio))
                &&& old(self).omega().covers(old(self).graph())
            },
            found is None ==> {
                &&& final(dist)@ == old(dist)@
                &&& *final(ratio) == *old(ratio)
                &&& final(self).policy() == old(self).policy()
            },
            found is Some ==> minimum_ratio(
                old(self).graph(),
                old(self).omega(),
                old(dist)@,
                *old(ratio),
                final(dist)@,
                *final(ratio),
                found.unwrap()@,
            ),
            found is Some ==> run_result(
                old(self).omega(),
                old(self).graph(),
                reweighted(old(self).omega().costs(), old(self).omega().times()),
                old(dist)@,
                *old(ratio),
                final(dist)@,
                final(self).policy(),
                *final(ratio),
                found.unwrap()@,
            ),
    {
        proof {
            use_type_invariant(&self.solver.omega);
        }
        if !self.solver.accepts(dist, ratio) {
            return None;
        }
        if !self.solver.omega.covers_graph(self.solver.ncf.digraph) {
            return None;
        }
        let ghost g = *self.solver.ncf.digraph;
        let ghost omega = self.solver.omega;
        let ghost w = reweighted(omega.costs(), omega.times());
        let ghost dist0 = dist@;
        let ghost ratio0 = *ratio;
        proof {
            lemma_cycle_ratio_poses(omega, g);
        }
        let cycle = self.solver.run(dist, ratio);
        proof {
            lemma_minimum_ratio(
                g,
                omega,
                dist0,
                ratio0,
                dist@,
                self.solver.ncf.pred@,
                *ratio,
                cycle@,
            );
        }
        Some(cycle)
    }
}

/// What the solver has made of the potential `dist0` and the ratio `ratio0`:
/// - the ratio has not grown, and every closed walk of the graph costs at
///   least the final ratio times its time;
/// - a cycle is returned where some closed walk has a ratio below `ratio0`;
///   it is a simple closed walk that costs the final ratio times its time;
/// - otherwise the ratio is as it was;
/// - the potential is feasible under the final ratio.
pub open spec fn minimum_ratio(
    g: Digraph,
    omega: CycleRatio,
    dist0: Seq<BigRational>,
    ratio0: BigRational,
    dist: Seq<BigRational>,
    ratio: BigRational,
    cycle: Seq<EdgeRef>,
) -> bool {
    &&& potential_on(dist, g)
    &&& pointwise_le(dist, dist0)
    &&& is_number(ratio)
    &&& value_of(ratio) <= value_of(ratio0)
    &&& forall|path: Seq<EdgeRef>| #[trigger]
        closed_walk_in(g, path) ==> total(omega.costs(), path) >= value_of(ratio) * total(
            omega.times(),
            path,
        )
    &&& cycle.len() > 0 <==> exists|path: Seq<EdgeRef>| #[trigger]
        closed_walk_in(g, path) && total(omega.costs(), path) < value_of(ratio0) * total(
            omega.times(),
            path,
        )
    &&& cycle.len() > 0 ==> {
        &&& closed_walk_in(g, cycle)
        &&& simple(cycle)
        &&& total(omega.costs(), cycle) == value_of(ratio) * total(omega.times(), cycle)
    }
    &&& cycle.len() == 0 ==> ratio == ratio0
    &&& respects(g, dist, weights_at(reweighted(omega.costs(), omega.times()), value_of(ratio)))
}

/// What `MaxParametricSolver::run` ensures of a ratio problem is that the
/// final ratio is the minimum cycle ratio.
proof fn lemma_minimum_ratio(
    g: Digraph,
    omega: CycleRatio,
    dist0: Seq<BigRational>,
    ratio0: BigRational,
    dist: Seq<BigRational>,
    pred: Seq<Option<EdgeRef>>,
    ratio: BigRational,
    cycle: Seq<EdgeRef>,
)
    requires
        omega.wf(),
        omega.covers(g),
        potential_on(dist, g),
        pointwise_le(dist, dist0),
        is_number(ratio),
        is_number(ratio0),
        value_of(ratio) <= value_of(ratio0),
        cycle.len() == 0 ==> ratio == ratio0,
        cycle.len() > 0 ==> closed_walk_in(g, cycle) && simple(cycle),
        run_result(
            omega,
            g,
            reweighted(omega.costs(), omega.times()),
            dist0,
            ratio0,
            dist,
            pred,
            ratio,
            cycle,
        ),
    ensures
        minimum_ratio(g, omega, dist0, ratio0, dist, ratio, cycle),
{
    let cost = omega.costs();
    let time = omega.times();
    let w = reweighted(cost, time);
    let r = value_of(ratio);
    let r0 = value_of(ratio0);
    assert forall|path: Seq<EdgeRef>| #[trigger] closed_walk_in(g, path) implies total(cost, path)
        >= r * total(time, path) by {
        lemma_ratio_is_lower_bound(g, cost, time, r, path);
    }
    if cycle.len() > 0 {
        crate::parametric::lemma_total_reweighted(cost, time, r, cycle);
        let path = choose|path: Seq<EdgeRef>| #[trigger]
            closed_walk_in(g, path) && total(weights_at(w, r0), path) < 0real;
        crate::parametric::lemma_total_reweighted(cost, time, r0, path);
    } else {
        assert forall|path: Seq<EdgeRef>| #[trigger] closed_walk_in(g, path) implies !(total(
            cost,
            path,
        ) < r0 * total(time, path)) by {
            lemma_ratio_is_lower_bound(g, cost, time, r0, path);
        }
    }
}

} // verus!
