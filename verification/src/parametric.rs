//! Lawler's parametric method for the minimum cycle ratio.
//!
//! The client says how an edge weighs under a ratio and which ratio makes a
//! cycle weigh zero. The solver lowers the ratio, cycle by cycle, until no
//! cycle weighs less than zero.

use crate::digraph::{edges_of, graph_adjacency, is_edge, Digraph, EdgeRef};
use crate::neg_cycle::NegCycleFinder;
use crate::policy::{policy_cycle, policy_on, simple};
use crate::potential::{
    closed_walk_in, feasible, has_negative_cycle, negative_cycle_under, path_weight, pointwise_le,
    potential_on, respects, returns_at, returns_on, total, weight, weight_fn_on, weights_of,
};
use crate::rational::{is_number, rational_is_number, rational_lt, value_of};
use crate::relaxation::{howard_outcome, lemma_howard_outcome_agree, values, Labelling};
use num::BigRational;
use vstd::prelude::*;

verus! {

/// What a client supplies to the parametric solver: how an edge weighs under
/// a ratio, and which ratio makes a cycle weigh zero.
pub trait ParametricAPI {
    /// The weight of `edge` under `ratio`.
    fn distance(&self, ratio: &BigRational, edge: &EdgeRef) -> BigRational
        requires
            is_number(*ratio),
    ;

    /// The ratio under which `cycle` weighs zero.
    fn zero_cancel(&self, cycle: &[EdgeRef]) -> BigRational
        requires
            cycle@.len() > 0,
    ;
}

/// The weights that `w` gives under the ratio `r`, as a function of the edge.
pub open spec fn weights_at(w: spec_fn(real, EdgeRef) -> real, r: real) -> spec_fn(
    EdgeRef,
) -> real {
    |e: EdgeRef| w(r, e)
}

/// `zero` is a ratio that `api` returns for the cycle `path`.
pub open spec fn zero_cancels<P: ParametricAPI>(
    api: P,
    path: Seq<EdgeRef>,
    zero: BigRational,
) -> bool {
    exists|cycle: &[EdgeRef]|
        cycle@ == path && #[trigger] call_ensures(P::zero_cancel, (&api, cycle), zero)
}

/// `w` describes `api` on `g`:
/// - what `distance` returns for an edge of `g` under a ratio `r` is the
///   number `w(r, e)`;
/// - a larger ratio gives no larger weight;
/// - what `zero_cancel` returns for a closed walk of `g` is a number under
///   which the walk weighs zero.
pub open spec fn describes<P: ParametricAPI>(
    api: P,
    g: Digraph,
    w: spec_fn(real, EdgeRef) -> real,
) -> bool {
    &&& forall|ratio: BigRational, e: EdgeRef, d: BigRational|
        is_number(ratio) && is_edge(g, e) && #[trigger] call_ensures(
            P::distance,
            (&api, &ratio, &e),
            d,
        ) ==> is_number(d) && value_of(d) == w(value_of(ratio), e)
    &&& forall|low: real, high: real, e: EdgeRef|
        low <= high && is_edge(g, e) ==> #[trigger] w(low, e) >= #[trigger] w(high, e)
    &&& forall|cycle: &[EdgeRef], zero: BigRational|
        closed_walk_in(g, cycle@) && #[trigger] call_ensures(P::zero_cancel, (&api, cycle), zero)
            ==> is_number(zero) && total(weights_at(w, value_of(zero)), cycle@) == 0real
}

/// `api` conforms on `g`: some weights describe it.
pub open spec fn conforming<P: ParametricAPI>(api: P, g: Digraph) -> bool {
    exists|w: spec_fn(real, EdgeRef) -> real| describes(api, g, w)
}

/// Weights that describe `api` on `g`, where it conforms.
pub open spec fn description<P: ParametricAPI>(api: P, g: Digraph) -> spec_fn(
    real,
    EdgeRef,
) -> real {
    choose|w: spec_fn(real, EdgeRef) -> real| describes(api, g, w)
}

/// The closed walks of `g`, of at most as many edges as `g` has vertices,
/// that weigh less than zero under the ratio `r`.
pub open spec fn improving(g: Digraph, w: spec_fn(real, EdgeRef) -> real, r: real) -> Set<
    Seq<EdgeRef>,
> {
    Set::new(
        |path: Seq<EdgeRef>|
            path.len() <= graph_adjacency(g).len() && closed_walk_in(g, path) && total(
                weights_at(w, r),
                path,
            ) < 0real,
    )
}

/// How far Lawler's iteration is from its end at most: the number of closed
/// walks that weigh less than zero under `ratio`.
pub open spec fn lawler_measure<P: ParametricAPI>(api: P, g: Digraph, ratio: BigRational) -> nat {
    improving(g, description(api, g), value_of(ratio)).len()
}

/// What one search under the weights `w` makes of the potential `dist0`: it
/// leaves `dist` and the policy `pred`, and returns `found`.
pub open spec fn search_result(
    g: Digraph,
    w: spec_fn(EdgeRef) -> real,
    dist0: Seq<BigRational>,
    dist: Seq<BigRational>,
    pred: Seq<Option<EdgeRef>>,
    found: Option<Seq<EdgeRef>>,
) -> bool {
    &&& match found {
        Some(cycle) => {
            &&& closed_walk_in(g, cycle)
            &&& simple(cycle)
            &&& cycle.len() <= graph_adjacency(g).len()
            &&& total(w, cycle) < 0real
        },
        None => respects(g, dist, w),
    }
    &&& found is Some <==> negative_cycle_under(g, w)
    &&& respects(g, dist0, w) ==> dist == dist0
    &&& howard_outcome(
        values(dist0),
        w,
        graph_adjacency(g),
        Labelling { vals: values(dist), pred },
        found,
    )
}

/// Where Lawler's iteration stands: the numbers at the vertices, the ratio,
/// and the cycle found last.
pub ghost struct Standing {
    pub vals: Seq<real>,
    pub ratio: BigRational,
    pub cycle: Seq<EdgeRef>,
}

/// One step of Lawler's iteration leads from `a` to `b`: Howard's algorithm,
/// under the ratio of `a`, finds the cycle of `b` and leaves the numbers of
/// `b`, and the ratio of `b` is one that the client returns for that cycle,
/// and is below the ratio of `a`.
pub open spec fn improves_to<P: ParametricAPI>(
    api: P,
    g: Digraph,
    w: spec_fn(real, EdgeRef) -> real,
    a: Standing,
    b: Standing,
) -> bool {
    &&& zero_cancels(api, b.cycle, b.ratio)
    &&& is_number(b.ratio)
    &&& value_of(b.ratio) < value_of(a.ratio)
    &&& exists|lab: Labelling|
        {
            &&& #[trigger] howard_outcome(
                a.vals,
                weights_at(w, value_of(a.ratio)),
                graph_adjacency(g),
                lab,
                Some(b.cycle),
            )
            &&& b.vals == lab.vals
        }
}

/// Standing `i` of `chain` leads to the next by one step of Lawler's
/// iteration.
pub open spec fn lawler_step<P: ParametricAPI>(
    api: P,
    g: Digraph,
    w: spec_fn(real, EdgeRef) -> real,
    chain: Seq<Standing>,
    i: int,
) -> bool {
    improves_to(api, g, w, chain[i], chain[i + 1])
}

/// Each standing of `chain` leads to the next by one step of Lawler's
/// iteration.
pub open spec fn lawler_steps<P: ParametricAPI>(
    api: P,
    g: Digraph,
    w: spec_fn(real, EdgeRef) -> real,
    chain: Seq<Standing>,
) -> bool {
    forall|i: int| 0 <= i < chain.len() - 1 ==> #[trigger] lawler_step(api, g, w, chain, i)
}

/// The ratios of `chain` fall: each standing has a ratio below that of every
/// standing before it.
pub open spec fn ratios_fall(chain: Seq<Standing>) -> bool {
    forall|i: int, j: int|
        0 <= i < j < chain.len() ==> value_of((#[trigger] chain[j]).ratio) < value_of(
            (#[trigger] chain[i]).ratio,
        )
}

/// What Lawler's iteration makes of `start`: step by step it comes to where
/// the ratio is `ratio` and the cycle found last is `cycle`, and from there
/// Howard's algorithm finds no cycle and leaves the labelling `out`. The
/// standings of `chain` are those under whose ratios the searches ran, in the
/// order of the searches: the first is `start`, the last has the final ratio,
/// and the ratios fall from each to the next.
pub open spec fn lawler_outcome<P: ParametricAPI>(
    api: P,
    g: Digraph,
    w: spec_fn(real, EdgeRef) -> real,
    start: Standing,
    ratio: BigRational,
    cycle: Seq<EdgeRef>,
    out: Labelling,
) -> bool {
    exists|chain: Seq<Standing>|
        {
            &&& chain.len() >= 1
            &&& chain[0] == start
            &&& #[trigger] lawler_steps(api, g, w, chain)
            &&& ratios_fall(chain)
            &&& chain.last().ratio == ratio
            &&& chain.last().cycle == cycle
            &&& howard_outcome(
                chain.last().vals,
                weights_at(w, value_of(ratio)),
                graph_adjacency(g),
                out,
                None,
            )
        }
}

/// What `run` has made of the potential `dist0` and the ratio `ratio0`, in
/// terms of weights `w` that describe the client.
pub open spec fn run_result<P: ParametricAPI>(
    api: P,
    g: Digraph,
    w: spec_fn(real, EdgeRef) -> real,
    dist0: Seq<BigRational>,
    ratio0: BigRational,
    dist: Seq<BigRational>,
    pred: Seq<Option<EdgeRef>>,
    ratio: BigRational,
    cycle: Seq<EdgeRef>,
) -> bool {
    &&& cycle.len() == 0 <==> !negative_cycle_under(g, weights_at(w, value_of(ratio0)))
    &&& cycle.len() > 0 ==> total(weights_at(w, value_of(ratio)), cycle) == 0real
    &&& respects(g, dist, weights_at(w, value_of(ratio)))
    &&& !negative_cycle_under(g, weights_at(w, value_of(ratio)))
    &&& respects(g, dist0, weights_at(w, value_of(ratio0))) ==> cycle.len() == 0 && dist == dist0
    &&& lawler_outcome(
        api,
        g,
        w,
        Standing { vals: values(dist0), ratio: ratio0, cycle: Seq::empty() },
        ratio,
        cycle,
        Labelling { vals: values(dist), pred },
    )
}

/// What holds of `run` while it loops, in terms of weights `w` that describe
/// the client.
spec fn run_so_far<P: ParametricAPI>(
    api: P,
    g: Digraph,
    w: spec_fn(real, EdgeRef) -> real,
    ratio0: BigRational,
    ratio: BigRational,
    cycle: Seq<EdgeRef>,
    chain: Seq<Standing>,
) -> bool {
    &&& lawler_steps(api, g, w, chain)
    &&& cycle.len() > 0 ==> {
        &&& total(weights_at(w, value_of(ratio)), cycle) == 0real
        &&& negative_cycle_under(g, weights_at(w, value_of(ratio0)))
    }
}

/// Finds the minimum cycle ratio of a graph, and a cycle that attains it.
#[derive(Debug)]
pub struct MaxParametricSolver<'a, P: ParametricAPI> {
    pub ncf: NegCycleFinder<'a>,
    pub omega: P,
}

impl<'a, P: ParametricAPI> MaxParametricSolver<'a, P> {
    /// The solver's finder is well formed.
    pub open spec fn wf(&self) -> bool {
        self.ncf.wf()
    }

    /// A solver for `grph` with the client's `omega`, and with a finder whose
    /// policy is set nowhere.
    pub fn new(grph: &'a Digraph, omega: P) -> (solver: Self)
        ensures
            solver.wf(),
            solver.ncf.digraph == grph,
            solver.omega == omega,
            forall|v: int| 0 <= v < solver.ncf.pred@.len() ==> solver.ncf.pred@[v] is None,
    {
        MaxParametricSolver { ncf: NegCycleFinder::new(grph), omega }
    }

    /// Whether `run` takes `dist` and `ratio`: `dist` is a potential on the
    /// solver's graph, and `ratio` stands for a number.
    pub fn accepts(&self, dist: &[BigRational], ratio: &BigRational) -> (ok: bool)
        ensures
            ok == (potential_on(dist@, *self.ncf.digraph) && is_number(*ratio)),
    {
        self.ncf.is_potential(dist) && rational_is_number(ratio)
    }

    /// Lawler's iteration. Starting from `*ratio`, searches for a cycle of
    /// negative weight under the current ratio; each cycle found lowers the
    /// ratio to the one that makes that cycle weigh zero. Ends when no cycle
    /// weighs less than zero.
    ///
    /// Returns the last cycle found, which attains the final ratio, or an
    /// empty list where the first search finds none; `*ratio` is then as it
    /// was. The searches run under ratios that fall from each search to the
    /// next: the first runs under the ratio given, the last under the final
    /// ratio. On return `dist` is a feasible potential under the final ratio,
    /// so a second run from what the first has left finds nothing and changes
    /// nothing.
    pub fn run(&mut self, dist: &mut [BigRational], ratio: &mut BigRational) -> (cycle: Vec<
        EdgeRef,
    >)
        requires
            potential_on(old(dist)@, *old(self).ncf.digraph),
            is_number(*old(ratio)),
            conforming(old(self).omega, *old(self).ncf.digraph),
        ensures
            final(self).wf(),
            final(self).ncf.digraph == old(self).ncf.digraph,
            final(self).omega == old(self).omega,
            potential_on(final(dist)@, *final(self).ncf.digraph),
            pointwise_le(final(dist)@, old(dist)@),
            is_number(*final(ratio)),
            value_of(*final(ratio)) <= value_of(*old(ratio)),
            cycle@.len() == 0 ==> *final(ratio) == *old(ratio),
            cycle@.len() > 0 ==> {
                &&& value_of(*final(ratio)) < value_of(*old(ratio))
                &&& closed_walk_in(*old(self).ncf.digraph, cycle@)
                &&& simple(cycle@)
                &&& zero_cancels(old(self).omega, cycle@, *final(ratio))
            },
            forall|w: spec_fn(real, EdgeRef) -> real| #[trigger]
                describes(old(self).omega, *old(self).ncf.digraph, w) ==> run_result(
                    old(self).omega,
                    *old(self).ncf.digraph,
                    w,
                    old(dist)@,
                    *old(ratio),
                    final(dist)@,
                    final(self).ncf.pred@,
                    *final(ratio),
                    cycle@,
                ),
    {
        let ghost g = *self.ncf.digraph;
        let ghost api = self.omega;
        let ghost dist0 = dist@;
        let ghost ratio0 = *ratio;
        let ghost start = Standing { vals: values(dist0), ratio: ratio0, cycle: Seq::empty() };
        let ghost mut chain: Seq<Standing> = seq![start];
        let mut cycle: Vec<EdgeRef> = Vec::new();
        loop
            invariant
                start == (Standing { vals: values(dist0), ratio: ratio0, cycle: Seq::empty() }),
                chain.len() >= 1,
                chain[0] == start,
                chain.last() == (Standing { vals: values(dist@), ratio: *ratio, cycle: cycle@ }),
                g == *self.ncf.digraph,
                self.ncf.digraph == old(self).ncf.digraph,
                api == self.omega,
                api == old(self).omega,
                dist0 == old(dist)@,
                ratio0 == *old(ratio),
                potential_on(dist@, g),
                pointwise_le(dist@, dist0),
                is_number(*ratio),
                is_number(ratio0),
                conforming(api, g),
                if cycle@.len() == 0 {
                    *ratio == ratio0 && dist@ == dist0
                } else {
                    &&& value_of(*ratio) < value_of(ratio0)
                    &&& closed_walk_in(g, cycle@)
                    &&& simple(cycle@)
                    &&& zero_cancels(api, cycle@, *ratio)
                },
                forall|w: spec_fn(real, EdgeRef) -> real| #[trigger]
                    describes(api, g, w) ==> run_so_far(api, g, w, ratio0, *ratio, cycle@, chain),
            decreases lawler_measure(api, g, *ratio),
        {
            let ghost dist1 = dist@;
            let ghost ratio1 = *ratio;
            let ghost cycle1 = cycle@;
            match self.improve(dist, ratio) {
                None => {
                    proof {
                        crate::potential::lemma_pointwise_le_trans(dist@, dist1, dist0);
                        assert forall|w: spec_fn(real, EdgeRef) -> real| #[trigger]
                            describes(api, g, w) implies run_result(
                            api,
                            g,
                            w,
                            dist0,
                            ratio0,
                            dist@,
                            self.ncf.pred@,
                            *ratio,
                            cycle@,
                        ) by {
                            lemma_run_ends(
                                api,
                                g,
                                w,
                                dist0,
                                ratio0,
                                dist1,
                                dist@,
                                self.ncf.pred@,
                                *ratio,
                                cycle@,
                                chain,
                            );
                        }
                    }
                    return cycle;
                },
                Some(ci) => {
                    proof {
                        crate::potential::lemma_pointwise_le_trans(dist@, dist1, dist0);
                        let after = Standing { vals: values(dist@), ratio: *ratio, cycle: ci@ };
                        assert(edges_of(Some(ci)) == Some(ci@));
                        assert forall|w: spec_fn(real, EdgeRef) -> real| #[trigger]
                            describes(api, g, w) implies run_so_far(
                            api,
                            g,
                            w,
                            ratio0,
                            *ratio,
                            ci@,
                            chain.push(after),
                        ) by {
                            lemma_run_steps(
                                api,
                                g,
                                w,
                                dist1,
                                ratio0,
                                ratio1,
                                cycle1,
                                dist@,
                                self.ncf.pred@,
                                *ratio,
                                ci@,
                                chain,
                            );
                        }
                        chain = chain.push(after);
                    }
                    cycle = ci;
                },
            }
        }
    }

    /// One step of Lawler's iteration: searches for a cycle of negative weight
    /// under `*ratio`, and where there is one, lowers `*ratio` to the ratio
    /// that makes the cycle found weigh zero.
    ///
    /// Returns the cycle found; every write to `*ratio` lowers it strictly.
    /// Returns `None` where no cycle weighs less than zero under `*ratio`;
    /// `dist` is then a feasible potential under `*ratio`, which is as it was.
    pub fn improve(&mut self, dist: &mut [BigRational], ratio: &mut BigRational) -> (found: Option<
        Vec<EdgeRef>,
    >)
        requires
            potential_on(old(dist)@, *old(self).ncf.digraph),
            is_number(*old(ratio)),
            conforming(old(self).omega, *old(self).ncf.digraph),
        ensures
            final(self).wf(),
            final(self).ncf.digraph == old(self).ncf.digraph,
            final(self).omega == old(self).omega,
            potential_on(final(dist)@, *final(self).ncf.digraph),
            pointwise_le(final(dist)@, old(dist)@),
            is_number(*final(ratio)),
            match found {
                Some(cycle) => {
                    &&& value_of(*final(ratio)) < value_of(*old(ratio))
                    &&& closed_walk_in(*old(self).ncf.digraph, cycle@)
                    &&& simple(cycle@)
                    &&& zero_cancels(old(self).omega, cycle@, *final(ratio))
                    &&& lawler_measure(old(self).omega, *old(self).ncf.digraph, *final(ratio))
                        < lawler_measure(old(self).omega, *old(self).ncf.digraph, *old(ratio))
                },
                None => *final(ratio) == *old(ratio),
            },
            forall|w: spec_fn(real, EdgeRef) -> real| #[trigger]
                describes(old(self).omega, *old(self).ncf.digraph, w) ==> {
                    &&& search_result(
                        *old(self).ncf.digraph,
                        weights_at(w, value_of(*old(ratio))),
                        old(dist)@,
                        final(dist)@,
                        final(self).ncf.pred@,
                        edges_of(found),
                    )
                    &&& found is Some ==> total(
                        weights_at(w, value_of(*final(ratio))),
                        edges_of(found).unwrap(),
                    ) == 0real
                },
    {
        let ghost g = *self.ncf.digraph;
        let ghost api = self.omega;
        match self.probe(dist, ratio) {
            None => None,
            Some(ci) => {
                let ri = self.omega.zero_cancel(ci.as_slice());
                proof {
                    assert(zero_cancels(api, ci@, ri));
                    assert(edges_of(Some(ci)) == Some(ci@));
                    let wd = description(api, g);
                    lemma_better_ratio(api, g, wd, value_of(*ratio), ri, ci@);
                    lemma_improving_shrinks(g, wd, value_of(*ratio), value_of(ri), ci@);
                    assert forall|w: spec_fn(real, EdgeRef) -> real| #[trigger]
                        describes(api, g, w) implies total(weights_at(w, value_of(ri)), ci@)
                        == 0real by {
                        lemma_better_ratio(api, g, w, value_of(*ratio), ri, ci@);
                    }
                }
                if rational_lt(&ri, ratio) {
                    *ratio = ri;
                    Some(ci)
                } else {
                    None
                }
            },
        }
    }

    /// One search under `ratio`: Howard's algorithm with the weights that the
    /// client gives under `ratio`.
    fn probe(&mut self, dist: &mut [BigRational], ratio: &BigRational) -> (found: Option<
        Vec<EdgeRef>,
    >)
        requires
            potential_on(old(dist)@, *old(self).ncf.digraph),
            is_number(*ratio),
            conforming(old(self).omega, *old(self).ncf.digraph),
        ensures
            final(self).wf(),
            final(self).ncf.digraph == old(self).ncf.digraph,
            final(self).omega == old(self).omega,
            potential_on(final(dist)@, *final(self).ncf.digraph),
            pointwise_le(final(dist)@, old(dist)@),
            forall|w: spec_fn(real, EdgeRef) -> real| #[trigger]
                describes(old(self).omega, *old(self).ncf.digraph, w) ==> search_result(
                    *old(self).ncf.digraph,
                    weights_at(w, value_of(*ratio)),
                    old(dist)@,
                    final(dist)@,
                    final(self).ncf.pred@,
                    edges_of(found),
                ),
    {
        let ghost g = *self.ncf.digraph;
        let ghost api = self.omega;
        let ghost dist0 = dist@;
        let found = {
            let omega = &self.omega;
            let weigh = |e: EdgeRef| -> (d: BigRational)
                ensures
                    call_ensures(P::distance, (omega, ratio, &e), d),
                { omega.distance(ratio, &e) };
            let ghost weighed = weigh;
            proof {
                lemma_weight_fn(api, g, description(api, g), *ratio, weighed);
            }
            let found = self.ncf.howard(dist, weigh);
            proof {
                assert forall|w: spec_fn(real, EdgeRef) -> real| #[trigger]
                    describes(api, g, w) implies search_result(
                    g,
                    weights_at(w, value_of(*ratio)),
                    dist0,
                    dist@,
                    self.ncf.pred@,
                    edges_of(found),
                ) by {
                    lemma_search_result(
                        api,
                        g,
                        w,
                        *ratio,
                        weighed,
                        dist0,
                        dist@,
                        self.ncf.pred@,
                        edges_of(found),
                    );
                }
            }
            found
        };
        found
    }
}

/// The client's `distance` under `ratio` is a weight function on the graph.
proof fn lemma_weight_fn<P: ParametricAPI, F: Fn(EdgeRef) -> BigRational>(
    api: P,
    g: Digraph,
    w: spec_fn(real, EdgeRef) -> real,
    ratio: BigRational,
    f: F,
)
    requires
        describes(api, g, w),
        is_number(ratio),
        forall|e: EdgeRef| #[trigger] call_requires(f, (e,)),
        forall|e: EdgeRef, d: BigRational| #[trigger]
            call_ensures(f, (e,), d) ==> call_ensures(P::distance, (&api, &ratio, &e), d),
    ensures
        weight_fn_on(f, g),
        forall|e: EdgeRef|
            is_edge(g, e) && #[trigger] returns_at(f, e) ==> weight(f, e) == w(value_of(ratio), e),
{
    assert forall|e: EdgeRef| is_edge(g, e) && #[trigger] returns_at(f, e) implies weight(f, e)
        == w(value_of(ratio), e) by {
        let d = choose|d: BigRational| call_ensures(f, (e,), d);
        assert(call_ensures(P::distance, (&api, &ratio, &e), d));
    }
    assert forall|e: EdgeRef, r: BigRational|
        is_edge(g, e) && #[trigger] call_ensures(f, (e,), r) implies is_number(r) && value_of(r)
        == weight(f, e) by {
        assert(call_ensures(P::distance, (&api, &ratio, &e), r));
        assert(returns_at(f, e));
    }
}

/// What Howard's algorithm has found under the client's `distance`, told in
/// terms of weights that describe the client.
proof fn lemma_search_result<P: ParametricAPI, F: Fn(EdgeRef) -> BigRational>(
    api: P,
    g: Digraph,
    w: spec_fn(real, EdgeRef) -> real,
    ratio: BigRational,
    f: F,
    dist0: Seq<BigRational>,
    dist: Seq<BigRational>,
    pred: Seq<Option<EdgeRef>>,
    found: Option<Seq<EdgeRef>>,
)
    requires
        describes(api, g, w),
        is_number(ratio),
        forall|e: EdgeRef| #[trigger] call_requires(f, (e,)),
        forall|e: EdgeRef, d: BigRational| #[trigger]
            call_ensures(f, (e,), d) ==> call_ensures(P::distance, (&api, &ratio, &e), d),
        returns_on(f, g),
        policy_on(pred, g),
        match found {
            Some(cycle) => {
                &&& policy_cycle(pred, cycle)
                &&& closed_walk_in(g, cycle)
                &&& path_weight(f, cycle) < 0real
            },
            None => feasible(g, dist, f),
        },
        found is Some <==> has_negative_cycle(g, f),
        feasible(g, dist0, f) ==> dist == dist0,
        howard_outcome(
            values(dist0),
            weights_of(f),
            graph_adjacency(g),
            Labelling { vals: values(dist), pred },
            found,
        ),
    ensures
        search_result(g, weights_at(w, value_of(ratio)), dist0, dist, pred, found),
{
    let wr = weights_at(w, value_of(ratio));
    let adj = graph_adjacency(g);
    lemma_weight_fn(api, g, w, ratio, f);
    assert forall|e: EdgeRef| #[trigger] is_edge(g, e) implies weights_of(f)(e) == wr(e) by {
        assert(returns_at(f, e));
    }
    assert forall|path: Seq<EdgeRef>| #[trigger] closed_walk_in(g, path) implies total(
        weights_of(f),
        path,
    ) == total(wr, path) by {
        crate::potential::lemma_total_agree(weights_of(f), wr, path);
    }
    assert forall|u: int, i: int| 0 <= u < adj.len() && 0 <= i < adj[u].len() implies weights_of(
        f,
    )(#[trigger] adj[u][i]) == wr(adj[u][i]) by {
        assert(adj[u].contains(adj[u][i]));
        assert(is_edge(g, adj[u][i]));
    }
    lemma_howard_outcome_agree(
        values(dist0),
        weights_of(f),
        wr,
        adj,
        Labelling { vals: values(dist), pred },
        found,
    );
    if found is Some {
        crate::policy::lemma_simple_len(pred, found.unwrap());
    }
}

/// A ratio that makes a cycle weigh zero is below every ratio under which the
/// cycle weighs less than zero.
pub proof fn lemma_better_ratio<P: ParametricAPI>(
    api: P,
    g: Digraph,
    w: spec_fn(real, EdgeRef) -> real,
    r: real,
    zero: BigRational,
    path: Seq<EdgeRef>,
)
    requires
        describes(api, g, w),
        closed_walk_in(g, path),
        total(weights_at(w, r), path) < 0real,
        zero_cancels(api, path, zero),
    ensures
        is_number(zero),
        total(weights_at(w, value_of(zero)), path) == 0real,
        value_of(zero) < r,
{
    let cycle = choose|cycle: &[EdgeRef]|
        cycle@ == path && #[trigger] call_ensures(P::zero_cancel, (&api, cycle), zero);
    assert(closed_walk_in(g, cycle@));
    let z = value_of(zero);
    if r <= z {
        assert forall|j: int| 0 <= j < path.len() implies weights_at(w, z)(#[trigger] path[j])
            <= weights_at(w, r)(path[j]) by {
            assert(is_edge(g, path[j]));
            assert(w(r, path[j]) >= w(z, path[j]));
        }
        crate::potential::lemma_total_monotone(weights_at(w, z), weights_at(w, r), path);
    }
}

/// Lowering the ratio to one under which an improving cycle weighs zero
/// leaves fewer improving cycles.
pub proof fn lemma_improving_shrinks(
    g: Digraph,
    w: spec_fn(real, EdgeRef) -> real,
    r: real,
    z: real,
    path: Seq<EdgeRef>,
)
    requires
        forall|low: real, high: real, e: EdgeRef|
            low <= high && is_edge(g, e) ==> #[trigger] w(low, e) >= #[trigger] w(high, e),
        z <= r,
        closed_walk_in(g, path),
        path.len() <= graph_adjacency(g).len(),
        total(weights_at(w, r), path) < 0real,
        total(weights_at(w, z), path) == 0real,
    ensures
        improving(g, w, z).len() < improving(g, w, r).len(),
{
    let n = graph_adjacency(g).len();
    let all = crate::paths::paths_upto(g, n);
    crate::paths::lemma_paths_upto_finite(g, n);
    let before = improving(g, w, r);
    let after = improving(g, w, z);
    assert(before.subset_of(all));
    vstd::set_lib::lemma_set_subset_finite(all, before);
    assert forall|p: Seq<EdgeRef>| after.contains(p) implies before.contains(p) by {
        assert forall|j: int| 0 <= j < p.len() implies weights_at(w, r)(#[trigger] p[j])
            <= weights_at(w, z)(p[j]) by {
            assert(is_edge(g, p[j]));
            assert(w(z, p[j]) >= w(r, p[j]));
        }
        crate::potential::lemma_total_monotone(weights_at(w, r), weights_at(w, z), p);
    }
    assert(after.subset_of(before));
    assert(before.contains(path));
    assert(!after.contains(path));
    after.lemma_subset_not_in_lt(before, path);
}

/// A step of `improve` that has found a cycle extends the course of `run`.
proof fn lemma_run_steps<P: ParametricAPI>(
    api: P,
    g: Digraph,
    w: spec_fn(real, EdgeRef) -> real,
    dist1: Seq<BigRational>,
    ratio0: BigRational,
    ratio1: BigRational,
    cycle1: Seq<EdgeRef>,
    dist: Seq<BigRational>,
    pred: Seq<Option<EdgeRef>>,
    ratio: BigRational,
    cycle: Seq<EdgeRef>,
    chain: Seq<Standing>,
)
    requires
        describes(api, g, w),
        chain.len() >= 1,
        chain.last() == (Standing { vals: values(dist1), ratio: ratio1, cycle: cycle1 }),
        run_so_far(api, g, w, ratio0, ratio1, cycle1, chain),
        cycle1.len() == 0 ==> ratio1 == ratio0,
        search_result(g, weights_at(w, value_of(ratio1)), dist1, dist, pred, Some(cycle)),
        total(weights_at(w, value_of(ratio)), cycle) == 0real,
        zero_cancels(api, cycle, ratio),
        is_number(ratio),
        value_of(ratio) < value_of(ratio1),
    ensures
        run_so_far(
            api,
            g,
            w,
            ratio0,
            ratio,
            cycle,
            chain.push(Standing { vals: values(dist), ratio, cycle }),
        ),
{
    let before = chain.last();
    let after = Standing { vals: values(dist), ratio, cycle };
    let lab = Labelling { vals: values(dist), pred };
    assert(howard_outcome(
        before.vals,
        weights_at(w, value_of(before.ratio)),
        graph_adjacency(g),
        lab,
        Some(after.cycle),
    ) && after.vals == lab.vals);
    assert(improves_to(api, g, w, before, after));
    let longer = chain.push(after);
    assert forall|i: int| 0 <= i < longer.len() - 1 implies #[trigger] lawler_step(
        api,
        g,
        w,
        longer,
        i,
    ) by {
        if i < chain.len() - 1 {
            assert(lawler_step(api, g, w, chain, i));
        }
    }
}

/// A step of `improve` that finds no cycle ends the course of `run`.
proof fn lemma_run_ends<P: ParametricAPI>(
    api: P,
    g: Digraph,
    w: spec_fn(real, EdgeRef) -> real,
    dist0: Seq<BigRational>,
    ratio0: BigRational,
    dist1: Seq<BigRational>,
    dist: Seq<BigRational>,
    pred: Seq<Option<EdgeRef>>,
    ratio: BigRational,
    cycle: Seq<EdgeRef>,
    chain: Seq<Standing>,
)
    requires
        describes(api, g, w),
        chain.len() >= 1,
        chain[0] == (Standing { vals: values(dist0), ratio: ratio0, cycle: Seq::empty() }),
        chain.last() == (Standing { vals: values(dist1), ratio, cycle }),
        run_so_far(api, g, w, ratio0, ratio, cycle, chain),
        cycle.len() == 0 ==> ratio == ratio0 && dist1 == dist0,
        search_result(g, weights_at(w, value_of(ratio)), dist1, dist, pred, None),
    ensures
        run_result(api, g, w, dist0, ratio0, dist, pred, ratio, cycle),
{
    crate::potential::lemma_respects_none(g, dist, weights_at(w, value_of(ratio)));
    if respects(g, dist0, weights_at(w, value_of(ratio0))) {
        crate::potential::lemma_respects_none(g, dist0, weights_at(w, value_of(ratio0)));
    }
    assert(lawler_steps(api, g, w, chain));
    lemma_ratios_fall(api, g, w, chain);
}

/// From one standing of Lawler's iteration to a later one the ratio falls.
pub proof fn lemma_ratio_falls_between<P: ParametricAPI>(
    api: P,
    g: Digraph,
    w: spec_fn(real, EdgeRef) -> real,
    chain: Seq<Standing>,
    i: int,
    j: int,
)
    requires
        lawler_steps(api, g, w, chain),
        0 <= i <= j < chain.len(),
    ensures
        value_of(chain[j].ratio) <= value_of(chain[i].ratio),
        i < j ==> value_of(chain[j].ratio) < value_of(chain[i].ratio),
    decreases j - i,
{
    if i < j {
        lemma_ratio_falls_between(api, g, w, chain, i, j - 1);
        assert(lawler_step(api, g, w, chain, j - 1));
    }
}

/// Along the steps of Lawler's iteration the ratios fall.
pub proof fn lemma_ratios_fall<P: ParametricAPI>(
    api: P,
    g: Digraph,
    w: spec_fn(real, EdgeRef) -> real,
    chain: Seq<Standing>,
)
    requires
        lawler_steps(api, g, w, chain),
    ensures
        ratios_fall(chain),
{
    assert forall|i: int, j: int| 0 <= i < j < chain.len() implies value_of(
        (#[trigger] chain[j]).ratio,
    ) < value_of((#[trigger] chain[i]).ratio) by {
        lemma_ratio_falls_between(api, g, w, chain, i, j);
    }
}

/// `api` poses the ratio problem of `cost` over `time` on `g`:
/// - no edge takes negative time;
/// - what `distance` returns for an edge under a ratio `r` is the number
///   `cost(e) - r * time(e)`;
/// - what `zero_cancel` returns for a closed walk is a number `r` with
///   `r * time(walk) == cost(walk)`.
pub open spec fn ratio_problem<P: ParametricAPI>(
    api: P,
    g: Digraph,
    cost: spec_fn(EdgeRef) -> real,
    time: spec_fn(EdgeRef) -> real,
) -> bool {
    &&& forall|e: EdgeRef| #[trigger] is_edge(g, e) ==> time(e) >= 0real
    &&& forall|ratio: BigRational, e: EdgeRef, d: BigRational|
        is_number(ratio) && is_edge(g, e) && #[trigger] call_ensures(
            P::distance,
            (&api, &ratio, &e),
            d,
        ) ==> is_number(d) && value_of(d) == cost(e) - value_of(ratio) * time(e)
    &&& forall|cycle: &[EdgeRef], zero: BigRational|
        closed_walk_in(g, cycle@) && #[trigger] call_ensures(P::zero_cancel, (&api, cycle), zero)
            ==> is_number(zero) && value_of(zero) * total(time, cycle@) == total(cost, cycle@)
}

/// The weights `cost(e) - r * time(e)`, as a function of the ratio and the
/// edge.
pub open spec fn reweighted(cost: spec_fn(EdgeRef) -> real, time: spec_fn(EdgeRef) -> real) -> spec_fn(
    real,
    EdgeRef,
) -> real {
    |r: real, e: EdgeRef| cost(e) - r * time(e)
}

/// Under the weights `cost(e) - r * time(e)` a path weighs its cost less `r`
/// times its time.
pub proof fn lemma_total_reweighted(
    cost: spec_fn(EdgeRef) -> real,
    time: spec_fn(EdgeRef) -> real,
    r: real,
    path: Seq<EdgeRef>,
)
    ensures
        total(weights_at(reweighted(cost, time), r), path) == total(cost, path) - r * total(
            time,
            path,
        ),
    decreases path.len(),
{
    if path.len() > 0 {
        lemma_total_reweighted(cost, time, r, path.drop_last());
        let a = total(time, path.drop_last());
        let b = time(path.last());
        assert(r * (a + b) == r * a + r * b) by (nonlinear_arith);
    } else {
        assert(r * 0real == 0real) by (nonlinear_arith);
    }
}

/// A client that poses a ratio problem conforms: the weights
/// `cost(e) - r * time(e)` describe it.
pub proof fn lemma_ratio_problem_conforms<P: ParametricAPI>(
    api: P,
    g: Digraph,
    cost: spec_fn(EdgeRef) -> real,
    time: spec_fn(EdgeRef) -> real,
)
    requires
        ratio_problem(api, g, cost, time),
    ensures
        describes(api, g, reweighted(cost, time)),
        conforming(api, g),
{
    let w = reweighted(cost, time);
    assert forall|low: real, high: real, e: EdgeRef| low <= high && is_edge(g, e) implies #[trigger]
        w(low, e) >= #[trigger] w(high, e) by {
        let t = time(e);
        assert(low * t <= high * t) by (nonlinear_arith)
            requires
                low <= high,
                t >= 0real,
        ;
    }
    assert forall|cycle: &[EdgeRef], zero: BigRational|
        closed_walk_in(g, cycle@) && #[trigger] call_ensures(
            P::zero_cancel,
            (&api, cycle),
            zero,
        ) implies is_number(zero) && total(weights_at(w, value_of(zero)), cycle@) == 0real by {
        lemma_total_reweighted(cost, time, value_of(zero), cycle@);
    }
    assert(describes(api, g, w));
}

/// In a ratio problem, a ratio under which no cycle weighs less than zero is
/// a lower bound of the cycle ratios: every closed walk costs at least that
/// ratio times its time.
pub proof fn lemma_ratio_is_lower_bound(
    g: Digraph,
    cost: spec_fn(EdgeRef) -> real,
    time: spec_fn(EdgeRef) -> real,
    r: real,
    path: Seq<EdgeRef>,
)
    requires
        !negative_cycle_under(g, weights_at(reweighted(cost, time), r)),
        closed_walk_in(g, path),
    ensures
        total(cost, path) >= r * total(time, path),
{
    lemma_total_reweighted(cost, time, r, path);
}

} // verus!
