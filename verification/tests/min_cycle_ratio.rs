use netoptim_rs::digraph::EdgeRef;
use netoptim_rs::min_cycle_ratio::{CycleRatio, MinCycleRatioSolver};
use netoptim_rs::parametric::ParametricAPI;
use num::bigint::BigInt;
use num::BigRational;
use petgraph::graph::DiGraph;

fn q(numer: i64, denom: i64) -> BigRational {
    BigRational::new(BigInt::from(numer), BigInt::from(denom))
}

fn two_cycles() -> DiGraph<(), BigRational> {
    DiGraph::<(), BigRational>::from_edges([
        (0, 1, q(0, 1)),
        (1, 0, q(0, 1)),
        (1, 2, q(0, 1)),
        (2, 1, q(0, 1)),
    ])
}

#[test]
fn cycle_ratio_weighs_cost_less_ratio_times_time() {
    let omega = CycleRatio::new(vec![q(2, 1), q(-5, 1)], vec![q(1, 1), q(3, 2)]).unwrap();
    let d = omega.distance(&q(1, 2), &EdgeRef::new(1, 1, 0));
    assert_eq!(d, q(-23, 4));
    let none = omega.distance(&q(1, 2), &EdgeRef::new(7, 1, 0));
    assert_eq!(none, q(0, 1));
}

#[test]
fn cycle_ratio_cancels_at_cost_over_time() {
    let omega = CycleRatio::new(vec![q(2, 1), q(-5, 1)], vec![q(1, 1), q(3, 2)]).unwrap();
    let cycle = [EdgeRef::new(0, 0, 1), EdgeRef::new(1, 1, 0)];
    let zero = omega.zero_cancel(&cycle);
    assert_eq!(zero, q(-6, 5));
    let mut sum = q(0, 1);
    for e in &cycle {
        sum += omega.distance(&zero, e);
    }
    assert_eq!(sum, q(0, 1));
}

#[test]
fn cycle_ratio_wants_numbers_and_positive_times() {
    assert!(CycleRatio::new(vec![q(1, 1)], vec![q(1, 1)]).is_some());
    assert!(CycleRatio::new(vec![q(1, 1)], vec![]).is_none());
    assert!(CycleRatio::new(vec![q(1, 1)], vec![q(0, 1)]).is_none());
    assert!(CycleRatio::new(vec![q(1, 1)], vec![q(-1, 3)]).is_none());
    let no_number = BigRational::new_raw(BigInt::from(1), BigInt::from(0));
    assert!(CycleRatio::new(vec![no_number.clone()], vec![q(1, 1)]).is_none());
    assert!(CycleRatio::new(vec![q(1, 1)], vec![no_number]).is_none());
}

#[test]
fn cycle_ratio_covers_a_graph_with_no_more_edges() {
    let graph = two_cycles();
    let four = CycleRatio::new(vec![q(1, 1); 4], vec![q(1, 1); 4]).unwrap();
    assert!(four.covers_graph(&graph));
    let three = CycleRatio::new(vec![q(1, 1); 3], vec![q(1, 1); 3]).unwrap();
    assert!(!three.covers_graph(&graph));
}

#[test]
fn min_cycle_ratio_finds_the_least_ratio_and_its_cycle() {
    // The cycles have the ratios (2 - 5) / (1 + 2) = -1 and (1 - 9) / (3 + 4) = -8/7.
    let graph = two_cycles();
    let cost = vec![q(2, 1), q(-5, 1), q(1, 1), q(-9, 1)];
    let time = vec![q(1, 1), q(2, 1), q(3, 1), q(4, 1)];
    let mut solver = MinCycleRatioSolver::new(&graph, cost, time).unwrap();
    let mut dist = vec![q(0, 1); 3];
    let mut ratio = q(10, 1);
    let cycle = solver.run(&mut dist, &mut ratio).unwrap();
    assert_eq!(ratio, q(-8, 7));
    let ids: Vec<usize> = cycle.iter().map(|e| e.id()).collect();
    assert!(ids == vec![2, 3] || ids == vec![3, 2]);

    let kept = dist.clone();
    let again = solver.run(&mut dist, &mut ratio).unwrap();
    assert!(again.is_empty());
    assert_eq!(ratio, q(-8, 7));
    assert_eq!(dist, kept);
}

#[test]
fn min_cycle_ratio_leaves_a_ratio_that_no_cycle_beats() {
    let graph = two_cycles();
    let cost = vec![q(2, 1), q(-5, 1), q(1, 1), q(-9, 1)];
    let time = vec![q(1, 1), q(2, 1), q(3, 1), q(4, 1)];
    let mut solver = MinCycleRatioSolver::new(&graph, cost, time).unwrap();
    let mut dist = vec![q(0, 1); 3];
    let mut ratio = q(-2, 1);
    let cycle = solver.run(&mut dist, &mut ratio).unwrap();
    assert!(cycle.is_empty());
    assert_eq!(ratio, q(-2, 1));
    // Under the ratio -2 the edges weigh 4, -1, 7 and -1.
    assert_eq!(dist, vec![q(-2, 1), q(-1, 1), q(0, 1)]);
    let weights = [q(4, 1), q(-1, 1), q(7, 1), q(-1, 1)];
    for ix in graph.edge_indices() {
        let (u, v) = graph.edge_endpoints(ix).unwrap();
        assert!(dist[v.index()] <= &dist[u.index()] + &weights[ix.index()]);
    }
}

#[test]
fn min_cycle_ratio_refuses_what_does_not_fit() {
    let graph = two_cycles();
    assert!(MinCycleRatioSolver::new(&graph, vec![q(1, 1); 3], vec![q(1, 1); 3]).is_none());
    assert!(MinCycleRatioSolver::new(&graph, vec![q(1, 1); 4], vec![q(0, 1); 4]).is_none());
    let mut solver =
        MinCycleRatioSolver::new(&graph, vec![q(1, 1); 4], vec![q(1, 1); 4]).unwrap();
    let mut short = vec![q(0, 1); 2];
    let mut ratio = q(5, 1);
    assert!(solver.run(&mut short, &mut ratio).is_none());
    assert_eq!(ratio, q(5, 1));
    assert_eq!(short, vec![q(0, 1); 2]);
    let mut dist = vec![q(0, 1); 3];
    let mut no_number = BigRational::new_raw(BigInt::from(1), BigInt::from(0));
    assert!(solver.run(&mut dist, &mut no_number).is_none());
    let cycle = solver.run(&mut dist, &mut ratio).unwrap();
    assert_eq!(cycle.len(), 2);
    assert_eq!(ratio, q(1, 1));
}
