use netoptim_rs::digraph::EdgeRef;
use netoptim_rs::parametric::{MaxParametricSolver, ParametricAPI};
use num::bigint::BigInt;
use num::BigRational;
use petgraph::graph::{DiGraph, EdgeIndex};

fn q(numer: i64, denom: i64) -> BigRational {
    BigRational::new(BigInt::from(numer), BigInt::from(denom))
}

struct TestParametricAPI<'a> {
    graph: &'a DiGraph<(), BigRational>,
}

impl<'a> ParametricAPI for TestParametricAPI<'a> {
    fn distance(&self, ratio: &BigRational, edge: &EdgeRef) -> BigRational {
        &self.graph[EdgeIndex::new(edge.id())] - ratio
    }

    fn zero_cancel(&self, cycle: &[EdgeRef]) -> BigRational {
        let mut sum_a = q(0, 1);
        let mut sum_b = q(0, 1);
        for edge in cycle {
            sum_a += &self.graph[EdgeIndex::new(edge.id())];
            sum_b += q(1, 1);
        }
        sum_a / sum_b
    }
}

/// Cost over time, with the time of an edge one more than its index.
struct CostOverTime<'a> {
    graph: &'a DiGraph<(), BigRational>,
}

impl<'a> CostOverTime<'a> {
    fn time(edge: &EdgeRef) -> BigRational {
        q(edge.id() as i64 + 1, 1)
    }
}

impl<'a> ParametricAPI for CostOverTime<'a> {
    fn distance(&self, ratio: &BigRational, edge: &EdgeRef) -> BigRational {
        &self.graph[EdgeIndex::new(edge.id())] - ratio * Self::time(edge)
    }

    fn zero_cancel(&self, cycle: &[EdgeRef]) -> BigRational {
        let mut cost = q(0, 1);
        let mut time = q(0, 1);
        for edge in cycle {
            cost += &self.graph[EdgeIndex::new(edge.id())];
            time += Self::time(edge);
        }
        cost / time
    }
}

fn is_feasible(
    graph: &DiGraph<(), BigRational>,
    dist: &[BigRational],
    ratio: &BigRational,
) -> bool {
    graph.edge_indices().all(|ix| {
        let (u, v) = graph.edge_endpoints(ix).unwrap();
        dist[v.index()] <= &dist[u.index()] + &graph[ix] - ratio
    })
}

#[test]
fn test_max_parametric_solver_simple_cycle() {
    let digraph = DiGraph::<(), BigRational>::from_edges([
        (0, 1, q(1, 1)),
        (1, 2, q(1, 1)),
        (2, 0, q(-3, 1)),
    ]);

    let mut solver = MaxParametricSolver::new(&digraph, TestParametricAPI { graph: &digraph });
    let mut dist = [q(0, 1), q(0, 1), q(0, 1)];
    let mut ratio = q(0, 1);

    let cycle = solver.run(&mut dist, &mut ratio);
    assert!(!cycle.is_empty());
    assert_eq!(ratio, q(-1, 3));
}

#[test]
fn test_max_parametric_solver_no_cycle() {
    let digraph = DiGraph::<(), BigRational>::from_edges([
        (0, 1, q(1, 1)),
        (1, 2, q(1, 1)),
        (0, 2, q(3, 1)),
    ]);

    let mut solver = MaxParametricSolver::new(&digraph, TestParametricAPI { graph: &digraph });
    let mut dist = [q(0, 1), q(0, 1), q(0, 1)];
    let mut ratio = q(0, 1);

    let cycle = solver.run(&mut dist, &mut ratio);
    assert!(cycle.is_empty());
    assert_eq!(ratio, q(0, 1));
}

#[test]
fn test_max_parametric_solver_multiple_cycles() {
    let digraph = DiGraph::<(), BigRational>::from_edges([
        (0, 1, q(1, 1)),
        (1, 0, q(-2, 1)),
        (2, 3, q(1, 1)),
        (3, 2, q(-4, 1)),
        (0, 2, q(1, 1)),
    ]);

    let mut solver = MaxParametricSolver::new(&digraph, TestParametricAPI { graph: &digraph });
    let mut dist = [q(0, 1), q(0, 1), q(0, 1), q(0, 1)];
    let mut ratio = q(0, 1);

    let cycle = solver.run(&mut dist, &mut ratio);
    assert!(!cycle.is_empty());
    assert_eq!(ratio, q(-3, 2));
}

#[test]
fn test_max_parametric_solver_no_neg_cycle() {
    let digraph = DiGraph::<(), BigRational>::from_edges([
        (0, 1, q(1, 1)),
        (1, 2, q(1, 1)),
        (2, 0, q(1, 1)),
    ]);

    let mut solver = MaxParametricSolver::new(&digraph, TestParametricAPI { graph: &digraph });
    let mut dist = [q(0, 1), q(0, 1), q(0, 1)];
    let mut ratio = q(0, 1);

    let cycle = solver.run(&mut dist, &mut ratio);
    assert!(cycle.is_empty());
}

#[test]
fn test_max_parametric_solver_multiple_neg_cycles() {
    let digraph = DiGraph::<(), BigRational>::from_edges([
        (0, 1, q(1, 1)),
        (1, 0, q(-2, 1)),
        (2, 3, q(1, 1)),
        (3, 2, q(-4, 1)),
    ]);

    let mut solver = MaxParametricSolver::new(&digraph, TestParametricAPI { graph: &digraph });
    let mut dist = [q(0, 1), q(0, 1), q(0, 1), q(0, 1)];
    let mut ratio = q(0, 1);

    let cycle = solver.run(&mut dist, &mut ratio);
    assert!(!cycle.is_empty());
    assert_eq!(ratio, q(-3, 2));
}

#[test]
fn run_converges_on_two_disjoint_cycles_and_is_idempotent() {
    let digraph = DiGraph::<(), BigRational>::from_edges([
        (0, 1, q(1, 1)),
        (1, 0, q(-2, 1)),
        (2, 3, q(1, 1)),
        (3, 2, q(-4, 1)),
    ]);
    let api = TestParametricAPI { graph: &digraph };
    let mut solver = MaxParametricSolver::new(&digraph, api);
    let mut dist = vec![q(0, 1); 4];
    let mut ratio = q(0, 1);

    let cycle = solver.run(&mut dist, &mut ratio);
    assert_eq!(ratio, q(-3, 2));
    assert_eq!(cycle.len(), 2);
    assert_eq!(solver.omega.zero_cancel(&cycle), ratio);
    assert!(is_feasible(&digraph, &dist, &ratio));

    let kept = dist.clone();
    let again = solver.run(&mut dist, &mut ratio);
    assert!(again.is_empty());
    assert_eq!(ratio, q(-3, 2));
    assert_eq!(dist, kept);
}

#[test]
fn run_on_two_equal_cycles_ends_at_minus_one_half() {
    let digraph = DiGraph::<(), BigRational>::from_edges([
        (0, 1, q(1, 1)),
        (1, 0, q(-2, 1)),
        (2, 3, q(1, 1)),
        (3, 2, q(-2, 1)),
    ]);
    let mut solver = MaxParametricSolver::new(&digraph, TestParametricAPI { graph: &digraph });
    let mut dist = vec![q(0, 1); 4];
    let mut ratio = q(0, 1);
    let cycle = solver.run(&mut dist, &mut ratio);
    assert!(!cycle.is_empty());
    assert_eq!(ratio, q(-1, 2));
    let again = solver.run(&mut dist, &mut ratio);
    assert!(again.is_empty());
    assert_eq!(ratio, q(-1, 2));
}

#[test]
fn run_on_a_triangle_ends_at_minus_one_third_with_the_triangle() {
    let digraph = DiGraph::<(), BigRational>::from_edges([
        (0, 1, q(1, 1)),
        (1, 2, q(1, 1)),
        (2, 0, q(-3, 1)),
    ]);
    let mut solver = MaxParametricSolver::new(&digraph, TestParametricAPI { graph: &digraph });
    let mut dist = vec![q(0, 1); 3];
    let mut ratio = q(0, 1);
    let cycle = solver.run(&mut dist, &mut ratio);
    assert_eq!(ratio, q(-1, 3));
    assert_eq!(
        cycle,
        vec![EdgeRef::new(0, 0, 1), EdgeRef::new(1, 1, 2), EdgeRef::new(2, 2, 0)]
    );
    assert_eq!(solver.omega.zero_cancel(&cycle), q(-1, 3));
    assert!(is_feasible(&digraph, &dist, &ratio));
}

#[test]
fn improve_lowers_the_ratio_one_cycle_at_a_time() {
    let digraph = DiGraph::<(), BigRational>::from_edges([
        (0, 1, q(1, 1)),
        (1, 0, q(-2, 1)),
        (2, 3, q(1, 1)),
        (3, 2, q(-4, 1)),
    ]);
    let mut solver = MaxParametricSolver::new(&digraph, TestParametricAPI { graph: &digraph });
    let mut dist = vec![q(0, 1); 4];
    let mut ratio = q(0, 1);
    let mut seen = vec![ratio.clone()];
    while let Some(cycle) = solver.improve(&mut dist, &mut ratio) {
        assert!(ratio < *seen.last().unwrap());
        assert_eq!(solver.omega.zero_cancel(&cycle), ratio);
        seen.push(ratio.clone());
    }
    assert_eq!(seen, vec![q(0, 1), q(-1, 2), q(-3, 2)]);
    assert!(is_feasible(&digraph, &dist, &ratio));
}

#[test]
fn run_never_raises_the_ratio() {
    let digraph = DiGraph::<(), BigRational>::from_edges([
        (0, 1, q(1, 1)),
        (1, 2, q(1, 1)),
        (2, 0, q(-3, 1)),
    ]);
    let mut solver = MaxParametricSolver::new(&digraph, TestParametricAPI { graph: &digraph });
    let mut dist = vec![q(0, 1); 3];
    let mut ratio = q(-1, 1);
    let cycle = solver.run(&mut dist, &mut ratio);
    assert!(cycle.is_empty());
    assert_eq!(ratio, q(-1, 1));

    let mut ratio = q(7, 2);
    let cycle = solver.run(&mut dist, &mut ratio);
    assert_eq!(cycle.len(), 3);
    assert_eq!(ratio, q(-1, 3));
    assert!(ratio < q(7, 2));
}

#[test]
fn run_with_a_negative_self_loop_returns_it() {
    let mut digraph = DiGraph::<(), BigRational>::new();
    let n0 = digraph.add_node(());
    digraph.add_edge(n0, n0, q(-5, 7));
    let mut solver = MaxParametricSolver::new(&digraph, TestParametricAPI { graph: &digraph });
    let mut dist = vec![q(0, 1)];
    let mut ratio = q(0, 1);
    let cycle = solver.run(&mut dist, &mut ratio);
    assert_eq!(cycle, vec![EdgeRef::new(0, 0, 0)]);
    assert_eq!(ratio, q(-5, 7));
}

#[test]
fn run_on_an_empty_graph_returns_nothing() {
    let digraph = DiGraph::<(), BigRational>::new();
    let mut solver = MaxParametricSolver::new(&digraph, TestParametricAPI { graph: &digraph });
    let mut dist: Vec<BigRational> = Vec::new();
    let mut ratio = q(2, 3);
    let cycle = solver.run(&mut dist, &mut ratio);
    assert!(cycle.is_empty());
    assert_eq!(ratio, q(2, 3));
}

#[test]
fn run_finds_the_minimum_cost_to_time_ratio() {
    // Edge times are 1, 2, 3, 4; the two cycles have the ratios
    // (2 - 5) / (1 + 2) = -1 and (1 - 9) / (3 + 4) = -8/7.
    let digraph = DiGraph::<(), BigRational>::from_edges([
        (0, 1, q(2, 1)),
        (1, 0, q(-5, 1)),
        (1, 2, q(1, 1)),
        (2, 1, q(-9, 1)),
    ]);
    let mut solver = MaxParametricSolver::new(&digraph, CostOverTime { graph: &digraph });
    let mut dist = vec![q(0, 1); 3];
    let mut ratio = q(10, 1);
    let cycle = solver.run(&mut dist, &mut ratio);
    assert_eq!(ratio, q(-8, 7));
    let ids: Vec<usize> = cycle.iter().map(|e| e.id()).collect();
    assert!(ids == vec![2, 3] || ids == vec![3, 2]);
    assert_eq!(solver.omega.zero_cancel(&cycle), q(-8, 7));
}

#[test]
fn accepts_wants_a_potential_and_a_number() {
    let digraph = DiGraph::<(), BigRational>::from_edges([(0, 1, q(1, 1))]);
    let solver = MaxParametricSolver::new(&digraph, TestParametricAPI { graph: &digraph });
    assert!(solver.accepts(&[q(0, 1), q(1, 3)], &q(-1, 2)));
    assert!(!solver.accepts(&[q(0, 1)], &q(-1, 2)));
    let no_number = BigRational::new_raw(BigInt::from(3), BigInt::from(0));
    assert!(!solver.accepts(&[q(0, 1), q(1, 3)], &no_number));
}

#[test]
fn new_solver_has_an_empty_policy() {
    let digraph = DiGraph::<(), BigRational>::from_edges([
        (0, 1, q(1, 1)),
        (1, 2, q(1, 1)),
        (2, 0, q(-3, 1)),
    ]);
    let solver = MaxParametricSolver::new(&digraph, TestParametricAPI { graph: &digraph });
    assert_eq!(solver.ncf.pred, vec![None, None, None]);
    assert_eq!(solver.ncf.digraph.node_count(), 3);
    assert_eq!(solver.ncf.digraph.edge_count(), 3);
}

/// Weighs as `TestParametricAPI` does, and keeps the ratios it was asked under.
struct Recording<'a> {
    graph: &'a DiGraph<(), BigRational>,
    asked: std::cell::RefCell<Vec<BigRational>>,
}

impl<'a> ParametricAPI for Recording<'a> {
    fn distance(&self, ratio: &BigRational, edge: &EdgeRef) -> BigRational {
        self.asked.borrow_mut().push(ratio.clone());
        &self.graph[EdgeIndex::new(edge.id())] - ratio
    }

    fn zero_cancel(&self, cycle: &[EdgeRef]) -> BigRational {
        let mut sum = q(0, 1);
        for edge in cycle {
            sum += &self.graph[EdgeIndex::new(edge.id())];
        }
        sum / q(cycle.len() as i64, 1)
    }
}

#[test]
fn run_asks_for_weights_under_ratios_that_never_rise() {
    let digraph = DiGraph::<(), BigRational>::from_edges([
        (0, 1, q(1, 1)),
        (1, 0, q(-2, 1)),
        (2, 3, q(1, 1)),
        (3, 2, q(-4, 1)),
        (0, 2, q(1, 1)),
    ]);
    let api = Recording { graph: &digraph, asked: std::cell::RefCell::new(Vec::new()) };
    let mut solver = MaxParametricSolver::new(&digraph, api);
    let mut dist = vec![q(0, 1); 4];
    let mut ratio = q(0, 1);
    let cycle = solver.run(&mut dist, &mut ratio);
    assert!(!cycle.is_empty());
    assert_eq!(ratio, q(-3, 2));
    let asked = solver.omega.asked.borrow();
    assert_eq!(asked.first(), Some(&q(0, 1)));
    assert_eq!(asked.last(), Some(&ratio));
    for pair in asked.windows(2) {
        assert!(pair[1] <= pair[0]);
    }
    let mut distinct: Vec<BigRational> = asked.iter().cloned().collect();
    distinct.dedup();
    for pair in distinct.windows(2) {
        assert!(pair[1] < pair[0]);
    }
}
