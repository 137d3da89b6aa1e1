use netoptim_rs::digraph::EdgeRef;
use netoptim_rs::neg_cycle::NegCycleFinder;
use num::bigint::BigInt;
use num::BigRational;
use petgraph::graph::{DiGraph, EdgeIndex, NodeIndex};

fn q(numer: i64, denom: i64) -> BigRational {
    BigRational::new(BigInt::from(numer), BigInt::from(denom))
}

fn zeros(n: usize) -> Vec<BigRational> {
    vec![q(0, 1); n]
}

fn weight_of(graph: &DiGraph<(), BigRational>, e: EdgeRef) -> BigRational {
    graph[EdgeIndex::new(e.id())].clone()
}

fn cycle_weight(graph: &DiGraph<(), BigRational>, cycle: &[EdgeRef]) -> BigRational {
    let mut sum = q(0, 1);
    for e in cycle {
        sum += weight_of(graph, *e);
    }
    sum
}

fn is_feasible(graph: &DiGraph<(), BigRational>, dist: &[BigRational]) -> bool {
    graph.edge_indices().all(|ix| {
        let (u, v) = graph.edge_endpoints(ix).unwrap();
        dist[v.index()] <= &dist[u.index()] + &graph[ix]
    })
}

fn nine_node_graph() -> DiGraph<(), BigRational> {
    let mut graph = DiGraph::new();
    let a = graph.add_node(());
    let b = graph.add_node(());
    let c = graph.add_node(());
    let d = graph.add_node(());
    let e = graph.add_node(());
    let f = graph.add_node(());
    let g = graph.add_node(());
    let h = graph.add_node(());
    let i = graph.add_node(());
    graph.add_edge(a, b, q(1, 1));
    graph.add_edge(a, c, q(1, 1));
    graph.add_edge(b, d, q(1, 1));
    graph.add_edge(c, d, q(1, 1));
    graph.add_edge(d, e, q(-3, 1));
    graph.add_edge(d, f, q(1, 1));
    graph.add_edge(e, g, q(1, 1));
    graph.add_edge(f, g, q(1, 1));
    graph.add_edge(g, h, q(1, 1));
    graph.add_edge(h, i, q(1, 1));
    graph.add_edge(i, f, q(1, 1));
    graph
}

#[test]
fn neg_cycle_it_works() {
    let result = 2 + 2;
    assert_eq!(result, 4);
}

#[test]
fn test_neg_cycle1() {
    let digraph = DiGraph::<(), BigRational>::from_edges([
        (0, 1, q(1, 1)),
        (0, 2, q(1, 1)),
        (0, 3, q(1, 1)),
        (1, 3, q(1, 1)),
        (2, 1, q(1, 1)),
        (3, 2, q(-3, 1)),
    ]);

    let mut ncf = NegCycleFinder::new(&digraph);
    let mut dist = [q(0, 1), q(0, 1), q(0, 1), q(0, 1)];
    let result = ncf.howard(&mut dist, |e| weight_of(&digraph, e));
    assert!(result.is_some());
}

#[test]
fn neg_cycle_test_neg_cycle2() {
    let graph = nine_node_graph();
    let mut ncf = NegCycleFinder::new(&graph);
    let mut dist = [
        q(0, 1),
        q(0, 1),
        q(0, 1),
        q(0, 1),
        q(0, 1),
        q(0, 1),
        q(0, 1),
        q(0, 1),
        q(0, 1),
    ];
    let result = ncf.howard(&mut dist, |e| weight_of(&graph, e));
    assert!(result.is_none());
}

#[test]
fn test_neg_cycle_no_edges() {
    let digraph = DiGraph::<(), BigRational>::new();
    let mut ncf = NegCycleFinder::new(&digraph);
    let mut dist = [];
    let result = ncf.howard(&mut dist, |e| weight_of(&digraph, e));
    assert!(result.is_none());
}

#[test]
fn test_neg_cycle_self_loop() {
    let mut digraph = DiGraph::<(), BigRational>::new();
    let n0 = digraph.add_node(());
    digraph.add_edge(n0, n0, q(-1, 1));

    let mut ncf = NegCycleFinder::new(&digraph);
    let mut dist = [q(0, 1)];
    let result = ncf.howard(&mut dist, |e| weight_of(&digraph, e));
    assert!(result.is_some());
    let cycle = result.unwrap();
    assert_eq!(cycle.len(), 1);
    assert_eq!(cycle[0].source(), n0.index());
    assert_eq!(cycle[0].target(), n0.index());
}

#[test]
fn test_neg_cycle_multiple_cycles() {
    let digraph = DiGraph::<(), BigRational>::from_edges([
        (0, 1, q(1, 1)),
        (1, 0, q(-2, 1)),
        (2, 3, q(1, 1)),
        (3, 2, q(-2, 1)),
        (0, 2, q(1, 1)),
    ]);

    let mut ncf = NegCycleFinder::new(&digraph);
    let mut dist = [q(0, 1), q(0, 1), q(0, 1), q(0, 1)];
    let result = ncf.howard(&mut dist, |e| weight_of(&digraph, e));
    assert!(result.is_some());
    let cycle = result.unwrap();
    let weight = cycle_weight(&digraph, &cycle);
    assert!(weight < q(0, 1));
}

#[test]
fn test_neg_cycle_unreachable_cycle() {
    let digraph = DiGraph::<(), BigRational>::from_edges([
        (0, 1, q(1, 1)),
        (1, 2, q(1, 1)),
        (2, 0, q(-3, 1)),
        (3, 4, q(1, 1)),
        (4, 3, q(-2, 1)),
    ]);

    let mut ncf = NegCycleFinder::new(&digraph);
    let mut dist = [q(0, 1), q(0, 1), q(0, 1), q(0, 1), q(0, 1)];
    let result = ncf.howard(&mut dist, |e| weight_of(&digraph, e));
    assert!(result.is_some());
    let cycle = result.unwrap();
    let weight = cycle_weight(&digraph, &cycle);
    assert!(weight < q(0, 1));
    let expected_cycle_nodes: Vec<NodeIndex> =
        cycle.iter().map(|e| NodeIndex::new(e.source())).collect();
    assert!(expected_cycle_nodes.contains(&NodeIndex::new(0)));
    assert!(expected_cycle_nodes.contains(&NodeIndex::new(1)));
    assert!(expected_cycle_nodes.contains(&NodeIndex::new(2)));
    assert!(!expected_cycle_nodes.contains(&NodeIndex::new(3)));
    assert!(!expected_cycle_nodes.contains(&NodeIndex::new(4)));
}

#[test]
fn neg_cycle_ai_it_works() {
    let result = 2 + 2;
    assert_eq!(result, 4);
}

#[test]
fn test_neg_cycle() {
    let digraph = DiGraph::<(), BigRational>::from_edges([
        (0, 1, q(1, 1)),
        (0, 2, q(1, 1)),
        (0, 3, q(1, 1)),
        (1, 3, q(1, 1)),
        (2, 1, q(1, 1)),
        (3, 2, q(-3, 1)),
    ]);

    let mut ncf = NegCycleFinder::new(&digraph);
    let mut dist = [q(0, 1), q(0, 1), q(0, 1), q(0, 1)];
    let result = ncf.howard(&mut dist, |e| weight_of(&digraph, e));
    assert!(result.is_some());
}

#[test]
fn neg_cycle_ai_test_neg_cycle2() {
    let graph = nine_node_graph();
    let mut ncf = NegCycleFinder::new(&graph);
    let mut dist = zeros(9);
    let result = ncf.howard(&mut dist, |e| weight_of(&graph, e));
    assert!(result.is_none());
}

#[test]
fn test_neg_cycle_multiple_neg_cycles() {
    let digraph = DiGraph::<(), BigRational>::from_edges([
        (0, 1, q(1, 1)),
        (1, 0, q(-2, 1)),
        (2, 3, q(1, 1)),
        (3, 2, q(-3, 1)),
    ]);

    let mut ncf = NegCycleFinder::new(&digraph);
    let mut dist = [q(0, 1), q(0, 1), q(0, 1), q(0, 1)];
    let result = ncf.howard(&mut dist, |e| weight_of(&digraph, e));
    assert!(result.is_some());
    let cycle = result.unwrap();
    let weight = cycle_weight(&digraph, &cycle);
    assert!(weight < q(0, 1));
}

#[test]
fn test_neg_cycle_not_reachable() {
    let digraph = DiGraph::<(), BigRational>::from_edges([
        (0, 1, q(1, 1)),
        (2, 3, q(-1, 1)),
        (3, 2, q(-1, 1)),
    ]);

    let mut ncf = NegCycleFinder::new(&digraph);
    let mut dist = [q(0, 1), q(0, 1), q(0, 1), q(0, 1)];
    let result = ncf.howard(&mut dist, |e| weight_of(&digraph, e));
    assert!(result.is_some());
}

#[test]
fn howard_triangle_weighs_minus_one() {
    let digraph = DiGraph::<(), BigRational>::from_edges([
        (0, 1, q(1, 1)),
        (1, 2, q(1, 1)),
        (2, 0, q(-3, 1)),
    ]);
    let mut ncf = NegCycleFinder::new(&digraph);
    let mut dist = zeros(3);
    let cycle = ncf.howard(&mut dist, |e| weight_of(&digraph, e)).unwrap();
    assert_eq!(cycle.len(), 3);
    assert_eq!(cycle_weight(&digraph, &cycle), q(-1, 1));
}

#[test]
fn howard_none_leaves_feasible_potential() {
    let digraph = DiGraph::<(), BigRational>::from_edges([
        (0, 1, q(1, 1)),
        (1, 2, q(1, 1)),
        (0, 2, q(3, 1)),
    ]);
    let mut ncf = NegCycleFinder::new(&digraph);
    let mut dist = vec![q(0, 1), q(5, 1), q(9, 1)];
    let result = ncf.howard(&mut dist, |e| weight_of(&digraph, e));
    assert!(result.is_none());
    assert!(is_feasible(&digraph, &dist));
    assert_eq!(dist, vec![q(0, 1), q(1, 1), q(2, 1)]);
}

#[test]
fn howard_without_negative_cycle_from_zero_potential() {
    let digraph = DiGraph::<(), BigRational>::from_edges([
        (0, 1, q(1, 1)),
        (1, 2, q(1, 1)),
        (0, 2, q(3, 1)),
    ]);
    let mut ncf = NegCycleFinder::new(&digraph);
    let mut dist = zeros(3);
    let result = ncf.howard(&mut dist, |e| weight_of(&digraph, e));
    assert!(result.is_none());
    assert!(is_feasible(&digraph, &dist));
    assert_eq!(dist, zeros(3));
}

#[test]
fn howard_on_two_disjoint_cycles_returns_a_negative_one() {
    let digraph = DiGraph::<(), BigRational>::from_edges([
        (0, 1, q(1, 1)),
        (1, 0, q(-2, 1)),
        (2, 3, q(1, 1)),
        (3, 2, q(-2, 1)),
    ]);
    let mut ncf = NegCycleFinder::new(&digraph);
    let mut dist = zeros(4);
    let cycle = ncf.howard(&mut dist, |e| weight_of(&digraph, e)).unwrap();
    assert!(cycle_weight(&digraph, &cycle) < q(0, 1));
    assert_eq!(cycle, vec![EdgeRef::new(0, 0, 1), EdgeRef::new(1, 1, 0)]);
}

#[test]
fn howard_cycle_runs_along_the_edges() {
    let digraph = DiGraph::<(), BigRational>::from_edges([
        (0, 1, q(1, 2)),
        (1, 2, q(1, 3)),
        (2, 3, q(1, 1)),
        (3, 1, q(-3, 2)),
    ]);
    let mut ncf = NegCycleFinder::new(&digraph);
    let mut dist = zeros(4);
    let cycle = ncf.howard(&mut dist, |e| weight_of(&digraph, e)).unwrap();
    assert_eq!(cycle.len(), 3);
    for j in 0..cycle.len() {
        let next = cycle[(j + 1) % cycle.len()];
        assert_eq!(cycle[j].target(), next.source());
    }
    assert_eq!(cycle_weight(&digraph, &cycle), q(-1, 6));
}

#[test]
fn howard_cycle_is_simple_and_in_the_policy() {
    let digraph = DiGraph::<(), BigRational>::from_edges([
        (0, 1, q(1, 1)),
        (1, 0, q(-2, 1)),
        (2, 3, q(1, 1)),
        (3, 2, q(-2, 1)),
    ]);
    let mut ncf = NegCycleFinder::new(&digraph);
    let mut dist = zeros(4);
    let cycle = ncf.howard(&mut dist, |e| weight_of(&digraph, e)).unwrap();
    for (j, e) in cycle.iter().enumerate() {
        assert_eq!(ncf.pred[e.target()], Some(*e));
        let (u, v) = digraph.edge_endpoints(EdgeIndex::new(e.id())).unwrap();
        assert_eq!((u.index(), v.index()), (e.source(), e.target()));
        for other in &cycle[j + 1..] {
            assert_ne!(e.target(), other.target());
        }
    }
}

#[test]
fn howard_on_feasible_potential_changes_nothing() {
    let digraph = DiGraph::<(), BigRational>::from_edges([
        (0, 1, q(1, 1)),
        (1, 2, q(-1, 2)),
    ]);
    let mut ncf = NegCycleFinder::new(&digraph);
    let mut dist = vec![q(0, 1), q(1, 1), q(1, 2)];
    let result = ncf.howard(&mut dist, |e| weight_of(&digraph, e));
    assert!(result.is_none());
    assert_eq!(dist, vec![q(0, 1), q(1, 1), q(1, 2)]);
}

#[test]
fn relax_lowers_along_edges_in_one_pass() {
    let digraph = DiGraph::<(), BigRational>::from_edges([
        (0, 1, q(-1, 1)),
        (1, 2, q(-1, 3)),
    ]);
    let mut ncf = NegCycleFinder::new(&digraph);
    let mut dist = zeros(3);
    let changed = ncf.relax(&mut dist, |e| weight_of(&digraph, e));
    assert!(changed);
    assert_eq!(dist, vec![q(0, 1), q(-1, 1), q(-4, 3)]);
    assert_eq!(ncf.pred[0], None);
    assert_eq!(ncf.pred[1], Some(EdgeRef::new(0, 0, 1)));
    assert_eq!(ncf.pred[2], Some(EdgeRef::new(1, 1, 2)));
    let again = ncf.relax(&mut dist, |e| weight_of(&digraph, e));
    assert!(!again);
    assert_eq!(dist, vec![q(0, 1), q(-1, 1), q(-4, 3)]);
}

#[test]
fn relax_keeps_an_equal_potential() {
    let digraph = DiGraph::<(), BigRational>::from_edges([(0, 1, q(2, 4))]);
    let mut ncf = NegCycleFinder::new(&digraph);
    let mut dist = vec![q(0, 1), q(1, 2)];
    let changed = ncf.relax(&mut dist, |e| weight_of(&digraph, e));
    assert!(!changed);
    assert_eq!(ncf.pred[1], None);
}

#[test]
fn find_cycle_on_empty_policy_is_none() {
    let digraph = DiGraph::<(), BigRational>::from_edges([(0, 1, q(1, 1)), (1, 0, q(1, 1))]);
    let ncf = NegCycleFinder::new(&digraph);
    assert_eq!(ncf.find_cycle(), None);
}

#[test]
fn find_cycle_returns_a_vertex_of_the_cycle() {
    let digraph = DiGraph::<(), BigRational>::from_edges([
        (0, 1, q(1, 1)),
        (1, 2, q(1, 1)),
        (2, 1, q(1, 1)),
    ]);
    let mut ncf = NegCycleFinder::new(&digraph);
    ncf.pred[1] = Some(EdgeRef::new(2, 2, 1));
    ncf.pred[2] = Some(EdgeRef::new(1, 1, 2));
    assert_eq!(ncf.find_cycle(), Some(1));
    ncf.pred[1] = Some(EdgeRef::new(0, 0, 1));
    assert_eq!(ncf.find_cycle(), None);
}

#[test]
fn find_cycle_returns_where_the_first_chain_enters_the_cycle() {
    let digraph = DiGraph::<(), BigRational>::from_edges([
        (3, 0, q(1, 1)),
        (2, 3, q(1, 1)),
        (1, 2, q(1, 1)),
        (3, 1, q(1, 1)),
        (4, 4, q(1, 1)),
    ]);
    let mut ncf = NegCycleFinder::new(&digraph);
    ncf.pred[0] = Some(EdgeRef::new(0, 3, 0));
    ncf.pred[3] = Some(EdgeRef::new(1, 2, 3));
    ncf.pred[2] = Some(EdgeRef::new(2, 1, 2));
    ncf.pred[1] = Some(EdgeRef::new(3, 3, 1));
    ncf.pred[4] = Some(EdgeRef::new(4, 4, 4));
    assert_eq!(ncf.find_cycle(), Some(3));
}

#[test]
fn neg_cycle_finder_howard_empty_graph() {
    let digraph = DiGraph::<(), BigRational>::new();
    let mut ncf = NegCycleFinder::new(&digraph);
    let mut dist: [BigRational; 0] = [];
    assert!(ncf.howard(&mut dist, |e| weight_of(&digraph, e)).is_none());
}

#[test]
fn howard_returns_the_first_cycle_of_the_policy_in_edge_direction() {
    let digraph = DiGraph::<(), BigRational>::from_edges([
        (0, 1, q(1, 1)),
        (1, 2, q(1, 1)),
        (2, 0, q(-3, 1)),
    ]);
    let mut ncf = NegCycleFinder::new(&digraph);
    let mut dist = zeros(3);
    let cycle = ncf.howard(&mut dist, |e| weight_of(&digraph, e)).unwrap();
    assert_eq!(
        cycle,
        vec![EdgeRef::new(0, 0, 1), EdgeRef::new(1, 1, 2), EdgeRef::new(2, 2, 0)]
    );
    assert_eq!(dist, vec![q(-4, 1), q(-2, 1), q(-1, 1)]);
}

#[test]
fn new_finder_has_one_empty_entry_for_each_vertex() {
    let digraph = DiGraph::<(), BigRational>::from_edges([(0, 3, q(1, 1))]);
    let ncf = NegCycleFinder::new(&digraph);
    assert_eq!(ncf.pred, vec![None, None, None, None]);
}

#[test]
fn edges_are_scanned_in_the_order_of_the_graph() {
    let digraph = DiGraph::<(), BigRational>::from_edges([
        (0, 1, q(-1, 1)),
        (0, 1, q(-2, 1)),
    ]);
    let mut ncf = NegCycleFinder::new(&digraph);
    let mut dist = zeros(2);
    let mut seen = std::cell::RefCell::new(Vec::new());
    let changed = ncf.relax(&mut dist, |e| {
        seen.borrow_mut().push(e);
        weight_of(&digraph, e)
    });
    assert!(changed);
    let order: Vec<usize> = digraph
        .edges(NodeIndex::new(0))
        .map(|e| petgraph::visit::EdgeRef::id(&e).index())
        .collect();
    let scanned: Vec<usize> = seen.get_mut().iter().map(|e| e.id()).collect();
    assert_eq!(scanned, order);
    assert_eq!(dist[1], q(-2, 1));
    assert_eq!(ncf.pred[1], Some(EdgeRef::new(1, 0, 1)));
}

#[test]
fn edge_ref_holds_what_it_was_made_of() {
    let e = EdgeRef::new(7, 2, 5);
    assert_eq!(e.id(), 7);
    assert_eq!(e.source(), 2);
    assert_eq!(e.target(), 5);
}

#[test]
fn is_potential_wants_one_number_for_each_vertex() {
    let digraph = DiGraph::<(), BigRational>::from_edges([(0, 1, q(1, 1)), (1, 2, q(1, 1))]);
    let ncf = NegCycleFinder::new(&digraph);
    assert!(ncf.is_potential(&zeros(3)));
    assert!(!ncf.is_potential(&zeros(2)));
    assert!(!ncf.is_potential(&zeros(4)));
    let no_number = BigRational::new_raw(BigInt::from(1), BigInt::from(0));
    assert!(!ncf.is_potential(&[q(0, 1), no_number, q(0, 1)]));
    let upside_down = BigRational::new_raw(BigInt::from(1), BigInt::from(-2));
    assert!(!ncf.is_potential(&[q(0, 1), q(0, 1), upside_down]));
    let not_reduced = BigRational::new_raw(BigInt::from(2), BigInt::from(4));
    assert!(ncf.is_potential(&[q(0, 1), q(0, 1), not_reduced]));
}
