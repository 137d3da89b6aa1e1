//! The paths of a graph up to a given length are finitely many.

use crate::digraph::{graph_adjacency, is_edge, Digraph, EdgeRef};
use vstd::prelude::*;

verus! {

/// The edges of `g`.
pub open spec fn edge_set(g: Digraph) -> Set<EdgeRef> {
    Set::new(|e: EdgeRef| is_edge(g, e))
}

/// `path` is a sequence of edges of `g`.
pub open spec fn edges_in(g: Digraph, path: Seq<EdgeRef>) -> bool {
    forall|j: int| 0 <= j < path.len() ==> is_edge(g, #[trigger] path[j])
}

/// The sequences of `k` edges of `g`.
pub open spec fn paths_of_len(g: Digraph, k: nat) -> Set<Seq<EdgeRef>> {
    Set::new(|path: Seq<EdgeRef>| path.len() == k && edges_in(g, path))
}

/// The sequences of at most `n` edges of `g`.
pub open spec fn paths_upto(g: Digraph, n: nat) -> Set<Seq<EdgeRef>> {
    Set::new(|path: Seq<EdgeRef>| path.len() <= n && edges_in(g, path))
}

/// The edges listed under the vertices before `k`.
pub open spec fn listed_before(adj: Seq<Seq<EdgeRef>>, k: nat) -> Set<EdgeRef> {
    Set::new(|e: EdgeRef| e.source < k && e.source < adj.len() && adj[e.source as int].contains(e))
}

/// The function that appends `e` to a path.
pub open spec fn appending(e: EdgeRef) -> spec_fn(Seq<EdgeRef>) -> Seq<EdgeRef> {
    |path: Seq<EdgeRef>| path.push(e)
}

/// The function that, for an edge, gives the paths of `shorter` with that
/// edge appended.
pub open spec fn grown_by(shorter: Set<Seq<EdgeRef>>) -> spec_fn(EdgeRef) -> Set<Seq<EdgeRef>> {
    |e: EdgeRef| shorter.map(appending(e))
}

/// Finitely many edges are listed under the vertices before `k`.
pub proof fn lemma_listed_finite(adj: Seq<Seq<EdgeRef>>, k: nat)
    ensures
        listed_before(adj, k).finite(),
    decreases k,
{
    if k == 0 {
        assert(listed_before(adj, k) =~= Set::<EdgeRef>::empty());
    } else {
        let before = listed_before(adj, (k - 1) as nat);
        lemma_listed_finite(adj, (k - 1) as nat);
        if k - 1 < adj.len() {
            let here = adj[k - 1].to_set();
            vstd::seq_lib::seq_to_set_is_finite(adj[k - 1]);
            vstd::set::axiom_set_union_finite(before, here);
            assert(listed_before(adj, k).subset_of(before.union(here)));
            vstd::set_lib::lemma_set_subset_finite(before.union(here), listed_before(adj, k));
        } else {
            assert(listed_before(adj, k) =~= before);
        }
    }
}

/// A graph has finitely many edges.
pub proof fn lemma_edge_set_finite(g: Digraph)
    ensures
        edge_set(g).finite(),
{
    let adj = graph_adjacency(g);
    lemma_listed_finite(adj, adj.len());
    assert(edge_set(g) =~= listed_before(adj, adj.len()));
}

/// A graph has finitely many paths of a given length.
pub proof fn lemma_paths_of_len_finite(g: Digraph, k: nat)
    ensures
        paths_of_len(g, k).finite(),
    decreases k,
{
    if k == 0 {
        let none = Set::<Seq<EdgeRef>>::empty().insert(Seq::<EdgeRef>::empty());
        assert forall|path: Seq<EdgeRef>| paths_of_len(g, k).contains(path) implies none.contains(
            path,
        ) by {
            assert(path =~= Seq::<EdgeRef>::empty());
        }
        assert(paths_of_len(g, k).subset_of(none));
        vstd::set_lib::lemma_set_subset_finite(none, paths_of_len(g, k));
    } else {
        let shorter = paths_of_len(g, (k - 1) as nat);
        lemma_paths_of_len_finite(g, (k - 1) as nat);
        lemma_edge_set_finite(g);
        let family = edge_set(g).map(grown_by(shorter));
        edge_set(g).lemma_map_finite(grown_by(shorter));
        assert forall|s: Set<Seq<EdgeRef>>| family.contains(s) implies #[trigger] s.finite() by {
            let e = choose|e: EdgeRef| edge_set(g).contains(e) && s == grown_by(shorter)(e);
            shorter.lemma_map_finite(appending(e));
        }
        family.lemma_flatten_finite();
        assert forall|path: Seq<EdgeRef>|
            paths_of_len(g, k).contains(path) implies family.flatten().contains(path) by {
            let e = path.last();
            let front = path.drop_last();
            assert(is_edge(g, path[path.len() - 1]));
            assert forall|j: int| 0 <= j < front.len() implies is_edge(g, #[trigger] front[j]) by {
                assert(front[j] == path[j]);
            }
            assert(shorter.contains(front));
            assert(path =~= appending(e)(front));
            let grown = grown_by(shorter)(e);
            assert(grown.contains(path));
            assert(edge_set(g).contains(e));
            assert(family.contains(grown));
        }
        assert(paths_of_len(g, k).subset_of(family.flatten()));
        vstd::set_lib::lemma_set_subset_finite(family.flatten(), paths_of_len(g, k));
    }
}

/// A graph has finitely many paths of at most a given length.
pub proof fn lemma_paths_upto_finite(g: Digraph, n: nat)
    ensures
        paths_upto(g, n).finite(),
    decreases n,
{
    lemma_paths_of_len_finite(g, n);
    if n == 0 {
        assert(paths_upto(g, n) =~= paths_of_len(g, n));
    } else {
        lemma_paths_upto_finite(g, (n - 1) as nat);
        let fewer = paths_upto(g, (n - 1) as nat);
        vstd::set::axiom_set_union_finite(fewer, paths_of_len(g, n));
        assert(paths_upto(g, n) =~= fewer.union(paths_of_len(g, n)));
    }
}

} // verus!
