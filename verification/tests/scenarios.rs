use bron_kerbosch::graph::Graph;
use bron_kerbosch::search::maximal_cliques;
use bron_kerbosch::vset::VertSet;

fn graph_of(input: &[(u32, u32)]) -> Graph {
    let edges: Vec<(u32, u32)> = input.to_vec();
    Graph::from_edges(&edges)
}

fn sorted_cliques(g: &Graph, min_size: usize) -> Vec<Vec<u32>> {
    let mut out = maximal_cliques(g, min_size);
    out.sort();
    out
}

/// Two disjoint triangles: each is the one maximal clique of its component.
#[test]
fn two_disjoint_triangles() {
    let graph = graph_of(&[(1, 2), (1, 3), (2, 3), (4, 5), (4, 6), (5, 6)]);
    let result = sorted_cliques(&graph, 2);
    assert_eq!(result, vec![vec![1, 2, 3], vec![4, 5, 6]]);
}

/// A single edge: one clique of two, and nothing at threshold three.
#[test]
fn single_edge() {
    let graph = graph_of(&[(1, 2)]);
    assert_eq!(sorted_cliques(&graph, 2), vec![vec![1, 2]]);
    let empty: Vec<Vec<u32>> = Vec::new();
    assert_eq!(sorted_cliques(&graph, 3), empty);
}

/// An empty graph reports nothing at any positive threshold.
#[test]
fn empty_graph() {
    let graph = Graph::new();
    let empty: Vec<Vec<u32>> = Vec::new();
    assert_eq!(sorted_cliques(&graph, 1), empty);
    assert_eq!(sorted_cliques(&graph, 5), empty);
}

/// Threshold zero needs no special case: on an empty graph the empty clique
/// is maximal and is reported; elsewhere the usual cliques come back.
#[test]
fn threshold_zero() {
    let graph = Graph::new();
    let empty_clique: Vec<u32> = Vec::new();
    assert_eq!(sorted_cliques(&graph, 0), vec![empty_clique]);

    let edge = graph_of(&[(1, 2)]);
    assert_eq!(sorted_cliques(&edge, 0), vec![vec![1, 2]]);
    assert_eq!(sorted_cliques(&edge, 1), vec![vec![1, 2]]);
}

/// Every reported clique is pairwise adjacent in the graph.
#[test]
fn reported_cliques_are_valid() {
    let graph = graph_of(&[(1, 2), (1, 3), (2, 3), (3, 4), (4, 5), (4, 6), (5, 6), (2, 6)]);
    let result = sorted_cliques(&graph, 2);
    assert!(!result.is_empty());
    for clique in &result {
        for a in clique {
            for b in clique {
                if a != b {
                    assert!(graph.neighbors(*a).contains(*b));
                    assert!(graph.neighbors(*b).contains(*a));
                }
            }
        }
    }
}

/// No vertex outside a reported clique is adjacent to all of its members.
#[test]
fn reported_cliques_are_maximal() {
    let graph = graph_of(&[(1, 2), (1, 3), (2, 3), (3, 4), (4, 5), (4, 6), (5, 6), (2, 6)]);
    let result = sorted_cliques(&graph, 2);
    let vertices = graph.vertex_set().to_vec();
    for clique in &result {
        for v in &vertices {
            if !clique.contains(v) {
                let extends_all = clique.iter().all(|a| graph.neighbors(*v).contains(*a));
                assert!(!extends_all);
            }
        }
    }
}

/// The graph handed to the search is identical before and after the call.
#[test]
fn graph_not_mutated() {
    let graph = graph_of(&[(1, 2), (1, 3), (2, 3), (3, 4), (4, 5), (4, 6), (5, 6)]);
    let before = graph.clone();
    let r = VertSet::new();
    let mut p = graph.vertex_set();
    let mut x = VertSet::new();
    let mut cliques: Vec<Vec<u32>> = Vec::new();
    bron_kerbosch::search::run_bron_kerbosch(&r, &mut p, &mut x, &graph, &mut cliques, 2);
    assert_eq!(before, graph);
}

/// Raising the threshold never adds a clique: the higher-threshold result is
/// a subset of the lower-threshold result.
#[test]
fn threshold_monotonic() {
    let graph = graph_of(&[(1, 2), (1, 3), (2, 3), (3, 4), (4, 5), (4, 6), (5, 6), (2, 6)]);
    let lo = sorted_cliques(&graph, 2);
    let hi = sorted_cliques(&graph, 3);
    assert!(hi.len() <= lo.len());
    for clique in &hi {
        assert!(lo.contains(clique));
    }
}

/// The builder records each edge in both directions and absorbs repeats.
#[test]
fn builder_is_undirected_and_idempotent() {
    let once = graph_of(&[(7, 9)]);
    assert!(once.neighbors(7).contains(9));
    assert!(once.neighbors(9).contains(7));
    assert_eq!(once.neighbor_count(7), 1);

    let twice = graph_of(&[(7, 9), (7, 9), (9, 7)]);
    assert_eq!(once, twice);
}

/// A vertex with no entry behaves as one with an empty neighbour set.
#[test]
fn missing_vertex_is_empty() {
    let graph = graph_of(&[(1, 2)]);
    assert_eq!(graph.neighbor_count(42), 0);
    assert_eq!(graph.neighbors(42).len(), 0);
    assert!(!graph.vertex_set().contains(42));
}
