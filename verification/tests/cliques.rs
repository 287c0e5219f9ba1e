use bron_kerbosch::graph::Graph;
use bron_kerbosch::search::bron_kerbosch_v2;
use bron_kerbosch::search::run_bron_kerbosch;
use bron_kerbosch::vset::VertSet;

fn graph_of(input: &[(u32, u32)]) -> Graph {
    let edges: Vec<(u32, u32)> = input.to_vec();
    Graph::from_edges(&edges)
}

#[test]
fn test_alg_smallscale() {
    let input: Vec<(u32, u32)> = vec![
        (1, 2),
        (2, 1),
        (1, 3),
        (3, 1),
        (2, 3),
        (3, 2),
        (4, 5),
        (5, 4),
        (4, 6),
        (6, 4),
        (5, 6),
        (6, 5),
    ];

    let graph = graph_of(&input);

    for (k, v) in graph.adj.iter() {
        println!("k: {}, v: {:?}", k, v);
    }

    let r1 = VertSet::new();
    let mut p1 = graph.vertex_set();
    let mut x1 = VertSet::new();

    let r2 = VertSet::new();
    let mut p2 = graph.vertex_set();
    let mut x2 = VertSet::new();

    let mut my_cliques: Vec<Vec<u32>> = Vec::new();
    let mut checking_cliques: Vec<Vec<u32>> = Vec::new();

    run_bron_kerbosch(&r1, &mut p1, &mut x1, &graph, &mut my_cliques, 2);
    bron_kerbosch_v2(&r2, &mut p2, &mut x2, &graph, &mut checking_cliques, 2);

    println!("my_cliques: {:?}", my_cliques);
    println!("checking_cliques: {:?}", checking_cliques);
    assert_eq!(my_cliques.sort(), checking_cliques.sort())
}

#[test]
fn tests_test_alg_smallscale() {
    let input: Vec<(u32, u32)> = vec![
        (1, 2),
        (2, 1),
        (1, 3),
        (3, 1),
        (2, 3),
        (3, 2),
        (4, 5),
        (5, 4),
        (4, 6),
        (6, 4),
        (5, 6),
        (6, 5),
    ];

    let graph = graph_of(&input);

    for (k, v) in graph.adj.iter() {
        println!("k: {}, v: {:?}", k, v);
    }

    let r1 = VertSet::new();
    let mut p1 = graph.vertex_set();
    let mut x1 = VertSet::new();

    let r2 = VertSet::new();
    let mut p2 = graph.vertex_set();
    let mut x2 = VertSet::new();

    let mut my_cliques: Vec<Vec<u32>> = Vec::new();
    let mut checking_cliques: Vec<Vec<u32>> = Vec::new();

    run_bron_kerbosch(&r1, &mut p1, &mut x1, &graph, &mut my_cliques, 2);
    bron_kerbosch_v2(&r2, &mut p2, &mut x2, &graph, &mut checking_cliques, 2);

    println!("my_cliques: {:?}", my_cliques);
    println!("checking_cliques: {:?}", checking_cliques);
    assert_eq!(my_cliques.sort(), checking_cliques.sort())
}

/// The two engine entry points agree clique for clique once both outputs are
/// sorted, and both report each clique once.
#[test]
fn engines_agree_sorted() {
    let input: Vec<(u32, u32)> = vec![
        (1, 2),
        (1, 3),
        (2, 3),
        (3, 4),
        (4, 5),
        (4, 6),
        (5, 6),
        (2, 6),
    ];
    let graph = graph_of(&input);

    let r1 = VertSet::new();
    let mut p1 = graph.vertex_set();
    let mut x1 = VertSet::new();
    let mut a: Vec<Vec<u32>> = Vec::new();
    run_bron_kerbosch(&r1, &mut p1, &mut x1, &graph, &mut a, 2);

    let r2 = VertSet::new();
    let mut p2 = graph.vertex_set();
    let mut x2 = VertSet::new();
    let mut b: Vec<Vec<u32>> = Vec::new();
    bron_kerbosch_v2(&r2, &mut p2, &mut x2, &graph, &mut b, 2);

    a.sort();
    b.sort();
    assert_eq!(a, b);
    let mut a_dedup = a.clone();
    a_dedup.dedup();
    assert_eq!(a, a_dedup);
}

/// The candidates a call finished with move from `p` to `x`; nothing else
/// changes in the two pools.
#[test]
fn pools_move_p_to_x() {
    let input: Vec<(u32, u32)> = vec![(1, 2), (1, 3), (2, 3)];
    let graph = graph_of(&input);

    let r = VertSet::new();
    let mut p = graph.vertex_set();
    let mut x = VertSet::new();
    let mut cliques: Vec<Vec<u32>> = Vec::new();
    run_bron_kerbosch(&r, &mut p, &mut x, &graph, &mut cliques, 2);

    let mut together = p.to_vec();
    together.extend(x.to_vec());
    together.sort();
    assert_eq!(together, vec![1, 2, 3]);
}
