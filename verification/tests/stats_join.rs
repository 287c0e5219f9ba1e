use bron_kerbosch::stats::replace_u32_cliques;
use bron_kerbosch::stats::NodeStats;

/// Cliques of identifiers come back as cliques of records, each identifier
/// replaced by its matching record, in clique order.
#[test]
fn join_replaces_ids_with_records() {
    let node1 = NodeStats { new_id: 6, views: 4, mature: true, partner: true };
    let node2 = NodeStats { new_id: 12, views: 10, mature: false, partner: false };
    let loaded = vec![node1, node2];

    let test_u32_cliques = vec![vec![6, 12], vec![12, 6]];
    let test_vec = replace_u32_cliques(&loaded, &test_u32_cliques);

    let verified_vec = vec![vec![node1, node2], vec![node2, node1]];
    assert_eq!(test_vec, verified_vec);
}

/// An identifier with no record is dropped; the first matching record wins.
#[test]
fn join_drops_unknown_and_takes_first() {
    let a = NodeStats { new_id: 1, views: 100, mature: true, partner: false };
    let b = NodeStats { new_id: 1, views: 999, mature: false, partner: true };
    let c = NodeStats { new_id: 2, views: 200, mature: true, partner: true };
    let loaded = vec![a, b, c];

    let cliques = vec![vec![1, 2, 3]];
    let joined = replace_u32_cliques(&loaded, &cliques);

    assert_eq!(joined, vec![vec![a, c]]);
}

/// Empty inputs stay empty.
#[test]
fn join_empty() {
    let loaded: Vec<NodeStats> = Vec::new();
    let no_cliques: Vec<Vec<u32>> = Vec::new();
    let joined = replace_u32_cliques(&loaded, &no_cliques);
    assert!(joined.is_empty());

    let one_clique = vec![vec![5, 6]];
    let joined2 = replace_u32_cliques(&loaded, &one_clique);
    let expected: Vec<NodeStats> = Vec::new();
    assert_eq!(joined2, vec![expected]);
}
