use hypermatch::incidence::IncidenceTable;
use hypermatch::matching::BipartiteGraph;
use hypermatch::matching::VertexMapping;
use hypermatch::matching::find_augmenting_match;
use hypermatch::matching::hopcroft_karp;

fn adjacency(entries: Vec<(usize, Vec<usize>)>) -> IncidenceTable {
    let mut table = IncidenceTable::new();
    for (u, vs) in entries {
        for v in vs {
            table.insert_member(u, v);
        }
    }
    table
}

#[test]
fn crossing_pair_reaches_maximum_matching_of_two() {
    // Left {1,2}, right {10,11}, edges 1-10, 1-11, 2-10: a greedy pick of
    // 1-10 must be undone through an augmenting path.
    let graph = BipartiteGraph::new(
        vec![1, 2],
        vec![10, 11],
        adjacency(vec![(1, vec![10, 11]), (2, vec![10])]),
    );
    let matching = hopcroft_karp(&graph);
    // Two pairs, stored in both directions.
    assert_eq!(matching.0.len(), 4);
    assert_eq!(matching.0.get(&2), Some(&10));
    assert_eq!(matching.0.get(&10), Some(&2));
    assert_eq!(matching.0.get(&1), Some(&11));
    assert_eq!(matching.0.get(&11), Some(&1));
}

#[test]
fn single_phase_adds_exactly_one_pair() {
    let graph = BipartiteGraph::new(
        vec![1, 2],
        vec![10, 11],
        adjacency(vec![(1, vec![10, 11]), (2, vec![10])]),
    );
    let empty = VertexMapping::new();
    let after_one = find_augmenting_match(&graph, empty);
    assert_eq!(after_one.0.len(), 2);
    let after_two = find_augmenting_match(&graph, after_one);
    assert_eq!(after_two.0.len(), 4);
    let after_three = find_augmenting_match(&graph, after_two);
    assert_eq!(after_three.0.len(), 4);
}

#[test]
fn empty_graph_yields_empty_matching() {
    let graph = BipartiteGraph::new(Vec::new(), Vec::new(), IncidenceTable::new());
    let matching = hopcroft_karp(&graph);
    assert_eq!(matching.0.len(), 0);
}

#[test]
fn left_vertex_without_adjacency_entry_is_skipped() {
    let graph = BipartiteGraph::new(
        vec![1, 2, 3],
        vec![10],
        adjacency(vec![(2, vec![10])]),
    );
    let matching = hopcroft_karp(&graph);
    assert_eq!(matching.0.len(), 2);
    assert_eq!(matching.0.get(&2), Some(&10));
    assert!(matching.0.get(&1).is_none());
    assert!(matching.0.get(&3).is_none());
}

#[test]
fn matched_pairs_lie_on_graph_edges() {
    let graph = BipartiteGraph::new(
        vec![1, 2, 3],
        vec![10, 11],
        adjacency(vec![(1, vec![10]), (2, vec![10, 11]), (3, vec![11])]),
    );
    let matching = hopcroft_karp(&graph);
    for (&u, &v) in matching.0.iter() {
        assert_eq!(matching.0.get(&v), Some(&u));
        let (left, right) = if graph.left_vertices.contains(&u) { (u, v) } else { (v, u) };
        let pos = graph.edges.keys.iter().position(|&k| k == left).unwrap();
        assert!(graph.edges.members[pos].contains(&right));
    }
}

#[test]
fn vertex_mapping_insert_overwrites() {
    let mut mapping = VertexMapping::new();
    mapping.insert(1, 10);
    mapping.insert(1, 11);
    assert_eq!(mapping.0.len(), 1);
    assert_eq!(mapping.0.get(&1), Some(&11));
}
