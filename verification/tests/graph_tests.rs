use hypermatch::hypergraph::Hypergraph;
use hypermatch::hypergraph::from_member_lists;
use hypermatch::hypergraph::distinct_count;

fn link(hg: &mut Hypergraph, edge: usize, nodes: Vec<usize>) {
    for &node in &nodes {
        hg.add_node(node, edge);
    }
    hg.add_edge(edge, &nodes);
}

#[test]
fn empty_graph_has_zero_by_zero_matrix() {
    let hg = Hypergraph::new();
    assert_eq!(hg.num_nodes(), 0);
    assert_eq!(hg.num_edges(), 0);
    assert_eq!(hg.adjacency_matrix().len(), 0);
}

#[test]
fn adjacency_matrix_rows_follow_insertion_order() {
    // Nodes a=0, b=1, c=2; edges {a,b} and {b,c}.
    let mut hg = Hypergraph::new();
    link(&mut hg, 0, vec![0, 1]);
    link(&mut hg, 1, vec![1, 2]);
    let matrix = hg.adjacency_matrix();
    assert_eq!(
        matrix,
        vec![
            vec![true, false],
            vec![true, true],
            vec![false, true],
        ]
    );
}

#[test]
fn add_node_and_add_edge_are_idempotent() {
    let mut hg = Hypergraph::new();
    hg.add_node(3, 0);
    hg.add_node(3, 0);
    hg.add_edge(0, &vec![3, 3]);
    hg.add_edge(0, &vec![3]);
    assert_eq!(hg.num_nodes(), 1);
    assert_eq!(hg.num_edges(), 1);
    assert_eq!(hg.adjacency_matrix(), vec![vec![true]]);
}

#[test]
fn render_marks_incidences() {
    let mut hg = Hypergraph::new();
    link(&mut hg, 7, vec![5]);
    assert_eq!(hg.render(), "\n@");
    assert_eq!(hg.render_with('#', '.'), "\n#");
}

#[test]
fn render_layout_of_two_rows() {
    let mut hg = Hypergraph::new();
    link(&mut hg, 0, vec![0, 1]);
    link(&mut hg, 1, vec![1]);
    assert_eq!(hg.render(), "\n@ \n@@");
}

#[test]
fn permute_swaps_keys_and_round_trips() {
    let mut hg = Hypergraph::new();
    link(&mut hg, 0, vec![0, 1]);
    link(&mut hg, 1, vec![1, 2]);
    let np = vec![2, 0, 1];
    let ep = vec![1, 0];
    let permuted = hg.permute(&np, &ep);
    // Keys are relabeled: position i takes the key at position np[i].
    assert_eq!(permuted.nodes.keys, vec![2, 0, 1]);
    assert_eq!(permuted.edges.keys, vec![1, 0]);
    // Member lists stay in place.
    assert_eq!(permuted.nodes.members, hg.nodes.members);
    // The inverse permutations restore the original exactly.
    let npi = vec![1, 2, 0];
    let epi = vec![1, 0];
    let restored = permuted.permute(&npi, &epi);
    assert!(restored == hg);
    assert!(!(permuted == hg));
}

#[test]
fn permute_with_invalid_arrays_returns_graph_unchanged() {
    let mut hg = Hypergraph::new();
    link(&mut hg, 0, vec![0, 1]);
    let wrong_length = hg.permute(&vec![0], &vec![0]);
    assert!(wrong_length == hg);
    let out_of_range = hg.permute(&vec![0, 5], &vec![0]);
    assert!(out_of_range == hg);
    let duplicate = hg.permute(&vec![1, 1], &vec![0]);
    assert!(duplicate == hg);
}

#[test]
fn distinct_count_ignores_repeats() {
    assert_eq!(distinct_count(&vec![]), 0);
    assert_eq!(distinct_count(&vec![4, 4, 4]), 1);
    assert_eq!(distinct_count(&vec![1, 2, 2, 3, 1]), 3);
}

#[test]
fn from_member_lists_skips_short_lines_and_keeps_line_numbers() {
    // Line 1 names only one distinct node and is skipped; line numbers are
    // kept as edge keys, so the gap stays.
    let lists = vec![vec![0, 1], vec![2, 2], vec![1, 2, 2]];
    let hg = from_member_lists(&lists);
    assert_eq!(hg.edges.keys, vec![0, 2]);
    assert_eq!(hg.nodes.keys, vec![0, 1, 2]);
    // Node 1 is incident to edges 0 and 2, node 2 only to edge 2.
    assert_eq!(hg.nodes.members, vec![vec![0], vec![0, 2], vec![2]]);
    // Edge member lists are duplicate-free.
    assert_eq!(hg.edges.members, vec![vec![0, 1], vec![1, 2]]);
}
