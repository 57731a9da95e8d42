use std::collections::HashSet;
use hypermatch::hypergraph::Hypergraph;

fn link(hg: &mut Hypergraph, edge: usize, nodes: Vec<usize>) {
    for &node in &nodes {
        hg.add_node(node, edge);
    }
    hg.add_edge(edge, &nodes);
}

/// Checks that the witness sends every pattern edge's member set exactly
/// onto the member set of some host edge.
fn witness_is_sound(pattern: &Hypergraph, host: &Hypergraph, witness: &Vec<usize>) -> bool {
    assert_eq!(witness.len(), pattern.nodes.keys.len());
    for members in &pattern.edges.members {
        let image: HashSet<usize> = members
            .iter()
            .map(|v| {
                let pos = pattern.nodes.keys.iter().position(|k| k == v).unwrap();
                witness[pos]
            })
            .collect();
        let carried = host
            .edges
            .members
            .iter()
            .any(|hm| hm.iter().copied().collect::<HashSet<usize>>() == image);
        if !carried {
            return false;
        }
    }
    true
}

#[test]
fn chain_pattern_embeds_into_longer_chain() {
    // Pattern: hyperedges {a,b}, {b,c} with a=0, b=1, c=2.
    let mut pattern = Hypergraph::new();
    link(&mut pattern, 0, vec![0, 1]);
    link(&mut pattern, 1, vec![1, 2]);
    // Host: hyperedges {x,y}, {y,z}, {z,w} with x=10, y=11, z=12, w=13.
    let mut host = Hypergraph::new();
    link(&mut host, 0, vec![10, 11]);
    link(&mut host, 1, vec![11, 12]);
    link(&mut host, 2, vec![12, 13]);
    let result = hypermatch::containment::is_contained(&pattern, &host);
    let witness = result.expect("the chain must embed");
    assert!(witness_is_sound(&pattern, &host, &witness));
    // The witness is injective.
    let distinct: HashSet<usize> = witness.iter().copied().collect();
    assert_eq!(distinct.len(), witness.len());
}

#[test]
fn chain_pattern_fails_against_single_edge_host() {
    let mut pattern = Hypergraph::new();
    link(&mut pattern, 0, vec![0, 1]);
    link(&mut pattern, 1, vec![1, 2]);
    let mut host = Hypergraph::new();
    link(&mut host, 0, vec![10, 11]);
    assert!(hypermatch::containment::is_contained(&pattern, &host).is_none());
}

#[test]
fn every_graph_is_contained_in_itself() {
    let mut hg = Hypergraph::new();
    link(&mut hg, 0, vec![0, 1, 2]);
    link(&mut hg, 1, vec![2, 3]);
    link(&mut hg, 2, vec![0, 3]);
    let result = hypermatch::containment::is_contained(&hg, &hg);
    let witness = result.expect("a graph embeds into itself");
    assert!(witness_is_sound(&hg, &hg, &witness));
}

#[test]
fn empty_pattern_contained_only_in_empty_host() {
    let empty = Hypergraph::new();
    let also_empty = Hypergraph::new();
    let witness = hypermatch::containment::is_contained(&empty, &also_empty)
        .expect("the empty graph is contained in the empty graph");
    assert_eq!(witness.len(), 0);
    let mut host = Hypergraph::new();
    link(&mut host, 0, vec![1, 2]);
    assert!(hypermatch::containment::is_contained(&empty, &host).is_none());
    assert!(hypermatch::containment::is_contained(&host, &empty).is_none());
}

#[test]
fn host_with_fewer_nodes_is_rejected() {
    let mut pattern = Hypergraph::new();
    link(&mut pattern, 0, vec![0, 1, 2]);
    let mut host = Hypergraph::new();
    link(&mut host, 0, vec![10, 11]);
    assert!(hypermatch::containment::is_contained(&pattern, &host).is_none());
}

#[test]
fn triangle_does_not_embed_into_chain() {
    // Pattern: triangle {a,b}, {b,c}, {a,c}.
    let mut pattern = Hypergraph::new();
    link(&mut pattern, 0, vec![0, 1]);
    link(&mut pattern, 1, vec![1, 2]);
    link(&mut pattern, 2, vec![0, 2]);
    // Host: a plain chain of four vertices.
    let mut host = Hypergraph::new();
    link(&mut host, 0, vec![10, 11]);
    link(&mut host, 1, vec![11, 12]);
    link(&mut host, 2, vec![12, 13]);
    assert!(hypermatch::containment::is_contained(&pattern, &host).is_none());
}
