use hypermatch::generate::generate_node_name;
use hypermatch::generate::invert_permutation;
use hypermatch::generate::random_permutation;
use hypermatch::generate::test_canonization;
use hypermatch::hypergraph::Hypergraph;
use hypermatch::parse::read_usize;

#[test]
fn node_names_follow_bijective_base_26() {
    assert_eq!(generate_node_name(0), "a");
    assert_eq!(generate_node_name(1), "b");
    assert_eq!(generate_node_name(25), "z");
    assert_eq!(generate_node_name(26), "aa");
    assert_eq!(generate_node_name(27), "ab");
    assert_eq!(generate_node_name(52), "ba");
    assert_eq!(generate_node_name(701), "zz");
    assert_eq!(generate_node_name(702), "aaa");
}

#[test]
fn random_permutation_is_a_bijection() {
    let p = random_permutation(17);
    assert_eq!(p.len(), 17);
    let mut sorted = p.clone();
    sorted.sort();
    let ascending: Vec<usize> = (0..17).collect();
    assert_eq!(sorted, ascending);
}

#[test]
fn inverted_permutation_composes_to_identity() {
    let p = random_permutation(9);
    let inv = invert_permutation(&p);
    for i in 0..9 {
        assert_eq!(p[inv[i]], i);
        assert_eq!(inv[p[i]], i);
    }
}

#[test]
fn random_hypergraph_has_requested_edges_and_small_node_keys() {
    let hg = Hypergraph::random(5, 4);
    assert_eq!(hg.num_edges(), 4);
    assert_eq!(hg.edges.keys, vec![0, 1, 2, 3]);
    for &node in &hg.nodes.keys {
        assert!(node < 5);
    }
    for members in &hg.edges.members {
        assert!(!members.is_empty());
        for &node in members {
            assert!(hg.nodes.keys.contains(&node));
        }
    }
}

#[test]
fn canonization_round_trip_always_passes() {
    assert!(test_canonization(4, 3, 3));
}

#[test]
fn read_usize_accepts_trimmed_decimal() {
    assert_eq!(read_usize(&b"123\n".to_vec()), Some(123));
    assert_eq!(read_usize(&b"  42 \r\n".to_vec()), Some(42));
    assert_eq!(read_usize(&b"+7".to_vec()), Some(7));
    assert_eq!(read_usize(&b"0".to_vec()), Some(0));
    assert_eq!(read_usize(&b"18446744073709551615".to_vec()), Some(usize::MAX));
}

#[test]
fn read_usize_rejects_garbage_and_overflow() {
    assert_eq!(read_usize(&b"".to_vec()), None);
    assert_eq!(read_usize(&b"   ".to_vec()), None);
    assert_eq!(read_usize(&b"abc".to_vec()), None);
    assert_eq!(read_usize(&b"12a".to_vec()), None);
    assert_eq!(read_usize(&b"-3".to_vec()), None);
    assert_eq!(read_usize(&b"+".to_vec()), None);
    assert_eq!(read_usize(&b"18446744073709551616".to_vec()), None);
}
