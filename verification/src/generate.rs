//! Random hypergraph generation and the randomized round-trip check on key
//! permutation, together with the base-26 node-name scheme. All randomness
//! comes from the `rand` crate through trusted wrappers that promise only a
//! range or a multiset, so everything built on the drawn values is verified
//! for every outcome.
use vstd::prelude::*;
use rand::Rng;
use rand::seq::SliceRandom;

verus! {

use crate::hypergraph::Hypergraph;
use crate::hypergraph::inverse_perms;
use crate::hypergraph::lemma_permute_round_trip;
use crate::incidence::valid_perm;
use crate::vecs::chars_to_string;
use vstd::pervasive::VecAdditionalExecFns;
use vstd::set_lib::set_int_range;
use vstd::set_lib::lemma_int_range;

#[verifier::external_type_specification]
#[verifier::external_body]
pub struct ExThreadRng(rand::rngs::ThreadRng);

/// Relies on rand::thread_rng: hands out the thread-local generator.
#[verifier::external_body]
fn new_rng() -> rand::rngs::ThreadRng {
    rand::thread_rng()
}

/// Relies on rand::Rng::gen_range over a half-open range: it panics only on
/// an empty range and returns a value drawn from within the range.
#[verifier::external_body]
fn rand_in_range(rng: &mut rand::rngs::ThreadRng, lo: usize, hi: usize) -> (r: usize)
    requires
        lo < hi,
    ensures
        lo <= r < hi,
{
    rng.gen_range(lo..hi)
}

/// Relies on rand::seq::SliceRandom::shuffle: it permutes the slice in
/// place, so the multiset of elements is unchanged.
#[verifier::external_body]
fn shuffle_vec(rng: &mut rand::rngs::ThreadRng, v: &mut Vec<usize>)
    ensures
        final(v)@.to_multiset() == old(v)@.to_multiset(),
{
    v.shuffle(rng)
}

/// A sequence carrying the same multiset as a bijection of `0..n` is
/// itself a bijection of `0..n`.
pub proof fn lemma_same_multiset_perm(s: Seq<usize>, t: Seq<usize>, n: nat)
    requires
        valid_perm(t, n),
        s.to_multiset() == t.to_multiset(),
    ensures
        valid_perm(s, n),
{
    s.to_multiset_ensures();
    t.to_multiset_ensures();
    assert(s.len() == n);
    assert forall|i: int| 0 <= i < s.len() implies (#[trigger] s[i]) < n by {
        assert(s.contains(s[i]));
        assert(s.to_multiset().count(s[i]) > 0);
        assert(t.contains(s[i]));
        let j = choose|j: int| 0 <= j < t.len() && t[j] == s[i];
        assert(t[j] < n);
    }
    t.lemma_multiset_has_no_duplicates();
    s.lemma_multiset_has_no_duplicates_conv();
}

/// An injective index array over `0..n` of length `n` hits every value of
/// `0..n`.
pub proof fn lemma_bijection_surjective(p: Seq<usize>, n: nat, v: usize)
    requires
        valid_perm(p, n),
        v < n,
    ensures
        p.contains(v),
{
    if !p.contains(v) {
        let q = p.map_values(|x: usize| x as int);
        assert(q.no_duplicates()) by {
            assert forall|i: int, j: int| 0 <= i < j < q.len() implies q[i] != q[j] by {
                assert(p[i] != p[j]);
            }
        }
        q.unique_seq_to_set();
        lemma_int_range(0, n as int);
        let small = set_int_range(0, n as int).remove(v as int);
        assert(q.to_set().subset_of(small)) by {
            assert forall|x: int| q.to_set().contains(x) implies small.contains(x) by {
                let i = choose|i: int| 0 <= i < q.len() && q[i] == x;
                assert(p[i] < n);
                if x == v as int {
                    assert(p[i] == v);
                    assert(p.contains(p[i]));
                }
            }
        }
        vstd::set_lib::lemma_len_subset(q.to_set(), small);
    }
}

/// A uniformly shuffled bijection of `0..n`: the identity array permuted in
/// place.
pub fn random_permutation(n: usize) -> (r: Vec<usize>)
    ensures
        valid_perm(r@, n as nat),
{
    let mut permutation: Vec<usize> = Vec::new();
    let mut i: usize = 0;
    while i < n
        invariant
            i <= n,
            permutation@.len() == i,
            forall|j: int| 0 <= j < i ==> permutation@[j] == j,
        decreases n - i,
    {
        permutation.push(i);
        i += 1;
    }
    let ghost identity = permutation@;
    proof {
        assert(valid_perm(identity, n as nat));
    }
    let mut rng = new_rng();
    shuffle_vec(&mut rng, &mut permutation);
    proof {
        lemma_same_multiset_perm(permutation@, identity, n as nat);
    }
    permutation
}

/// Inverts a bijection of `0..n`: the result sends each target index back
/// to its source, in both composition orders.
pub fn invert_permutation(p: &Vec<usize>) -> (r: Vec<usize>)
    requires
        valid_perm(p@, p@.len()),
    ensures
        r@.len() == p@.len(),
        valid_perm(r@, p@.len()),
        forall|i: int| 0 <= i < p@.len() ==> r@[#[trigger] p@[i] as int] as int == i,
        forall|i: int| 0 <= i < p@.len() ==> p@[#[trigger] r@[i] as int] as int == i,
{
    let n = p.len();
    let mut inv: Vec<usize> = Vec::new();
    let mut i: usize = 0;
    while i < n
        invariant
            i <= n,
            inv@.len() == i,
        decreases n - i,
    {
        inv.push(0);
        i += 1;
    }
    let mut i: usize = 0;
    while i < n
        invariant
            n == p@.len(),
            valid_perm(p@, n as nat),
            i <= n,
            inv@.len() == n,
            forall|t: int| 0 <= t < i ==> inv@[#[trigger] p@[t] as int] as int == t,
        decreases n - i,
    {
        let target = p[i];
        inv.set(target, i);
        proof {
            assert forall|t: int| 0 <= t < i + 1 implies inv@[#[trigger] p@[t] as int] as int
                == t by {
                if t < i {
                    assert(p@[t] != p@[i as int]);
                }
            }
        }
        i += 1;
    }
    proof {
        assert forall|t: int| 0 <= t < n implies (#[trigger] inv@[t]) < n && p@[inv@[t] as int] as int
            == t by {
            lemma_bijection_surjective(p@, n as nat, t as usize);
            let s = choose|s: int| 0 <= s < p@.len() && p@[s] == t as usize;
            assert(inv@[p@[s] as int] as int == s);
            assert(inv@[t] as int == s);
        }
        assert forall|i1: int, j1: int| 0 <= i1 < j1 < n implies inv@[i1] != inv@[j1] by {
            assert(p@[inv@[i1] as int] as int == i1);
            assert(p@[inv@[j1] as int] as int == j1);
        }
        assert(inv@.no_duplicates());
    }
    inv
}

/// The letter standing for one base-26 digit.
pub open spec fn digit_char(d: nat) -> char {
    ((97 + d) as u8) as char
}

/// The name of node `i` in the bijective base-26 scheme over `a..z`:
/// `0` is `a`, `25` is `z`, `26` is `aa`, and so on.
pub open spec fn name_chars(i: nat) -> Seq<char>
    decreases i,
{
    if i < 26 {
        seq![digit_char(i)]
    } else {
        name_chars((i / 26 - 1) as nat).push(digit_char(i % 26))
    }
}

/// A sequence read back to front.
pub open spec fn rev_chars(s: Seq<char>) -> Seq<char> {
    Seq::new(s.len(), |t: int| s[s.len() - 1 - t])
}

/// Builds the textual name of a node index, lowest digit first and then
/// reversed, exactly as `name_chars` describes.
pub fn generate_node_name(index: usize) -> (r: String)
    ensures
        r@ == name_chars(index as nat),
{
    let mut digits: Vec<char> = Vec::new();
    let mut cur: usize = index;
    loop
        invariant_except_break
            name_chars(index as nat) == name_chars(cur as nat) + rev_chars(digits@),
        ensures
            name_chars(index as nat) == rev_chars(digits@),
        decreases cur,
    {
        proof {
            assert(name_chars(cur as nat) == if cur < 26 {
                seq![digit_char(cur as nat)]
            } else {
                name_chars((cur / 26 - 1) as nat).push(digit_char((cur % 26) as nat))
            });
        }
        let rem = cur % 26;
        let d = (97 + rem as u8) as char;
        let ghost digits_pre = digits@;
        digits.push(d);
        proof {
            assert(d == digit_char((cur % 26) as nat));
            if cur < 26 {
                assert(seq![digit_char(cur as nat)] + rev_chars(digits_pre) =~= rev_chars(
                    digits@,
                ));
            } else {
                assert(name_chars((cur / 26 - 1) as nat) + (seq![
                    digit_char((cur % 26) as nat),
                ] + rev_chars(digits_pre)) =~= name_chars((cur / 26 - 1) as nat) + rev_chars(
                    digits@,
                ));
                assert(name_chars(cur as nat) + rev_chars(digits_pre) =~= name_chars((cur / 26
                    - 1) as nat) + (seq![digit_char((cur % 26) as nat)] + rev_chars(digits_pre)));
            }
        }
        cur = cur / 26;
        if cur == 0 {
            break ;
        }
        cur -= 1;
    }
    let len = digits.len();
    let mut out: Vec<char> = Vec::new();
    let mut t: usize = 0;
    while t < len
        invariant
            len == digits@.len(),
            t <= len,
            out@.len() == t,
            forall|s: int| 0 <= s < t ==> out@[s] == digits@[len - 1 - s],
        decreases len - t,
    {
        out.push(digits[len - 1 - t]);
        t += 1;
    }
    proof {
        assert(out@ =~= rev_chars(digits@));
    }
    chars_to_string(out)
}

impl Hypergraph {
    /// A random hypergraph: `num_edges` hyperedges numbered in order, each
    /// over two or more draws from `num_nodes` node indices, every member
    /// paired with a matching node entry so the incidence stays symmetric.
    pub fn random(num_nodes: usize, num_edges: usize) -> (r: Self)
        requires
            1 <= num_nodes < usize::MAX,
        ensures
            r.wf(),
            r.consistent(),
            r.edges.key_count() == num_edges,
            forall|i: int| 0 <= i < r.nodes.keys@.len() ==> (#[trigger] r.nodes.keys@[i]) < num_nodes,
    {
        let mut hypergraph = Hypergraph::new();
        let mut rng = new_rng();
        let mut edge_num: usize = 0;
        while edge_num < num_edges
            invariant
                1 <= num_nodes < usize::MAX,
                edge_num <= num_edges,
                hypergraph.wf(),
                hypergraph.consistent(),
                hypergraph.edges.key_count() == edge_num,
                forall|i: int|
                    0 <= i < hypergraph.nodes.keys@.len() ==> (#[trigger] hypergraph.nodes.keys@[i])
                        < num_nodes,
                forall|i: int|
                    0 <= i < hypergraph.edges.keys@.len() ==> (#[trigger] hypergraph.edges.keys@[i])
                        < edge_num,
            decreases num_edges - edge_num,
        {
            let upper = if num_nodes < 2 {
                2
            } else {
                num_nodes
            };
            let num_nodes_in_edge = rand_in_range(&mut rng, 2, upper + 1);
            let mut nodes_in_edge: Vec<usize> = Vec::new();
            let mut draw: usize = 0;
            while draw < num_nodes_in_edge
                invariant
                    1 <= num_nodes < usize::MAX,
                    draw <= num_nodes_in_edge,
                    hypergraph.wf(),
                    hypergraph.consistent(),
                    hypergraph.edges.key_count() == edge_num,
                    forall|i: int|
                        0 <= i < hypergraph.nodes.keys@.len() ==> (
                        #[trigger] hypergraph.nodes.keys@[i]) < num_nodes,
                    forall|i: int|
                        0 <= i < hypergraph.edges.keys@.len() ==> (
                        #[trigger] hypergraph.edges.keys@[i]) < edge_num,
                    forall|j: int|
                        0 <= j < nodes_in_edge@.len() ==> hypergraph.nodes.keys@.contains(
                            #[trigger] nodes_in_edge@[j],
                        ),
                decreases num_nodes_in_edge - draw,
            {
                let node_index = rand_in_range(&mut rng, 0, num_nodes);
                let ghost nodes_pre = hypergraph.nodes;
                hypergraph.add_node(node_index, edge_num);
                proof {
                    assert(hypergraph.nodes.keys@ == nodes_pre.keys@ || hypergraph.nodes.keys@
                        == nodes_pre.keys@.push(node_index));
                    assert(hypergraph.nodes.keys@.contains(node_index)) by {
                        if nodes_pre.has_key(node_index) {
                        } else {
                            assert(hypergraph.nodes.keys@[nodes_pre.keys@.len() as int]
                                == node_index);
                        }
                    }
                    assert forall|j: int|
                        0 <= j < nodes_in_edge@.len() implies hypergraph.nodes.keys@.contains(
                        #[trigger] nodes_in_edge@[j],
                    ) by {
                        let w = choose|w: int|
                            0 <= w < nodes_pre.keys@.len() && nodes_pre.keys@[w]
                                == nodes_in_edge@[j];
                        assert(hypergraph.nodes.keys@[w] == nodes_in_edge@[j]);
                    }
                    assert(hypergraph.consistent()) by {
                        assert forall|ei: int, j: int|
                            0 <= ei < hypergraph.edges.members@.len() && 0 <= j
                                < hypergraph.edges.members@[ei]@.len() implies hypergraph
                            .nodes
                            .keys@
                            .contains(#[trigger] hypergraph.edges.members@[ei]@[j]) by {
                            let m = hypergraph.edges.members@[ei]@[j];
                            assert(nodes_pre.keys@.contains(m));
                            let w = choose|w: int|
                                0 <= w < nodes_pre.keys@.len() && nodes_pre.keys@[w] == m;
                            assert(hypergraph.nodes.keys@[w] == m);
                        }
                    }
                }
                nodes_in_edge.push(node_index);
                draw += 1;
            }
            let ghost pre = hypergraph;
            hypergraph.add_edge(edge_num, &nodes_in_edge);
            proof {
                assert(!pre.edges.has_key(edge_num)) by {
                    if pre.edges.has_key(edge_num) {
                        let w = choose|w: int|
                            0 <= w < pre.edges.keys@.len() && pre.edges.keys@[w] == edge_num;
                    }
                }
                assert(hypergraph.edges.keys@ == pre.edges.keys@.push(edge_num));
                assert(hypergraph.consistent()) by {
                    assert forall|ei: int, j: int|
                        0 <= ei < hypergraph.edges.members@.len() && 0 <= j
                            < hypergraph.edges.members@[ei]@.len() implies hypergraph
                        .nodes
                        .keys@
                        .contains(#[trigger] hypergraph.edges.members@[ei]@[j]) by {
                        if ei < pre.edges.members@.len() {
                            assert(pre.edges.key_slot(edge_num) == pre.edges.members@.len());
                            assert(hypergraph.edges.members_at(ei) == pre.edges.members_at(ei));
                        } else {
                            assert(ei == pre.edges.members@.len());
                            let m = hypergraph.edges.members@[ei]@[j];
                            assert(hypergraph.edges.members_of(edge_num).to_set()
                                == nodes_in_edge@.to_set());
                            assert(hypergraph.edges.key_index(edge_num) == ei) by {
                                assert(hypergraph.edges.keys@[ei] == edge_num);
                                assert(hypergraph.edges.keys@.contains(edge_num));
                                let w = hypergraph.edges.keys@.index_of(edge_num);
                                if w < pre.edges.keys@.len() {
                                    assert(pre.edges.keys@[w] == edge_num);
                                }
                            }
                            assert(hypergraph.edges.members_of(edge_num) == hypergraph
                                .edges
                                .members@[ei]@);
                            assert(hypergraph.edges.members_of(edge_num).contains(m));
                            assert(hypergraph.edges.members_of(edge_num).to_set().contains(m));
                            assert(nodes_in_edge@.to_set().contains(m));
                            let w2 = choose|w2: int|
                                0 <= w2 < nodes_in_edge@.len() && nodes_in_edge@[w2] == m;
                        }
                    }
                }
            }
            edge_num += 1;
        }
        hypergraph
    }
}

/// The randomized round-trip check: draws random hypergraphs, permutes the
/// node and edge keys of each by random bijections, undoes the relabeling
/// with the inverse permutations, and compares structurally with the
/// original. The round-trip law makes every comparison succeed, so the
/// check is proved to return true.
pub fn test_canonization(max_nodes: usize, num_tests: usize, num_graphs: usize) -> (r: bool)
    requires
        1 <= max_nodes < usize::MAX,
    ensures
        r == true,
{
    let mut rng = new_rng();
    let mut i: usize = 0;
    while i < num_graphs
        invariant
            1 <= max_nodes < usize::MAX,
        decreases num_graphs - i,
    {
        let num_nodes = rand_in_range(&mut rng, 1, max_nodes + 1);
        let num_edges = rand_in_range(&mut rng, 1, num_nodes + 1);
        let hg = Hypergraph::random(num_nodes, num_edges);
        let mut j: usize = 0;
        while j < num_tests
            invariant
                hg.wf(),
            decreases num_tests - j,
        {
            let node_permutation = random_permutation(hg.nodes.num_keys());
            let edge_permutation = random_permutation(hg.edges.num_keys());
            let node_inverse = invert_permutation(&node_permutation);
            let edge_inverse = invert_permutation(&edge_permutation);
            let permuted_hg = hg.permute(&node_permutation, &edge_permutation);
            let restored_hg = permuted_hg.permute(&node_inverse, &edge_inverse);
            proof {
                assert(inverse_perms(node_permutation@, node_inverse@, hg.nodes.key_count()));
                assert(inverse_perms(edge_permutation@, edge_inverse@, hg.edges.key_count()));
                lemma_permute_round_trip(
                    hg,
                    permuted_hg,
                    restored_hg,
                    node_permutation@,
                    edge_permutation@,
                    node_inverse@,
                    edge_inverse@,
                );
            }
            if !(restored_hg == hg) {
                return false;
            }
            j += 1;
        }
        i += 1;
    }
    true
}

} // verus!
