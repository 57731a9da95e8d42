//! Hypergraph containment: whether a pattern hypergraph's incidence
//! structure embeds into a host hypergraph under an injective relabeling of
//! its nodes.
//!
//! An assignment is kept as a sequence `a` parallel to the pattern's node
//! keys: the node at position `i` of the pattern is sent to host node
//! `a[i]`. The search assigns pattern nodes one position at a time,
//! pruning a partial assignment as soon as some pattern edge whose members
//! are all assigned has no host edge carrying exactly its image.
use vstd::prelude::*;

verus! {

use crate::hypergraph::Hypergraph;
use crate::vecs::copy_vec;
use crate::vecs::vec_contains;

/// Position of node key `v` in `g`'s node table (meaningful when present).
pub open spec fn node_pos(g: Hypergraph, v: usize) -> int {
    g.nodes.keys@.index_of(v)
}

/// The image of pattern edge `ei`'s member list under assignment `a`,
/// member for member.
pub open spec fn edge_image(p: Hypergraph, a: Seq<usize>, ei: int) -> Seq<usize> {
    p.edges.members@[ei]@.map_values(|v: usize| a[node_pos(p, v)])
}

/// Some host edge carries exactly the image of pattern edge `ei`.
pub open spec fn edge_matched(p: Hypergraph, h: Hypergraph, a: Seq<usize>, ei: int) -> bool {
    exists|fi: int|
        0 <= fi < h.edges.members@.len() && edge_image(p, a, ei).to_set() == (
        #[trigger] h.edges.members@[fi])@.to_set()
}

/// Every member of pattern edge `ei` is one of the first `k` pattern nodes.
pub open spec fn edge_determined(p: Hypergraph, ei: int, k: int) -> bool {
    forall|j: int|
        0 <= j < p.edges.members@[ei]@.len() ==> p.nodes.keys@.contains(
            #[trigger] p.edges.members@[ei]@[j],
        ) && node_pos(p, p.edges.members@[ei]@[j]) < k
}

/// `a` embeds the pattern into the host: one host node per pattern node,
/// no host node twice, and the image of every pattern edge's member set is
/// exactly the member set of some host edge.
pub open spec fn is_embedding(p: Hypergraph, h: Hypergraph, a: Seq<usize>) -> bool {
    &&& a.len() == p.nodes.key_count()
    &&& a.no_duplicates()
    &&& forall|i: int| 0 <= i < a.len() ==> h.nodes.keys@.contains(#[trigger] a[i])
    &&& forall|ei: int| 0 <= ei < p.edges.members@.len() ==> edge_matched(p, h, a, ei)
}

/// What `is_contained` decides: an embedding exists, with the boundary rule
/// that the empty pattern is only contained in an empty host.
pub open spec fn contained_spec(p: Hypergraph, h: Hypergraph) -> bool {
    &&& exists|a: Seq<usize>| is_embedding(p, h, a)
    &&& (p.is_empty_graph() ==> h.is_empty_graph())
}

/// Every pattern edge already determined by the first `a.len()` pattern
/// nodes has a host edge carrying exactly its image under `a`.
pub open spec fn partial_edges_ok(p: Hypergraph, h: Hypergraph, a: Seq<usize>) -> bool {
    forall|ei: int|
        0 <= ei < p.edges.members@.len() && edge_determined(p, ei, a.len() as int)
            ==> edge_matched(p, h, a, ei)
}

/// An element a sequence contains sits at its `index_of` position.
pub proof fn lemma_index_of_contained(s: Seq<usize>, v: usize)
    requires
        s.contains(v),
    ensures
        0 <= s.index_of(v) < s.len(),
        s[s.index_of(v)] == v,
{
    assert(exists|i: int| 0 <= i < s.len() && s[i] == v);
}

/// An embedding forces the host to have at least as many nodes as the
/// pattern: the assignment is injective into the host's node keys.
pub proof fn lemma_embedding_bounds(p: Hypergraph, h: Hypergraph, a: Seq<usize>)
    requires
        is_embedding(p, h, a),
    ensures
        p.nodes.key_count() <= h.nodes.key_count(),
{
    a.unique_seq_to_set();
    assert(a.to_set().subset_of(h.nodes.keys@.to_set())) by {
        assert forall|x: usize| a.to_set().contains(x) implies h.nodes.keys@.to_set().contains(
            x,
        ) by {
            let i = choose|i: int| 0 <= i < a.len() && a[i] == x;
            assert(h.nodes.keys@.contains(a[i]));
        }
    }
    vstd::set_lib::lemma_len_subset(a.to_set(), h.nodes.keys@.to_set());
    h.nodes.keys@.lemma_cardinality_of_set();
}

/// A prefix of an embedding passes the eager edge check: an edge whose
/// members are all among the first `k` pattern nodes has the same image
/// under the prefix as under the full assignment.
pub proof fn lemma_prefix_partial_ok(p: Hypergraph, h: Hypergraph, b: Seq<usize>, k: int)
    requires
        p.wf(),
        is_embedding(p, h, b),
        0 <= k <= b.len(),
    ensures
        partial_edges_ok(p, h, b.take(k)),
{
    let a = b.take(k);
    assert forall|ei: int|
        0 <= ei < p.edges.members@.len() && edge_determined(p, ei, a.len() as int) implies
    edge_matched(p, h, a, ei) by {
        assert(edge_image(p, a, ei) =~= edge_image(p, b, ei)) by {
            assert forall|j: int| 0 <= j < p.edges.members@[ei]@.len() implies edge_image(
                p,
                a,
                ei,
            )[j] == edge_image(p, b, ei)[j] by {
                let v = p.edges.members@[ei]@[j];
                lemma_index_of_contained(p.nodes.keys@, v);
                assert(0 <= node_pos(p, v) < k);
                assert(a[node_pos(p, v)] == b[node_pos(p, v)]);
            }
        }
        assert(edge_matched(p, h, b, ei));
        let fi = choose|fi: int|
            0 <= fi < h.edges.members@.len() && edge_image(p, b, ei).to_set() == (
            #[trigger] h.edges.members@[fi])@.to_set();
        assert(edge_image(p, a, ei).to_set() == h.edges.members@[fi]@.to_set());
    }
}

/// True when every element of `a` is an element of `b`.
fn all_members_in(a: &Vec<usize>, b: &Vec<usize>) -> (r: bool)
    ensures
        r == (forall|j: int| 0 <= j < a@.len() ==> b@.contains(#[trigger] a@[j])),
{
    let n = a.len();
    let mut i: usize = 0;
    while i < n
        invariant
            n == a@.len(),
            i <= n,
            forall|j: int| 0 <= j < i ==> b@.contains(#[trigger] a@[j]),
        decreases n - i,
    {
        if !vec_contains(b, a[i]) {
            return false;
        }
        i += 1;
    }
    true
}

/// True when the two member lists carry the same set of values.
fn same_member_sets(a: &Vec<usize>, b: &Vec<usize>) -> (r: bool)
    ensures
        r == (a@.to_set() == b@.to_set()),
{
    let forward = all_members_in(a, b);
    let backward = all_members_in(b, a);
    if forward && backward {
        proof {
            assert(a@.to_set() =~= b@.to_set()) by {
                assert forall|x: usize| a@.to_set().contains(x) implies b@.to_set().contains(
                    x,
                ) by {
                    let j = choose|j: int| 0 <= j < a@.len() && a@[j] == x;
                    assert(b@.contains(a@[j]));
                }
                assert forall|x: usize| b@.to_set().contains(x) implies a@.to_set().contains(
                    x,
                ) by {
                    let j = choose|j: int| 0 <= j < b@.len() && b@[j] == x;
                    assert(a@.contains(b@[j]));
                }
            }
        }
        true
    } else {
        proof {
            if !forward {
                let j = choose|j: int| 0 <= j < a@.len() && !b@.contains(#[trigger] a@[j]);
                assert(a@.to_set().contains(a@[j]));
                assert(!b@.to_set().contains(a@[j]));
            } else {
                let j = choose|j: int| 0 <= j < b@.len() && !a@.contains(#[trigger] b@[j]);
                assert(b@.to_set().contains(b@[j]));
                assert(!a@.to_set().contains(b@[j]));
            }
        }
        false
    }
}

/// The image of pattern edge `ei` under the partial assignment `a`, when
/// every member of the edge is among the first `a.len()` pattern nodes;
/// `None` when the edge is not yet determined.
fn edge_image_vec(p: &Hypergraph, a: &Vec<usize>, ei: usize) -> (r: Option<Vec<usize>>)
    requires
        p.wf(),
        ei < p.edges.members@.len(),
        a@.len() <= p.nodes.key_count(),
    ensures
        match r {
            Some(img) => edge_determined(*p, ei as int, a@.len() as int) && img@ == edge_image(
                *p,
                a@,
                ei as int,
            ),
            None => !edge_determined(*p, ei as int, a@.len() as int),
        },
{
    let members = p.edges.members_at_index(ei);
    let n = members.len();
    let k = a.len();
    let mut img: Vec<usize> = Vec::new();
    let mut j: usize = 0;
    while j < n
        invariant
            p.wf(),
            ei < p.edges.members@.len(),
            members@ == p.edges.members@[ei as int]@,
            n == members@.len(),
            k == a@.len(),
            k <= p.nodes.key_count(),
            j <= n,
            img@.len() == j,
            forall|l: int|
                0 <= l < j ==> p.nodes.keys@.contains(#[trigger] members@[l]) && node_pos(
                    *p,
                    members@[l],
                ) < k,
            forall|l: int| 0 <= l < j ==> img@[l] == a@[node_pos(*p, members@[l])],
        decreases n - j,
    {
        let v = members[j];
        match p.nodes.index_of_key(v) {
            Some(t) => {
                if t < k {
                    img.push(a[t]);
                    proof {
                        assert(node_pos(*p, v) == t as int);
                    }
                } else {
                    proof {
                        assert(node_pos(*p, v) == t as int);
                        assert(p.edges.members@[ei as int]@[j as int] == v);
                        assert(!edge_determined(*p, ei as int, k as int));
                    }
                    return None;
                }
            },
            None => {
                proof {
                    assert(p.edges.members@[ei as int]@[j as int] == v);
                    assert(!edge_determined(*p, ei as int, k as int));
                }
                return None;
            },
        }
        j += 1;
    }
    proof {
        assert(edge_determined(*p, ei as int, k as int)) by {
            assert forall|l: int| 0 <= l < p.edges.members@[ei as int]@.len() implies p
                .nodes
                .keys@
                .contains(#[trigger] p.edges.members@[ei as int]@[l]) && node_pos(
                *p,
                p.edges.members@[ei as int]@[l],
            ) < k by {
                assert(p.edges.members@[ei as int]@[l] == members@[l]);
            }
        }
        assert(img@ =~= edge_image(*p, a@, ei as int)) by {
            assert forall|l: int| 0 <= l < n implies img@[l] == edge_image(*p, a@, ei as int)[l] by {
                assert(p.edges.members@[ei as int]@[l] == members@[l]);
            }
        }
    }
    Some(img)
}

/// The eager consistency check over a partial assignment: every pattern
/// edge already determined must have a host edge carrying exactly its
/// image.
fn partial_check(p: &Hypergraph, h: &Hypergraph, a: &Vec<usize>) -> (r: bool)
    requires
        p.wf(),
        h.wf(),
        a@.len() <= p.nodes.key_count(),
    ensures
        r == partial_edges_ok(*p, *h, a@),
{
    let pe = p.edges.num_keys();
    let mut ei: usize = 0;
    while ei < pe
        invariant
            p.wf(),
            h.wf(),
            a@.len() <= p.nodes.key_count(),
            pe == p.edges.members@.len(),
            ei <= pe,
            forall|e: int|
                0 <= e < ei && edge_determined(*p, e, a@.len() as int) ==> edge_matched(
                    *p,
                    *h,
                    a@,
                    e,
                ),
        decreases pe - ei,
    {
        match edge_image_vec(p, a, ei) {
            Some(img) => {
                let he = h.edges.num_keys();
                let mut fi: usize = 0;
                let mut found = false;
                while fi < he && !found
                    invariant
                        h.wf(),
                        he == h.edges.members@.len(),
                        fi <= he,
                        !found ==> forall|f: int|
                            0 <= f < fi ==> img@.to_set() != (
                            #[trigger] h.edges.members@[f])@.to_set(),
                        found ==> exists|f: int|
                            0 <= f < he && img@.to_set() == (
                            #[trigger] h.edges.members@[f])@.to_set(),
                    decreases he - fi,
                {
                    if same_member_sets(&img, h.edges.members_at_index(fi)) {
                        found = true;
                        proof {
                            assert(img@.to_set() == h.edges.members@[fi as int]@.to_set());
                        }
                    }
                    fi += 1;
                }
                if !found {
                    proof {
                        assert(!edge_matched(*p, *h, a@, ei as int)) by {
                            if edge_matched(*p, *h, a@, ei as int) {
                                let f = choose|f: int|
                                    0 <= f < h.edges.members@.len() && edge_image(
                                        *p,
                                        a@,
                                        ei as int,
                                    ).to_set() == (#[trigger] h.edges.members@[f])@.to_set();
                                assert(img@.to_set() == h.edges.members@[f]@.to_set());
                            }
                        }
                    }
                    return false;
                }
                proof {
                    assert(edge_matched(*p, *h, a@, ei as int));
                }
            },
            None => {
            },
        }
        ei += 1;
    }
    true
}

/// Depth-first extension of a partial assignment: tries every unused host
/// node for the next pattern node, pruning with `partial_check`, and
/// returns the first full assignment whose every edge image is carried by
/// a host edge. `None` means no embedding extends `assigned`.
fn search(p: &Hypergraph, h: &Hypergraph, assigned: Vec<usize>) -> (r: Option<Vec<usize>>)
    requires
        p.wf(),
        h.wf(),
        p.consistent(),
        assigned@.len() <= p.nodes.key_count(),
        assigned@.no_duplicates(),
        forall|i: int| 0 <= i < assigned@.len() ==> h.nodes.keys@.contains(#[trigger] assigned@[i]),
    ensures
        match r {
            Some(a) => is_embedding(*p, *h, a@),
            None => forall|b: Seq<usize>|
                (#[trigger] is_embedding(*p, *h, b)) && b.len() == p.nodes.key_count()
                    && b.take(assigned@.len() as int) == assigned@ ==> false,
        },
    decreases p.nodes.key_count() - assigned@.len(),
{
    let n = p.nodes.num_keys();
    let k = assigned.len();
    if k == n {
        if partial_check(p, h, &assigned) {
            proof {
                assert forall|ei: int| 0 <= ei < p.edges.members@.len() implies edge_matched(
                    *p,
                    *h,
                    assigned@,
                    ei,
                ) by {
                    assert(edge_determined(*p, ei, n as int)) by {
                        assert forall|j: int| 0 <= j < p.edges.members@[ei]@.len() implies p
                            .nodes
                            .keys@
                            .contains(#[trigger] p.edges.members@[ei]@[j]) && node_pos(
                            *p,
                            p.edges.members@[ei]@[j],
                        ) < n by {
                            let v = p.edges.members@[ei]@[j];
                            assert(p.nodes.keys@.contains(v));
                            lemma_index_of_contained(p.nodes.keys@, v);
                        }
                    }
                }
            }
            Some(assigned)
        } else {
            proof {
                assert forall|b: Seq<usize>|
                    (#[trigger] is_embedding(*p, *h, b)) && b.len() == p.nodes.key_count()
                        && b.take(assigned@.len() as int) == assigned@ implies false by {
                    assert(b.take(k as int) =~= b);
                    lemma_prefix_partial_ok(*p, *h, b, k as int);
                    assert(partial_edges_ok(*p, *h, assigned@));
                }
            }
            None
        }
    } else {
        let hn = h.nodes.num_keys();
        let mut hi: usize = 0;
        while hi < hn
            invariant
                p.wf(),
                h.wf(),
                p.consistent(),
                k == assigned@.len(),
                k < n,
                n == p.nodes.key_count(),
                hn == h.nodes.key_count(),
                hi <= hn,
                assigned@.no_duplicates(),
                forall|i: int|
                    0 <= i < assigned@.len() ==> h.nodes.keys@.contains(#[trigger] assigned@[i]),
                forall|b: Seq<usize>, t: int|
                    #![trigger is_embedding(*p, *h, b), h.nodes.keys@[t]]
                    is_embedding(*p, *h, b) && b.len() == n && b.take(k as int) == assigned@ && 0
                        <= t < hi ==> h.nodes.keys@[t] != b[k as int],
            decreases hn - hi,
        {
            let cand = h.nodes.keys[hi];
            if !vec_contains(&assigned, cand) {
                let mut next = copy_vec(&assigned);
                next.push(cand);
                proof {
                    assert(next@.no_duplicates());
                    assert(next@.take(k as int) =~= assigned@);
                }
                if partial_check(p, h, &next) {
                    let ghost next_view = next@;
                    match search(p, h, next) {
                        Some(result) => {
                            return Some(result);
                        },
                        None => {
                            proof {
                                assert forall|b: Seq<usize>|
                                    (#[trigger] is_embedding(*p, *h, b)) && b.len() == n && b.take(
                                        k as int,
                                    ) == assigned@ && b[k as int] == cand implies false by {
                                    assert(b.take(k + 1) =~= b.take(k as int).push(b[k as int]));
                                    assert(b.take(k + 1) == next_view);
                                }
                            }
                        },
                    }
                } else {
                    proof {
                        assert forall|b: Seq<usize>|
                            (#[trigger] is_embedding(*p, *h, b)) && b.len() == n && b.take(
                                k as int,
                            ) == assigned@ && b[k as int] == cand implies false by {
                            assert(b.take(k + 1) =~= b.take(k as int).push(b[k as int]));
                            lemma_prefix_partial_ok(*p, *h, b, k + 1);
                            assert(partial_edges_ok(*p, *h, next@));
                        }
                    }
                }
            } else {
                proof {
                    assert forall|b: Seq<usize>|
                        (#[trigger] is_embedding(*p, *h, b)) && b.len() == n && b.take(k as int)
                            == assigned@ && b[k as int] == cand implies false by {
                        let j = choose|j: int| 0 <= j < assigned@.len() && assigned@[j] == cand;
                        assert(b.take(k as int)[j] == cand);
                        assert(b[j] == b[k as int]);
                        assert(b.no_duplicates());
                    }
                }
            }
            hi += 1;
        }
        proof {
            assert forall|b: Seq<usize>|
                (#[trigger] is_embedding(*p, *h, b)) && b.len() == p.nodes.key_count() && b.take(
                    assigned@.len() as int,
                ) == assigned@ implies false by {
                assert(h.nodes.keys@.contains(b[k as int]));
                lemma_index_of_contained(h.nodes.keys@, b[k as int]);
                let t = h.nodes.keys@.index_of(b[k as int]);
                assert(h.nodes.keys@[t] == b[k as int]);
            }
        }
        None
    }
}

/// Identity law: every well-formed, consistent hypergraph is contained in
/// itself, witnessed by the identity assignment that sends each node key to
/// itself.
pub proof fn lemma_contained_in_self(h: Hypergraph)
    requires
        h.wf(),
        h.consistent(),
    ensures
        contained_spec(h, h),
{
    let a = h.nodes.keys@;
    assert(is_embedding(h, h, a)) by {
        assert forall|i: int| 0 <= i < a.len() implies h.nodes.keys@.contains(#[trigger] a[i]) by {
            assert(h.nodes.keys@[i] == a[i]);
        }
        assert forall|ei: int| 0 <= ei < h.edges.members@.len() implies edge_matched(
            h,
            h,
            a,
            ei,
        ) by {
            assert(edge_image(h, a, ei) =~= h.edges.members@[ei]@) by {
                assert forall|j: int| 0 <= j < h.edges.members@[ei]@.len() implies edge_image(
                    h,
                    a,
                    ei,
                )[j] == h.edges.members@[ei]@[j] by {
                    let v = h.edges.members@[ei]@[j];
                    assert(h.nodes.keys@.contains(v));
                    lemma_index_of_contained(h.nodes.keys@, v);
                    assert(a[node_pos(h, v)] == v);
                }
            }
            assert(edge_image(h, a, ei).to_set() == h.edges.members@[ei]@.to_set());
        }
    }
}

/// Decides whether the pattern's structure is contained in the host.
/// `Some(a)` is a witness assignment, parallel to the pattern's node keys
/// in insertion order: the pattern node at position `i` is sent to host
/// node `a[i]`. The host having fewer nodes than the pattern is rejected
/// at once; an empty pattern is contained only in an empty host.
pub fn is_contained(pattern: &Hypergraph, host: &Hypergraph) -> (r: Option<Vec<usize>>)
    requires
        pattern.wf(),
        host.wf(),
        pattern.consistent(),
    ensures
        match r {
            Some(a) => is_embedding(*pattern, *host, a@) && contained_spec(*pattern, *host),
            None => !contained_spec(*pattern, *host),
        },
{
    if pattern.num_nodes() == 0 && pattern.num_edges() == 0 {
        if host.num_nodes() == 0 && host.num_edges() == 0 {
            let empty: Vec<usize> = Vec::new();
            proof {
                assert(is_embedding(*pattern, *host, empty@));
            }
            return Some(empty);
        } else {
            return None;
        }
    }
    if host.num_nodes() < pattern.num_nodes() {
        proof {
            if contained_spec(*pattern, *host) {
                let a = choose|a: Seq<usize>| is_embedding(*pattern, *host, a);
                lemma_embedding_bounds(*pattern, *host, a);
            }
        }
        return None;
    }
    let start: Vec<usize> = Vec::new();
    let ghost start_view = start@;
    match search(pattern, host, start) {
        Some(a) => {
            proof {
                assert(contained_spec(*pattern, *host));
            }
            Some(a)
        },
        None => {
            proof {
                if contained_spec(*pattern, *host) {
                    let a = choose|a: Seq<usize>| is_embedding(*pattern, *host, a);
                    assert(a.take(0) =~= start_view);
                }
            }
            None
        },
    }
}

} // verus!
