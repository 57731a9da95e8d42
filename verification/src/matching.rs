//! Maximum bipartite matching: the single-augmenting-path primitive of
//! Hopcroft–Karp, and the driver that applies it until no improvement is
//! found.
//!
//! A matching stores each matched pair in both directions, so it is a
//! symmetric partial map on vertices; symmetry together with the
//! disjointness of the two vertex sides makes it injective. One call of
//! `find_augmenting_match` runs a breadth-first search over alternating
//! paths from the unmatched left vertices and, when it reaches an unmatched
//! right vertex, flips the path and returns with exactly one more matched
//! pair; when the queue empties the input matching comes back unchanged.
use vstd::prelude::*;

verus! {

use std::collections::HashMap;
use crate::incidence::IncidenceTable;
use crate::vecs::copy_vec;
use crate::vecs::vec_contains;

broadcast use vstd::std_specs::hash::group_hash_axioms;

/// The matching engine's vertex identifiers are plain machine integers.
pub type Vertex = usize;

/// Two disjoint vertex sets and a left-to-right adjacency.
pub struct BipartiteGraph {
    pub left_vertices: Vec<Vertex>,
    pub right_vertices: Vec<Vertex>,
    pub edges: IncidenceTable,
}

impl BipartiteGraph {
    pub open spec fn is_left(self, v: usize) -> bool {
        self.left_vertices@.contains(v)
    }

    pub open spec fn is_right(self, v: usize) -> bool {
        self.right_vertices@.contains(v)
    }

    /// `u` has an adjacency entry listing `v`.
    pub open spec fn has_edge(self, u: usize, v: usize) -> bool {
        self.edges.links(u, v)
    }

    /// The sides are duplicate-free and disjoint, and every adjacency key
    /// is a left vertex with only right vertices in its list.
    pub open spec fn wf(self) -> bool {
        &&& self.left_vertices@.no_duplicates()
        &&& self.right_vertices@.no_duplicates()
        &&& forall|v: usize|
            self.left_vertices@.contains(v) ==> !self.right_vertices@.contains(v)
        &&& self.edges.wf()
        &&& forall|i: int|
            0 <= i < self.edges.keys@.len() ==> self.is_left(#[trigger] self.edges.keys@[i])
        &&& forall|i: int, j: int|
            0 <= i < self.edges.members@.len() && 0 <= j < self.edges.members@[i]@.len()
                ==> self.is_right(#[trigger] self.edges.members@[i]@[j])
    }

    pub fn new(
        left_vertices: Vec<usize>,
        right_vertices: Vec<usize>,
        edges: IncidenceTable,
    ) -> (r: Self)
        ensures
            r.left_vertices == left_vertices,
            r.right_vertices == right_vertices,
            r.edges == edges,
    {
        BipartiteGraph { left_vertices, right_vertices, edges }
    }
}

/// A matching, stored with an entry in each direction for every pair.
pub struct VertexMapping(pub HashMap<Vertex, Vertex>);

impl VertexMapping {
    pub fn new() -> (r: Self)
        ensures
            r.0@ == Map::<usize, usize>::empty(),
            r.0@.dom().finite(),
    {
        VertexMapping(HashMap::new())
    }

    pub fn insert(&mut self, u: usize, v: usize)
        ensures
            final(self).0@ == old(self).0@.insert(u, v),
    {
        self.0.insert(u, v);
    }

    pub fn get(&self, u: usize) -> (r: Option<usize>)
        ensures
            match r {
                Some(v) => self.0@.contains_key(u) && self.0@[u] == v,
                None => !self.0@.contains_key(u),
            },
    {
        match self.0.get(&u) {
            Some(v) => Some(*v),
            None => None,
        }
    }

    pub fn contains_vertex(&self, u: usize) -> (r: bool)
        ensures
            r == self.0@.contains_key(u),
    {
        self.0.contains_key(&u)
    }

    pub fn len(&self) -> (r: usize)
        ensures
            r == self.0@.len(),
    {
        self.0.len()
    }
}

/// A valid matching on `g`: symmetric, irreflexive across the two sides,
/// and every pair lies on a graph edge. Symmetry plus side-disjointness
/// makes the map injective.
pub open spec fn matching_wf(g: BipartiteGraph, m: Map<usize, usize>) -> bool {
    &&& forall|u: usize| #[trigger] m.contains_key(u) ==> m.contains_key(m[u]) && m[m[u]] == u
    &&& forall|u: usize| #[trigger]
        m.contains_key(u) ==> (g.is_left(u) ==> g.is_right(m[u]) && g.has_edge(u, m[u]))
    &&& forall|u: usize| #[trigger]
        m.contains_key(u) ==> (g.is_right(u) ==> g.is_left(m[u]) && g.has_edge(m[u], u))
    &&& forall|u: usize| #[trigger] m.contains_key(u) ==> (g.is_left(u) || g.is_right(u))
}

/// An alternating path ready to be flipped: even positions are left
/// vertices, odd ones right, consecutive positions `2t, 2t+1` lie on graph
/// edges, interior odd positions are matched to the following left vertex,
/// and both endpoints are unmatched.
pub open spec fn alternating_path(
    g: BipartiteGraph,
    m: Map<usize, usize>,
    q: Seq<usize>,
) -> bool {
    &&& q.len() >= 2
    &&& q.len() % 2 == 0
    &&& q.no_duplicates()
    &&& !m.contains_key(q[0])
    &&& !m.contains_key(q[q.len() - 1])
    &&& forall|i: int|
        0 <= i < q.len() ==> (if i % 2 == 0 {
            g.is_left(#[trigger] q[i])
        } else {
            g.is_right(q[i])
        })
    &&& forall|i: int| 0 <= i < q.len() && i % 2 == 1 ==> g.has_edge(q[i - 1], #[trigger] q[i])
    &&& forall|i: int|
        0 < i < q.len() - 1 && i % 2 == 1 ==> m.contains_key(#[trigger] q[i]) && m[q[i]] == q[i
            + 1]
}

/// The queue's alternating-path invariant during the breadth-first search:
/// `p` ends at a left vertex, starts at an unmatched left vertex, follows
/// graph edges, its odd positions are matched to the next position, and
/// every right vertex on it has been visited.
pub open spec fn path_ok(
    g: BipartiteGraph,
    m: Map<usize, usize>,
    vs: Seq<usize>,
    p: Seq<usize>,
) -> bool {
    &&& p.len() % 2 == 1
    &&& p.no_duplicates()
    &&& !m.contains_key(p[0])
    &&& forall|i: int|
        0 <= i < p.len() ==> (if i % 2 == 0 {
            g.is_left(#[trigger] p[i])
        } else {
            g.is_right(p[i])
        })
    &&& forall|i: int| 0 <= i < p.len() && i % 2 == 1 ==> g.has_edge(p[i - 1], #[trigger] p[i])
    &&& forall|i: int|
        0 <= i < p.len() && i % 2 == 1 ==> m.contains_key(#[trigger] p[i]) && m[p[i]] == p[i + 1]
    &&& forall|i: int| 0 <= i < p.len() && i % 2 == 1 ==> vs.contains(#[trigger] p[i])
}

/// Every neighbor of the left vertex `u` has been visited.
pub open spec fn vertex_closed(g: BipartiteGraph, vs: Seq<usize>, u: usize) -> bool {
    forall|v: usize| #[trigger] g.has_edge(u, v) ==> vs.contains(v)
}

/// `u` still waits at the end of some queued path, or all its neighbors
/// have been visited already.
pub open spec fn pending_or_closed(
    g: BipartiteGraph,
    vs: Seq<usize>,
    queue: Seq<Vec<usize>>,
    u: usize,
) -> bool {
    ||| exists|pi: int|
        0 <= pi < queue.len() && (#[trigger] queue[pi])@.len() > 0 && queue[pi]@[queue[pi]@.len()
            - 1] == u
    ||| vertex_closed(g, vs, u)
}

/// The frontier left behind by an exhausted search is closed: every
/// unmatched left vertex is fully explored, every visited right vertex is
/// matched and its partner fully explored.
pub open spec fn frontier_closed(g: BipartiteGraph, m: Map<usize, usize>, vs: Seq<usize>) -> bool {
    &&& forall|x: usize| #[trigger] vs.contains(x) ==> m.contains_key(x)
    &&& forall|u: usize| #[trigger] g.is_left(u) && !m.contains_key(u) ==> vertex_closed(g, vs, u)
    &&& forall|x: usize| #[trigger] vs.contains(x) ==> vertex_closed(g, vs, m[x])
}

/// Walking an alternating path into a closed frontier: every right vertex
/// along the path has been visited.
proof fn lemma_path_rights_visited(
    g: BipartiteGraph,
    m: Map<usize, usize>,
    vs: Seq<usize>,
    q: Seq<usize>,
    i: int,
)
    requires
        g.wf(),
        matching_wf(g, m),
        alternating_path(g, m, q),
        frontier_closed(g, m, vs),
        0 <= i < q.len(),
        i % 2 == 1,
    ensures
        vs.contains(q[i]),
    decreases i,
{
    if i == 1 {
        assert(g.is_left(q[0]));
        assert(g.has_edge(q[0], q[1]));
        assert(vertex_closed(g, vs, q[0]));
    } else {
        lemma_path_rights_visited(g, m, vs, q, i - 2);
        assert(vs.contains(q[i - 2]));
        assert(m.contains_key(q[i - 2]) && m[q[i - 2]] == q[i - 1]);
        assert(vertex_closed(g, vs, q[i - 1]));
        assert(g.has_edge(q[i - 1], q[i]));
    }
}

/// A closed frontier admits no augmenting path: the path's far endpoint
/// would have been visited, yet visited vertices are matched while an
/// augmenting path ends at an unmatched vertex.
pub proof fn lemma_closed_frontier_no_augmenting(
    g: BipartiteGraph,
    m: Map<usize, usize>,
    vs: Seq<usize>,
)
    requires
        g.wf(),
        matching_wf(g, m),
        frontier_closed(g, m, vs),
    ensures
        forall|q: Seq<usize>| !alternating_path(g, m, q),
{
    assert forall|q: Seq<usize>| !alternating_path(g, m, q) by {
        if alternating_path(g, m, q) {
            let last = q.len() - 1;
            lemma_path_rights_visited(g, m, vs, q, last as int);
            assert(m.contains_key(q[last as int]));
        }
    }
}

/// Growing the visited set or appending to the queue never breaks an
/// obligation that already held.
proof fn lemma_pending_monotone(
    g: BipartiteGraph,
    vs1: Seq<usize>,
    vs2: Seq<usize>,
    q1: Seq<Vec<usize>>,
    q2: Seq<Vec<usize>>,
    u: usize,
)
    requires
        pending_or_closed(g, vs1, q1, u),
        forall|x: usize| #[trigger] vs1.contains(x) ==> vs2.contains(x),
        q1.len() <= q2.len(),
        forall|pi: int| 0 <= pi < q1.len() ==> q2[pi] == (#[trigger] q1[pi]),
    ensures
        pending_or_closed(g, vs2, q2, u),
{
    if vertex_closed(g, vs1, u) {
        assert forall|v: usize| #[trigger] g.has_edge(u, v) implies vs2.contains(v) by {
            assert(vs1.contains(v));
        }
    } else {
        let pi = choose|pi: int|
            0 <= pi < q1.len() && (#[trigger] q1[pi])@.len() > 0 && q1[pi]@[q1[pi]@.len() - 1]
                == u;
        assert(q2[pi] == q1[pi]);
    }
}

/// A duplicate-free sequence drawn from a duplicate-free pool is no longer
/// than the pool.
pub proof fn lemma_unique_subseq_len(s: Seq<usize>, pool: Seq<usize>)
    requires
        s.no_duplicates(),
        forall|j: int| 0 <= j < s.len() ==> pool.contains(#[trigger] s[j]),
    ensures
        s.len() <= pool.len(),
{
    s.unique_seq_to_set();
    assert(s.to_set().subset_of(pool.to_set())) by {
        assert forall|x: usize| s.to_set().contains(x) implies pool.to_set().contains(x) by {
            let j = choose|j: int| 0 <= j < s.len() && s[j] == x;
            assert(pool.contains(s[j]));
        }
    }
    vstd::set_lib::lemma_len_subset(s.to_set(), pool.to_set());
    pool.lemma_cardinality_of_set();
}

/// Symmetry across disjoint sides makes a matching injective: no two
/// matched vertices share a partner.
pub proof fn lemma_matching_injective(g: BipartiteGraph, m: Map<usize, usize>)
    requires
        matching_wf(g, m),
    ensures
        forall|u1: usize, u2: usize|
            #[trigger] m.contains_key(u1) && #[trigger] m.contains_key(u2) && m[u1] == m[u2]
                ==> u1 == u2,
{
    assert forall|u1: usize, u2: usize|
        #[trigger] m.contains_key(u1) && #[trigger] m.contains_key(u2) && m[u1]
            == m[u2] implies u1 == u2 by {
        assert(m[m[u1]] == u1);
        assert(m[m[u2]] == u2);
    }
}

/// A valid matching has at most one entry per vertex of the graph.
pub proof fn lemma_matching_size_bound(g: BipartiteGraph, m: Map<usize, usize>)
    requires
        g.wf(),
        matching_wf(g, m),
        m.dom().finite(),
    ensures
        m.len() <= g.left_vertices@.len() + g.right_vertices@.len(),
{
    let pool = g.left_vertices@.to_set().union(g.right_vertices@.to_set());
    assert(m.dom().subset_of(pool));
    vstd::set_lib::lemma_len_subset(m.dom(), pool);
    vstd::set_lib::lemma_len_union(g.left_vertices@.to_set(), g.right_vertices@.to_set());
    g.left_vertices@.lemma_cardinality_of_set();
    g.right_vertices@.lemma_cardinality_of_set();
}

/// Flipping an augmenting path preserves matching validity, keeps every
/// previously matched vertex matched, and adds exactly one pair (two
/// directed entries): the two endpoints become matched, every interior
/// vertex is rewired within the path, and nothing else moves.
#[verifier::rlimit(100)]
#[verifier::spinoff_prover]
pub proof fn lemma_flip_augmenting_path(
    g: BipartiteGraph,
    m0: Map<usize, usize>,
    q: Seq<usize>,
    m1: Map<usize, usize>,
)
    requires
        g.wf(),
        matching_wf(g, m0),
        m0.dom().finite(),
        alternating_path(g, m0, q),
        m1.dom() == m0.dom().union(q.to_set()),
        forall|i: int|
            0 <= i < q.len() && i % 2 == 0 ==> m1[#[trigger] q[i]] == q[i + 1] && m1[q[i + 1]]
                == q[i],
        forall|x: usize| #[trigger]
            m1.contains_key(x) && !q.contains(x) ==> m0.contains_key(x) && m1[x] == m0[x],
    ensures
        matching_wf(g, m1),
        m1.dom().finite(),
        m1.len() == m0.len() + 2,
        forall|x: usize| #[trigger] m0.contains_key(x) ==> m1.contains_key(x),
{
    let n = q.len() as int;
    // Interior vertices are matched in m0, and their partners sit beside
    // them on the path.
    assert forall|i: int| 0 < i < n - 1 implies m0.contains_key(#[trigger] q[i]) && q.contains(
        m0[q[i]],
    ) by {
        if i % 2 == 1 {
            assert(m0[q[i]] == q[i + 1]);
            assert(q.contains(q[i + 1]));
        } else {
            assert(m0.contains_key(q[i - 1]) && m0[q[i - 1]] == q[i]);
            assert(m0.contains_key(m0[q[i - 1]]));
            assert(m0[q[i]] == q[i - 1]);
            assert(q.contains(q[i - 1]));
        }
    }
    // A vertex off the path cannot be matched into the path by m0.
    assert forall|x: usize|
        m0.contains_key(x) && !q.contains(x) implies !q.contains(#[trigger] m0[x]) by {
        if q.contains(m0[x]) {
            let i = choose|i: int| 0 <= i < n && q[i] == m0[x];
            assert(m0[m0[x]] == x);
            if i == 0 || i == n - 1 {
                assert(!m0.contains_key(q[i]));
                assert(m0.contains_key(m0[x]));
            } else {
                assert(q.contains(m0[q[i]]));
                assert(m0[q[i]] == x);
            }
        }
    }
    // Every path vertex is in m1's domain, with its flip partner.
    assert forall|i: int| 0 <= i < n implies m1.contains_key(#[trigger] q[i]) by {
        assert(q.contains(q[i]));
        assert(m1.dom().contains(q[i]));
    }
    // Symmetry, sides and edges of m1.
    assert forall|u: usize| #[trigger] m1.contains_key(u) implies m1.contains_key(m1[u]) && m1[m1[u]]
        == u && (g.is_left(u) ==> g.is_right(m1[u]) && g.has_edge(u, m1[u])) && (g.is_right(u)
        ==> g.is_left(m1[u]) && g.has_edge(m1[u], u)) && (g.is_left(u) || g.is_right(u)) by {
        if q.contains(u) {
            let i = choose|i: int| 0 <= i < n && q[i] == u;
            if i % 2 == 0 {
                assert(m1[q[i]] == q[i + 1] && m1[q[i + 1]] == q[i]);
                assert(q.contains(q[i + 1]));
                assert(g.has_edge(q[i], q[i + 1]));
            } else {
                assert(m1[q[i - 1]] == q[i] && m1[q[i]] == q[i - 1]);
                assert(q.contains(q[i - 1]));
                assert(g.has_edge(q[i - 1], q[i]));
            }
        } else {
            assert(m0.contains_key(u) && m1[u] == m0[u]);
            assert(!q.contains(m0[u]));
            assert(m1.dom().contains(m0[u]));
            assert(m1[m0[u]] == m0[m0[u]]);
        }
    }
    // Exactly the two endpoints are new, so the domain grows by two.
    assert(m1.dom() =~= m0.dom().insert(q[0]).insert(q[n - 1])) by {
        assert forall|x: usize| q.to_set().contains(x) implies m0.dom().insert(q[0]).insert(
            q[n - 1],
        ).contains(x) by {
            let i = choose|i: int| 0 <= i < n && q[i] == x;
            if 0 < i < n - 1 {
                assert(m0.contains_key(q[i]));
            }
        }
    }
    assert(!m0.dom().contains(q[0]) && !m0.dom().contains(q[n - 1]));
    assert(q[0] != q[n - 1]);
    assert(m0.dom().insert(q[0]).len() == m0.dom().len() + 1);
    assert(m0.dom().insert(q[0]).insert(q[n - 1]).len() == m0.dom().len() + 2);
}

/// One step of the augmenting-path flip: inserting the pair at positions
/// `idx, idx + 1` (in both directions) extends the rewired region of the
/// path by those two vertices and touches nothing else.
pub proof fn lemma_flip_step(
    m0: Map<usize, usize>,
    qs: Seq<usize>,
    idx: int,
    m_before: Map<usize, usize>,
    m_after: Map<usize, usize>,
)
    requires
        qs.no_duplicates(),
        0 <= idx,
        idx % 2 == 0,
        idx + 2 <= qs.len(),
        m_after == m_before.insert(qs[idx], qs[idx + 1]).insert(qs[idx + 1], qs[idx]),
        m_before.dom() == m0.dom().union(qs.take(idx).to_set()),
        forall|t: int|
            0 <= t < idx && t % 2 == 0 ==> m_before[#[trigger] qs[t]] == qs[t + 1] && m_before[qs[t
                + 1]] == qs[t],
        forall|x: usize| #[trigger]
            m_before.contains_key(x) && !qs.take(idx).contains(x) ==> m0.contains_key(x)
                && m_before[x] == m0[x],
    ensures
        m_after.dom() == m0.dom().union(qs.take(idx + 2).to_set()),
        forall|t: int|
            0 <= t < idx + 2 && t % 2 == 0 ==> m_after[#[trigger] qs[t]] == qs[t + 1] && m_after[
                qs[t + 1]] == qs[t],
        forall|x: usize| #[trigger]
            m_after.contains_key(x) && !qs.take(idx + 2).contains(x) ==> m0.contains_key(x)
                && m_after[x] == m0[x],
{
    let a = qs[idx];
    let b = qs[idx + 1];
    let base = qs.take(idx);
    assert(qs.take(idx + 2) =~= base.push(a).push(b));
    crate::vecs::lemma_push_to_set(base, a);
    crate::vecs::lemma_push_to_set(base.push(a), b);
    assert(qs.take(idx + 2).to_set() == base.to_set().insert(a).insert(b));
    assert(m_after.dom() =~= m0.dom().union(qs.take(idx + 2).to_set()));
    assert(qs.take(idx + 2)[idx] == a);
    assert(qs.take(idx + 2)[idx + 1] == b);
    assert(qs.take(idx + 2).contains(a));
    assert(qs.take(idx + 2).contains(b));
    assert(a != b);
    assert forall|t: int|
        0 <= t < idx + 2 && t % 2 == 0 implies m_after[#[trigger] qs[t]] == qs[t + 1] && m_after[
        qs[t + 1]] == qs[t] by {
        if t < idx {
            assert(qs[t] != a && qs[t] != b && qs[t + 1] != a && qs[t + 1] != b);
        } else {
            assert(qs[t] == a && qs[t + 1] == b);
        }
    }
    assert forall|x: usize| #[trigger]
        m_after.contains_key(x) && !qs.take(idx + 2).contains(x) implies m0.contains_key(x)
        && m_after[x] == m0[x] by {
        assert(x != a && x != b);
        assert(!base.contains(x)) by {
            if base.contains(x) {
                let l = choose|l: int| 0 <= l < base.len() && base[l] == x;
                assert(qs.take(idx + 2)[l] == x);
            }
        }
        assert(m_before.contains_key(x));
    }
}

/// One phase of the augmenting search: breadth-first exploration from every
/// unmatched left vertex along alternating paths. Finding an unmatched
/// right vertex flips the discovered path, which matches one more pair
/// (two directed entries); otherwise the matching is returned unchanged.
/// Vertices already matched never become unmatched.
#[verifier::rlimit(60)]
pub fn find_augmenting_match(graph: &BipartiteGraph, matching: VertexMapping) -> (r: VertexMapping)
    requires
        graph.wf(),
        matching_wf(*graph, matching.0@),
        matching.0@.dom().finite(),
    ensures
        matching_wf(*graph, r.0@),
        r.0@.dom().finite(),
        forall|x: usize| #[trigger] matching.0@.contains_key(x) ==> r.0@.contains_key(x),
        r.0@ == matching.0@ || r.0@.len() == matching.0@.len() + 2,
        r.0@ == matching.0@ ==> forall|q: Seq<usize>| !alternating_path(*graph, matching.0@, q),
{
    let ghost m0 = matching.0@;
    let mut current = matching;
    let rlen = graph.right_vertices.len();
    let mut visited: Vec<usize> = Vec::new();
    let mut queue: Vec<Vec<usize>> = Vec::new();
    let ln = graph.left_vertices.len();
    let mut i: usize = 0;
    while i < ln
        invariant
            graph.wf(),
            current.0@ == m0,
            i <= ln,
            ln == graph.left_vertices@.len(),
            visited@ == Seq::<usize>::empty(),
            forall|pi: int|
                0 <= pi < queue@.len() ==> path_ok(*graph, m0, visited@, (#[trigger] queue@[pi])@),
            forall|t: int|
                0 <= t < i && !m0.contains_key(#[trigger] graph.left_vertices@[t]) ==> exists|
                    pi: int,
                |
                    0 <= pi < queue@.len() && (#[trigger] queue@[pi])@.len() > 0
                        && queue@[pi]@[queue@[pi]@.len() - 1] == graph.left_vertices@[t],
        decreases ln - i,
    {
        let u = graph.left_vertices[i];
        let ghost queue_pre_seed = queue@;
        if !current.contains_vertex(u) {
            let mut single: Vec<usize> = Vec::new();
            single.push(u);
            proof {
                assert(graph.left_vertices@.contains(u));
                assert(path_ok(*graph, m0, visited@, single@));
            }
            queue.push(single);
        }
        proof {
            assert forall|t: int|
                0 <= t < i + 1 && !m0.contains_key(#[trigger] graph.left_vertices@[t]) implies
            exists|pi: int|
                0 <= pi < queue@.len() && (#[trigger] queue@[pi])@.len() > 0
                    && queue@[pi]@[queue@[pi]@.len() - 1] == graph.left_vertices@[t] by {
                if t < i {
                    let pi = choose|pi: int|
                        0 <= pi < queue_pre_seed.len() && (#[trigger] queue_pre_seed[pi])@.len() > 0
                            && queue_pre_seed[pi]@[queue_pre_seed[pi]@.len() - 1]
                            == graph.left_vertices@[t];
                    assert(queue@[pi] == queue_pre_seed[pi]);
                } else {
                    assert(!m0.contains_key(u));
                    let pi = queue@.len() - 1;
                    assert(queue@[pi]@[queue@[pi]@.len() - 1] == u);
                }
            }
        }
        i += 1;
    }
    proof {
        assert forall|u2: usize|
            #[trigger] graph.is_left(u2) && !m0.contains_key(u2) implies pending_or_closed(
            *graph,
            visited@,
            queue@,
            u2,
        ) by {
            let t = choose|t: int|
                0 <= t < graph.left_vertices@.len() && graph.left_vertices@[t] == u2;
            assert(!m0.contains_key(graph.left_vertices@[t]));
        }
    }
    while queue.len() > 0
        invariant
            graph.wf(),
            current.0@ == m0,
            m0 == matching.0@,
            matching_wf(*graph, m0),
            m0.dom().finite(),
            rlen == graph.right_vertices@.len(),
            visited@.no_duplicates(),
            forall|j: int| 0 <= j < visited@.len() ==> graph.is_right(#[trigger] visited@[j]),
            visited@.len() <= rlen,
            forall|pi: int|
                0 <= pi < queue@.len() ==> path_ok(*graph, m0, visited@, (#[trigger] queue@[pi])@),
            forall|x: usize| #[trigger] visited@.contains(x) ==> m0.contains_key(x),
            forall|u2: usize|
                #[trigger] graph.is_left(u2) && !m0.contains_key(u2) ==> pending_or_closed(
                    *graph,
                    visited@,
                    queue@,
                    u2,
                ),
            forall|x: usize|
                #[trigger] visited@.contains(x) ==> pending_or_closed(
                    *graph,
                    visited@,
                    queue@,
                    m0[x],
                ),
        decreases 2 * rlen - 2 * visited@.len() + queue@.len(),
    {
        let ghost measure_start: int = 2 * rlen - 2 * visited@.len() + queue@.len();
        let ghost queue_pre = queue@;
        let path = queue.remove(0);
        proof {
            assert forall|pi: int|
                0 <= pi < queue@.len() implies path_ok(
                *graph,
                m0,
                visited@,
                (#[trigger] queue@[pi])@,
            ) by {
                assert(queue@[pi] == queue_pre[pi + 1]);
            }
        }
        let plen = path.len();
        proof {
            assert(plen >= 1);
        }
        let u = path[plen - 1];
        proof {
            assert(path_ok(*graph, m0, visited@, path@));
            assert((plen - 1) % 2 == 0);
            assert(graph.is_left(path@[plen - 1]));
            // Obligations other than the popped vertex's keep a queued
            // witness or are already closed.
            assert forall|u2: usize|
                (#[trigger] graph.is_left(u2) && !m0.contains_key(u2) && u2 != u) implies
            pending_or_closed(*graph, visited@, queue@, u2) by {
                assert(pending_or_closed(*graph, visited@, queue_pre, u2));
                if !vertex_closed(*graph, visited@, u2) {
                    let pi = choose|pi: int|
                        0 <= pi < queue_pre.len() && (#[trigger] queue_pre[pi])@.len() > 0
                            && queue_pre[pi]@[queue_pre[pi]@.len() - 1] == u2;
                    assert(queue_pre[0] == path);
                    assert(pi >= 1);
                    assert(queue@[pi - 1] == queue_pre[pi]);
                }
            }
            assert forall|x: usize|
                (#[trigger] visited@.contains(x) && m0[x] != u) implies pending_or_closed(
                *graph,
                visited@,
                queue@,
                m0[x],
            ) by {
                assert(pending_or_closed(*graph, visited@, queue_pre, m0[x]));
                if !vertex_closed(*graph, visited@, m0[x]) {
                    let pi = choose|pi: int|
                        0 <= pi < queue_pre.len() && (#[trigger] queue_pre[pi])@.len() > 0
                            && queue_pre[pi]@[queue_pre[pi]@.len() - 1] == m0[x];
                    assert(queue_pre[0] == path);
                    assert(pi >= 1);
                    assert(queue@[pi - 1] == queue_pre[pi]);
                }
            }
        }
        match graph.edges.index_of_key(u) {
            None => {
                proof {
                    assert(vertex_closed(*graph, visited@, u)) by {
                        assert forall|v2: usize| #[trigger] graph.has_edge(u, v2) implies visited@
                            .contains(v2) by {
                            assert(graph.edges.has_key(u));
                        }
                    }
                    assert forall|u2: usize|
                        (#[trigger] graph.is_left(u2) && !m0.contains_key(u2)) implies
                    pending_or_closed(*graph, visited@, queue@, u2) by {
                        if u2 == u {
                            assert(vertex_closed(*graph, visited@, u));
                        }
                    }
                    assert forall|x: usize|
                        #[trigger] visited@.contains(x) implies pending_or_closed(
                        *graph,
                        visited@,
                        queue@,
                        m0[x],
                    ) by {
                        if m0[x] == u {
                            assert(vertex_closed(*graph, visited@, u));
                        }
                    }
                }
            },
            Some(ei) => {
                let members = graph.edges.members_at_index(ei);
                let mlen = members.len();
                let mut j: usize = 0;
                while j < mlen
                    invariant
                        graph.wf(),
                        current.0@ == m0,
                        m0 == matching.0@,
                        matching_wf(*graph, m0),
                        m0.dom().finite(),
                        rlen == graph.right_vertices@.len(),
                        ei < graph.edges.members@.len(),
                        graph.edges.keys@[ei as int] == u,
                        graph.edges.has_key(u),
                        graph.edges.key_index(u) == ei as int,
                        members@ == graph.edges.members@[ei as int]@,
                        mlen == members@.len(),
                        j <= mlen,
                        plen == path@.len(),
                        u == path@[plen - 1],
                        path_ok(*graph, m0, visited@, path@),
                        visited@.no_duplicates(),
                        forall|t: int|
                            0 <= t < visited@.len() ==> graph.is_right(#[trigger] visited@[t]),
                        visited@.len() <= rlen,
                        forall|pi: int|
                            0 <= pi < queue@.len() ==> path_ok(
                                *graph,
                                m0,
                                visited@,
                                (#[trigger] queue@[pi])@,
                            ),
                        2 * rlen - 2 * visited@.len() + queue@.len() <= measure_start - 1,
                        forall|x: usize| #[trigger] visited@.contains(x) ==> m0.contains_key(x),
                        forall|u2: usize|
                            #[trigger] graph.is_left(u2) && !m0.contains_key(u2) && u2 != u
                                ==> pending_or_closed(*graph, visited@, queue@, u2),
                        forall|x: usize|
                            #[trigger] visited@.contains(x) && m0[x] != u ==> pending_or_closed(
                                *graph,
                                visited@,
                                queue@,
                                m0[x],
                            ),
                        forall|t: int| 0 <= t < j ==> visited@.contains(#[trigger] members@[t]),
                    decreases mlen - j,
                {
                    let v = members[j];
                    proof {
                        assert(graph.is_right(graph.edges.members@[ei as int]@[j as int]));
                        assert(graph.edges.members_of(u).contains(v)) by {
                            assert(graph.edges.members_of(u) == members@);
                        }
                        assert(graph.has_edge(u, v));
                    }
                    if !vec_contains(&visited, v) {
                        match current.get(v) {
                            Some(w) => {
                                proof {
                                    assert(m0.contains_key(v));
                                    assert(graph.is_left(m0[v]) && graph.has_edge(m0[v], v));
                                }
                                let ghost old_visited = visited@;
                                visited.push(v);
                                proof {
                                    assert(visited@.no_duplicates());
                                    assert forall|t: int|
                                        0 <= t < visited@.len() implies graph.is_right(
                                        #[trigger] visited@[t],
                                    ) by {
                                        if t < old_visited.len() {
                                            assert(visited@[t] == old_visited[t]);
                                        }
                                    }
                                    lemma_unique_subseq_len(visited@, graph.right_vertices@);
                                    assert forall|pi: int|
                                        0 <= pi < queue@.len() implies path_ok(
                                        *graph,
                                        m0,
                                        visited@,
                                        (#[trigger] queue@[pi])@,
                                    ) by {
                                        assert(path_ok(*graph, m0, old_visited, queue@[pi]@));
                                        assert forall|t: int|
                                            0 <= t < queue@[pi]@.len() && t % 2 == 1 implies visited@
                                            .contains(#[trigger] queue@[pi]@[t]) by {
                                            let s = choose|s: int|
                                                0 <= s < old_visited.len() && old_visited[s]
                                                    == queue@[pi]@[t];
                                            assert(visited@[s] == queue@[pi]@[t]);
                                        }
                                    }
                                    assert forall|t: int|
                                        0 <= t < path@.len() && t % 2 == 1 implies visited@.contains(
                                        #[trigger] path@[t],
                                    ) by {
                                        let s = choose|s: int|
                                            0 <= s < old_visited.len() && old_visited[s] == path@[t];
                                        assert(visited@[s] == path@[t]);
                                    }
                                    assert(path_ok(*graph, m0, visited@, path@));
                                }
                                let mut extended = copy_vec(&path);
                                extended.push(v);
                                extended.push(w);
                                proof {
                                    let e = extended@;
                                    assert(e.len() == plen + 2);
                                    assert(e[plen as int] == v && e[plen + 1] == w);
                                    assert forall|t: int| 0 <= t < plen implies e[t] == path@[t] by {}
                                    // v is fresh: it was unvisited, and the
                                    // path's right vertices are visited while
                                    // its left vertices sit on the other side.
                                    assert(!path@.contains(v)) by {
                                        if path@.contains(v) {
                                            let t = choose|t: int|
                                                0 <= t < path@.len() && path@[t] == v;
                                            if t % 2 == 1 {
                                                assert(old_visited.contains(path@[t]));
                                            } else {
                                                assert(graph.is_left(path@[t]));
                                                assert(graph.is_right(v));
                                            }
                                        }
                                    }
                                    // w is fresh: a left vertex equal to w
                                    // would be matched to v by symmetry, yet
                                    // v is off the path; the path's start is
                                    // unmatched.
                                    assert(m0[v] == w && m0.contains_key(w) && m0[w] == v);
                                    assert(!path@.contains(w)) by {
                                        if path@.contains(w) {
                                            let t = choose|t: int|
                                                0 <= t < path@.len() && path@[t] == w;
                                            if t % 2 == 1 {
                                                assert(graph.is_right(path@[t]));
                                                assert(graph.is_left(w));
                                            } else {
                                                if t == 0 {
                                                    assert(!m0.contains_key(path@[0]));
                                                } else {
                                                    assert(m0.contains_key(path@[t - 1])
                                                        && m0[path@[t - 1]] == path@[t]);
                                                    assert(m0[path@[t]] == path@[t - 1]);
                                                    assert(path@[t - 1] == v);
                                                    assert(path@.contains(v));
                                                }
                                            }
                                        }
                                    }
                                    assert(w != v);
                                    assert(e.no_duplicates());
                                    assert forall|t: int|
                                        0 <= t < e.len() implies (if t % 2 == 0 {
                                        graph.is_left(#[trigger] e[t])
                                    } else {
                                        graph.is_right(e[t])
                                    }) by {
                                        if t < plen {
                                            assert(e[t] == path@[t]);
                                        }
                                    }
                                    assert forall|t: int|
                                        0 <= t < e.len() && t % 2 == 1 implies graph.has_edge(
                                        e[t - 1],
                                        #[trigger] e[t],
                                    ) by {
                                        if t < plen {
                                            assert(e[t] == path@[t]);
                                            assert(e[t - 1] == path@[t - 1]);
                                        } else {
                                            assert(e[t] == v && e[t - 1] == u);
                                        }
                                    }
                                    assert forall|t: int|
                                        0 <= t < e.len() && t % 2 == 1 implies m0.contains_key(
                                        #[trigger] e[t],
                                    ) && m0[e[t]] == e[t + 1] by {
                                        if t < plen {
                                            assert(e[t] == path@[t]);
                                            if t + 1 < plen {
                                                assert(e[t + 1] == path@[t + 1]);
                                            } else {
                                                assert(t == plen - 2);
                                            }
                                        } else {
                                            assert(e[t] == v && e[t + 1] == w);
                                        }
                                    }
                                    assert forall|t: int|
                                        0 <= t < e.len() && t % 2 == 1 implies visited@.contains(
                                        #[trigger] e[t],
                                    ) by {
                                        if t < plen {
                                            assert(e[t] == path@[t]);
                                        } else {
                                            assert(e[t] == v);
                                            assert(visited@[visited@.len() - 1] == v);
                                        }
                                    }
                                    assert(path_ok(*graph, m0, visited@, e));
                                }
                                let ghost queue_before_push = queue@;
                                queue.push(extended);
                                proof {
                                    assert forall|pi: int|
                                        0 <= pi < queue@.len() implies path_ok(
                                        *graph,
                                        m0,
                                        visited@,
                                        (#[trigger] queue@[pi])@,
                                    ) by {
                                        if pi < queue@.len() - 1 {
                                            assert(queue@[pi] == queue_before_push[pi]);
                                        }
                                    }
                                    assert forall|x: usize|
                                        #[trigger] old_visited.contains(x) implies visited@
                                        .contains(x) by {
                                        let s = choose|s: int|
                                            0 <= s < old_visited.len() && old_visited[s] == x;
                                        assert(visited@[s] == x);
                                    }
                                    assert(visited@[visited@.len() - 1] == v);
                                    assert(visited@.contains(v));
                                    assert forall|x: usize|
                                        #[trigger] visited@.contains(x) implies m0.contains_key(
                                        x,
                                    ) by {
                                        let s = choose|s: int|
                                            0 <= s < visited@.len() && visited@[s] == x;
                                        if s < old_visited.len() {
                                            assert(old_visited[s] == x);
                                            assert(old_visited.contains(x));
                                        } else {
                                            assert(x == v);
                                        }
                                    }
                                    assert forall|u2: usize|
                                        (#[trigger] graph.is_left(u2) && !m0.contains_key(u2) && u2
                                            != u) implies pending_or_closed(
                                        *graph,
                                        visited@,
                                        queue@,
                                        u2,
                                    ) by {
                                        lemma_pending_monotone(
                                            *graph,
                                            old_visited,
                                            visited@,
                                            queue_before_push,
                                            queue@,
                                            u2,
                                        );
                                    }
                                    assert forall|x: usize|
                                        (#[trigger] visited@.contains(x) && m0[x] != u) implies
                                    pending_or_closed(*graph, visited@, queue@, m0[x]) by {
                                        if old_visited.contains(x) {
                                            lemma_pending_monotone(
                                                *graph,
                                                old_visited,
                                                visited@,
                                                queue_before_push,
                                                queue@,
                                                m0[x],
                                            );
                                        } else {
                                            let s = choose|s: int|
                                                0 <= s < visited@.len() && visited@[s] == x;
                                            assert(x == v);
                                            let pi = queue@.len() - 1;
                                            assert(queue@[pi] == extended);
                                            assert(queue@[pi]@[queue@[pi]@.len() - 1] == w);
                                        }
                                    }
                                    assert forall|t: int|
                                        0 <= t < j + 1 implies visited@.contains(
                                        #[trigger] members@[t],
                                    ) by {
                                        if t < j {
                                            assert(old_visited.contains(members@[t]));
                                        } else {
                                            assert(members@[t] == v);
                                        }
                                    }
                                }
                            },
                            None => {
                                // v is unmatched: the path plus v is an
                                // augmenting path; flip it and return.
                                let mut q = copy_vec(&path);
                                q.push(v);
                                let ghost qs = q@;
                                proof {
                                    assert(!path@.contains(v)) by {
                                        if path@.contains(v) {
                                            let t = choose|t: int|
                                                0 <= t < path@.len() && path@[t] == v;
                                            if t % 2 == 1 {
                                                assert(visited@.contains(path@[t]));
                                            } else {
                                                assert(graph.is_left(path@[t]));
                                                assert(graph.is_right(v));
                                            }
                                        }
                                    }
                                    assert(qs.no_duplicates());
                                    assert(qs.len() == plen + 1);
                                    assert(qs[qs.len() - 1] == v);
                                    assert forall|t: int|
                                        0 <= t < qs.len() implies (if t % 2 == 0 {
                                        graph.is_left(#[trigger] qs[t])
                                    } else {
                                        graph.is_right(qs[t])
                                    }) by {
                                        if t < plen {
                                            assert(qs[t] == path@[t]);
                                        }
                                    }
                                    assert forall|t: int|
                                        0 <= t < qs.len() && t % 2 == 1 implies graph.has_edge(
                                        qs[t - 1],
                                        #[trigger] qs[t],
                                    ) by {
                                        if t < plen {
                                            assert(qs[t] == path@[t] && qs[t - 1] == path@[t - 1]);
                                        } else {
                                            assert(qs[t] == v && qs[t - 1] == u);
                                        }
                                    }
                                    assert forall|t: int|
                                        0 < t < qs.len() - 1 && t % 2 == 1 implies m0.contains_key(
                                        #[trigger] qs[t],
                                    ) && m0[qs[t]] == qs[t + 1] by {
                                        assert(qs[t] == path@[t] && qs[t + 1] == path@[t + 1]);
                                    }
                                    assert(alternating_path(*graph, m0, qs));
                                    assert(qs.take(0).to_set() =~= Set::<usize>::empty());
                                    assert(current.0@.dom() =~= m0.dom().union(
                                        qs.take(0).to_set(),
                                    ));
                                }
                                let qlen = q.len();
                                let mut idx: usize = 0;
                                while idx < qlen
                                    invariant
                                        graph.wf(),
                                        matching_wf(*graph, m0),
                                        m0.dom().finite(),
                                        alternating_path(*graph, m0, qs),
                                        q@ == qs,
                                        qlen == qs.len(),
                                        idx <= qlen,
                                        idx % 2 == 0,
                                        current.0@.dom() == m0.dom().union(
                                            qs.take(idx as int).to_set(),
                                        ),
                                        forall|t: int|
                                            0 <= t < idx && t % 2 == 0 ==> current.0@[
                                            #[trigger] qs[t]] == qs[t + 1] && current.0@[qs[t + 1]]
                                                == qs[t],
                                        forall|x: usize| #[trigger]
                                            current.0@.contains_key(x) && !qs.take(
                                                idx as int,
                                            ).contains(x) ==> m0.contains_key(x) && current.0@[x]
                                                == m0[x],
                                    decreases qlen - idx,
                                {
                                    let a = q[idx];
                                    let b = q[idx + 1];
                                    let ghost mid = current.0@;
                                    current.insert(a, b);
                                    current.insert(b, a);
                                    proof {
                                        lemma_flip_step(m0, qs, idx as int, mid, current.0@);
                                    }
                                    idx += 2;
                                }
                                proof {
                                    assert(qs.take(qlen as int) =~= qs);
                                    assert(qs.take(qlen as int) == qs);
                                    assert(current.0@.dom() == m0.dom().union(qs.to_set()));
                                    assert forall|x: usize| #[trigger]
                                        current.0@.contains_key(x) && !qs.contains(x) implies m0
                                        .contains_key(x) && current.0@[x] == m0[x] by {
                                        assert(!qs.take(qlen as int).contains(x));
                                    }
                                    lemma_flip_augmenting_path(*graph, m0, qs, current.0@);
                                    assert(current.0@.len() == m0.len() + 2);
                                    assert(current.0@ != m0);
                                }
                                return current;
                            },
                        }
                    } else {
                        proof {
                            assert(visited@.contains(v));
                            assert forall|t: int|
                                0 <= t < j + 1 implies visited@.contains(#[trigger] members@[t]) by {
                                if t == j {
                                    assert(members@[t] == v);
                                }
                            }
                        }
                    }
                    j += 1;
                }
                proof {
                    assert(vertex_closed(*graph, visited@, u)) by {
                        assert forall|v2: usize| #[trigger] graph.has_edge(u, v2) implies visited@
                            .contains(v2) by {
                            assert(graph.edges.members_of(u).contains(v2));
                            assert(members@.contains(v2)) by {
                                assert(graph.edges.members_of(u) == members@);
                            }
                            let t = choose|t: int| 0 <= t < members@.len() && members@[t] == v2;
                            assert(visited@.contains(members@[t]));
                        }
                    }
                    assert forall|u2: usize|
                        (#[trigger] graph.is_left(u2) && !m0.contains_key(u2)) implies
                    pending_or_closed(*graph, visited@, queue@, u2) by {
                        if u2 == u {
                            assert(vertex_closed(*graph, visited@, u));
                        }
                    }
                    assert forall|x: usize|
                        #[trigger] visited@.contains(x) implies pending_or_closed(
                        *graph,
                        visited@,
                        queue@,
                        m0[x],
                    ) by {
                        if m0[x] == u {
                            assert(vertex_closed(*graph, visited@, u));
                        }
                    }
                }
            },
        }
    }
    proof {
        assert(frontier_closed(*graph, m0, visited@)) by {
            assert forall|u2: usize|
                #[trigger] graph.is_left(u2) && !m0.contains_key(u2) implies vertex_closed(
                *graph,
                visited@,
                u2,
            ) by {
                assert(pending_or_closed(*graph, visited@, queue@, u2));
                assert(queue@.len() == 0);
            }
            assert forall|x: usize| #[trigger] visited@.contains(x) implies vertex_closed(
                *graph,
                visited@,
                m0[x],
            ) by {
                assert(pending_or_closed(*graph, visited@, queue@, m0[x]));
                assert(queue@.len() == 0);
            }
        }
        lemma_closed_frontier_no_augmenting(*graph, m0, visited@);
    }
    current
}

/// Runs the single-augmenting-path primitive until it stops improving and
/// returns the matching so built: a valid matching that admits no
/// augmenting path at all. (Together with the classical theorem of Berge,
/// which is not re-proved here, the absence of augmenting paths is what
/// makes a matching maximum.)
pub fn hopcroft_karp(graph: &BipartiteGraph) -> (r: VertexMapping)
    requires
        graph.wf(),
    ensures
        matching_wf(*graph, r.0@),
        r.0@.dom().finite(),
        forall|q: Seq<usize>| !alternating_path(*graph, r.0@, q),
{
    let mut matching = VertexMapping::new();
    proof {
        lemma_matching_size_bound(*graph, matching.0@);
    }
    loop
        invariant
            graph.wf(),
            matching_wf(*graph, matching.0@),
            matching.0@.dom().finite(),
            matching.0@.len() <= graph.left_vertices@.len() + graph.right_vertices@.len(),
        ensures
            matching_wf(*graph, matching.0@),
            matching.0@.dom().finite(),
            forall|q: Seq<usize>| !alternating_path(*graph, matching.0@, q),
        decreases graph.left_vertices@.len() + graph.right_vertices@.len() + 1
            - matching.0@.len(),
    {
        let before = matching.len();
        let ghost prev = matching.0@;
        let improved = find_augmenting_match(graph, matching);
        matching = improved;
        proof {
            lemma_matching_size_bound(*graph, matching.0@);
        }
        if matching.len() == before {
            proof {
                assert(matching.0@ == prev);
            }
            return matching;
        }
    }
}

} // verus!
