//! The hypergraph store: a bidirectional incidence relation between nodes
//! and hyperedges, with structural queries (adjacency matrix, key
//! permutation, structural equality) and a textual grid rendering.
//!
//! Both sides are insertion-ordered tables. The symmetry of the relation
//! (edge `e` listed under node `v` exactly when `v` is listed under `e`) is
//! a documented caller responsibility: `add_edge` does not touch the node
//! side, so callers pair every edge insertion with `add_node` calls for the
//! edge's members.
use vstd::prelude::*;

verus! {

use crate::incidence::IncidenceTable;
use crate::incidence::is_valid_permutation;
use crate::incidence::key_ensured;
use crate::incidence::member_inserted;
use crate::incidence::permuted_keys;
use crate::incidence::tables_alike;
use crate::incidence::valid_perm;
use crate::vecs::chars_to_string;
use crate::vecs::vec_contains;
use crate::vecs::vec_eq;

pub struct Hypergraph {
    /// Each node key with the edge keys incident to it.
    pub nodes: IncidenceTable,
    /// Each edge key with the node keys incident to it.
    pub edges: IncidenceTable,
}

impl Hypergraph {
    pub open spec fn wf(self) -> bool {
        self.nodes.wf() && self.edges.wf()
    }

    /// Every node an edge lists is a key of the node table. The containment
    /// search relies on this half of the incidence symmetry.
    pub open spec fn consistent(self) -> bool {
        forall|ei: int, j: int|
            0 <= ei < self.edges.members@.len() && 0 <= j < self.edges.members@[ei]@.len()
                ==> self.nodes.keys@.contains(#[trigger] self.edges.members@[ei]@[j])
    }

    /// No nodes and no edges: the state `new()` creates.
    pub open spec fn is_empty_graph(self) -> bool {
        self.nodes.key_count() == 0 && self.edges.key_count() == 0
    }

    /// Structural equality: the same node keys and edge keys in the same
    /// order, with equal member lists.
    pub open spec fn same_as(self, other: Self) -> bool {
        tables_alike(self.nodes, other.nodes) && tables_alike(self.edges, other.edges)
    }

    pub fn new() -> (r: Self)
        ensures
            r.wf(),
            r.consistent(),
            r.is_empty_graph(),
    {
        Hypergraph { nodes: IncidenceTable::new(), edges: IncidenceTable::new() }
    }

    pub fn num_nodes(&self) -> (r: usize)
        ensures
            r == self.nodes.key_count(),
    {
        self.nodes.num_keys()
    }

    pub fn num_edges(&self) -> (r: usize)
        ensures
            r == self.edges.key_count(),
    {
        self.edges.num_keys()
    }

    /// Inserts `node` if absent and records `edge` as incident to it.
    /// Idempotent when repeated with the same pair; the edge table is not
    /// touched.
    pub fn add_node(&mut self, node: usize, edge: usize)
        requires
            old(self).wf(),
        ensures
            final(self).wf(),
            final(self).edges == old(self).edges,
            member_inserted(old(self).nodes, final(self).nodes, node, edge),
    {
        self.nodes.insert_member(node, edge);
    }

    /// Inserts `edge` if absent and unions `node_set` into its member list.
    /// The node table is not touched: callers keeping the symmetry invariant
    /// call `add_node` for every member of `node_set` as well.
    pub fn add_edge(&mut self, edge: usize, node_set: &Vec<usize>)
        requires
            old(self).wf(),
        ensures
            final(self).wf(),
            final(self).nodes == old(self).nodes,
            final(self).edges.has_key(edge),
            old(self).edges.has_key(edge) ==> final(self).edges.keys@ == old(self).edges.keys@,
            !old(self).edges.has_key(edge) ==> final(self).edges.keys@ == old(
                self,
            ).edges.keys@.push(edge),
            final(self).edges.members_of(edge).to_set() == (if old(self).edges.has_key(edge) {
                old(self).edges.members_of(edge).to_set()
            } else {
                Set::<usize>::empty()
            }).union(node_set@.to_set()),
            forall|j: int|
                0 <= j < old(self).edges.members@.len() && j != old(self).edges.key_slot(edge)
                    ==> final(self).edges.members_at(j) == old(self).edges.members_at(j),
    {
        self.edges.ensure_key(edge);
        let ghost pre = self.edges;
        let ghost pos: int = self.edges.key_index(edge);
        proof {
            if old(self).edges.has_key(edge) {
                assert(pos == old(self).edges.key_index(edge));
                assert(self.edges.members_of(edge) == old(self).edges.members_of(edge));
            } else {
                assert(self.edges.keys@ == old(self).edges.keys@.push(edge));
                assert(self.edges.keys@[old(self).edges.keys@.len() as int] == edge);
                assert(self.edges.keys@.contains(edge));
                assert(pos == old(self).edges.keys@.len() as int) by {
                    let w = self.edges.keys@.index_of(edge);
                    assert(self.edges.keys@[w] == edge);
                    if w < old(self).edges.keys@.len() {
                        assert(old(self).edges.keys@[w] == edge);
                        assert(old(self).edges.keys@.contains(edge));
                    }
                }
                assert(self.edges.members_of(edge) =~= Seq::<usize>::empty());
            }
        }
        let n = node_set.len();
        let mut i: usize = 0;
        while i < n
            invariant
                n == node_set@.len(),
                i <= n,
                self.edges.wf(),
                self.nodes == old(self).nodes,
                self.edges.keys@ == pre.keys@,
                self.edges.members@.len() == pre.members@.len(),
                0 <= pos < self.edges.members@.len(),
                pre.keys@[pos] == edge,
                self.edges.has_key(edge),
                self.edges.key_index(edge) == pos,
                forall|j: int|
                    0 <= j < self.edges.members@.len() && j != pos ==> self.edges.members_at(j)
                        == pre.members_at(j),
                self.edges.members_at(pos).to_set() == pre.members_at(pos).to_set().union(
                    node_set@.take(i as int).to_set(),
                ),
            decreases n - i,
        {
            let ghost before = self.edges;
            self.edges.insert_member(edge, node_set[i]);
            proof {
                let m = node_set@[i as int];
                assert(node_set@.take(i + 1) =~= node_set@.take(i as int).push(m));
                crate::vecs::lemma_push_to_set(node_set@.take(i as int), m);
                if before.members_of(edge).contains(m) {
                    assert(self.edges.members_at(pos) == before.members_at(pos));
                    assert(before.members_at(pos).to_set().contains(m));
                    assert(self.edges.members_at(pos).to_set() =~= pre.members_at(
                        pos,
                    ).to_set().union(node_set@.take(i + 1).to_set()));
                } else {
                    assert(self.edges.members_at(pos) == before.members_at(pos).push(m));
                    crate::vecs::lemma_push_to_set(before.members_at(pos), m);
                    assert(self.edges.members_at(pos).to_set() =~= pre.members_at(
                        pos,
                    ).to_set().union(node_set@.take(i + 1).to_set()));
                }
            }
            i += 1;
        }
        proof {
            assert(node_set@.take(n as int) =~= node_set@);
            if old(self).edges.has_key(edge) {
                assert(self.edges.keys@ == old(self).edges.keys@);
            }
        }
    }

    /// The incidence grid: one row per node, one column per edge, both in
    /// insertion order; cell `[i][j]` is true exactly when node `i` is
    /// incident to edge `j`. An empty graph yields a zero-by-zero grid.
    pub fn adjacency_matrix(&self) -> (r: Vec<Vec<bool>>)
        requires
            self.wf(),
        ensures
            r@.len() == self.nodes.key_count(),
            forall|i: int|
                0 <= i < r@.len() ==> (#[trigger] r@[i])@.len() == self.edges.key_count(),
            forall|i: int, j: int|
                0 <= i < r@.len() && 0 <= j < self.edges.key_count() ==> r@[i]@[j]
                    == self.nodes.members_at(i).contains(self.edges.keys@[j]),
    {
        let n = self.nodes.num_keys();
        let m = self.edges.num_keys();
        let mut matrix: Vec<Vec<bool>> = Vec::new();
        let mut i: usize = 0;
        while i < n
            invariant
                self.wf(),
                n == self.nodes.key_count(),
                m == self.edges.key_count(),
                i <= n,
                matrix@.len() == i,
                forall|a: int| 0 <= a < i ==> (#[trigger] matrix@[a])@.len() == m,
                forall|a: int, b: int|
                    0 <= a < i && 0 <= b < m ==> matrix@[a]@[b] == self.nodes.members_at(
                        a,
                    ).contains(self.edges.keys@[b]),
            decreases n - i,
        {
            let mut row: Vec<bool> = Vec::new();
            let mut j: usize = 0;
            while j < m
                invariant
                    self.wf(),
                    n == self.nodes.key_count(),
                    m == self.edges.key_count(),
                    i < n,
                    j <= m,
                    row@.len() == j,
                    forall|b: int|
                        0 <= b < j ==> row@[b] == self.nodes.members_at(i as int).contains(
                            self.edges.keys@[b],
                        ),
                decreases m - j,
            {
                let cell = vec_contains(self.nodes.members_at_index(i), self.edges.keys[j]);
                row.push(cell);
                j += 1;
            }
            matrix.push(row);
            i += 1;
        }
        matrix
    }

    /// Relabels node keys and edge keys through the two index arrays. When
    /// both arrays are bijections of the right lengths the result holds, at
    /// each position, the key drawn from the source position the array
    /// names, with the member lists unmoved; on any violation (wrong
    /// length, index out of range, duplicate index) the graph is returned
    /// unchanged. Callers needing strict validation check the arrays first
    /// with `is_valid_permutation`.
    pub fn permute(&self, node_permutation: &Vec<usize>, edge_permutation: &Vec<usize>) -> (r: Self)
        requires
            self.wf(),
        ensures
            r.wf(),
            valid_perm(node_permutation@, self.nodes.key_count()) && valid_perm(
                edge_permutation@,
                self.edges.key_count(),
            ) ==> is_permutation_of(r, *self, node_permutation@, edge_permutation@),
            !(valid_perm(node_permutation@, self.nodes.key_count()) && valid_perm(
                edge_permutation@,
                self.edges.key_count(),
            )) ==> r.same_as(*self),
    {
        let nodes_ok = is_valid_permutation(node_permutation, self.nodes.num_keys());
        let edges_ok = is_valid_permutation(edge_permutation, self.edges.num_keys());
        if nodes_ok && edges_ok {
            Hypergraph {
                nodes: self.nodes.permute(node_permutation),
                edges: self.edges.permute(edge_permutation),
            }
        } else {
            self.clone()
        }
    }

    /// The grid of `adjacency_matrix` as text: each row preceded by a line
    /// break, then one symbol per edge column, `true_symbol` for an
    /// incidence and `false_symbol` for its absence.
    pub fn render_with(&self, true_symbol: char, false_symbol: char) -> (r: String)
        requires
            self.wf(),
        ensures
            r@ == self.grid_chars(self.nodes.key_count() as int, true_symbol, false_symbol),
    {
        let n = self.nodes.num_keys();
        let m = self.edges.num_keys();
        let mut out: Vec<char> = Vec::new();
        let mut i: usize = 0;
        while i < n
            invariant
                self.wf(),
                n == self.nodes.key_count(),
                m == self.edges.key_count(),
                i <= n,
                out@ == self.grid_chars(i as int, true_symbol, false_symbol),
            decreases n - i,
        {
            out.push('\n');
            let mut j: usize = 0;
            while j < m
                invariant
                    self.wf(),
                    n == self.nodes.key_count(),
                    m == self.edges.key_count(),
                    i < n,
                    j <= m,
                    out@ == self.grid_chars(i as int, true_symbol, false_symbol) + seq!['\n']
                        + self.row_chars(i as int, true_symbol, false_symbol).take(j as int),
                decreases m - j,
            {
                let cell = vec_contains(self.nodes.members_at_index(i), self.edges.keys[j]);
                out.push(if cell {
                    true_symbol
                } else {
                    false_symbol
                });
                proof {
                    let row = self.row_chars(i as int, true_symbol, false_symbol);
                    assert(row.take(j + 1) =~= row.take(j as int).push(row[j as int]));
                }
                j += 1;
            }
            proof {
                let row = self.row_chars(i as int, true_symbol, false_symbol);
                assert(row.take(m as int) =~= row);
                assert(out@ == self.grid_chars(i + 1, true_symbol, false_symbol));
            }
            i += 1;
        }
        chars_to_string(out)
    }

    /// Rendering with the default symbols: `@` for an incidence, a space
    /// for its absence.
    pub fn render(&self) -> (r: String)
        requires
            self.wf(),
        ensures
            r@ == self.grid_chars(self.nodes.key_count() as int, '@', ' '),
    {
        self.render_with('@', ' ')
    }

    /// The characters of row `i` of the rendered grid.
    pub open spec fn row_chars(self, i: int, t: char, f: char) -> Seq<char> {
        Seq::new(
            self.edges.key_count(),
            |j: int|
                if self.nodes.members_at(i).contains(self.edges.keys@[j]) {
                    t
                } else {
                    f
                },
        )
    }

    /// The characters of the first `k` rows of the rendered grid, each row
    /// preceded by a line break.
    pub open spec fn grid_chars(self, k: int, t: char, f: char) -> Seq<char>
        decreases k,
    {
        if k <= 0 {
            Seq::empty()
        } else {
            self.grid_chars(k - 1, t, f) + seq!['\n'] + self.row_chars(k - 1, t, f)
        }
    }
}

impl Clone for Hypergraph {
    /// A structural copy: the copy is `same_as` the original.
    fn clone(&self) -> (r: Self)
        ensures
            r.same_as(*self),
            self.wf() ==> r.wf(),
    {
        let nodes = self.nodes.clone();
        let edges = self.edges.clone();
        proof {
            if self.wf() {
                crate::incidence::lemma_alike_wf(nodes, self.nodes);
                crate::incidence::lemma_alike_wf(edges, self.edges);
            }
        }
        Hypergraph { nodes, edges }
    }
}

impl PartialEq for Hypergraph {
    fn eq(&self, other: &Self) -> bool {
        vec_eq(&self.nodes.keys, &other.nodes.keys) && vec_eq(&self.edges.keys, &other.edges.keys)
            && table_members_eq(&self.nodes, &other.nodes) && table_members_eq(
            &self.edges,
            &other.edges,
        )
    }
}

impl vstd::std_specs::cmp::PartialEqSpecImpl for Hypergraph {
    open spec fn obeys_eq_spec() -> bool {
        true
    }

    open spec fn eq_spec(&self, other: &Hypergraph) -> bool {
        self.same_as(*other)
    }
}

/// Compares the member lists of two tables position for position.
fn table_members_eq(a: &IncidenceTable, b: &IncidenceTable) -> (r: bool)
    ensures
        r == (a.members@.len() == b.members@.len() && forall|i: int|
            0 <= i < a.members@.len() ==> a.members_at(i) == b.members_at(i)),
{
    if a.members.len() != b.members.len() {
        return false;
    }
    let n = a.members.len();
    let mut i: usize = 0;
    while i < n
        invariant
            n == a.members@.len(),
            n == b.members@.len(),
            i <= n,
            forall|j: int| 0 <= j < i ==> a.members_at(j) == b.members_at(j),
        decreases n - i,
    {
        if !vec_eq(&a.members[i], &b.members[i]) {
            proof {
                assert(a.members_at(i as int) != b.members_at(i as int));
            }
            return false;
        }
        i += 1;
    }
    true
}

/// A line of input becomes a hyperedge exactly when it names at least two
/// distinct nodes.
pub open spec fn line_qualifies(s: Seq<usize>) -> bool {
    s.to_set().len() >= 2
}

/// The number of distinct values in a list.
pub fn distinct_count(list: &Vec<usize>) -> (r: usize)
    ensures
        r == list@.to_set().len(),
{
    let mut seen: Vec<usize> = Vec::new();
    let n = list.len();
    let mut i: usize = 0;
    while i < n
        invariant
            n == list@.len(),
            i <= n,
            seen@.no_duplicates(),
            seen@.to_set() == list@.take(i as int).to_set(),
        decreases n - i,
    {
        let w = list[i];
        proof {
            assert(list@.take(i + 1) =~= list@.take(i as int).push(w));
            crate::vecs::lemma_push_to_set(list@.take(i as int), w);
        }
        if !vec_contains(&seen, w) {
            proof {
                crate::vecs::lemma_push_to_set(seen@, w);
                assert(!seen@.to_set().contains(w)) by {
                    if seen@.to_set().contains(w) {
                        let t = choose|t: int| 0 <= t < seen@.len() && seen@[t] == w;
                    }
                }
            }
            seen.push(w);
        } else {
            proof {
                assert(seen@.to_set().contains(w));
                assert(list@.take(i as int).to_set().insert(w) =~= list@.take(i as int).to_set());
            }
        }
        i += 1;
    }
    proof {
        assert(list@.take(n as int) =~= list@);
        seen@.unique_seq_to_set();
    }
    seen.len()
}

/// Builds a hypergraph from per-line member lists, as the line-oriented
/// input format has it: line `e` (numbering from zero) becomes hyperedge
/// `e` when it names at least two distinct nodes and is skipped otherwise,
/// and every kept member is paired with a node entry, so the incidence
/// relation comes out symmetric.
pub fn from_member_lists(lists: &Vec<Vec<usize>>) -> (r: Hypergraph)
    ensures
        r.wf(),
        r.consistent(),
        forall|f: usize|
            #[trigger] r.edges.has_key(f) <==> (f < lists@.len() && line_qualifies(
                lists@[f as int]@,
            )),
        forall|f: usize|
            #[trigger] r.edges.has_key(f) ==> r.edges.members_of(f).to_set()
                == lists@[f as int]@.to_set(),
        forall|v: usize, f: usize|
            #[trigger] r.nodes.links(v, f) <==> (f < lists@.len() && line_qualifies(
                lists@[f as int]@,
            ) && lists@[f as int]@.contains(v)),
{
    let mut hg = Hypergraph::new();
    let n = lists.len();
    let mut e: usize = 0;
    while e < n
        invariant
            n == lists@.len(),
            e <= n,
            hg.wf(),
            hg.consistent(),
            forall|f: usize|
                #[trigger] hg.edges.has_key(f) <==> (f < e && line_qualifies(lists@[f as int]@)),
            forall|f: usize|
                #[trigger] hg.edges.has_key(f) ==> hg.edges.members_of(f).to_set()
                    == lists@[f as int]@.to_set(),
            forall|v: usize, f: usize|
                #[trigger] hg.nodes.links(v, f) <==> (f < e && line_qualifies(lists@[f as int]@)
                    && lists@[f as int]@.contains(v)),
        decreases n - e,
    {
        let list = &lists[e];
        if distinct_count(list) >= 2 {
            let m = list.len();
            let mut j: usize = 0;
            while j < m
                invariant
                    n == lists@.len(),
                    e < n,
                    m == list@.len(),
                    list@ == lists@[e as int]@,
                    j <= m,
                    line_qualifies(lists@[e as int]@),
                    hg.wf(),
                    hg.consistent(),
                    forall|f: usize|
                        #[trigger] hg.edges.has_key(f) <==> (f < e && line_qualifies(
                            lists@[f as int]@,
                        )),
                    forall|f: usize|
                        #[trigger] hg.edges.has_key(f) ==> hg.edges.members_of(f).to_set()
                            == lists@[f as int]@.to_set(),
                    forall|v: usize, f: usize|
                        #[trigger] hg.nodes.links(v, f) <==> ((f < e && line_qualifies(
                            lists@[f as int]@,
                        ) && lists@[f as int]@.contains(v)) || (f == e && lists@[e as int]@.take(
                            j as int,
                        ).contains(v))),
                decreases m - j,
            {
                let w = list[j];
                let ghost nodes_pre = hg.nodes;
                hg.add_node(w, e);
                proof {
                    crate::incidence::lemma_inserted_links(nodes_pre, hg.nodes, w, e);
                    assert(lists@[e as int]@.take(j + 1) =~= lists@[e as int]@.take(
                        j as int,
                    ).push(w));
                    assert forall|v: usize, f: usize|
                        #[trigger] hg.nodes.links(v, f) <==> ((f < e && line_qualifies(
                            lists@[f as int]@,
                        ) && lists@[f as int]@.contains(v)) || (f == e && lists@[e as int]@.take(
                            j + 1,
                        ).contains(v))) by {
                        if v == w && f == e {
                            assert(lists@[e as int]@.take(j + 1)[j as int] == w);
                        }
                        if hg.nodes.links(v, f) && !(v == w && f == e) {
                            assert(nodes_pre.links(v, f));
                        }
                        if f == e && lists@[e as int]@.take(j + 1).contains(v) && v != w {
                            let s = lists@[e as int]@.take(j + 1);
                            let t = choose|t: int| 0 <= t < s.len() && s[t] == v;
                            assert(lists@[e as int]@.take(j as int)[t] == v);
                        }
                    }
                    assert(hg.consistent()) by {
                        assert forall|ei: int, jj: int|
                            0 <= ei < hg.edges.members@.len() && 0 <= jj
                                < hg.edges.members@[ei]@.len() implies hg.nodes.keys@.contains(
                            #[trigger] hg.edges.members@[ei]@[jj],
                        ) by {
                            assert(nodes_pre.keys@.contains(hg.edges.members@[ei]@[jj]));
                            assert(nodes_pre.has_key(hg.edges.members@[ei]@[jj]));
                            assert(hg.nodes.has_key(hg.edges.members@[ei]@[jj]));
                        }
                    }
                }
                j += 1;
            }
            let ghost pre = hg;
            hg.add_edge(e, list);
            proof {
                assert(!pre.edges.has_key(e));
                assert(hg.edges.keys@ == pre.edges.keys@.push(e));
                crate::incidence::lemma_key_appended(pre.edges, hg.edges, e);
                assert(pre.edges.key_slot(e) == pre.edges.keys@.len() as int);
                assert(hg.edges.members_of(e).to_set() =~= lists@[e as int]@.to_set()) by {
                    assert(hg.edges.members_of(e).to_set() == Set::<usize>::empty().union(
                        list@.to_set(),
                    ));
                }
                assert forall|f: usize|
                    #[trigger] hg.edges.has_key(f) && f != e implies hg.edges.members_of(f)
                    == pre.edges.members_of(f) && pre.edges.has_key(f) by {
                    assert(hg.edges.key_index(f) == pre.edges.key_index(f));
                    assert(0 <= pre.edges.key_index(f) < pre.edges.members@.len()) by {
                        assert(exists|t: int|
                            0 <= t < pre.edges.keys@.len() && pre.edges.keys@[t] == f);
                    }
                }
                assert(lists@[e as int]@.take(m as int) =~= lists@[e as int]@);
                assert(hg.consistent()) by {
                    assert forall|ei: int, jj: int|
                        0 <= ei < hg.edges.members@.len() && 0 <= jj
                            < hg.edges.members@[ei]@.len() implies hg.nodes.keys@.contains(
                        #[trigger] hg.edges.members@[ei]@[jj],
                    ) by {
                        let mm = hg.edges.members@[ei]@[jj];
                        if ei < pre.edges.members@.len() {
                            assert(hg.edges.members_at(ei) == pre.edges.members_at(ei));
                        } else {
                            assert(ei == pre.edges.members@.len());
                            assert(hg.edges.key_index(e) == ei);
                            assert(hg.edges.members_of(e).contains(mm));
                            assert(hg.edges.members_of(e).to_set().contains(mm));
                            assert(lists@[e as int]@.to_set().contains(mm));
                            let t = choose|t: int|
                                0 <= t < lists@[e as int]@.len() && lists@[e as int]@[t] == mm;
                            assert(hg.nodes.links(mm, e));
                        }
                    }
                }
            }
        } else {
            proof {
                assert(!line_qualifies(lists@[e as int]@));
            }
        }
        proof {
            assert forall|f: usize|
                #[trigger] hg.edges.has_key(f) <==> (f < e + 1 && line_qualifies(
                    lists@[f as int]@,
                )) by {}
        }
        e += 1;
    }
    hg
}

/// The permuted graph `post` relates to `pre` through index arrays `np`
/// (nodes) and `ep` (edges): keys relabeled, member lists unmoved.
pub open spec fn is_permutation_of(
    post: Hypergraph,
    pre: Hypergraph,
    np: Seq<usize>,
    ep: Seq<usize>,
) -> bool {
    &&& post.nodes.keys@ == permuted_keys(pre.nodes.keys@, np)
    &&& post.nodes.members@.len() == pre.nodes.members@.len()
    &&& forall|i: int|
        0 <= i < pre.nodes.members@.len() ==> post.nodes.members_at(i) == pre.nodes.members_at(i)
    &&& post.edges.keys@ == permuted_keys(pre.edges.keys@, ep)
    &&& post.edges.members@.len() == pre.edges.members@.len()
    &&& forall|i: int|
        0 <= i < pre.edges.members@.len() ==> post.edges.members_at(i) == pre.edges.members_at(i)
}

/// `q` undoes `p`: both are bijections of `0..n` and `p[q[i]] == i`
/// everywhere (equivalently, for bijections, `q[p[i]] == i`).
pub open spec fn inverse_perms(p: Seq<usize>, q: Seq<usize>, n: nat) -> bool {
    &&& valid_perm(p, n)
    &&& valid_perm(q, n)
    &&& forall|i: int| 0 <= i < n ==> p[#[trigger] q[i] as int] as int == i
}

/// Round-trip law: permuting a hypergraph by `(np, ep)` and the result by
/// inverse permutations `(npi, epi)` gives back a graph structurally equal
/// to the original.
pub proof fn lemma_permute_round_trip(
    h: Hypergraph,
    h1: Hypergraph,
    h2: Hypergraph,
    np: Seq<usize>,
    ep: Seq<usize>,
    npi: Seq<usize>,
    epi: Seq<usize>,
)
    requires
        inverse_perms(np, npi, h.nodes.key_count()),
        inverse_perms(ep, epi, h.edges.key_count()),
        is_permutation_of(h1, h, np, ep),
        is_permutation_of(h2, h1, npi, epi),
    ensures
        h2.same_as(h),
{
    assert(h2.nodes.keys@ =~= h.nodes.keys@) by {
        assert forall|i: int| 0 <= i < h.nodes.keys@.len() implies h2.nodes.keys@[i]
            == h.nodes.keys@[i] by {
            assert(h2.nodes.keys@[i] == h1.nodes.keys@[npi[i] as int]);
            assert(h1.nodes.keys@[npi[i] as int] == h.nodes.keys@[np[npi[i] as int] as int]);
        }
    }
    assert(h2.edges.keys@ =~= h.edges.keys@) by {
        assert forall|i: int| 0 <= i < h.edges.keys@.len() implies h2.edges.keys@[i]
            == h.edges.keys@[i] by {
            assert(h2.edges.keys@[i] == h1.edges.keys@[epi[i] as int]);
            assert(h1.edges.keys@[epi[i] as int] == h.edges.keys@[ep[epi[i] as int] as int]);
        }
    }
}

} // verus!
