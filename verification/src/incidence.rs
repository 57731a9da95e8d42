//! An insertion-ordered association from integer keys to duplicate-free
//! member lists. It is the storage shared by both sides of a hypergraph
//! (nodes with their incident edges, edges with their incident nodes) and
//! by the adjacency of a bipartite graph. Keys keep the order in which they
//! were first inserted, so that derived orderings (such as the rows and
//! columns of an adjacency matrix) are stable on an unmodified value.
use vstd::prelude::*;

verus! {

use vstd::pervasive::VecAdditionalExecFns;
use crate::vecs::copy_vec;
use crate::vecs::vec_contains;

pub struct IncidenceTable {
    pub keys: Vec<usize>,
    pub members: Vec<Vec<usize>>,
}

impl IncidenceTable {
    /// Well-formed: one member list per key, no key twice, no member twice
    /// within one list.
    pub open spec fn wf(self) -> bool {
        &&& self.keys@.len() == self.members@.len()
        &&& self.keys@.no_duplicates()
        &&& forall|i: int|
            0 <= i < self.members@.len() ==> (#[trigger] self.members@[i])@.no_duplicates()
    }

    pub open spec fn key_count(self) -> nat {
        self.keys@.len()
    }

    pub open spec fn has_key(self, k: usize) -> bool {
        self.keys@.contains(k)
    }

    /// Position of a key in insertion order (meaningful when `has_key`).
    pub open spec fn key_index(self, k: usize) -> int {
        self.keys@.index_of(k)
    }

    pub open spec fn members_at(self, i: int) -> Seq<usize> {
        self.members@[i]@
    }

    /// The position a key occupies, or would occupy if appended now.
    pub open spec fn key_slot(self, k: usize) -> int {
        if self.has_key(k) {
            self.key_index(k)
        } else {
            self.keys@.len() as int
        }
    }

    pub open spec fn members_of(self, k: usize) -> Seq<usize> {
        self.members_at(self.key_index(k))
    }

    /// Key `k` is present and lists `m` among its members.
    pub open spec fn links(self, k: usize, m: usize) -> bool {
        self.has_key(k) && self.members_of(k).contains(m)
    }

    pub fn new() -> (r: Self)
        ensures
            r.wf(),
            r.key_count() == 0,
    {
        IncidenceTable { keys: Vec::new(), members: Vec::new() }
    }

    pub fn num_keys(&self) -> (r: usize)
        ensures
            r == self.key_count(),
    {
        self.keys.len()
    }

    /// Position of `k` in insertion order, if present.
    pub fn index_of_key(&self, k: usize) -> (r: Option<usize>)
        requires
            self.wf(),
        ensures
            match r {
                Some(i) => i < self.key_count() && self.keys@[i as int] == k && self.has_key(k)
                    && self.key_index(k) == i,
                None => !self.has_key(k),
            },
    {
        let n = self.keys.len();
        let mut i: usize = 0;
        while i < n
            invariant
                n == self.keys@.len(),
                i <= n,
                forall|j: int| 0 <= j < i ==> self.keys@[j] != k,
                self.keys@.no_duplicates(),
            decreases n - i,
        {
            if self.keys[i] == k {
                proof {
                    assert(self.keys@.contains(k));
                    let w = self.keys@.index_of(k);
                    assert(0 <= w < self.keys@.len() && self.keys@[w] == k);
                    assert(w == i);
                }
                return Some(i);
            }
            i += 1;
        }
        proof {
            assert(forall|j: int| 0 <= j < self.keys@.len() ==> self.keys@[j] != k);
        }
        None
    }

    /// The member list stored at position `i`.
    pub fn members_at_index(&self, i: usize) -> (r: &Vec<usize>)
        requires
            self.wf(),
            i < self.key_count(),
        ensures
            r@ == self.members_at(i as int),
    {
        &self.members[i]
    }

    /// Associates `m` with `k`: appends the key when it is new, appends the
    /// member to the key's list when the list lacks it, and otherwise leaves
    /// the table unchanged. Idempotent on a repeated pair.
    pub fn insert_member(&mut self, k: usize, m: usize)
        requires
            old(self).wf(),
        ensures
            final(self).wf(),
            member_inserted(*old(self), *final(self), k, m),
    {
        let pos = self.index_of_key(k);
        match pos {
            Some(i) => {
                if !vec_contains(&self.members[i], m) {
                    let mut list = copy_vec(&self.members[i]);
                    list.push(m);
                    self.members.set(i, list);
                    proof {
                        assert(self.members@[i as int]@ == old(self).members@[i as int]@.push(m));
                    }
                }
            },
            None => {
                self.keys.push(k);
                let mut single: Vec<usize> = Vec::new();
                single.push(m);
                self.members.push(single);
                proof {
                    assert(self.members_at(old(self).keys@.len() as int) =~= seq![m]);
                }
            },
        }
    }

    /// Makes `k` a key of the table, with an empty member list when it was
    /// absent; a present key is left exactly as it was.
    pub fn ensure_key(&mut self, k: usize)
        requires
            old(self).wf(),
        ensures
            final(self).wf(),
            key_ensured(*old(self), *final(self), k),
    {
        if self.index_of_key(k).is_none() {
            self.keys.push(k);
            self.members.push(Vec::new());
            proof {
                assert(self.members_at(old(self).keys@.len() as int) =~= Seq::<usize>::empty());
            }
        }
    }
}

impl Clone for IncidenceTable {
    /// An element-for-element copy; the copy's view equals the original's.
    fn clone(&self) -> (r: Self)
        ensures
            tables_alike(r, *self),
    {
        let n = self.members.len();
        let mut new_members: Vec<Vec<usize>> = Vec::new();
        let mut i: usize = 0;
        while i < n
            invariant
                n == self.members@.len(),
                i <= n,
                new_members@.len() == i,
                forall|j: int|
                    0 <= j < i ==> (#[trigger] new_members@[j])@ == self.members@[j]@,
            decreases n - i,
        {
            new_members.push(copy_vec(&self.members[i]));
            i += 1;
        }
        IncidenceTable { keys: copy_vec(&self.keys), members: new_members }
    }
}

/// Two tables hold the same keys in the same order and, position for
/// position, equal member lists.
pub open spec fn tables_alike(a: IncidenceTable, b: IncidenceTable) -> bool {
    &&& a.keys@ == b.keys@
    &&& a.members@.len() == b.members@.len()
    &&& forall|i: int| 0 <= i < a.members@.len() ==> a.members_at(i) == b.members_at(i)
}

/// A table alike to a well-formed table is well-formed itself.
pub proof fn lemma_alike_wf(a: IncidenceTable, b: IncidenceTable)
    requires
        tables_alike(a, b),
        b.wf(),
    ensures
        a.wf(),
{
    assert forall|i: int| 0 <= i < a.members@.len() implies (
    #[trigger] a.members@[i])@.no_duplicates() by {
        assert(a.members_at(i) == b.members_at(i));
    }
}

/// How `insert_member(k, m)` changes a table: a new key is appended with a
/// one-member list; an existing key keeps its position, and `m` is appended
/// to its list exactly when the list lacked it. Nothing else moves.
pub open spec fn member_inserted(pre: IncidenceTable, post: IncidenceTable, k: usize, m: usize) -> bool {
    &&& pre.has_key(k) ==> {
        &&& post.keys@ == pre.keys@
        &&& post.members@.len() == pre.members@.len()
        &&& forall|j: int|
            0 <= j < post.members@.len() && j != pre.key_index(k) ==> post.members_at(j)
                == pre.members_at(j)
        &&& (pre.members_of(k).contains(m) ==> post.members_at(pre.key_index(k))
            == pre.members_of(k))
        &&& (!pre.members_of(k).contains(m) ==> post.members_at(pre.key_index(k))
            == pre.members_of(k).push(m))
    }
    &&& !pre.has_key(k) ==> {
        &&& post.keys@ == pre.keys@.push(k)
        &&& post.members@.len() == pre.members@.len() + 1
        &&& forall|j: int|
            0 <= j < pre.members@.len() ==> post.members_at(j) == pre.members_at(j)
        &&& post.members_at(pre.keys@.len() as int) =~= seq![m]
    }
}

/// How `ensure_key(k)` changes a table: a missing key is appended with an
/// empty member list; a present key leaves the table untouched.
pub open spec fn key_ensured(pre: IncidenceTable, post: IncidenceTable, k: usize) -> bool {
    &&& pre.has_key(k) ==> post == pre
    &&& !pre.has_key(k) ==> {
        &&& post.keys@ == pre.keys@.push(k)
        &&& post.members@.len() == pre.members@.len() + 1
        &&& forall|j: int|
            0 <= j < pre.members@.len() ==> post.members_at(j) == pre.members_at(j)
        &&& post.members_at(pre.keys@.len() as int) =~= Seq::<usize>::empty()
    }
}

/// What `insert_member(k, m)` means for the link relation: exactly the
/// pair `(k, m)` is added, and a key exists afterwards exactly when it
/// existed before or is `k`.
pub proof fn lemma_inserted_links(pre: IncidenceTable, post: IncidenceTable, k: usize, m: usize)
    requires
        pre.wf(),
        post.wf(),
        member_inserted(pre, post, k, m),
    ensures
        forall|a: usize, b: usize|
            #[trigger] post.links(a, b) <==> (pre.links(a, b) || (a == k && b == m)),
        forall|a: usize| #[trigger] post.has_key(a) <==> (pre.has_key(a) || a == k),
{
    if pre.has_key(k) {
        let ki = pre.key_index(k);
        assert(0 <= ki < pre.keys@.len() && pre.keys@[ki] == k) by {
            assert(exists|w: int| 0 <= w < pre.keys@.len() && pre.keys@[w] == k);
        }
        assert forall|a: usize| #[trigger] post.has_key(a) <==> (pre.has_key(a) || a == k) by {}
        assert forall|a: usize, b: usize|
            #[trigger] post.links(a, b) <==> (pre.links(a, b) || (a == k && b == m)) by {
            if post.has_key(a) {
                let ai = post.keys@.index_of(a);
                assert(0 <= ai < post.keys@.len() && post.keys@[ai] == a) by {
                    assert(exists|w: int| 0 <= w < post.keys@.len() && post.keys@[w] == a);
                }
                assert(pre.key_index(a) == ai) by {
                    assert(exists|w: int| 0 <= w < pre.keys@.len() && pre.keys@[w] == a);
                    let w = pre.keys@.index_of(a);
                    assert(pre.keys@[w] == a);
                }
                if a == k {
                    assert(ai == ki);
                    if !pre.members_of(k).contains(m) {
                        assert(post.members_at(ki) == pre.members_of(k).push(m));
                        assert forall|b2: usize|
                            post.members_at(ki).contains(b2) <==> (pre.members_of(k).contains(b2)
                                || b2 == m) by {
                            if post.members_at(ki).contains(b2) {
                                let w = choose|w: int|
                                    0 <= w < post.members_at(ki).len() && post.members_at(ki)[w]
                                        == b2;
                                if w < pre.members_of(k).len() {
                                    assert(pre.members_of(k)[w] == b2);
                                }
                            } else {
                                if pre.members_of(k).contains(b2) {
                                    let w = choose|w: int|
                                        0 <= w < pre.members_of(k).len() && pre.members_of(k)[w]
                                            == b2;
                                    assert(post.members_at(ki)[w] == b2);
                                }
                                assert(post.members_at(ki)[pre.members_of(k).len() as int] == m);
                            }
                        }
                    }
                } else {
                    assert(ai != ki);
                    assert(post.members_at(ai) == pre.members_at(ai));
                }
            } else {
                assert(!pre.has_key(a));
            }
        }
    } else {
        assert(post.keys@ == pre.keys@.push(k));
        assert forall|a: usize| #[trigger] post.has_key(a) <==> (pre.has_key(a) || a == k) by {
            if post.has_key(a) {
                let w = choose|w: int| 0 <= w < post.keys@.len() && post.keys@[w] == a;
                if w < pre.keys@.len() {
                    assert(pre.keys@[w] == a);
                }
            } else {
                if pre.has_key(a) {
                    let w = choose|w: int| 0 <= w < pre.keys@.len() && pre.keys@[w] == a;
                    assert(post.keys@[w] == a);
                }
                assert(post.keys@[pre.keys@.len() as int] == k);
            }
        }
        assert forall|a: usize, b: usize|
            #[trigger] post.links(a, b) <==> (pre.links(a, b) || (a == k && b == m)) by {
            if post.has_key(a) {
                let ai = post.keys@.index_of(a);
                assert(0 <= ai < post.keys@.len() && post.keys@[ai] == a) by {
                    assert(exists|w: int| 0 <= w < post.keys@.len() && post.keys@[w] == a);
                }
                if a == k {
                    assert(ai == pre.keys@.len() as int) by {
                        if ai < pre.keys@.len() {
                            assert(pre.keys@[ai] == k);
                        }
                    }
                    assert(post.members_at(ai) =~= seq![m]);
                    assert(post.members_at(ai).contains(m)) by {
                        assert(post.members_at(ai)[0] == m);
                    }
                    assert forall|b2: usize| post.members_at(ai).contains(b2) implies b2 == m by {
                        let w = choose|w: int|
                            0 <= w < post.members_at(ai).len() && post.members_at(ai)[w] == b2;
                    }
                    assert(!pre.has_key(k));
                } else {
                    assert(ai < pre.keys@.len()) by {
                        if ai == pre.keys@.len() {
                            assert(post.keys@[ai] == k);
                        }
                    }
                    assert(pre.keys@[ai] == a);
                    assert(pre.key_index(a) == ai) by {
                        assert(exists|w: int| 0 <= w < pre.keys@.len() && pre.keys@[w] == a);
                        let w = pre.keys@.index_of(a);
                        assert(pre.keys@[w] == a);
                    }
                    assert(post.members_at(ai) == pre.members_at(ai));
                }
            } else {
                assert(!pre.has_key(a));
            }
        }
    }
}

/// Appending a fresh key moves no existing key: every old key keeps its
/// position, and the new key sits at the end.
pub proof fn lemma_key_appended(pre: IncidenceTable, post: IncidenceTable, k: usize)
    requires
        pre.wf(),
        post.keys@ == pre.keys@.push(k),
        !pre.has_key(k),
    ensures
        forall|a: usize| #[trigger] post.has_key(a) <==> (pre.has_key(a) || a == k),
        forall|a: usize| #[trigger] pre.has_key(a) ==> post.key_index(a) == pre.key_index(a),
        post.key_index(k) == pre.keys@.len(),
{
    assert(post.keys@[pre.keys@.len() as int] == k);
    assert forall|a: usize| #[trigger] post.has_key(a) <==> (pre.has_key(a) || a == k) by {
        if post.has_key(a) {
            let w = choose|w: int| 0 <= w < post.keys@.len() && post.keys@[w] == a;
            if w < pre.keys@.len() {
                assert(pre.keys@[w] == a);
            }
        } else {
            if pre.has_key(a) {
                let w = choose|w: int| 0 <= w < pre.keys@.len() && pre.keys@[w] == a;
                assert(post.keys@[w] == a);
            }
        }
    }
    assert forall|a: usize| #[trigger] pre.has_key(a) implies post.key_index(a) == pre.key_index(
        a,
    ) by {
        let w = pre.keys@.index_of(a);
        assert(0 <= w < pre.keys@.len() && pre.keys@[w] == a) by {
            assert(exists|t: int| 0 <= t < pre.keys@.len() && pre.keys@[t] == a);
        }
        assert(post.keys@[w] == a);
        assert(post.keys@.contains(a));
        let w2 = post.keys@.index_of(a);
        assert(0 <= w2 < post.keys@.len() && post.keys@[w2] == a) by {
            assert(exists|t: int| 0 <= t < post.keys@.len() && post.keys@[t] == a);
        }
        assert(w2 == w) by {
            if w2 < pre.keys@.len() {
                assert(pre.keys@[w2] == a);
            } else {
                assert(post.keys@[w2] == k);
            }
        }
    }
    assert(post.keys@.contains(k));
    let w = post.keys@.index_of(k);
    assert(0 <= w < post.keys@.len() && post.keys@[w] == k) by {
        assert(exists|t: int| 0 <= t < post.keys@.len() && post.keys@[t] == k);
    }
    assert(w == pre.keys@.len()) by {
        if w < pre.keys@.len() {
            assert(pre.keys@[w] == k);
        }
    }
}

/// `p` is a bijection of `0..n` written as an array of target indices.
pub open spec fn valid_perm(p: Seq<usize>, n: nat) -> bool {
    &&& p.len() == n
    &&& forall|i: int| 0 <= i < p.len() ==> (#[trigger] p[i]) < n
    &&& p.no_duplicates()
}

/// The key sequence that arises from relabeling positions through `p`:
/// position `i` takes the key previously found at position `p[i]`.
pub open spec fn permuted_keys(keys: Seq<usize>, p: Seq<usize>) -> Seq<usize> {
    Seq::new(keys.len(), |i: int| keys[p[i] as int])
}

/// Checks that `p` has length `n` and is a bijection on `0..n`.
pub fn is_valid_permutation(p: &Vec<usize>, n: usize) -> (r: bool)
    ensures
        r == valid_perm(p@, n as nat),
{
    if p.len() != n {
        return false;
    }
    let mut seen: Vec<bool> = Vec::new();
    let mut i: usize = 0;
    while i < n
        invariant
            i <= n,
            seen@.len() == i,
            forall|j: int| 0 <= j < i ==> seen@[j] == false,
        decreases n - i,
    {
        seen.push(false);
        i += 1;
    }
    let mut i: usize = 0;
    while i < n
        invariant
            n == p@.len(),
            i <= n,
            seen@.len() == n,
            forall|j: int| 0 <= j < i ==> (#[trigger] p@[j]) < n,
            forall|j: int, l: int| 0 <= j < l < i ==> p@[j] != p@[l],
            forall|v: int|
                0 <= v < n ==> ((#[trigger] seen@[v]) <==> exists|j: int|
                    0 <= j < i && p@[j] == v),
        decreases n - i,
    {
        let t = p[i];
        if t >= n {
            return false;
        }
        if seen[t] {
            proof {
                let j = choose|j: int| 0 <= j < i && p@[j] == t;
                assert(p@[j] == p@[i as int]);
            }
            return false;
        }
        seen.set(t, true);
        i += 1;
    }
    proof {
        assert(p@.no_duplicates());
    }
    true
}

impl IncidenceTable {
    /// Relabels key positions through `p`: the key at position `i` of the
    /// result is the key the table held at position `p[i]`, while every
    /// member list stays at its position. The caller has checked that `p`
    /// is a bijection of the right length.
    pub fn permute(&self, p: &Vec<usize>) -> (r: Self)
        requires
            self.wf(),
            valid_perm(p@, self.key_count()),
        ensures
            r.wf(),
            r.keys@ == permuted_keys(self.keys@, p@),
            r.members@.len() == self.members@.len(),
            forall|i: int| 0 <= i < r.members@.len() ==> r.members_at(i) == self.members_at(i),
    {
        let n = self.keys.len();
        let mut new_keys: Vec<usize> = Vec::new();
        let mut new_members: Vec<Vec<usize>> = Vec::new();
        let mut i: usize = 0;
        while i < n
            invariant
                self.wf(),
                valid_perm(p@, self.key_count()),
                n == self.keys@.len(),
                i <= n,
                new_keys@.len() == i,
                new_members@.len() == i,
                forall|j: int| 0 <= j < i ==> new_keys@[j] == self.keys@[p@[j] as int],
                forall|j: int|
                    0 <= j < i ==> (#[trigger] new_members@[j])@ == self.members@[j]@,
            decreases n - i,
        {
            new_keys.push(self.keys[p[i]]);
            new_members.push(copy_vec(&self.members[i]));
            i += 1;
        }
        let r = IncidenceTable { keys: new_keys, members: new_members };
        proof {
            assert(r.keys@ =~= permuted_keys(self.keys@, p@));
            assert(forall|i: int, j: int|
                0 <= i < j < r.keys@.len() ==> r.keys@[i] != r.keys@[j]) by {
                assert forall|i: int, j: int|
                    0 <= i < j < r.keys@.len() implies r.keys@[i] != r.keys@[j] by {
                    assert(p@[i] != p@[j]);
                    assert(self.keys@.no_duplicates());
                }
            }
            assert(r.keys@.no_duplicates());
        }
        r
    }
}

} // verus!
