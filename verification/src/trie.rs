//! The keyword recognition trie: one node per prefix of the reserved-word
//! set, built once ahead of tokenizing and read-only thereafter. Children
//! are held in a sparse array indexed by normalized character code, and the
//! root occupies index zero so that "no child" and "root" share the sentinel
//! encoding: no child slot ever points back at the root.
use vstd::prelude::*;

use crate::lexer::Keyword;

verus! {

/// The character code a character contributes to a trie path: alphabetic
/// characters are case-folded to upper case; everything else is used as-is.
pub open spec fn fold_code(c: char) -> int {
    if 97 <= c as u32 <= 122 {
        (c as u32) - 32
    } else {
        (c as u32) as int
    }
}

/// The normalized form of a spelling: its characters' folded codes.
pub open spec fn folded(s: Seq<char>) -> Seq<int> {
    s.map_values(|c: char| fold_code(c))
}

/// May a character open an identifier-shaped run: a letter, `.` or `_`.
pub open spec fn starts_ident(c: char) -> bool {
    (65 <= c as u32 <= 90) || (97 <= c as u32 <= 122) || c as u32 == 46 || c as u32 == 95
}

/// May a character continue an identifier-shaped run: a letter, a digit,
/// or one of `#`, `.`, `@`, `_`.
pub open spec fn is_ident_char(c: char) -> bool {
    starts_ident(c) || (48 <= c as u32 <= 57) || c as u32 == 35 || c as u32 == 64
}

/// A spelling the trie accepts: non-empty, opened by an identifier-start
/// character, made of identifier characters throughout.
pub open spec fn valid_spelling(s: Seq<char>) -> bool {
    s.len() > 0 && starts_ident(s[0]) && forall|i: int| 0 <= i < s.len() ==> is_ident_char(s[i])
}

/// Exec mirror of `starts_ident`.
pub fn starts_ident_exec(c: char) -> (r: bool)
    ensures
        r == starts_ident(c),
{
    let u = c as u32;
    (65 <= u && u <= 90) || (97 <= u && u <= 122) || u == 46 || u == 95
}

/// Exec mirror of `is_ident_char`.
pub fn is_ident_char_exec(c: char) -> (r: bool)
    ensures
        r == is_ident_char(c),
{
    let u = c as u32;
    starts_ident_exec(c) || (48 <= u && u <= 57) || u == 35 || u == 64
}

/// One prefix of the reserved-word set: an optional classification (present
/// only when this exact prefix is a complete reserved word) and a sparse
/// child array indexed by normalized character code. A zero entry means "no
/// child": the root can never be a child, so zero is free to act as the
/// sentinel.
struct TrieNode {
    children: Vec<usize>,
    value: Option<Keyword>,
}

/// The keyword trie. `nodes[0]` is the root; every other node hangs off
/// exactly one child slot of a node with a smaller index.
pub struct KeywordTrie {
    nodes: Vec<TrieNode>,
}

/// A full, all-sentinel child array: one slot for every code an identifier
/// character can contribute (`#` at 35 through `_` at 95).
fn zero_children() -> (r: Vec<usize>)
    ensures
        r@.len() == 61,
        forall|j: int| 0 <= j < r@.len() ==> r@[j] == 0,
{
    let mut v: Vec<usize> = Vec::new();
    let mut j: usize = 0;
    while j < 61
        invariant
            j <= 61,
            v@.len() == j,
            forall|t: int| 0 <= t < v@.len() ==> v@[t] == 0,
        decreases 61 - j,
    {
        v.push(0);
        j += 1;
    }
    v
}

/// How many entries of a visited-bitmap are still false.
pub open spec fn count_unseen(s: Seq<bool>) -> int
    decreases s.len(),
{
    if s.len() == 0 {
        0
    } else {
        count_unseen(s.drop_last()) + (if s.last() {
            0int
        } else {
            1int
        })
    }
}

/// Does the vector hold the value `k` somewhere?
pub open spec fn in_vec(s: Seq<usize>, k: int) -> bool {
    exists|j: int| 0 <= j < s.len() && s[j] == k
}

proof fn lemma_count_all_unseen(s: Seq<bool>)
    requires
        forall|t: int| 0 <= t < s.len() ==> !(#[trigger] s[t]),
    ensures
        count_unseen(s) == s.len(),
    decreases s.len(),
{
    if s.len() > 0 {
        lemma_count_all_unseen(s.drop_last());
    }
}

proof fn lemma_count_all_seen(s: Seq<bool>)
    requires
        forall|t: int| 0 <= t < s.len() ==> #[trigger] s[t],
    ensures
        count_unseen(s) == 0,
    decreases s.len(),
{
    if s.len() > 0 {
        lemma_count_all_seen(s.drop_last());
    }
}

proof fn lemma_count_nonneg(s: Seq<bool>)
    ensures
        count_unseen(s) >= 0,
    decreases s.len(),
{
    if s.len() > 0 {
        lemma_count_nonneg(s.drop_last());
    }
}

proof fn lemma_count_update(s: Seq<bool>, i: int)
    requires
        0 <= i < s.len(),
        !s[i],
    ensures
        count_unseen(s.update(i, true)) == count_unseen(s) - 1,
    decreases s.len(),
{
    lemma_count_nonneg(s);
    if i == s.len() - 1 {
        assert(s.update(i, true).drop_last() =~= s.drop_last());
    } else {
        assert(s.update(i, true).drop_last() =~= s.drop_last().update(i, true));
        lemma_count_update(s.drop_last(), i);
    }
}

impl KeywordTrie {
    /// The child reached from node `i` by code `code`; zero when there is
    /// none (slots are indexed by `code - 35`, `#` being the smallest code
    /// an identifier character can contribute).
    pub closed spec fn child(&self, i: int, code: int) -> int {
        let idx = code - 35;
        if 0 <= idx < self.nodes[i].children.len() {
            self.nodes[i].children[idx] as int
        } else {
            0
        }
    }

    /// How many nodes the trie holds.
    pub closed spec fn node_count(&self) -> int {
        self.nodes.len() as int
    }

    /// The node reached from node `i` by consuming the whole normalized
    /// run `s`, or `None` if some step has no matching child.
    pub closed spec fn walk(&self, i: int, s: Seq<int>) -> Option<int>
        decreases s.len(),
    {
        if !(0 <= i < self.nodes.len()) {
            None
        } else if s.len() == 0 {
            Some(i)
        } else {
            let k = self.child(i, s[0]);
            if k == 0 {
                None
            } else {
                self.walk(k, s.drop_first())
            }
        }
    }

    /// The classification stored for a normalized run: the value at the
    /// node the run reaches, if the run reaches one and it carries a value.
    pub closed spec fn spec_lookup(&self, s: Seq<int>) -> Option<Keyword> {
        match self.walk(0, s) {
            Some(n) => self.nodes[n].value,
            None => None,
        }
    }

    /// Structural well-formedness: at least the root exists; every child
    /// slot is the sentinel or points strictly forward; no two slots share
    /// a target; and every non-root node is some slot's target.
    pub closed spec fn wf(&self) -> bool {
        &&& self.nodes.len() >= 1
        &&& forall|n: int|
            0 <= n < self.nodes.len() ==> #[trigger] self.nodes[n].children.len() == 61
        &&& forall|i: int, c: int|
            0 <= i < self.nodes.len() && 0 <= c < self.nodes[i].children.len()
                ==> self.nodes[i].children[c] == 0 || i < self.nodes[i].children[c]
                < self.nodes.len()
        &&& forall|i1: int, c1: int, i2: int, c2: int|
            #![trigger self.nodes[i1].children[c1], self.nodes[i2].children[c2]]
            0 <= i1 < self.nodes.len() && 0 <= c1 < self.nodes[i1].children.len() && 0 <= i2
                < self.nodes.len() && 0 <= c2 < self.nodes[i2].children.len()
                && self.nodes[i1].children[c1] != 0 && self.nodes[i1].children[c1]
                == self.nodes[i2].children[c2] ==> i1 == i2 && c1 == c2
        &&& forall|n: int| 1 <= n < self.nodes.len() ==> #[trigger] self.assigned(n)
    }

    /// Is node `n` the target of some child slot?
    pub closed spec fn assigned(&self, n: int) -> bool {
        exists|i: int, c: int|
            0 <= i < self.nodes.len() && 0 <= c < self.nodes[i].children.len()
                && #[trigger] self.nodes[i].children[c] == n
    }

    /// The slot of the unique edge leading to non-root node `n`, as a
    /// (parent, slot) pair.
    pub closed spec fn parent_edge(&self, n: int) -> (int, int) {
        choose|i: int, c: int|
            0 <= i < self.nodes.len() && 0 <= c < self.nodes[i].children.len()
                && #[trigger] self.nodes[i].children[c] == n
    }

    /// The unique normalized run leading from the root to node `n`.
    pub closed spec fn key_of(&self, n: int) -> Seq<int>
        decreases n,
    {
        if n <= 0 {
            Seq::empty()
        } else {
            let e = self.parent_edge(n);
            if 0 <= e.0 < n {
                self.key_of(e.0).push(e.1 + 35)
            } else {
                Seq::empty()
            }
        }
    }

    /// Walking one more code takes one more step from wherever the shorter
    /// walk arrived.
    proof fn lemma_walk_snoc(&self, i: int, s: Seq<int>, c: int)
        ensures
            self.walk(i, s.push(c)) == (match self.walk(i, s) {
                Some(m) => if self.child(m, c) != 0 && 0 <= self.child(m, c)
                    < self.nodes.len() {
                    Some(self.child(m, c))
                } else {
                    None
                },
                None => None,
            }),
        decreases s.len(),
    {
        if 0 <= i < self.nodes.len() {
            if s.len() == 0 {
                assert(s.push(c).len() == 1);
                assert(s.push(c)[0] == c);
                assert(s.push(c).drop_first() =~= Seq::<int>::empty());
                assert(self.walk(i, s) == Some(i));
                let k = self.child(i, c);
                if k != 0 {
                    assert(self.walk(i, s.push(c)) == self.walk(k, s.push(c).drop_first()));
                    assert(self.walk(i, s.push(c)) == self.walk(k, Seq::<int>::empty()));
                }
            } else {
                assert(s.push(c)[0] == s[0]);
                assert(s.push(c).drop_first() =~= s.drop_first().push(c));
                let k = self.child(i, s[0]);
                if k != 0 {
                    self.lemma_walk_snoc(k, s.drop_first(), c);
                    assert(self.walk(i, s.push(c)) == self.walk(k, s.drop_first().push(c)));
                    assert(self.walk(i, s) == self.walk(k, s.drop_first()));
                }
            }
        } else {
            assert(self.walk(i, s.push(c)) is None);
            assert(self.walk(i, s) is None);
        }
    }

    /// A successful walk only ever arrives at a real node.
    proof fn lemma_walk_in_range(&self, i: int, s: Seq<int>, n: int)
        requires
            self.walk(i, s) == Some(n),
        ensures
            0 <= n < self.nodes.len(),
        decreases s.len(),
    {
        if 0 <= i < self.nodes.len() && s.len() > 0 {
            let k = self.child(i, s[0]);
            if k != 0 {
                self.lemma_walk_in_range(k, s.drop_first(), n);
            }
        }
    }

    /// A successful walk from the root determines its run: the run is the
    /// key of the node it reaches. Hence no node is reachable over two
    /// different runs — the trie is a tree, not a general graph.
    proof fn lemma_walk_key(&self, s: Seq<int>, n: int)
        requires
            self.wf(),
            self.walk(0, s) == Some(n),
        ensures
            s == self.key_of(n),
        decreases s.len(),
    {
        if s.len() == 0 {
            assert(n == 0);
        } else {
            let q = s.drop_last();
            let c = s.last();
            assert(s =~= q.push(c));
            self.lemma_walk_snoc(0, q, c);
            match self.walk(0, q) {
                Some(m) => {
                    self.lemma_walk_in_range(0, q, m);
                    self.lemma_walk_key(q, m);
                    let idx = c - 35;
                    assert(self.child(m, c) == n);
                    assert(0 <= idx < self.nodes[m].children.len());
                    assert(self.nodes[m].children[idx] == n);
                    assert(n != 0);
                    assert(self.assigned(n));
                    let e = self.parent_edge(n);
                    assert(0 <= e.0 < self.nodes.len() && 0 <= e.1
                        < self.nodes[e.0].children.len() && self.nodes[e.0].children[e.1] == n);
                    assert(e.0 == m && e.1 == idx);
                    assert(0 <= e.0 < n);
                    assert(self.key_of(n) == self.key_of(m).push(idx + 35));
                },
                None => {
                    assert(false);
                },
            }
        }
    }

    /// Exactly-once reachability: every node the build created is reached
    /// from the root by its own key, and by no other run. Together these
    /// say a full traversal of the trie visits each node exactly once.
    pub proof fn lemma_traversal_exact(&self)
        requires
            self.wf(),
        ensures
            forall|n: int|
                0 <= n < self.node_count() ==> self.walk(0, #[trigger] self.key_of(n)) == Some(n),
            forall|s: Seq<int>, n: int|
                self.walk(0, s) == Some(n) ==> s == self.key_of(n),
    {
        assert forall|s: Seq<int>, n: int| self.walk(0, s) == Some(n) implies s == self.key_of(
            n,
        ) by {
            self.lemma_walk_key(s, n);
        }
        assert forall|n: int| 0 <= n < self.node_count() implies self.walk(
            0,
            #[trigger] self.key_of(n),
        ) == Some(n) by {
            self.lemma_key_reaches(n);
        }
    }

    /// Every node is reachable from the root by its key.
    proof fn lemma_key_reaches(&self, n: int)
        requires
            self.wf(),
            0 <= n < self.nodes.len(),
        ensures
            self.walk(0, self.key_of(n)) == Some(n),
        decreases n,
    {
        if n == 0 {
            assert(self.key_of(0) =~= Seq::<int>::empty());
        } else {
            assert(self.assigned(n));
            let e = self.parent_edge(n);
            assert(0 <= e.0 < self.nodes.len() && 0 <= e.1 < self.nodes[e.0].children.len()
                && self.nodes[e.0].children[e.1] == n);
            assert(e.0 < n);
            self.lemma_key_reaches(e.0);
            self.lemma_walk_snoc(0, self.key_of(e.0), e.1 + 35);
            assert(self.child(e.0, e.1 + 35) == n);
        }
    }

    /// Walks agree between two tries whose child structure agrees on every
    /// real node.
    proof fn lemma_walk_same(t1: &Self, t2: &Self, start: int, q: Seq<int>)
        requires
            t1.nodes@.len() == t2.nodes@.len(),
            forall|n: int, c: int| 0 <= n < t1.nodes@.len() ==> t1.child(n, c) == t2.child(n, c),
        ensures
            t1.walk(start, q) == t2.walk(start, q),
        decreases q.len(),
    {
        if 0 <= start < t1.nodes.len() && q.len() > 0 {
            let k = t1.child(start, q[0]);
            if k != 0 {
                Self::lemma_walk_same(t1, t2, k, q.drop_first());
            }
        }
    }

    /// Hanging a fresh, empty, value-less node onto a slot that held the
    /// sentinel preserves every walk that succeeded, creates no walk to an
    /// old node, and leads only to the fresh node along runs that used to
    /// dead-end.
    proof fn lemma_walk_fresh(t1: &Self, t2: &Self, i: int, idx: int, start: int, q: Seq<int>)
        requires
            t1.wf(),
            t2.nodes@.len() == t1.nodes@.len() + 1,
            0 <= i < t1.nodes@.len(),
            0 <= idx < t1.nodes@[i].children@.len(),
            t1.nodes@[i].children@[idx] == 0,
            forall|n: int|
                0 <= n < t1.nodes@.len() && n != i ==> t2.nodes@[n] == t1.nodes@[n],
            t2.nodes@[i].value == t1.nodes@[i].value,
            t2.nodes@[i].children@ == t1.nodes@[i].children@.update(
                idx,
                t1.nodes@.len() as usize,
            ),
            forall|c: int|
                0 <= c < t2.nodes@[t1.nodes@.len() as int].children@.len()
                    ==> t2.nodes@[t1.nodes@.len() as int].children@[c] == 0,
            t2.nodes@[t1.nodes@.len() as int].value is None,
            0 <= start < t1.nodes@.len(),
        ensures
            match t2.walk(start, q) {
                Some(n) => if n < t1.nodes@.len() {
                    t1.walk(start, q) == Some(n)
                } else {
                    t1.walk(start, q) is None && t2.nodes@[n].value is None
                },
                None => t1.walk(start, q) is None,
            },
            match t1.walk(start, q) {
                Some(n) => t2.walk(start, q) == Some(n),
                None => true,
            },
        decreases q.len(),
    {
        let newn = t1.nodes@.len() as int;
        if q.len() == 0 {
        } else {
            let k1 = t1.child(start, q[0]);
            let k2 = t2.child(start, q[0]);
            if start == i && q[0] - 35 == idx {
                assert(k1 == 0);
                assert(k2 == newn);
                assert(t1.walk(start, q) is None);
                let rest = q.drop_first();
                if rest.len() == 0 {
                    assert(t2.walk(start, q) == Some(newn));
                } else {
                    assert(t2.child(newn, rest[0]) == 0);
                    assert(t2.walk(start, q) is None);
                }
            } else {
                assert(k1 == k2);
                if k1 == 0 {
                } else {
                    assert(0 <= k1 < t1.nodes@.len());
                    Self::lemma_walk_fresh(t1, t2, i, idx, k1, q.drop_first());
                }
            }
        }
    }

    /// A trie holding no keywords yet: just the root, with no
    /// classification and no children.
    pub fn new() -> (r: Self)
        ensures
            r.wf(),
            r.node_count() == 1,
            forall|q: Seq<int>| r.spec_lookup(q) is None,
    {
        let mut nodes: Vec<TrieNode> = Vec::new();
        nodes.push(TrieNode { children: zero_children(), value: None });
        let r = KeywordTrie { nodes };
        proof {
            assert(r.wf());
            assert forall|q: Seq<int>| r.spec_lookup(q) is None by {
                if q.len() > 0 {
                    assert(r.child(0, q[0]) == 0);
                }
            }
        }
        r
    }

    /// Registers a spelling: walks the trie along the normalized run,
    /// allocating fresh nodes where a step is missing, and marks the final
    /// node. Exactly the run's own lookup changes; a spelling registered
    /// twice keeps the later classification (last write wins).
    pub fn insert(&mut self, s: &Vec<char>, v: Keyword)
        requires
            old(self).wf(),
            valid_spelling(s@),
        ensures
            final(self).wf(),
            forall|q: Seq<int>| final(self).spec_lookup(q) == (if q == folded(s@) {
                Some(v)
            } else {
                old(self).spec_lookup(q)
            }),
    {
        let ghost orig = *old(self);
        let ghost key = folded(s@);
        proof {
            assert(key.take(0) =~= Seq::<int>::empty());
        }
        let mut i: usize = 0;
        let mut p: usize = 0;
        while p < s.len()
            invariant
                self.wf(),
                valid_spelling(s@),
                i < self.nodes.len(),
                p <= s.len(),
                key == folded(s@),
                key.len() == s@.len(),
                self.walk(0, key.take(p as int)) == Some(i as int),
                forall|q: Seq<int>| self.spec_lookup(q) == orig.spec_lookup(q),
            decreases s.len() - p,
        {
            let c = s[p];
            let u = c as u32;
            let code: u32 = if 97 <= u && u <= 122 {
                u - 32
            } else {
                u
            };
            proof {
                assert(key[p as int] == fold_code(s@[p as int]));
                assert(is_ident_char(s@[p as int]));
                assert(code as int == fold_code(c));
                assert(35 <= code <= 95);
            }
            let idx: usize = (code - 35) as usize;
            let ghost t1 = *self;
            proof {
                assert(self.nodes[i as int].children.len() == 61);
                assert(self.nodes@[i as int].children@.len() == 61);
            }
            let k = self.nodes[i].children[idx];
            if k == 0 {
                let newn = self.nodes.len();
                self.nodes.push(TrieNode { children: zero_children(), value: None });
                let slot = newn;
                self.nodes[i].children.set(idx, slot);
                proof {
                    let ghost newi = t1.nodes@.len() as int;
                    assert(self.nodes@.len() == t1.nodes@.len() + 1);
                    assert forall|n: int|
                        0 <= n < t1.nodes@.len() && n != i implies self.nodes@[n] == t1.nodes@[n] by {}
                    assert(self.nodes@[i as int].value == t1.nodes@[i as int].value);
                    assert(self.nodes@[i as int].children@ == t1.nodes@[i as int].children@.update(
                        idx as int,
                        newn,
                    ));
                    assert(self.nodes@[newi].value is None);
                    assert(self.nodes@[newi].children@.len() == 61);
                    assert(forall|cc: int|
                        0 <= cc < self.nodes@[newi].children@.len() ==> self.nodes@[newi].children@[cc]
                            == 0);
                    assert forall|n: int|
                        0 <= n < self.nodes@.len() implies #[trigger] self.nodes[n].children.len()
                        == 61 by {
                        if n < t1.nodes@.len() {
                            assert(t1.nodes[n].children.len() == 61);
                            if n != i {
                                assert(self.nodes@[n] == t1.nodes@[n]);
                            } else {
                                assert(self.nodes@[n].children@.len() == t1.nodes@[n].children@.len());
                            }
                        } else {
                            assert(self.nodes@[n].children@.len() == 61);
                        }
                    }
                    assert forall|a: int, b: int|
                        0 <= a < self.nodes.len() && 0 <= b < self.nodes[a].children.len()
                            implies self.nodes[a].children[b] == 0 || a
                            < self.nodes[a].children[b] < self.nodes.len() by {
                        if a < t1.nodes@.len() {
                            assert(t1.nodes[a].children.len() == 61);
                            if a == i && b == idx {
                            } else {
                                assert(self.nodes@[a].children@[b] == t1.nodes@[a].children@[b]);
                                assert(t1.nodes[a].children[b] == 0 || a < t1.nodes[a].children[b]
                                    < t1.nodes.len());
                            }
                        } else {
                            assert(self.nodes@[a].children@[b] == 0);
                        }
                    }
                    assert forall|a1: int, b1: int, a2: int, b2: int|
                        #![trigger self.nodes[a1].children[b1], self.nodes[a2].children[b2]]
                        0 <= a1 < self.nodes.len() && 0 <= b1 < self.nodes[a1].children.len() && 0
                            <= a2 < self.nodes.len() && 0 <= b2 < self.nodes[a2].children.len()
                            && self.nodes[a1].children[b1] != 0 && self.nodes[a1].children[b1]
                            == self.nodes[a2].children[b2] implies a1 == a2 && b1 == b2 by {
                        if a1 == newi {
                            assert(self.nodes@[a1].children@[b1] == 0);
                        } else if a2 == newi {
                            assert(self.nodes@[a2].children@[b2] == 0);
                            assert(false);
                        } else if (a1 == i && b1 == idx) && (a2 == i && b2 == idx) {
                        } else if a1 == i && b1 == idx {
                            assert(t1.nodes[a2].children.len() == 61);
                            assert(self.nodes@[a2].children@[b2] == t1.nodes@[a2].children@[b2]);
                            assert(t1.nodes[a2].children[b2] == 0 || a2 < t1.nodes[a2].children[b2]
                                < t1.nodes.len());
                            assert(false);
                        } else if a2 == i && b2 == idx {
                            assert(t1.nodes[a1].children.len() == 61);
                            assert(self.nodes@[a1].children@[b1] == t1.nodes@[a1].children@[b1]);
                            assert(t1.nodes[a1].children[b1] == 0 || a1 < t1.nodes[a1].children[b1]
                                < t1.nodes.len());
                            assert(false);
                        } else {
                            assert(t1.nodes[a1].children.len() == 61);
                            assert(t1.nodes[a2].children.len() == 61);
                            assert(self.nodes@[a1].children@[b1] == t1.nodes@[a1].children@[b1]);
                            assert(self.nodes@[a2].children@[b2] == t1.nodes@[a2].children@[b2]);
                            assert(t1.nodes[a1].children[b1] != 0 && t1.nodes[a1].children[b1]
                                == t1.nodes[a2].children[b2]);
                        }
                    }
                    assert forall|n: int| 1 <= n < self.nodes.len() implies #[trigger] self
                        .assigned(n) by {
                        if n < t1.nodes@.len() {
                            assert(t1.assigned(n));
                            let e = choose|a: int, b: int|
                                0 <= a < t1.nodes.len() && 0 <= b < t1.nodes[a].children.len()
                                    && #[trigger] t1.nodes[a].children[b] == n;
                            assert(t1.nodes@[e.0].children@[e.1] == n);
                            assert(t1.nodes[e.0].children.len() == 61);
                            if e.0 == i {
                                assert(e.1 != idx);
                                assert(self.nodes@[e.0].children@[e.1] == n);
                            } else {
                                assert(self.nodes@[e.0] == t1.nodes@[e.0]);
                                assert(self.nodes@[e.0].children@[e.1] == n);
                            }
                            assert(self.nodes[e.0].children.len() == 61);
                        } else {
                            assert(self.nodes[i as int].children.len() == 61);
                            assert(self.nodes@[i as int].children@[idx as int] == n);
                        }
                    }
                    assert(self.wf());
                    assert forall|q: Seq<int>| self.spec_lookup(q) == orig.spec_lookup(q) by {
                        Self::lemma_walk_fresh(&t1, self, i as int, idx as int, 0, q);
                        match self.walk(0, q) {
                            Some(n) => {
                                self.lemma_walk_in_range(0, q, n);
                                if n < t1.nodes@.len() {
                                    if n != i {
                                        assert(self.nodes@[n] == t1.nodes@[n]);
                                    }
                                    assert(self.nodes@[n].value == t1.nodes@[n].value);
                                }
                            },
                            None => {},
                        }
                        assert(t1.spec_lookup(q) == orig.spec_lookup(q));
                    }
                    Self::lemma_walk_fresh(&t1, self, i as int, idx as int, 0, key.take(p as int));
                    assert(self.walk(0, key.take(p as int)) == Some(i as int));
                    self.lemma_walk_snoc(0, key.take(p as int), key[p as int]);
                    assert(self.child(i as int, key[p as int]) == newn);
                    assert(key.take(p as int).push(key[p as int]) =~= key.take(p as int + 1));
                    assert(self.walk(0, key.take(p as int + 1)) == Some(newn as int));
                }
                i = newn;
            } else {
                proof {
                    assert(self.child(i as int, key[p as int]) == k as int);
                    assert(0 < k < self.nodes.len());
                    self.lemma_walk_snoc(0, key.take(p as int), key[p as int]);
                    assert(key.take(p as int).push(key[p as int]) =~= key.take(p as int + 1));
                    assert(self.walk(0, key.take(p as int + 1)) == Some(k as int));
                }
                i = k;
            }
            p += 1;
        }
        let ghost tmid = *self;
        proof {
            assert(key.take(p as int) =~= key);
            assert(tmid.walk(0, key) == Some(i as int));
        }
        self.nodes[i].value = Some(v);
        proof {
            assert(self.nodes@.len() == tmid.nodes@.len());
            assert(self.nodes@ == tmid.nodes@.update(i as int, self.nodes@[i as int]));
            assert forall|n: int, c: int| 0 <= n < tmid.nodes@.len() implies tmid.child(n, c)
                == self.child(n, c) by {
                if n != i {
                    assert(self.nodes@ == tmid.nodes@.update(i as int, self.nodes@[i as int]));
                    assert(tmid.nodes@.update(i as int, self.nodes@[i as int])[n]
                        == tmid.nodes@[n]);
                    assert(self.nodes@[n] == tmid.nodes@[n]);
                } else {
                    assert(self.nodes@[n].children@ == tmid.nodes@[n].children@);
                }
            }
            assert forall|n: int|
                0 <= n < self.nodes@.len() implies #[trigger] self.nodes[n].children.len()
                == 61 by {
                if n != i {
                    assert(self.nodes@[n] == tmid.nodes@[n]);
                }
            }
            assert forall|a: int, b: int|
                0 <= a < self.nodes.len() && 0 <= b < self.nodes[a].children.len() implies self
                .nodes[a].children[b] == 0 || a < self.nodes[a].children[b]
                < self.nodes.len() by {
                assert(self.nodes@[a].children@ == tmid.nodes@[a].children@);
            }
            assert forall|a1: int, b1: int, a2: int, b2: int|
                #![trigger self.nodes[a1].children[b1], self.nodes[a2].children[b2]]
                0 <= a1 < self.nodes.len() && 0 <= b1 < self.nodes[a1].children.len() && 0 <= a2
                    < self.nodes.len() && 0 <= b2 < self.nodes[a2].children.len()
                    && self.nodes[a1].children[b1] != 0 && self.nodes[a1].children[b1]
                    == self.nodes[a2].children[b2] implies a1 == a2 && b1 == b2 by {
                assert(self.nodes@[a1].children@ == tmid.nodes@[a1].children@);
                assert(self.nodes@[a2].children@ == tmid.nodes@[a2].children@);
            }
            assert forall|n: int| 1 <= n < self.nodes.len() implies #[trigger] self.assigned(
                n,
            ) by {
                assert(tmid.assigned(n));
                let e = choose|a: int, b: int|
                    0 <= a < tmid.nodes.len() && 0 <= b < tmid.nodes[a].children.len()
                        && #[trigger] tmid.nodes[a].children[b] == n;
                assert(self.nodes@[e.0].children@ == tmid.nodes@[e.0].children@);
                assert(self.nodes@[e.0].children@[e.1] == n);
            }
            assert(self.wf());
            assert forall|q: Seq<int>| self.spec_lookup(q) == (if q == folded(s@) {
                Some(v)
            } else {
                orig.spec_lookup(q)
            }) by {
                Self::lemma_walk_same(&tmid, self, 0, q);
                Self::lemma_walk_same(&tmid, self, 0, key);
                assert(self.walk(0, key) == Some(i as int));
                match self.walk(0, q) {
                    Some(n) => {
                        self.lemma_walk_in_range(0, q, n);
                        if n == i {
                            self.lemma_walk_key(q, n);
                            self.lemma_walk_key(key, n);
                            assert(q == key);
                            assert(self.spec_lookup(q) == Some(v));
                        } else {
                            assert(self.nodes@[n] == tmid.nodes@[n]);
                            assert(q != key);
                            assert(self.spec_lookup(q) == tmid.spec_lookup(q));
                        }
                    },
                    None => {
                        assert(q != key);
                        assert(self.spec_lookup(q) is None);
                        assert(tmid.spec_lookup(q) is None);
                    },
                }
            }
        }
    }

    /// How many nodes the build created, as an executable count.
    pub fn count_nodes(&self) -> (r: usize)
        ensures
            r as int == self.node_count(),
    {
        self.nodes.len()
    }

    /// A full depth-first traversal from the root: the visited node
    /// numbers, every node of the trie exactly once — the count matches
    /// `count_nodes`, each index is a real node, and none repeats.
    /// `lemma_traversal_exact` states the same exactly-once property at the
    /// level of runs and keys.
    pub fn traverse(&self) -> (r: Vec<usize>)
        requires
            self.wf(),
        ensures
            r@.len() == self.node_count(),
            forall|j: int| 0 <= j < r@.len() ==> 0 <= (#[trigger] r@[j]) < self.node_count(),
            forall|a: int, b: int| 0 <= a < b < r@.len() ==> r@[a] != r@[b],
    {
        let n = self.nodes.len();
        let mut seen: Vec<bool> = Vec::new();
        let mut j: usize = 0;
        while j < n
            invariant
                j <= n,
                seen@.len() == j,
                forall|t: int| 0 <= t < seen@.len() ==> !(#[trigger] seen@[t]),
            decreases n - j,
        {
            seen.push(false);
            j += 1;
        }
        let mut out: Vec<usize> = Vec::new();
        let mut stack: Vec<usize> = Vec::new();
        stack.push(0);
        proof {
            lemma_count_all_unseen(seen@);
        }
        let ghost seen0 = seen@;
        seen.set(0, true);
        proof {
            lemma_count_update(seen0, 0);
            assert(0 <= 0 < stack@.len() && stack@[0] == 0);
            assert(in_vec(stack@, 0));
        }
        while stack.len() > 0
            invariant
                self.wf(),
                n == self.nodes@.len(),
                seen@.len() == n,
                n >= 1,
                seen@[0],
                forall|t: int|
                    0 <= t < out@.len() ==> 0 <= (#[trigger] out@[t]) < n && seen@[out@[t] as int],
                forall|t: int|
                    0 <= t < stack@.len() ==> 0 <= (#[trigger] stack@[t]) < n && seen@[stack@[t] as int],
                forall|a: int, b: int| 0 <= a < b < out@.len() ==> out@[a] != out@[b],
                forall|a: int, b: int| 0 <= a < b < stack@.len() ==> stack@[a] != stack@[b],
                forall|a: int, b: int|
                    0 <= a < out@.len() && 0 <= b < stack@.len() ==> out@[a] != stack@[b],
                forall|k: int|
                    0 <= k < n && seen@[k] ==> in_vec(out@, k) || in_vec(stack@, k),
                forall|t: int, c: int|
                    0 <= t < out@.len() && 0 <= c < 61 ==> (#[trigger] self.nodes[
                        out@[t] as int
                    ].children[c] == 0 || seen@[self.nodes[out@[t] as int].children[c] as int]),
                out@.len() + stack@.len() + count_unseen(seen@) == n,
            decreases count_unseen(seen@), stack@.len(),
        {
            let ghost c0 = count_unseen(seen@);
            let ghost s0 = stack@.len() as int;
            let ghost stack_pre = stack@;
            let ghost out_pre = out@;
            let i = stack.pop().unwrap();
            out.push(i);
            proof {
                assert forall|k: int|
                    0 <= k < n && seen@[k] implies in_vec(out@, k) || in_vec(stack@, k) by {
                    if in_vec(out_pre, k) {
                        let w = choose|w: int| 0 <= w < out_pre.len() && out_pre[w] == k;
                        assert(out@[w] == k);
                        assert(in_vec(out@, k));
                    } else {
                        let w = choose|w: int| 0 <= w < stack_pre.len() && stack_pre[w] == k;
                        if w == stack_pre.len() - 1 {
                            assert(out@[out@.len() - 1] == k);
                            assert(in_vec(out@, k));
                        } else {
                            assert(stack@[w] == k);
                            assert(in_vec(stack@, k));
                        }
                    }
                }
            }
            let mut c: usize = 0;
            proof {
                assert(self.nodes[i as int].children.len() == 61);
            }
            while c < 61
                invariant
                    self.wf(),
                    n == self.nodes@.len(),
                    seen@.len() == n,
                    n >= 1,
                    seen@[0],
                    i < n,
                    self.nodes[i as int].children.len() == 61,
                    c <= 61,
                    out@.len() >= 1,
                    out@[out@.len() - 1] == i,
                    forall|t: int|
                        0 <= t < out@.len() ==> 0 <= (#[trigger] out@[t]) < n && seen@[out@[t] as int],
                    forall|t: int|
                        0 <= t < stack@.len() ==> 0 <= (#[trigger] stack@[t]) < n && seen@[stack@[t] as int],
                    forall|a: int, b: int| 0 <= a < b < out@.len() ==> out@[a] != out@[b],
                    forall|a: int, b: int| 0 <= a < b < stack@.len() ==> stack@[a] != stack@[b],
                    forall|a: int, b: int|
                        0 <= a < out@.len() && 0 <= b < stack@.len() ==> out@[a] != stack@[b],
                    forall|k: int|
                        0 <= k < n && seen@[k] ==> in_vec(out@, k) || in_vec(stack@, k),
                    forall|t: int, cc: int|
                        0 <= t < out@.len() - 1 && 0 <= cc < 61 ==> (#[trigger] self.nodes[
                            out@[t] as int
                        ].children[cc] == 0 || seen@[self.nodes[out@[t] as int].children[cc] as int]),
                    forall|cc: int|
                        0 <= cc < c ==> (#[trigger] self.nodes[i as int].children[cc] == 0
                            || seen@[self.nodes[i as int].children[cc] as int]),
                    out@.len() + stack@.len() + count_unseen(seen@) == n,
                    count_unseen(seen@) < c0 || (count_unseen(seen@) == c0 && stack@.len() == s0
                        - 1),
                decreases 61 - c,
            {
                let k = self.nodes[i].children[c];
                if k != 0 && !seen[k] {
                    let ghost stack_in = stack@;
                    proof {
                        lemma_count_update(seen@, k as int);
                    }
                    seen.set(k, true);
                    stack.push(k);
                    proof {
                        assert forall|kk: int|
                            0 <= kk < n && seen@[kk] implies in_vec(out@, kk) || in_vec(
                            stack@,
                            kk,
                        ) by {
                            if kk == k {
                                assert(stack@[stack@.len() - 1] == k);
                                assert(in_vec(stack@, kk));
                            } else if in_vec(stack_in, kk) {
                                let w = choose|w: int|
                                    0 <= w < stack_in.len() && stack_in[w] == kk;
                                assert(stack@[w] == kk);
                                assert(in_vec(stack@, kk));
                            }
                        }
                    }
                }
                c += 1;
            }
            proof {
                lemma_count_nonneg(seen@);
                assert forall|t: int, cc: int|
                    0 <= t < out@.len() && 0 <= cc < 61 implies (#[trigger] self.nodes[
                        out@[t] as int
                    ].children[cc] == 0 || seen@[self.nodes[out@[t] as int].children[cc] as int]) by {
                    if t == out@.len() - 1 {
                        assert(out@[t] == i);
                    }
                }
            }
        }
        proof {
            assert forall|m: int| 0 <= m < n implies seen@[m] by {
                self.lemma_all_seen(seen@, out@, m);
            }
            lemma_count_all_seen(seen@);
            assert(out@.len() == n);
        }
        out
    }

    /// With the root visited, every visited node's children visited, and
    /// every visited node recorded, reachability forces every node of a
    /// well-formed trie to have been visited.
    proof fn lemma_all_seen(&self, seen: Seq<bool>, out: Seq<usize>, m: int)
        requires
            self.wf(),
            seen.len() == self.nodes@.len(),
            0 <= m < seen.len(),
            seen[0],
            forall|k: int| 0 <= k < seen.len() && seen[k] ==> in_vec(out, k),
            forall|j: int| 0 <= j < out.len() ==> 0 <= (#[trigger] out[j]) < self.nodes@.len(),
            forall|t: int, c: int|
                0 <= t < out.len() && 0 <= c < 61 ==> (#[trigger] self.nodes[
                    out[t] as int
                ].children[c] == 0 || seen[self.nodes[out[t] as int].children[c] as int]),
        ensures
            seen[m],
        decreases m,
    {
        if m > 0 {
            assert(self.assigned(m));
            let e = self.parent_edge(m);
            assert(0 <= e.0 < self.nodes.len() && 0 <= e.1 < self.nodes[e.0].children.len()
                && self.nodes[e.0].children[e.1] == m);
            assert(self.nodes[e.0].children.len() == 61);
            assert(e.0 < m);
            self.lemma_all_seen(seen, out, e.0);
            assert(in_vec(out, e.0));
            let w = choose|w: int| 0 <= w < out.len() && out[w] == e.0;
            assert(self.nodes[out[w] as int].children[e.1] == m);
            assert(seen[m]);
        }
    }

    /// Lookup of a normalized run, in one pass over its characters: the
    /// classification registered for exactly that run, or nothing.
    pub fn lookup(&self, s: &Vec<char>) -> (r: Option<Keyword>)
        requires
            self.wf(),
        ensures
            r == self.spec_lookup(folded(s@)),
    {
        let ghost key = folded(s@);
        proof {
            assert(key.take(0) =~= Seq::<int>::empty());
            assert(key.skip(0) =~= key);
        }
        let mut i: usize = 0;
        let mut p: usize = 0;
        while p < s.len()
            invariant
                self.wf(),
                i < self.nodes.len(),
                p <= s.len(),
                key == folded(s@),
                key.len() == s@.len(),
                self.walk(0, key.take(p as int)) == Some(i as int),
                self.walk(0, key) == self.walk(i as int, key.skip(p as int)),
            decreases s.len() - p,
        {
            let c = s[p];
            let u = c as u32;
            let code: u32 = if 97 <= u && u <= 122 {
                u - 32
            } else {
                u
            };
            proof {
                assert(key[p as int] == fold_code(s@[p as int]));
                assert(code as int == fold_code(c));
            }
            let k: usize = if code >= 35 && ((code - 35) as usize) < self.nodes[i].children.len() {
                self.nodes[i].children[(code - 35) as usize]
            } else {
                0
            };
            proof {
                assert(self.child(i as int, key[p as int]) == k as int);
                assert(key.skip(p as int)[0] == key[p as int]);
                assert(key.skip(p as int).drop_first() =~= key.skip(p as int + 1));
            }
            if k == 0 {
                proof {
                    assert(self.walk(i as int, key.skip(p as int)) is None);
                }
                return None;
            }
            proof {
                assert(self.walk(i as int, key.skip(p as int)) == self.walk(
                    k as int,
                    key.skip(p as int + 1),
                ));
                self.lemma_walk_snoc(0, key.take(p as int), key[p as int]);
                assert(key.take(p as int).push(key[p as int]) =~= key.take(p as int + 1));
            }
            i = k;
            p += 1;
        }
        proof {
            assert(key.take(p as int) =~= key);
            assert(key.skip(p as int) =~= Seq::<int>::empty());
            assert(self.walk(0, key) == Some(i as int));
        }
        self.nodes[i].value
    }
}

/// The characters of a string, in order.
pub fn str_chars(s: &str) -> (r: Vec<char>)
    ensures
        r@ == s@,
{
    let n = s.unicode_len();
    let mut v: Vec<char> = Vec::new();
    let mut i: usize = 0;
    while i < n
        invariant
            i <= n,
            n == s@.len(),
            v@ =~= s@.subrange(0, i as int),
        decreases n - i,
    {
        v.push(s.get_char(i));
        i += 1;
    }
    proof {
        assert(v@ =~= s@);
    }
    v
}

/// The reserved-word table: which classification, if any, a normalized run
/// is registered with. Later registrations shadow earlier ones, so this
/// reads in reverse registration order.
pub open spec fn keyword_classification(q: Seq<int>) -> Option<Keyword> {
    if q == folded("set"@) {
        Some(Keyword::SetDir)
    } else if q == folded("section"@) {
        Some(Keyword::Section)
    } else if q == folded("export"@) {
        Some(Keyword::Export)
    } else if q == folded("equs"@) {
        Some(Keyword::Equs)
    } else if q == folded("equ"@) {
        Some(Keyword::Equ)
    } else if q == folded("dw"@) {
        Some(Keyword::Dw)
    } else if q == folded("ds"@) {
        Some(Keyword::Ds)
    } else if q == folded("db"@) {
        Some(Keyword::Db)
    } else if q == folded("sp"@) {
        Some(Keyword::Sp)
    } else if q == folded("hl"@) {
        Some(Keyword::Hl)
    } else if q == folded("de"@) {
        Some(Keyword::De)
    } else if q == folded("bc"@) {
        Some(Keyword::Bc)
    } else if q == folded("af"@) {
        Some(Keyword::Af)
    } else if q == folded("l"@) {
        Some(Keyword::L)
    } else if q == folded("h"@) {
        Some(Keyword::H)
    } else if q == folded("e"@) {
        Some(Keyword::E)
    } else if q == folded("d"@) {
        Some(Keyword::D)
    } else if q == folded("c"@) {
        Some(Keyword::C)
    } else if q == folded("b"@) {
        Some(Keyword::B)
    } else if q == folded("a"@) {
        Some(Keyword::A)
    } else if q == folded("xor"@) {
        Some(Keyword::Xor)
    } else if q == folded("sub"@) {
        Some(Keyword::Sub)
    } else if q == folded("sbc"@) {
        Some(Keyword::Sbc)
    } else if q == folded("rst"@) {
        Some(Keyword::Rst)
    } else if q == folded("ret"@) {
        Some(Keyword::Ret)
    } else if q == folded("res"@) {
        Some(Keyword::Res)
    } else if q == folded("push"@) {
        Some(Keyword::Push)
    } else if q == folded("pop"@) {
        Some(Keyword::Pop)
    } else if q == folded("or"@) {
        Some(Keyword::Or)
    } else if q == folded("nop"@) {
        Some(Keyword::Nop)
    } else if q == folded("ldh"@) {
        Some(Keyword::Ldh)
    } else if q == folded("ld"@) {
        Some(Keyword::Ld)
    } else if q == folded("jr"@) {
        Some(Keyword::Jr)
    } else if q == folded("jp"@) {
        Some(Keyword::Jp)
    } else if q == folded("inc"@) {
        Some(Keyword::Inc)
    } else if q == folded("halt"@) {
        Some(Keyword::Halt)
    } else if q == folded("ei"@) {
        Some(Keyword::Ei)
    } else if q == folded("di"@) {
        Some(Keyword::Di)
    } else if q == folded("dec"@) {
        Some(Keyword::Dec)
    } else if q == folded("cp"@) {
        Some(Keyword::Cp)
    } else if q == folded("call"@) {
        Some(Keyword::Call)
    } else if q == folded("bit"@) {
        Some(Keyword::Bit)
    } else if q == folded("and"@) {
        Some(Keyword::And)
    } else if q == folded("add"@) {
        Some(Keyword::Add)
    } else if q == folded("adc"@) {
        Some(Keyword::Adc)
    } else {
        None
    }
}

/// Builds the keyword trie from the complete reserved-word list: every
/// mnemonic, register name, and directive the grammar recognizes. The
/// resulting trie answers lookups exactly as `keyword_classification` says.
#[verifier::rlimit(100)]
pub fn build_keywords() -> (r: KeywordTrie)
    ensures
        r.wf(),
        forall|q: Seq<int>| r.spec_lookup(q) == keyword_classification(q),
{
    let mut t = KeywordTrie::new();
    proof {
        reveal_strlit("adc");
        assert(valid_spelling("adc"@));
    }
    t.insert(&str_chars("adc"), Keyword::Adc);
    proof {
        reveal_strlit("add");
        assert(valid_spelling("add"@));
    }
    t.insert(&str_chars("add"), Keyword::Add);
    proof {
        reveal_strlit("and");
        assert(valid_spelling("and"@));
    }
    t.insert(&str_chars("and"), Keyword::And);
    proof {
        reveal_strlit("bit");
        assert(valid_spelling("bit"@));
    }
    t.insert(&str_chars("bit"), Keyword::Bit);
    proof {
        reveal_strlit("call");
        assert(valid_spelling("call"@));
    }
    t.insert(&str_chars("call"), Keyword::Call);
    proof {
        reveal_strlit("cp");
        assert(valid_spelling("cp"@));
    }
    t.insert(&str_chars("cp"), Keyword::Cp);
    proof {
        reveal_strlit("dec");
        assert(valid_spelling("dec"@));
    }
    t.insert(&str_chars("dec"), Keyword::Dec);
    proof {
        reveal_strlit("di");
        assert(valid_spelling("di"@));
    }
    t.insert(&str_chars("di"), Keyword::Di);
    proof {
        reveal_strlit("ei");
        assert(valid_spelling("ei"@));
    }
    t.insert(&str_chars("ei"), Keyword::Ei);
    proof {
        reveal_strlit("halt");
        assert(valid_spelling("halt"@));
    }
    t.insert(&str_chars("halt"), Keyword::Halt);
    proof {
        reveal_strlit("inc");
        assert(valid_spelling("inc"@));
    }
    t.insert(&str_chars("inc"), Keyword::Inc);
    proof {
        reveal_strlit("jp");
        assert(valid_spelling("jp"@));
    }
    t.insert(&str_chars("jp"), Keyword::Jp);
    proof {
        reveal_strlit("jr");
        assert(valid_spelling("jr"@));
    }
    t.insert(&str_chars("jr"), Keyword::Jr);
    proof {
        reveal_strlit("ld");
        assert(valid_spelling("ld"@));
    }
    t.insert(&str_chars("ld"), Keyword::Ld);
    proof {
        reveal_strlit("ldh");
        assert(valid_spelling("ldh"@));
    }
    t.insert(&str_chars("ldh"), Keyword::Ldh);
    proof {
        reveal_strlit("nop");
        assert(valid_spelling("nop"@));
    }
    t.insert(&str_chars("nop"), Keyword::Nop);
    proof {
        reveal_strlit("or");
        assert(valid_spelling("or"@));
    }
    t.insert(&str_chars("or"), Keyword::Or);
    proof {
        reveal_strlit("pop");
        assert(valid_spelling("pop"@));
    }
    t.insert(&str_chars("pop"), Keyword::Pop);
    proof {
        reveal_strlit("push");
        assert(valid_spelling("push"@));
    }
    t.insert(&str_chars("push"), Keyword::Push);
    proof {
        reveal_strlit("res");
        assert(valid_spelling("res"@));
    }
    t.insert(&str_chars("res"), Keyword::Res);
    proof {
        reveal_strlit("ret");
        assert(valid_spelling("ret"@));
    }
    t.insert(&str_chars("ret"), Keyword::Ret);
    proof {
        reveal_strlit("rst");
        assert(valid_spelling("rst"@));
    }
    t.insert(&str_chars("rst"), Keyword::Rst);
    proof {
        reveal_strlit("sbc");
        assert(valid_spelling("sbc"@));
    }
    t.insert(&str_chars("sbc"), Keyword::Sbc);
    proof {
        reveal_strlit("sub");
        assert(valid_spelling("sub"@));
    }
    t.insert(&str_chars("sub"), Keyword::Sub);
    proof {
        reveal_strlit("xor");
        assert(valid_spelling("xor"@));
    }
    t.insert(&str_chars("xor"), Keyword::Xor);
    proof {
        reveal_strlit("a");
        assert(valid_spelling("a"@));
    }
    t.insert(&str_chars("a"), Keyword::A);
    proof {
        reveal_strlit("b");
        assert(valid_spelling("b"@));
    }
    t.insert(&str_chars("b"), Keyword::B);
    proof {
        reveal_strlit("c");
        assert(valid_spelling("c"@));
    }
    t.insert(&str_chars("c"), Keyword::C);
    proof {
        reveal_strlit("d");
        assert(valid_spelling("d"@));
    }
    t.insert(&str_chars("d"), Keyword::D);
    proof {
        reveal_strlit("e");
        assert(valid_spelling("e"@));
    }
    t.insert(&str_chars("e"), Keyword::E);
    proof {
        reveal_strlit("h");
        assert(valid_spelling("h"@));
    }
    t.insert(&str_chars("h"), Keyword::H);
    proof {
        reveal_strlit("l");
        assert(valid_spelling("l"@));
    }
    t.insert(&str_chars("l"), Keyword::L);
    proof {
        reveal_strlit("af");
        assert(valid_spelling("af"@));
    }
    t.insert(&str_chars("af"), Keyword::Af);
    proof {
        reveal_strlit("bc");
        assert(valid_spelling("bc"@));
    }
    t.insert(&str_chars("bc"), Keyword::Bc);
    proof {
        reveal_strlit("de");
        assert(valid_spelling("de"@));
    }
    t.insert(&str_chars("de"), Keyword::De);
    proof {
        reveal_strlit("hl");
        assert(valid_spelling("hl"@));
    }
    t.insert(&str_chars("hl"), Keyword::Hl);
    proof {
        reveal_strlit("sp");
        assert(valid_spelling("sp"@));
    }
    t.insert(&str_chars("sp"), Keyword::Sp);
    proof {
        reveal_strlit("db");
        assert(valid_spelling("db"@));
    }
    t.insert(&str_chars("db"), Keyword::Db);
    proof {
        reveal_strlit("ds");
        assert(valid_spelling("ds"@));
    }
    t.insert(&str_chars("ds"), Keyword::Ds);
    proof {
        reveal_strlit("dw");
        assert(valid_spelling("dw"@));
    }
    t.insert(&str_chars("dw"), Keyword::Dw);
    proof {
        reveal_strlit("equ");
        assert(valid_spelling("equ"@));
    }
    t.insert(&str_chars("equ"), Keyword::Equ);
    proof {
        reveal_strlit("equs");
        assert(valid_spelling("equs"@));
    }
    t.insert(&str_chars("equs"), Keyword::Equs);
    proof {
        reveal_strlit("export");
        assert(valid_spelling("export"@));
    }
    t.insert(&str_chars("export"), Keyword::Export);
    proof {
        reveal_strlit("section");
        assert(valid_spelling("section"@));
    }
    t.insert(&str_chars("section"), Keyword::Section);
    proof {
        reveal_strlit("set");
        assert(valid_spelling("set"@));
    }
    t.insert(&str_chars("set"), Keyword::SetDir);
    t
}

} // verus!
