//! The prefix index: a deterministic finite-state structure built over one
//! mapping table's keyset, answering "what is the longest key that is a
//! prefix of the remaining input?" in time proportional to the match length.
//!
//! States are stored in an arena; each transition is labelled by one Unicode
//! scalar value, so every reported match length lands on a scalar-value
//! boundary by construction. States reached by keys with a common prefix are
//! shared.

use crate::table::Table;
use vstd::prelude::*;

verus! {

/// One state of the automaton.
struct TrieNode {
    /// The sequence of scalar values spelled by the transitions leading from
    /// the root to this state (ghost bookkeeping for the proofs).
    path: Ghost<Seq<char>>,
    /// Whether this state corresponds to a full dictionary key.
    accepting: bool,
    /// Outgoing transitions, at most one per scalar value, as (label, state)
    /// pairs.
    edges: Vec<(char, usize)>,
}

/// Every transition leads to a state of the arena whose path extends the
/// source state's path by the transition's label.
spec fn edges_ok(nodes: Seq<TrieNode>) -> bool {
    forall|n: int, e: int|
        0 <= n < nodes.len() && 0 <= e < nodes[n].edges@.len() ==> {
            let edge = #[trigger] nodes[n].edges@[e];
            &&& edge.1 < nodes.len()
            &&& nodes[edge.1 as int].path@ == nodes[n].path@.push(edge.0)
        }
}

/// No state has two outgoing transitions with the same label.
spec fn deterministic(nodes: Seq<TrieNode>) -> bool {
    forall|n: int, e1: int, e2: int|
        0 <= n < nodes.len() && 0 <= e1 < e2 < nodes[n].edges@.len() ==> (#[trigger] nodes[n].edges@[e1]).0 != (#[trigger] nodes[n].edges@[e2]).0
}

/// Whether some transition of the arena leads to state `m`.
spec fn has_parent(nodes: Seq<TrieNode>, m: int) -> bool {
    exists|n: int, e: int|
        0 <= n < nodes.len() && 0 <= e < nodes[n].edges@.len() && (#[trigger] nodes[n].edges@[e]).1 == m
}

/// Every state but the root is reached by some transition.
spec fn parents_ok(nodes: Seq<TrieNode>) -> bool {
    forall|m: int| 1 <= m < nodes.len() ==> #[trigger] has_parent(nodes, m)
}

/// No two states spell the same path.
spec fn paths_unique(nodes: Seq<TrieNode>) -> bool {
    forall|n1: int, n2: int|
        #![trigger nodes[n1].path@, nodes[n2].path@]
        0 <= n1 < nodes.len() && 0 <= n2 < nodes.len() && nodes[n1].path@ == nodes[n2].path@
            ==> n1 == n2
}

/// An immutable prefix index over one table's keyset: a deterministic
/// automaton whose accepting states correspond exactly to dictionary keys.
/// Built only from the paired table's own keys, so every key it can report
/// exists verbatim in that table.
pub struct PrefixIndex {
    nodes: Vec<TrieNode>,
}

impl PrefixIndex {
    /// The set of key sequences the index was built from: the paths of its
    /// accepting states.
    pub closed spec fn key_set(self) -> Set<Seq<char>> {
        Set::new(
            |k: Seq<char>| exists|x: int|
                0 <= x < self.nodes@.len() && (#[trigger] self.nodes@[x]).accepting
                    && self.nodes@[x].path@ == k,
        )
    }

    /// The arena is a well-formed deterministic trie: a root spelling the
    /// empty path, transitions that extend paths by their label, no two
    /// transitions of a state alike, every other state reachable, and no
    /// path spelled twice.
    pub closed spec fn wf(self) -> bool {
        &&& self.nodes@.len() >= 1
        &&& self.nodes@[0].path@ == Seq::<char>::empty()
        &&& edges_ok(self.nodes@)
        &&& deterministic(self.nodes@)
        &&& parents_ok(self.nodes@)
        &&& paths_unique(self.nodes@)
    }

    /// An index with no keys: the root state alone.
    fn empty() -> (idx: PrefixIndex)
        ensures
            idx.wf(),
            idx.key_set() == Set::<Seq<char>>::empty(),
    {
        let mut nodes: Vec<TrieNode> = Vec::new();
        nodes.push(
            TrieNode { path: Ghost(Seq::empty()), accepting: false, edges: Vec::new() },
        );
        let idx = PrefixIndex { nodes };
        proof {
            assert(idx.key_set() =~= Set::<Seq<char>>::empty());
        }
        idx
    }

    /// The state reached from `node` by the transition labelled `c`, when
    /// there is one.
    fn find_edge(node: &TrieNode, c: char) -> (r: Option<usize>)
        ensures
            match r {
                Some(child) => exists|e: int|
                    0 <= e < node.edges@.len() && (#[trigger] node.edges@[e]).0 == c
                        && node.edges@[e].1 == child,
                None => forall|e: int|
                    0 <= e < node.edges@.len() ==> (#[trigger] node.edges@[e]).0 != c,
            },
    {
        let n = node.edges.len();
        let mut i: usize = 0;
        while i < n
            invariant
                n == node.edges@.len(),
                i <= n,
                forall|e: int| 0 <= e < i ==> (#[trigger] node.edges@[e]).0 != c,
            decreases n - i,
        {
            let (label, child) = node.edges[i];
            if label == c {
                return Some(child);
            }
            i += 1;
        }
        None
    }

    /// Copies a transition list.
    fn copy_edges(src: &Vec<(char, usize)>) -> (r: Vec<(char, usize)>)
        ensures
            r@ == src@,
    {
        let n = src.len();
        let mut out: Vec<(char, usize)> = Vec::new();
        let mut i: usize = 0;
        while i < n
            invariant
                n == src@.len(),
                i <= n,
                out@ == src@.take(i as int),
            decreases n - i,
        {
            out.push(src[i]);
            proof {
                assert(out@ =~= src@.take(i + 1));
            }
            i += 1;
        }
        proof {
            assert(src@.take(n as int) =~= src@);
        }
        out
    }

    /// For every state and every length `j`, some state spells the first `j`
    /// scalar values of that state's path.
    proof fn lemma_prefix_node(self, x: int, j: int)
        requires
            self.wf(),
            0 <= x < self.nodes@.len(),
            0 <= j <= self.nodes@[x].path@.len(),
        ensures
            exists|y: int|
                0 <= y < self.nodes@.len() && (#[trigger] self.nodes@[y]).path@
                    == self.nodes@[x].path@.take(j),
        decreases self.nodes@[x].path@.len(),
    {
        let nodes = self.nodes@;
        let p = nodes[x].path@;
        if j == p.len() {
            assert(p.take(j) =~= p);
            assert(nodes[x].path@ == p.take(j));
        } else {
            assert(p.len() >= 1);
            assert(x != 0);
            assert(has_parent(nodes, x));
            let (n, e) = choose|n: int, e: int|
                0 <= n < nodes.len() && 0 <= e < nodes[n].edges@.len() && (#[trigger] nodes[n].edges@[e]).1 == x;
            let edge = nodes[n].edges@[e];
            assert(nodes[x].path@ == nodes[n].path@.push(edge.0));
            assert(nodes[n].path@ =~= p.take(p.len() - 1));
            assert(nodes[n].path@.len() == p.len() - 1);
            self.lemma_prefix_node(n, j);
            assert(nodes[n].path@.take(j) =~= p.take(j));
        }
    }

    /// Adds `key` to the automaton: follows existing transitions as far as
    /// they go, appends fresh states for the remainder, and marks the state
    /// spelling `key` accepting.
    fn insert_key(&mut self, key: &Vec<char>)
        requires
            old(self).wf(),
        ensures
            final(self).wf(),
            final(self).key_set() == old(self).key_set().insert(key@),
    {
        let klen = key.len();
        let mut cur: usize = 0;
        let mut i: usize = 0;
        proof {
            assert(self.nodes@[0].path@ =~= key@.take(0));
        }
        while i < klen
            invariant
                self.wf(),
                klen == key@.len(),
                i <= klen,
                cur < self.nodes@.len(),
                self.nodes@[cur as int].path@ == key@.take(i as int),
                self.key_set() == old(self).key_set(),
            decreases klen - i,
        {
            let c = key[i];
            match Self::find_edge(&self.nodes[cur], c) {
                Some(child) => {
                    proof {
                        let e = choose|e: int|
                            0 <= e < self.nodes@[cur as int].edges@.len() && (#[trigger] self.nodes@[cur as int].edges@[e]).0 == c
                                && self.nodes@[cur as int].edges@[e].1 == child;
                        assert(self.nodes@[child as int].path@ == self.nodes@[
                            cur as int
                        ].path@.push(c));
                        assert(key@.take(i as int).push(key@[i as int]) =~= key@.take(
                            i + 1,
                        ));
                    }
                    cur = child;
                },
                None => {
                    let ghost pre = *self;
                    let fresh = self.nodes.len();
                    self.nodes.push(
                        TrieNode {
                            path: Ghost(key@.take(i + 1)),
                            accepting: false,
                            edges: Vec::new(),
                        },
                    );
                    let acc = self.nodes[cur].accepting;
                    let ghost cpath = self.nodes@[cur as int].path@;
                    let mut new_edges = Self::copy_edges(&self.nodes[cur].edges);
                    new_edges.push((c, fresh));
                    self.nodes[cur] = TrieNode {
                        path: Ghost(cpath),
                        accepting: acc,
                        edges: new_edges,
                    };
                    proof {
                        self.lemma_after_attach(pre, cur as int, c, key@, i as int, fresh);
                    }
                    cur = fresh;
                },
            }
            i += 1;
        }
        let ghost pre = *self;
        let acc = self.nodes[cur].accepting;
        proof {
            assert(key@.take(klen as int) =~= key@);
        }
        if !acc {
            let ghost cpath = self.nodes@[cur as int].path@;
            let new_edges = Self::copy_edges(&self.nodes[cur].edges);
            self.nodes[cur] = TrieNode { path: Ghost(cpath), accepting: true, edges: new_edges };
            proof {
                self.lemma_after_accept(pre, cur as int, key@);
            }
        } else {
            proof {
                assert(old(self).key_set().contains(key@));
                assert(old(self).key_set().insert(key@) =~= old(self).key_set());
            }
        }
    }

    /// After appending a fresh non-accepting state and one transition to it,
    /// the arena is again a well-formed trie with the same accepting paths.
    proof fn lemma_after_attach(
        self,
        pre: PrefixIndex,
        cur: int,
        c: char,
        key: Seq<char>,
        i: int,
        fresh_u: usize,
    )
        requires
            pre.wf(),
            fresh_u == pre.nodes@.len(),
            0 <= cur < pre.nodes@.len(),
            0 <= i < key.len(),
            pre.nodes@[cur].path@ == key.take(i),
            forall|e: int|
                0 <= e < pre.nodes@[cur].edges@.len() ==> (#[trigger] pre.nodes@[cur].edges@[e]).0 != c,
            c == key[i],
            self.nodes@.len() == pre.nodes@.len() + 1,
            forall|m: int|
                0 <= m < pre.nodes@.len() && m != cur ==> self.nodes@[m] == pre.nodes@[m],
            self.nodes@[pre.nodes@.len() as int].path@ == key.take(i + 1),
            !self.nodes@[pre.nodes@.len() as int].accepting,
            self.nodes@[pre.nodes@.len() as int].edges@.len() == 0,
            self.nodes@[cur].path@ == pre.nodes@[cur].path@,
            self.nodes@[cur].accepting == pre.nodes@[cur].accepting,
            self.nodes@[cur].edges@ == pre.nodes@[cur].edges@.push((c, fresh_u)),
        ensures
            self.wf(),
            self.key_set() == pre.key_set(),
            self.nodes@.len() == pre.nodes@.len() + 1,
            self.nodes@[pre.nodes@.len() as int].path@ == key.take(i + 1),
    {
        let a = pre.nodes@;
        let b = self.nodes@;
        let fresh = a.len() as int;
        assert(b.len() == a.len() + 1);
        assert(b[fresh].path@ == key.take(i + 1));
        assert(b[fresh].edges@.len() == 0);
        assert(forall|m: int|
            0 <= m < b.len() && m != cur && m != fresh ==> b[m] == a[m]);
        assert(b[cur].path@ == a[cur].path@);
        assert(b[cur].accepting == a[cur].accepting);
        assert(b[cur].edges@ == a[cur].edges@.push((c, fresh_u)));
        assert(key.take(i).push(key[i]) =~= key.take(i + 1));

        // the fresh state's path is spelled by no state of the old arena
        assert forall|x: int| 0 <= x < a.len() implies a[x].path@ != key.take(i + 1) by {
            if a[x].path@ == key.take(i + 1) {
                assert(a[x].path@.len() == i + 1);
                assert(x != 0);
                assert(has_parent(a, x));
                let (n, e) = choose|n: int, e: int|
                    0 <= n < a.len() && 0 <= e < a[n].edges@.len() && (#[trigger] a[n].edges@[e]).1 == x;
                let edge = a[n].edges@[e];
                assert(a[x].path@ == a[n].path@.push(edge.0));
                assert(a[n].path@ =~= key.take(i + 1).take(i));
                assert(key.take(i + 1).take(i) =~= key.take(i));
                assert(edge.0 == key.take(i + 1)[i]);
                assert(edge.0 == c);
                assert(n == cur);
            }
        }

        // root unchanged
        assert(b[0].path@ == Seq::<char>::empty());

        assert forall|n: int, e: int|
            0 <= n < b.len() && 0 <= e < b[n].edges@.len() implies {
            let edge = #[trigger] b[n].edges@[e];
            &&& edge.1 < b.len()
            &&& b[edge.1 as int].path@ == b[n].path@.push(edge.0)
        } by {
            if n == fresh {
            } else if n == cur {
                if e < a[cur].edges@.len() {
                    let edge = a[cur].edges@[e];
                    assert(edge.1 < a.len());
                    assert(a[edge.1 as int].path@ == a[cur].path@.push(edge.0));
                    assert(edge.1 as int != cur);
                    assert(b[edge.1 as int].path@ == a[edge.1 as int].path@);
                } else {
                    let edge = b[cur].edges@[e];
                    assert(edge.0 == c && edge.1 == fresh_u && fresh_u == a.len());
                    assert(b[fresh].path@ == key.take(i + 1));
                    assert(b[cur].path@.push(c) =~= key.take(i + 1));
                }
            } else {
                let edge = a[n].edges@[e];
                assert(edge.1 < a.len());
                assert(a[edge.1 as int].path@ == a[n].path@.push(edge.0));
                if edge.1 as int == cur {
                    assert(b[cur].path@ == a[cur].path@);
                } else {
                    assert(b[edge.1 as int] == a[edge.1 as int]);
                }
            }
        }

        assert forall|n: int, e1: int, e2: int|
            0 <= n < b.len() && 0 <= e1 < e2 < b[n].edges@.len() implies (#[trigger] b[n].edges@[e1]).0 != (#[trigger] b[n].edges@[e2]).0 by {
            if n == cur {
                if e2 < a[cur].edges@.len() {
                    assert(a[cur].edges@[e1].0 != a[cur].edges@[e2].0);
                } else {
                    assert(b[n].edges@[e2].0 == c);
                    assert(a[cur].edges@[e1].0 != c);
                }
            } else if n != fresh {
                assert(a[n].edges@[e1].0 != a[n].edges@[e2].0);
            }
        }

        assert forall|m: int| 1 <= m < b.len() implies #[trigger] has_parent(b, m) by {
            if m == fresh {
                assert(b[cur].edges@[a[cur].edges@.len() as int].1 == m);
                assert(0 <= cur < b.len());
            } else {
                assert(has_parent(a, m));
                let (n, e) = choose|n: int, e: int|
                    0 <= n < a.len() && 0 <= e < a[n].edges@.len() && (#[trigger] a[n].edges@[e]).1 == m;
                if n == cur {
                    assert(b[cur].edges@[e] == a[cur].edges@[e]);
                    assert((b[n].edges@[e]).1 == m);
                } else {
                    assert(b[n].edges@[e] == a[n].edges@[e]);
                    assert((b[n].edges@[e]).1 == m);
                }
            }
        }

        assert forall|n1: int, n2: int|
            #![trigger b[n1].path@, b[n2].path@]
            0 <= n1 < b.len() && 0 <= n2 < b.len() && b[n1].path@ == b[n2].path@ implies n1
            == n2 by {
            if n1 < fresh && n2 < fresh {
                assert(b[n1].path@ == a[n1].path@);
                assert(b[n2].path@ == a[n2].path@);
            } else if n1 == fresh && n2 < fresh {
                assert(a[n2].path@ != key.take(i + 1));
                assert(b[n2].path@ == a[n2].path@);
            } else if n2 == fresh && n1 < fresh {
                assert(a[n1].path@ != key.take(i + 1));
                assert(b[n1].path@ == a[n1].path@);
            }
        }

        assert forall|k: Seq<char>|
            self.key_set().contains(k) <==> pre.key_set().contains(k) by {
            if self.key_set().contains(k) {
                let x = choose|x: int|
                    0 <= x < b.len() && (#[trigger] b[x]).accepting && b[x].path@ == k;
                assert(x != fresh);
                assert(a[x].accepting && a[x].path@ == k);
            }
            if pre.key_set().contains(k) {
                let x = choose|x: int|
                    0 <= x < a.len() && (#[trigger] a[x]).accepting && a[x].path@ == k;
                assert(b[x].accepting && b[x].path@ == k);
            }
        }
        assert(self.key_set() =~= pre.key_set());
    }

    /// After marking the state spelling `key` accepting, the arena is again
    /// a well-formed trie whose accepting paths gained exactly `key`.
    proof fn lemma_after_accept(self, pre: PrefixIndex, cur: int, key: Seq<char>)
        requires
            pre.wf(),
            0 <= cur < pre.nodes@.len(),
            pre.nodes@[cur].path@ == key,
            self.nodes@.len() == pre.nodes@.len(),
            forall|m: int|
                0 <= m < pre.nodes@.len() && m != cur ==> self.nodes@[m] == pre.nodes@[m],
            self.nodes@[cur].path@ == pre.nodes@[cur].path@,
            self.nodes@[cur].accepting,
            self.nodes@[cur].edges@ == pre.nodes@[cur].edges@,
        ensures
            self.wf(),
            self.key_set() == pre.key_set().insert(key),
    {
        let a = pre.nodes@;
        let b = self.nodes@;
        assert(b.len() == a.len());
        assert(forall|m: int| 0 <= m < b.len() && m != cur ==> b[m] == a[m]);
        assert(b[cur].path@ == a[cur].path@);
        assert(b[cur].edges@ == a[cur].edges@);
        assert(forall|m: int| 0 <= m < b.len() ==> (#[trigger] b[m]).path@ == a[m].path@);
        assert(forall|m: int| 0 <= m < b.len() ==> (#[trigger] b[m]).edges@ == a[m].edges@);

        assert(b[0].path@ == Seq::<char>::empty());
        assert forall|n: int, e: int|
            0 <= n < b.len() && 0 <= e < b[n].edges@.len() implies {
            let edge = #[trigger] b[n].edges@[e];
            &&& edge.1 < b.len()
            &&& b[edge.1 as int].path@ == b[n].path@.push(edge.0)
        } by {
            let edge = a[n].edges@[e];
            assert(edge.1 < a.len());
            assert(a[edge.1 as int].path@ == a[n].path@.push(edge.0));
        }
        assert forall|n: int, e1: int, e2: int|
            0 <= n < b.len() && 0 <= e1 < e2 < b[n].edges@.len() implies (#[trigger] b[n].edges@[e1]).0 != (#[trigger] b[n].edges@[e2]).0 by {
            assert(a[n].edges@[e1].0 != a[n].edges@[e2].0);
        }
        assert forall|m: int| 1 <= m < b.len() implies #[trigger] has_parent(b, m) by {
            assert(has_parent(a, m));
            let (n, e) = choose|n: int, e: int|
                0 <= n < a.len() && 0 <= e < a[n].edges@.len() && (#[trigger] a[n].edges@[e]).1 == m;
            assert(b[n].edges@ == a[n].edges@);
            assert((b[n].edges@[e]).1 == m);
        }

        assert forall|k: Seq<char>|
            self.key_set().contains(k) <==> pre.key_set().insert(key).contains(k) by {
            if self.key_set().contains(k) {
                let x = choose|x: int|
                    0 <= x < b.len() && (#[trigger] b[x]).accepting && b[x].path@ == k;
                if x != cur {
                    assert(a[x].accepting && a[x].path@ == k);
                }
            }
            if pre.key_set().contains(k) {
                let x = choose|x: int|
                    0 <= x < a.len() && (#[trigger] a[x]).accepting && a[x].path@ == k;
                assert(b[x].accepting && b[x].path@ == k);
            }
            if k == key {
                assert(b[cur].accepting && b[cur].path@ == k);
            }
        }
        assert(self.key_set() =~= pre.key_set().insert(key));
    }

    /// Builds the index over the full keyset of `table`.
    pub fn from_table(table: &Table) -> (idx: PrefixIndex)
        ensures
            idx.wf(),
            idx.key_set() == table@.dom(),
    {
        let n = table.len();
        let mut idx = PrefixIndex::empty();
        let mut i: usize = 0;
        while i < n
            invariant
                idx.wf(),
                n == table.keys_seq().len(),
                i <= n,
                forall|k: Seq<char>|
                    #[trigger] idx.key_set().contains(k) <==> (exists|j: int|
                        0 <= j < i && table.keys_seq()[j] == k),
            decreases n - i,
        {
            let ghost pre_set = idx.key_set();
            idx.insert_key(table.key_at(i));
            proof {
                assert forall|k: Seq<char>|
                    #[trigger] idx.key_set().contains(k) <==> (exists|j: int|
                        0 <= j < i + 1 && table.keys_seq()[j] == k) by {
                    if idx.key_set().contains(k) {
                        if k == table.keys_seq()[i as int] {
                            assert(table.keys_seq()[i as int] == k);
                        } else {
                            assert(pre_set.contains(k));
                        }
                    }
                    if exists|j: int| 0 <= j < i + 1 && table.keys_seq()[j] == k {
                        let j = choose|j: int| 0 <= j < i + 1 && table.keys_seq()[j] == k;
                        if j < i {
                            assert(pre_set.contains(k));
                        }
                    }
                }
            }
            i += 1;
        }
        proof {
            table.lemma_dom();
            assert forall|k: Seq<char>|
                idx.key_set().contains(k) <==> table@.dom().contains(k) by {
                if idx.key_set().contains(k) {
                    let j = choose|j: int|
                        0 <= j < table.keys_seq().len() && table.keys_seq()[j] == k;
                    assert(table.keys_seq().contains(k));
                }
                if table@.dom().contains(k) {
                    assert(table.keys_seq().contains(k));
                    let j = choose|j: int|
                        0 <= j < table.keys_seq().len() && table.keys_seq()[j] == k;
                    assert(0 <= j < n && table.keys_seq()[j] == k);
                }
            }
            assert(idx.key_set() =~= table@.dom());
        }
        idx
    }

    /// The longest key in the index (of one or more scalar values) that is a
    /// prefix of `buffer`, reported as its length in scalar values; `None`
    /// when no such key prefixes `buffer`. A single walk of the transition
    /// graph from the root, one scalar value at a time, recording the last
    /// accepting state reached.
    pub fn longest_prefix_match(&self, buffer: &[char]) -> (r: Option<usize>)
        requires
            self.wf(),
        ensures
            match r {
                Some(l) => {
                    &&& 1 <= l <= buffer@.len()
                    &&& self.key_set().contains(buffer@.take(l as int))
                    &&& forall|l2: int|
                        l < l2 <= buffer@.len() ==> !self.key_set().contains(
                            buffer@.take(l2),
                        )
                },
                None => forall|l2: int|
                    0 < l2 <= buffer@.len() ==> !self.key_set().contains(buffer@.take(l2)),
            },
    {
        let n = buffer.len();
        let mut cur: usize = 0;
        let mut i: usize = 0;
        let mut best: Option<usize> = None;
        proof {
            assert(self.nodes@[0].path@ =~= buffer@.take(0));
        }
        while i < n
            invariant_except_break
                self.wf(),
                n == buffer@.len(),
                i <= n,
                cur < self.nodes@.len(),
                self.nodes@[cur as int].path@ == buffer@.take(i as int),
                match best {
                    Some(l) => {
                        &&& 1 <= l <= i
                        &&& self.key_set().contains(buffer@.take(l as int))
                        &&& forall|l2: int|
                            l < l2 <= i ==> !self.key_set().contains(buffer@.take(l2))
                    },
                    None => forall|l2: int|
                        0 < l2 <= i ==> !self.key_set().contains(buffer@.take(l2)),
                },
            ensures
                match best {
                    Some(l) => {
                        &&& 1 <= l <= n
                        &&& self.key_set().contains(buffer@.take(l as int))
                        &&& forall|l2: int|
                            l < l2 <= n ==> !self.key_set().contains(buffer@.take(l2))
                    },
                    None => forall|l2: int|
                        0 < l2 <= n ==> !self.key_set().contains(buffer@.take(l2)),
                },
            decreases n - i,
        {
            let c = buffer[i];
            match Self::find_edge(&self.nodes[cur], c) {
                Some(child) => {
                    proof {
                        let e = choose|e: int|
                            0 <= e < self.nodes@[cur as int].edges@.len() && (#[trigger] self.nodes@[cur as int].edges@[e]).0 == c
                                && self.nodes@[cur as int].edges@[e].1 == child;
                        assert(self.nodes@[child as int].path@ == self.nodes@[
                            cur as int
                        ].path@.push(c));
                        assert(buffer@.take(i as int).push(buffer@[i as int]) =~= buffer@.take(
                            i + 1,
                        ));
                    }
                    cur = child;
                    i += 1;
                    let acc = self.nodes[cur].accepting;
                    if acc {
                        best = Some(i);
                    } else {
                        proof {
                            assert forall|l2: int|
                                l2 == i implies !self.key_set().contains(
                                buffer@.take(l2),
                            ) by {
                                if self.key_set().contains(buffer@.take(l2)) {
                                    let x = choose|x: int|
                                        0 <= x < self.nodes@.len() && (#[trigger] self.nodes@[x]).accepting
                                            && self.nodes@[x].path@ == buffer@.take(l2);
                                    assert(self.nodes@[x].path@ == self.nodes@[
                                        cur as int
                                    ].path@);
                                    assert(x == cur);
                                }
                            }
                        }
                    }
                },
                None => {
                    proof {
                        assert forall|l2: int|
                            i < l2 <= n implies !self.key_set().contains(
                            buffer@.take(l2),
                        ) by {
                            if self.key_set().contains(buffer@.take(l2)) {
                                let x = choose|x: int|
                                    0 <= x < self.nodes@.len() && (#[trigger] self.nodes@[x]).accepting
                                        && self.nodes@[x].path@ == buffer@.take(l2);
                                assert(self.nodes@[x].path@.len() == l2);
                                self.lemma_prefix_node(x, i + 1);
                                let y = choose|y: int|
                                    0 <= y < self.nodes@.len() && (#[trigger] self.nodes@[y]).path@
                                        == self.nodes@[x].path@.take(i + 1);
                                assert(buffer@.take(l2).take(i + 1) =~= buffer@.take(i + 1));
                                assert(self.nodes@[y].path@ == buffer@.take(i + 1));
                                assert(self.nodes@[y].path@.len() == i + 1);
                                assert(y != 0);
                                assert(has_parent(self.nodes@, y));
                                let (pn, pe) = choose|pn: int, pe: int|
                                    0 <= pn < self.nodes@.len() && 0 <= pe < self.nodes@[
                                        pn
                                    ].edges@.len() && (#[trigger] self.nodes@[pn].edges@[pe]).1 == y;
                                let edge = self.nodes@[pn].edges@[pe];
                                assert(self.nodes@[y].path@ == self.nodes@[pn].path@.push(
                                    edge.0,
                                ));
                                assert(self.nodes@[pn].path@ =~= buffer@.take(i + 1).take(
                                    i as int,
                                ));
                                assert(buffer@.take(i + 1).take(i as int) =~= buffer@.take(
                                    i as int,
                                ));
                                assert(edge.0 == buffer@.take(i + 1)[i as int]);
                                assert(edge.0 == buffer@[i as int]);
                                assert(self.nodes@[pn].path@ == self.nodes@[cur as int].path@);
                                assert(pn == cur);
                                assert(false);
                            }
                        }
                    }
                    break ;
                },
            }
        }
        best
    }
}

} // verus!
