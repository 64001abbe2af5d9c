//! The mapping table: one direction's immutable exact-match dictionary from
//! key sequences (one or more Unicode scalar values) to replacement sequences.

use vstd::prelude::*;

verus! {

/// Compares two character slices for equality of content.
fn chars_eq(a: &[char], b: &[char]) -> (r: bool)
    ensures
        r == (a@ == b@),
{
    if a.len() != b.len() {
        assert(a@ != b@);
        return false;
    }
    let n = a.len();
    let mut i: usize = 0;
    while i < n
        invariant
            n == a@.len(),
            n == b@.len(),
            i <= n,
            forall|j: int| 0 <= j < i ==> a@[j] == b@[j],
        decreases n - i,
    {
        if a[i] != b[i] {
            return false;
        }
        i += 1;
    }
    assert(a@ =~= b@);
    true
}

/// The map described by a sequence of (key, value) pairs, later pairs
/// overriding earlier ones.
spec fn pairs_map(ps: Seq<(Vec<char>, Vec<char>)>) -> Map<Seq<char>, Seq<char>>
    decreases ps.len(),
{
    if ps.len() == 0 {
        Map::empty()
    } else {
        pairs_map(ps.drop_last()).insert(ps.last().0@, ps.last().1@)
    }
}

/// No two pairs share a key.
spec fn keys_unique(ps: Seq<(Vec<char>, Vec<char>)>) -> bool {
    forall|i: int, j: int| 0 <= i < j < ps.len() ==> ps[i].0@ != ps[j].0@
}

/// The domain of `pairs_map(ps)` is exactly the keys occurring in `ps`.
proof fn lemma_pairs_map_dom(ps: Seq<(Vec<char>, Vec<char>)>)
    ensures
        forall|k: Seq<char>|
            pairs_map(ps).dom().contains(k) <==> (exists|i: int|
                0 <= i < ps.len() && ps[i].0@ == k),
    decreases ps.len(),
{
    if ps.len() > 0 {
        lemma_pairs_map_dom(ps.drop_last());
        assert forall|k: Seq<char>|
            pairs_map(ps).dom().contains(k) <==> (exists|i: int|
                0 <= i < ps.len() && ps[i].0@ == k) by {
            if pairs_map(ps).dom().contains(k) {
                if k == ps.last().0@ {
                    assert(ps[ps.len() - 1].0@ == k);
                } else {
                    assert(pairs_map(ps.drop_last()).dom().contains(k));
                    let i = choose|i: int|
                        0 <= i < ps.drop_last().len() && ps.drop_last()[i].0@ == k;
                    assert(ps.drop_last()[i] == ps[i]);
                    assert(ps[i].0@ == k);
                }
            }
            if exists|i: int| 0 <= i < ps.len() && ps[i].0@ == k {
                let i = choose|i: int| 0 <= i < ps.len() && ps[i].0@ == k;
                if i < ps.len() - 1 {
                    assert(ps.drop_last()[i] == ps[i]);
                    assert(ps.drop_last()[i].0@ == k);
                    assert(pairs_map(ps.drop_last()).dom().contains(k));
                }
            }
        }
    }
}

/// With unique keys, `pairs_map` binds each listed key to its listed value.
proof fn lemma_pairs_map_at(ps: Seq<(Vec<char>, Vec<char>)>, i: int)
    requires
        keys_unique(ps),
        0 <= i < ps.len(),
    ensures
        pairs_map(ps).dom().contains(ps[i].0@),
        pairs_map(ps)[ps[i].0@] == ps[i].1@,
    decreases ps.len(),
{
    if i < ps.len() - 1 {
        assert forall|a: int, b: int|
            0 <= a < b < ps.drop_last().len() implies ps.drop_last()[a].0@
            != ps.drop_last()[b].0@ by {
            assert(ps[a].0@ != ps[b].0@);
        }
        lemma_pairs_map_at(ps.drop_last(), i);
        assert(ps[i].0@ != ps.last().0@);
    }
}

/// An exact-match dictionary from key sequences to replacement sequences.
/// Keys are unique within a table and hold at least one scalar value; the
/// table is never mutated after construction.
pub struct Table {
    pairs: Vec<(Vec<char>, Vec<char>)>,
}

impl View for Table {
    type V = Map<Seq<char>, Seq<char>>;

    /// The table as a mathematical map from key content to value content.
    closed spec fn view(&self) -> Map<Seq<char>, Seq<char>> {
        pairs_map(self.pairs@)
    }
}

impl Table {
    /// The table's keys in insertion order.
    pub closed spec fn keys_seq(self) -> Seq<Seq<char>> {
        self.pairs@.map_values(|p: (Vec<char>, Vec<char>)| p.0@)
    }

    /// Keys are pairwise distinct and each holds at least one scalar value.
    pub closed spec fn wf(self) -> bool {
        &&& keys_unique(self.pairs@)
        &&& forall|i: int| 0 <= i < self.pairs@.len() ==> self.pairs@[i].0@.len() >= 1
    }

    /// The map's domain is exactly the keys listed by `keys_seq`, and every
    /// key in a well-formed table holds at least one scalar value.
    pub proof fn lemma_dom(self)
        ensures
            forall|k: Seq<char>|
                #[trigger] self@.dom().contains(k) ==> self.keys_seq().contains(k),
            forall|k: Seq<char>|
                #[trigger] self.keys_seq().contains(k) ==> self@.dom().contains(k),
            self.wf() ==> forall|k: Seq<char>|
                #[trigger] self@.dom().contains(k) ==> k.len() >= 1,
    {
        lemma_pairs_map_dom(self.pairs@);
        assert forall|k: Seq<char>|
            #[trigger] self@.dom().contains(k) implies self.keys_seq().contains(k) by {
            let i = choose|i: int| 0 <= i < self.pairs@.len() && self.pairs@[i].0@ == k;
            assert(self.keys_seq()[i] == k);
        }
        assert forall|k: Seq<char>|
            #[trigger] self.keys_seq().contains(k) implies self@.dom().contains(k) by {
            let i = choose|i: int| 0 <= i < self.keys_seq().len() && self.keys_seq()[i] == k;
            assert(self.pairs@[i].0@ == k);
        }
        if self.wf() {
            assert forall|k: Seq<char>|
                #[trigger] self@.dom().contains(k) implies k.len() >= 1 by {
                let i = choose|i: int| 0 <= i < self.pairs@.len() && self.pairs@[i].0@ == k;
            }
        }
    }

    /// An empty table.
    pub fn new() -> (t: Table)
        ensures
            t@ == Map::<Seq<char>, Seq<char>>::empty(),
            t.wf(),
            t.keys_seq() == Seq::<Seq<char>>::empty(),
    {
        let t = Table { pairs: Vec::new() };
        proof {
            assert(t.keys_seq() =~= Seq::<Seq<char>>::empty());
        }
        t
    }

    /// The number of entries.
    pub fn len(&self) -> (n: usize)
        ensures
            n == self.keys_seq().len(),
    {
        self.pairs.len()
    }

    /// The key of the `i`-th entry, in insertion order.
    pub fn key_at(&self, i: usize) -> (k: &Vec<char>)
        requires
            i < self.keys_seq().len(),
        ensures
            k@ == self.keys_seq()[i as int],
    {
        &self.pairs[i].0
    }

    /// Whether `key` is present in the table.
    pub fn contains_key(&self, key: &[char]) -> (r: bool)
        requires
            self.wf(),
        ensures
            r == self@.dom().contains(key@),
    {
        self.lookup(key).is_some()
    }

    /// Exact-match lookup: the value bound to `key`, or `None` when `key` is
    /// not in the table.
    pub fn lookup<'a>(&'a self, key: &[char]) -> (r: Option<&'a Vec<char>>)
        requires
            self.wf(),
        ensures
            match r {
                Some(v) => self@.dom().contains(key@) && v@ == self@[key@],
                None => !self@.dom().contains(key@),
            },
    {
        let n = self.pairs.len();
        let mut i: usize = 0;
        while i < n
            invariant
                self.wf(),
                n == self.pairs@.len(),
                i <= n,
                forall|j: int| 0 <= j < i ==> self.pairs@[j].0@ != key@,
            decreases n - i,
        {
            if chars_eq(self.pairs[i].0.as_slice(), key) {
                proof {
                    lemma_pairs_map_at(self.pairs@, i as int);
                }
                return Some(&self.pairs[i].1);
            }
            i += 1;
        }
        proof {
            lemma_pairs_map_dom(self.pairs@);
        }
        None
    }

    /// Adds a pair whose key is new to the table and holds at least one
    /// scalar value.
    pub fn insert(&mut self, key: Vec<char>, value: Vec<char>)
        requires
            old(self).wf(),
            !old(self)@.dom().contains(key@),
            key@.len() >= 1,
        ensures
            final(self).wf(),
            final(self)@ == old(self)@.insert(key@, value@),
            final(self).keys_seq() == old(self).keys_seq().push(key@),
    {
        let ghost old_pairs = self.pairs@;
        let ghost k = key@;
        self.pairs.push((key, value));
        proof {
            let n = old_pairs.len() as int;
            assert(self.pairs@.drop_last() =~= old_pairs);
            lemma_pairs_map_dom(old_pairs);
            assert forall|i: int, j: int|
                0 <= i < j < self.pairs@.len() implies self.pairs@[i].0@
                != self.pairs@[j].0@ by {
                if j == n && self.pairs@[i].0@ == k {
                    assert(old_pairs[i].0@ == k);
                }
            }
            assert(final(self).keys_seq() =~= old(self).keys_seq().push(k));
        }
    }
}

} // verus!
