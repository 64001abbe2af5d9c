//! The converter: two mapping tables (one per direction), each paired with a
//! prefix index derived from its keyset, built once from plain key/value
//! pairs and read-only afterwards.

use crate::detect::is_script;
use crate::detect::is_script_spec;
use crate::engine::convert_script;
use crate::engine::convert_spec;
use crate::index::PrefixIndex;
use crate::table::Table;
use vstd::prelude::*;
use vstd::std_specs::iter::IteratorSpec;

verus! {

broadcast use vstd::string::axiom_spec_iter, vstd::string::next_postcondition;

/// Why construction of a [`Converter`] failed.
#[derive(Clone, Copy, Debug, PartialEq, Eq)]
pub enum InitializationError {
    /// The source data holds an entry whose key has no scalar values.
    EmptyKey,
    /// The source data holds two entries with the same key.
    DuplicateKey,
}

/// Whether the pair list holds an entry whose key has no scalar values.
pub open spec fn has_empty_key(ps: Seq<(String, String)>) -> bool {
    exists|i: int| 0 <= i < ps.len() && ps[i].0@.len() == 0
}

/// Whether two entries of the pair list share a key.
pub open spec fn has_duplicate_key(ps: Seq<(String, String)>) -> bool {
    exists|i: int, j: int| 0 <= i < j < ps.len() && ps[i].0@ == ps[j].0@
}

/// Whether the pair list describes a mapping table: keys unique, each with
/// at least one scalar value.
pub open spec fn pairs_valid(ps: Seq<(String, String)>) -> bool {
    !has_empty_key(ps) && !has_duplicate_key(ps)
}

/// The set of keys occurring in the pair list.
pub open spec fn pair_key_set(ps: Seq<(String, String)>) -> Set<Seq<char>> {
    Set::new(|k: Seq<char>| exists|i: int| 0 <= i < ps.len() && ps[i].0@ == k)
}

/// The violation reported when the first `n` entries of the pair list are
/// scanned in order: for each entry an empty key is reported before a
/// repeated one, and the earliest offending entry decides.
pub open spec fn first_pair_error(ps: Seq<(String, String)>, n: int) -> Option<
    InitializationError,
>
    decreases n,
{
    if n <= 0 {
        None
    } else if first_pair_error(ps, n - 1) is Some {
        first_pair_error(ps, n - 1)
    } else if ps[n - 1].0@.len() == 0 {
        Some(InitializationError::EmptyKey)
    } else if exists|j: int| 0 <= j < n - 1 && (#[trigger] ps[j].0@) == ps[n - 1].0@ {
        Some(InitializationError::DuplicateKey)
    } else {
        None
    }
}

/// Once the scan has found a violation, scanning further entries reports the
/// same one.
proof fn lemma_first_error_stable(ps: Seq<(String, String)>, n1: int, n2: int)
    requires
        0 <= n1 <= n2,
        first_pair_error(ps, n1) is Some,
    ensures
        first_pair_error(ps, n2) == first_pair_error(ps, n1),
    decreases n2,
{
    if n2 > n1 {
        lemma_first_error_stable(ps, n1, n2 - 1);
    }
}

/// The scan finds no violation among the first `n` entries exactly when all
/// their keys are nonempty and pairwise distinct.
proof fn lemma_first_error_none(ps: Seq<(String, String)>, n: int)
    requires
        0 <= n <= ps.len(),
    ensures
        first_pair_error(ps, n) is None <==> ((forall|i: int|
            0 <= i < n ==> #[trigger] ps[i].0@.len() >= 1) && (forall|i: int, j: int|
            0 <= i < j < n ==> ps[i].0@ != ps[j].0@)),
    decreases n,
{
    if n > 0 {
        lemma_first_error_none(ps, n - 1);
    }
}

/// A pair list is valid exactly when the scan of all its entries finds no
/// violation.
pub proof fn lemma_valid_iff_no_error(ps: Seq<(String, String)>)
    ensures
        pairs_valid(ps) <==> first_pair_error(ps, ps.len() as int) is None,
{
    lemma_first_error_none(ps, ps.len() as int);
    if forall|i: int| 0 <= i < ps.len() ==> #[trigger] ps[i].0@.len() >= 1 {
        assert(!has_empty_key(ps));
    }
    if has_empty_key(ps) {
        let i = choose|i: int| 0 <= i < ps.len() && ps[i].0@.len() == 0;
        assert(!(ps[i].0@.len() >= 1));
    }
}

/// Collects the scalar values of `s` in order.
fn str_to_chars(s: &str) -> (r: Vec<char>)
    ensures
        r@ == s@,
{
    let mut it = s.chars();
    let mut out: Vec<char> = Vec::new();
    proof {
        assert(out@ + it.remaining() =~= s@);
    }
    loop
        invariant_except_break
            out@ + it.remaining() == s@,
            it.decrease() is Some,
        ensures
            out@ == s@,
        decreases it.decrease()->0,
    {
        match it.next() {
            Some(c) => {
                out.push(c);
                proof {
                    assert(out@ + it.remaining() =~= s@);
                }
            },
            None => {
                proof {
                    assert(out@ + it.remaining() =~= out@);
                }
                break;
            },
        }
    }
    out
}

/// Relies on `String`'s `FromIterator` implementation for `char`: collecting
/// an iterator of characters yields the string of exactly those characters,
/// in order.
#[verifier::external_body]
fn chars_to_string(v: &Vec<char>) -> (r: String)
    ensures
        r@ == v@,
{
    v.iter().collect()
}

/// Builds one direction's table from its pair list, scanning the entries in
/// order and refusing empty and repeated keys.
fn build_table(pairs: &Vec<(String, String)>) -> (r: Result<Table, InitializationError>)
    ensures
        match r {
            Ok(t) => {
                &&& first_pair_error(pairs@, pairs@.len() as int) is None
                &&& t.wf()
                &&& t.keys_seq() == pairs@.map_values(|p: (String, String)| p.0@)
                &&& forall|i: int|
                    #![auto]
                    0 <= i < pairs@.len() ==> t@[pairs@[i].0@] == pairs@[i].1@
            },
            Err(e) => Some(e) == first_pair_error(pairs@, pairs@.len() as int),
        },
{
    let n = pairs.len();
    let mut t = Table::new();
    let mut i: usize = 0;
    proof {
        assert(t.keys_seq() =~= pairs@.take(0).map_values(|p: (String, String)| p.0@));
    }
    while i < n
        invariant
            n == pairs@.len(),
            i <= n,
            t.wf(),
            first_pair_error(pairs@, i as int) is None,
            t.keys_seq() == pairs@.take(i as int).map_values(|p: (String, String)| p.0@),
            forall|j: int| #![auto] 0 <= j < i ==> t@[pairs@[j].0@] == pairs@[j].1@,
            forall|k: Seq<char>|
                #[trigger] t@.dom().contains(k) <==> exists|j: int|
                    0 <= j < i && pairs@[j].0@ == k,
        decreases n - i,
    {
        let key = str_to_chars(&pairs[i].0);
        if key.len() == 0 {
            proof {
                assert(first_pair_error(pairs@, i + 1) == Some(InitializationError::EmptyKey));
                lemma_first_error_stable(pairs@, i + 1, n as int);
            }
            return Err(InitializationError::EmptyKey);
        }
        if t.contains_key(key.as_slice()) {
            proof {
                let j = choose|j: int| 0 <= j < i && pairs@[j].0@ == key@;
                assert(first_pair_error(pairs@, i + 1) == Some(
                    InitializationError::DuplicateKey,
                ));
                lemma_first_error_stable(pairs@, i + 1, n as int);
            }
            return Err(InitializationError::DuplicateKey);
        }
        let value = str_to_chars(&pairs[i].1);
        let ghost t_pre = t;
        t.insert(key, value);
        proof {
            assert(t.keys_seq() =~= pairs@.take(i + 1).map_values(
                |p: (String, String)| p.0@,
            ));
            assert forall|k: Seq<char>| #[trigger]
                t@.dom().contains(k) <==> exists|j: int|
                    0 <= j < i + 1 && pairs@[j].0@ == k by {
                if t@.dom().contains(k) {
                    if k != pairs@[i as int].0@ {
                        assert(t_pre@.dom().contains(k));
                        let j = choose|j: int| 0 <= j < i && pairs@[j].0@ == k;
                        assert(0 <= j < i + 1 && pairs@[j].0@ == k);
                    } else {
                        assert(0 <= i < i + 1 && pairs@[i as int].0@ == k);
                    }
                }
                if exists|j: int| 0 <= j < i + 1 && pairs@[j].0@ == k {
                    let j = choose|j: int| 0 <= j < i + 1 && pairs@[j].0@ == k;
                    if j < i {
                        assert(t_pre@.dom().contains(k));
                    }
                }
            }
            assert forall|j: int| #![auto]
                0 <= j < i + 1 implies t@[pairs@[j].0@] == pairs@[j].1@ by {
                if j < i {
                    assert(t_pre@.dom().contains(pairs@[j].0@));
                    assert(pairs@[j].0@ != pairs@[i as int].0@);
                }
            }
            assert(first_pair_error(pairs@, i + 1) is None);
        }
        i += 1;
    }
    proof {
        assert(pairs@.take(n as int) =~= pairs@);
    }
    Ok(t)
}

/// The two direction pairs: a traditional-to-simplified table and a
/// simplified-to-traditional table, each with the prefix index derived from
/// its keyset. Built once, then treated as read-only.
pub struct Converter {
    t2s: Table,
    s2t: Table,
    t2s_index: PrefixIndex,
    s2t_index: PrefixIndex,
}

impl Converter {
    /// The traditional-to-simplified mapping.
    pub closed spec fn t2s_map(self) -> Map<Seq<char>, Seq<char>> {
        self.t2s@
    }

    /// The simplified-to-traditional mapping.
    pub closed spec fn s2t_map(self) -> Map<Seq<char>, Seq<char>> {
        self.s2t@
    }

    /// Both tables are well-formed and each index is derived from exactly
    /// its paired table's keyset.
    pub closed spec fn wf(self) -> bool {
        &&& self.t2s.wf()
        &&& self.s2t.wf()
        &&& self.t2s_index.wf()
        &&& self.s2t_index.wf()
        &&& self.t2s_index.key_set() == self.t2s@.dom()
        &&& self.s2t_index.key_set() == self.s2t@.dom()
    }

    /// Builds a converter from the two directions' key/value pair lists.
    /// Construction fails exactly when a list holds an empty or repeated
    /// key; the error reports the earliest violation, traditional-to-
    /// simplified entries scanned first.
    pub fn new(t2s_pairs: &Vec<(String, String)>, s2t_pairs: &Vec<(String, String)>) -> (r:
        Result<Converter, InitializationError>)
        ensures
            r is Ok <==> (pairs_valid(t2s_pairs@) && pairs_valid(s2t_pairs@)),
            match r {
                Ok(c) => {
                    &&& c.wf()
                    &&& c.t2s_map().dom() == pair_key_set(t2s_pairs@)
                    &&& c.s2t_map().dom() == pair_key_set(s2t_pairs@)
                    &&& forall|i: int|
                        #![auto]
                        0 <= i < t2s_pairs@.len() ==> c.t2s_map()[t2s_pairs@[i].0@]
                            == t2s_pairs@[i].1@
                    &&& forall|i: int|
                        #![auto]
                        0 <= i < s2t_pairs@.len() ==> c.s2t_map()[s2t_pairs@[i].0@]
                            == s2t_pairs@[i].1@
                },
                Err(e) => if first_pair_error(t2s_pairs@, t2s_pairs@.len() as int) is Some {
                    Some(e) == first_pair_error(t2s_pairs@, t2s_pairs@.len() as int)
                } else {
                    Some(e) == first_pair_error(s2t_pairs@, s2t_pairs@.len() as int)
                },
            },
    {
        proof {
            lemma_valid_iff_no_error(t2s_pairs@);
            lemma_valid_iff_no_error(s2t_pairs@);
        }
        let t2s = match build_table(t2s_pairs) {
            Ok(t) => t,
            Err(e) => {
                return Err(e);
            },
        };
        let s2t = match build_table(s2t_pairs) {
            Ok(t) => t,
            Err(e) => {
                return Err(e);
            },
        };
        let t2s_index = PrefixIndex::from_table(&t2s);
        let s2t_index = PrefixIndex::from_table(&s2t);
        let c = Converter { t2s, s2t, t2s_index, s2t_index };
        proof {
            c.t2s.lemma_dom();
            c.s2t.lemma_dom();
            assert forall|k: Seq<char>|
                c.t2s@.dom().contains(k) <==> pair_key_set(t2s_pairs@).contains(k) by {
                if c.t2s@.dom().contains(k) {
                    let j = choose|j: int|
                        0 <= j < c.t2s.keys_seq().len() && c.t2s.keys_seq()[j] == k;
                    assert(t2s_pairs@[j].0@ == k);
                }
                if pair_key_set(t2s_pairs@).contains(k) {
                    let j = choose|j: int| 0 <= j < t2s_pairs@.len() && t2s_pairs@[j].0@ == k;
                    assert(c.t2s.keys_seq()[j] == k);
                    assert(c.t2s.keys_seq().contains(k));
                }
            }
            assert(c.t2s@.dom() =~= pair_key_set(t2s_pairs@));
            assert forall|k: Seq<char>|
                c.s2t@.dom().contains(k) <==> pair_key_set(s2t_pairs@).contains(k) by {
                if c.s2t@.dom().contains(k) {
                    let j = choose|j: int|
                        0 <= j < c.s2t.keys_seq().len() && c.s2t.keys_seq()[j] == k;
                    assert(s2t_pairs@[j].0@ == k);
                }
                if pair_key_set(s2t_pairs@).contains(k) {
                    let j = choose|j: int| 0 <= j < s2t_pairs@.len() && s2t_pairs@[j].0@ == k;
                    assert(c.s2t.keys_seq()[j] == k);
                    assert(c.s2t.keys_seq().contains(k));
                }
            }
            assert(c.s2t@.dom() =~= pair_key_set(s2t_pairs@));
        }
        Ok(c)
    }

    /// Whether `raw` belongs to the traditional script: no scalar value of
    /// `raw` is absent from the traditional table's keys while present among
    /// the simplified table's keys.
    pub fn is_traditional(&self, raw: &str) -> (r: bool)
        requires
            self.wf(),
        ensures
            r == is_script_spec(self.t2s_map(), self.s2t_map(), raw@),
    {
        let chars = str_to_chars(raw);
        is_script(chars.as_slice(), &self.t2s, &self.s2t)
    }

    /// Whether `raw` belongs to the simplified script: no scalar value of
    /// `raw` is absent from the simplified table's keys while present among
    /// the traditional table's keys.
    pub fn is_simplified(&self, raw: &str) -> (r: bool)
        requires
            self.wf(),
        ensures
            r == is_script_spec(self.s2t_map(), self.t2s_map(), raw@),
    {
        let chars = str_to_chars(raw);
        is_script(chars.as_slice(), &self.s2t, &self.t2s)
    }

    /// Converts traditional text to simplified text by longest-match
    /// substitution over the traditional-to-simplified table.
    pub fn traditional_to_simplified(&self, raw: &str) -> (r: String)
        requires
            self.wf(),
        ensures
            r@ == convert_spec(self.t2s_map(), raw@),
    {
        let chars = str_to_chars(raw);
        let out = convert_script(chars.as_slice(), &self.t2s, &self.t2s_index);
        chars_to_string(&out)
    }

    /// Converts simplified text to traditional text by longest-match
    /// substitution over the simplified-to-traditional table.
    pub fn simplified_to_traditional(&self, raw: &str) -> (r: String)
        requires
            self.wf(),
        ensures
            r@ == convert_spec(self.s2t_map(), raw@),
    {
        let chars = str_to_chars(raw);
        let out = convert_script(chars.as_slice(), &self.s2t, &self.s2t_index);
        chars_to_string(&out)
    }
}

} // verus!
