//! The conversion engine: walks input text and greedily replaces, at each
//! position, the longest dictionary key found there, passing unmatched
//! scalar values through unchanged.

use crate::index::PrefixIndex;
use crate::table::Table;
use vstd::pervasive::unreached;
use vstd::prelude::*;
use vstd::slice::slice_subrange;

verus! {

/// The greatest length `l <= upto` such that the first `l` scalar values of
/// `s` form a key of `m`; zero when there is none.
pub open spec fn match_len_upto(m: Map<Seq<char>, Seq<char>>, s: Seq<char>, upto: nat) -> nat
    decreases upto,
{
    if upto == 0 {
        0
    } else if m.dom().contains(s.take(upto as int)) {
        upto
    } else {
        match_len_upto(m, s, (upto - 1) as nat)
    }
}

/// The length of the longest key of `m` that is a prefix of `s`; zero when
/// no key is a prefix of `s`.
pub open spec fn match_len(m: Map<Seq<char>, Seq<char>>, s: Seq<char>) -> nat {
    match_len_upto(m, s, s.len())
}

/// `match_len_upto` never exceeds its bound.
pub proof fn lemma_match_len_le(m: Map<Seq<char>, Seq<char>>, s: Seq<char>, upto: nat)
    ensures
        match_len_upto(m, s, upto) <= upto,
    decreases upto,
{
    if upto > 0 {
        lemma_match_len_le(m, s, (upto - 1) as nat);
    }
}

/// `match_len_upto` dominates every matching length within its bound.
pub proof fn lemma_match_len_ge(m: Map<Seq<char>, Seq<char>>, s: Seq<char>, upto: nat, l: nat)
    requires
        1 <= l <= upto,
        m.dom().contains(s.take(l as int)),
    ensures
        match_len_upto(m, s, upto) >= l,
    decreases upto,
{
    if upto > l && !m.dom().contains(s.take(upto as int)) {
        lemma_match_len_ge(m, s, (upto - 1) as nat, l);
    }
}

/// A nonzero `match_len_upto` is itself a matching length.
pub proof fn lemma_match_len_some(m: Map<Seq<char>, Seq<char>>, s: Seq<char>, upto: nat)
    requires
        match_len_upto(m, s, upto) > 0,
    ensures
        m.dom().contains(s.take(match_len_upto(m, s, upto) as int)),
    decreases upto,
{
    if upto > 0 && !m.dom().contains(s.take(upto as int)) {
        lemma_match_len_some(m, s, (upto - 1) as nat);
    }
}

/// The conversion of `s` under the mapping `m`: starting from the front,
/// replace the longest key of `m` that prefixes the rest of the text by its
/// value, or pass one scalar value through when no key matches, and repeat.
pub open spec fn convert_spec(m: Map<Seq<char>, Seq<char>>, s: Seq<char>) -> Seq<char>
    decreases s.len(),
{
    if s.len() == 0 {
        Seq::empty()
    } else {
        let l = match_len(m, s);
        if 1 <= l <= s.len() {
            m[s.take(l as int)] + convert_spec(m, s.skip(l as int))
        } else {
            seq![s[0]] + convert_spec(m, s.skip(1))
        }
    }
}

/// Appends the characters of `src` to `out`.
pub(crate) fn extend_chars(out: &mut Vec<char>, src: &Vec<char>)
    ensures
        final(out)@ == old(out)@ + src@,
{
    let n = src.len();
    let mut i: usize = 0;
    while i < n
        invariant
            n == src@.len(),
            i <= n,
            out@ == old(out)@ + src@.take(i as int),
        decreases n - i,
    {
        out.push(src[i]);
        proof {
            assert(old(out)@ + src@.take(i as int) + seq![src@[i as int]] =~= old(out)@
                + src@.take(i + 1));
        }
        i += 1;
    }
    proof {
        assert(src@.take(n as int) =~= src@);
    }
}

/// Scans `raw` from the front, replacing at each position the longest key of
/// `table` found there (as reported by `index`) by its value, and passing
/// unmatched scalar values through unchanged.
pub fn convert_script(raw: &[char], table: &Table, index: &PrefixIndex) -> (out: Vec<char>)
    requires
        table.wf(),
        index.wf(),
        index.key_set() == table@.dom(),
    ensures
        out@ == convert_spec(table@, raw@),
{
    let n = raw.len();
    let mut out: Vec<char> = Vec::new();
    let mut cursor: usize = 0;
    proof {
        assert(raw@.skip(0) =~= raw@);
        assert(Seq::<char>::empty() + convert_spec(table@, raw@) =~= convert_spec(
            table@,
            raw@,
        ));
    }
    while cursor < n
        invariant
            table.wf(),
            index.wf(),
            index.key_set() == table@.dom(),
            n == raw@.len(),
            cursor <= n,
            convert_spec(table@, raw@) == out@ + convert_spec(
                table@,
                raw@.skip(cursor as int),
            ),
        decreases n - cursor,
    {
        let rem = slice_subrange(raw, cursor, n);
        let ghost rem_s = raw@.skip(cursor as int);
        assert(rem@ == rem_s);
        let ghost out_pre = out@;
        match index.longest_prefix_match(rem) {
            Some(l) => {
                proof {
                    lemma_match_len_ge(table@, rem_s, rem_s.len(), l as nat);
                    lemma_match_len_le(table@, rem_s, rem_s.len());
                    if match_len(table@, rem_s) > l {
                        lemma_match_len_some(table@, rem_s, rem_s.len());
                    }
                    assert(match_len(table@, rem_s) == l);
                }
                let keyslice = slice_subrange(rem, 0, l);
                assert(keyslice@ == rem_s.take(l as int));
                match table.lookup(keyslice) {
                    Some(v) => {
                        extend_chars(&mut out, v);
                        proof {
                            assert(rem_s.skip(l as int) =~= raw@.skip(cursor + l));
                            assert(convert_spec(table@, rem_s) == table@[rem_s.take(
                                l as int,
                            )] + convert_spec(table@, raw@.skip(cursor + l)));
                            assert(out_pre + (v@ + convert_spec(
                                table@,
                                raw@.skip(cursor + l),
                            )) =~= (out_pre + v@) + convert_spec(
                                table@,
                                raw@.skip(cursor + l),
                            ));
                        }
                        cursor += l;
                    },
                    // the index reports only keys of its paired table, so a
                    // failed lookup of a reported key is impossible
                    None => unreached(),
                }
            },
            None => {
                proof {
                    if match_len(table@, rem_s) > 0 {
                        lemma_match_len_some(table@, rem_s, rem_s.len());
                        lemma_match_len_le(table@, rem_s, rem_s.len());
                    }
                    assert(match_len(table@, rem_s) == 0);
                }
                out.push(raw[cursor]);
                proof {
                    assert(rem_s.skip(1) =~= raw@.skip(cursor + 1));
                    assert(seq![rem_s[0]] =~= Seq::<char>::empty().push(raw@[cursor as int]));
                    assert(convert_spec(table@, rem_s) == seq![rem_s[0]] + convert_spec(
                        table@,
                        raw@.skip(cursor + 1),
                    ));
                    assert(out_pre + (seq![rem_s[0]] + convert_spec(
                        table@,
                        raw@.skip(cursor + 1),
                    )) =~= (out_pre.push(raw@[cursor as int])) + convert_spec(
                        table@,
                        raw@.skip(cursor + 1),
                    ));
                }
                cursor += 1;
            },
        }
    }
    proof {
        assert(raw@.skip(n as int) =~= Seq::<char>::empty());
        assert(out@ + Seq::<char>::empty() =~= out@);
    }
    out
}

} // verus!
