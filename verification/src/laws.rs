//! Laws of the conversion engine, stated over the spec-level mapping and
//! proved once for every table.

use crate::engine::convert_spec;
use crate::engine::lemma_match_len_ge;
use crate::engine::lemma_match_len_le;
use crate::engine::lemma_match_len_some;
use crate::engine::match_len;
use vstd::prelude::*;

verus! {

/// The image of one scalar value under the mapping: the value bound to its
/// single-value key when there is one, else the value itself.
pub open spec fn char_image(m: Map<Seq<char>, Seq<char>>, c: char) -> Seq<char> {
    if m.dom().contains(seq![c]) {
        m[seq![c]]
    } else {
        seq![c]
    }
}

/// Whether every key of the mapping holds exactly one scalar value.
pub open spec fn single_value_keys(m: Map<Seq<char>, Seq<char>>) -> bool {
    forall|k: Seq<char>| #[trigger] m.dom().contains(k) ==> k.len() == 1
}

/// Whether every value of the mapping is a fixed point of conversion under
/// the same mapping.
pub open spec fn values_fixed(m: Map<Seq<char>, Seq<char>>) -> bool {
    forall|k: Seq<char>| #[trigger] m.dom().contains(k) ==> convert_spec(m, m[k]) == m[k]
}

/// Passthrough law: text in which no substring is a key of the mapping
/// converts to itself.
pub proof fn lemma_passthrough(m: Map<Seq<char>, Seq<char>>, x: Seq<char>)
    requires
        forall|i: int, j: int|
            0 <= i < j <= x.len() ==> !m.dom().contains(#[trigger] x.subrange(i, j)),
    ensures
        convert_spec(m, x) == x,
    decreases x.len(),
{
    if x.len() > 0 {
        if match_len(m, x) > 0 {
            lemma_match_len_some(m, x, x.len());
            lemma_match_len_le(m, x, x.len());
            let l = match_len(m, x) as int;
            assert(x.take(l) == x.subrange(0, l));
            assert(false);
        }
        assert forall|i: int, j: int|
            0 <= i < j <= x.skip(1).len() implies !m.dom().contains(
            #[trigger] x.skip(1).subrange(i, j),
        ) by {
            assert(x.skip(1).subrange(i, j) =~= x.subrange(i + 1, j + 1));
        }
        lemma_passthrough(m, x.skip(1));
        assert(seq![x[0]] + x.skip(1) =~= x);
    }
}

/// Longest-match law: when the table holds a key and a longer key, and the
/// longer key prefixes the input at its start, conversion matches at least
/// the longer key's length there — it never takes the shorter key's value
/// and passes the remainder through.
pub proof fn lemma_longest_match(
    m: Map<Seq<char>, Seq<char>>,
    short: Seq<char>,
    long: Seq<char>,
    x: Seq<char>,
)
    requires
        m.dom().contains(short),
        m.dom().contains(long),
        1 <= short.len() < long.len(),
        long.take(short.len() as int) == short,
        long.len() <= x.len(),
        x.take(long.len() as int) == long,
    ensures
        match_len(m, x) >= long.len(),
        convert_spec(m, x) == m[x.take(match_len(m, x) as int)] + convert_spec(
            m,
            x.skip(match_len(m, x) as int),
        ),
{
    lemma_match_len_ge(m, x, x.len(), long.len());
    lemma_match_len_le(m, x, x.len());
}

/// With single-value keys, conversion maps the leading scalar value to its
/// image and continues with the rest of the text.
proof fn lemma_single_step(m: Map<Seq<char>, Seq<char>>, s: Seq<char>)
    requires
        single_value_keys(m),
        s.len() > 0,
    ensures
        convert_spec(m, s) == char_image(m, s[0]) + convert_spec(m, s.skip(1)),
{
    lemma_match_len_le(m, s, s.len());
    if match_len(m, s) > 0 {
        lemma_match_len_some(m, s, s.len());
        assert(s.take(match_len(m, s) as int).len() == 1);
        assert(match_len(m, s) == 1);
        assert(s.take(1) =~= seq![s[0]]);
    } else {
        if m.dom().contains(seq![s[0]]) {
            assert(s.take(1) =~= seq![s[0]]);
            lemma_match_len_ge(m, s, s.len(), 1);
        }
    }
}

/// With single-value keys, conversion distributes over concatenation.
proof fn lemma_concat(m: Map<Seq<char>, Seq<char>>, a: Seq<char>, b: Seq<char>)
    requires
        single_value_keys(m),
    ensures
        convert_spec(m, a + b) == convert_spec(m, a) + convert_spec(m, b),
    decreases a.len(),
{
    if a.len() == 0 {
        assert(a + b =~= b);
        assert(Seq::<char>::empty() + convert_spec(m, b) =~= convert_spec(m, b));
    } else {
        assert((a + b).len() > 0);
        assert((a + b)[0] == a[0]);
        lemma_single_step(m, a + b);
        lemma_single_step(m, a);
        assert((a + b).skip(1) =~= a.skip(1) + b);
        lemma_concat(m, a.skip(1), b);
        assert(char_image(m, a[0]) + (convert_spec(m, a.skip(1)) + convert_spec(m, b))
            =~= (char_image(m, a[0]) + convert_spec(m, a.skip(1))) + convert_spec(m, b));
    }
}

/// Idempotence on already-converted text: when every key holds a single
/// scalar value and every value is a fixed point of the mapping, converting
/// twice equals converting once. (With keys of several scalar values a
/// second pass may match across a boundary of the first pass's output, so
/// the law is stated for single-value keys.)
pub proof fn lemma_idempotent(m: Map<Seq<char>, Seq<char>>, x: Seq<char>)
    requires
        single_value_keys(m),
        values_fixed(m),
    ensures
        convert_spec(m, convert_spec(m, x)) == convert_spec(m, x),
    decreases x.len(),
{
    if x.len() > 0 {
        lemma_single_step(m, x);
        lemma_concat(m, char_image(m, x[0]), convert_spec(m, x.skip(1)));
        lemma_idempotent(m, x.skip(1));
        if m.dom().contains(seq![x[0]]) {
            assert(convert_spec(m, char_image(m, x[0])) == char_image(m, x[0]));
        } else {
            lemma_single_step(m, seq![x[0]]);
            assert(seq![x[0]][0] == x[0]);
            assert(seq![x[0]].skip(1) =~= Seq::<char>::empty());
            assert(char_image(m, x[0]) + Seq::<char>::empty() =~= char_image(m, x[0]));
        }
    }
}

} // verus!
