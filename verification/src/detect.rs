//! The script detector: classifies text by checking, scalar value by scalar
//! value, membership in two opposing mapping tables.

use crate::table::Table;
use vstd::prelude::*;

verus! {

/// Text belongs to the primary script unless it holds a scalar value that is
/// absent as a single-value key of `primary` yet present as one of `backup`.
/// A value absent from both tables is script-neutral and never falsifies the
/// classification.
pub open spec fn is_script_spec(
    primary: Map<Seq<char>, Seq<char>>,
    backup: Map<Seq<char>, Seq<char>>,
    s: Seq<char>,
) -> bool {
    forall|i: int|
        0 <= i < s.len() ==> (primary.dom().contains(seq![s[i]]) || !backup.dom().contains(
            seq![s[i]],
        ))
}

/// Scans `raw` in order and reports whether it belongs to the script of
/// `primary`, short-circuiting at the first falsifying scalar value.
pub fn is_script(raw: &[char], primary: &Table, backup: &Table) -> (r: bool)
    requires
        primary.wf(),
        backup.wf(),
    ensures
        r == is_script_spec(primary@, backup@, raw@),
{
    let n = raw.len();
    let mut i: usize = 0;
    while i < n
        invariant
            primary.wf(),
            backup.wf(),
            n == raw@.len(),
            i <= n,
            forall|j: int|
                0 <= j < i ==> (primary@.dom().contains(seq![raw@[j]])
                    || !backup@.dom().contains(seq![raw@[j]])),
        decreases n - i,
    {
        let mut single: Vec<char> = Vec::new();
        single.push(raw[i]);
        proof {
            assert(single@ =~= seq![raw@[i as int]]);
        }
        if !primary.contains_key(single.as_slice()) && backup.contains_key(single.as_slice()) {
            return false;
        }
        i += 1;
    }
    true
}

} // verus!
