//! Lexicographic ordering of paths.
//!
//! Snapshots keep their records sorted by path so that iteration and
//! diffing are deterministic.  The order is lexicographic over the
//! Unicode scalar values of the characters, which coincides with the
//! byte order of the UTF-8 encodings that `str` comparison uses.

use vstd::prelude::*;

verus! {

/// Strict lexicographic order on character sequences, comparing
/// characters by their Unicode scalar value.
pub open spec fn lex_lt(a: Seq<char>, b: Seq<char>) -> bool
    decreases a.len(),
{
    if b.len() == 0 {
        false
    } else if a.len() == 0 {
        true
    } else if (a[0] as u32) < (b[0] as u32) {
        true
    } else if a[0] == b[0] {
        lex_lt(a.drop_first(), b.drop_first())
    } else {
        false
    }
}

/// Reflexive closure of `lex_lt`.
pub open spec fn lex_le(a: Seq<char>, b: Seq<char>) -> bool {
    lex_lt(a, b) || a == b
}

pub proof fn lemma_lex_lt_asym(a: Seq<char>, b: Seq<char>)
    requires
        lex_lt(a, b),
    ensures
        !lex_lt(b, a),
    decreases a.len(),
{
    if a.len() > 0 && b.len() > 0 && a[0] == b[0] {
        lemma_lex_lt_asym(a.drop_first(), b.drop_first());
    }
}

/// `lex_le` is antisymmetric, so a path has at most one position in a
/// sorted, duplicate-free snapshot.
pub proof fn lemma_lex_le_antisym(a: Seq<char>, b: Seq<char>)
    requires
        lex_le(a, b),
        lex_le(b, a),
    ensures
        a == b,
{
    if lex_lt(a, b) {
        lemma_lex_lt_asym(a, b);
    }
}

} // verus!
