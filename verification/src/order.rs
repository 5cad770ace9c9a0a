//! Lexicographic order on strings, compared character by character. On the
//! ISO-8601 timestamp forms the example consumers use, this coincides with
//! chronological order.

use vstd::prelude::*;

verus! {

/// Lexicographic order on character sequences: `a` at or before `b`.
pub open spec fn lex_le(a: Seq<char>, b: Seq<char>) -> bool
    decreases a.len(),
{
    if a.len() == 0 {
        true
    } else if b.len() == 0 {
        false
    } else if a.first() != b.first() {
        (a.first() as u32) < (b.first() as u32)
    } else {
        lex_le(a.drop_first(), b.drop_first())
    }
}

/// When two sequences agree on a prefix, the order is decided at the first
/// difference, or by length when one runs out.
proof fn lemma_lex_le_prefix(a: Seq<char>, b: Seq<char>, i: int)
    requires
        0 <= i <= a.len(),
        i <= b.len(),
        forall|j: int| 0 <= j < i ==> a[j] == b[j],
    ensures
        (i < a.len() && i < b.len() && a[i] != b[i]) ==> (lex_le(a, b) == ((a[i] as u32) < (
        b[i] as u32))),
        (i == a.len() || i == b.len()) ==> (lex_le(a, b) == (a.len() <= b.len())),
    decreases i,
{
    if i > 0 {
        assert(a.first() == b.first());
        assert(lex_le(a, b) == lex_le(a.drop_first(), b.drop_first()));
        lemma_lex_le_prefix(a.drop_first(), b.drop_first(), i - 1);
    }
}

/// Whether `a` comes at or before `b` in lexicographic character order.
pub fn str_lex_le(a: &str, b: &str) -> (r: bool)
    ensures
        r == lex_le(a@, b@),
{
    let alen = a.unicode_len();
    let blen = b.unicode_len();
    let mut i: usize = 0;
    while i < alen && i < blen
        invariant
            0 <= i <= alen,
            i <= blen,
            alen == a@.len(),
            blen == b@.len(),
            forall|j: int| 0 <= j < i ==> a@[j] == b@[j],
        decreases alen - i,
    {
        let ca = a.get_char(i);
        let cb = b.get_char(i);
        if ca != cb {
            proof {
                lemma_lex_le_prefix(a@, b@, i as int);
            }
            return (ca as u32) < (cb as u32);
        }
        i += 1;
    }
    proof {
        lemma_lex_le_prefix(a@, b@, i as int);
    }
    alen <= blen
}

} // verus!
