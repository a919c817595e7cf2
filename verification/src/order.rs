//! The orders the library sorts by: strict lexicographic order on character
//! sequences, and the root priority order (descending length, ties broken
//! by ascending lexicographic order). The output rank order builds on these
//! in [`crate::report`].

use vstd::prelude::*;

verus! {

/// Strict lexicographic order on character sequences: `a` comes before `b`
/// when `a` is a proper prefix of `b`, or when `a` holds the smaller
/// character at the first position where the two differ.
pub open spec fn lex_lt(a: Seq<char>, b: Seq<char>) -> bool
    decreases a.len(),
{
    if b.len() == 0 {
        false
    } else if a.len() == 0 {
        true
    } else if a[0] != b[0] {
        (a[0] as u32) < (b[0] as u32)
    } else {
        lex_lt(a.drop_first(), b.drop_first())
    }
}

/// Root priority order: longer roots come first; equal-length roots are
/// ordered lexicographically, smallest first. A root set sorted by this
/// order makes "first prefix match" mean "longest match, ties broken
/// alphabetically".
pub open spec fn root_le(a: Seq<char>, b: Seq<char>) -> bool {
    a.len() > b.len() || (a.len() == b.len() && (a == b || lex_lt(a, b)))
}

/// The root priority order as a relation value, for `sorted_by`.
pub open spec fn root_order() -> spec_fn(Seq<char>, Seq<char>) -> bool {
    |a: Seq<char>, b: Seq<char>| root_le(a, b)
}

pub proof fn lemma_lex_lt_asymmetric(a: Seq<char>, b: Seq<char>)
    ensures
        !(lex_lt(a, b) && lex_lt(b, a)),
    decreases a.len(),
{
    if a.len() > 0 && b.len() > 0 && a[0] == b[0] {
        lemma_lex_lt_asymmetric(a.drop_first(), b.drop_first());
    }
}

pub proof fn lemma_lex_lt_connected(a: Seq<char>, b: Seq<char>)
    ensures
        a != b ==> lex_lt(a, b) || lex_lt(b, a),
    decreases a.len(),
{
    if a.len() == 0 && b.len() == 0 {
        assert(a =~= b);
    } else if a.len() > 0 && b.len() > 0 {
        if a[0] == b[0] {
            lemma_lex_lt_connected(a.drop_first(), b.drop_first());
            if a.drop_first() == b.drop_first() {
                assert(a =~= seq![a[0]] + a.drop_first());
                assert(b =~= seq![b[0]] + b.drop_first());
            }
        } else {
            vstd::utf8::char_u32_cast(a[0], a[0] as u32);
            vstd::utf8::char_u32_cast(b[0], b[0] as u32);
        }
    }
}

pub proof fn lemma_lex_lt_transitive(a: Seq<char>, b: Seq<char>, c: Seq<char>)
    ensures
        lex_lt(a, b) && lex_lt(b, c) ==> lex_lt(a, c),
    decreases a.len() + b.len() + c.len(),
{
    if lex_lt(a, b) && lex_lt(b, c) {
        if a.len() > 0 && b.len() > 0 && c.len() > 0 {
            if a[0] == b[0] && b[0] == c[0] {
                lemma_lex_lt_transitive(a.drop_first(), b.drop_first(), c.drop_first());
            }
        }
    }
}

/// The root priority order is a total order: `sorted_by` it pins a
/// permutation down to one sequence.
pub proof fn lemma_root_order_total(a: Seq<char>, b: Seq<char>, c: Seq<char>)
    ensures
        root_le(a, a),
        root_le(a, b) && root_le(b, a) ==> a == b,
        root_le(a, b) && root_le(b, c) ==> root_le(a, c),
        root_le(a, b) || root_le(b, a),
{
    lemma_lex_lt_asymmetric(a, b);
    lemma_lex_lt_connected(a, b);
    lemma_lex_lt_transitive(a, b, c);
}

/// Decides [`lex_lt`] on two strings by walking their characters in step.
pub fn lex_lt_exec(a: &str, b: &str) -> (r: bool)
    ensures
        r == lex_lt(a@, b@),
{
    let alen = a.unicode_len();
    let blen = b.unicode_len();
    let mut i: usize = 0;
    proof {
        assert(a@.skip(0) =~= a@);
        assert(b@.skip(0) =~= b@);
    }
    loop
        invariant
            i <= alen,
            i <= blen,
            alen == a@.len(),
            blen == b@.len(),
            lex_lt(a@, b@) == lex_lt(a@.skip(i as int), b@.skip(i as int)),
        decreases alen - i,
    {
        if i >= blen {
            return false;
        }
        if i >= alen {
            return true;
        }
        let ca = a.get_char(i);
        let cb = b.get_char(i);
        if ca != cb {
            return (ca as u32) < (cb as u32);
        }
        proof {
            assert(a@.skip(i as int).drop_first() =~= a@.skip(i as int + 1));
            assert(b@.skip(i as int).drop_first() =~= b@.skip(i as int + 1));
        }
        i = i + 1;
    }
}

/// Decides [`root_le`] on two strings: longer first, then lexicographic.
pub fn root_le_exec(a: &str, b: &str) -> (r: bool)
    ensures
        r == root_le(a@, b@),
{
    let alen = a.unicode_len();
    let blen = b.unicode_len();
    if alen > blen {
        true
    } else if alen < blen {
        false
    } else if lex_lt_exec(a, b) {
        true
    } else {
        let ba = lex_lt_exec(b, a);
        proof {
            lemma_lex_lt_connected(a@, b@);
            lemma_lex_lt_asymmetric(a@, b@);
        }
        !ba
    }
}

} // verus!
