//! Text utilities shared across the library: which characters identifiers
//! and stored text may hold, character-level string equality, and the
//! lexicographic order that keeps identifiers sorted.

use vstd::prelude::*;

verus! {

/// Lexicographic order on character sequences, by Unicode code point.
pub open spec fn lex_lt(a: Seq<char>, b: Seq<char>) -> bool
    decreases a.len(),
{
    if b.len() == 0 {
        false
    } else if a.len() == 0 {
        true
    } else if a[0] != b[0] {
        (a[0] as u32) < (b[0] as u32)
    } else {
        lex_lt(a.subrange(1, a.len() as int), b.subrange(1, b.len() as int))
    }
}

/// `lex_lt` is irreflexive.
pub proof fn lemma_lex_lt_irreflexive(a: Seq<char>)
    ensures
        !lex_lt(a, a),
    decreases a.len(),
{
    if a.len() > 0 && a[0] == a[0] {
        lemma_lex_lt_irreflexive(a.subrange(1, a.len() as int));
    }
}

/// `lex_lt` is total: two sequences that each fail to precede the other are equal.
pub proof fn lemma_lex_lt_total(a: Seq<char>, b: Seq<char>)
    ensures
        lex_lt(a, b) || lex_lt(b, a) || a == b,
    decreases a.len(),
{
    if a.len() == 0 && b.len() == 0 {
        assert(a =~= b);
    } else if a.len() > 0 && b.len() > 0 {
        if a[0] == b[0] {
            let a1 = a.subrange(1, a.len() as int);
            let b1 = b.subrange(1, b.len() as int);
            lemma_lex_lt_total(a1, b1);
            if a1 == b1 {
                assert(a =~= b) by {
                    assert(forall|i: int| 1 <= i < a.len() ==> a[i] == a1[i - 1]);
                    assert(forall|i: int| 1 <= i < b.len() ==> b[i] == b1[i - 1]);
                }
            }
        } else {
            vstd::utf8::char_u32_cast(a[0], a[0] as u32);
            vstd::utf8::char_u32_cast(b[0], b[0] as u32);
            assert((a[0] as u32) < (b[0] as u32) || (b[0] as u32) < (a[0] as u32));
        }
    }
}

/// `lex_lt` is transitive.
pub proof fn lemma_lex_lt_transitive(a: Seq<char>, b: Seq<char>, c: Seq<char>)
    requires
        lex_lt(a, b),
        lex_lt(b, c),
    ensures
        lex_lt(a, c),
    decreases a.len(),
{
    if a.len() > 0 && b.len() > 0 && c.len() > 0 {
        if a[0] == b[0] && b[0] == c[0] {
            lemma_lex_lt_transitive(
                a.subrange(1, a.len() as int),
                b.subrange(1, b.len() as int),
                c.subrange(1, c.len() as int),
            );
        }
    }
}

/// A character that may appear in identifiers and stored text: printable
/// ASCII except the double quote and the backslash, so that saved snapshots
/// never need escape sequences.
pub open spec fn char_ok(c: char) -> bool {
    0x20 <= (c as u32) < 0x7f && c != '"' && c != '\\'
}

/// Text made only of representable characters.
pub open spec fn text_ok(s: Seq<char>) -> bool {
    forall|i: int| 0 <= i < s.len() ==> char_ok(s[i])
}

/// A well-formed identifier: non-empty representable text.
pub open spec fn id_ok(s: Seq<char>) -> bool {
    s.len() > 0 && text_ok(s)
}

/// Decides `char_ok`.
pub fn char_ok_at(c: char) -> (r: bool)
    ensures
        r == char_ok(c),
{
    let u = c as u32;
    0x20 <= u && u < 0x7f && c != '"' && c != '\\'
}

/// Decides `text_ok(s@)`.
pub fn text_ok_str(s: &str) -> (r: bool)
    ensures
        r == text_ok(s@),
{
    let len = s.unicode_len();
    let mut i: usize = 0;
    while i < len
        invariant
            len == s@.len(),
            i <= len,
            forall|k: int| 0 <= k < i ==> char_ok(s@[k]),
        decreases len - i,
    {
        if !char_ok_at(s.get_char(i)) {
            return false;
        }
        i += 1;
    }
    true
}

/// Decides `id_ok(s@)`.
pub fn id_ok_str(s: &str) -> (r: bool)
    ensures
        r == id_ok(s@),
{
    s.unicode_len() > 0 && text_ok_str(s)
}

/// Character-level equality of two string slices.
pub fn str_eq(a: &str, b: &str) -> (r: bool)
    ensures
        r == (a@ == b@),
{
    let alen = a.unicode_len();
    let blen = b.unicode_len();
    if alen != blen {
        return false;
    }
    let mut i: usize = 0;
    while i < alen
        invariant
            alen == a@.len(),
            blen == b@.len(),
            alen == blen,
            i <= alen,
            forall|k: int| 0 <= k < i ==> a@[k] == b@[k],
        decreases alen - i,
    {
        if a.get_char(i) != b.get_char(i) {
            return false;
        }
        i += 1;
    }
    proof {
        assert(a@ =~= b@);
    }
    true
}

/// Decides `lex_lt(a@, b@)` on string slices.
pub fn str_lt(a: &str, b: &str) -> (r: bool)
    ensures
        r == lex_lt(a@, b@),
{
    let alen = a.unicode_len();
    let blen = b.unicode_len();
    proof {
        assert(a@.subrange(0, alen as int) =~= a@);
        assert(b@.subrange(0, blen as int) =~= b@);
    }
    let mut i: usize = 0;
    loop
        invariant
            alen == a@.len(),
            blen == b@.len(),
            i <= alen,
            i <= blen,
            forall|k: int| 0 <= k < i ==> a@[k] == b@[k],
            lex_lt(a@, b@) == lex_lt(
                a@.subrange(i as int, alen as int),
                b@.subrange(i as int, blen as int),
            ),
        decreases alen - i,
    {
        proof {
            lemma_lex_lt_step(a@, b@, i as int);
        }
        if i >= alen {
            return i < blen;
        }
        if i >= blen {
            return false;
        }
        let ca = a.get_char(i);
        let cb = b.get_char(i);
        if ca != cb {
            return (ca as u32) < (cb as u32);
        }
        i += 1;
    }
}

/// Unfolds `lex_lt` on the suffixes starting at `i` and `i + 1`, for use in
/// the `str_lt` loop invariant.
proof fn lemma_lex_lt_step(a: Seq<char>, b: Seq<char>, i: int)
    requires
        0 <= i <= a.len(),
        0 <= i <= b.len(),
    ensures
        i < a.len() && i < b.len() && a[i] == b[i] ==> lex_lt(
            a.subrange(i, a.len() as int),
            b.subrange(i, b.len() as int),
        ) == lex_lt(a.subrange(i + 1, a.len() as int), b.subrange(i + 1, b.len() as int)),
        i == a.len() ==> lex_lt(
            a.subrange(i, a.len() as int),
            b.subrange(i, b.len() as int),
        ) == (i < b.len()),
        i == b.len() && i < a.len() ==> !lex_lt(
            a.subrange(i, a.len() as int),
            b.subrange(i, b.len() as int),
        ),
        i < a.len() && i < b.len() && a[i] != b[i] ==> lex_lt(
            a.subrange(i, a.len() as int),
            b.subrange(i, b.len() as int),
        ) == ((a[i] as u32) < (b[i] as u32)),
{
    let sa = a.subrange(i, a.len() as int);
    let sb = b.subrange(i, b.len() as int);
    if i < a.len() && i < b.len() && a[i] == b[i] {
        assert(sa.subrange(1, sa.len() as int) =~= a.subrange(i + 1, a.len() as int));
        assert(sb.subrange(1, sb.len() as int) =~= b.subrange(i + 1, b.len() as int));
    }
}

} // verus!
