//! Lexicographic order on strings, by Unicode scalar value. The
//! last-writer-wins register breaks ties between equal logical clocks by
//! comparing the writers' node identifiers in this order.

use vstd::prelude::*;
use vstd::string::StrSliceExecFns;

verus! {

/// Strict lexicographic order on character sequences: the shorter sequence
/// wins when one is a prefix of the other.
pub open spec fn lex_lt(a: Seq<char>, b: Seq<char>) -> bool
    decreases a.len(),
{
    if b.len() == 0 {
        false
    } else if a.len() == 0 {
        true
    } else if (a[0] as u32) < (b[0] as u32) {
        true
    } else if (b[0] as u32) < (a[0] as u32) {
        false
    } else {
        lex_lt(a.skip(1), b.skip(1))
    }
}

/// Exactly one of `lex_lt(a, b)`, `lex_lt(b, a)` and `a == b` holds.
pub proof fn lemma_lex_lt_total(a: Seq<char>, b: Seq<char>)
    ensures
        lex_lt(a, b) || lex_lt(b, a) || a == b,
        lex_lt(a, b) ==> !lex_lt(b, a),
        lex_lt(a, b) ==> a != b,
    decreases a.len(),
{
    if b.len() == 0 || a.len() == 0 {
        if a.len() == 0 && b.len() == 0 {
            assert(a =~= b);
        }
    } else if (a[0] as u32) < (b[0] as u32) || (b[0] as u32) < (a[0] as u32) {
        // first characters already decide both directions
    } else {
        vstd::utf8::char_u32_cast(a[0], a[0] as u32);
        vstd::utf8::char_u32_cast(b[0], b[0] as u32);
        assert(a[0] == b[0]);
        lemma_lex_lt_total(a.skip(1), b.skip(1));
        if a.skip(1) == b.skip(1) {
            assert(a =~= b) by {
                assert(forall|i: int| 1 <= i < a.len() ==> a[i] == a.skip(1)[i - 1]);
                assert(forall|i: int| 1 <= i < b.len() ==> b[i] == b.skip(1)[i - 1]);
            }
        }
        if a == b {
            assert(a.skip(1) == b.skip(1));
        }
    }
}

pub proof fn lemma_lex_lt_trans(a: Seq<char>, b: Seq<char>, c: Seq<char>)
    requires
        lex_lt(a, b),
        lex_lt(b, c),
    ensures
        lex_lt(a, c),
    decreases a.len(),
{
    if c.len() == 0 || b.len() == 0 || a.len() == 0 {
        // either a premise is false or the conclusion is immediate
    } else {
        vstd::utf8::char_u32_cast(a[0], a[0] as u32);
        vstd::utf8::char_u32_cast(b[0], b[0] as u32);
        vstd::utf8::char_u32_cast(c[0], c[0] as u32);
        if (a[0] as u32) == (b[0] as u32) && (b[0] as u32) == (c[0] as u32) {
            lemma_lex_lt_trans(a.skip(1), b.skip(1), c.skip(1));
        }
    }
}

pub proof fn lemma_lex_lt_irrefl(a: Seq<char>)
    ensures
        !lex_lt(a, a),
{
    lemma_lex_lt_total(a, a);
}

/// Whether `a` comes strictly before `b` in lexicographic order.
pub fn str_lt(a: &str, b: &str) -> (r: bool)
    ensures
        r == lex_lt(a@, b@),
{
    let a_len = a.unicode_len();
    let b_len = b.unicode_len();
    let mut i: usize = 0;
    proof {
        assert(a@.skip(0) =~= a@);
        assert(b@.skip(0) =~= b@);
    }
    while i < a_len && i < b_len
        invariant
            i <= a_len,
            i <= b_len,
            a_len == a@.len(),
            b_len == b@.len(),
            lex_lt(a@, b@) == lex_lt(a@.skip(i as int), b@.skip(i as int)),
        decreases a_len - i,
    {
        let ca = a.get_char(i);
        let cb = b.get_char(i);
        proof {
            assert(a@.skip(i as int)[0] == a@[i as int]);
            assert(b@.skip(i as int)[0] == b@[i as int]);
            assert(a@.skip(i as int).skip(1) =~= a@.skip(i + 1));
            assert(b@.skip(i as int).skip(1) =~= b@.skip(i + 1));
        }
        if (ca as u32) < (cb as u32) {
            return true;
        }
        if (cb as u32) < (ca as u32) {
            return false;
        }
        i += 1;
    }
    proof {
        assert(a@.skip(i as int).len() == a@.len() - i);
        assert(b@.skip(i as int).len() == b@.len() - i);
    }
    a_len < b_len
}

/// Relies on String::from_utf8: it succeeds exactly on valid UTF-8 input
/// and yields the decoded characters.
#[verifier::external_body]
pub fn utf8_to_string(bytes: Vec<u8>) -> (r: Option<String>)
    ensures
        match r {
            Some(s) => vstd::utf8::valid_utf8(bytes@) && s@ == vstd::utf8::decode_utf8(bytes@),
            None => !vstd::utf8::valid_utf8(bytes@),
        },
{
    String::from_utf8(bytes).ok()
}

/// Whether some string in the list reads as `e`.
pub open spec fn names_contain(s: Seq<String>, e: Seq<char>) -> bool {
    exists|k: int| 0 <= k < s.len() && (#[trigger] s[k])@ == e
}

/// Whether two strings hold the same characters.
pub fn str_eq(a: &str, b: &str) -> (r: bool)
    ensures
        r == (a@ == b@),
{
    proof {
        lemma_lex_lt_total(a@, b@);
    }
    if str_lt(a, b) {
        return false;
    }
    if str_lt(b, a) {
        return false;
    }
    true
}

} // verus!
