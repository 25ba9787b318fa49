//! Character-level helpers shared by the codec, the tokenizer and the
//! ranking logic: conversions between `String` and `Vec<char>`, and the
//! lexical order on character sequences used for deterministic ranking.

use vstd::prelude::*;

verus! {

/// Relies on `String::push`: appends the given character to the end of the
/// string.
#[verifier::external_body]
pub fn push_char(s: &mut String, c: char)
    ensures
        final(s)@ == old(s)@.push(c),
{
    s.push(c);
}

/// Collects the characters of a string slice into a vector.
pub fn str_to_chars(s: &str) -> (r: Vec<char>)
    ensures
        r@ == s@,
{
    let n = s.unicode_len();
    let mut r: Vec<char> = Vec::new();
    let mut i: usize = 0;
    while i < n
        invariant
            n == s@.len(),
            i <= n,
            r@ == s@.subrange(0, i as int),
        decreases n - i,
    {
        r.push(s.get_char(i));
        i = i + 1;
        proof {
            assert(r@ =~= s@.subrange(0, i as int));
        }
    }
    proof {
        assert(r@ =~= s@);
    }
    r
}

/// Builds a string from a vector of characters.
pub fn chars_to_string(v: &Vec<char>) -> (r: String)
    ensures
        r@ == v@,
{
    let mut r = String::new();
    let mut i: usize = 0;
    while i < v.len()
        invariant
            i <= v@.len(),
            r@ == v@.subrange(0, i as int),
        decreases v@.len() - i,
    {
        push_char(&mut r, v[i]);
        i = i + 1;
        proof {
            assert(r@ =~= v@.subrange(0, i as int));
        }
    }
    proof {
        assert(r@ =~= v@);
    }
    r
}

/// Appends every character of `s` to `out`.
pub fn append_str(out: &mut Vec<char>, s: &str)
    ensures
        final(out)@ == old(out)@ + s@,
{
    let n = s.unicode_len();
    let mut i: usize = 0;
    proof {
        assert(out@ =~= old(out)@ + s@.take(0));
    }
    while i < n
        invariant
            n == s@.len(),
            i <= n,
            out@ == old(out)@ + s@.take(i as int),
        decreases n - i,
    {
        out.push(s.get_char(i));
        proof {
            assert(old(out)@ + s@.take(i as int).push(s@[i as int]) =~= old(out)@ + s@.take(i + 1));
        }
        i = i + 1;
    }
    proof {
        assert(s@.take(n as int) =~= s@);
    }
}

/// Strict lexical order on character sequences, by Unicode scalar value.
pub open spec fn lex_lt(a: Seq<char>, b: Seq<char>) -> bool
    decreases a.len(),
{
    if b.len() == 0 {
        false
    } else if a.len() == 0 {
        true
    } else if (a[0] as u32) < (b[0] as u32) {
        true
    } else if a[0] == b[0] {
        lex_lt(a.skip(1), b.skip(1))
    } else {
        false
    }
}

/// Two characters with the same scalar value are the same character.
pub proof fn lemma_char_code_eq(a: char, b: char)
    requires
        a as u32 == b as u32,
    ensures
        a == b,
{
    vstd::utf8::char_u32_cast(a, a as u32);
    vstd::utf8::char_u32_cast(b, b as u32);
}

/// The lexical order is total: two distinct sequences compare one way or the
/// other.
pub proof fn lemma_lex_total(a: Seq<char>, b: Seq<char>)
    ensures
        lex_lt(a, b) || lex_lt(b, a) || a == b,
    decreases a.len(),
{
    if b.len() == 0 || a.len() == 0 {
        if a.len() == 0 && b.len() == 0 {
            assert(a =~= b);
        }
    } else if a[0] == b[0] {
        lemma_lex_total(a.skip(1), b.skip(1));
        if a.skip(1) == b.skip(1) {
            assert(seq![a[0]] + a.skip(1) =~= a);
            assert(seq![b[0]] + b.skip(1) =~= b);
            assert(a == b);
        }
    } else {
        if !((a[0] as u32) < (b[0] as u32)) && !((b[0] as u32) < (a[0] as u32)) {
            lemma_char_code_eq(a[0], b[0]);
        }
    }
}

/// The lexical order is irreflexive and asymmetric.
pub proof fn lemma_lex_asymmetric(a: Seq<char>, b: Seq<char>)
    ensures
        !(lex_lt(a, b) && lex_lt(b, a)),
        !lex_lt(a, a),
    decreases a.len(),
{
    if a.len() > 0 && b.len() > 0 && a[0] == b[0] {
        lemma_lex_asymmetric(a.skip(1), b.skip(1));
    }
    if a.len() > 0 {
        lemma_lex_asymmetric(a.skip(1), a.skip(1));
    }
}

/// The lexical order is transitive.
pub proof fn lemma_lex_transitive(a: Seq<char>, b: Seq<char>, c: Seq<char>)
    requires
        lex_lt(a, b),
        lex_lt(b, c),
    ensures
        lex_lt(a, c),
    decreases a.len(),
{
    if b.len() == 0 {
        // lex_lt(a, b) is false; vacuous
    } else if a.len() == 0 {
        // c must be non-empty since lex_lt(b, c) and b non-empty
    } else if c.len() == 0 {
        // lex_lt(b, c) is false; vacuous
    } else {
        if (a[0] as u32) < (b[0] as u32) {
            if (b[0] as u32) < (c[0] as u32) {
            } else if b[0] == c[0] {
            }
        } else if a[0] == b[0] {
            if (b[0] as u32) < (c[0] as u32) {
            } else if b[0] == c[0] {
                lemma_lex_transitive(a.skip(1), b.skip(1), c.skip(1));
            }
        }
    }
}

/// Compares two strings in the lexical order.
pub fn str_lex_lt(a: &str, b: &str) -> (r: bool)
    ensures
        r == lex_lt(a@, b@),
{
    let an = a.unicode_len();
    let bn = b.unicode_len();
    let mut i: usize = 0;
    proof {
        assert(a@.skip(0) =~= a@);
        assert(b@.skip(0) =~= b@);
    }
    loop
        invariant
            an == a@.len(),
            bn == b@.len(),
            i <= an,
            i <= bn,
            lex_lt(a@, b@) == lex_lt(a@.skip(i as int), b@.skip(i as int)),
            forall|k: int| 0 <= k < i ==> a@[k] == b@[k],
        decreases an - i,
    {
        if i >= bn {
            return false;
        }
        if i >= an {
            return true;
        }
        let ac = a.get_char(i);
        let bc = b.get_char(i);
        if (ac as u32) < (bc as u32) {
            return true;
        }
        if ac != bc {
            return false;
        }
        i = i + 1;
        proof {
            assert(a@.skip(i - 1).skip(1) =~= a@.skip(i as int));
            assert(b@.skip(i - 1).skip(1) =~= b@.skip(i as int));
        }
    }
}

} // verus!
