//! The text normalizer: splits on whitespace runs, lowercases each word,
//! strips a fixed set of punctuation characters from it, and drops tokens
//! on an ignore list. A token that becomes empty after stripping is kept
//! and counted.

use vstd::prelude::*;

verus! {

/// What `char::is_whitespace` returns: a property of the character alone.
pub uninterp spec fn is_ws(c: char) -> bool;

/// What `str::to_lowercase` returns: a function of the characters alone.
pub uninterp spec fn lower_of(s: Seq<char>) -> Seq<char>;

/// Relies on `char::is_whitespace`: whether the character has the Unicode
/// `White_Space` property; among ASCII characters exactly space, tab, line
/// feed, vertical tab, form feed and carriage return have it.
#[verifier::external_body]
pub fn is_whitespace_char(c: char) -> (r: bool)
    ensures
        r == is_ws(c),
        (c as u32) < 128 ==> (r <==> (c == ' ' || c == '\t' || c == '\n' || c == '\u{0b}' || c
            == '\u{0c}' || c == '\r')),
{
    c.is_whitespace()
}

/// The lowercase counterpart of an ASCII character.
pub open spec fn ascii_lower(c: char) -> char {
    if 65 <= (c as u32) <= 90 {
        seq![
            'a', 'b', 'c', 'd', 'e', 'f', 'g', 'h', 'i', 'j', 'k', 'l', 'm', 'n', 'o', 'p', 'q',
            'r', 's', 't', 'u', 'v', 'w', 'x', 'y', 'z',
        ][(c as u32) - 65]
    } else {
        c
    }
}

pub open spec fn is_ascii_seq(s: Seq<char>) -> bool {
    forall|k: int| 0 <= k < s.len() ==> ((#[trigger] s[k]) as u32) < 128
}

/// Relies on `str::to_lowercase`: the result depends on the characters
/// alone; an ASCII string is mapped character for character, uppercase
/// letters to their lowercase counterparts and everything else unchanged.
#[verifier::external_body]
pub fn lowercase(s: &str) -> (r: String)
    ensures
        r@ == lower_of(s@),
        is_ascii_seq(s@) ==> r@ == s@.map_values(|c: char| ascii_lower(c)),
{
    s.to_lowercase()
}

/// The punctuation characters stripped from every token.
pub open spec fn is_punct(c: char) -> bool {
    c == '(' || c == ')' || c == ',' || c == '"' || c == '.' || c == ';' || c == ':' || c == '\''
        || c == '!'
}

/// Checks `is_punct` in executable code.
fn is_punct_char(c: char) -> (b: bool)
    ensures
        b == is_punct(c),
{
    c == '(' || c == ')' || c == ',' || c == '"' || c == '.' || c == ';' || c == ':' || c == '\''
        || c == '!'
}

/// A word after normalization: lowercased, punctuation stripped.
pub open spec fn normalize_token(w: Seq<char>) -> Seq<char> {
    lower_of(w).filter(|c: char| !is_punct(c))
}

/// The first position at or after `i` whose character is whitespace.
pub open spec fn non_ws_end(s: Seq<char>, i: int) -> int
    decreases s.len() - i when i <= s.len()
{
    if i < 0 {
        i
    } else if i < s.len() && !is_ws(s[i]) {
        non_ws_end(s, i + 1)
    } else {
        i
    }
}

pub proof fn lemma_non_ws_end(s: Seq<char>, i: int)
    requires
        0 <= i <= s.len(),
    ensures
        i <= non_ws_end(s, i) <= s.len(),
        forall|k: int| i <= k < non_ws_end(s, i) ==> !is_ws(#[trigger] s[k]),
        non_ws_end(s, i) < s.len() ==> is_ws(s[non_ws_end(s, i)]),
    decreases s.len() - i,
{
    if i < s.len() && !is_ws(s[i]) {
        lemma_non_ws_end(s, i + 1);
    }
}

/// The normalized tokens of `s` from position `i` on, with tokens on the
/// ignore list left out: whitespace runs separate words, each word is
/// normalized, and an empty result of stripping is kept as a token.
pub open spec fn kept_tokens_from(s: Seq<char>, i: int, ig: Seq<Seq<char>>) -> Seq<Seq<char>>
    decreases s.len() - i,
    when 0 <= i <= s.len()
    via kept_tokens_from_dec
{
    if i >= s.len() {
        Seq::empty()
    } else if is_ws(s[i]) {
        kept_tokens_from(s, i + 1, ig)
    } else {
        let j = non_ws_end(s, i);
        let tok = normalize_token(s.subrange(i, j));
        if ig.contains(tok) {
            kept_tokens_from(s, j, ig)
        } else {
            seq![tok] + kept_tokens_from(s, j, ig)
        }
    }
}

#[via_fn]
proof fn kept_tokens_from_dec(s: Seq<char>, i: int, ig: Seq<Seq<char>>) {
    if 0 <= i < s.len() && !is_ws(s[i]) {
        lemma_non_ws_end(s, i);
        assert(non_ws_end(s, i) == non_ws_end(s, i + 1));
    }
}

/// The normalized, kept tokens of a whole text.
pub open spec fn kept_tokens(s: Seq<char>, ig: Seq<Seq<char>>) -> Seq<Seq<char>> {
    kept_tokens_from(s, 0, ig)
}

/// A text yields at most one token per character.
pub proof fn lemma_kept_tokens_len(s: Seq<char>, i: int, ig: Seq<Seq<char>>)
    requires
        0 <= i <= s.len(),
    ensures
        kept_tokens_from(s, i, ig).len() <= s.len() - i,
    decreases s.len() - i,
{
    if i >= s.len() {
    } else if is_ws(s[i]) {
        lemma_kept_tokens_len(s, i + 1, ig);
    } else {
        lemma_non_ws_end(s, i);
        let j = non_ws_end(s, i);
        assert(j == non_ws_end(s, i + 1));
        lemma_kept_tokens_len(s, j, ig);
    }
}

/// Whether a token stands in the ignore list.
fn contains_token(ig: &Vec<String>, tok: &String) -> (b: bool)
    ensures
        b == ig@.map_values(|s: String| s@).contains(tok@),
{
    let igv = Ghost(ig@.map_values(|s: String| s@));
    let mut m: usize = 0;
    while m < ig.len()
        invariant
            m <= ig@.len(),
            igv@ == ig@.map_values(|s: String| s@),
            forall|k: int| 0 <= k < m ==> igv@[k] != tok@,
        decreases ig@.len() - m,
    {
        let hit = ig[m].eq(tok);
        if hit {
            proof {
                assert(igv@[m as int] == tok@);
            }
            return true;
        }
        m = m + 1;
    }
    false
}

/// Splits, lowercases, strips and filters: the kept, normalized tokens of
/// `text`, in order of appearance.
pub fn tokenize(text: &str, ignored: &Vec<String>) -> (r: Vec<String>)
    ensures
        r@.map_values(|s: String| s@) == kept_tokens(
            text@,
            ignored@.map_values(|s: String| s@),
        ),
{
    let ghost ig = ignored@.map_values(|s: String| s@);
    let v = crate::text::str_to_chars(text);
    let n = v.len();
    let mut out: Vec<String> = Vec::new();
    let mut i: usize = 0;
    proof {
        assert(out@.map_values(|s: String| s@) + kept_tokens_from(v@, 0, ig) =~= kept_tokens_from(
            v@,
            0,
            ig,
        ));
    }
    while i < n
        invariant
            n == v@.len(),
            v@ == text@,
            ig == ignored@.map_values(|s: String| s@),
            i <= n,
            out@.map_values(|s: String| s@) + kept_tokens_from(v@, i as int, ig)
                == kept_tokens_from(v@, 0, ig),
        decreases n - i,
    {
        if is_whitespace_char(v[i]) {
            i = i + 1;
            continue;
        }
        // The word runs to the next whitespace character.
        let ghost jg = non_ws_end(v@, i as int);
        proof {
            lemma_non_ws_end(v@, i as int);
        }
        let mut j = i;
        let mut word: Vec<char> = Vec::new();
        loop
            invariant
                n == v@.len(),
                i <= j <= n,
                jg == non_ws_end(v@, i as int),
                i <= jg <= n,
                j <= jg,
                forall|k: int| i <= k < jg ==> !is_ws(#[trigger] v@[k]),
                jg < n ==> is_ws(v@[jg as int]),
                word@ == v@.subrange(i as int, j as int),
            ensures
                j == jg,
                word@ == v@.subrange(i as int, jg),
            decreases n - j,
        {
            if j >= n {
                break;
            }
            if is_whitespace_char(v[j]) {
                proof {
                    assert(j == jg);
                }
                break;
            }
            proof {
                if j == jg {
                    assert(is_ws(v@[jg as int]));
                }
            }
            word.push(v[j]);
            proof {
                assert(word@ =~= v@.subrange(i as int, j + 1));
            }
            j = j + 1;
        }
        // Normalize the word.
        let word_str = crate::text::chars_to_string(&word);
        let low = lowercase(word_str.as_str());
        let lv = crate::text::str_to_chars(low.as_str());
        let mut norm: Vec<char> = Vec::new();
        let mut m: usize = 0;
        proof {
            reveal(Seq::filter);
            assert(lv@.take(0).filter(|c: char| !is_punct(c)) =~= Seq::<char>::empty());
        }
        while m < lv.len()
            invariant
                m <= lv@.len(),
                norm@ == lv@.take(m as int).filter(|c: char| !is_punct(c)),
            decreases lv@.len() - m,
        {
            let ghost prev = norm@;
            let c = lv[m];
            if !is_punct_char(c) {
                norm.push(c);
            }
            proof {
                reveal(Seq::filter);
                let s1 = lv@.take(m + 1);
                assert(s1.drop_last() =~= lv@.take(m as int));
                assert(s1.last() == lv@[m as int]);
                if !is_punct(lv@[m as int]) {
                    assert(s1.filter(|c: char| !is_punct(c)) == s1.drop_last().filter(
                        |c: char| !is_punct(c),
                    ).push(s1.last()));
                } else {
                    assert(s1.filter(|c: char| !is_punct(c)) == s1.drop_last().filter(
                        |c: char| !is_punct(c),
                    ));
                }
                assert(norm@ == lv@.take(m + 1).filter(|c: char| !is_punct(c)));
            }
            m = m + 1;
        }
        proof {
            assert(lv@.take(lv@.len() as int) =~= lv@);
            assert(norm@ == normalize_token(v@.subrange(i as int, jg)));
        }
        let tok = crate::text::chars_to_string(&norm);
        let ghost before = out@;
        if !contains_token(ignored, &tok) {
            out.push(tok);
        }
        proof {
            let tokv = normalize_token(v@.subrange(i as int, jg));
            if ig.contains(tokv) {
                assert(out@ == before);
            } else {
                assert(out@.map_values(|s: String| s@) =~= before.map_values(|s: String| s@).push(
                    tokv,
                ));
                assert(before.map_values(|s: String| s@) + (seq![tokv] + kept_tokens_from(
                    v@,
                    jg,
                    ig,
                )) =~= out@.map_values(|s: String| s@) + kept_tokens_from(v@, jg, ig));
            }
        }
        i = j;
    }
    proof {
        assert(kept_tokens_from(v@, n as int, ig) =~= Seq::<Seq<char>>::empty());
        assert(out@.map_values(|s: String| s@) =~= out@.map_values(|s: String| s@)
            + kept_tokens_from(v@, n as int, ig));
    }
    out
}

} // verus!
