//! The character-level encoding primitives of the store's file format:
//! decimal numbers and escaped string literals, each with a serializer,
//! an exact spec-level parser, and an executable parser proved equal to it.

use vstd::prelude::*;

verus! {

// ---------------------------------------------------------------------------
// Decimal digits
// ---------------------------------------------------------------------------

pub open spec fn is_dec_digit(c: char) -> bool {
    48 <= (c as u32) <= 57
}

pub open spec fn digit_val(c: char) -> nat {
    ((c as u32) - 48) as nat
}

pub open spec fn dec_digits() -> Seq<char> {
    seq!['0', '1', '2', '3', '4', '5', '6', '7', '8', '9']
}

pub open spec fn digit_char(d: nat) -> char {
    dec_digits()[d as int]
}

pub proof fn lemma_digit_char_val(d: nat)
    requires
        d < 10,
    ensures
        is_dec_digit(digit_char(d)),
        digit_val(digit_char(d)) == d,
{
    assert((digit_char(d) as u32) == 48 + d) by {
        if d == 0 {
        } else if d == 1 {
        } else if d == 2 {
        } else if d == 3 {
        } else if d == 4 {
        } else if d == 5 {
        } else if d == 6 {
        } else if d == 7 {
        } else if d == 8 {
        } else {
            assert(d == 9);
        }
    }
}

/// Maps a digit value to its character, as `digit_char` does.
pub fn digit_to_char(d: u32) -> (c: char)
    requires
        d < 10,
    ensures
        c == digit_char(d as nat),
{
    proof {
        lemma_digit_char_val(d as nat);
    }
    if d == 0 {
        '0'
    } else if d == 1 {
        '1'
    } else if d == 2 {
        '2'
    } else if d == 3 {
        '3'
    } else if d == 4 {
        '4'
    } else if d == 5 {
        '5'
    } else if d == 6 {
        '6'
    } else if d == 7 {
        '7'
    } else if d == 8 {
        '8'
    } else {
        '9'
    }
}

/// Reads a digit character back to its value.
pub fn char_to_digit(c: char) -> (r: Option<u32>)
    ensures
        r matches Some(d) ==> is_dec_digit(c) && d == digit_val(c) && d < 10,
        r is None ==> !is_dec_digit(c),
{
    let u = c as u32;
    if 48 <= u && u <= 57 {
        Some(u - 48)
    } else {
        None
    }
}

// ---------------------------------------------------------------------------
// Unbounded decimal serialization (used for every integer the format holds)
// ---------------------------------------------------------------------------

/// The decimal digit string of `n`, most significant digit first, without
/// leading zeros (a single `'0'` for zero).
pub open spec fn ser_nat(n: nat) -> Seq<char>
    decreases n,
{
    if n < 10 {
        seq![digit_char(n)]
    } else {
        ser_nat(n / 10) + seq![digit_char(n % 10)]
    }
}

/// The value of a digit string, most significant digit first.
pub open spec fn digits_val(s: Seq<char>) -> nat
    decreases s.len(),
{
    if s.len() == 0 {
        0
    } else {
        digits_val(s.drop_last()) * 10 + digit_val(s.last())
    }
}

pub open spec fn all_dec_digits(s: Seq<char>) -> bool {
    forall|k: int| 0 <= k < s.len() ==> is_dec_digit(#[trigger] s[k])
}

pub proof fn lemma_ser_nat_shape(n: nat)
    ensures
        ser_nat(n).len() >= 1,
        all_dec_digits(ser_nat(n)),
        digits_val(ser_nat(n)) == n,
    decreases n,
{
    if n < 10 {
        lemma_digit_char_val(n);
        let s = ser_nat(n);
        assert(s =~= seq![digit_char(n)]);
        assert(s.drop_last() =~= Seq::<char>::empty());
        assert(digits_val(s.drop_last()) == 0);
        assert(digits_val(s) == 0 * 10 + digit_val(s.last()));
        assert(digit_val(s.last()) == n);
    } else {
        lemma_ser_nat_shape(n / 10);
        lemma_digit_char_val(n % 10);
        let s = ser_nat(n);
        assert(s =~= ser_nat(n / 10) + seq![digit_char(n % 10)]);
        assert(s.drop_last() =~= ser_nat(n / 10));
        assert(s.last() == digit_char(n % 10));
        assert(digits_val(s) == (n / 10) * 10 + (n % 10));
        assert((n / 10) * 10 + (n % 10) == n) by (nonlinear_arith);
        assert forall|k: int| 0 <= k < s.len() implies is_dec_digit(#[trigger] s[k]) by {
            if k < s.len() - 1 {
                assert(s[k] == ser_nat(n / 10)[k]);
            }
        }
    }
}

/// A digit string prefix never exceeds the value of the whole string.
pub proof fn lemma_digits_val_prefix(s: Seq<char>, i: int)
    requires
        0 <= i <= s.len(),
    ensures
        digits_val(s.subrange(0, i)) <= digits_val(s),
    decreases s.len() - i,
{
    if i < s.len() {
        lemma_digits_val_prefix(s, i + 1);
        let a = s.subrange(0, i);
        let b = s.subrange(0, i + 1);
        assert(b.drop_last() =~= a);
        assert(digits_val(b) == digits_val(a) * 10 + digit_val(b.last()));
    } else {
        assert(s.subrange(0, i) =~= s);
    }
}

/// Appends the decimal digits of `n` to `out`.
pub fn write_nat_u64(out: &mut Vec<char>, n: u64)
    ensures
        final(out)@ == old(out)@ + ser_nat(n as nat),
    decreases n,
{
    if n < 10 {
        out.push(digit_to_char(n as u32));
        proof {
            assert(final(out)@ =~= old(out)@ + ser_nat(n as nat));
        }
    } else {
        write_nat_u64(out, n / 10);
        out.push(digit_to_char((n % 10) as u32));
        proof {
            assert(final(out)@ =~= old(out)@ + ser_nat(n as nat));
        }
    }
}

// ---------------------------------------------------------------------------
// Decimal parsing
// ---------------------------------------------------------------------------

/// The first position at or after `i` that does not hold a decimal digit.
pub open spec fn digit_run_end(s: Seq<char>, i: int) -> int
    decreases s.len() - i when i <= s.len()
{
    if i < 0 {
        i
    } else if i < s.len() && is_dec_digit(s[i]) {
        digit_run_end(s, i + 1)
    } else {
        i
    }
}

pub proof fn lemma_digit_run_end(s: Seq<char>, i: int)
    requires
        0 <= i <= s.len(),
    ensures
        i <= digit_run_end(s, i) <= s.len(),
        forall|k: int| i <= k < digit_run_end(s, i) ==> is_dec_digit(#[trigger] s[k]),
        digit_run_end(s, i) < s.len() ==> !is_dec_digit(s[digit_run_end(s, i)]),
    decreases s.len() - i,
{
    if i < s.len() && is_dec_digit(s[i]) {
        lemma_digit_run_end(s, i + 1);
    }
}

/// What `parse_u32` returns: the maximal digit run starting at `i`, read as
/// a number, if there is one and it fits.
pub open spec fn spec_parse_u32(s: Seq<char>, i: int) -> Option<(u32, int)> {
    let j = digit_run_end(s, i);
    if 0 <= i && i < s.len() && is_dec_digit(s[i]) && digits_val(s.subrange(i, j)) <= u32::MAX {
        Some((digits_val(s.subrange(i, j)) as u32, j))
    } else {
        None
    }
}

/// Reads the maximal run of decimal digits starting at `i` as a `u32`.
pub fn parse_u32(s: &Vec<char>, i: usize) -> (r: Option<(u32, usize)>)
    requires
        i <= s@.len(),
    ensures
        r matches Some((n, j)) ==> spec_parse_u32(s@, i as int) == Some((n, j as int)),
        r is None ==> spec_parse_u32(s@, i as int) is None,
{
    proof {
        lemma_digit_run_end(s@, i as int);
    }
    let ghost jg = digit_run_end(s@, i as int);
    let mut acc: u64 = 0;
    let mut k: usize = i;
    loop
        invariant
            i <= k <= jg <= s@.len(),
            k <= s@.len(),
            jg == digit_run_end(s@, i as int),
            forall|m: int| i <= m < jg ==> is_dec_digit(#[trigger] s@[m]),
            jg < s@.len() ==> !is_dec_digit(s@[jg]),
            acc == digits_val(s@.subrange(i as int, k as int)),
        ensures
            k == jg,
            acc == digits_val(s@.subrange(i as int, jg)),
        decreases s@.len() - k,
    {
        if k >= s.len() {
            break;
        }
        let u = s[k] as u32;
        if !(48 <= u && u <= 57) {
            proof {
                assert(k == jg);
            }
            break;
        }
        proof {
            if k == jg {
                assert(!is_dec_digit(s@[jg]));
            }
        }
        if acc > u32::MAX as u64 {
            // Even more digits follow: the run cannot fit.
            proof {
                lemma_digits_val_prefix(s@.subrange(i as int, jg), k - i);
                assert(s@.subrange(i as int, jg).subrange(0, k - i) =~= s@.subrange(
                    i as int,
                    k as int,
                ));
            }
            return None;
        }
        acc = acc * 10 + (u - 48) as u64;
        proof {
            assert(s@.subrange(i as int, k + 1).drop_last() =~= s@.subrange(i as int, k as int));
        }
        k = k + 1;
    }
    if k == i {
        proof {
            assert(s@.subrange(i as int, i as int) =~= Seq::<char>::empty());
        }
        return None;
    }
    if acc > u32::MAX as u64 {
        return None;
    }
    Some((acc as u32, k))
}

// ---------------------------------------------------------------------------
// String literals with escapes
// ---------------------------------------------------------------------------

pub open spec fn hex_chars() -> Seq<char> {
    seq!['0', '1', '2', '3', '4', '5', '6', '7', '8', '9', 'a', 'b', 'c', 'd', 'e', 'f']
}

pub open spec fn hex_char(d: nat) -> char {
    hex_chars()[d as int]
}

pub open spec fn is_hex_digit(c: char) -> bool {
    48 <= (c as u32) <= 57 || 97 <= (c as u32) <= 102
}

pub open spec fn hex_val(c: char) -> nat {
    if (c as u32) <= 57 {
        ((c as u32) - 48) as nat
    } else {
        ((c as u32) - 87) as nat
    }
}

pub proof fn lemma_hex_char_val(d: nat)
    requires
        d < 16,
    ensures
        is_hex_digit(hex_char(d)),
        hex_val(hex_char(d)) == d,
{
    assert((hex_char(d) as u32) == if d < 10 { 48 + d } else { 87 + d }) by {
        if d == 0 {
        } else if d == 1 {
        } else if d == 2 {
        } else if d == 3 {
        } else if d == 4 {
        } else if d == 5 {
        } else if d == 6 {
        } else if d == 7 {
        } else if d == 8 {
        } else if d == 9 {
        } else if d == 10 {
        } else if d == 11 {
        } else if d == 12 {
        } else if d == 13 {
        } else if d == 14 {
        } else {
            assert(d == 15);
        }
    }
}

/// The thirty-two control characters, in scalar order.
pub open spec fn control_chars() -> Seq<char> {
    seq![
        '\u{00}', '\u{01}', '\u{02}', '\u{03}', '\u{04}', '\u{05}', '\u{06}', '\u{07}',
        '\u{08}', '\u{09}', '\u{0a}', '\u{0b}', '\u{0c}', '\u{0d}', '\u{0e}', '\u{0f}',
        '\u{10}', '\u{11}', '\u{12}', '\u{13}', '\u{14}', '\u{15}', '\u{16}', '\u{17}',
        '\u{18}', '\u{19}', '\u{1a}', '\u{1b}', '\u{1c}', '\u{1d}', '\u{1e}', '\u{1f}',
    ]
}

pub proof fn lemma_control_char_code(k: nat)
    requires
        k < 32,
    ensures
        (control_chars()[k as int] as u32) == k,
{
    assert((control_chars()[k as int] as u32) == k) by {
        if k < 8 {
            if k == 0 {
            } else if k == 1 {
            } else if k == 2 {
            } else if k == 3 {
            } else if k == 4 {
            } else if k == 5 {
            } else if k == 6 {
            } else {
                assert(k == 7);
            }
        } else if k < 16 {
            if k == 8 {
            } else if k == 9 {
            } else if k == 10 {
            } else if k == 11 {
            } else if k == 12 {
            } else if k == 13 {
            } else if k == 14 {
            } else {
                assert(k == 15);
            }
        } else if k < 24 {
            if k == 16 {
            } else if k == 17 {
            } else if k == 18 {
            } else if k == 19 {
            } else if k == 20 {
            } else if k == 21 {
            } else if k == 22 {
            } else {
                assert(k == 23);
            }
        } else {
            if k == 24 {
            } else if k == 25 {
            } else if k == 26 {
            } else if k == 27 {
            } else if k == 28 {
            } else if k == 29 {
            } else if k == 30 {
            } else {
                assert(k == 31);
            }
        }
    }
}

/// How one character is written inside a quoted literal: quote and backslash
/// get a two-character escape, control characters a `\u00XX` escape, and
/// everything else stands as itself.
pub open spec fn esc_char(c: char) -> Seq<char> {
    if c == '"' {
        seq!['\\', '"']
    } else if c == '\\' {
        seq!['\\', '\\']
    } else if (c as u32) < 32 {
        seq!['\\', 'u', '0', '0', hex_char((c as u32) as nat / 16), hex_char((c as u32) as nat % 16)]
    } else {
        seq![c]
    }
}

pub open spec fn ser_str_body(s: Seq<char>) -> Seq<char>
    decreases s.len(),
{
    if s.len() == 0 {
        Seq::empty()
    } else {
        esc_char(s[0]) + ser_str_body(s.skip(1))
    }
}

/// A quoted, escaped string literal.
pub open spec fn ser_string(s: Seq<char>) -> Seq<char> {
    seq!['"'] + ser_str_body(s) + seq!['"']
}

pub proof fn lemma_ser_str_body_append(a: Seq<char>, b: Seq<char>)
    ensures
        ser_str_body(a + b) == ser_str_body(a) + ser_str_body(b),
    decreases a.len(),
{
    if a.len() == 0 {
        assert(a + b =~= b);
        assert(ser_str_body(a) + ser_str_body(b) =~= ser_str_body(b));
    } else {
        lemma_ser_str_body_append(a.skip(1), b);
        assert((a + b).skip(1) =~= a.skip(1) + b);
        assert((a + b)[0] == a[0]);
        assert(ser_str_body(a + b) == esc_char(a[0]) + (ser_str_body(a.skip(1)) + ser_str_body(b)));
        assert(esc_char(a[0]) + (ser_str_body(a.skip(1)) + ser_str_body(b)) =~= (esc_char(a[0])
            + ser_str_body(a.skip(1))) + ser_str_body(b));
    }
}

pub proof fn lemma_ser_str_body_snoc(a: Seq<char>, c: char)
    ensures
        ser_str_body(a.push(c)) == ser_str_body(a) + esc_char(c),
{
    lemma_ser_str_body_append(a, seq![c]);
    assert(a.push(c) =~= a + seq![c]);
    assert(seq![c].skip(1) =~= Seq::<char>::empty());
    assert(seq![c][0] == c);
    assert(ser_str_body(seq![c]) == esc_char(c) + ser_str_body(seq![c].skip(1)));
    assert(ser_str_body(Seq::<char>::empty()) == Seq::<char>::empty());
    assert(esc_char(c) + Seq::<char>::empty() =~= esc_char(c));
}

/// Parses the inside of a quoted literal starting at `i` (just past the
/// opening quote); yields the content and the position after the closing
/// quote.
pub open spec fn spec_parse_str_body(s: Seq<char>, i: int) -> Option<(Seq<char>, int)>
    decreases s.len() - i,
{
    if i < 0 || i >= s.len() {
        None
    } else if s[i] == '"' {
        Some((Seq::empty(), i + 1))
    } else if s[i] == '\\' {
        if i + 2 <= s.len() && (s[i + 1] == '"' || s[i + 1] == '\\') {
            match spec_parse_str_body(s, i + 2) {
                Some((t, j)) => Some((seq![s[i + 1]] + t, j)),
                None => None,
            }
        } else if i + 6 <= s.len() && s[i + 1] == 'u' && s[i + 2] == '0' && s[i + 3] == '0'
            && is_hex_digit(s[i + 4]) && is_hex_digit(s[i + 5]) && hex_val(s[i + 4]) * 16 + hex_val(
            s[i + 5],
        ) < 32 {
            match spec_parse_str_body(s, i + 6) {
                Some((t, j)) => Some(
                    (seq![control_chars()[(hex_val(s[i + 4]) * 16 + hex_val(s[i + 5])) as int]] + t, j),
                ),
                None => None,
            }
        } else {
            None
        }
    } else {
        match spec_parse_str_body(s, i + 1) {
            Some((t, j)) => Some((seq![s[i]] + t, j)),
            None => None,
        }
    }
}

/// Parses a quoted literal starting at `i` (at the opening quote).
pub open spec fn spec_parse_string(s: Seq<char>, i: int) -> Option<(Seq<char>, int)> {
    if 0 <= i < s.len() && s[i] == '"' {
        spec_parse_str_body(s, i + 1)
    } else {
        None
    }
}

/// Parsing reverses serialization: wherever the input holds the escaped body
/// of `v` followed by a closing quote, the body parser returns exactly `v`.
pub proof fn lemma_parse_ser_str_body(s: Seq<char>, i: int, v: Seq<char>)
    requires
        0 <= i,
        i + ser_str_body(v).len() + 1 <= s.len(),
        s.subrange(i, i + ser_str_body(v).len() + 1) == ser_str_body(v) + seq!['"'],
    ensures
        spec_parse_str_body(s, i) == Some((v, i + ser_str_body(v).len() + 1)),
    decreases v.len(),
{
    let w = ser_str_body(v) + seq!['"'];
    let l = ser_str_body(v).len() as int;
    assert(forall|k: int| 0 <= k < l + 1 ==> s[i + k] == #[trigger] w[k]);
    if v.len() == 0 {
        assert(v =~= Seq::<char>::empty());
        assert(ser_str_body(v) == Seq::<char>::empty());
        assert(w[0] == '"');
        assert(s[i + 0] == w[0]);
        assert(s[i] == '"');
    } else {
        let c = v[0];
        let e = esc_char(c);
        let rest = v.skip(1);
        assert(ser_str_body(v) == e + ser_str_body(rest));
        assert(forall|k: int| 0 <= k < e.len() ==> w[k] == #[trigger] e[k]);
        assert forall|k: int| 0 <= k < e.len() implies s[i + k] == #[trigger] e[k] by {
            assert(s[i + k] == w[k]);
        }
        let i2 = i + e.len();
        assert(s.subrange(i2, i2 + ser_str_body(rest).len() + 1) =~= ser_str_body(rest) + seq![
            '"',
        ]) by {
            assert(forall|k: int|
                0 <= k < ser_str_body(rest).len() + 1 ==> w[e.len() + k] == (ser_str_body(rest)
                    + seq!['"'])[k]);
        }
        lemma_parse_ser_str_body(s, i2, rest);
        if c == '"' {
            assert(s[i] == e[0] && s[i + 1] == e[1]);
            assert(seq![s[i + 1]] + rest =~= v);
        } else if c == '\\' {
            assert(s[i] == e[0] && s[i + 1] == e[1]);
            assert(seq![s[i + 1]] + rest =~= v);
        } else if (c as u32) < 32 {
            let code = (c as u32) as nat;
            lemma_hex_char_val(code / 16);
            lemma_hex_char_val(code % 16);
            assert(s[i] == e[0] && s[i + 1] == e[1] && s[i + 2] == e[2] && s[i + 3] == e[3]);
            assert(s[i + 4] == e[4] && s[i + 5] == e[5]);
            assert(s[i] == '\\' && s[i + 1] == 'u' && s[i + 2] == '0' && s[i + 3] == '0');
            assert(s[i + 4] == hex_char(code / 16) && s[i + 5] == hex_char(code % 16));
            assert(hex_val(s[i + 4]) * 16 + hex_val(s[i + 5]) == code) by {
                assert(code / 16 * 16 + code % 16 == code) by (nonlinear_arith);
            }
            lemma_control_char_code(code);
            crate::text::lemma_char_code_eq(control_chars()[code as int], c);
            assert(seq![control_chars()[code as int]] + rest =~= v);
        } else {
            assert(s[i] == e[0]);
            assert(s[i] == c);
            assert(s[i] != '"' && s[i] != '\\');
            assert(seq![s[i]] + rest =~= v);
        }
    }
}

// ---------------------------------------------------------------------------
// Fixed literals and slicing helpers
// ---------------------------------------------------------------------------

/// Consumes the exact characters of `lit` at `i`.
pub open spec fn expect(s: Seq<char>, i: int, lit: Seq<char>) -> Option<int> {
    if 0 <= i && i + lit.len() <= s.len() && s.subrange(i, i + lit.len()) == lit {
        Some(i + lit.len())
    } else {
        None
    }
}

/// Checks the exact characters of `lit` at `i`, as `expect` does.
pub fn parse_lit(s: &Vec<char>, i: usize, lit: &str) -> (r: Option<usize>)
    requires
        i <= s@.len(),
    ensures
        r matches Some(j) ==> expect(s@, i as int, lit@) == Some(j as int) && j <= s@.len(),
        r is None ==> expect(s@, i as int, lit@) is None,
{
    let n = lit.unicode_len();
    if s.len() - i < n {
        return None;
    }
    let end: usize = i + n;
    let mut k: usize = 0;
    while k < n
        invariant
            n == lit@.len(),
            end == i + n,
            i + n <= s@.len(),
            k <= n,
            forall|m: int| 0 <= m < k ==> s@[i + m] == #[trigger] lit@[m],
        decreases n - k,
    {
        if s[i + k] != lit.get_char(k) {
            proof {
                assert(s@.subrange(i as int, i + lit@.len())[k as int] == s@[i + k]);
                assert(s@.subrange(i as int, i + lit@.len()) != lit@);
            }
            return None;
        }
        k = k + 1;
    }
    proof {
        assert(s@.subrange(i as int, i + lit@.len()) =~= lit@);
    }
    Some(i + n)
}

/// A slice of an already-sliced region: where `w` stands at `i` in `s`, any
/// sub-piece of `w` stands at the shifted position.
pub proof fn lemma_subrange_cut(s: Seq<char>, i: int, w: Seq<char>, a: int, b: int)
    requires
        0 <= i,
        i + w.len() <= s.len(),
        s.subrange(i, i + w.len()) == w,
        0 <= a <= b <= w.len(),
    ensures
        s.subrange(i + a, i + b) == w.subrange(a, b),
{
    assert forall|k: int| 0 <= k < b - a implies s.subrange(i + a, i + b)[k] == w.subrange(a, b)[k] by {
        assert(s.subrange(i, i + w.len())[a + k] == s[i + a + k]);
        assert(w.subrange(a, b)[k] == w[a + k]);
    }
    assert(s.subrange(i + a, i + b) =~= w.subrange(a, b));
}

/// Splits a region known to hold `a + b` into its two parts.
pub proof fn lemma_concat_cut(s: Seq<char>, i: int, a: Seq<char>, b: Seq<char>)
    requires
        0 <= i,
        i + a.len() + b.len() <= s.len(),
        s.subrange(i, i + a.len() + b.len()) == a + b,
    ensures
        s.subrange(i, i + a.len()) == a,
        s.subrange(i + a.len(), i + a.len() + b.len()) == b,
{
    let w = a + b;
    assert(forall|k: int| 0 <= k < w.len() ==> s[i + k] == #[trigger] w[k]);
    assert forall|k: int| 0 <= k < a.len() implies s.subrange(i, i + a.len())[k] == a[k] by {
        assert(w[k] == a[k]);
        assert(s[i + k] == w[k]);
    }
    assert(s.subrange(i, i + a.len()) =~= a);
    assert forall|k: int|
        0 <= k < b.len() implies s.subrange(i + a.len(), i + a.len() + b.len())[k] == b[k] by {
        assert(w[a.len() + k] == b[k]);
        assert(s[i + a.len() + k] == w[a.len() + k]);
    }
    assert(s.subrange(i + a.len(), i + a.len() + b.len()) =~= b);
}

// ---------------------------------------------------------------------------
// Insignificant whitespace between tokens
// ---------------------------------------------------------------------------

/// The four characters that are insignificant between tokens of a JSON
/// document.
pub open spec fn is_json_ws(c: char) -> bool {
    c == ' ' || c == '\t' || c == '\n' || c == '\r'
}

/// The first position at or after `i` that does not hold insignificant
/// whitespace.
pub open spec fn skip_ws(s: Seq<char>, i: int) -> int
    decreases s.len() - i when i <= s.len()
{
    if 0 <= i && i < s.len() && is_json_ws(s[i]) {
        skip_ws(s, i + 1)
    } else {
        i
    }
}

pub proof fn lemma_skip_ws(s: Seq<char>, i: int)
    requires
        0 <= i <= s.len(),
    ensures
        i <= skip_ws(s, i) <= s.len(),
    decreases s.len() - i,
{
    if i < s.len() && is_json_ws(s[i]) {
        lemma_skip_ws(s, i + 1);
    }
}

/// Advances past insignificant whitespace, as `skip_ws` does.
pub fn skip_ws_at(s: &Vec<char>, i: usize) -> (r: usize)
    requires
        i <= s@.len(),
    ensures
        r == skip_ws(s@, i as int),
        i <= r <= s@.len(),
{
    let mut r = i;
    loop
        invariant
            i <= r <= s@.len(),
            skip_ws(s@, i as int) == skip_ws(s@, r as int),
        ensures
            i <= r <= s@.len(),
            skip_ws(s@, i as int) == r,
        decreases s@.len() - r,
    {
        if r >= s.len() {
            break;
        }
        let c = s[r];
        if !(c == ' ' || c == '\t' || c == '\n' || c == '\r') {
            break;
        }
        r = r + 1;
    }
    r
}

// ---------------------------------------------------------------------------
// Bounds of the parsers (used for termination of compound parsers)
// ---------------------------------------------------------------------------

pub proof fn lemma_parse_str_body_bounds(s: Seq<char>, i: int)
    ensures
        spec_parse_str_body(s, i) matches Some((t, j)) ==> i < j <= s.len(),
    decreases s.len() - i,
{
    if 0 <= i && i < s.len() {
        if s[i] == '"' {
        } else if s[i] == '\\' {
            if i + 2 <= s.len() && (s[i + 1] == '"' || s[i + 1] == '\\') {
                lemma_parse_str_body_bounds(s, i + 2);
            } else if i + 6 <= s.len() && s[i + 1] == 'u' && s[i + 2] == '0' && s[i + 3] == '0'
                && is_hex_digit(s[i + 4]) && is_hex_digit(s[i + 5]) && hex_val(s[i + 4]) * 16
                + hex_val(s[i + 5]) < 32 {
                lemma_parse_str_body_bounds(s, i + 6);
            }
        } else {
            lemma_parse_str_body_bounds(s, i + 1);
        }
    }
}

pub proof fn lemma_parse_string_bounds(s: Seq<char>, i: int)
    ensures
        spec_parse_string(s, i) matches Some((t, j)) ==> i < j <= s.len(),
{
    if 0 <= i < s.len() && s[i] == '"' {
        lemma_parse_str_body_bounds(s, i + 1);
    }
}

pub proof fn lemma_parse_u32_bounds(s: Seq<char>, i: int)
    ensures
        spec_parse_u32(s, i) matches Some((n, j)) ==> i < j <= s.len(),
{
    if 0 <= i < s.len() && is_dec_digit(s[i]) {
        lemma_digit_run_end(s, i + 1);
    }
}

// ---------------------------------------------------------------------------
// Round trips of the pieces
// ---------------------------------------------------------------------------

/// Parsing reverses serialization for quoted literals.
pub proof fn lemma_parse_ser_string(s: Seq<char>, i: int, v: Seq<char>)
    requires
        0 <= i,
        i + ser_string(v).len() <= s.len(),
        s.subrange(i, i + ser_string(v).len()) == ser_string(v),
    ensures
        spec_parse_string(s, i) == Some((v, i + ser_string(v).len())),
{
    let w = ser_string(v);
    let bl = ser_str_body(v).len() as int;
    assert(w.len() == bl + 2);
    assert(forall|k: int| 0 <= k < w.len() ==> s[i + k] == #[trigger] w[k]);
    assert(w[0] == '"');
    assert(s[i + 0] == w[0]);
    assert forall|k: int|
        0 <= k < bl + 1 implies s.subrange(i + 1, i + 1 + bl + 1)[k] == (ser_str_body(v) + seq![
        '"',
    ])[k] by {
        assert(w[1 + k] == (ser_str_body(v) + seq!['"'])[k]);
        assert(s[i + 1 + k] == w[1 + k]);
    }
    assert(s.subrange(i + 1, i + 1 + bl + 1) =~= ser_str_body(v) + seq!['"']);
    lemma_parse_ser_str_body(s, i + 1, v);
}

/// The maximal digit run is exactly a region known to be all digits with a
/// non-digit (or the end) after it.
pub proof fn lemma_digit_run_exact(s: Seq<char>, i: int, j: int)
    requires
        0 <= i <= j <= s.len(),
        forall|k: int| i <= k < j ==> is_dec_digit(#[trigger] s[k]),
        j < s.len() ==> !is_dec_digit(s[j]),
    ensures
        digit_run_end(s, i) == j,
    decreases j - i,
{
    if i < j {
        lemma_digit_run_exact(s, i + 1, j);
    }
}

/// Parsing reverses serialization for decimal numbers followed by a
/// non-digit.
pub proof fn lemma_parse_ser_u32(s: Seq<char>, i: int, n: u32)
    requires
        0 <= i,
        i + ser_nat(n as nat).len() < s.len(),
        s.subrange(i, i + ser_nat(n as nat).len()) == ser_nat(n as nat),
        !is_dec_digit(s[i + ser_nat(n as nat).len()]),
    ensures
        spec_parse_u32(s, i) == Some((n, i + ser_nat(n as nat).len())),
{
    let w = ser_nat(n as nat);
    let l = w.len() as int;
    lemma_ser_nat_shape(n as nat);
    assert(forall|k: int| 0 <= k < l ==> s[i + k] == #[trigger] w[k]);
    assert forall|k: int| i <= k < i + l implies is_dec_digit(#[trigger] s[k]) by {
        assert(s[k] == w[k - i]);
    }
    lemma_digit_run_exact(s, i, i + l);
    assert(s.subrange(i, i + l) == w);
    assert(is_dec_digit(s[i])) by {
        assert(s[i + 0] == w[0]);
    }
}

/// Maps a control code to its character.
fn control_char(code: u8) -> (c: char)
    requires
        code < 32,
    ensures
        c == control_chars()[code as int],
{
    if code < 8 {
        if code == 0 {
            '\u{00}'
        } else if code == 1 {
            '\u{01}'
        } else if code == 2 {
            '\u{02}'
        } else if code == 3 {
            '\u{03}'
        } else if code == 4 {
            '\u{04}'
        } else if code == 5 {
            '\u{05}'
        } else if code == 6 {
            '\u{06}'
        } else {
            '\u{07}'
        }
    } else if code < 16 {
        if code == 8 {
            '\u{08}'
        } else if code == 9 {
            '\u{09}'
        } else if code == 10 {
            '\u{0a}'
        } else if code == 11 {
            '\u{0b}'
        } else if code == 12 {
            '\u{0c}'
        } else if code == 13 {
            '\u{0d}'
        } else if code == 14 {
            '\u{0e}'
        } else {
            '\u{0f}'
        }
    } else if code < 24 {
        if code == 16 {
            '\u{10}'
        } else if code == 17 {
            '\u{11}'
        } else if code == 18 {
            '\u{12}'
        } else if code == 19 {
            '\u{13}'
        } else if code == 20 {
            '\u{14}'
        } else if code == 21 {
            '\u{15}'
        } else if code == 22 {
            '\u{16}'
        } else {
            '\u{17}'
        }
    } else {
        if code == 24 {
            '\u{18}'
        } else if code == 25 {
            '\u{19}'
        } else if code == 26 {
            '\u{1a}'
        } else if code == 27 {
            '\u{1b}'
        } else if code == 28 {
            '\u{1c}'
        } else if code == 29 {
            '\u{1d}'
        } else if code == 30 {
            '\u{1e}'
        } else {
            '\u{1f}'
        }
    }
}

/// Maps a hex digit value below sixteen to its character.
fn hex_to_char(d: u32) -> (c: char)
    requires
        d < 16,
    ensures
        c == hex_char(d as nat),
{
    if d < 10 {
        proof {
            lemma_hex_char_val(d as nat);
            lemma_digit_char_val(d as nat);
            assert(hex_char(d as nat) as u32 == 48 + d);
            assert(digit_char(d as nat) as u32 == 48 + d);
            crate::text::lemma_char_code_eq(hex_char(d as nat), digit_char(d as nat));
        }
        digit_to_char(d)
    } else if d == 10 {
        'a'
    } else if d == 11 {
        'b'
    } else if d == 12 {
        'c'
    } else if d == 13 {
        'd'
    } else if d == 14 {
        'e'
    } else {
        'f'
    }
}

/// Reads a hex digit character back to its value.
fn char_to_hex(c: char) -> (r: Option<u32>)
    ensures
        r matches Some(d) ==> is_hex_digit(c) && d == hex_val(c) && d < 16,
        r is None ==> !is_hex_digit(c),
{
    let u = c as u32;
    if 48 <= u && u <= 57 {
        Some(u - 48)
    } else if 97 <= u && u <= 102 {
        Some(u - 87)
    } else {
        None
    }
}

/// Appends the quoted, escaped form of `s` to `out`.
pub fn write_json_string(out: &mut Vec<char>, s: &str)
    ensures
        final(out)@ == old(out)@ + ser_string(s@),
{
    out.push('"');
    let n = s.unicode_len();
    let mut i: usize = 0;
    proof {
        assert(s@.take(0) =~= Seq::<char>::empty());
        assert(out@ =~= old(out)@ + seq!['"'] + ser_str_body(s@.take(0)));
    }
    while i < n
        invariant
            n == s@.len(),
            i <= n,
            out@ == old(out)@ + seq!['"'] + ser_str_body(s@.take(i as int)),
        decreases n - i,
    {
        let c = s.get_char(i);
        let u = c as u32;
        if c == '"' {
            out.push('\\');
            out.push('"');
        } else if c == '\\' {
            out.push('\\');
            out.push('\\');
        } else if u < 32 {
            out.push('\\');
            out.push('u');
            out.push('0');
            out.push('0');
            out.push(hex_to_char(u / 16));
            out.push(hex_to_char(u % 16));
        } else {
            out.push(c);
        }
        proof {
            lemma_ser_str_body_snoc(s@.take(i as int), c);
            assert(s@.take(i + 1) =~= s@.take(i as int).push(c));
            assert(out@ =~= old(out)@ + seq!['"'] + ser_str_body(s@.take(i + 1)));
        }
        i = i + 1;
    }
    out.push('"');
    proof {
        assert(s@.take(n as int) =~= s@);
        assert(out@ =~= old(out)@ + ser_string(s@));
    }
}

/// Parses a quoted literal at `i`, as `spec_parse_string` does.
pub fn parse_json_string(s: &Vec<char>, i: usize) -> (r: Option<(String, usize)>)
    requires
        i <= s@.len(),
    ensures
        r matches Some((st, j)) ==> spec_parse_string(s@, i as int) == Some((st@, j as int)) && j
            <= s@.len(),
        r is None ==> spec_parse_string(s@, i as int) is None,
{
    if i >= s.len() || s[i] != '"' {
        return None;
    }
    let mut acc: Vec<char> = Vec::new();
    let mut k: usize = i + 1;
    proof {
        assert(acc@ =~= Seq::<char>::empty());
    }
    loop
        invariant
            i < s@.len(),
            s@[i as int] == '"',
            i + 1 <= k <= s@.len(),
            spec_parse_str_body(s@, i + 1) == match spec_parse_str_body(s@, k as int) {
                Some((t, j)) => Some::<(Seq<char>, int)>((acc@ + t, j)),
                None => None::<(Seq<char>, int)>,
            },
        decreases s@.len() - k,
    {
        if k >= s.len() {
            return None;
        }
        let c = s[k];
        if c == '"' {
            proof {
                assert(spec_parse_str_body(s@, k as int) == Some((Seq::<char>::empty(), k + 1)));
                assert(acc@ + Seq::<char>::empty() =~= acc@);
            }
            let st = crate::text::chars_to_string(&acc);
            return Some((st, k + 1));
        }
        if c == '\\' {
            if k + 1 >= s.len() {
                return None;
            }
            let c2 = s[k + 1];
            if c2 == '"' || c2 == '\\' {
                let ghost prev = acc@;
                acc.push(c2);
                proof {
                    assert(forall|t: Seq<char>| prev + (seq![c2] + t) =~= #[trigger] (acc@ + t));
                }
                k = k + 2;
            } else if c2 == 'u' {
                if s.len() - (k + 1) < 5 {
                    return None;
                }
                if s[k + 2] != '0' || s[k + 3] != '0' {
                    return None;
                }
                let h1 = char_to_hex(s[k + 4]);
                let h2 = char_to_hex(s[k + 5]);
                if h1.is_none() || h2.is_none() {
                    return None;
                }
                let code = h1.unwrap() * 16 + h2.unwrap();
                if code >= 32 {
                    return None;
                }
                let ctl = control_char(code as u8);
                let ghost prev = acc@;
                acc.push(ctl);
                proof {
                    assert(forall|t: Seq<char>| prev + (seq![ctl] + t) =~= #[trigger] (acc@ + t));
                }
                k = k + 6;
            } else {
                return None;
            }
        } else {
            let ghost prev = acc@;
            acc.push(c);
            proof {
                assert(forall|t: Seq<char>| prev + (seq![c] + t) =~= #[trigger] (acc@ + t));
            }
            k = k + 1;
        }
    }
}

} // verus!
