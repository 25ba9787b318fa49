//! A UTC instant held as plain calendar fields, with the fixed-width,
//! sortable text form the store uses in file names and stored records.

use vstd::prelude::*;
use crate::codec::{digit_char, digit_val, is_dec_digit, digit_to_char, char_to_digit};

verus! {

/// A UTC instant: calendar fields only, no time zone and no sub-second part.
#[derive(Clone, Copy, Debug, PartialEq, Eq, Structural)]
pub struct Timestamp {
    pub year: u32,
    pub month: u32,
    pub day: u32,
    pub hour: u32,
    pub minute: u32,
    pub second: u32,
}

impl Timestamp {
    /// Field ranges the store relies on; the calendar itself is not modelled
    /// further.
    pub open spec fn valid(self) -> bool {
        self.year <= 9999 && 1 <= self.month <= 12 && 1 <= self.day <= 31 && self.hour <= 23
            && self.minute <= 59 && self.second <= 59
    }

    /// Builds a timestamp after checking the field ranges.
    pub fn new(year: u32, month: u32, day: u32, hour: u32, minute: u32, second: u32) -> (r: Option<
        Timestamp,
    >)
        ensures
            r matches Some(t) ==> t == (Timestamp { year, month, day, hour, minute, second })
                && t.valid(),
            r is None ==> !(Timestamp { year, month, day, hour, minute, second }).valid(),
    {
        let t = Timestamp { year, month, day, hour, minute, second };
        if t.is_valid() {
            Some(t)
        } else {
            None
        }
    }

    /// Checks `valid` in executable code.
    pub fn is_valid(&self) -> (b: bool)
        ensures
            b == self.valid(),
    {
        self.year <= 9999 && 1 <= self.month && self.month <= 12 && 1 <= self.day && self.day <= 31
            && self.hour <= 23 && self.minute <= 59 && self.second <= 59
    }
}

/// The twenty-character text form `YYYY-MM-DDTHH:MM:SSZ`: fixed width and
/// zero padded, so that the lexical order of the strings is the time order.
pub open spec fn ser_ts(t: Timestamp) -> Seq<char> {
    seq![
        digit_char(t.year as nat / 1000),
        digit_char(t.year as nat / 100 % 10),
        digit_char(t.year as nat / 10 % 10),
        digit_char(t.year as nat % 10),
        '-',
        digit_char(t.month as nat / 10),
        digit_char(t.month as nat % 10),
        '-',
        digit_char(t.day as nat / 10),
        digit_char(t.day as nat % 10),
        'T',
        digit_char(t.hour as nat / 10),
        digit_char(t.hour as nat % 10),
        ':',
        digit_char(t.minute as nat / 10),
        digit_char(t.minute as nat % 10),
        ':',
        digit_char(t.second as nat / 10),
        digit_char(t.second as nat % 10),
        'Z',
    ]
}

/// Whether twenty characters at `i` have the digit and separator layout of
/// `ser_ts`.
pub open spec fn ts_shape_ok(s: Seq<char>, i: int) -> bool {
    &&& i + 20 <= s.len()
    &&& is_dec_digit(s[i]) && is_dec_digit(s[i + 1]) && is_dec_digit(s[i + 2]) && is_dec_digit(
        s[i + 3],
    )
    &&& s[i + 4] == '-'
    &&& is_dec_digit(s[i + 5]) && is_dec_digit(s[i + 6])
    &&& s[i + 7] == '-'
    &&& is_dec_digit(s[i + 8]) && is_dec_digit(s[i + 9])
    &&& s[i + 10] == 'T'
    &&& is_dec_digit(s[i + 11]) && is_dec_digit(s[i + 12])
    &&& s[i + 13] == ':'
    &&& is_dec_digit(s[i + 14]) && is_dec_digit(s[i + 15])
    &&& s[i + 16] == ':'
    &&& is_dec_digit(s[i + 17]) && is_dec_digit(s[i + 18])
    &&& s[i + 19] == 'Z'
}

/// The timestamp read off twenty characters at `i` in the layout above.
pub open spec fn ts_from(s: Seq<char>, i: int) -> Timestamp {
    Timestamp {
        year: (digit_val(s[i]) * 1000 + digit_val(s[i + 1]) * 100 + digit_val(s[i + 2]) * 10
            + digit_val(s[i + 3])) as u32,
        month: (digit_val(s[i + 5]) * 10 + digit_val(s[i + 6])) as u32,
        day: (digit_val(s[i + 8]) * 10 + digit_val(s[i + 9])) as u32,
        hour: (digit_val(s[i + 11]) * 10 + digit_val(s[i + 12])) as u32,
        minute: (digit_val(s[i + 14]) * 10 + digit_val(s[i + 15])) as u32,
        second: (digit_val(s[i + 17]) * 10 + digit_val(s[i + 18])) as u32,
    }
}

/// Parses a timestamp at `i`: exactly the valid values in the layout above.
pub open spec fn spec_parse_ts(s: Seq<char>, i: int) -> Option<(Timestamp, int)> {
    if 0 <= i && ts_shape_ok(s, i) && ts_from(s, i).valid() {
        Some((ts_from(s, i), i + 20))
    } else {
        None
    }
}

/// Appends the text form of `t` to `out`.
#[verifier::rlimit(60)]
pub fn write_timestamp(out: &mut Vec<char>, t: &Timestamp)
    requires
        t.valid(),
    ensures
        final(out)@ == old(out)@ + ser_ts(*t),
{
    out.push(digit_to_char(t.year / 1000));
    out.push(digit_to_char(t.year / 100 % 10));
    out.push(digit_to_char(t.year / 10 % 10));
    out.push(digit_to_char(t.year % 10));
    out.push('-');
    out.push(digit_to_char(t.month / 10));
    out.push(digit_to_char(t.month % 10));
    out.push('-');
    out.push(digit_to_char(t.day / 10));
    out.push(digit_to_char(t.day % 10));
    out.push('T');
    out.push(digit_to_char(t.hour / 10));
    out.push(digit_to_char(t.hour % 10));
    out.push(':');
    out.push(digit_to_char(t.minute / 10));
    out.push(digit_to_char(t.minute % 10));
    out.push(':');
    out.push(digit_to_char(t.second / 10));
    out.push(digit_to_char(t.second % 10));
    out.push('Z');
    proof {
        assert(final(out)@ =~= old(out)@ + ser_ts(*t));
    }
}

/// Parses a timestamp at `i`, as `spec_parse_ts` does.
pub fn parse_timestamp(s: &Vec<char>, i: usize) -> (r: Option<(Timestamp, usize)>)
    requires
        i <= s@.len(),
    ensures
        r matches Some((t, j)) ==> spec_parse_ts(s@, i as int) == Some((t, j as int)),
        r is None ==> spec_parse_ts(s@, i as int) is None,
{
    if s.len() - i < 20 {
        return None;
    }
    if s[i + 4] != '-' || s[i + 7] != '-' || s[i + 10] != 'T' || s[i + 13] != ':' || s[i + 16]
        != ':' || s[i + 19] != 'Z' {
        return None;
    }
    let y0 = char_to_digit(s[i]);
    let y1 = char_to_digit(s[i + 1]);
    let y2 = char_to_digit(s[i + 2]);
    let y3 = char_to_digit(s[i + 3]);
    let mo0 = char_to_digit(s[i + 5]);
    let mo1 = char_to_digit(s[i + 6]);
    let d0 = char_to_digit(s[i + 8]);
    let d1 = char_to_digit(s[i + 9]);
    let h0 = char_to_digit(s[i + 11]);
    let h1 = char_to_digit(s[i + 12]);
    let mi0 = char_to_digit(s[i + 14]);
    let mi1 = char_to_digit(s[i + 15]);
    let s0 = char_to_digit(s[i + 17]);
    let s1 = char_to_digit(s[i + 18]);
    if y0.is_none() || y1.is_none() || y2.is_none() || y3.is_none() || mo0.is_none()
        || mo1.is_none() || d0.is_none() || d1.is_none() || h0.is_none() || h1.is_none()
        || mi0.is_none() || mi1.is_none() || s0.is_none() || s1.is_none() {
        return None;
    }
    let t = Timestamp {
        year: y0.unwrap() * 1000 + y1.unwrap() * 100 + y2.unwrap() * 10 + y3.unwrap(),
        month: mo0.unwrap() * 10 + mo1.unwrap(),
        day: d0.unwrap() * 10 + d1.unwrap(),
        hour: h0.unwrap() * 10 + h1.unwrap(),
        minute: mi0.unwrap() * 10 + mi1.unwrap(),
        second: s0.unwrap() * 10 + s1.unwrap(),
    };
    if !t.is_valid() {
        return None;
    }
    Some((t, i + 20))
}

/// Parsing reverses serialization: the twenty characters of `ser_ts(t)` read
/// back as `t`.
pub proof fn lemma_parse_ser_ts(s: Seq<char>, i: int, t: Timestamp)
    requires
        0 <= i,
        i + 20 <= s.len(),
        t.valid(),
        s.subrange(i, i + 20) == ser_ts(t),
    ensures
        spec_parse_ts(s, i) == Some((t, i + 20)),
{
    let w = ser_ts(t);
    assert(forall|k: int| 0 <= k < 20 ==> s[i + k] == #[trigger] w[k]);
    let y = t.year as nat;
    crate::codec::lemma_digit_char_val(y / 1000);
    crate::codec::lemma_digit_char_val(y / 100 % 10);
    crate::codec::lemma_digit_char_val(y / 10 % 10);
    crate::codec::lemma_digit_char_val(y % 10);
    crate::codec::lemma_digit_char_val(t.month as nat / 10);
    crate::codec::lemma_digit_char_val(t.month as nat % 10);
    crate::codec::lemma_digit_char_val(t.day as nat / 10);
    crate::codec::lemma_digit_char_val(t.day as nat % 10);
    crate::codec::lemma_digit_char_val(t.hour as nat / 10);
    crate::codec::lemma_digit_char_val(t.hour as nat % 10);
    crate::codec::lemma_digit_char_val(t.minute as nat / 10);
    crate::codec::lemma_digit_char_val(t.minute as nat % 10);
    crate::codec::lemma_digit_char_val(t.second as nat / 10);
    crate::codec::lemma_digit_char_val(t.second as nat % 10);
    assert(s[i + 0] == w[0] && s[i + 1] == w[1] && s[i + 2] == w[2] && s[i + 3] == w[3]);
    assert(s[i + 4] == w[4] && s[i + 5] == w[5] && s[i + 6] == w[6] && s[i + 7] == w[7]);
    assert(s[i + 8] == w[8] && s[i + 9] == w[9] && s[i + 10] == w[10] && s[i + 11] == w[11]);
    assert(s[i + 12] == w[12] && s[i + 13] == w[13] && s[i + 14] == w[14] && s[i + 15] == w[15]);
    assert(s[i + 16] == w[16] && s[i + 17] == w[17] && s[i + 18] == w[18] && s[i + 19] == w[19]);
    assert(y / 1000 * 1000 + y / 100 % 10 * 100 + y / 10 % 10 * 10 + y % 10 == y) by {
        lemma_nat_decompose_10(y);
        lemma_nat_decompose_10(y / 10);
        lemma_nat_decompose_10(y / 100);
        vstd::arithmetic::div_mod::lemma_div_denominator(y as int, 10, 10);
        vstd::arithmetic::div_mod::lemma_div_denominator(y as int, 100, 10);
    }
    lemma_nat_decompose_10(t.month as nat);
    lemma_nat_decompose_10(t.day as nat);
    lemma_nat_decompose_10(t.hour as nat);
    lemma_nat_decompose_10(t.minute as nat);
    lemma_nat_decompose_10(t.second as nat);
    assert(ts_from(s, i) == t);
    assert(ts_shape_ok(s, i));
}

/// Every natural number splits into its last decimal digit and the rest.
pub proof fn lemma_nat_decompose_10(n: nat)
    ensures
        n == n / 10 * 10 + n % 10,
{
    vstd::arithmetic::div_mod::lemma_fundamental_div_mod(n as int, 10);
}

/// The text form is injective on valid timestamps: file names built from
/// different instants differ.
pub proof fn lemma_ser_ts_injective(t1: Timestamp, t2: Timestamp)
    requires
        t1.valid(),
        t2.valid(),
        ser_ts(t1) == ser_ts(t2),
    ensures
        t1 == t2,
{
    let s = ser_ts(t1);
    assert(s.len() == 20);
    assert(s.subrange(0, 20) =~= ser_ts(t1));
    lemma_parse_ser_ts(s, 0, t1);
    lemma_parse_ser_ts(s, 0, t2);
}

} // verus!
