//! The two configuration documents the tool reads: the analysis
//! configuration (version, description, ignore-list) and the account
//! configuration (categories and accounts to query). Only the parsing of
//! their text lives here; reading the files is the caller's business.
//!
//! These documents are written by hand, so the parsers take them as JSON
//! objects: insignificant whitespace is allowed between tokens and the
//! fields may come in any order, each exactly once. A field the document
//! does not declare is rejected, as is a missing one.

use vstd::prelude::*;
use crate::codec::{
    spec_parse_string, spec_parse_u32, parse_json_string, parse_u32, lemma_parse_string_bounds,
    lemma_parse_u32_bounds, skip_ws, lemma_skip_ws, skip_ws_at,
};

verus! {

/// One account to search for: its handle (with the at-sign) and a free-form
/// category label.
pub struct TwitterAccount {
    pub handle: String,
    pub category: String,
}

/// The mathematical value of a `TwitterAccount`.
pub struct TwitterAccountView {
    pub handle: Seq<char>,
    pub category: Seq<char>,
}

impl View for TwitterAccount {
    type V = TwitterAccountView;

    open spec fn view(&self) -> TwitterAccountView {
        TwitterAccountView { handle: self.handle@, category: self.category@ }
    }
}

/// The account configuration: the known category labels and the accounts.
pub struct Config {
    pub categories: Vec<String>,
    pub accounts: Vec<TwitterAccount>,
}

/// The mathematical value of a `Config`.
pub struct ConfigView {
    pub categories: Seq<Seq<char>>,
    pub accounts: Seq<TwitterAccountView>,
}

impl View for Config {
    type V = ConfigView;

    open spec fn view(&self) -> ConfigView {
        ConfigView {
            categories: self.categories@.map_values(|s: String| s@),
            accounts: self.accounts@.map_values(|a: TwitterAccount| a@),
        }
    }
}

/// The analysis configuration: a version stamp, a description, and the
/// tokens excluded from counting.
pub struct AnalysisConfig {
    pub version: u32,
    pub description: String,
    pub ignored_words: Vec<String>,
}

/// The mathematical value of an `AnalysisConfig`.
pub struct AnalysisConfigView {
    pub version: u32,
    pub description: Seq<char>,
    pub ignored_words: Seq<Seq<char>>,
}

impl View for AnalysisConfig {
    type V = AnalysisConfigView;

    open spec fn view(&self) -> AnalysisConfigView {
        AnalysisConfigView {
            version: self.version,
            description: self.description@,
            ignored_words: self.ignored_words@.map_values(|s: String| s@),
        }
    }
}

// ---------------------------------------------------------------------------
// Field names
// ---------------------------------------------------------------------------

pub open spec fn name_version() -> Seq<char> {
    seq!['v', 'e', 'r', 's', 'i', 'o', 'n']
}

pub open spec fn name_description() -> Seq<char> {
    seq!['d', 'e', 's', 'c', 'r', 'i', 'p', 't', 'i', 'o', 'n']
}

pub open spec fn name_ignored_words() -> Seq<char> {
    seq!['i', 'g', 'n', 'o', 'r', 'e', 'd', '_', 'w', 'o', 'r', 'd', 's']
}

pub open spec fn name_categories() -> Seq<char> {
    seq!['c', 'a', 't', 'e', 'g', 'o', 'r', 'i', 'e', 's']
}

pub open spec fn name_accounts() -> Seq<char> {
    seq!['a', 'c', 'c', 'o', 'u', 'n', 't', 's']
}

pub open spec fn name_handle() -> Seq<char> {
    seq!['h', 'a', 'n', 'd', 'l', 'e']
}

pub open spec fn name_category() -> Seq<char> {
    seq!['c', 'a', 't', 'e', 'g', 'o', 'r', 'y']
}

// ---------------------------------------------------------------------------
// Lists
// ---------------------------------------------------------------------------

/// Parses a bracketed list of quoted strings, starting just past the
/// opening bracket; whitespace may stand between tokens; consumes the
/// closing bracket.
pub open spec fn spec_parse_string_list(s: Seq<char>, i: int) -> Option<(Seq<Seq<char>>, int)>
    decreases s.len() - i,
    when 0 <= i <= s.len()
    via spec_parse_string_list_dec
{
    let iw = skip_ws(s, i);
    if iw < s.len() && s[iw] == ']' {
        Some((Seq::empty(), iw + 1))
    } else {
        match spec_parse_string(s, iw) {
            None => None,
            Some((q, j)) => {
                let jw = skip_ws(s, j);
                if jw < s.len() && s[jw] == ',' {
                    match spec_parse_string_list(s, jw + 1) {
                        None => None,
                        Some((qs, k)) => Some((seq![q] + qs, k)),
                    }
                } else if jw < s.len() && s[jw] == ']' {
                    Some((seq![q], jw + 1))
                } else {
                    None
                }
            },
        }
    }
}

#[via_fn]
proof fn spec_parse_string_list_dec(s: Seq<char>, i: int) {
    lemma_skip_ws(s, i);
    let iw = skip_ws(s, i);
    lemma_parse_string_bounds(s, iw);
    match spec_parse_string(s, iw) {
        None => {},
        Some((q, j)) => {
            lemma_skip_ws(s, j);
        },
    }
}

/// A parsed string list ends strictly past where it began.
pub proof fn lemma_parse_string_list_bounds(s: Seq<char>, i: int)
    requires
        0 <= i <= s.len(),
    ensures
        spec_parse_string_list(s, i) matches Some((qs, k)) ==> i < k <= s.len(),
    decreases s.len() - i,
{
    lemma_skip_ws(s, i);
    let iw = skip_ws(s, i);
    if iw < s.len() && s[iw] == ']' {
    } else {
        lemma_parse_string_bounds(s, iw);
        match spec_parse_string(s, iw) {
            None => {},
            Some((q, j)) => {
                lemma_skip_ws(s, j);
                let jw = skip_ws(s, j);
                if jw < s.len() && s[jw] == ',' {
                    lemma_parse_string_list_bounds(s, jw + 1);
                }
            },
        }
    }
}

/// Parses a list of quoted strings, as `spec_parse_string_list` does.
fn parse_string_list(s: &Vec<char>, i: usize) -> (r: Option<(Vec<String>, usize)>)
    requires
        i <= s@.len(),
    ensures
        r matches Some((qs, j)) ==> spec_parse_string_list(s@, i as int) == Some(
            (qs@.map_values(|q: String| q@), j as int),
        ) && j <= s@.len(),
        r is None ==> spec_parse_string_list(s@, i as int) is None,
{
    let mut acc: Vec<String> = Vec::new();
    let mut k: usize = i;
    proof {
        assert(acc@.map_values(|q: String| q@) =~= Seq::<Seq<char>>::empty());
    }
    loop
        invariant
            i <= k <= s@.len(),
            spec_parse_string_list(s@, i as int) == match spec_parse_string_list(s@, k as int) {
                Some((qs, j)) => Some::<(Seq<Seq<char>>, int)>(
                    (acc@.map_values(|q: String| q@) + qs, j),
                ),
                None => None::<(Seq<Seq<char>>, int)>,
            },
        decreases s@.len() - k,
    {
        let kw = skip_ws_at(s, k);
        if kw < s.len() && s[kw] == ']' {
            proof {
                assert(acc@.map_values(|q: String| q@) + Seq::<Seq<char>>::empty()
                    =~= acc@.map_values(|q: String| q@));
            }
            return Some((acc, kw + 1));
        }
        let rs = parse_json_string(s, kw);
        if rs.is_none() {
            return None;
        }
        let (q, j) = rs.unwrap();
        proof {
            lemma_parse_string_bounds(s@, kw as int);
        }
        let jw = skip_ws_at(s, j);
        if jw < s.len() && s[jw] == ',' {
            let ghost qv = q@;
            let ghost prev = acc@;
            acc.push(q);
            proof {
                assert(acc@.map_values(|q2: String| q2@) =~= prev.map_values(|q2: String| q2@).push(
                    qv,
                ));
                match spec_parse_string_list(s@, jw + 1) {
                    Some((qs0, j0)) => {
                        assert(prev.map_values(|q2: String| q2@) + (seq![qv] + qs0)
                            =~= acc@.map_values(|q2: String| q2@) + qs0);
                    },
                    None => {},
                }
            }
            k = jw + 1;
        } else if jw < s.len() && s[jw] == ']' {
            let ghost qv = q@;
            let ghost prev = acc@;
            acc.push(q);
            proof {
                assert(acc@.map_values(|q2: String| q2@) =~= prev.map_values(|q2: String| q2@).push(
                    qv,
                ));
                assert(prev.map_values(|q2: String| q2@) + seq![qv] =~= acc@.map_values(
                    |q2: String| q2@,
                ));
            }
            return Some((acc, jw + 1));
        } else {
            return None;
        }
    }
}


// ---------------------------------------------------------------------------
// Account objects
// ---------------------------------------------------------------------------

/// Parses the fields of an account object, starting just before a key and
/// carrying the fields already seen; fields may come in any order, each
/// once; consumes the closing brace.
pub open spec fn spec_parse_account_fields(
    s: Seq<char>,
    i: int,
    handle: Option<Seq<char>>,
    category: Option<Seq<char>>,
) -> Option<(TwitterAccountView, int)>
    decreases s.len() - i,
    when 0 <= i <= s.len()
    via spec_parse_account_fields_dec
{
    match spec_parse_string(s, skip_ws(s, i)) {
        None => None,
        Some((key, j)) => {
            let jw = skip_ws(s, j);
            if !(jw < s.len() && s[jw] == ':') {
                None
            } else {
                let vw = skip_ws(s, jw + 1);
                let stepped: Option<(Option<Seq<char>>, Option<Seq<char>>, int)> = if key
                    == name_handle() && handle is None {
                    match spec_parse_string(s, vw) {
                        None => None,
                        Some((h, k)) => Some((Some(h), category, k)),
                    }
                } else if key == name_category() && category is None {
                    match spec_parse_string(s, vw) {
                        None => None,
                        Some((c, k)) => Some((handle, Some(c), k)),
                    }
                } else {
                    None
                };
                match stepped {
                    None => None,
                    Some((h2, c2, k)) => {
                        let kw = skip_ws(s, k);
                        if kw < s.len() && s[kw] == ',' {
                            spec_parse_account_fields(s, kw + 1, h2, c2)
                        } else if kw < s.len() && s[kw] == '}' {
                            match (h2, c2) {
                                (Some(h), Some(c)) => Some(
                                    (TwitterAccountView { handle: h, category: c }, kw + 1),
                                ),
                                _ => None,
                            }
                        } else {
                            None
                        }
                    },
                }
            }
        },
    }
}

#[via_fn]
proof fn spec_parse_account_fields_dec(
    s: Seq<char>,
    i: int,
    handle: Option<Seq<char>>,
    category: Option<Seq<char>>,
) {
    lemma_skip_ws(s, i);
    let iw = skip_ws(s, i);
    lemma_parse_string_bounds(s, iw);
    match spec_parse_string(s, iw) {
        None => {},
        Some((key, j)) => {
            lemma_skip_ws(s, j);
            let jw = skip_ws(s, j);
            if jw < s.len() && s[jw] == ':' {
                lemma_skip_ws(s, jw + 1);
                let vw = skip_ws(s, jw + 1);
                lemma_parse_string_bounds(s, vw);
                match spec_parse_string(s, vw) {
                    None => {},
                    Some((x, k)) => {
                        lemma_skip_ws(s, k);
                    },
                }
            }
        },
    }
}

/// A parsed run of account fields ends strictly past where it began.
pub proof fn lemma_parse_account_fields_bounds(
    s: Seq<char>,
    i: int,
    handle: Option<Seq<char>>,
    category: Option<Seq<char>>,
)
    requires
        0 <= i <= s.len(),
    ensures
        spec_parse_account_fields(s, i, handle, category) matches Some((a, k)) ==> i < k
            <= s.len(),
    decreases s.len() - i,
{
    lemma_skip_ws(s, i);
    let iw = skip_ws(s, i);
    lemma_parse_string_bounds(s, iw);
    match spec_parse_string(s, iw) {
        None => {},
        Some((key, j)) => {
            lemma_skip_ws(s, j);
            let jw = skip_ws(s, j);
            if jw < s.len() && s[jw] == ':' {
                lemma_skip_ws(s, jw + 1);
                let vw = skip_ws(s, jw + 1);
                lemma_parse_string_bounds(s, vw);
                match spec_parse_string(s, vw) {
                    None => {},
                    Some((x, k)) => {
                        lemma_skip_ws(s, k);
                        let kw = skip_ws(s, k);
                        if kw < s.len() && s[kw] == ',' {
                            if key == name_handle() && handle is None {
                                lemma_parse_account_fields_bounds(s, kw + 1, Some(x), category);
                            } else if key == name_category() && category is None {
                                lemma_parse_account_fields_bounds(s, kw + 1, handle, Some(x));
                            }
                        }
                    },
                }
            }
        },
    }
}

/// Parses one account object at `i` (whitespace allowed, fields in any
/// order).
pub open spec fn spec_parse_account(s: Seq<char>, i: int) -> Option<(TwitterAccountView, int)> {
    let iw = skip_ws(s, i);
    if 0 <= i && iw < s.len() && s[iw] == '{' {
        spec_parse_account_fields(s, iw + 1, None, None)
    } else {
        None
    }
}

/// A parsed account ends strictly past where it began.
pub proof fn lemma_parse_account_bounds(s: Seq<char>, i: int)
    requires
        0 <= i <= s.len(),
    ensures
        spec_parse_account(s, i) matches Some((a, k)) ==> i < k <= s.len(),
{
    lemma_skip_ws(s, i);
    let iw = skip_ws(s, i);
    if iw < s.len() && s[iw] == '{' {
        lemma_parse_account_fields_bounds(s, iw + 1, None, None);
    }
}

/// Parses one account object, as `spec_parse_account` does.
fn parse_account(s: &Vec<char>, i: usize) -> (r: Option<(TwitterAccount, usize)>)
    requires
        i <= s@.len(),
    ensures
        r matches Some((a, j)) ==> spec_parse_account(s@, i as int) == Some((a@, j as int)) && j
            <= s@.len(),
        r is None ==> spec_parse_account(s@, i as int) is None,
{
    proof {
        reveal_strlit("handle");
        reveal_strlit("category");
        assert("handle"@ =~= name_handle());
        assert("category"@ =~= name_category());
    }
    let handle_lit = String::from_str("handle");
    let category_lit = String::from_str("category");
    let iw = skip_ws_at(s, i);
    if !(iw < s.len() && s[iw] == '{') {
        return None;
    }
    let mut handle: Option<String> = None;
    let mut category: Option<String> = None;
    let mut k: usize = iw + 1;
    loop
        invariant
            i <= s@.len(),
            iw == skip_ws(s@, i as int),
            iw < s@.len() && s@[iw as int] == '{',
            iw + 1 <= k <= s@.len(),
            handle_lit@ == name_handle(),
            category_lit@ == name_category(),
            spec_parse_account_fields(s@, iw + 1, None, None) == spec_parse_account_fields(
                s@,
                k as int,
                match handle {
                    Some(ref h) => Some::<Seq<char>>(h@),
                    None => None::<Seq<char>>,
                },
                match category {
                    Some(ref c) => Some::<Seq<char>>(c@),
                    None => None::<Seq<char>>,
                },
            ),
        decreases s@.len() - k,
    {
        let kw = skip_ws_at(s, k);
        let rk = parse_json_string(s, kw);
        if rk.is_none() {
            return None;
        }
        let (key, j) = rk.unwrap();
        proof {
            lemma_parse_string_bounds(s@, kw as int);
        }
        let jw = skip_ws_at(s, j);
        if !(jw < s.len() && s[jw] == ':') {
            return None;
        }
        let vw = skip_ws_at(s, jw + 1);
        if key.eq(&handle_lit) && handle.is_none() {
            let rv = parse_json_string(s, vw);
            if rv.is_none() {
                return None;
            }
            let (h, k2) = rv.unwrap();
            proof {
                lemma_parse_string_bounds(s@, vw as int);
            }
            handle = Some(h);
            let kw2 = skip_ws_at(s, k2);
            if kw2 < s.len() && s[kw2] == ',' {
                k = kw2 + 1;
            } else if kw2 < s.len() && s[kw2] == '}' {
                if category.is_some() {
                    let a = TwitterAccount {
                        handle: handle.unwrap(),
                        category: category.unwrap(),
                    };
                    return Some((a, kw2 + 1));
                }
                return None;
            } else {
                return None;
            }
        } else if key.eq(&category_lit) && category.is_none() {
            let rv = parse_json_string(s, vw);
            if rv.is_none() {
                return None;
            }
            let (c, k2) = rv.unwrap();
            proof {
                lemma_parse_string_bounds(s@, vw as int);
            }
            category = Some(c);
            let kw2 = skip_ws_at(s, k2);
            if kw2 < s.len() && s[kw2] == ',' {
                k = kw2 + 1;
            } else if kw2 < s.len() && s[kw2] == '}' {
                if handle.is_some() {
                    let a = TwitterAccount {
                        handle: handle.unwrap(),
                        category: category.unwrap(),
                    };
                    return Some((a, kw2 + 1));
                }
                return None;
            } else {
                return None;
            }
        } else {
            return None;
        }
    }
}

/// Parses a bracketed list of account objects, starting just past the
/// opening bracket; consumes the closing bracket.
pub open spec fn spec_parse_account_list(s: Seq<char>, i: int) -> Option<
    (Seq<TwitterAccountView>, int),
>
    decreases s.len() - i,
    when 0 <= i <= s.len()
    via spec_parse_account_list_dec
{
    let iw = skip_ws(s, i);
    if iw < s.len() && s[iw] == ']' {
        Some((Seq::empty(), iw + 1))
    } else {
        match spec_parse_account(s, i) {
            None => None,
            Some((a, j)) => {
                let jw = skip_ws(s, j);
                if jw < s.len() && s[jw] == ',' {
                    match spec_parse_account_list(s, jw + 1) {
                        None => None,
                        Some((accs, k)) => Some((seq![a] + accs, k)),
                    }
                } else if jw < s.len() && s[jw] == ']' {
                    Some((seq![a], jw + 1))
                } else {
                    None
                }
            },
        }
    }
}

#[via_fn]
proof fn spec_parse_account_list_dec(s: Seq<char>, i: int) {
    lemma_skip_ws(s, i);
    lemma_parse_account_bounds(s, i);
    match spec_parse_account(s, i) {
        None => {},
        Some((a, j)) => {
            lemma_skip_ws(s, j);
        },
    }
}

/// A parsed account list ends strictly past where it began.
pub proof fn lemma_parse_account_list_bounds(s: Seq<char>, i: int)
    requires
        0 <= i <= s.len(),
    ensures
        spec_parse_account_list(s, i) matches Some((accs, k)) ==> i < k <= s.len(),
    decreases s.len() - i,
{
    lemma_skip_ws(s, i);
    let iw = skip_ws(s, i);
    if iw < s.len() && s[iw] == ']' {
    } else {
        lemma_parse_account_bounds(s, i);
        match spec_parse_account(s, i) {
            None => {},
            Some((a, j)) => {
                lemma_skip_ws(s, j);
                let jw = skip_ws(s, j);
                if jw < s.len() && s[jw] == ',' {
                    lemma_parse_account_list_bounds(s, jw + 1);
                }
            },
        }
    }
}

/// Parses a list of account objects, as `spec_parse_account_list` does.
fn parse_account_list(s: &Vec<char>, i: usize) -> (r: Option<(Vec<TwitterAccount>, usize)>)
    requires
        i <= s@.len(),
    ensures
        r matches Some((accs, j)) ==> spec_parse_account_list(s@, i as int) == Some(
            (accs@.map_values(|a: TwitterAccount| a@), j as int),
        ) && j <= s@.len(),
        r is None ==> spec_parse_account_list(s@, i as int) is None,
{
    let mut acc: Vec<TwitterAccount> = Vec::new();
    let mut k: usize = i;
    proof {
        assert(acc@.map_values(|a: TwitterAccount| a@) =~= Seq::<TwitterAccountView>::empty());
    }
    loop
        invariant
            i <= k <= s@.len(),
            spec_parse_account_list(s@, i as int) == match spec_parse_account_list(s@, k as int) {
                Some((accs, j)) => Some::<(Seq<TwitterAccountView>, int)>(
                    (acc@.map_values(|a: TwitterAccount| a@) + accs, j),
                ),
                None => None::<(Seq<TwitterAccountView>, int)>,
            },
        decreases s@.len() - k,
    {
        let kw = skip_ws_at(s, k);
        if kw < s.len() && s[kw] == ']' {
            proof {
                assert(acc@.map_values(|a: TwitterAccount| a@) + Seq::<TwitterAccountView>::empty()
                    =~= acc@.map_values(|a: TwitterAccount| a@));
            }
            return Some((acc, kw + 1));
        }
        let ra = parse_account(s, k);
        if ra.is_none() {
            return None;
        }
        let (a, j) = ra.unwrap();
        proof {
            lemma_parse_account_bounds(s@, k as int);
        }
        let jw = skip_ws_at(s, j);
        if jw < s.len() && s[jw] == ',' {
            let ghost av = a@;
            let ghost prev = acc@;
            acc.push(a);
            proof {
                assert(acc@.map_values(|a2: TwitterAccount| a2@) =~= prev.map_values(
                    |a2: TwitterAccount| a2@,
                ).push(av));
                match spec_parse_account_list(s@, jw + 1) {
                    Some((accs0, j0)) => {
                        assert(prev.map_values(|a2: TwitterAccount| a2@) + (seq![av] + accs0)
                            =~= acc@.map_values(|a2: TwitterAccount| a2@) + accs0);
                    },
                    None => {},
                }
            }
            k = jw + 1;
        } else if jw < s.len() && s[jw] == ']' {
            let ghost av = a@;
            let ghost prev = acc@;
            acc.push(a);
            proof {
                assert(acc@.map_values(|a2: TwitterAccount| a2@) =~= prev.map_values(
                    |a2: TwitterAccount| a2@,
                ).push(av));
                assert(prev.map_values(|a2: TwitterAccount| a2@) + seq![av] =~= acc@.map_values(
                    |a2: TwitterAccount| a2@,
                ));
            }
            return Some((acc, jw + 1));
        } else {
            return None;
        }
    }
}


// ---------------------------------------------------------------------------
// The analysis configuration document
// ---------------------------------------------------------------------------

/// Parses the fields of the analysis configuration, starting just before a
/// key and carrying the fields already seen; fields may come in any order,
/// each once; consumes the closing brace.
pub open spec fn spec_parse_ac_fields(
    s: Seq<char>,
    i: int,
    version: Option<u32>,
    description: Option<Seq<char>>,
    ignored_words: Option<Seq<Seq<char>>>,
) -> Option<(AnalysisConfigView, int)>
    decreases s.len() - i,
    when 0 <= i <= s.len()
    via spec_parse_ac_fields_dec
{
    match spec_parse_string(s, skip_ws(s, i)) {
        None => None,
        Some((key, j)) => {
            let jw = skip_ws(s, j);
            if !(jw < s.len() && s[jw] == ':') {
                None
            } else {
                let vw = skip_ws(s, jw + 1);
                let stepped: Option<
                    (Option<u32>, Option<Seq<char>>, Option<Seq<Seq<char>>>, int),
                > = if key == name_version() && version is None {
                    match spec_parse_u32(s, vw) {
                        None => None,
                        Some((v, k)) => Some((Some(v), description, ignored_words, k)),
                    }
                } else if key == name_description() && description is None {
                    match spec_parse_string(s, vw) {
                        None => None,
                        Some((d, k)) => Some((version, Some(d), ignored_words, k)),
                    }
                } else if key == name_ignored_words() && ignored_words is None {
                    if vw < s.len() && s[vw] == '[' {
                        match spec_parse_string_list(s, vw + 1) {
                            None => None,
                            Some((ws, k)) => Some((version, description, Some(ws), k)),
                        }
                    } else {
                        None
                    }
                } else {
                    None
                };
                match stepped {
                    None => None,
                    Some((v2, d2, ig2, k)) => {
                        let kw = skip_ws(s, k);
                        if kw < s.len() && s[kw] == ',' {
                            spec_parse_ac_fields(s, kw + 1, v2, d2, ig2)
                        } else if kw < s.len() && s[kw] == '}' {
                            match (v2, d2, ig2) {
                                (Some(v), Some(d), Some(ig)) => Some(
                                    (
                                        AnalysisConfigView {
                                            version: v,
                                            description: d,
                                            ignored_words: ig,
                                        },
                                        kw + 1,
                                    ),
                                ),
                                _ => None,
                            }
                        } else {
                            None
                        }
                    },
                }
            }
        },
    }
}

#[via_fn]
proof fn spec_parse_ac_fields_dec(
    s: Seq<char>,
    i: int,
    version: Option<u32>,
    description: Option<Seq<char>>,
    ignored_words: Option<Seq<Seq<char>>>,
) {
    lemma_skip_ws(s, i);
    let iw = skip_ws(s, i);
    lemma_parse_string_bounds(s, iw);
    match spec_parse_string(s, iw) {
        None => {},
        Some((key, j)) => {
            lemma_skip_ws(s, j);
            let jw = skip_ws(s, j);
            if jw < s.len() && s[jw] == ':' {
                lemma_skip_ws(s, jw + 1);
                let vw = skip_ws(s, jw + 1);
                lemma_parse_u32_bounds(s, vw);
                lemma_parse_string_bounds(s, vw);
                match spec_parse_u32(s, vw) {
                    None => {},
                    Some((v, k)) => {
                        lemma_skip_ws(s, k);
                    },
                }
                match spec_parse_string(s, vw) {
                    None => {},
                    Some((d, k)) => {
                        lemma_skip_ws(s, k);
                    },
                }
                if vw < s.len() && s[vw] == '[' {
                    lemma_parse_string_list_bounds(s, vw + 1);
                    match spec_parse_string_list(s, vw + 1) {
                        None => {},
                        Some((ws, k)) => {
                            lemma_skip_ws(s, k);
                        },
                    }
                }
            }
        },
    }
}

/// What `AnalysisConfig::from_json` returns: the one configuration whose
/// text is a JSON object with exactly the three fields, in any order.
pub open spec fn spec_parse_analysis_config(s: Seq<char>) -> Option<AnalysisConfigView> {
    let iw = skip_ws(s, 0);
    if iw < s.len() && s[iw] == '{' {
        match spec_parse_ac_fields(s, iw + 1, None, None, None) {
            None => None,
            Some((c, end)) => if skip_ws(s, end) == s.len() {
                Some(c)
            } else {
                None
            },
        }
    } else {
        None
    }
}

impl AnalysisConfig {
    /// Reads an analysis configuration document; `None` on anything else.
    pub fn from_json(s: &str) -> (r: Option<AnalysisConfig>)
        ensures
            r matches Some(c) ==> spec_parse_analysis_config(s@) == Some(c@),
            r is None ==> spec_parse_analysis_config(s@) is None,
    {
        proof {
            reveal_strlit("version");
            reveal_strlit("description");
            reveal_strlit("ignored_words");
            assert("version"@ =~= name_version());
            assert("description"@ =~= name_description());
            assert("ignored_words"@ =~= name_ignored_words());
        }
        let version_lit = String::from_str("version");
        let description_lit = String::from_str("description");
        let ignored_lit = String::from_str("ignored_words");
        let chars = crate::text::str_to_chars(s);
        let iw = skip_ws_at(&chars, 0);
        if !(iw < chars.len() && chars[iw] == '{') {
            return None;
        }
        let mut version: Option<u32> = None;
        let mut description: Option<String> = None;
        let mut ignored_words: Option<Vec<String>> = None;
        let mut k: usize = iw + 1;
        loop
            invariant
                chars@ == s@,
                iw == skip_ws(chars@, 0),
                iw < chars@.len() && chars@[iw as int] == '{',
                iw + 1 <= k <= chars@.len(),
                version_lit@ == name_version(),
                description_lit@ == name_description(),
                ignored_lit@ == name_ignored_words(),
                spec_parse_ac_fields(chars@, iw + 1, None, None, None) == spec_parse_ac_fields(
                    chars@,
                    k as int,
                    version,
                    match description {
                        Some(ref d) => Some::<Seq<char>>(d@),
                        None => None::<Seq<char>>,
                    },
                    match ignored_words {
                        Some(ref ws) => Some::<Seq<Seq<char>>>(
                            ws@.map_values(|q: String| q@),
                        ),
                        None => None::<Seq<Seq<char>>>,
                    },
                ),
            decreases chars@.len() - k,
        {
            let kw = skip_ws_at(&chars, k);
            let rk = parse_json_string(&chars, kw);
            if rk.is_none() {
                return None;
            }
            let (key, j) = rk.unwrap();
            proof {
                lemma_parse_string_bounds(chars@, kw as int);
            }
            let jw = skip_ws_at(&chars, j);
            if !(jw < chars.len() && chars[jw] == ':') {
                return None;
            }
            let vw = skip_ws_at(&chars, jw + 1);
            let k2: usize;
            if key.eq(&version_lit) && version.is_none() {
                let rv = parse_u32(&chars, vw);
                if rv.is_none() {
                    return None;
                }
                let (v, kk) = rv.unwrap();
                proof {
                    lemma_parse_u32_bounds(chars@, vw as int);
                }
                version = Some(v);
                k2 = kk;
            } else if key.eq(&description_lit) && description.is_none() {
                let rv = parse_json_string(&chars, vw);
                if rv.is_none() {
                    return None;
                }
                let (d, kk) = rv.unwrap();
                proof {
                    lemma_parse_string_bounds(chars@, vw as int);
                }
                description = Some(d);
                k2 = kk;
            } else if key.eq(&ignored_lit) && ignored_words.is_none() {
                if !(vw < chars.len() && chars[vw] == '[') {
                    return None;
                }
                let rv = parse_string_list(&chars, vw + 1);
                if rv.is_none() {
                    return None;
                }
                let (ws, kk) = rv.unwrap();
                proof {
                    lemma_parse_string_list_bounds(chars@, vw + 1);
                }
                ignored_words = Some(ws);
                k2 = kk;
            } else {
                return None;
            }
            let kw2 = skip_ws_at(&chars, k2);
            if kw2 < chars.len() && chars[kw2] == ',' {
                k = kw2 + 1;
            } else if kw2 < chars.len() && chars[kw2] == '}' {
                if version.is_some() && description.is_some() && ignored_words.is_some() {
                    let c = AnalysisConfig {
                        version: version.unwrap(),
                        description: description.unwrap(),
                        ignored_words: ignored_words.unwrap(),
                    };
                    let endw = skip_ws_at(&chars, kw2 + 1);
                    if endw == chars.len() {
                        return Some(c);
                    }
                    return None;
                }
                return None;
            } else {
                return None;
            }
        }
    }
}

// ---------------------------------------------------------------------------
// The account configuration document
// ---------------------------------------------------------------------------

/// Parses the fields of the account configuration, starting just before a
/// key and carrying the fields already seen; fields may come in any order,
/// each once; consumes the closing brace.
pub open spec fn spec_parse_config_fields(
    s: Seq<char>,
    i: int,
    categories: Option<Seq<Seq<char>>>,
    accounts: Option<Seq<TwitterAccountView>>,
) -> Option<(ConfigView, int)>
    decreases s.len() - i,
    when 0 <= i <= s.len()
    via spec_parse_config_fields_dec
{
    match spec_parse_string(s, skip_ws(s, i)) {
        None => None,
        Some((key, j)) => {
            let jw = skip_ws(s, j);
            if !(jw < s.len() && s[jw] == ':') {
                None
            } else {
                let vw = skip_ws(s, jw + 1);
                let stepped: Option<
                    (Option<Seq<Seq<char>>>, Option<Seq<TwitterAccountView>>, int),
                > = if key == name_categories() && categories is None {
                    if vw < s.len() && s[vw] == '[' {
                        match spec_parse_string_list(s, vw + 1) {
                            None => None,
                            Some((cs, k)) => Some((Some(cs), accounts, k)),
                        }
                    } else {
                        None
                    }
                } else if key == name_accounts() && accounts is None {
                    if vw < s.len() && s[vw] == '[' {
                        match spec_parse_account_list(s, vw + 1) {
                            None => None,
                            Some((accs, k)) => Some((categories, Some(accs), k)),
                        }
                    } else {
                        None
                    }
                } else {
                    None
                };
                match stepped {
                    None => None,
                    Some((c2, a2, k)) => {
                        let kw = skip_ws(s, k);
                        if kw < s.len() && s[kw] == ',' {
                            spec_parse_config_fields(s, kw + 1, c2, a2)
                        } else if kw < s.len() && s[kw] == '}' {
                            match (c2, a2) {
                                (Some(cs), Some(accs)) => Some(
                                    (ConfigView { categories: cs, accounts: accs }, kw + 1),
                                ),
                                _ => None,
                            }
                        } else {
                            None
                        }
                    },
                }
            }
        },
    }
}

#[via_fn]
proof fn spec_parse_config_fields_dec(
    s: Seq<char>,
    i: int,
    categories: Option<Seq<Seq<char>>>,
    accounts: Option<Seq<TwitterAccountView>>,
) {
    lemma_skip_ws(s, i);
    let iw = skip_ws(s, i);
    lemma_parse_string_bounds(s, iw);
    match spec_parse_string(s, iw) {
        None => {},
        Some((key, j)) => {
            lemma_skip_ws(s, j);
            let jw = skip_ws(s, j);
            if jw < s.len() && s[jw] == ':' {
                lemma_skip_ws(s, jw + 1);
                let vw = skip_ws(s, jw + 1);
                if vw < s.len() && s[vw] == '[' {
                    lemma_parse_string_list_bounds(s, vw + 1);
                    lemma_parse_account_list_bounds(s, vw + 1);
                    match spec_parse_string_list(s, vw + 1) {
                        None => {},
                        Some((cs, k)) => {
                            lemma_skip_ws(s, k);
                        },
                    }
                    match spec_parse_account_list(s, vw + 1) {
                        None => {},
                        Some((accs, k)) => {
                            lemma_skip_ws(s, k);
                        },
                    }
                }
            }
        },
    }
}

/// What `Config::get_from_json` returns: the one configuration whose text
/// is a JSON object with exactly the two fields, in any order.
pub open spec fn spec_parse_config(s: Seq<char>) -> Option<ConfigView> {
    let iw = skip_ws(s, 0);
    if iw < s.len() && s[iw] == '{' {
        match spec_parse_config_fields(s, iw + 1, None, None) {
            None => None,
            Some((c, end)) => if skip_ws(s, end) == s.len() {
                Some(c)
            } else {
                None
            },
        }
    } else {
        None
    }
}

impl Config {
    /// Reads an account configuration document; `None` on anything else.
    pub fn get_from_json(s: &str) -> (r: Option<Config>)
        ensures
            r matches Some(c) ==> spec_parse_config(s@) == Some(c@),
            r is None ==> spec_parse_config(s@) is None,
    {
        proof {
            reveal_strlit("categories");
            reveal_strlit("accounts");
            assert("categories"@ =~= name_categories());
            assert("accounts"@ =~= name_accounts());
        }
        let categories_lit = String::from_str("categories");
        let accounts_lit = String::from_str("accounts");
        let chars = crate::text::str_to_chars(s);
        let iw = skip_ws_at(&chars, 0);
        if !(iw < chars.len() && chars[iw] == '{') {
            return None;
        }
        let mut categories: Option<Vec<String>> = None;
        let mut accounts: Option<Vec<TwitterAccount>> = None;
        let mut k: usize = iw + 1;
        loop
            invariant
                chars@ == s@,
                iw == skip_ws(chars@, 0),
                iw < chars@.len() && chars@[iw as int] == '{',
                iw + 1 <= k <= chars@.len(),
                categories_lit@ == name_categories(),
                accounts_lit@ == name_accounts(),
                spec_parse_config_fields(chars@, iw + 1, None, None) == spec_parse_config_fields(
                    chars@,
                    k as int,
                    match categories {
                        Some(ref cs) => Some::<Seq<Seq<char>>>(
                            cs@.map_values(|q: String| q@),
                        ),
                        None => None::<Seq<Seq<char>>>,
                    },
                    match accounts {
                        Some(ref accs) => Some::<Seq<TwitterAccountView>>(
                            accs@.map_values(|a: TwitterAccount| a@),
                        ),
                        None => None::<Seq<TwitterAccountView>>,
                    },
                ),
            decreases chars@.len() - k,
        {
            let kw = skip_ws_at(&chars, k);
            let rk = parse_json_string(&chars, kw);
            if rk.is_none() {
                return None;
            }
            let (key, j) = rk.unwrap();
            proof {
                lemma_parse_string_bounds(chars@, kw as int);
            }
            let jw = skip_ws_at(&chars, j);
            if !(jw < chars.len() && chars[jw] == ':') {
                return None;
            }
            let vw = skip_ws_at(&chars, jw + 1);
            let k2: usize;
            if key.eq(&categories_lit) && categories.is_none() {
                if !(vw < chars.len() && chars[vw] == '[') {
                    return None;
                }
                let rv = parse_string_list(&chars, vw + 1);
                if rv.is_none() {
                    return None;
                }
                let (cs, kk) = rv.unwrap();
                proof {
                    lemma_parse_string_list_bounds(chars@, vw + 1);
                }
                categories = Some(cs);
                k2 = kk;
            } else if key.eq(&accounts_lit) && accounts.is_none() {
                if !(vw < chars.len() && chars[vw] == '[') {
                    return None;
                }
                let rv = parse_account_list(&chars, vw + 1);
                if rv.is_none() {
                    return None;
                }
                let (accs, kk) = rv.unwrap();
                proof {
                    lemma_parse_account_list_bounds(chars@, vw + 1);
                }
                accounts = Some(accs);
                k2 = kk;
            } else {
                return None;
            }
            let kw2 = skip_ws_at(&chars, k2);
            if kw2 < chars.len() && chars[kw2] == ',' {
                k = kw2 + 1;
            } else if kw2 < chars.len() && chars[kw2] == '}' {
                if categories.is_some() && accounts.is_some() {
                    let c = Config {
                        categories: categories.unwrap(),
                        accounts: accounts.unwrap(),
                    };
                    let endw = skip_ws_at(&chars, kw2 + 1);
                    if endw == chars.len() {
                        return Some(c);
                    }
                    return None;
                }
                return None;
            } else {
                return None;
            }
        }
    }
}

} // verus!
