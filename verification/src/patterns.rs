//! The handle classifier: maps an account handle to one naming-convention
//! category by trying a fixed list of shapes in priority order and stopping
//! at the first match.

use vstd::prelude::*;
use crate::codec::is_dec_digit;

verus! {

/// The naming-convention categories, in priority order: a handle that fits
/// several shapes is classified by the earliest.
#[derive(Clone, Copy, Debug, PartialEq, Eq, Structural)]
pub enum HandlePattern {
    NameWithNumbers,
    Lowercase,
    PascalCase,
    CamelCase,
    Uppercase,
    Other,
}

/// The position of a category in the priority order.
pub open spec fn pattern_index(p: HandlePattern) -> int {
    match p {
        HandlePattern::NameWithNumbers => 0,
        HandlePattern::Lowercase => 1,
        HandlePattern::PascalCase => 2,
        HandlePattern::CamelCase => 3,
        HandlePattern::Uppercase => 4,
        HandlePattern::Other => 5,
    }
}

pub open spec fn is_lower(c: char) -> bool {
    97 <= (c as u32) <= 122
}

pub open spec fn is_upper(c: char) -> bool {
    65 <= (c as u32) <= 90
}

pub open spec fn all_lower(s: Seq<char>) -> bool {
    forall|m: int| 0 <= m < s.len() ==> is_lower(#[trigger] s[m])
}

pub open spec fn all_upper(s: Seq<char>) -> bool {
    forall|m: int| 0 <= m < s.len() ==> is_upper(#[trigger] s[m])
}

pub open spec fn all_digit(s: Seq<char>) -> bool {
    forall|m: int| 0 <= m < s.len() ==> is_dec_digit(#[trigger] s[m])
}

/// One or more lowercase letters followed by one or more digits, the whole
/// string.
pub open spec fn matches_name_with_numbers(s: Seq<char>) -> bool {
    exists|k: int|
        1 <= k <= s.len() - 1 && all_lower(#[trigger] s.take(k)) && all_digit(s.skip(k))
}

/// One or more lowercase letters, the whole string.
pub open spec fn matches_lowercase(s: Seq<char>) -> bool {
    s.len() >= 1 && all_lower(s)
}

/// Lowercase letters, one uppercase letter, lowercase letters: a single
/// inner hump.
pub open spec fn matches_pascal_case(s: Seq<char>) -> bool {
    exists|k: int|
        1 <= k <= s.len() - 2 && all_lower(#[trigger] s.take(k)) && is_upper(s[k]) && all_lower(
            s.skip(k + 1),
        )
}

/// An uppercase letter, lowercase letters, an uppercase letter, lowercase
/// letters: two capitalized humps.
pub open spec fn matches_camel_case(s: Seq<char>) -> bool {
    s.len() >= 4 && is_upper(s[0]) && exists|k: int|
        2 <= k <= s.len() - 2 && all_lower(#[trigger] s.subrange(1, k)) && is_upper(s[k])
            && all_lower(s.skip(k + 1))
}

/// One or more uppercase letters, the whole string.
pub open spec fn matches_uppercase(s: Seq<char>) -> bool {
    s.len() >= 1 && all_upper(s)
}

/// Whether a handle fits the shape of a category (`Other` fits everything).
pub open spec fn spec_matches(p: HandlePattern, s: Seq<char>) -> bool {
    match p {
        HandlePattern::NameWithNumbers => matches_name_with_numbers(s),
        HandlePattern::Lowercase => matches_lowercase(s),
        HandlePattern::PascalCase => matches_pascal_case(s),
        HandlePattern::CamelCase => matches_camel_case(s),
        HandlePattern::Uppercase => matches_uppercase(s),
        HandlePattern::Other => true,
    }
}

/// The category of a handle: the first matching shape in priority order.
pub open spec fn spec_classify(s: Seq<char>) -> HandlePattern {
    if matches_name_with_numbers(s) {
        HandlePattern::NameWithNumbers
    } else if matches_lowercase(s) {
        HandlePattern::Lowercase
    } else if matches_pascal_case(s) {
        HandlePattern::PascalCase
    } else if matches_camel_case(s) {
        HandlePattern::CamelCase
    } else if matches_uppercase(s) {
        HandlePattern::Uppercase
    } else {
        HandlePattern::Other
    }
}

/// The classifier always returns a matching category, and never a later one
/// than any other match: the priority order is observable.
pub proof fn lemma_classifier_priority(s: Seq<char>, p: HandlePattern)
    requires
        spec_matches(p, s),
    ensures
        pattern_index(spec_classify(s)) <= pattern_index(p),
        spec_matches(spec_classify(s), s),
{
}

/// The first position at or after `from` whose character is not lowercase.
fn scan_lower(v: &Vec<char>, from: usize) -> (r: usize)
    requires
        from <= v@.len(),
    ensures
        from <= r <= v@.len(),
        forall|m: int| from <= m < r ==> is_lower(#[trigger] v@[m]),
        r < v@.len() ==> !is_lower(v@[r as int]),
    decreases v@.len() - from,
{
    let mut r = from;
    loop
        invariant
            from <= r <= v@.len(),
            forall|m: int| from <= m < r ==> is_lower(#[trigger] v@[m]),
        ensures
            from <= r <= v@.len(),
            forall|m: int| from <= m < r ==> is_lower(#[trigger] v@[m]),
            r < v@.len() ==> !is_lower(v@[r as int]),
        decreases v@.len() - r,
    {
        if r >= v.len() {
            break;
        }
        let u = v[r] as u32;
        if !(97 <= u && u <= 122) {
            break;
        }
        r = r + 1;
    }
    r
}

/// The first position at or after `from` whose character is not a digit.
fn scan_digit(v: &Vec<char>, from: usize) -> (r: usize)
    requires
        from <= v@.len(),
    ensures
        from <= r <= v@.len(),
        forall|m: int| from <= m < r ==> is_dec_digit(#[trigger] v@[m]),
        r < v@.len() ==> !is_dec_digit(v@[r as int]),
{
    let mut r = from;
    loop
        invariant
            from <= r <= v@.len(),
            forall|m: int| from <= m < r ==> is_dec_digit(#[trigger] v@[m]),
        ensures
            from <= r <= v@.len(),
            forall|m: int| from <= m < r ==> is_dec_digit(#[trigger] v@[m]),
            r < v@.len() ==> !is_dec_digit(v@[r as int]),
        decreases v@.len() - r,
    {
        if r >= v.len() {
            break;
        }
        let u = v[r] as u32;
        if !(48 <= u && u <= 57) {
            break;
        }
        r = r + 1;
    }
    r
}

/// The first position at or after `from` whose character is not uppercase.
fn scan_upper(v: &Vec<char>, from: usize) -> (r: usize)
    requires
        from <= v@.len(),
    ensures
        from <= r <= v@.len(),
        forall|m: int| from <= m < r ==> is_upper(#[trigger] v@[m]),
        r < v@.len() ==> !is_upper(v@[r as int]),
{
    let mut r = from;
    loop
        invariant
            from <= r <= v@.len(),
            forall|m: int| from <= m < r ==> is_upper(#[trigger] v@[m]),
        ensures
            from <= r <= v@.len(),
            forall|m: int| from <= m < r ==> is_upper(#[trigger] v@[m]),
            r < v@.len() ==> !is_upper(v@[r as int]),
        decreases v@.len() - r,
    {
        if r >= v.len() {
            break;
        }
        let u = v[r] as u32;
        if !(65 <= u && u <= 90) {
            break;
        }
        r = r + 1;
    }
    r
}

fn check_name_with_numbers(v: &Vec<char>) -> (b: bool)
    ensures
        b == matches_name_with_numbers(v@),
{
    let k = scan_lower(v, 0);
    if k == 0 {
        proof {
            assert forall|kk: int| !(1 <= kk <= v@.len() - 1 && all_lower(#[trigger] v@.take(kk))
                && all_digit(v@.skip(kk))) by {
                if 1 <= kk <= v@.len() - 1 && all_lower(v@.take(kk)) {
                    assert(v@.take(kk)[0] == v@[0]);
                    assert(is_lower(v@[0]));
                }
            }
        }
        return false;
    }
    let j = scan_digit(v, k);
    let ok = j == v.len() && j > k;
    proof {
        if ok {
            assert(all_lower(v@.take(k as int))) by {
                assert(forall|m: int| 0 <= m < k ==> v@.take(k as int)[m] == v@[m]);
            }
            assert forall|m: int| 0 <= m < v@.skip(k as int).len() implies is_dec_digit(
                #[trigger] v@.skip(k as int)[m],
            ) by {
                assert(v@.skip(k as int)[m] == v@[m + k]);
            }
            assert(all_digit(v@.skip(k as int)));
            assert(1 <= k <= v@.len() - 1 && all_lower(v@.take(k as int)) && all_digit(
                v@.skip(k as int),
            ));
        } else {
            assert forall|kk: int| !(1 <= kk <= v@.len() - 1 && all_lower(#[trigger] v@.take(kk))
                && all_digit(v@.skip(kk))) by {
                if 1 <= kk <= v@.len() - 1 && all_lower(v@.take(kk)) && all_digit(v@.skip(kk)) {
                    // The split cannot lie past the lowercase run.
                    if kk > k {
                        assert(v@.take(kk)[k as int] == v@[k as int]);
                        assert(is_lower(v@[k as int]));
                        assert(is_dec_digit(v@[k as int]) ==> false);
                        assert(!is_lower(v@[k as int]) || !is_dec_digit(v@[k as int]));
                        assert(k < v@.len());
                        assert(!is_lower(v@[k as int]));
                    } else {
                        // Every character from `kk` on would be a digit.
                        if j < v@.len() {
                            assert(v@.skip(kk)[j - kk] == v@[j as int]);
                            assert(is_dec_digit(v@[j as int]));
                            if j == k {
                                assert(v@.skip(kk)[k - kk] == v@[k as int]);
                            }
                            assert(false);
                        } else {
                            // j == len, so the failure is j == k: no digit at all,
                            // yet position kk..len holds a lowercase character.
                            assert(j == k);
                            assert(kk <= k - 1);
                            assert(v@.skip(kk)[k - 1 - kk] == v@[k - 1]);
                            assert(is_lower(v@[k - 1]) && is_dec_digit(v@[k - 1]));
                            assert(false);
                        }
                    }
                }
            }
        }
    }
    ok
}

fn check_lowercase(v: &Vec<char>) -> (b: bool)
    ensures
        b == matches_lowercase(v@),
{
    let k = scan_lower(v, 0);
    k == v.len() && v.len() > 0
}

fn check_uppercase(v: &Vec<char>) -> (b: bool)
    ensures
        b == matches_uppercase(v@),
{
    let k = scan_upper(v, 0);
    k == v.len() && v.len() > 0
}

fn check_pascal_case(v: &Vec<char>) -> (b: bool)
    ensures
        b == matches_pascal_case(v@),
{
    let k = scan_lower(v, 0);
    if k == 0 || k >= v.len() {
        proof {
            assert forall|kk: int| !(1 <= kk <= v@.len() - 2 && all_lower(#[trigger] v@.take(kk))
                && is_upper(v@[kk]) && all_lower(v@.skip(kk + 1))) by {
                if 1 <= kk <= v@.len() - 2 && all_lower(v@.take(kk)) {
                    assert(v@.take(kk)[0] == v@[0]);
                    assert(is_lower(v@[0]));
                    if kk > k {
                        assert(v@.take(kk)[k as int] == v@[k as int]);
                        assert(is_lower(v@[k as int]));
                    }
                }
            }
        }
        return false;
    }
    let u = v[k] as u32;
    if !(65 <= u && u <= 90) {
        proof {
            assert forall|kk: int| !(1 <= kk <= v@.len() - 2 && all_lower(#[trigger] v@.take(kk))
                && is_upper(v@[kk]) && all_lower(v@.skip(kk + 1))) by {
                if 1 <= kk <= v@.len() - 2 && all_lower(v@.take(kk)) && is_upper(v@[kk]) {
                    if kk > k {
                        assert(v@.take(kk)[k as int] == v@[k as int]);
                        assert(is_lower(v@[k as int]));
                    } else if kk < k {
                        assert(is_lower(v@[kk]));
                    }
                }
            }
        }
        return false;
    }
    let j = scan_lower(v, k + 1);
    let ok = j == v.len() && j > k + 1;
    proof {
        if ok {
            assert(all_lower(v@.take(k as int))) by {
                assert(forall|m: int| 0 <= m < k ==> v@.take(k as int)[m] == v@[m]);
            }
            assert forall|m: int| 0 <= m < v@.skip(k + 1).len() implies is_lower(
                #[trigger] v@.skip(k + 1)[m],
            ) by {
                assert(v@.skip(k + 1)[m] == v@[m + k + 1]);
            }
            assert(all_lower(v@.skip(k + 1)));
            assert(1 <= k <= v@.len() - 2 && all_lower(v@.take(k as int)) && is_upper(
                v@[k as int],
            ) && all_lower(v@.skip(k + 1)));
        } else {
            assert forall|kk: int| !(1 <= kk <= v@.len() - 2 && all_lower(#[trigger] v@.take(kk))
                && is_upper(v@[kk]) && all_lower(v@.skip(kk + 1))) by {
                if 1 <= kk <= v@.len() - 2 && all_lower(v@.take(kk)) && is_upper(v@[kk])
                    && all_lower(v@.skip(kk + 1)) {
                    if kk > k {
                        assert(v@.take(kk)[k as int] == v@[k as int]);
                        assert(is_lower(v@[k as int]));
                    } else if kk < k {
                        assert(is_lower(v@[kk]));
                    } else {
                        // kk == k: the tail past the hump would be all lowercase.
                        if j < v@.len() {
                            assert(v@.skip(kk + 1)[j - kk - 1] == v@[j as int]);
                            assert(is_lower(v@[j as int]));
                            assert(false);
                        } else {
                            assert(j == k + 1);
                            assert(v@.skip(kk + 1).len() >= 1);
                            assert(v@.skip(kk + 1)[0] == v@[kk + 1]);
                            assert(is_lower(v@[k + 1]));
                            assert(false);
                        }
                    }
                }
            }
        }
    }
    ok
}

fn check_camel_case(v: &Vec<char>) -> (b: bool)
    ensures
        b == matches_camel_case(v@),
{
    if v.len() < 4 {
        return false;
    }
    let u0 = v[0] as u32;
    if !(65 <= u0 && u0 <= 90) {
        return false;
    }
    let k = scan_lower(v, 1);
    if k < 2 || k >= v.len() {
        proof {
            assert forall|kk: int| !(2 <= kk <= v@.len() - 2 && all_lower(
                #[trigger] v@.subrange(1, kk),
            ) && is_upper(v@[kk]) && all_lower(v@.skip(kk + 1))) by {
                if 2 <= kk <= v@.len() - 2 && all_lower(v@.subrange(1, kk)) {
                    assert(v@.subrange(1, kk)[0] == v@[1]);
                    assert(is_lower(v@[1]));
                    if kk > k {
                        assert(v@.subrange(1, kk)[k - 1] == v@[k as int]);
                        assert(is_lower(v@[k as int]));
                    }
                }
            }
        }
        return false;
    }
    let u = v[k] as u32;
    if !(65 <= u && u <= 90) {
        proof {
            assert forall|kk: int| !(2 <= kk <= v@.len() - 2 && all_lower(
                #[trigger] v@.subrange(1, kk),
            ) && is_upper(v@[kk]) && all_lower(v@.skip(kk + 1))) by {
                if 2 <= kk <= v@.len() - 2 && all_lower(v@.subrange(1, kk)) && is_upper(v@[kk]) {
                    if kk > k {
                        assert(v@.subrange(1, kk)[k - 1] == v@[k as int]);
                        assert(is_lower(v@[k as int]));
                    } else if kk < k {
                        assert(is_lower(v@[kk]));
                    }
                }
            }
        }
        return false;
    }
    let j = scan_lower(v, k + 1);
    let ok = j == v.len() && j > k + 1;
    proof {
        if ok {
            assert forall|m: int| 0 <= m < v@.subrange(1, k as int).len() implies is_lower(
                #[trigger] v@.subrange(1, k as int)[m],
            ) by {
                assert(v@.subrange(1, k as int)[m] == v@[m + 1]);
            }
            assert(all_lower(v@.subrange(1, k as int)));
            assert forall|m: int| 0 <= m < v@.skip(k + 1).len() implies is_lower(
                #[trigger] v@.skip(k + 1)[m],
            ) by {
                assert(v@.skip(k + 1)[m] == v@[m + k + 1]);
            }
            assert(all_lower(v@.skip(k + 1)));
            assert(2 <= k <= v@.len() - 2 && all_lower(v@.subrange(1, k as int)) && is_upper(
                v@[k as int],
            ) && all_lower(v@.skip(k + 1)));
        } else {
            assert forall|kk: int| !(2 <= kk <= v@.len() - 2 && all_lower(
                #[trigger] v@.subrange(1, kk),
            ) && is_upper(v@[kk]) && all_lower(v@.skip(kk + 1))) by {
                if 2 <= kk <= v@.len() - 2 && all_lower(v@.subrange(1, kk)) && is_upper(v@[kk])
                    && all_lower(v@.skip(kk + 1)) {
                    if kk > k {
                        assert(v@.subrange(1, kk)[k - 1] == v@[k as int]);
                        assert(is_lower(v@[k as int]));
                    } else if kk < k {
                        assert(is_lower(v@[kk]));
                    } else {
                        if j < v@.len() {
                            assert(v@.skip(kk + 1)[j - kk - 1] == v@[j as int]);
                            assert(is_lower(v@[j as int]));
                            assert(false);
                        } else {
                            assert(j == k + 1);
                            assert(v@.skip(kk + 1).len() >= 1);
                            assert(v@.skip(kk + 1)[0] == v@[kk + 1]);
                            assert(is_lower(v@[k + 1]));
                            assert(false);
                        }
                    }
                }
            }
        }
    }
    ok
}

impl HandlePattern {
    /// Classifies a handle: total, and always the earliest matching category.
    pub fn from(handle: &str) -> (p: HandlePattern)
        ensures
            p == spec_classify(handle@),
            spec_matches(p, handle@),
            forall|q: HandlePattern| spec_matches(q, handle@) ==> pattern_index(p) <= pattern_index(q),
    {
        proof {
            lemma_classifier_priority(handle@, spec_classify(handle@));
        }
        let v = crate::text::str_to_chars(handle);
        let r = if check_name_with_numbers(&v) {
            HandlePattern::NameWithNumbers
        } else if check_lowercase(&v) {
            HandlePattern::Lowercase
        } else if check_pascal_case(&v) {
            HandlePattern::PascalCase
        } else if check_camel_case(&v) {
            HandlePattern::CamelCase
        } else if check_uppercase(&v) {
            HandlePattern::Uppercase
        } else {
            HandlePattern::Other
        };
        proof {
            assert forall|q: HandlePattern| spec_matches(q, handle@) implies pattern_index(r)
                <= pattern_index(q) by {
                lemma_classifier_priority(handle@, q);
            }
        }
        r
    }

    /// The category's name, as it stands in stored analysis records.
    pub open spec fn spec_name(self) -> Seq<char> {
        match self {
            HandlePattern::NameWithNumbers => seq![
                'N', 'a', 'm', 'e', 'W', 'i', 't', 'h', 'N', 'u', 'm', 'b', 'e', 'r', 's',
            ],
            HandlePattern::Lowercase => seq!['L', 'o', 'w', 'e', 'r', 'c', 'a', 's', 'e'],
            HandlePattern::PascalCase => seq!['P', 'a', 's', 'c', 'a', 'l', 'C', 'a', 's', 'e'],
            HandlePattern::CamelCase => seq!['C', 'a', 'm', 'e', 'l', 'C', 'a', 's', 'e'],
            HandlePattern::Uppercase => seq!['U', 'p', 'p', 'e', 'r', 'c', 'a', 's', 'e'],
            HandlePattern::Other => seq!['O', 't', 'h', 'e', 'r'],
        }
    }

    /// The category's name in executable code.
    pub fn name(&self) -> (r: &'static str)
        ensures
            r@ == self.spec_name(),
    {
        match self {
            HandlePattern::NameWithNumbers => {
                proof {
                    reveal_strlit("NameWithNumbers");
                    assert("NameWithNumbers"@ =~= self.spec_name());
                }
                "NameWithNumbers"
            },
            HandlePattern::Lowercase => {
                proof {
                    reveal_strlit("Lowercase");
                    assert("Lowercase"@ =~= self.spec_name());
                }
                "Lowercase"
            },
            HandlePattern::PascalCase => {
                proof {
                    reveal_strlit("PascalCase");
                    assert("PascalCase"@ =~= self.spec_name());
                }
                "PascalCase"
            },
            HandlePattern::CamelCase => {
                proof {
                    reveal_strlit("CamelCase");
                    assert("CamelCase"@ =~= self.spec_name());
                }
                "CamelCase"
            },
            HandlePattern::Uppercase => {
                proof {
                    reveal_strlit("Uppercase");
                    assert("Uppercase"@ =~= self.spec_name());
                }
                "Uppercase"
            },
            HandlePattern::Other => {
                proof {
                    reveal_strlit("Other");
                    assert("Other"@ =~= self.spec_name());
                }
                "Other"
            },
        }
    }

    /// The category's position in the priority order, in executable code.
    pub fn index(&self) -> (r: usize)
        ensures
            r == pattern_index(*self),
    {
        match self {
            HandlePattern::NameWithNumbers => 0,
            HandlePattern::Lowercase => 1,
            HandlePattern::PascalCase => 2,
            HandlePattern::CamelCase => 3,
            HandlePattern::Uppercase => 4,
            HandlePattern::Other => 5,
        }
    }
}

} // verus!
