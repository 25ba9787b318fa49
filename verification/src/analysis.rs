//! The aggregation engine: drives every stored capture through the
//! normalizer and the classifier, counts tokens and handle categories, and
//! ranks both deterministically: descending by count, ties broken by
//! ascending key, so that the result does not depend on input order.

use vstd::prelude::*;
use crate::records::{QueryResult, QueryResultView};
use crate::tokenize::{kept_tokens, tokenize};
use crate::text::{lex_lt, str_lex_lt, lemma_lex_total, lemma_lex_asymmetric, lemma_lex_transitive, append_str};
use crate::patterns::{HandlePattern, pattern_index, spec_classify};
use crate::time::Timestamp;

verus! {

// ---------------------------------------------------------------------------
// The token stream of a capture set
// ---------------------------------------------------------------------------

/// The normalized, kept tokens of the first `n` posts of one capture.
pub open spec fn tweet_tokens_up_to(
    ts: Seq<crate::records::TweetView>,
    ig: Seq<Seq<char>>,
    n: int,
) -> Seq<Seq<char>>
    decreases n,
{
    if n <= 0 {
        Seq::empty()
    } else {
        tweet_tokens_up_to(ts, ig, n - 1) + kept_tokens(ts[n - 1].text, ig)
    }
}

/// The normalized, kept tokens of the first `n` captures.
pub open spec fn tokens_up_to(qs: Seq<QueryResultView>, ig: Seq<Seq<char>>, n: int) -> Seq<
    Seq<char>,
>
    decreases n,
{
    if n <= 0 {
        Seq::empty()
    } else {
        tokens_up_to(qs, ig, n - 1) + tweet_tokens_up_to(
            qs[n - 1].tweets,
            ig,
            qs[n - 1].tweets.len() as int,
        )
    }
}

/// Every normalized, kept token of a capture set, in reading order.
pub open spec fn all_tokens(qs: Seq<QueryResultView>, ig: Seq<Seq<char>>) -> Seq<Seq<char>> {
    tokens_up_to(qs, ig, qs.len() as int)
}

/// How often a token occurs across a capture set.
pub open spec fn token_count(qs: Seq<QueryResultView>, ig: Seq<Seq<char>>, tok: Seq<char>) -> nat {
    all_tokens(qs, ig).to_multiset().count(tok)
}

/// Collects every kept token of every post of every capture, in order.
fn collect_tokens(query_results: &Vec<QueryResult>, ignored: &Vec<String>) -> (r: Vec<String>)
    ensures
        r@.map_values(|s: String| s@) == all_tokens(
            query_results@.map_values(|q: QueryResult| q@),
            ignored@.map_values(|s: String| s@),
        ),
{
    let ghost qs = query_results@.map_values(|q: QueryResult| q@);
    let ghost ig = ignored@.map_values(|s: String| s@);
    let mut out: Vec<String> = Vec::new();
    let mut ci: usize = 0;
    proof {
        assert(out@.map_values(|s: String| s@) =~= tokens_up_to(qs, ig, 0));
    }
    while ci < query_results.len()
        invariant
            qs == query_results@.map_values(|q: QueryResult| q@),
            ig == ignored@.map_values(|s: String| s@),
            ci <= query_results@.len(),
            out@.map_values(|s: String| s@) == tokens_up_to(qs, ig, ci as int),
        decreases query_results@.len() - ci,
    {
        let q = &query_results[ci];
        let ghost tvs = qs[ci as int].tweets;
        let mut ti: usize = 0;
        proof {
            assert(out@.map_values(|s: String| s@) + tweet_tokens_up_to(tvs, ig, 0)
                =~= out@.map_values(|s: String| s@));
        }
        let ghost outer = out@.map_values(|s: String| s@);
        while ti < q.tweets.len()
            invariant
                qs == query_results@.map_values(|q2: QueryResult| q2@),
                ig == ignored@.map_values(|s: String| s@),
                ci < query_results@.len(),
                tvs == qs[ci as int].tweets,
                q == query_results@[ci as int],
                q.tweets@.len() == tvs.len(),
                forall|k: int| 0 <= k < tvs.len() ==> (#[trigger] q.tweets@[k])@ == tvs[k],
                ti <= q.tweets@.len(),
                outer == tokens_up_to(qs, ig, ci as int),
                out@.map_values(|s: String| s@) == outer + tweet_tokens_up_to(
                    tvs,
                    ig,
                    ti as int,
                ),
            decreases q.tweets@.len() - ti,
        {
            let toks = tokenize(q.tweets[ti].text.as_str(), ignored);
            let ghost before = out@.map_values(|s: String| s@);
            let mut w: usize = 0;
            while w < toks.len()
                invariant
                    0 <= w <= toks@.len(),
                    out@.map_values(|s: String| s@) == before + toks@.map_values(
                        |s: String| s@,
                    ).take(w as int),
                decreases toks@.len() - w,
            {
                let ghost prev = out@.map_values(|s: String| s@);
                let t = toks[w].clone();
                proof {
                    assert(t@ == toks@.map_values(|s: String| s@)[w as int]);
                }
                out.push(t);
                proof {
                    assert(out@.map_values(|s: String| s@) =~= prev.push(
                        toks@.map_values(|s: String| s@)[w as int],
                    ));
                    assert(before + toks@.map_values(|s: String| s@).take(w as int).push(
                        toks@.map_values(|s: String| s@)[w as int],
                    ) =~= before + toks@.map_values(|s: String| s@).take(w + 1));
                }
                w = w + 1;
            }
            proof {
                assert(toks@.map_values(|s: String| s@).take(toks@.len() as int)
                    =~= toks@.map_values(|s: String| s@));
                assert(q.tweets@[ti as int]@.text == tvs[ti as int].text);
                assert(out@.map_values(|s: String| s@) =~= outer + tweet_tokens_up_to(
                    tvs,
                    ig,
                    ti + 1,
                ));
            }
            ti = ti + 1;
        }
        proof {
            assert(out@.map_values(|s: String| s@) =~= tokens_up_to(qs, ig, ci + 1));
        }
        ci = ci + 1;
    }
    proof {
        assert(tokens_up_to(qs, ig, qs.len() as int) == tokens_up_to(
            qs,
            ig,
            query_results@.len() as int,
        ));
    }
    out
}

// ---------------------------------------------------------------------------
// Counting
// ---------------------------------------------------------------------------

/// Whether `pairs` is exactly the frequency table of `items`: distinct
/// keys, a correct positive count for each key, and a key for every item
/// seen.
pub open spec fn is_count_table<K>(pairs: Seq<(K, usize)>, items: Seq<K>) -> bool {
    &&& forall|m: int, n: int|
        0 <= m < n < pairs.len() ==> (#[trigger] pairs[m]).0 != (#[trigger] pairs[n]).0
    &&& forall|m: int|
        0 <= m < pairs.len() ==> (#[trigger] pairs[m]).1 == items.to_multiset().count(pairs[m].0)
            && pairs[m].1 >= 1
    &&& forall|it: K|
        #[trigger] items.to_multiset().count(it) > 0 ==> exists|m: int|
            0 <= m < pairs.len() && (#[trigger] pairs[m]).0 == it
}

/// Finds the position of a key in the table.
fn find_key(pairs: &Vec<(String, usize)>, key: &String) -> (r: Option<usize>)
    ensures
        r matches Some(m) ==> m < pairs@.len() && pairs@[m as int].0@ == key@,
        r is None ==> forall|m: int| 0 <= m < pairs@.len() ==> (#[trigger] pairs@[m]).0@ != key@,
{
    let mut m: usize = 0;
    while m < pairs.len()
        invariant
            m <= pairs@.len(),
            forall|k: int| 0 <= k < m ==> (#[trigger] pairs@[k]).0@ != key@,
        decreases pairs@.len() - m,
    {
        let hit = pairs[m].0.eq(key);
        if hit {
            return Some(m);
        }
        m = m + 1;
    }
    None
}

/// Builds the frequency table of a token list: insert-if-absent, then
/// increment.
fn count_tokens(tokens: &Vec<String>) -> (r: Vec<(String, usize)>)
    ensures
        is_count_table(
            r@.map_values(|p: (String, usize)| word_pair_view(p)),
            tokens@.map_values(|s: String| s@),
        ),
{
    broadcast use vstd::seq_lib::group_to_multiset_ensures;
    broadcast use vstd::multiset::group_multiset_axioms;

    let ghost toks = tokens@.map_values(|s: String| s@);
    let mut pairs: Vec<(String, usize)> = Vec::new();
    let mut j: usize = 0;
    proof {
        assert(toks.take(0) =~= Seq::<Seq<char>>::empty());
        assert(toks.take(0).to_multiset() =~= vstd::multiset::Multiset::<Seq<char>>::empty());
    }
    while j < tokens.len()
        invariant
            toks == tokens@.map_values(|s: String| s@),
            j <= tokens@.len(),
            is_count_table(pairs@.map_values(|p: (String, usize)| word_pair_view(p)), toks.take(j as int)),
        decreases tokens@.len() - j,
    {
        let ghost pv = pairs@.map_values(|p: (String, usize)| word_pair_view(p));
        let ghost seen = toks.take(j as int);
        let tok = &tokens[j];
        proof {
            seen.to_multiset_ensures();
            assert(toks.take(j + 1) =~= seen.push(toks[j as int]));
            assert(seen.push(toks[j as int]).to_multiset() =~= seen.to_multiset().insert(
                toks[j as int],
            ));
            assert(toks.take(j + 1).to_multiset() == seen.to_multiset().insert(toks[j as int]));
            assert(tok@ == toks[j as int]);
        }
        let found = find_key(&pairs, tok);
        if found.is_some() {
            let m = found.unwrap();
            proof {
                seen.to_multiset_ensures();
                assert(pv[m as int].1 == seen.to_multiset().count(pv[m as int].0));
                assert(seen.to_multiset().count(pv[m as int].0) <= seen.to_multiset().len());
                assert(seen.to_multiset().len() == seen.len());
                assert(pv[m as int].1 <= j);
            }
            let pair = pairs.remove(m);
            let ghost removed = pairs@.map_values(|p: (String, usize)| word_pair_view(p));
            pairs.push((pair.0, pair.1 + 1));
            proof {
                let npv = pairs@.map_values(|p: (String, usize)| word_pair_view(p));
                assert(removed =~= pv.remove(m as int));
                assert(npv =~= pv.remove(m as int).push((pv[m as int].0, (pv[m as int].1 + 1) as usize)));
                lemma_table_increment(pv, npv, seen, m as int, toks[j as int]);
            }
        } else {
            let ghost prev = pairs@.map_values(|p: (String, usize)| word_pair_view(p));
            pairs.push((tok.clone(), 1));
            proof {
                let npv = pairs@.map_values(|p: (String, usize)| word_pair_view(p));
                assert(npv =~= prev.push((toks[j as int], 1usize)));
                lemma_table_new_key(prev, npv, seen, toks[j as int]);
            }
        }
        j = j + 1;
    }
    proof {
        assert(toks.take(toks.len() as int) =~= toks);
    }
    pairs
}

/// Incrementing the found entry keeps the table exact for one more item.
proof fn lemma_table_increment<K>(
    pv: Seq<(K, usize)>,
    npv: Seq<(K, usize)>,
    seen: Seq<K>,
    m: int,
    tok: K,
)
    requires
        is_count_table(pv, seen),
        0 <= m < pv.len(),
        pv[m].0 == tok,
        pv[m].1 < usize::MAX,
        npv == pv.remove(m).push((pv[m].0, (pv[m].1 + 1) as usize)),
    ensures
        is_count_table(npv, seen.push(tok)),
{
    broadcast use vstd::seq_lib::group_to_multiset_ensures;
    broadcast use vstd::multiset::group_multiset_axioms;

    let ns = seen.push(tok);
    assert(ns.to_multiset() == seen.to_multiset().insert(tok));
    assert(npv.len() == pv.len());
    // Each new entry is an old entry, possibly shifted, or the incremented one.
    assert forall|k: int| 0 <= k < npv.len() implies (#[trigger] npv[k]) == (if k < m {
        pv[k]
    } else if k < npv.len() - 1 {
        pv[k + 1]
    } else {
        (pv[m].0, (pv[m].1 + 1) as usize)
    }) by {
        if k < npv.len() - 1 {
            assert(npv[k] == pv.remove(m)[k]);
        }
    }
    assert forall|k: int|
        0 <= k < npv.len() implies (#[trigger] npv[k]).1 == ns.to_multiset().count(npv[k].0)
            && npv[k].1 >= 1 by {
        if k == npv.len() - 1 {
            assert(npv[k].0 == tok);
            assert(ns.to_multiset().count(tok) == seen.to_multiset().count(tok) + 1);
        } else {
            let o = if k < m {
                k
            } else {
                k + 1
            };
            assert(npv[k] == pv[o]);
            assert(pv[o].0 != tok) by {
                if o < m {
                    assert(pv[o].0 != pv[m].0);
                } else {
                    assert(pv[m].0 != pv[o].0);
                }
            }
            assert(ns.to_multiset().count(pv[o].0) == seen.to_multiset().count(pv[o].0));
        }
    }
    assert forall|a: int, b: int|
        0 <= a < b < npv.len() implies (#[trigger] npv[a]).0 != (#[trigger] npv[b]).0 by {
        let oa = if a < m {
            a
        } else if a < npv.len() - 1 {
            a + 1
        } else {
            m
        };
        let ob = if b < m {
            b
        } else if b < npv.len() - 1 {
            b + 1
        } else {
            m
        };
        assert(npv[a].0 == pv[oa].0 && npv[b].0 == pv[ob].0);
        assert(oa != ob);
        if oa < ob {
            assert(pv[oa].0 != pv[ob].0);
        } else {
            assert(pv[ob].0 != pv[oa].0);
        }
    }
    assert forall|t2: K| #[trigger] ns.to_multiset().count(t2) > 0 implies exists|k: int|
        0 <= k < npv.len() && (#[trigger] npv[k]).0 == t2 by {
        if t2 == tok {
            assert(npv[npv.len() - 1].0 == tok);
        } else {
            assert(ns.to_multiset().count(t2) == seen.to_multiset().count(t2));
            let k0 = choose|k0: int| 0 <= k0 < pv.len() && (#[trigger] pv[k0]).0 == t2;
            if k0 < m {
                assert(npv[k0].0 == t2);
            } else if k0 == m {
                assert(npv[npv.len() - 1].0 == t2);
            } else {
                assert(npv[k0 - 1] == pv[k0]);
            }
        }
    }
}

/// Adding a first entry for an unseen item keeps the table exact.
proof fn lemma_table_new_key<K>(
    pv: Seq<(K, usize)>,
    npv: Seq<(K, usize)>,
    seen: Seq<K>,
    tok: K,
)
    requires
        is_count_table(pv, seen),
        forall|m: int| 0 <= m < pv.len() ==> (#[trigger] pv[m]).0 != tok,
        npv == pv.push((tok, 1usize)),
    ensures
        is_count_table(npv, seen.push(tok)),
{
    broadcast use vstd::seq_lib::group_to_multiset_ensures;
    broadcast use vstd::multiset::group_multiset_axioms;

    let ns = seen.push(tok);
    assert(ns.to_multiset() == seen.to_multiset().insert(tok));
    assert(seen.to_multiset().count(tok) == 0) by {
        if seen.to_multiset().count(tok) > 0 {
            let k0 = choose|k0: int| 0 <= k0 < pv.len() && (#[trigger] pv[k0]).0 == tok;
        }
    }
    assert forall|k: int|
        0 <= k < npv.len() implies (#[trigger] npv[k]).1 == ns.to_multiset().count(npv[k].0)
            && npv[k].1 >= 1 by {
        if k == npv.len() - 1 {
            assert(npv[k].0 == tok);
            assert(ns.to_multiset().count(tok) == 1);
        } else {
            assert(npv[k] == pv[k]);
            assert(pv[k].0 != tok);
            assert(ns.to_multiset().count(pv[k].0) == seen.to_multiset().count(pv[k].0));
        }
    }
    assert forall|t2: K| #[trigger] ns.to_multiset().count(t2) > 0 implies exists|k: int|
        0 <= k < npv.len() && (#[trigger] npv[k]).0 == t2 by {
        if t2 == tok {
            assert(npv[npv.len() - 1].0 == tok);
        } else {
            assert(ns.to_multiset().count(t2) == seen.to_multiset().count(t2));
            let k0 = choose|k0: int| 0 <= k0 < pv.len() && (#[trigger] pv[k0]).0 == t2;
            assert(npv[k0].0 == t2);
        }
    }
}


// ---------------------------------------------------------------------------
// Ranking
// ---------------------------------------------------------------------------

/// The ranking order on (token, count): the greater count first; on equal
/// counts the lexically smaller token first.
pub open spec fn word_ranked_before(a: (Seq<char>, usize), b: (Seq<char>, usize)) -> bool {
    a.1 > b.1 || (a.1 == b.1 && lex_lt(a.0, b.0))
}

/// Strictly sorted in the ranking order.
pub open spec fn word_ranking_sorted(r: Seq<(Seq<char>, usize)>) -> bool {
    forall|m: int, n: int| 0 <= m < n < r.len() ==> word_ranked_before(#[trigger] r[m], #[trigger] r[n])
}

/// The whole contract of the ranked word frequency of a capture set: it is
/// the frequency table of every kept token, strictly sorted in the ranking
/// order.
pub open spec fn is_word_ranking(
    r: Seq<(Seq<char>, usize)>,
    qs: Seq<QueryResultView>,
    ig: Seq<Seq<char>>,
) -> bool {
    &&& word_ranking_sorted(r)
    &&& is_count_table(r, all_tokens(qs, ig))
}

/// Two pairs with different keys are ordered one way or the other.
proof fn lemma_word_order_total(a: (Seq<char>, usize), b: (Seq<char>, usize))
    requires
        a.0 != b.0,
    ensures
        word_ranked_before(a, b) || word_ranked_before(b, a),
{
    if a.1 == b.1 {
        lemma_lex_total(a.0, b.0);
    }
}

proof fn lemma_word_order_asym(a: (Seq<char>, usize), b: (Seq<char>, usize))
    ensures
        !(word_ranked_before(a, b) && word_ranked_before(b, a)),
        !word_ranked_before(a, a),
{
    lemma_lex_asymmetric(a.0, b.0);
    lemma_lex_asymmetric(a.0, a.0);
}

proof fn lemma_word_order_trans(a: (Seq<char>, usize), b: (Seq<char>, usize), c: (Seq<char>, usize))
    requires
        word_ranked_before(a, b),
        word_ranked_before(b, c),
    ensures
        word_ranked_before(a, c),
{
    if a.1 == b.1 && b.1 == c.1 {
        lemma_lex_transitive(a.0, b.0, c.0);
    }
}

/// Compares two entries in the ranking order.
fn word_before(a: &(String, usize), b: &(String, usize)) -> (r: bool)
    ensures
        r == word_ranked_before((a.0@, a.1), (b.0@, b.1)),
{
    if a.1 > b.1 {
        true
    } else if a.1 == b.1 {
        str_lex_lt(a.0.as_str(), b.0.as_str())
    } else {
        false
    }
}

/// The view of a word-count entry.
pub open spec fn word_pair_view(p: (String, usize)) -> (Seq<char>, usize) {
    (p.0@, p.1)
}

/// No two entries share a key.
pub open spec fn distinct_keys<K>(s: Seq<(K, usize)>) -> bool {
    forall|m: int, n: int| 0 <= m < n < s.len() ==> (#[trigger] s[m]).0 != (#[trigger] s[n]).0
}

/// Sorts the frequency table in the ranking order by insertion, keeping the
/// multiset of entries.
fn sort_word_pairs(input: Vec<(String, usize)>) -> (r: Vec<(String, usize)>)
    requires
        distinct_keys(input@.map_values(|p: (String, usize)| word_pair_view(p))),
    ensures
        word_ranking_sorted(r@.map_values(|p: (String, usize)| word_pair_view(p))),
        r@.map_values(|p: (String, usize)| word_pair_view(p)).to_multiset() == input@.map_values(
            |p: (String, usize)| word_pair_view(p),
        ).to_multiset(),
{
    broadcast use vstd::seq_lib::group_to_multiset_ensures;
    broadcast use vstd::multiset::group_multiset_axioms;

    let ghost iv = input@.map_values(|p: (String, usize)| word_pair_view(p));
    let mut src = input;
    let mut out: Vec<(String, usize)> = Vec::new();
    proof {
        let sv = src@.map_values(|p: (String, usize)| word_pair_view(p));
        let ov = out@.map_values(|p: (String, usize)| word_pair_view(p));
        assert(ov =~= Seq::<(Seq<char>, usize)>::empty());
        assert(sv + ov =~= sv);
        vstd::seq_lib::lemma_multiset_commutative(sv, ov);
    }
    loop
        invariant
            iv == input@.map_values(|p: (String, usize)| word_pair_view(p)),
            word_ranking_sorted(out@.map_values(|p: (String, usize)| word_pair_view(p))),
            distinct_keys(src@.map_values(|p: (String, usize)| word_pair_view(p))),
            distinct_keys(out@.map_values(|p: (String, usize)| word_pair_view(p))),
            forall|a: int, b: int|
                0 <= a < src@.len() && 0 <= b < out@.len() ==> word_pair_view(
                    #[trigger] src@[a],
                ).0 != word_pair_view(#[trigger] out@[b]).0,
            (src@.map_values(|p: (String, usize)| word_pair_view(p)) + out@.map_values(
                |p: (String, usize)| word_pair_view(p),
            )).to_multiset() == iv.to_multiset(),
        ensures
            src@.len() == 0,
            word_ranking_sorted(out@.map_values(|p: (String, usize)| word_pair_view(p))),
            (src@.map_values(|p: (String, usize)| word_pair_view(p)) + out@.map_values(
                |p: (String, usize)| word_pair_view(p),
            )).to_multiset() == iv.to_multiset(),
        decreases src@.len(),
    {
        if src.len() == 0 {
            break;
        }
        let ghost sv0 = src@.map_values(|p: (String, usize)| word_pair_view(p));
        let ghost ov0 = out@.map_values(|p: (String, usize)| word_pair_view(p));
        proof {
            // The last source entry's key differs from every key in both
            // vectors; read this off the invariants before popping.
            assert forall|b: int| 0 <= b < ov0.len() implies sv0[sv0.len() - 1].0 != (
            #[trigger] ov0[b]).0 by {
                assert(word_pair_view(src@[src@.len() - 1]).0 != word_pair_view(out@[b]).0);
                assert(ov0[b] == word_pair_view(out@[b]));
                assert(sv0[sv0.len() - 1] == word_pair_view(src@[src@.len() - 1]));
            }
        }
        let x = src.pop().unwrap();
        let ghost xv = word_pair_view(x);
        proof {
            let sv = src@.map_values(|p: (String, usize)| word_pair_view(p));
            assert(sv =~= sv0.drop_last());
            assert(sv0 =~= sv.push(xv));
            vstd::seq_lib::lemma_multiset_commutative(sv0, ov0);
            vstd::seq_lib::lemma_multiset_commutative(sv, ov0);
            sv.to_multiset_ensures();
            assert(sv.push(xv).to_multiset() =~= sv.to_multiset().insert(xv));
            assert(sv0.to_multiset() =~= sv.to_multiset().insert(xv));
            assert(forall|k: int| 0 <= k < sv.len() ==> (#[trigger] sv[k]) == sv0[k]);
            assert(xv == sv0[sv0.len() - 1]);
            assert forall|b: int| 0 <= b < out@.len() implies xv.0 != word_pair_view(
                #[trigger] out@[b],
            ).0 by {
                assert(ov0[b] == word_pair_view(out@[b]));
            }
            assert forall|k: int| 0 <= k < sv.len() implies (#[trigger] sv[k]).0 != xv.0 by {
                assert(sv0[k].0 != sv0[sv0.len() - 1].0);
            }
            assert forall|a: int, b: int|
                0 <= a < src@.len() && 0 <= b < out@.len() implies word_pair_view(
                #[trigger] src@[a],
            ).0 != word_pair_view(#[trigger] out@[b]).0 by {
                assert(sv[a] == word_pair_view(src@[a]));
                assert(ov0[b] == word_pair_view(out@[b]));
                assert(sv0[a].0 != ov0[b].0);
            }
        }
        // Find the insertion point: the first entry the new one precedes.
        let mut p: usize = 0;
        loop
            invariant
                p <= out@.len(),
                forall|k: int|
                    0 <= k < p ==> word_ranked_before(word_pair_view(#[trigger] out@[k]), xv),
                xv == word_pair_view(x),
                word_ranking_sorted(out@.map_values(|q: (String, usize)| word_pair_view(q))),
                forall|b: int| 0 <= b < out@.len() ==> xv.0 != word_pair_view(#[trigger] out@[b]).0,
            ensures
                p <= out@.len(),
                forall|k: int|
                    0 <= k < p ==> word_ranked_before(word_pair_view(#[trigger] out@[k]), xv),
                p < out@.len() ==> word_ranked_before(xv, word_pair_view(out@[p as int])),
            decreases out@.len() - p,
        {
            if p >= out.len() {
                break;
            }
            let goes_before = word_before(&x, &out[p]);
            if goes_before {
                break;
            }
            // The keys differ, so the existing entry precedes the new one.
            proof {
                let ov2 = out@.map_values(|q: (String, usize)| word_pair_view(q));
                assert(xv.0 != ov2[p as int].0);
                lemma_word_order_total(ov2[p as int], xv);
            }
            p = p + 1;
        }
        let ghost ov = out@.map_values(|q: (String, usize)| word_pair_view(q));
        let ghost pp = p as int;
        out.insert(p, x);
        proof {
            let nov = out@.map_values(|q: (String, usize)| word_pair_view(q));
            assert(nov =~= ov.insert(pp, xv));
            assert(nov =~= ov.take(pp) + seq![xv] + ov.skip(pp));
            // Sortedness after insertion.
            assert forall|m: int, n: int|
                0 <= m < n < nov.len() implies word_ranked_before(
                #[trigger] nov[m],
                #[trigger] nov[n],
            ) by {
                let om = if m < pp {
                    m
                } else {
                    m - 1
                };
                let on = if n < pp {
                    n
                } else {
                    n - 1
                };
                if m == pp {
                    // nov[m] is the new entry; n > pp.
                    assert(nov[n] == ov[on]);
                    if on == pp {
                        assert(word_ranked_before(xv, ov[pp]));
                    } else {
                        lemma_word_order_trans(xv, ov[pp], ov[on]);
                    }
                } else if n == pp {
                    assert(nov[m] == ov[om]);
                    assert(word_ranked_before(ov[om], xv));
                } else {
                    assert(nov[m] == ov[om] && nov[n] == ov[on]);
                    if om < on {
                        assert(word_ranked_before(ov[om], ov[on]));
                    } else {
                        assert(om == on);
                        if m < pp {
                            assert(word_ranked_before(ov[om], xv));
                            assert(n > pp);
                            assert(word_ranked_before(xv, ov[on]) || on == pp);
                        }
                        assert(false);
                    }
                }
            }
            // The multiset is preserved.
            let sv = src@.map_values(|q: (String, usize)| word_pair_view(q));
            vstd::seq_lib::lemma_multiset_commutative(ov.take(pp) + seq![xv], ov.skip(pp));
            vstd::seq_lib::lemma_multiset_commutative(ov.take(pp), seq![xv]);
            vstd::seq_lib::lemma_multiset_commutative(ov.take(pp), ov.skip(pp));
            assert(ov.take(pp) + ov.skip(pp) =~= ov);
            ov.to_multiset_ensures();
            nov.to_multiset_ensures();
            assert(nov.to_multiset() =~= ov.to_multiset().add(seq![xv].to_multiset()));
            assert(seq![xv].to_multiset() =~= vstd::multiset::Multiset::<(Seq<char>, usize)>::empty().insert(xv)) by {
                let e = Seq::<(Seq<char>, usize)>::empty();
                e.to_multiset_ensures();
                assert(e.to_multiset().len() == 0);
                assert forall|y: (Seq<char>, usize)| e.to_multiset().count(y) == 0 by {
                    vstd::multiset::axiom_count_le_len(e.to_multiset(), y);
                }
                assert(e.to_multiset() =~= vstd::multiset::Multiset::<(Seq<char>, usize)>::empty());
                assert(seq![xv] =~= e.push(xv));
                assert(e.push(xv).to_multiset() =~= e.to_multiset().insert(xv));
            }
            assert(nov.to_multiset() =~= ov.to_multiset().insert(xv));
            vstd::seq_lib::lemma_multiset_commutative(sv, nov);
            vstd::seq_lib::lemma_multiset_commutative(sv, ov);
            assert((sv + nov).to_multiset() =~= iv.to_multiset());
            // Keys stay distinct after the insertion.
            assert forall|m: int, n: int|
                0 <= m < n < nov.len() implies (#[trigger] nov[m]).0 != (#[trigger] nov[n]).0 by {
                let om = if m < pp {
                    m
                } else {
                    m - 1
                };
                let on = if n < pp {
                    n
                } else {
                    n - 1
                };
                if m == pp {
                    assert(nov[m] == xv && nov[n] == ov[on]);
                } else if n == pp {
                    assert(nov[n] == xv && nov[m] == ov[om]);
                } else {
                    assert(nov[m] == ov[om] && nov[n] == ov[on]);
                    assert(om < on);
                }
            }
            assert forall|a: int, b: int|
                0 <= a < sv.len() && 0 <= b < nov.len() implies (#[trigger] sv[a]).0 != (
            #[trigger] nov[b]).0 by {
                if b == pp {
                    assert(nov[b] == xv);
                } else {
                    let ob = if b < pp {
                        b
                    } else {
                        b - 1
                    };
                    assert(nov[b] == ov[ob]);
                }
            }
            assert forall|a: int, b: int|
                0 <= a < src@.len() && 0 <= b < out@.len() implies word_pair_view(
                #[trigger] src@[a],
            ).0 != word_pair_view(#[trigger] out@[b]).0 by {
                assert(sv[a] == word_pair_view(src@[a]));
                assert(nov[b] == word_pair_view(out@[b]));
                assert(sv[a].0 != nov[b].0);
            }
        }
    }
    proof {
        let sv = src@.map_values(|p2: (String, usize)| word_pair_view(p2));
        let ov = out@.map_values(|p2: (String, usize)| word_pair_view(p2));
        assert(sv =~= Seq::<(Seq<char>, usize)>::empty());
        assert(sv + ov =~= ov);
    }
    out
}


/// A permutation of an exact frequency table is still one.
proof fn lemma_table_permutation<K>(a: Seq<(K, usize)>, b: Seq<(K, usize)>, items: Seq<K>)
    requires
        is_count_table(a, items),
        b.to_multiset() == a.to_multiset(),
    ensures
        is_count_table(b, items),
{
    broadcast use vstd::seq_lib::group_to_multiset_ensures;
    broadcast use vstd::multiset::group_multiset_axioms;

    a.to_multiset_ensures();
    b.to_multiset_ensures();
    assert forall|m: int| 0 <= m < b.len() implies (#[trigger] b[m]).1 == items.to_multiset().count(
        b[m].0,
    ) && b[m].1 >= 1 by {
        assert(b.contains(b[m]));
        assert(b.to_multiset().count(b[m]) > 0);
        assert(a.to_multiset().count(b[m]) > 0);
        assert(a.contains(b[m]));
        let n = choose|n: int| 0 <= n < a.len() && a[n] == b[m];
        assert(a[n].1 == items.to_multiset().count(a[n].0));
    }
    assert forall|it: K| #[trigger] items.to_multiset().count(it) > 0 implies exists|m: int|
        0 <= m < b.len() && (#[trigger] b[m]).0 == it by {
        let n = choose|n: int| 0 <= n < a.len() && (#[trigger] a[n]).0 == it;
        assert(a.contains(a[n]));
        assert(a.to_multiset().count(a[n]) > 0);
        assert(b.to_multiset().count(a[n]) > 0);
        assert(b.contains(a[n]));
        let m = choose|m: int| 0 <= m < b.len() && b[m] == a[n];
        assert(b[m].0 == it);
    }
    assert(a.no_duplicates()) by {
        assert forall|i: int, j: int|
            0 <= i < a.len() && 0 <= j < a.len() && i != j implies a[i] != a[j] by {
            if i < j {
                assert(a[i].0 != a[j].0);
            } else {
                assert(a[j].0 != a[i].0);
            }
        }
    }
    a.lemma_multiset_has_no_duplicates();
    b.lemma_multiset_has_no_duplicates_conv();
    assert forall|m: int, n: int|
        0 <= m < n < b.len() implies (#[trigger] b[m]).0 != (#[trigger] b[n]).0 by {
        if b[m].0 == b[n].0 {
            assert(b[m].1 == items.to_multiset().count(b[m].0));
            assert(b[n].1 == items.to_multiset().count(b[n].0));
            assert(b[m] == b[n]);
            assert(b.no_duplicates());
        }
    }
}

/// The ranked word frequency of a capture set: every kept token of every
/// post counted, sorted by descending count with ties in ascending lexical
/// order.
pub fn get_most_common_words(query_results: &Vec<QueryResult>, ignored_words: &Vec<String>) -> (r:
    Vec<(String, usize)>)
    ensures
        is_word_ranking(
            r@.map_values(|p: (String, usize)| word_pair_view(p)),
            query_results@.map_values(|q: QueryResult| q@),
            ignored_words@.map_values(|s: String| s@),
        ),
{
    let tokens = collect_tokens(query_results, ignored_words);
    let table = count_tokens(&tokens);
    proof {
        assert(distinct_keys(table@.map_values(|p: (String, usize)| word_pair_view(p))));
    }
    let sorted = sort_word_pairs(table);
    proof {
        let qs = query_results@.map_values(|q: QueryResult| q@);
        let ig = ignored_words@.map_values(|s: String| s@);
        lemma_table_permutation(
            table@.map_values(|p: (String, usize)| word_pair_view(p)),
            sorted@.map_values(|p: (String, usize)| word_pair_view(p)),
            all_tokens(qs, ig),
        );
    }
    sorted
}

// ---------------------------------------------------------------------------
// Handle categories
// ---------------------------------------------------------------------------

/// The categories of the handles of the first `n` posts of one capture.
pub open spec fn tweet_cats_up_to(ts: Seq<crate::records::TweetView>, n: int) -> Seq<HandlePattern>
    decreases n,
{
    if n <= 0 {
        Seq::empty()
    } else {
        tweet_cats_up_to(ts, n - 1) + seq![spec_classify(ts[n - 1].handle)]
    }
}

/// The categories of the handles of the first `n` captures.
pub open spec fn cats_up_to(qs: Seq<QueryResultView>, n: int) -> Seq<HandlePattern>
    decreases n,
{
    if n <= 0 {
        Seq::empty()
    } else {
        cats_up_to(qs, n - 1) + tweet_cats_up_to(qs[n - 1].tweets, qs[n - 1].tweets.len() as int)
    }
}

/// The category of every post's handle across a capture set, in order.
pub open spec fn all_cats(qs: Seq<QueryResultView>) -> Seq<HandlePattern> {
    cats_up_to(qs, qs.len() as int)
}

/// How often a category occurs across a capture set.
pub open spec fn pattern_count(qs: Seq<QueryResultView>, c: HandlePattern) -> nat {
    all_cats(qs).to_multiset().count(c)
}

/// Classifies every post's handle, in order.
fn collect_cats(query_results: &Vec<QueryResult>) -> (r: Vec<HandlePattern>)
    ensures
        r@ == all_cats(query_results@.map_values(|q: QueryResult| q@)),
{
    let ghost qs = query_results@.map_values(|q: QueryResult| q@);
    let mut out: Vec<HandlePattern> = Vec::new();
    let mut ci: usize = 0;
    proof {
        assert(out@ =~= cats_up_to(qs, 0));
    }
    while ci < query_results.len()
        invariant
            qs == query_results@.map_values(|q: QueryResult| q@),
            ci <= query_results@.len(),
            out@ == cats_up_to(qs, ci as int),
        decreases query_results@.len() - ci,
    {
        let q = &query_results[ci];
        let ghost tvs = qs[ci as int].tweets;
        let mut ti: usize = 0;
        let ghost outer = out@;
        proof {
            assert(out@ =~= outer + tweet_cats_up_to(tvs, 0));
        }
        while ti < q.tweets.len()
            invariant
                qs == query_results@.map_values(|q2: QueryResult| q2@),
                ci < query_results@.len(),
                tvs == qs[ci as int].tweets,
                q == query_results@[ci as int],
                q.tweets@.len() == tvs.len(),
                forall|k: int| 0 <= k < tvs.len() ==> (#[trigger] q.tweets@[k])@ == tvs[k],
                ti <= q.tweets@.len(),
                outer == cats_up_to(qs, ci as int),
                out@ == outer + tweet_cats_up_to(tvs, ti as int),
            decreases q.tweets@.len() - ti,
        {
            let c = HandlePattern::from(q.tweets[ti].handle.as_str());
            proof {
                assert(q.tweets@[ti as int]@.handle == tvs[ti as int].handle);
            }
            out.push(c);
            proof {
                assert(out@ =~= outer + tweet_cats_up_to(tvs, ti + 1));
            }
            ti = ti + 1;
        }
        proof {
            assert(out@ =~= cats_up_to(qs, ci + 1));
        }
        ci = ci + 1;
    }
    out
}

/// Finds the position of a category in the table.
fn find_cat(pairs: &Vec<(HandlePattern, usize)>, key: HandlePattern) -> (r: Option<usize>)
    ensures
        r matches Some(m) ==> m < pairs@.len() && pairs@[m as int].0 == key,
        r is None ==> forall|m: int| 0 <= m < pairs@.len() ==> (#[trigger] pairs@[m]).0 != key,
{
    let mut m: usize = 0;
    while m < pairs.len()
        invariant
            m <= pairs@.len(),
            forall|k: int| 0 <= k < m ==> (#[trigger] pairs@[k]).0 != key,
        decreases pairs@.len() - m,
    {
        if pairs[m].0 == key {
            return Some(m);
        }
        m = m + 1;
    }
    None
}

/// Builds the frequency table of a category list.
fn count_cats(cats: &Vec<HandlePattern>) -> (r: Vec<(HandlePattern, usize)>)
    ensures
        is_count_table(r@, cats@),
{
    broadcast use vstd::seq_lib::group_to_multiset_ensures;
    broadcast use vstd::multiset::group_multiset_axioms;

    let mut pairs: Vec<(HandlePattern, usize)> = Vec::new();
    let mut j: usize = 0;
    proof {
        assert(cats@.take(0) =~= Seq::<HandlePattern>::empty());
        assert(cats@.take(0).to_multiset() =~= vstd::multiset::Multiset::<HandlePattern>::empty());
    }
    while j < cats.len()
        invariant
            j <= cats@.len(),
            is_count_table(pairs@, cats@.take(j as int)),
        decreases cats@.len() - j,
    {
        let ghost pv = pairs@;
        let ghost seen = cats@.take(j as int);
        let c = cats[j];
        proof {
            seen.to_multiset_ensures();
            assert(cats@.take(j + 1) =~= seen.push(cats@[j as int]));
            assert(seen.push(cats@[j as int]).to_multiset() =~= seen.to_multiset().insert(
                cats@[j as int],
            ));
        }
        let found = find_cat(&pairs, c);
        if found.is_some() {
            let m = found.unwrap();
            proof {
                seen.to_multiset_ensures();
                assert(pv[m as int].1 == seen.to_multiset().count(pv[m as int].0));
                assert(seen.to_multiset().count(pv[m as int].0) <= seen.to_multiset().len());
                assert(seen.to_multiset().len() == seen.len());
                assert(pv[m as int].1 <= j);
            }
            let pair = pairs.remove(m);
            pairs.push((pair.0, pair.1 + 1));
            proof {
                assert(pairs@ =~= pv.remove(m as int).push(
                    (pv[m as int].0, (pv[m as int].1 + 1) as usize),
                ));
                lemma_table_increment(pv, pairs@, seen, m as int, cats@[j as int]);
            }
        } else {
            pairs.push((c, 1));
            proof {
                assert(pairs@ =~= pv.push((cats@[j as int], 1usize)));
                lemma_table_new_key(pv, pairs@, seen, cats@[j as int]);
            }
        }
        j = j + 1;
    }
    proof {
        assert(cats@.take(cats@.len() as int) =~= cats@);
    }
    pairs
}

/// The ranking order on (category, count): the greater count first; on
/// equal counts the earlier category in the priority order first.
pub open spec fn pat_ranked_before(a: (HandlePattern, usize), b: (HandlePattern, usize)) -> bool {
    a.1 > b.1 || (a.1 == b.1 && pattern_index(a.0) < pattern_index(b.0))
}

/// Strictly sorted in the category ranking order.
pub open spec fn pat_ranking_sorted(r: Seq<(HandlePattern, usize)>) -> bool {
    forall|m: int, n: int| 0 <= m < n < r.len() ==> pat_ranked_before(#[trigger] r[m], #[trigger] r[n])
}

/// The whole contract of the ranked category frequency of a capture set.
pub open spec fn is_pattern_ranking(
    r: Seq<(HandlePattern, usize)>,
    qs: Seq<QueryResultView>,
) -> bool {
    &&& pat_ranking_sorted(r)
    &&& is_count_table(r, all_cats(qs))
}

/// Compares two category entries in the ranking order.
fn pat_before(a: &(HandlePattern, usize), b: &(HandlePattern, usize)) -> (r: bool)
    ensures
        r == pat_ranked_before(*a, *b),
{
    if a.1 > b.1 {
        true
    } else if a.1 == b.1 {
        a.0.index() < b.0.index()
    } else {
        false
    }
}

/// Sorts the category table in the ranking order by insertion.
fn sort_pat_pairs(input: Vec<(HandlePattern, usize)>) -> (r: Vec<(HandlePattern, usize)>)
    requires
        distinct_keys(input@),
    ensures
        pat_ranking_sorted(r@),
        r@.to_multiset() == input@.to_multiset(),
{
    broadcast use vstd::seq_lib::group_to_multiset_ensures;
    broadcast use vstd::multiset::group_multiset_axioms;

    let ghost iv = input@;
    let mut src = input;
    let mut out: Vec<(HandlePattern, usize)> = Vec::new();
    proof {
        assert(out@ =~= Seq::<(HandlePattern, usize)>::empty());
        assert(src@ + out@ =~= src@);
        vstd::seq_lib::lemma_multiset_commutative(src@, out@);
    }
    loop
        invariant
            iv == input@,
            pat_ranking_sorted(out@),
            distinct_keys(src@),
            distinct_keys(out@),
            forall|a: int, b: int|
                0 <= a < src@.len() && 0 <= b < out@.len() ==> (#[trigger] src@[a]).0 != (
                #[trigger] out@[b]).0,
            (src@ + out@).to_multiset() == iv.to_multiset(),
        ensures
            src@.len() == 0,
            pat_ranking_sorted(out@),
            (src@ + out@).to_multiset() == iv.to_multiset(),
        decreases src@.len(),
    {
        if src.len() == 0 {
            break;
        }
        let ghost sv0 = src@;
        let ghost ov0 = out@;
        let x = src.pop().unwrap();
        let ghost xv = x;
        proof {
            let sv = src@;
            assert(sv =~= sv0.drop_last());
            assert(sv0 =~= sv.push(xv));
            vstd::seq_lib::lemma_multiset_commutative(sv0, ov0);
            vstd::seq_lib::lemma_multiset_commutative(sv, ov0);
            sv.to_multiset_ensures();
            assert(sv.push(xv).to_multiset() =~= sv.to_multiset().insert(xv));
            assert(sv0.to_multiset() =~= sv.to_multiset().insert(xv));
            assert(xv == sv0[sv0.len() - 1]);
            assert forall|b: int| 0 <= b < out@.len() implies xv.0 != (#[trigger] out@[b]).0 by {
                assert(sv0[sv0.len() - 1].0 != ov0[b].0);
            }
            assert forall|k: int| 0 <= k < sv.len() implies (#[trigger] sv[k]).0 != xv.0 by {
                assert(sv0[k].0 != sv0[sv0.len() - 1].0);
            }
        }
        let mut p: usize = 0;
        loop
            invariant
                p <= out@.len(),
                forall|k: int| 0 <= k < p ==> pat_ranked_before(#[trigger] out@[k], xv),
                xv == x,
                pat_ranking_sorted(out@),
                forall|b: int| 0 <= b < out@.len() ==> xv.0 != (#[trigger] out@[b]).0,
            ensures
                p <= out@.len(),
                forall|k: int| 0 <= k < p ==> pat_ranked_before(#[trigger] out@[k], xv),
                p < out@.len() ==> pat_ranked_before(xv, out@[p as int]),
            decreases out@.len() - p,
        {
            if p >= out.len() {
                break;
            }
            let goes_before = pat_before(&x, &out[p]);
            if goes_before {
                break;
            }
            proof {
                assert(xv.0 != out@[p as int].0);
                lemma_pattern_index_injective(xv.0, out@[p as int].0);
            }
            p = p + 1;
        }
        let ghost ov = out@;
        let ghost pp = p as int;
        out.insert(p, x);
        proof {
            let nov = out@;
            assert(nov =~= ov.insert(pp, xv));
            assert(nov =~= ov.take(pp) + seq![xv] + ov.skip(pp));
            assert forall|m: int, n: int|
                0 <= m < n < nov.len() implies pat_ranked_before(
                #[trigger] nov[m],
                #[trigger] nov[n],
            ) by {
                let om = if m < pp {
                    m
                } else {
                    m - 1
                };
                let on = if n < pp {
                    n
                } else {
                    n - 1
                };
                if m == pp {
                    assert(nov[n] == ov[on]);
                    if on == pp {
                        assert(pat_ranked_before(xv, ov[pp]));
                    } else {
                        assert(pat_ranked_before(ov[pp], ov[on]));
                    }
                } else if n == pp {
                    assert(nov[m] == ov[om]);
                    assert(pat_ranked_before(ov[om], xv));
                } else {
                    assert(nov[m] == ov[om] && nov[n] == ov[on]);
                    if om < on {
                        assert(pat_ranked_before(ov[om], ov[on]));
                    } else {
                        assert(om == on);
                        assert(false);
                    }
                }
            }
            let sv = src@;
            vstd::seq_lib::lemma_multiset_commutative(ov.take(pp) + seq![xv], ov.skip(pp));
            vstd::seq_lib::lemma_multiset_commutative(ov.take(pp), seq![xv]);
            vstd::seq_lib::lemma_multiset_commutative(ov.take(pp), ov.skip(pp));
            assert(ov.take(pp) + ov.skip(pp) =~= ov);
            ov.to_multiset_ensures();
            nov.to_multiset_ensures();
            assert(nov.to_multiset() =~= ov.to_multiset().add(seq![xv].to_multiset()));
            assert(seq![xv].to_multiset() =~= vstd::multiset::Multiset::<(HandlePattern, usize)>::empty().insert(xv)) by {
                let e = Seq::<(HandlePattern, usize)>::empty();
                e.to_multiset_ensures();
                assert(e.to_multiset().len() == 0);
                assert forall|y: (HandlePattern, usize)| e.to_multiset().count(y) == 0 by {
                    vstd::multiset::axiom_count_le_len(e.to_multiset(), y);
                }
                assert(e.to_multiset() =~= vstd::multiset::Multiset::<(HandlePattern, usize)>::empty());
                assert(seq![xv] =~= e.push(xv));
                assert(e.push(xv).to_multiset() =~= e.to_multiset().insert(xv));
            }
            assert(nov.to_multiset() =~= ov.to_multiset().insert(xv));
            vstd::seq_lib::lemma_multiset_commutative(sv, nov);
            vstd::seq_lib::lemma_multiset_commutative(sv, ov);
            assert((sv + nov).to_multiset() =~= iv.to_multiset());
            assert forall|m: int, n: int|
                0 <= m < n < nov.len() implies (#[trigger] nov[m]).0 != (#[trigger] nov[n]).0 by {
                let om = if m < pp {
                    m
                } else {
                    m - 1
                };
                let on = if n < pp {
                    n
                } else {
                    n - 1
                };
                if m == pp {
                    assert(nov[m] == xv && nov[n] == ov[on]);
                } else if n == pp {
                    assert(nov[n] == xv && nov[m] == ov[om]);
                } else {
                    assert(nov[m] == ov[om] && nov[n] == ov[on]);
                    assert(om < on);
                }
            }
            assert forall|a: int, b: int|
                0 <= a < sv.len() && 0 <= b < nov.len() implies (#[trigger] sv[a]).0 != (
            #[trigger] nov[b]).0 by {
                if b == pp {
                    assert(nov[b] == xv);
                } else {
                    let ob = if b < pp {
                        b
                    } else {
                        b - 1
                    };
                    assert(nov[b] == ov[ob]);
                }
            }
        }
    }
    proof {
        assert(src@ =~= Seq::<(HandlePattern, usize)>::empty());
        assert(src@ + out@ =~= out@);
    }
    out
}

/// Two categories with the same priority position are the same category.
proof fn lemma_pattern_index_injective(a: HandlePattern, b: HandlePattern)
    requires
        a != b,
    ensures
        pattern_index(a) != pattern_index(b),
{
}

/// The ranked handle-category frequency of a capture set: every post's
/// handle classified and counted, sorted by descending count with ties in
/// the fixed priority order.
pub fn get_most_common_handle_patterns(query_results: &Vec<QueryResult>) -> (r: Vec<
    (HandlePattern, usize),
>)
    ensures
        is_pattern_ranking(r@, query_results@.map_values(|q: QueryResult| q@)),
{
    let cats = collect_cats(query_results);
    let table = count_cats(&cats);
    proof {
        assert(distinct_keys(table@));
    }
    let sorted = sort_pat_pairs(table);
    proof {
        let qs = query_results@.map_values(|q: QueryResult| q@);
        lemma_table_permutation(table@, sorted@, all_cats(qs));
    }
    sorted
}


// ---------------------------------------------------------------------------
// Determinism of the ranking
// ---------------------------------------------------------------------------

/// Whether an entry occurs somewhere in a table.
pub open spec fn occurs_in(x: (Seq<char>, usize), r: Seq<(Seq<char>, usize)>) -> bool {
    exists|n: int| 0 <= n < r.len() && r[n] == x
}

/// Two strictly ranked sequences with the same entries are the same
/// sequence.
#[verifier::rlimit(100)]
proof fn lemma_word_sorted_same_elements_equal(
    r1: Seq<(Seq<char>, usize)>,
    r2: Seq<(Seq<char>, usize)>,
)
    requires
        word_ranking_sorted(r1),
        word_ranking_sorted(r2),
        forall|m: int| 0 <= m < r1.len() ==> occurs_in(#[trigger] r1[m], r2),
        forall|n: int| 0 <= n < r2.len() ==> occurs_in(#[trigger] r2[n], r1),
    ensures
        r1 == r2,
    decreases r1.len(),
{
    if r1.len() == 0 {
        if r2.len() > 0 {
            assert(occurs_in(r2[0], r1));
            let m = choose|m: int| 0 <= m < r1.len() && r1[m] == r2[0];
            assert(false);
        }
        assert(r1 =~= r2);
    } else {
        if r2.len() == 0 {
            assert(occurs_in(r1[0], r2));
            let n = choose|n: int| 0 <= n < r2.len() && r2[n] == r1[0];
            assert(false);
        }
        // The heads agree: each head occurs in the other sequence, and a
        // strictly later occurrence would order the two heads both ways.
        assert(occurs_in(r1[0], r2));
        assert(occurs_in(r2[0], r1));
        let n0 = choose|n: int| 0 <= n < r2.len() && r2[n] == r1[0];
        let m0 = choose|m: int| 0 <= m < r1.len() && r1[m] == r2[0];
        if n0 > 0 {
            assert(word_ranked_before(r2[0], r2[n0]));
            if m0 > 0 {
                assert(word_ranked_before(r1[0], r1[m0]));
                lemma_word_order_asym(r1[0], r2[0]);
                assert(false);
            } else {
                lemma_word_order_asym(r1[0], r1[0]);
                assert(false);
            }
        }
        assert(r1[0] == r2[0]);
        let t1 = r1.skip(1);
        let t2 = r2.skip(1);
        assert forall|m: int, n: int|
            0 <= m < n < t1.len() implies word_ranked_before(#[trigger] t1[m], #[trigger] t1[n]) by {
            assert(t1[m] == r1[m + 1] && t1[n] == r1[n + 1]);
        }
        assert forall|m: int, n: int|
            0 <= m < n < t2.len() implies word_ranked_before(#[trigger] t2[m], #[trigger] t2[n]) by {
            assert(t2[m] == r2[m + 1] && t2[n] == r2[n + 1]);
        }
        assert forall|m: int| 0 <= m < t1.len() implies occurs_in(#[trigger] t1[m], t2) by {
            assert(t1[m] == r1[m + 1]);
            assert(occurs_in(r1[m + 1], r2));
            let n = choose|n: int| 0 <= n < r2.len() && r2[n] == r1[m + 1];
            if n == 0 {
                assert(r1[m + 1] == r1[0]);
                assert(word_ranked_before(r1[0], r1[m + 1]));
                lemma_word_order_asym(r1[0], r1[0]);
                assert(false);
            }
            assert(t2[n - 1] == r2[n]);
            assert(t2[n - 1] == t1[m]);
        }
        assert forall|n: int| 0 <= n < t2.len() implies occurs_in(#[trigger] t2[n], t1) by {
            assert(t2[n] == r2[n + 1]);
            assert(occurs_in(r2[n + 1], r1));
            let m = choose|m: int| 0 <= m < r1.len() && r1[m] == r2[n + 1];
            if m == 0 {
                assert(r2[n + 1] == r2[0]);
                assert(word_ranked_before(r2[0], r2[n + 1]));
                lemma_word_order_asym(r2[0], r2[0]);
                assert(false);
            }
            assert(t1[m - 1] == r1[m]);
            assert(t1[m - 1] == t2[n]);
        }
        lemma_word_sorted_same_elements_equal(t1, t2);
        assert(seq![r1[0]] + t1 =~= r1);
        assert(seq![r2[0]] + t2 =~= r2);
        assert(r1 == r2);
    }
}

/// Deterministic ranking: the same multiset of tokens always yields the
/// same ranked word frequency, whatever order the captures came in.
pub proof fn lemma_word_ranking_deterministic(
    r1: Seq<(Seq<char>, usize)>,
    qs1: Seq<QueryResultView>,
    ig1: Seq<Seq<char>>,
    r2: Seq<(Seq<char>, usize)>,
    qs2: Seq<QueryResultView>,
    ig2: Seq<Seq<char>>,
)
    requires
        is_word_ranking(r1, qs1, ig1),
        is_word_ranking(r2, qs2, ig2),
        all_tokens(qs1, ig1).to_multiset() == all_tokens(qs2, ig2).to_multiset(),
    ensures
        r1 == r2,
{
    assert forall|m: int| 0 <= m < r1.len() implies occurs_in(#[trigger] r1[m], r2) by {
        assert(r1[m].1 == all_tokens(qs1, ig1).to_multiset().count(r1[m].0));
        assert(all_tokens(qs2, ig2).to_multiset().count(r1[m].0) > 0);
        let n = choose|n: int| 0 <= n < r2.len() && (#[trigger] r2[n]).0 == r1[m].0;
        assert(r2[n].1 == all_tokens(qs2, ig2).to_multiset().count(r2[n].0));
        assert(r2[n] == r1[m]);
    }
    assert forall|n: int| 0 <= n < r2.len() implies occurs_in(#[trigger] r2[n], r1) by {
        assert(r2[n].1 == all_tokens(qs2, ig2).to_multiset().count(r2[n].0));
        assert(all_tokens(qs1, ig1).to_multiset().count(r2[n].0) > 0);
        let m = choose|m: int| 0 <= m < r1.len() && (#[trigger] r1[m]).0 == r2[n].0;
        assert(r1[m].1 == all_tokens(qs1, ig1).to_multiset().count(r1[m].0));
        assert(r1[m] == r2[n]);
    }
    lemma_word_sorted_same_elements_equal(r1, r2);
}

/// Total ordering under ties: two entries with the same count stand in
/// ascending lexical order of their tokens.
pub proof fn lemma_equal_counts_lexical_order(r: Seq<(Seq<char>, usize)>, m: int, n: int)
    requires
        word_ranking_sorted(r),
        0 <= m < n < r.len(),
        r[m].1 == r[n].1,
    ensures
        lex_lt(r[m].0, r[n].0),
{
    assert(word_ranked_before(r[m], r[n]));
}

// ---------------------------------------------------------------------------
// The analysis record
// ---------------------------------------------------------------------------

/// Whether some capture in the set was made for this query.
pub open spec fn query_occurs(qs: Seq<QueryResultView>, name: Seq<char>) -> bool {
    exists|k: int| 0 <= k < qs.len() && (#[trigger] qs[k]).query == name
}

/// Whether a name stands in the list.
pub open spec fn name_occurs(qnames: Seq<Seq<char>>, q: Seq<char>) -> bool {
    exists|m: int| 0 <= m < qnames.len() && #[trigger] qnames[m] == q
}

/// The deduplicated, lexically sorted queries of a capture set.
pub open spec fn is_sorted_query_set(qnames: Seq<Seq<char>>, qs: Seq<QueryResultView>) -> bool {
    &&& forall|m: int, n: int| 0 <= m < n < qnames.len() ==> lex_lt(#[trigger] qnames[m], #[trigger] qnames[n])
    &&& forall|m: int| 0 <= m < qnames.len() ==> query_occurs(qs, #[trigger] qnames[m])
    &&& forall|k: int| 0 <= k < qs.len() ==> name_occurs(qnames, (#[trigger] qs[k]).query)
}

/// The result of one aggregation run: the contributing queries, the instant
/// of aggregation, and both ranked frequency tables.
pub struct SearchAnalysis {
    pub queries: Vec<String>,
    pub date_utc: Timestamp,
    pub word_frequency: Vec<(String, usize)>,
    pub handle_patterns: Vec<(HandlePattern, usize)>,
}

impl SearchAnalysis {
    /// Everything the aggregator promises of one of its results.
    pub open spec fn describes(
        self,
        qs: Seq<QueryResultView>,
        ig: Seq<Seq<char>>,
        generated_at: Timestamp,
    ) -> bool {
        &&& self.date_utc == generated_at
        &&& is_sorted_query_set(self.queries@.map_values(|s: String| s@), qs)
        &&& is_word_ranking(
            self.word_frequency@.map_values(|p: (String, usize)| word_pair_view(p)),
            qs,
            ig,
        )
        &&& is_pattern_ranking(self.handle_patterns@, qs)
    }

    /// Aggregates a capture set: tokenizes and classifies every post, ranks
    /// both frequency tables, and records the given instant.
    pub fn from_captures(
        captures: &Vec<QueryResult>,
        ignored_words: &Vec<String>,
        generated_at: Timestamp,
    ) -> (r: SearchAnalysis)
        ensures
            r.describes(
                captures@.map_values(|q: QueryResult| q@),
                ignored_words@.map_values(|s: String| s@),
                generated_at,
            ),
    {
        SearchAnalysis {
            queries: sorted_unique_queries(captures),
            date_utc: generated_at,
            word_frequency: get_most_common_words(captures, ignored_words),
            handle_patterns: get_most_common_handle_patterns(captures),
        }
    }
}

/// The distinct query strings of a capture set, lexically sorted.
#[verifier::rlimit(100)]
fn sorted_unique_queries(captures: &Vec<QueryResult>) -> (r: Vec<String>)
    ensures
        is_sorted_query_set(
            r@.map_values(|s: String| s@),
            captures@.map_values(|q: QueryResult| q@),
        ),
{
    broadcast use vstd::seq_lib::group_to_multiset_ensures;
    broadcast use vstd::multiset::group_multiset_axioms;

    let ghost qs = captures@.map_values(|q: QueryResult| q@);
    // Gather the distinct queries as zero-count entries, then rank them:
    // with all counts equal the ranking order is the lexical order.
    let mut table: Vec<(String, usize)> = Vec::new();
    let mut ci: usize = 0;
    while ci < captures.len()
        invariant
            qs == captures@.map_values(|q: QueryResult| q@),
            ci <= captures@.len(),
            forall|m: int, n: int|
                0 <= m < n < table@.len() ==> (#[trigger] table@[m]).0@ != (
                #[trigger] table@[n]).0@,
            forall|m: int| 0 <= m < table@.len() ==> (#[trigger] table@[m]).1 == 0,
            forall|m: int|
                0 <= m < table@.len() ==> exists|k: int|
                    0 <= k < qs.len() && (#[trigger] qs[k]).query == (#[trigger] table@[m]).0@,
            forall|k: int|
                0 <= k < ci ==> exists|m: int|
                    0 <= m < table@.len() && (#[trigger] table@[m]).0@ == (#[trigger] qs[k]).query,
        decreases captures@.len() - ci,
    {
        let ghost prev = table@;
        let q = &captures[ci];
        let found = find_key(&table, &q.query);
        if found.is_none() {
            table.push((q.query.clone(), 0));
            proof {
                assert(qs[ci as int].query == q.query@);
                assert(table@[table@.len() - 1].0@ == qs[ci as int].query);
                assert forall|k: int|
                    0 <= k < ci + 1 implies exists|m: int|
                        0 <= m < table@.len() && (#[trigger] table@[m]).0@ == (
                    #[trigger] qs[k]).query by {
                    if k < ci {
                        let m0 = choose|m: int|
                            0 <= m < prev.len() && (#[trigger] prev[m]).0@ == qs[k].query;
                        assert(table@[m0].0@ == qs[k].query);
                    }
                }
            }
        } else {
            proof {
                let m0 = found.unwrap() as int;
                assert(table@[m0].0@ == qs[ci as int].query);
                assert forall|k: int|
                    0 <= k < ci + 1 implies exists|m: int|
                        0 <= m < table@.len() && (#[trigger] table@[m]).0@ == (
                    #[trigger] qs[k]).query by {
                    if k == ci {
                        assert(table@[m0].0@ == qs[k].query);
                    }
                }
            }
        }
        ci = ci + 1;
    }
    let ghost tv = table@.map_values(|p: (String, usize)| word_pair_view(p));
    proof {
        assert forall|m: int, n: int|
            0 <= m < n < tv.len() implies (#[trigger] tv[m]).0 != (#[trigger] tv[n]).0 by {
            assert(tv[m] == word_pair_view(table@[m]));
            assert(tv[n] == word_pair_view(table@[n]));
            assert(table@[m].0@ != table@[n].0@);
        }
        assert(distinct_keys(tv));
    }
    let sorted = sort_word_pairs(table);
    let ghost sv = sorted@.map_values(|p: (String, usize)| word_pair_view(p));
    proof {
        tv.to_multiset_ensures();
        sv.to_multiset_ensures();
    }
    let mut r: Vec<String> = Vec::new();
    let mut i: usize = 0;
    while i < sorted.len()
        invariant
            sv == sorted@.map_values(|p: (String, usize)| word_pair_view(p)),
            i <= sorted@.len(),
            r@.len() == i,
            forall|m: int| 0 <= m < i ==> (#[trigger] r@[m])@ == sv[m].0,
        decreases sorted@.len() - i,
    {
        let s = sorted[i].0.clone();
        proof {
            assert(sv[i as int] == word_pair_view(sorted@[i as int]));
        }
        r.push(s);
        i = i + 1;
    }
    proof {
        // Entries survived the sort as a multiset, so each side's entries
        // occur on the other.
        assert forall|m: int| 0 <= m < sv.len() implies tv.contains(#[trigger] sv[m]) by {
            assert(sv.contains(sv[m]));
            assert(sv.to_multiset().count(sv[m]) > 0);
            assert(tv.to_multiset().count(sv[m]) > 0);
        }
        assert forall|m: int| 0 <= m < tv.len() implies sv.contains(#[trigger] tv[m]) by {
            assert(tv.contains(tv[m]));
            assert(tv.to_multiset().count(tv[m]) > 0);
            assert(sv.to_multiset().count(tv[m]) > 0);
        }
        assert(forall|m: int| 0 <= m < tv.len() ==> (#[trigger] tv[m]) == word_pair_view(table@[m]));
        let rv = r@.map_values(|s: String| s@);
        assert(rv.len() == sv.len());
        assert(forall|m: int| 0 <= m < rv.len() ==> (#[trigger] rv[m]) == r@[m]@);
        assert(forall|m: int| 0 <= m < rv.len() ==> (#[trigger] rv[m]) == sv[m].0);
        assert forall|m: int, n: int|
            0 <= m < n < rv.len() implies lex_lt(#[trigger] rv[m], #[trigger] rv[n]) by {
            assert(word_ranked_before(sv[m], sv[n]));
            let km = choose|k: int| 0 <= k < tv.len() && tv[k] == sv[m];
            let kn = choose|k: int| 0 <= k < tv.len() && tv[k] == sv[n];
            assert(tv[km] == word_pair_view(table@[km]));
            assert(tv[kn] == word_pair_view(table@[kn]));
            assert(table@[km].1 == 0 && table@[kn].1 == 0);
            assert(sv[m].1 == 0 && sv[n].1 == 0);
        }
        assert forall|m: int| 0 <= m < rv.len() implies query_occurs(qs, #[trigger] rv[m]) by {
            let km = choose|k: int| 0 <= k < tv.len() && tv[k] == sv[m];
            assert(tv[km] == word_pair_view(table@[km]));
            assert(table@[km].0@ == rv[m]);
            let k0 = choose|k: int|
                0 <= k < qs.len() && (#[trigger] qs[k]).query == table@[km].0@;
            assert(qs[k0].query == rv[m]);
        }
        assert forall|k: int|
            0 <= k < qs.len() implies name_occurs(rv, (#[trigger] qs[k]).query) by {
            let m0 = choose|m: int|
                0 <= m < table@.len() && (#[trigger] table@[m]).0@ == qs[k].query;
            assert(tv[m0] == word_pair_view(table@[m0]));
            assert(sv.contains(tv[m0]));
            let m1 = choose|m: int| 0 <= m < sv.len() && sv[m] == tv[m0];
            assert(rv[m1] == sv[m1].0);
            assert(rv[m1] == qs[k].query);
        }
        assert(is_sorted_query_set(rv, qs));
    }
    r
}


// ---------------------------------------------------------------------------
// The stored form of an analysis record
// ---------------------------------------------------------------------------

pub open spec fn key_queries() -> Seq<char> {
    seq!['{', '"', 'q', 'u', 'e', 'r', 'i', 'e', 's', '"', ':', '[']
}

pub open spec fn key_word_frequency() -> Seq<char> {
    seq![
        '"', ',', '"', 'w', 'o', 'r', 'd', '_', 'f', 'r', 'e', 'q', 'u', 'e', 'n', 'c', 'y', '"',
        ':', '[',
    ]
}

pub open spec fn key_handle_patterns() -> Seq<char> {
    seq![
        ']', ',', '"', 'h', 'a', 'n', 'd', 'l', 'e', '_', 'p', 'a', 't', 't', 'e', 'r', 'n', 's',
        '"', ':', '[',
    ]
}

/// The comma-separated quoted queries.
pub open spec fn ser_query_items(qs: Seq<Seq<char>>) -> Seq<char>
    decreases qs.len(),
{
    if qs.len() == 0 {
        Seq::empty()
    } else if qs.len() == 1 {
        crate::codec::ser_string(qs[0])
    } else {
        crate::codec::ser_string(qs[0]) + seq![','] + ser_query_items(qs.skip(1))
    }
}

/// One stored word entry: `["token",count]`.
pub open spec fn ser_word_item(p: (Seq<char>, usize)) -> Seq<char> {
    seq!['['] + crate::codec::ser_string(p.0) + seq![','] + crate::codec::ser_nat(p.1 as nat)
        + seq![']']
}

pub open spec fn ser_word_items(ps: Seq<(Seq<char>, usize)>) -> Seq<char>
    decreases ps.len(),
{
    if ps.len() == 0 {
        Seq::empty()
    } else if ps.len() == 1 {
        ser_word_item(ps[0])
    } else {
        ser_word_item(ps[0]) + seq![','] + ser_word_items(ps.skip(1))
    }
}

/// One stored category entry: `["Name",count]`.
pub open spec fn ser_pat_item(p: (HandlePattern, usize)) -> Seq<char> {
    seq!['['] + crate::codec::ser_string(p.0.spec_name()) + seq![','] + crate::codec::ser_nat(
        p.1 as nat,
    ) + seq![']']
}

pub open spec fn ser_pat_items(ps: Seq<(HandlePattern, usize)>) -> Seq<char>
    decreases ps.len(),
{
    if ps.len() == 0 {
        Seq::empty()
    } else if ps.len() == 1 {
        ser_pat_item(ps[0])
    } else {
        ser_pat_item(ps[0]) + seq![','] + ser_pat_items(ps.skip(1))
    }
}

/// The stored form of an analysis record:
/// `{"queries":[…],"date_utc":"…","word_frequency":[…],"handle_patterns":[…]}`.
pub open spec fn ser_analysis(a: SearchAnalysis) -> Seq<char> {
    key_queries() + ser_query_items(a.queries@.map_values(|s: String| s@)) + seq![']']
        + crate::records::key_date_utc() + crate::time::ser_ts(a.date_utc) + key_word_frequency()
        + ser_word_items(a.word_frequency@.map_values(|p: (String, usize)| word_pair_view(p)))
        + key_handle_patterns() + ser_pat_items(a.handle_patterns@) + seq![']', '}']
}

proof fn lemma_ser_query_items_snoc(qs: Seq<Seq<char>>, i: int)
    requires
        0 <= i < qs.len(),
    ensures
        ser_query_items(qs.take(i + 1)) == ser_query_items(qs.take(i)) + (if i > 0 {
            seq![',']
        } else {
            Seq::<char>::empty()
        }) + crate::codec::ser_string(qs[i]),
    decreases i,
{
    if i == 0 {
        assert(qs.take(1) =~= seq![qs[0]]);
        assert(seq![qs[0]][0] == qs[0]);
        assert(qs.take(0) =~= Seq::<Seq<char>>::empty());
        assert(ser_query_items(qs.take(0)) + Seq::<char>::empty() + crate::codec::ser_string(qs[0])
            =~= crate::codec::ser_string(qs[0]));
    } else {
        lemma_ser_query_items_snoc(qs.skip(1), i - 1);
        let a = qs.take(i + 1);
        let b = qs.take(i);
        assert(a.len() >= 2);
        assert(a[0] == qs[0] && b[0] == qs[0]);
        assert(a.skip(1) =~= qs.skip(1).take(i));
        assert(b.skip(1) =~= qs.skip(1).take(i - 1));
        assert(qs.skip(1)[i - 1] == qs[i]);
        if i == 1 {
            assert(b.len() == 1);
            assert(qs.skip(1).take(0) =~= Seq::<Seq<char>>::empty());
            assert(ser_query_items(qs.skip(1).take(1)) == ser_query_items(qs.skip(1).take(0))
                + Seq::<char>::empty() + crate::codec::ser_string(qs.skip(1)[0]));
            assert(ser_query_items(a) =~= ser_query_items(b) + seq![',']
                + crate::codec::ser_string(qs[1]));
        } else {
            assert(ser_query_items(a) =~= ser_query_items(b) + seq![',']
                + crate::codec::ser_string(qs[i]));
        }
    }
}

proof fn lemma_ser_word_items_snoc(ps: Seq<(Seq<char>, usize)>, i: int)
    requires
        0 <= i < ps.len(),
    ensures
        ser_word_items(ps.take(i + 1)) == ser_word_items(ps.take(i)) + (if i > 0 {
            seq![',']
        } else {
            Seq::<char>::empty()
        }) + ser_word_item(ps[i]),
    decreases i,
{
    if i == 0 {
        assert(ps.take(1) =~= seq![ps[0]]);
        assert(seq![ps[0]][0] == ps[0]);
        assert(ps.take(0) =~= Seq::<(Seq<char>, usize)>::empty());
        assert(ser_word_items(ps.take(0)) + Seq::<char>::empty() + ser_word_item(ps[0])
            =~= ser_word_item(ps[0]));
    } else {
        lemma_ser_word_items_snoc(ps.skip(1), i - 1);
        let a = ps.take(i + 1);
        let b = ps.take(i);
        assert(a.len() >= 2);
        assert(a[0] == ps[0] && b[0] == ps[0]);
        assert(a.skip(1) =~= ps.skip(1).take(i));
        assert(b.skip(1) =~= ps.skip(1).take(i - 1));
        assert(ps.skip(1)[i - 1] == ps[i]);
        if i == 1 {
            assert(b.len() == 1);
            assert(ps.skip(1).take(0) =~= Seq::<(Seq<char>, usize)>::empty());
            assert(ser_word_items(ps.skip(1).take(1)) == ser_word_items(ps.skip(1).take(0)) + Seq::<
                char,
            >::empty() + ser_word_item(ps.skip(1)[0]));
            assert(ser_word_items(a) =~= ser_word_items(b) + seq![','] + ser_word_item(ps[1]));
        } else {
            assert(ser_word_items(a) =~= ser_word_items(b) + seq![','] + ser_word_item(ps[i]));
        }
    }
}

proof fn lemma_ser_pat_items_snoc(ps: Seq<(HandlePattern, usize)>, i: int)
    requires
        0 <= i < ps.len(),
    ensures
        ser_pat_items(ps.take(i + 1)) == ser_pat_items(ps.take(i)) + (if i > 0 {
            seq![',']
        } else {
            Seq::<char>::empty()
        }) + ser_pat_item(ps[i]),
    decreases i,
{
    if i == 0 {
        assert(ps.take(1) =~= seq![ps[0]]);
        assert(seq![ps[0]][0] == ps[0]);
        assert(ps.take(0) =~= Seq::<(HandlePattern, usize)>::empty());
        assert(ser_pat_items(ps.take(0)) + Seq::<char>::empty() + ser_pat_item(ps[0])
            =~= ser_pat_item(ps[0]));
    } else {
        lemma_ser_pat_items_snoc(ps.skip(1), i - 1);
        let a = ps.take(i + 1);
        let b = ps.take(i);
        assert(a.len() >= 2);
        assert(a[0] == ps[0] && b[0] == ps[0]);
        assert(a.skip(1) =~= ps.skip(1).take(i));
        assert(b.skip(1) =~= ps.skip(1).take(i - 1));
        assert(ps.skip(1)[i - 1] == ps[i]);
        if i == 1 {
            assert(b.len() == 1);
            assert(ps.skip(1).take(0) =~= Seq::<(HandlePattern, usize)>::empty());
            assert(ser_pat_items(ps.skip(1).take(1)) == ser_pat_items(ps.skip(1).take(0)) + Seq::<
                char,
            >::empty() + ser_pat_item(ps.skip(1)[0]));
            assert(ser_pat_items(a) =~= ser_pat_items(b) + seq![','] + ser_pat_item(ps[1]));
        } else {
            assert(ser_pat_items(a) =~= ser_pat_items(b) + seq![','] + ser_pat_item(ps[i]));
        }
    }
}

impl SearchAnalysis {
    /// The stored text form of this record. An analysis is a derived,
    /// disposable artifact: it is written for readers and never parsed back
    /// by this library.
    #[verifier::rlimit(100)]
    pub fn to_json(&self) -> (r: String)
        requires
            self.date_utc.valid(),
        ensures
            r@ == ser_analysis(*self),
    {
        let mut out: Vec<char> = Vec::new();
        append_str(&mut out, "{\"queries\":[");
        proof {
            reveal_strlit("{\"queries\":[");
            assert("{\"queries\":["@ =~= key_queries());
        }
        let ghost qn = self.queries@.map_values(|s: String| s@);
        let ghost mid1 = out@;
        let mut i: usize = 0;
        proof {
            assert(ser_query_items(qn.take(0)) =~= Seq::<char>::empty());
            assert(out@ =~= mid1 + ser_query_items(qn.take(0)));
        }
        while i < self.queries.len()
            invariant
                qn == self.queries@.map_values(|s: String| s@),
                i <= self.queries@.len(),
                out@ == mid1 + ser_query_items(qn.take(i as int)),
            decreases self.queries@.len() - i,
        {
            if i > 0 {
                out.push(',');
            }
            crate::codec::write_json_string(&mut out, self.queries[i].as_str());
            proof {
                assert(self.queries@[i as int]@ == qn[i as int]);
                lemma_ser_query_items_snoc(qn, i as int);
                assert(out@ =~= mid1 + ser_query_items(qn.take(i + 1)));
            }
            i = i + 1;
        }
        proof {
            assert(qn.take(qn.len() as int) =~= qn);
        }
        out.push(']');
        append_str(&mut out, ",\"date_utc\":\"");
        crate::time::write_timestamp(&mut out, &self.date_utc);
        append_str(&mut out, "\",\"word_frequency\":[");
        proof {
            reveal_strlit(",\"date_utc\":\"");
            reveal_strlit("\",\"word_frequency\":[");
            assert(",\"date_utc\":\""@ =~= crate::records::key_date_utc());
            assert("\",\"word_frequency\":["@ =~= key_word_frequency());
        }
        let ghost wf = self.word_frequency@.map_values(|p: (String, usize)| word_pair_view(p));
        let ghost mid2 = out@;
        let mut i2: usize = 0;
        proof {
            assert(ser_word_items(wf.take(0)) =~= Seq::<char>::empty());
            assert(out@ =~= mid2 + ser_word_items(wf.take(0)));
        }
        while i2 < self.word_frequency.len()
            invariant
                wf == self.word_frequency@.map_values(|p: (String, usize)| word_pair_view(p)),
                i2 <= self.word_frequency@.len(),
                out@ == mid2 + ser_word_items(wf.take(i2 as int)),
            decreases self.word_frequency@.len() - i2,
        {
            if i2 > 0 {
                out.push(',');
            }
            let ghost before = out@;
            out.push('[');
            crate::codec::write_json_string(&mut out, self.word_frequency[i2].0.as_str());
            out.push(',');
            crate::codec::write_nat_u64(&mut out, self.word_frequency[i2].1 as u64);
            out.push(']');
            proof {
                assert(wf[i2 as int] == word_pair_view(self.word_frequency@[i2 as int]));
                assert(out@ =~= before + ser_word_item(wf[i2 as int]));
                lemma_ser_word_items_snoc(wf, i2 as int);
                assert(out@ =~= mid2 + ser_word_items(wf.take(i2 + 1)));
            }
            i2 = i2 + 1;
        }
        proof {
            assert(wf.take(wf.len() as int) =~= wf);
        }
        append_str(&mut out, "],\"handle_patterns\":[");
        proof {
            reveal_strlit("],\"handle_patterns\":[");
            assert("],\"handle_patterns\":["@ =~= key_handle_patterns());
        }
        let ghost hp = self.handle_patterns@;
        let ghost mid3 = out@;
        let mut i3: usize = 0;
        proof {
            assert(ser_pat_items(hp.take(0)) =~= Seq::<char>::empty());
            assert(out@ =~= mid3 + ser_pat_items(hp.take(0)));
        }
        while i3 < self.handle_patterns.len()
            invariant
                hp == self.handle_patterns@,
                i3 <= self.handle_patterns@.len(),
                out@ == mid3 + ser_pat_items(hp.take(i3 as int)),
            decreases self.handle_patterns@.len() - i3,
        {
            if i3 > 0 {
                out.push(',');
            }
            let ghost before = out@;
            out.push('[');
            crate::codec::write_json_string(&mut out, self.handle_patterns[i3].0.name());
            out.push(',');
            crate::codec::write_nat_u64(&mut out, self.handle_patterns[i3].1 as u64);
            out.push(']');
            proof {
                assert(out@ =~= before + ser_pat_item(hp[i3 as int]));
                lemma_ser_pat_items_snoc(hp, i3 as int);
                assert(out@ =~= mid3 + ser_pat_items(hp.take(i3 + 1)));
            }
            i3 = i3 + 1;
        }
        proof {
            assert(hp.take(hp.len() as int) =~= hp);
        }
        out.push(']');
        out.push('}');
        proof {
            assert(out@ =~= ser_analysis(*self));
        }
        crate::text::chars_to_string(&out)
    }
}


// ---------------------------------------------------------------------------
// The printed summary
// ---------------------------------------------------------------------------

/// One line of the word report.
pub open spec fn word_line(p: (Seq<char>, usize)) -> Seq<char> {
    p.0 + " was seen "@ + crate::codec::ser_nat(p.1 as nat) + " times\n"@
}

/// The first `n` word lines.
pub open spec fn word_lines_up_to(ps: Seq<(Seq<char>, usize)>, n: int) -> Seq<char>
    decreases n,
{
    if n <= 0 {
        Seq::empty()
    } else {
        word_lines_up_to(ps, n - 1) + word_line(ps[n - 1])
    }
}

/// One line of the category report.
pub open spec fn pattern_line(p: (HandlePattern, usize)) -> Seq<char> {
    "The pattern "@ + p.0.spec_name() + " was seen "@ + crate::codec::ser_nat(p.1 as nat)
        + " times\n"@
}

/// The first `n` category lines.
pub open spec fn pattern_lines_up_to(ps: Seq<(HandlePattern, usize)>, n: int) -> Seq<char>
    decreases n,
{
    if n <= 0 {
        Seq::empty()
    } else {
        pattern_lines_up_to(ps, n - 1) + pattern_line(ps[n - 1])
    }
}

/// The printed report: a framed block naming the queries, the five most
/// common words, and the three most common handle categories.
pub open spec fn spec_summary(a: SearchAnalysis) -> Seq<char> {
    let wn = if a.word_frequency@.len() < 5 {
        a.word_frequency@.len() as int
    } else {
        5
    };
    let pn = if a.handle_patterns@.len() < 3 {
        a.handle_patterns@.len() as int
    } else {
        3
    };
    "------------------------------------\n"@ + "Most common words for queries: ["@
        + ser_query_items(a.queries@.map_values(|s: String| s@)) + "]\n"@ + word_lines_up_to(
        a.word_frequency@.map_values(|p: (String, usize)| word_pair_view(p)),
        wn,
    ) + pattern_lines_up_to(a.handle_patterns@, pn) + "------------------------------------\n"@
}

impl SearchAnalysis {
    /// Renders the report text of this analysis.
    pub fn summary(&self) -> (r: String)
        ensures
            r@ == spec_summary(*self),
    {
        let mut out: Vec<char> = Vec::new();
        append_str(&mut out, "------------------------------------\n");
        append_str(&mut out, "Most common words for queries: [");
        let ghost qn = self.queries@.map_values(|s: String| s@);
        let ghost mid1 = out@;
        let mut i: usize = 0;
        proof {
            assert(ser_query_items(qn.take(0)) =~= Seq::<char>::empty());
            assert(out@ =~= mid1 + ser_query_items(qn.take(0)));
        }
        while i < self.queries.len()
            invariant
                qn == self.queries@.map_values(|s: String| s@),
                i <= self.queries@.len(),
                out@ == mid1 + ser_query_items(qn.take(i as int)),
            decreases self.queries@.len() - i,
        {
            if i > 0 {
                out.push(',');
            }
            crate::codec::write_json_string(&mut out, self.queries[i].as_str());
            proof {
                assert(self.queries@[i as int]@ == qn[i as int]);
                lemma_ser_query_items_snoc(qn, i as int);
                assert(out@ =~= mid1 + ser_query_items(qn.take(i + 1)));
            }
            i = i + 1;
        }
        proof {
            assert(qn.take(qn.len() as int) =~= qn);
        }
        append_str(&mut out, "]\n");
        let ghost wf = self.word_frequency@.map_values(|p: (String, usize)| word_pair_view(p));
        let wn = if self.word_frequency.len() < 5 {
            self.word_frequency.len()
        } else {
            5
        };
        let ghost mid2 = out@;
        let mut i2: usize = 0;
        proof {
            assert(word_lines_up_to(wf, 0) =~= Seq::<char>::empty());
            assert(out@ =~= mid2 + word_lines_up_to(wf, 0));
        }
        while i2 < wn
            invariant
                wf == self.word_frequency@.map_values(|p: (String, usize)| word_pair_view(p)),
                wn <= self.word_frequency@.len(),
                i2 <= wn,
                out@ == mid2 + word_lines_up_to(wf, i2 as int),
            decreases wn - i2,
        {
            append_str(&mut out, self.word_frequency[i2].0.as_str());
            append_str(&mut out, " was seen ");
            crate::codec::write_nat_u64(&mut out, self.word_frequency[i2].1 as u64);
            append_str(&mut out, " times\n");
            proof {
                assert(wf[i2 as int] == word_pair_view(self.word_frequency@[i2 as int]));
                assert(out@ =~= mid2 + word_lines_up_to(wf, i2 + 1));
            }
            i2 = i2 + 1;
        }
        let ghost hp = self.handle_patterns@;
        let pn = if self.handle_patterns.len() < 3 {
            self.handle_patterns.len()
        } else {
            3
        };
        let ghost mid3 = out@;
        let mut i3: usize = 0;
        proof {
            assert(pattern_lines_up_to(hp, 0) =~= Seq::<char>::empty());
            assert(out@ =~= mid3 + pattern_lines_up_to(hp, 0));
        }
        while i3 < pn
            invariant
                hp == self.handle_patterns@,
                pn <= self.handle_patterns@.len(),
                i3 <= pn,
                out@ == mid3 + pattern_lines_up_to(hp, i3 as int),
            decreases pn - i3,
        {
            append_str(&mut out, "The pattern ");
            append_str(&mut out, self.handle_patterns[i3].0.name());
            append_str(&mut out, " was seen ");
            crate::codec::write_nat_u64(&mut out, self.handle_patterns[i3].1 as u64);
            append_str(&mut out, " times\n");
            proof {
                assert(out@ =~= mid3 + pattern_lines_up_to(hp, i3 + 1));
            }
            i3 = i3 + 1;
        }
        append_str(&mut out, "------------------------------------\n");
        proof {
            assert(out@ =~= spec_summary(*self));
        }
        crate::text::chars_to_string(&out)
    }
}

} // verus!
