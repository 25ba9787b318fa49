//! The capture record: one executed search with its raw results, the unit
//! the store writes once and the aggregator reads many times. Holds its
//! stored text form: a single JSON document with a fixed field layout, with
//! a serializer and a parser proved inverse to it.
//!
//! The stored form is this store's own version: one canonical byte layout
//! per record (fixed field order, no insignificant whitespace, instants as
//! `YYYY-MM-DDTHH:MM:SSZ`), which is what makes the round trip provable.
//! `retrieve_from_entries` treats any other layout in the tree as a foreign
//! or corrupt file and skips it rather than failing the walk.

use vstd::prelude::*;
use crate::codec::{
    ser_string, ser_nat, spec_parse_string, spec_parse_u32, write_json_string, parse_json_string,
    parse_u32, write_nat_u64, expect, parse_lit, lemma_subrange_cut, lemma_parse_string_bounds,
    lemma_parse_u32_bounds, lemma_parse_ser_string, lemma_parse_ser_u32, is_dec_digit,
    lemma_concat_cut,
};
use crate::time::{
    Timestamp, ser_ts, spec_parse_ts, write_timestamp, parse_timestamp, lemma_parse_ser_ts,
};
use crate::text::append_str;

verus! {

/// One post from a search result: its text, its author's handle, and plain
/// engagement counts.
pub struct Tweet {
    pub text: String,
    pub handle: String,
    pub date_utc: Timestamp,
    pub retweet_count: u32,
    pub favorite_count: u32,
}

/// The mathematical value of a `Tweet`.
pub struct TweetView {
    pub text: Seq<char>,
    pub handle: Seq<char>,
    pub date_utc: Timestamp,
    pub retweet_count: u32,
    pub favorite_count: u32,
}

impl TweetView {
    pub open spec fn wf(self) -> bool {
        self.date_utc.valid()
    }
}

impl View for Tweet {
    type V = TweetView;

    open spec fn view(&self) -> TweetView {
        TweetView {
            text: self.text@,
            handle: self.handle@,
            date_utc: self.date_utc,
            retweet_count: self.retweet_count,
            favorite_count: self.favorite_count,
        }
    }
}

impl Clone for Tweet {
    fn clone(&self) -> (r: Self)
        ensures
            r@ == self@,
    {
        Tweet {
            text: self.text.clone(),
            handle: self.handle.clone(),
            date_utc: self.date_utc,
            retweet_count: self.retweet_count,
            favorite_count: self.favorite_count,
        }
    }
}

/// One capture: the query, the instant of capture, and the posts returned.
pub struct QueryResult {
    pub query: String,
    pub date_utc: Timestamp,
    pub tweets: Vec<Tweet>,
}

/// The mathematical value of a `QueryResult`.
pub struct QueryResultView {
    pub query: Seq<char>,
    pub date_utc: Timestamp,
    pub tweets: Seq<TweetView>,
}

impl QueryResultView {
    pub open spec fn wf(self) -> bool {
        self.date_utc.valid() && forall|k: int|
            0 <= k < self.tweets.len() ==> (#[trigger] self.tweets[k]).wf()
    }
}

impl View for QueryResult {
    type V = QueryResultView;

    open spec fn view(&self) -> QueryResultView {
        QueryResultView {
            query: self.query@,
            date_utc: self.date_utc,
            tweets: self.tweets@.map_values(|t: Tweet| t@),
        }
    }
}

impl Clone for QueryResult {
    fn clone(&self) -> (r: Self)
        ensures
            r@ == self@,
    {
        let mut tweets: Vec<Tweet> = Vec::new();
        let mut i: usize = 0;
        while i < self.tweets.len()
            invariant
                i <= self.tweets@.len(),
                tweets@.map_values(|t: Tweet| t@) == self.tweets@.map_values(|t: Tweet| t@)
                    .take(i as int),
            decreases self.tweets@.len() - i,
        {
            let ghost prev = tweets@;
            tweets.push(self.tweets[i].clone());
            proof {
                assert(tweets@.map_values(|t: Tweet| t@) =~= prev.map_values(|t: Tweet| t@).push(
                    self.tweets@[i as int]@,
                ));
                assert(tweets@.map_values(|t: Tweet| t@) =~= self.tweets@.map_values(
                    |t: Tweet| t@,
                ).take(i + 1));
            }
            i = i + 1;
        }
        proof {
            assert(self.tweets@.map_values(|t: Tweet| t@).take(self.tweets@.len() as int)
                =~= self.tweets@.map_values(|t: Tweet| t@));
        }
        let r = QueryResult { query: self.query.clone(), date_utc: self.date_utc, tweets };
        r
    }
}

impl QueryResult {
    /// Builds a capture record from plain values.
    pub fn new(query: String, date_utc: Timestamp, tweets: Vec<Tweet>) -> (r: QueryResult)
        ensures
            r@ == (QueryResultView {
                query: query@,
                date_utc,
                tweets: tweets@.map_values(|t: Tweet| t@),
            }),
    {
        QueryResult { query, date_utc, tweets }
    }
}

// ---------------------------------------------------------------------------
// The stored document layout
// ---------------------------------------------------------------------------

pub open spec fn key_text() -> Seq<char> {
    seq!['"', 't', 'e', 'x', 't', '"', ':']
}

pub open spec fn key_handle() -> Seq<char> {
    seq![',', '"', 'h', 'a', 'n', 'd', 'l', 'e', '"', ':']
}

pub open spec fn key_date_utc() -> Seq<char> {
    seq![',', '"', 'd', 'a', 't', 'e', '_', 'u', 't', 'c', '"', ':', '"']
}

pub open spec fn key_retweet_count() -> Seq<char> {
    seq!['"', ',', '"', 'r', 'e', 't', 'w', 'e', 'e', 't', '_', 'c', 'o', 'u', 'n', 't', '"', ':']
}

pub open spec fn key_favorite_count() -> Seq<char> {
    seq![',', '"', 'f', 'a', 'v', 'o', 'r', 'i', 't', 'e', '_', 'c', 'o', 'u', 'n', 't', '"', ':']
}

pub open spec fn key_query() -> Seq<char> {
    seq!['{', '"', 'q', 'u', 'e', 'r', 'y', '"', ':']
}

pub open spec fn key_tweets() -> Seq<char> {
    seq!['"', ',', '"', 't', 'w', 'e', 'e', 't', 's', '"', ':', '[']
}

/// The stored form of one post:
/// `{"text":…,"handle":…,"date_utc":"…","retweet_count":…,"favorite_count":…}`.
pub open spec fn ser_tweet(t: TweetView) -> Seq<char> {
    seq!['{'] + key_text() + ser_string(t.text) + key_handle() + ser_string(t.handle)
        + key_date_utc() + ser_ts(t.date_utc) + key_retweet_count() + ser_nat(
        t.retweet_count as nat,
    ) + key_favorite_count() + ser_nat(t.favorite_count as nat) + seq!['}']
}

/// The comma-separated stored forms of a sequence of posts.
pub open spec fn ser_tweet_items(ts: Seq<TweetView>) -> Seq<char>
    decreases ts.len(),
{
    if ts.len() == 0 {
        Seq::empty()
    } else if ts.len() == 1 {
        ser_tweet(ts[0])
    } else {
        ser_tweet(ts[0]) + seq![','] + ser_tweet_items(ts.skip(1))
    }
}

/// The stored form of a capture record:
/// `{"query":…,"date_utc":"…","tweets":[…]}`.
pub open spec fn ser_query_result(q: QueryResultView) -> Seq<char> {
    key_query() + ser_string(q.query) + key_date_utc() + ser_ts(q.date_utc) + key_tweets()
        + ser_tweet_items(q.tweets) + seq![']', '}']
}

/// Appends the stored form of one post to `out`.
pub fn write_tweet(out: &mut Vec<char>, t: &Tweet)
    requires
        t@.wf(),
    ensures
        final(out)@ == old(out)@ + ser_tweet(t@),
{
    append_str(out, "{\"text\":");
    write_json_string(out, self_text(t));
    append_str(out, ",\"handle\":");
    write_json_string(out, self_handle(t));
    append_str(out, ",\"date_utc\":\"");
    write_timestamp(out, &t.date_utc);
    append_str(out, "\",\"retweet_count\":");
    write_nat_u64(out, t.retweet_count as u64);
    append_str(out, ",\"favorite_count\":");
    write_nat_u64(out, t.favorite_count as u64);
    out.push('}');
    proof {
        reveal_strlit("{\"text\":");
        reveal_strlit(",\"handle\":");
        reveal_strlit(",\"date_utc\":\"");
        reveal_strlit("\",\"retweet_count\":");
        reveal_strlit(",\"favorite_count\":");
        assert("{\"text\":"@ =~= seq!['{'] + key_text());
        assert(",\"handle\":"@ =~= key_handle());
        assert(",\"date_utc\":\""@ =~= key_date_utc());
        assert("\",\"retweet_count\":"@ =~= key_retweet_count());
        assert(",\"favorite_count\":"@ =~= key_favorite_count());
        assert(final(out)@ =~= old(out)@ + ser_tweet(t@));
    }
}

/// Reads the `text` field (a borrow helper).
fn self_text(t: &Tweet) -> (r: &str)
    ensures
        r@ == t@.text,
{
    t.text.as_str()
}

/// Reads the `handle` field (a borrow helper).
fn self_handle(t: &Tweet) -> (r: &str)
    ensures
        r@ == t@.handle,
{
    t.handle.as_str()
}

/// Appends the stored form of a capture record to `out`.
pub fn write_query_result(out: &mut Vec<char>, q: &QueryResult)
    requires
        q@.wf(),
    ensures
        final(out)@ == old(out)@ + ser_query_result(q@),
{
    append_str(out, "{\"query\":");
    write_json_string(out, q.query.as_str());
    append_str(out, ",\"date_utc\":\"");
    write_timestamp(out, &q.date_utc);
    append_str(out, "\",\"tweets\":[");
    let ghost items = q@.tweets;
    let mut i: usize = 0;
    let ghost mid = out@;
    proof {
        assert(ser_tweet_items(items.take(0)) =~= Seq::<char>::empty());
        assert(out@ =~= mid + ser_tweet_items(items.take(0)));
    }
    while i < q.tweets.len()
        invariant
            q@.wf(),
            items == q@.tweets,
            items.len() == q.tweets@.len(),
            i <= q.tweets@.len(),
            forall|k: int| 0 <= k < items.len() ==> items[k] == q.tweets@[k]@,
            out@ == mid + ser_tweet_items(items.take(i as int)),
        decreases q.tweets@.len() - i,
    {
        if i > 0 {
            out.push(',');
        }
        proof {
            assert(items[i as int].wf());
            assert(q.tweets@[i as int]@.wf());
        }
        write_tweet(out, &q.tweets[i]);
        proof {
            assert(q.tweets@[i as int]@ == items[i as int]);
            lemma_ser_tweet_items_snoc(items, i as int);
            assert(out@ =~= mid + ser_tweet_items(items.take(i + 1)));
        }
        i = i + 1;
    }
    out.push(']');
    out.push('}');
    proof {
        reveal_strlit("{\"query\":");
        reveal_strlit(",\"date_utc\":\"");
        reveal_strlit("\",\"tweets\":[");
        assert("{\"query\":"@ =~= key_query());
        assert(",\"date_utc\":\""@ =~= key_date_utc());
        assert("\",\"tweets\":["@ =~= key_tweets());
        assert(items.take(items.len() as int) =~= items);
        assert(final(out)@ =~= old(out)@ + ser_query_result(q@));
    }
}

/// Taking one more item appends a separating comma (after the first item)
/// and the item's stored form.
proof fn lemma_ser_tweet_items_snoc(items: Seq<TweetView>, i: int)
    requires
        0 <= i < items.len(),
    ensures
        ser_tweet_items(items.take(i + 1)) == ser_tweet_items(items.take(i)) + (if i > 0 {
            seq![',']
        } else {
            Seq::<char>::empty()
        }) + ser_tweet(items[i]),
    decreases i,
{
    if i == 0 {
        assert(items.take(1) =~= seq![items[0]]);
        assert(seq![items[0]][0] == items[0]);
        assert(items.take(0) =~= Seq::<TweetView>::empty());
        assert(ser_tweet_items(items.take(1)) == ser_tweet(items[0]));
        assert(ser_tweet_items(items.take(0)) + Seq::<char>::empty() + ser_tweet(items[0])
            =~= ser_tweet(items[0]));
    } else {
        lemma_ser_tweet_items_snoc(items.skip(1), i - 1);
        let a = items.take(i + 1);
        let b = items.take(i);
        assert(a.len() >= 2);
        assert(a[0] == items[0] && b[0] == items[0]);
        assert(a.skip(1) =~= items.skip(1).take(i));
        assert(b.skip(1) =~= items.skip(1).take(i - 1));
        assert(items.skip(1)[i - 1] == items[i]);
        assert(ser_tweet_items(a) == ser_tweet(items[0]) + seq![','] + ser_tweet_items(
            items.skip(1).take(i),
        ));
        if i == 1 {
            assert(b.len() == 1);
            assert(ser_tweet_items(b) == ser_tweet(items[0]));
            assert(items.skip(1).take(0) =~= Seq::<TweetView>::empty());
            assert(ser_tweet_items(items.skip(1).take(1)) == ser_tweet_items(items.skip(1).take(0))
                + Seq::<char>::empty() + ser_tweet(items.skip(1)[0]));
            assert(ser_tweet_items(a) =~= ser_tweet_items(b) + seq![','] + ser_tweet(items[1]));
        } else {
            assert(ser_tweet_items(b) == ser_tweet(items[0]) + seq![','] + ser_tweet_items(
                items.skip(1).take(i - 1),
            ));
            assert(ser_tweet_items(items.skip(1).take(i)) == ser_tweet_items(items.skip(1).take(
                i - 1,
            )) + seq![','] + ser_tweet(items.skip(1)[i - 1]));
            assert(ser_tweet_items(a) =~= ser_tweet_items(b) + seq![','] + ser_tweet(items[i]));
        }
    }
}


// ---------------------------------------------------------------------------
// Parsing
// ---------------------------------------------------------------------------

/// Parses one post at `i`: the exact field layout of `ser_tweet`.
pub open spec fn spec_parse_tweet(s: Seq<char>, i: int) -> Option<(TweetView, int)> {
    match expect(s, i, seq!['{'] + key_text()) {
        None => None,
        Some(i1) => match spec_parse_string(s, i1) {
            None => None,
            Some((text, i2)) => match expect(s, i2, key_handle()) {
                None => None,
                Some(i3) => match spec_parse_string(s, i3) {
                    None => None,
                    Some((handle, i4)) => match expect(s, i4, key_date_utc()) {
                        None => None,
                        Some(i5) => match spec_parse_ts(s, i5) {
                            None => None,
                            Some((date_utc, i6)) => match expect(s, i6, key_retweet_count()) {
                                None => None,
                                Some(i7) => match spec_parse_u32(s, i7) {
                                    None => None,
                                    Some((retweet_count, i8)) => match expect(
                                        s,
                                        i8,
                                        key_favorite_count(),
                                    ) {
                                        None => None,
                                        Some(i9) => match spec_parse_u32(s, i9) {
                                            None => None,
                                            Some((favorite_count, i10)) => match expect(
                                                s,
                                                i10,
                                                seq!['}'],
                                            ) {
                                                None => None,
                                                Some(i11) => Some(
                                                    (
                                                        TweetView {
                                                            text,
                                                            handle,
                                                            date_utc,
                                                            retweet_count,
                                                            favorite_count,
                                                        },
                                                        i11,
                                                    ),
                                                ),
                                            },
                                        },
                                    },
                                },
                            },
                        },
                    },
                },
            },
        },
    }
}

/// A parsed post lies strictly inside the input.
pub proof fn lemma_parse_tweet_bounds(s: Seq<char>, i: int)
    ensures
        spec_parse_tweet(s, i) matches Some((t, j)) ==> i < j <= s.len(),
{
    match expect(s, i, seq!['{'] + key_text()) {
        None => {},
        Some(i1) => {
            lemma_parse_string_bounds(s, i1);
            match spec_parse_string(s, i1) {
                None => {},
                Some((text, i2)) => {
                    match expect(s, i2, key_handle()) {
                        None => {},
                        Some(i3) => {
                            lemma_parse_string_bounds(s, i3);
                            match spec_parse_string(s, i3) {
                                None => {},
                                Some((handle, i4)) => {
                                    match expect(s, i4, key_date_utc()) {
                                        None => {},
                                        Some(i5) => {
                                            match spec_parse_ts(s, i5) {
                                                None => {},
                                                Some((ts, i6)) => {
                                                    match expect(s, i6, key_retweet_count()) {
                                                        None => {},
                                                        Some(i7) => {
                                                            lemma_parse_u32_bounds(s, i7);
                                                            match spec_parse_u32(s, i7) {
                                                                None => {},
                                                                Some((rt, i8)) => {
                                                                    match expect(
                                                                        s,
                                                                        i8,
                                                                        key_favorite_count(),
                                                                    ) {
                                                                        None => {},
                                                                        Some(i9) => {
                                                                            lemma_parse_u32_bounds(
                                                                                s,
                                                                                i9,
                                                                            );
                                                                        },
                                                                    }
                                                                },
                                                            }
                                                        },
                                                    }
                                                },
                                            }
                                        },
                                    }
                                },
                            }
                        },
                    }
                },
            }
        },
    }
}

/// Parses the comma-separated posts of a capture, starting just past the
/// opening bracket; consumes the closing bracket.
pub open spec fn spec_parse_tweet_list(s: Seq<char>, i: int) -> Option<(Seq<TweetView>, int)>
    decreases s.len() - i,
    when 0 <= i <= s.len()
    via spec_parse_tweet_list_dec
{
    if i < s.len() && s[i] == ']' {
        Some((Seq::empty(), i + 1))
    } else {
        match spec_parse_tweet(s, i) {
            None => None,
            Some((t, j)) => {
                if j < s.len() && s[j] == ',' {
                    match spec_parse_tweet_list(s, j + 1) {
                        None => None,
                        Some((ts, k)) => Some((seq![t] + ts, k)),
                    }
                } else if j < s.len() && s[j] == ']' {
                    Some((seq![t], j + 1))
                } else {
                    None
                }
            },
        }
    }
}

#[via_fn]
proof fn spec_parse_tweet_list_dec(s: Seq<char>, i: int) {
    lemma_parse_tweet_bounds(s, i);
}

/// Parses a capture record at `i`: the exact field layout of
/// `ser_query_result`.
pub open spec fn spec_parse_query_result(s: Seq<char>, i: int) -> Option<(QueryResultView, int)> {
    if !(0 <= i <= s.len()) {
        None
    } else {
        match expect(s, i, key_query()) {
            None => None,
            Some(i1) => match spec_parse_string(s, i1) {
                None => None,
                Some((query, i2)) => match expect(s, i2, key_date_utc()) {
                    None => None,
                    Some(i3) => match spec_parse_ts(s, i3) {
                        None => None,
                        Some((date_utc, i4)) => match expect(s, i4, key_tweets()) {
                            None => None,
                            Some(i5) => match spec_parse_tweet_list(s, i5) {
                                None => None,
                                Some((tweets, i6)) => match expect(s, i6, seq!['}']) {
                                    None => None,
                                    Some(i7) => Some(
                                        (QueryResultView { query, date_utc, tweets }, i7),
                                    ),
                                },
                            },
                        },
                    },
                },
            },
        }
    }
}

/// What `QueryResult::from_json` returns: the one record whose stored form
/// is the whole input, if there is one.
pub open spec fn spec_deserialize_query_result(s: Seq<char>) -> Option<QueryResultView> {
    match spec_parse_query_result(s, 0) {
        None => None,
        Some((q, j)) => if j == s.len() {
            Some(q)
        } else {
            None
        },
    }
}

/// Parses one post at `i`, as `spec_parse_tweet` does.
pub fn parse_tweet(s: &Vec<char>, i: usize) -> (r: Option<(Tweet, usize)>)
    requires
        i <= s@.len(),
    ensures
        r matches Some((t, j)) ==> spec_parse_tweet(s@, i as int) == Some((t@, j as int)) && j
            <= s@.len(),
        r is None ==> spec_parse_tweet(s@, i as int) is None,
{
    proof {
        reveal_strlit("{\"text\":");
        reveal_strlit(",\"handle\":");
        reveal_strlit(",\"date_utc\":\"");
        reveal_strlit("\",\"retweet_count\":");
        reveal_strlit(",\"favorite_count\":");
        reveal_strlit("}");
        assert("{\"text\":"@ =~= seq!['{'] + key_text());
        assert(",\"handle\":"@ =~= key_handle());
        assert(",\"date_utc\":\""@ =~= key_date_utc());
        assert("\",\"retweet_count\":"@ =~= key_retweet_count());
        assert(",\"favorite_count\":"@ =~= key_favorite_count());
        assert("}"@ =~= seq!['}']);
    }
    let r1 = parse_lit(s, i, "{\"text\":");
    if r1.is_none() {
        return None;
    }
    let r2 = parse_json_string(s, r1.unwrap());
    if r2.is_none() {
        return None;
    }
    let (text, i2) = r2.unwrap();
    let r3 = parse_lit(s, i2, ",\"handle\":");
    if r3.is_none() {
        return None;
    }
    let r4 = parse_json_string(s, r3.unwrap());
    if r4.is_none() {
        return None;
    }
    let (handle, i4) = r4.unwrap();
    let r5 = parse_lit(s, i4, ",\"date_utc\":\"");
    if r5.is_none() {
        return None;
    }
    let r6 = parse_timestamp(s, r5.unwrap());
    if r6.is_none() {
        return None;
    }
    let (date_utc, i6) = r6.unwrap();
    proof {
        assert(i6 <= s@.len());
    }
    let r7 = parse_lit(s, i6, "\",\"retweet_count\":");
    if r7.is_none() {
        return None;
    }
    let r8 = parse_u32(s, r7.unwrap());
    if r8.is_none() {
        return None;
    }
    let (retweet_count, i8) = r8.unwrap();
    proof {
        crate::codec::lemma_parse_u32_bounds(s@, r7.unwrap() as int);
    }
    let r9 = parse_lit(s, i8, ",\"favorite_count\":");
    if r9.is_none() {
        return None;
    }
    let r10 = parse_u32(s, r9.unwrap());
    if r10.is_none() {
        return None;
    }
    let (favorite_count, i10) = r10.unwrap();
    proof {
        crate::codec::lemma_parse_u32_bounds(s@, r9.unwrap() as int);
    }
    let r11 = parse_lit(s, i10, "}");
    if r11.is_none() {
        return None;
    }
    let t = Tweet { text, handle, date_utc, retweet_count, favorite_count };
    Some((t, r11.unwrap()))
}

/// Parses the posts of a capture at `i`, as `spec_parse_tweet_list` does.
pub fn parse_tweet_list(s: &Vec<char>, i: usize) -> (r: Option<(Vec<Tweet>, usize)>)
    requires
        i <= s@.len(),
    ensures
        r matches Some((ts, j)) ==> spec_parse_tweet_list(s@, i as int) == Some(
            (ts@.map_values(|t: Tweet| t@), j as int),
        ) && j <= s@.len(),
        r is None ==> spec_parse_tweet_list(s@, i as int) is None,
{
    let mut acc: Vec<Tweet> = Vec::new();
    let mut k: usize = i;
    proof {
        assert(acc@.map_values(|t: Tweet| t@) =~= Seq::<TweetView>::empty());
    }
    loop
        invariant
            i <= k <= s@.len(),
            spec_parse_tweet_list(s@, i as int) == match spec_parse_tweet_list(s@, k as int) {
                Some((ts, j)) => Some::<(Seq<TweetView>, int)>(
                    (acc@.map_values(|t: Tweet| t@) + ts, j),
                ),
                None => None::<(Seq<TweetView>, int)>,
            },
        decreases s@.len() - k,
    {
        if k < s.len() && s[k] == ']' {
            proof {
                assert(acc@.map_values(|t: Tweet| t@) + Seq::<TweetView>::empty() =~= acc@.map_values(
                    |t: Tweet| t@,
                ));
            }
            return Some((acc, k + 1));
        }
        let rt = parse_tweet(s, k);
        if rt.is_none() {
            return None;
        }
        let (t, j) = rt.unwrap();
        proof {
            lemma_parse_tweet_bounds(s@, k as int);
        }
        if j < s.len() && s[j] == ',' {
            let ghost prev = acc@;
            acc.push(t);
            proof {
                assert(acc@.map_values(|tt: Tweet| tt@) =~= prev.map_values(|tt: Tweet| tt@).push(
                    t@,
                ));
                match spec_parse_tweet_list(s@, j + 1) {
                    Some((ts0, j0)) => {
                        assert(prev.map_values(|tt: Tweet| tt@) + (seq![t@] + ts0)
                            =~= acc@.map_values(|tt: Tweet| tt@) + ts0);
                    },
                    None => {},
                }
            }
            k = j + 1;
        } else if j < s.len() && s[j] == ']' {
            let ghost prev = acc@;
            acc.push(t);
            proof {
                assert(acc@.map_values(|tt: Tweet| tt@) =~= prev.map_values(|tt: Tweet| tt@).push(
                    t@,
                ));
                assert(prev.map_values(|tt: Tweet| tt@) + seq![t@] =~= acc@.map_values(
                    |tt: Tweet| tt@,
                ));
            }
            return Some((acc, j + 1));
        } else {
            return None;
        }
    }
}

/// Parses a capture record at `i`, as `spec_parse_query_result` does.
pub fn parse_query_result(s: &Vec<char>, i: usize) -> (r: Option<(QueryResult, usize)>)
    requires
        i <= s@.len(),
    ensures
        r matches Some((q, j)) ==> spec_parse_query_result(s@, i as int) == Some(
            (q@, j as int),
        ) && j <= s@.len(),
        r is None ==> spec_parse_query_result(s@, i as int) is None,
{
    proof {
        reveal_strlit("{\"query\":");
        reveal_strlit(",\"date_utc\":\"");
        reveal_strlit("\",\"tweets\":[");
        reveal_strlit("}");
        assert("{\"query\":"@ =~= key_query());
        assert(",\"date_utc\":\""@ =~= key_date_utc());
        assert("\",\"tweets\":["@ =~= key_tweets());
        assert("}"@ =~= seq!['}']);
    }
    let r1 = parse_lit(s, i, "{\"query\":");
    if r1.is_none() {
        return None;
    }
    let r2 = parse_json_string(s, r1.unwrap());
    if r2.is_none() {
        return None;
    }
    let (query, i2) = r2.unwrap();
    let r3 = parse_lit(s, i2, ",\"date_utc\":\"");
    if r3.is_none() {
        return None;
    }
    let r4 = parse_timestamp(s, r3.unwrap());
    if r4.is_none() {
        return None;
    }
    let (date_utc, i4) = r4.unwrap();
    proof {
        assert(i4 <= s@.len());
    }
    let r5 = parse_lit(s, i4, "\",\"tweets\":[");
    if r5.is_none() {
        return None;
    }
    let r6 = parse_tweet_list(s, r5.unwrap());
    if r6.is_none() {
        return None;
    }
    let (tweets, i6) = r6.unwrap();
    let r7 = parse_lit(s, i6, "}");
    if r7.is_none() {
        return None;
    }
    let q = QueryResult { query, date_utc, tweets };
    Some((q, r7.unwrap()))
}

impl QueryResult {
    /// The stored text form of this record.
    pub fn to_json(&self) -> (r: String)
        requires
            self@.wf(),
        ensures
            r@ == ser_query_result(self@),
    {
        let mut out: Vec<char> = Vec::new();
        write_query_result(&mut out, self);
        crate::text::chars_to_string(&out)
    }

    /// Reads a stored text form back; `None` on anything else.
    pub fn from_json(s: &str) -> (r: Option<QueryResult>)
        ensures
            r matches Some(q) ==> spec_deserialize_query_result(s@) == Some(q@),
            r is None ==> spec_deserialize_query_result(s@) is None,
    {
        let chars = crate::text::str_to_chars(s);
        let p = parse_query_result(&chars, 0);
        if p.is_none() {
            return None;
        }
        let (q, j) = p.unwrap();
        if j != chars.len() {
            return None;
        }
        Some(q)
    }
}


// ---------------------------------------------------------------------------
// The round trip
// ---------------------------------------------------------------------------

/// Parsing reverses serialization for one post.
#[verifier::rlimit(100)]
#[verifier::spinoff_prover]
pub proof fn lemma_parse_ser_tweet(s: Seq<char>, i: int, t: TweetView)
    requires
        0 <= i,
        t.wf(),
        i + ser_tweet(t).len() <= s.len(),
        s.subrange(i, i + ser_tweet(t).len()) == ser_tweet(t),
    ensures
        spec_parse_tweet(s, i) == Some((t, i + ser_tweet(t).len())),
{
    let w = ser_tweet(t);
    let p1 = seq!['{'] + key_text();
    let p2 = ser_string(t.text);
    let p3 = key_handle();
    let p4 = ser_string(t.handle);
    let p5 = key_date_utc();
    let p6 = ser_ts(t.date_utc);
    let p7 = key_retweet_count();
    let p8 = ser_nat(t.retweet_count as nat);
    let p9 = key_favorite_count();
    let p10 = ser_nat(t.favorite_count as nat);
    let p11 = seq!['}'];
    let o1 = p1.len() as int;
    let o2 = o1 + p2.len();
    let o3 = o2 + p3.len();
    let o4 = o3 + p4.len();
    let o5 = o4 + p5.len();
    let o6 = o5 + p6.len();
    let o7 = o6 + p7.len();
    let o8 = o7 + p8.len();
    let o9 = o8 + p9.len();
    let o10 = o9 + p10.len();
    let o11 = o10 + 1;
    assert(w.len() == o11);
    assert(w.subrange(0, o1) =~= p1);
    assert(w.subrange(o1, o2) =~= p2);
    assert(w.subrange(o2, o3) =~= p3);
    assert(w.subrange(o3, o4) =~= p4);
    assert(w.subrange(o4, o5) =~= p5);
    assert(w.subrange(o5, o6) =~= p6);
    assert(w.subrange(o6, o7) =~= p7);
    assert(w.subrange(o7, o8) =~= p8);
    assert(w.subrange(o8, o9) =~= p9);
    assert(w.subrange(o9, o10) =~= p10);
    assert(w.subrange(o10, o11) =~= p11);
    lemma_subrange_cut(s, i, w, 0, o1);
    lemma_subrange_cut(s, i, w, o1, o2);
    lemma_subrange_cut(s, i, w, o2, o3);
    lemma_subrange_cut(s, i, w, o3, o4);
    lemma_subrange_cut(s, i, w, o4, o5);
    lemma_subrange_cut(s, i, w, o5, o6);
    lemma_subrange_cut(s, i, w, o6, o7);
    lemma_subrange_cut(s, i, w, o7, o8);
    lemma_subrange_cut(s, i, w, o8, o9);
    lemma_subrange_cut(s, i, w, o9, o10);
    lemma_subrange_cut(s, i, w, o10, o11);
    assert(expect(s, i, p1) == Some(i + o1));
    lemma_parse_ser_string(s, i + o1, t.text);
    assert(spec_parse_string(s, i + o1) == Some((t.text, i + o2)));
    assert(expect(s, i + o2, p3) == Some(i + o3));
    lemma_parse_ser_string(s, i + o3, t.handle);
    assert(spec_parse_string(s, i + o3) == Some((t.handle, i + o4)));
    assert(expect(s, i + o4, p5) == Some(i + o5));
    lemma_parse_ser_ts(s, i + o5, t.date_utc);
    assert(spec_parse_ts(s, i + o5) == Some((t.date_utc, i + o6)));
    assert(expect(s, i + o6, p7) == Some(i + o7));
    assert(s[i + o8] == ',') by {
        assert(s.subrange(i + o8, i + o9)[0] == s[i + o8]);
        assert(p9[0] == ',');
    }
    assert(!is_dec_digit(',')) by {
        assert((',' as u32) == 44);
    }
    lemma_parse_ser_u32(s, i + o7, t.retweet_count);
    assert(spec_parse_u32(s, i + o7) == Some((t.retweet_count, i + o8)));
    assert(expect(s, i + o8, p9) == Some(i + o9));
    assert(s[i + o10] == '}') by {
        assert(s.subrange(i + o10, i + o11)[0] == s[i + o10]);
        assert(p11[0] == '}');
    }
    assert(!is_dec_digit('}')) by {
        assert(('}' as u32) == 125);
    }
    lemma_parse_ser_u32(s, i + o9, t.favorite_count);
    assert(spec_parse_u32(s, i + o9) == Some((t.favorite_count, i + o10)));
    assert(expect(s, i + o10, p11) == Some(i + o11));
    assert((TweetView {
        text: t.text,
        handle: t.handle,
        date_utc: t.date_utc,
        retweet_count: t.retweet_count,
        favorite_count: t.favorite_count,
    }) == t);
}

/// The stored form of a post begins with an opening brace.
proof fn lemma_ser_tweet_first(t: TweetView)
    ensures
        ser_tweet(t).len() > 0,
        ser_tweet(t)[0] == '{',
{
    let p1 = seq!['{'] + key_text();
    assert(p1[0] == '{');
    assert(ser_tweet(t)[0] == p1[0]);
}

/// Parsing reverses serialization for the post list (with its closing
/// bracket).
#[verifier::rlimit(100)]
pub proof fn lemma_parse_ser_tweet_items(s: Seq<char>, i: int, ts: Seq<TweetView>)
    requires
        0 <= i,
        forall|k: int| 0 <= k < ts.len() ==> (#[trigger] ts[k]).wf(),
        i + ser_tweet_items(ts).len() + 1 <= s.len(),
        s.subrange(i, i + ser_tweet_items(ts).len() + 1) == ser_tweet_items(ts) + seq![']'],
    ensures
        spec_parse_tweet_list(s, i) == Some((ts, i + ser_tweet_items(ts).len() + 1)),
    decreases ts.len(),
{
    let w = ser_tweet_items(ts) + seq![']'];
    let l = ser_tweet_items(ts).len() as int;
    if ts.len() == 0 {
        assert(ser_tweet_items(ts) == Seq::<char>::empty());
        assert(w =~= seq![']']);
        assert(s.subrange(i, i + 1)[0] == s[i]);
        assert(s[i] == ']');
        assert(ts =~= Seq::<TweetView>::empty());
    } else {
        let t0 = ts[0];
        assert(t0.wf());
        lemma_ser_tweet_first(t0);
        let tl = ser_tweet(t0).len() as int;
        if ts.len() == 1 {
            assert(ser_tweet_items(ts) == ser_tweet(t0));
            assert(w.subrange(0, tl) =~= ser_tweet(t0));
            lemma_subrange_cut(s, i, w, 0, tl);
            lemma_parse_ser_tweet(s, i, t0);
            assert(s[i] == '{') by {
                assert(s.subrange(i, i + tl)[0] == s[i]);
            }
            assert(s[i] != ']');
            assert(s[i + tl] == ']') by {
                assert(s.subrange(i, i + l + 1)[tl] == s[i + tl]);
                assert(w[tl] == ']');
            }
            assert(ts =~= seq![t0]);
        } else {
            let rest = ts.skip(1);
            assert(ser_tweet_items(ts) == ser_tweet(t0) + seq![','] + ser_tweet_items(rest));
            assert(w.subrange(0, tl) =~= ser_tweet(t0));
            lemma_subrange_cut(s, i, w, 0, tl);
            lemma_parse_ser_tweet(s, i, t0);
            assert(s[i] == '{') by {
                assert(s.subrange(i, i + tl)[0] == s[i]);
            }
            assert(s[i] != ']');
            assert(s[i + tl] == ',') by {
                assert(s.subrange(i, i + l + 1)[tl] == s[i + tl]);
                assert(w[tl] == ',');
            }
            let i2 = i + tl + 1;
            let l2 = ser_tweet_items(rest).len() as int;
            assert(w.subrange(tl + 1, l + 1) =~= ser_tweet_items(rest) + seq![']']);
            lemma_subrange_cut(s, i, w, tl + 1, l + 1);
            assert(forall|k: int| 0 <= k < rest.len() ==> (#[trigger] rest[k]).wf()) by {
                assert(forall|k: int| 0 <= k < rest.len() ==> rest[k] == ts[k + 1]);
            }
            lemma_parse_ser_tweet_items(s, i2, rest);
            assert(spec_parse_tweet_list(s, i2) == Some((rest, i + l + 1)));
            assert(seq![t0] + rest =~= ts);
        }
    }
}

/// The stored form of a capture record, regrouped around the list's
/// closing bracket.
proof fn lemma_ser_query_result_split(q: QueryResultView)
    ensures
        ser_query_result(q) =~= ((((key_query() + ser_string(q.query)) + key_date_utc()) + ser_ts(
            q.date_utc,
        ) + key_tweets()) + (ser_tweet_items(q.tweets) + seq![']'])) + seq!['}'],
{
    let c5 = key_query() + ser_string(q.query) + key_date_utc() + ser_ts(q.date_utc)
        + key_tweets();
    assert(ser_query_result(q) == (c5 + ser_tweet_items(q.tweets)) + seq![']', '}']);
    assert((c5 + ser_tweet_items(q.tweets)) + seq![']', '}'] =~= (c5 + (ser_tweet_items(q.tweets)
        + seq![']'])) + seq!['}']);
}

/// Parsing reverses serialization for a whole capture record.
#[verifier::rlimit(100)]
#[verifier::spinoff_prover]
pub proof fn lemma_parse_ser_query_result(s: Seq<char>, i: int, q: QueryResultView)
    requires
        0 <= i,
        q.wf(),
        i + ser_query_result(q).len() <= s.len(),
        s.subrange(i, i + ser_query_result(q).len()) == ser_query_result(q),
    ensures
        spec_parse_query_result(s, i) == Some((q, i + ser_query_result(q).len())),
{
    let p1 = key_query();
    let p2 = ser_string(q.query);
    let p3 = key_date_utc();
    let p4 = ser_ts(q.date_utc);
    let p5 = key_tweets();
    let p6 = ser_tweet_items(q.tweets) + seq![']'];
    let p7 = seq!['}'];
    let o1 = p1.len() as int;
    let o2 = o1 + p2.len();
    let o3 = o2 + p3.len();
    let o4 = o3 + p4.len();
    let o5 = o4 + p5.len();
    let o6 = o5 + p6.len();
    let o7 = o6 + 1;
    let c1 = p1;
    let c2 = c1 + p2;
    let c3 = c2 + p3;
    let c4 = c3 + p4;
    let c5 = c4 + p5;
    let c6 = c5 + p6;
    let w = ser_query_result(q);
    lemma_ser_query_result_split(q);
    assert(w =~= c6 + p7);
    assert(w.len() == o7);
    lemma_concat_cut(s, i, c6, p7);
    lemma_concat_cut(s, i, c5, p6);
    lemma_concat_cut(s, i, c4, p5);
    lemma_concat_cut(s, i, c3, p4);
    lemma_concat_cut(s, i, c2, p3);
    lemma_concat_cut(s, i, c1, p2);
    assert(expect(s, i, p1) == Some(i + o1));
    lemma_parse_ser_string(s, i + o1, q.query);
    assert(spec_parse_string(s, i + o1) == Some((q.query, i + o2)));
    assert(expect(s, i + o2, p3) == Some(i + o3));
    lemma_parse_ser_ts(s, i + o3, q.date_utc);
    assert(spec_parse_ts(s, i + o3) == Some((q.date_utc, i + o4)));
    assert(expect(s, i + o4, p5) == Some(i + o5));
    lemma_parse_ser_tweet_items(s, i + o5, q.tweets);
    assert(spec_parse_tweet_list(s, i + o5) == Some((q.tweets, i + o6)));
    assert(expect(s, i + o6, p7) == Some(i + o7));
    assert((QueryResultView { query: q.query, date_utc: q.date_utc, tweets: q.tweets }) == q);
}

/// Round trip: any well-formed capture record written by the serializer is
/// read back unchanged, field for field, items in order.
pub proof fn lemma_query_result_round_trip(q: QueryResultView)
    requires
        q.wf(),
    ensures
        spec_deserialize_query_result(ser_query_result(q)) == Some(q),
{
    let s = ser_query_result(q);
    assert(s.subrange(0, s.len() as int) =~= s);
    lemma_parse_ser_query_result(s, 0, q);
}

} // verus!
