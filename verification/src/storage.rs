//! The result store's logic: the directory layout that maps records to
//! paths, the file-name test that recognizes stored captures, and the
//! retrieval filter that turns a walked tree back into capture records,
//! skipping anything that does not parse.

use vstd::prelude::*;
use crate::records::{QueryResult, QueryResultView, spec_deserialize_query_result};
use crate::analysis::SearchAnalysis;
use crate::time::{Timestamp, ser_ts, write_timestamp};
use crate::text::append_str;

verus! {

/// The default storage tree root.
pub open spec fn default_storage_dir() -> Seq<char> {
    seq!['d', 'a', 't', 'a']
}

/// The fixed name tail of a stored capture record.
pub open spec fn query_result_suffix() -> Seq<char> {
    seq!['q', 'u', 'e', 'r', 'y', '-', 'r', 'e', 's', 'u', 'l', 't', '.', 'j', 's', 'o', 'n']
}

/// The fixed name tail of a stored analysis record.
pub open spec fn analysis_result_suffix() -> Seq<char> {
    seq![
        'a', 'n', 'a', 'l', 'y', 's', 'i', 's', '-', 'r', 'e', 's', 'u', 'l', 't', '.', 'j', 's',
        'o', 'n',
    ]
}

/// The file name of a capture taken at `ts`: the sortable instant, a dot,
/// and the fixed tail.
pub open spec fn capture_file_name(ts: Timestamp) -> Seq<char> {
    ser_ts(ts) + seq!['.'] + query_result_suffix()
}

/// The file name of an analysis generated at `ts`.
pub open spec fn analysis_file_name(ts: Timestamp) -> Seq<char> {
    ser_ts(ts) + seq!['.'] + analysis_result_suffix()
}

/// The source queries joined with dots: the analysis directory name.
pub open spec fn joined_queries(qs: Seq<Seq<char>>) -> Seq<char>
    decreases qs.len(),
{
    if qs.len() == 0 {
        Seq::empty()
    } else if qs.len() == 1 {
        qs[0]
    } else {
        qs[0] + seq!['.'] + joined_queries(qs.skip(1))
    }
}

/// Maps records to paths under a configurable base directory.
pub struct StorageHandler {
    base_dir: String,
}

impl StorageHandler {
    /// The view of the base directory.
    pub closed spec fn base(self) -> Seq<char> {
        self.base_dir@
    }

    /// A handler rooted at the default directory.
    pub fn new() -> (r: StorageHandler)
        ensures
            r.base() == default_storage_dir(),
    {
        proof {
            reveal_strlit("data");
            assert("data"@ =~= default_storage_dir());
        }
        StorageHandler { base_dir: String::from_str("data") }
    }

    /// The same handler rooted elsewhere.
    pub fn storage_dir(self, dir: &str) -> (r: StorageHandler)
        ensures
            r.base() == dir@,
    {
        StorageHandler { base_dir: String::from_str(dir) }
    }

    /// The base directory, for the code that performs the file I/O.
    pub fn base_dir(&self) -> (r: &str)
        ensures
            r@ == self.base(),
    {
        self.base_dir.as_str()
    }

    /// Where a capture record is stored: its directory (named by the query)
    /// and the full file path (named by the instant). The query is the
    /// directory name, so a query holding a path separator would silently
    /// nest directories and break filtered retrieval; such queries are
    /// refused here and rejected by the callers that perform the writes.
    pub fn query_storage_path(&self, item: &QueryResult) -> (r: (String, String))
        requires
            item@.date_utc.valid(),
            !item@.query.contains('/'),
        ensures
            r.0@ == self.base() + seq!['/'] + item@.query,
            r.1@ == self.base() + seq!['/'] + item@.query + seq!['/'] + capture_file_name(
                item@.date_utc,
            ),
    {
        let mut dir: Vec<char> = Vec::new();
        append_str(&mut dir, self.base_dir.as_str());
        dir.push('/');
        append_str(&mut dir, item.query.as_str());
        proof {
            assert(dir@ =~= self.base() + seq!['/'] + item@.query);
        }
        let dir_s = crate::text::chars_to_string(&dir);
        let mut path: Vec<char> = dir;
        path.push('/');
        write_timestamp(&mut path, &item.date_utc);
        path.push('.');
        append_str(&mut path, "query-result.json");
        proof {
            reveal_strlit("query-result.json");
            assert("query-result.json"@ =~= query_result_suffix());
            assert(path@ =~= self.base() + seq!['/'] + item@.query + seq!['/'] + capture_file_name(
                item@.date_utc,
            ));
        }
        let path_s = crate::text::chars_to_string(&path);
        (dir_s, path_s)
    }

    /// Where an analysis record is stored: its directory (the joined source
    /// queries) and the full file path (named by the generation instant).
    /// As with captures, queries holding a path separator are refused.
    pub fn analysis_storage_path(&self, item: &SearchAnalysis) -> (r: (String, String))
        requires
            item.date_utc.valid(),
            forall|k: int|
                0 <= k < item.queries@.len() ==> !(#[trigger] item.queries@[k])@.contains('/'),
        ensures
            r.0@ == self.base() + seq!['/'] + joined_queries(
                item.queries@.map_values(|s: String| s@),
            ),
            r.1@ == self.base() + seq!['/'] + joined_queries(
                item.queries@.map_values(|s: String| s@),
            ) + seq!['/'] + analysis_file_name(item.date_utc),
    {
        let ghost qn = item.queries@.map_values(|s: String| s@);
        let mut dir: Vec<char> = Vec::new();
        append_str(&mut dir, self.base_dir.as_str());
        dir.push('/');
        let ghost mid = dir@;
        let mut i: usize = 0;
        proof {
            assert(joined_queries(qn.take(0)) =~= Seq::<char>::empty());
            assert(dir@ =~= mid + joined_queries(qn.take(0)));
        }
        while i < item.queries.len()
            invariant
                qn == item.queries@.map_values(|s: String| s@),
                i <= item.queries@.len(),
                dir@ == mid + joined_queries(qn.take(i as int)),
            decreases item.queries@.len() - i,
        {
            if i > 0 {
                dir.push('.');
            }
            append_str(&mut dir, item.queries[i].as_str());
            proof {
                assert(item.queries@[i as int]@ == qn[i as int]);
                lemma_joined_queries_snoc(qn, i as int);
                assert(dir@ =~= mid + joined_queries(qn.take(i + 1)));
            }
            i = i + 1;
        }
        proof {
            assert(qn.take(qn.len() as int) =~= qn);
            assert(dir@ =~= self.base() + seq!['/'] + joined_queries(qn));
        }
        let dir_s = crate::text::chars_to_string(&dir);
        let mut path: Vec<char> = dir;
        path.push('/');
        write_timestamp(&mut path, &item.date_utc);
        path.push('.');
        append_str(&mut path, "analysis-result.json");
        proof {
            reveal_strlit("analysis-result.json");
            assert("analysis-result.json"@ =~= analysis_result_suffix());
            assert(path@ =~= self.base() + seq!['/'] + joined_queries(qn) + seq!['/']
                + analysis_file_name(item.date_utc));
        }
        let path_s = crate::text::chars_to_string(&path);
        (dir_s, path_s)
    }
}

/// Taking one more query appends a separating dot (after the first) and the
/// query itself.
proof fn lemma_joined_queries_snoc(qs: Seq<Seq<char>>, i: int)
    requires
        0 <= i < qs.len(),
    ensures
        joined_queries(qs.take(i + 1)) == joined_queries(qs.take(i)) + (if i > 0 {
            seq!['.']
        } else {
            Seq::<char>::empty()
        }) + qs[i],
    decreases i,
{
    if i == 0 {
        assert(qs.take(1) =~= seq![qs[0]]);
        assert(seq![qs[0]][0] == qs[0]);
        assert(qs.take(0) =~= Seq::<Seq<char>>::empty());
        assert(joined_queries(qs.take(0)) + Seq::<char>::empty() + qs[0] =~= qs[0]);
    } else {
        lemma_joined_queries_snoc(qs.skip(1), i - 1);
        let a = qs.take(i + 1);
        let b = qs.take(i);
        assert(a.len() >= 2);
        assert(a[0] == qs[0] && b[0] == qs[0]);
        assert(a.skip(1) =~= qs.skip(1).take(i));
        assert(b.skip(1) =~= qs.skip(1).take(i - 1));
        assert(qs.skip(1)[i - 1] == qs[i]);
        assert(joined_queries(a) == qs[0] + seq!['.'] + joined_queries(qs.skip(1).take(i)));
        if i == 1 {
            assert(b.len() == 1);
            assert(joined_queries(b) == qs[0]);
            assert(qs.skip(1).take(0) =~= Seq::<Seq<char>>::empty());
            assert(joined_queries(qs.skip(1).take(1)) == joined_queries(qs.skip(1).take(0)) + Seq::<
                char,
            >::empty() + qs.skip(1)[0]);
            assert(joined_queries(a) =~= joined_queries(b) + seq!['.'] + qs[1]);
        } else {
            assert(joined_queries(b) == qs[0] + seq!['.'] + joined_queries(qs.skip(1).take(i - 1)));
            assert(joined_queries(qs.skip(1).take(i)) == joined_queries(qs.skip(1).take(i - 1))
                + seq!['.'] + qs.skip(1)[i - 1]);
            assert(joined_queries(a) =~= joined_queries(b) + seq!['.'] + qs[i]);
        }
    }
}

/// Writing twice for the same query under one base lands in the same
/// directory, and distinct instants never collide on a file name: the
/// second write needs no new directory and overwrites nothing.
pub proof fn lemma_capture_paths_partition(q1: QueryResultView, q2: QueryResultView)
    requires
        q1.date_utc.valid(),
        q2.date_utc.valid(),
        q1.query == q2.query,
        q1.date_utc != q2.date_utc,
    ensures
        capture_file_name(q1.date_utc) != capture_file_name(q2.date_utc),
{
    if capture_file_name(q1.date_utc) == capture_file_name(q2.date_utc) {
        let n1 = capture_file_name(q1.date_utc);
        assert(n1.subrange(0, 20) =~= ser_ts(q1.date_utc));
        assert(capture_file_name(q2.date_utc).subrange(0, 20) =~= ser_ts(q2.date_utc));
        crate::time::lemma_ser_ts_injective(q1.date_utc, q2.date_utc);
    }
}

// ---------------------------------------------------------------------------
// Retrieval
// ---------------------------------------------------------------------------

/// One file found under the base directory: its top-level directory name,
/// its file name, and its text, as the file I/O layer hands them over.
pub struct StoredEntry {
    pub dir: String,
    pub name: String,
    pub contents: String,
}

/// The mathematical value of a `StoredEntry`.
pub struct StoredEntryView {
    pub dir: Seq<char>,
    pub name: Seq<char>,
    pub contents: Seq<char>,
}

impl View for StoredEntry {
    type V = StoredEntryView;

    open spec fn view(&self) -> StoredEntryView {
        StoredEntryView { dir: self.dir@, name: self.name@, contents: self.contents@ }
    }
}

impl StoredEntry {
    /// Builds an entry from plain values.
    pub fn new(dir: String, name: String, contents: String) -> (r: StoredEntry)
        ensures
            r@ == (StoredEntryView { dir: dir@, name: name@, contents: contents@ }),
    {
        StoredEntry { dir, name, contents }
    }
}

/// Whether a file name marks a stored capture: it ends with the fixed tail.
pub open spec fn is_capture_file_name(name: Seq<char>) -> bool {
    name.len() >= query_result_suffix().len() && name.subrange(
        name.len() - query_result_suffix().len(),
        name.len() as int,
    ) == query_result_suffix()
}

/// Whether retrieval visits an entry: its name marks a capture, and its
/// top-level directory passes the filter (an empty filter passes all).
pub open spec fn selected(e: StoredEntryView, filter: Seq<Seq<char>>) -> bool {
    is_capture_file_name(e.name) && (filter.len() == 0 || filter.contains(e.dir))
}

/// What one entry contributes: its parsed record, or nothing where it is
/// not selected or does not parse.
pub open spec fn entry_records(e: StoredEntryView, filter: Seq<Seq<char>>) -> Seq<QueryResultView> {
    if selected(e, filter) {
        match spec_deserialize_query_result(e.contents) {
            Some(q) => seq![q],
            None => Seq::empty(),
        }
    } else {
        Seq::empty()
    }
}

/// Every capture record parsed out of the selected entries, in entry order;
/// an entry that fails to parse is skipped, never fatal.
pub open spec fn retrieved(entries: Seq<StoredEntryView>, filter: Seq<Seq<char>>) -> Seq<
    QueryResultView,
>
    decreases entries.len(),
{
    if entries.len() == 0 {
        Seq::empty()
    } else {
        entry_records(entries[0], filter) + retrieved(entries.skip(1), filter)
    }
}

/// Whether a string ends with the capture tail, in executable code.
fn name_is_capture(name: &str) -> (b: bool)
    ensures
        b == is_capture_file_name(name@),
{
    proof {
        reveal_strlit("query-result.json");
        assert("query-result.json"@ =~= query_result_suffix());
    }
    let n = name.unicode_len();
    if n < 17 {
        return false;
    }
    let tail = name.substring_char(n - 17, n);
    proof {
        assert(tail@ =~= name@.subrange(name@.len() - 17, name@.len() as int));
    }
    let suffix = "query-result.json";
    let mut k: usize = 0;
    loop
        invariant
            n == name@.len(),
            n >= 17,
            tail@ == name@.subrange(name@.len() - 17, name@.len() as int),
            suffix@ == query_result_suffix(),
            k <= 17,
            forall|m: int| 0 <= m < k ==> tail@[m] == #[trigger] query_result_suffix()[m],
        ensures
            k == 17,
            tail@ =~= query_result_suffix(),
        decreases 17 - k,
    {
        if k >= 17 {
            break;
        }
        if tail.get_char(k) != suffix.get_char(k) {
            proof {
                assert(tail@[k as int] != query_result_suffix()[k as int]);
            }
            return false;
        }
        k = k + 1;
    }
    proof {
        assert(tail@ =~= query_result_suffix());
    }
    true
}

/// Whether a directory name stands in the filter.
fn dir_in_filter(filter: &Vec<String>, dir: &String) -> (b: bool)
    ensures
        b == filter@.map_values(|s: String| s@).contains(dir@),
{
    let ghost fv = filter@.map_values(|s: String| s@);
    let mut m: usize = 0;
    while m < filter.len()
        invariant
            fv == filter@.map_values(|s: String| s@),
            m <= filter@.len(),
            forall|k: int| 0 <= k < m ==> fv[k] != dir@,
        decreases filter@.len() - m,
    {
        let hit = filter[m].eq(dir);
        if hit {
            proof {
                assert(fv[m as int] == dir@);
            }
            return true;
        }
        m = m + 1;
    }
    false
}

impl StorageHandler {
    /// Rebuilds the capture records out of the files a directory walk found:
    /// visits entries whose name carries the capture tail and whose top
    /// directory passes the filter, parses each, and skips what does not
    /// parse. An empty result is not an error.
    pub fn retrieve_from_entries(entries: &Vec<StoredEntry>, filter: &Vec<String>) -> (r: Vec<
        QueryResult,
    >)
        ensures
            r@.map_values(|q: QueryResult| q@) == retrieved(
                entries@.map_values(|e: StoredEntry| e@),
                filter@.map_values(|s: String| s@),
            ),
    {
        let ghost ev = entries@.map_values(|e: StoredEntry| e@);
        let ghost fv = filter@.map_values(|s: String| s@);
        let mut out: Vec<QueryResult> = Vec::new();
        let mut i: usize = 0;
        proof {
            assert(ev.skip(0) =~= ev);
            assert(out@.map_values(|q: QueryResult| q@) + retrieved(ev, fv) =~= retrieved(ev, fv));
        }
        while i < entries.len()
            invariant
                ev == entries@.map_values(|e: StoredEntry| e@),
                fv == filter@.map_values(|s: String| s@),
                i <= entries@.len(),
                out@.map_values(|q: QueryResult| q@) + retrieved(ev.skip(i as int), fv)
                    == retrieved(ev, fv),
            decreases entries@.len() - i,
        {
            let e = &entries[i];
            proof {
                assert(ev.skip(i as int)[0] == ev[i as int]);
                assert(ev.skip(i as int).skip(1) =~= ev.skip(i + 1));
                assert(retrieved(ev.skip(i as int), fv) == entry_records(ev[i as int], fv)
                    + retrieved(ev.skip(i + 1), fv));
            }
            proof {
                assert(e@ == ev[i as int]);
            }
            let keep = if !name_is_capture(e.name.as_str()) {
                false
            } else if filter.len() == 0 {
                true
            } else {
                dir_in_filter(filter, &e.dir)
            };
            proof {
                assert(keep == selected(ev[i as int], fv));
            }
            let ghost prev = out@.map_values(|q2: QueryResult| q2@);
            if keep {
                let parsed = QueryResult::from_json(e.contents.as_str());
                if parsed.is_some() {
                    let q = parsed.unwrap();
                    out.push(q);
                    proof {
                        assert(entry_records(ev[i as int], fv) =~= seq![q@]);
                        assert(out@.map_values(|q2: QueryResult| q2@) =~= prev.push(q@));
                        assert(prev + (seq![q@] + retrieved(ev.skip(i + 1), fv)) =~= out@.map_values(
                            |q2: QueryResult| q2@,
                        ) + retrieved(ev.skip(i + 1), fv));
                    }
                } else {
                    proof {
                        assert(entry_records(ev[i as int], fv) =~= Seq::<QueryResultView>::empty());
                        assert(prev + (Seq::<QueryResultView>::empty() + retrieved(
                            ev.skip(i + 1),
                            fv,
                        )) =~= prev + retrieved(ev.skip(i + 1), fv));
                    }
                }
            } else {
                proof {
                    assert(entry_records(ev[i as int], fv) =~= Seq::<QueryResultView>::empty());
                    assert(prev + (Seq::<QueryResultView>::empty() + retrieved(ev.skip(i + 1), fv))
                        =~= prev + retrieved(ev.skip(i + 1), fv));
                }
            }
            i = i + 1;
        }
        proof {
            assert(ev.skip(ev.len() as int) =~= Seq::<StoredEntryView>::empty());
            assert(out@.map_values(|q: QueryResult| q@) =~= retrieved(ev, fv));
        }
        out
    }
}

/// Filtered retrieval returns only records whose query passes the filter,
/// wherever the tree was written by the store (each file's record carries
/// the query its directory is named by).
pub proof fn lemma_filtered_retrieval(entries: Seq<StoredEntryView>, filter: Seq<Seq<char>>)
    requires
        filter.len() > 0,
        forall|k: int|
            0 <= k < entries.len() ==> match spec_deserialize_query_result(
                (#[trigger] entries[k]).contents,
            ) {
                Some(q) => q.query == entries[k].dir,
                None => true,
            },
    ensures
        forall|i: int|
            0 <= i < retrieved(entries, filter).len() ==> filter.contains(
                (#[trigger] retrieved(entries, filter)[i]).query,
            ),
    decreases entries.len(),
{
    if entries.len() > 0 {
        let tail = entries.skip(1);
        assert forall|k: int|
            0 <= k < tail.len() implies match spec_deserialize_query_result(
            (#[trigger] tail[k]).contents,
        ) {
            Some(q) => q.query == tail[k].dir,
            None => true,
        } by {
            assert(tail[k] == entries[k + 1]);
        }
        lemma_filtered_retrieval(tail, filter);
        let head = entry_records(entries[0], filter);
        assert forall|i: int|
            0 <= i < retrieved(entries, filter).len() implies filter.contains(
            (#[trigger] retrieved(entries, filter)[i]).query,
        ) by {
            if i < head.len() {
                assert(retrieved(entries, filter)[i] == head[i]);
                assert(selected(entries[0], filter));
                assert(filter.contains(entries[0].dir));
            } else {
                assert(retrieved(entries, filter)[i] == retrieved(tail, filter)[i - head.len()]);
            }
        }
    }
}

/// One unparsable file among the rest changes nothing: retrieval with it
/// inserted anywhere yields exactly the records of the others.
pub proof fn lemma_corrupt_entry_skipped(
    entries: Seq<StoredEntryView>,
    filter: Seq<Seq<char>>,
    i: int,
    e: StoredEntryView,
)
    requires
        0 <= i <= entries.len(),
        spec_deserialize_query_result(e.contents) is None,
    ensures
        retrieved(entries.insert(i, e), filter) == retrieved(entries, filter),
    decreases i,
{
    let withe = entries.insert(i, e);
    if i == 0 {
        assert(withe[0] == e);
        assert(withe.skip(1) =~= entries);
        assert(entry_records(e, filter) =~= Seq::<QueryResultView>::empty());
        assert(retrieved(withe, filter) =~= retrieved(entries, filter));
    } else {
        assert(withe[0] == entries[0]);
        assert(withe.skip(1) =~= entries.skip(1).insert(i - 1, e));
        lemma_corrupt_entry_skipped(entries.skip(1), filter, i - 1, e);
        assert(retrieved(withe, filter) == entry_records(entries[0], filter) + retrieved(
            entries.skip(1).insert(i - 1, e),
            filter,
        ));
        assert(retrieved(entries, filter) == entry_records(entries[0], filter) + retrieved(
            entries.skip(1),
            filter,
        ));
    }
}

} // verus!
