use twitter_analyzer::analysis::{SearchAnalysis, get_most_common_words};
use twitter_analyzer::config::{AnalysisConfig, Config};
use twitter_analyzer::patterns::HandlePattern;
use twitter_analyzer::records::{QueryResult, Tweet};
use twitter_analyzer::storage::{StorageHandler, StoredEntry};
use twitter_analyzer::time::Timestamp;

fn ts(sec: u32) -> Timestamp {
    Timestamp::new(2021, 1, 2, 3, 4, sec).unwrap()
}

fn empty_query(sec: u32) -> QueryResult {
    QueryResult {
        query: "@twitter".to_string(),
        date_utc: ts(sec),
        tweets: Vec::new(),
    }
}

fn entry_for(store: &StorageHandler, q: &QueryResult) -> StoredEntry {
    let (_dir, path) = store.query_storage_path(q);
    // The walk reports each file as its top directory under the base plus
    // the file name: the last two path components here.
    let parts: Vec<&str> = path.split('/').collect();
    StoredEntry::new(
        parts[parts.len() - 2].to_string(),
        parts[parts.len() - 1].to_string(),
        q.to_json(),
    )
}

#[test]
fn test_query_storage() {
    let store = StorageHandler::new().storage_dir("test_temp/test_query_storage");
    let q = empty_query(5);
    let (dir, path) = store.query_storage_path(&q);
    assert_eq!(dir, "test_temp/test_query_storage/@twitter");
    assert_eq!(
        path,
        "test_temp/test_query_storage/@twitter/2021-01-02T03:04:05Z.query-result.json"
    );
    assert_eq!(
        q.to_json(),
        "{\"query\":\"@twitter\",\"date_utc\":\"2021-01-02T03:04:05Z\",\"tweets\":[]}"
    );
}

#[test]
fn test_analysis_storage() {
    let store = StorageHandler::new().storage_dir("test_temp/test_analysis_storage");
    let analysis = SearchAnalysis {
        queries: vec!["a".to_string(), "b".to_string()],
        date_utc: ts(9),
        word_frequency: Vec::new(),
        handle_patterns: Vec::new(),
    };
    let (dir, path) = store.analysis_storage_path(&analysis);
    assert_eq!(dir, "test_temp/test_analysis_storage/a.b");
    assert_eq!(
        path,
        "test_temp/test_analysis_storage/a.b/2021-01-02T03:04:09Z.analysis-result.json"
    );
    assert!(!analysis.to_json().is_empty());
}

// Storing the same query twice at different instants reuses the directory
// and never collides on a file name; both records come back.
#[test]
fn test_query_retrieval() {
    let store = StorageHandler::new().storage_dir("test_temp/test_query_retrieval");
    let q1 = empty_query(1);
    let q2 = empty_query(2);
    let (dir1, path1) = store.query_storage_path(&q1);
    let (dir2, path2) = store.query_storage_path(&q2);
    assert_eq!(dir1, dir2);
    assert_ne!(path1, path2);
    let entries = vec![entry_for(&store, &q1), entry_for(&store, &q2)];
    let queries = StorageHandler::retrieve_from_entries(&entries, &Vec::new());
    assert_eq!(queries.is_empty(), false);
    assert_eq!(queries.len(), 2);
}

// Any capture record written by the serializer reads back unchanged, field
// for field, items in order.
#[test]
fn test_round_trip() {
    let q = QueryResult {
        query: "@rust \"lang\"".to_string(),
        date_utc: ts(7),
        tweets: vec![
            Tweet {
                text: "line one\nline \"two\" with \\ and \u{1F600} emoji".to_string(),
                handle: "someBody".to_string(),
                date_utc: ts(8),
                retweet_count: 0,
                favorite_count: 4294967295,
            },
            Tweet {
                text: String::new(),
                handle: String::new(),
                date_utc: ts(9),
                retweet_count: 17,
                favorite_count: 3,
            },
        ],
    };
    let text = q.to_json();
    let back = QueryResult::from_json(&text).expect("stored form must parse");
    assert_eq!(back.query, q.query);
    assert_eq!(back.date_utc, q.date_utc);
    assert_eq!(back.tweets.len(), q.tweets.len());
    for i in 0..q.tweets.len() {
        assert_eq!(back.tweets[i].text, q.tweets[i].text);
        assert_eq!(back.tweets[i].handle, q.tweets[i].handle);
        assert_eq!(back.tweets[i].date_utc, q.tweets[i].date_utc);
        assert_eq!(back.tweets[i].retweet_count, q.tweets[i].retweet_count);
        assert_eq!(back.tweets[i].favorite_count, q.tweets[i].favorite_count);
    }
}

#[test]
fn test_corrupt_record_rejected() {
    assert!(QueryResult::from_json("").is_none());
    assert!(QueryResult::from_json("{\"query\":").is_none());
    assert!(QueryResult::from_json("not json at all").is_none());
    assert!(
        QueryResult::from_json(
            "{\"query\":\"q\",\"date_utc\":\"2021-13-02T03:04:05Z\",\"tweets\":[]}"
        )
        .is_none()
    );
}

// One unparsable file among the valid ones yields exactly the others.
#[test]
fn test_corrupt_file_resilience() {
    let store = StorageHandler::new().storage_dir("test_temp/test_corrupt");
    let mut entries = Vec::new();
    for sec in 0..5 {
        entries.push(entry_for(&store, &empty_query(sec)));
    }
    entries.insert(
        2,
        StoredEntry::new(
            "@twitter".to_string(),
            "2021-01-02T03:09:09Z.query-result.json".to_string(),
            "{\"query\": truncated garbage".to_string(),
        ),
    );
    let queries = StorageHandler::retrieve_from_entries(&entries, &Vec::new());
    assert_eq!(queries.len(), 5);
}

// Filtered retrieval returns only records under the named top directories,
// and ignores analysis files and unrelated names.
#[test]
fn test_filtered_retrieval() {
    let store = StorageHandler::new().storage_dir("base");
    let mut q1 = empty_query(1);
    q1.query = "q1".to_string();
    let mut q2 = empty_query(2);
    q2.query = "q2".to_string();
    let entries = vec![
        entry_for(&store, &q1),
        entry_for(&store, &q2),
        StoredEntry::new(
            "q1".to_string(),
            "2021-01-02T03:04:05Z.analysis-result.json".to_string(),
            "{}".to_string(),
        ),
        StoredEntry::new("q1".to_string(), "notes.txt".to_string(), "hello".to_string()),
    ];
    let filter = vec!["q1".to_string()];
    let got = StorageHandler::retrieve_from_entries(&entries, &filter);
    assert_eq!(got.len(), 1);
    assert_eq!(got[0].query, "q1");
    let all = StorageHandler::retrieve_from_entries(&entries, &Vec::new());
    assert_eq!(all.len(), 2);
}

// Store three captures of the same text, read them all back, aggregate,
// and find the expected leading word counts.
#[test]
fn test_aggregate_three_stored_captures() {
    let store = StorageHandler::new().storage_dir("base");
    let mut entries = Vec::new();
    for sec in 0..3 {
        let q = QueryResult {
            query: "@twitter".to_string(),
            date_utc: ts(sec),
            tweets: vec![Tweet {
                text: "Hello hello, HELLO world".to_string(),
                handle: "fakeHandle".to_string(),
                date_utc: ts(sec),
                retweet_count: 1,
                favorite_count: 2,
            }],
        };
        entries.push(entry_for(&store, &q));
    }
    let captures = StorageHandler::retrieve_from_entries(&entries, &Vec::new());
    assert_eq!(captures.len(), 3);
    let words = get_most_common_words(&captures, &Vec::new());
    assert!(words.len() >= 2);
    assert_eq!(words[0], ("hello".to_string(), 9));
    assert_eq!(words[1], ("world".to_string(), 3));
    let analysis = SearchAnalysis::from_captures(&captures, &Vec::new(), ts(30));
    assert_eq!(analysis.queries, vec!["@twitter".to_string()]);
    assert_eq!(analysis.handle_patterns, vec![(HandlePattern::PascalCase, 3)]);
}

#[test]
fn test_timestamp_validation() {
    assert!(Timestamp::new(2021, 13, 1, 0, 0, 0).is_none());
    assert!(Timestamp::new(2021, 0, 1, 0, 0, 0).is_none());
    assert!(Timestamp::new(10000, 1, 1, 0, 0, 0).is_none());
    assert!(Timestamp::new(2021, 12, 31, 23, 59, 59).is_some());
}

#[test]
fn test_json_parse() {
    let text = "{\"categories\":[\"news\",\"tech\"],\"accounts\":\
                [{\"handle\":\"@twitter\",\"category\":\"news\"}]}";
    let maybe_json = Config::get_from_json(text);
    assert!(maybe_json.is_some());
    let json = maybe_json.unwrap();
    let test_category = "news".to_string();
    assert!(json.categories.contains(&test_category));
    assert_eq!(json.accounts.len(), 1);
    assert_eq!(json.accounts[0].handle, "@twitter");
}

#[test]
fn test_analysis_config_parse() {
    let text = "{\"version\":1,\"description\":\"ignore common words\",\
                \"ignored_words\":[\"the\",\"a\"]}";
    let cfg = AnalysisConfig::from_json(text).expect("well-formed configuration must parse");
    assert_eq!(cfg.version, 1);
    assert_eq!(cfg.description, "ignore common words");
    assert_eq!(cfg.ignored_words, vec!["the".to_string(), "a".to_string()]);
    assert!(AnalysisConfig::from_json("{\"version\":-1}").is_none());
}

// The configuration documents are hand-written: whitespace between tokens
// and any field order must be accepted, as must escaped keys; a missing,
// repeated or unknown field must not.
#[test]
fn test_config_whitespace_and_field_order() {
    let text = "{\n  \"accounts\": [\n    { \"category\" : \"news\", \"handle\": \"@twitter\" },\n    { \"handle\": \"@other\", \"category\": \"tech\" }\n  ],\n  \"categories\": [ \"news\" , \"tech\" ]\n}\n";
    let cfg = Config::get_from_json(text).expect("formatted configuration must parse");
    assert_eq!(cfg.categories, vec!["news".to_string(), "tech".to_string()]);
    assert_eq!(cfg.accounts.len(), 2);
    assert_eq!(cfg.accounts[0].handle, "@twitter");
    assert_eq!(cfg.accounts[0].category, "news");
    assert_eq!(cfg.accounts[1].handle, "@other");

    let ac = "{\n  \"ignored_words\": [],\n  \"version\": 2,\n  \"description\": \"reordered\"\n}";
    let parsed = AnalysisConfig::from_json(ac).expect("reordered configuration must parse");
    assert_eq!(parsed.version, 2);
    assert_eq!(parsed.description, "reordered");
    assert!(parsed.ignored_words.is_empty());

    // A repeated field, a missing field and an unknown field are rejected.
    assert!(AnalysisConfig::from_json(
        "{\"version\":1,\"version\":2,\"description\":\"d\",\"ignored_words\":[]}"
    )
    .is_none());
    assert!(AnalysisConfig::from_json("{\"version\":1,\"description\":\"d\"}").is_none());
    assert!(AnalysisConfig::from_json(
        "{\"version\":1,\"description\":\"d\",\"ignored_words\":[],\"extra\":1}"
    )
    .is_none());
}
