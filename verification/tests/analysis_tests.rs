use twitter_analyzer::analysis::{
    get_most_common_handle_patterns, get_most_common_words, SearchAnalysis,
};
use twitter_analyzer::patterns::HandlePattern;
use twitter_analyzer::records::{QueryResult, Tweet};
use twitter_analyzer::time::Timestamp;
use twitter_analyzer::tokenize::tokenize;

fn test_date() -> Timestamp {
    Timestamp::new(2021, 3, 4, 5, 6, 7).unwrap()
}

// A capture with enough repeated words to be usable, in the shape the
// ingestion boundary produces.
fn get_test_query_result() -> QueryResult {
    QueryResult {
        query: "@twitter".to_string(),
        date_utc: test_date(),
        tweets: vec![Tweet {
            text: "RT @Twitter: hello hello there are multiple words here, some repeated, hello hello"
                .to_string(),
            handle: "fakeHandle".to_string(),
            date_utc: test_date(),
            retweet_count: 47111,
            favorite_count: 1234,
        }],
    }
}

#[test]
fn analysis_test_most_common_words() {
    let queries: Vec<QueryResult> = vec![get_test_query_result()];
    let words = get_most_common_words(&queries, &Vec::new());
    assert!(!words.is_empty());
}

#[test]
fn test_most_common_words_order() {
    let queries: Vec<QueryResult> = vec![get_test_query_result()];
    let words = get_most_common_words(&queries, &Vec::new());
    assert_eq!(words.is_empty(), false);
    // Counts never increase, and equal counts stand in ascending token order.
    for i in 0..words.len() - 1 {
        assert!(words[i].1 >= words[i + 1].1);
        if words[i].1 == words[i + 1].1 {
            assert!(words[i].0 < words[i + 1].0);
        }
    }
    assert_eq!(words[0].0, "hello");
    assert_eq!(words[0].1, 4);
}

#[test]
fn test_handle_patterns() {
    let queries: Vec<QueryResult> = vec![get_test_query_result()];
    let patterns = get_most_common_handle_patterns(&queries);
    assert!(!patterns.is_empty());
}

#[test]
fn test_handle_patterns_order() {
    let queries: Vec<QueryResult> = vec![get_test_query_result()];
    let patterns = get_most_common_handle_patterns(&queries);
    assert_eq!(patterns, vec![(HandlePattern::PascalCase, 1)]);
    for i in 0..patterns.len() - 1 {
        assert!(patterns[i].1 >= patterns[i + 1].1);
    }
}

#[test]
fn patterns_test_most_common_words() {
    let queries: Vec<QueryResult> = vec![get_test_query_result()];
    let words = get_most_common_words(&queries, &Vec::new());
    assert!(!words.is_empty());
}

// The ignore list removes a token from counting entirely.
#[test]
fn test_ignored_words_excluded() {
    let queries: Vec<QueryResult> = vec![get_test_query_result()];
    let ignored = vec!["hello".to_string()];
    let words = get_most_common_words(&queries, &ignored);
    for w in &words {
        assert_ne!(w.0, "hello");
    }
}

// Normalization lowercases and strips the fixed punctuation; a token that
// becomes empty is kept and counted.
#[test]
fn test_tokenize_normalization() {
    let toks = tokenize("Hello, WORLD! (don't) stop;", &Vec::new());
    assert_eq!(toks, vec!["hello", "world", "dont", "stop"]);
    let toks2 = tokenize("a !!! b", &Vec::new());
    assert_eq!(toks2, vec!["a", "", "b"]);
}

// The same multiset of posts in another order yields the same ranking.
#[test]
fn test_ranking_order_independent() {
    let a = get_test_query_result();
    let mut b = get_test_query_result();
    b.tweets.push(Tweet {
        text: "zebra apple apple".to_string(),
        handle: "someone".to_string(),
        date_utc: test_date(),
        retweet_count: 0,
        favorite_count: 0,
    });
    let forward = vec![a.clone(), b.clone()];
    let backward = vec![b, a];
    let w1 = get_most_common_words(&forward, &Vec::new());
    let w2 = get_most_common_words(&backward, &Vec::new());
    assert_eq!(w1, w2);
}

#[test]
fn test_aggregate_empty_captures() {
    let analysis = SearchAnalysis::from_captures(&Vec::new(), &Vec::new(), test_date());
    assert!(analysis.queries.is_empty());
    assert!(analysis.word_frequency.is_empty());
    assert!(analysis.handle_patterns.is_empty());
    assert_eq!(analysis.date_utc, test_date());
}

#[test]
fn test_analysis_to_json() {
    let analysis = SearchAnalysis {
        queries: vec!["@twitter".to_string()],
        date_utc: test_date(),
        word_frequency: vec![("hello".to_string(), 2)],
        handle_patterns: vec![(HandlePattern::Other, 1)],
    };
    assert_eq!(
        analysis.to_json(),
        "{\"queries\":[\"@twitter\"],\"date_utc\":\"2021-03-04T05:06:07Z\",\
         \"word_frequency\":[[\"hello\",2]],\"handle_patterns\":[[\"Other\",1]]}"
    );
}

#[test]
fn test_summary_text() {
    let analysis = SearchAnalysis {
        queries: vec!["@twitter".to_string()],
        date_utc: test_date(),
        word_frequency: vec![("hello".to_string(), 2), ("world".to_string(), 1)],
        handle_patterns: vec![(HandlePattern::Lowercase, 3)],
    };
    let s = analysis.summary();
    assert_eq!(
        s,
        "------------------------------------\n\
         Most common words for queries: [\"@twitter\"]\n\
         hello was seen 2 times\n\
         world was seen 1 times\n\
         The pattern Lowercase was seen 3 times\n\
         ------------------------------------\n"
    );
}

// Tokens with equal counts stand in ascending lexical order.
#[test]
fn test_ties_in_lexical_order() {
    let captures = vec![QueryResult {
        query: "q".to_string(),
        date_utc: test_date(),
        tweets: vec![Tweet {
            text: "pear apple zebra mango".to_string(),
            handle: "x".to_string(),
            date_utc: test_date(),
            retweet_count: 0,
            favorite_count: 0,
        }],
    }];
    let words = get_most_common_words(&captures, &Vec::new());
    assert_eq!(
        words,
        vec![
            ("apple".to_string(), 1),
            ("mango".to_string(), 1),
            ("pear".to_string(), 1),
            ("zebra".to_string(), 1),
        ]
    );
}
