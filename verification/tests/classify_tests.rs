use twitter_analyzer::patterns::HandlePattern;

#[test]
fn analysis_test_handle_firstname_lastname() {
    assert_eq!(
        HandlePattern::from("firstname1234"),
        HandlePattern::NameWithNumbers
    );
}

#[test]
fn analysis_test_handle_lowercase() {
    assert_eq!(HandlePattern::from("lowercase"), HandlePattern::Lowercase);
}

#[test]
fn analysis_test_handle_uppercase() {
    assert_eq!(HandlePattern::from("UPPERCASE"), HandlePattern::Uppercase);
}

#[test]
fn analysis_test_handle_camelcase() {
    assert_eq!(HandlePattern::from("CamelCase"), HandlePattern::CamelCase);
}

#[test]
fn analysis_test_handle_pascalcase() {
    assert_eq!(HandlePattern::from("pascalCase"), HandlePattern::PascalCase);
}

#[test]
fn analysis_test_handle_other() {
    assert_eq!(HandlePattern::from("123o%her"), HandlePattern::Other);
}

#[test]
fn patterns_test_handle_firstname_lastname() {
    assert_eq!(
        HandlePattern::from("firstname1234"),
        HandlePattern::NameWithNumbers
    );
}

#[test]
fn patterns_test_handle_lowercase() {
    assert_eq!(HandlePattern::from("lowercase"), HandlePattern::Lowercase);
}

#[test]
fn patterns_test_handle_uppercase() {
    assert_eq!(HandlePattern::from("UPPERCASE"), HandlePattern::Uppercase);
}

#[test]
fn patterns_test_handle_camelcase() {
    assert_eq!(HandlePattern::from("CamelCase"), HandlePattern::CamelCase);
}

#[test]
fn patterns_test_handle_pascalcase() {
    assert_eq!(HandlePattern::from("pascalCase"), HandlePattern::PascalCase);
}

#[test]
fn patterns_test_handle_other() {
    assert_eq!(HandlePattern::from("123o%her"), HandlePattern::Other);
}

// The classifier resolves every handle to the earliest matching category:
// a lowercase-plus-digits handle is NameWithNumbers, never Other, while
// interleaved letters and digits fail every strict shape.
#[test]
fn test_classifier_priority_examples() {
    assert_eq!(HandlePattern::from("abc123"), HandlePattern::NameWithNumbers);
    assert_eq!(HandlePattern::from("ABC123"), HandlePattern::Other);
    assert_eq!(HandlePattern::from("x1y2"), HandlePattern::Other);
    assert_eq!(HandlePattern::from(""), HandlePattern::Other);
}

// A scenario across the whole taxonomy, in order: one shape each, plus a
// three-hump word that fits no strict shape.
#[test]
fn test_classify_scenario() {
    let handles = ["lowercase", "UPPERCASE", "pascalCase", "CamelCase", "name123", "x1y2"];
    let expected = [
        HandlePattern::Lowercase,
        HandlePattern::Uppercase,
        HandlePattern::PascalCase,
        HandlePattern::CamelCase,
        HandlePattern::NameWithNumbers,
        HandlePattern::Other,
    ];
    for i in 0..handles.len() {
        assert_eq!(HandlePattern::from(handles[i]), expected[i]);
    }
    // An initial capital makes a single inner hump a two-hump shape, and a
    // third hump falls through to the catch-all.
    assert_eq!(HandlePattern::from("PascalCase"), HandlePattern::CamelCase);
    assert_eq!(HandlePattern::from("CamelCaseWord"), HandlePattern::Other);
}
