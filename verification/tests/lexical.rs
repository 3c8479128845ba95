use npurag::lexical::{match_expression, MAX_TERMS};

#[test]
fn a_query_full_of_operators_is_read_as_words() {
    let expression = match_expression("what about --path? NEAR AND (x*").expect("has terms");
    assert_eq!(
        expression,
        "\"what\" OR \"about\" OR \"path\" OR \"near\" OR \"and\" OR \"x\""
    );
}

#[test]
fn a_query_with_no_words_matches_nothing_rather_than_everything() {
    assert_eq!(match_expression("--- ?! ***"), None);
    assert_eq!(match_expression(""), None);
}

#[test]
fn a_repeated_word_is_asked_for_once() {
    assert_eq!(
        match_expression("backup Backup BACKUP"),
        Some("\"backup\"".to_string())
    );
}

#[test]
fn quotes_in_the_query_cannot_escape_the_literal() {
    let expression = match_expression("\"unterminated AND (broken* NEAR/").unwrap();
    assert_eq!(
        expression,
        "\"unterminated\" OR \"and\" OR \"broken\" OR \"near\""
    );
}

#[test]
fn at_most_thirty_two_terms_are_asked_for() {
    let query: String = (0..50).map(|i| format!("w{i} ")).collect();
    let expression = match_expression(&query).unwrap();
    assert_eq!(expression.matches(" OR ").count(), MAX_TERMS - 1);
    assert!(expression.ends_with("\"w31\""));
}

#[test]
fn non_ascii_words_are_kept_whole() {
    assert_eq!(
        match_expression("Faktura FV-2026-00431 zapłacona").unwrap(),
        "\"faktura\" OR \"fv\" OR \"2026\" OR \"00431\" OR \"zapłacona\""
    );
}
