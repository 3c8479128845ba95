use npurag::backend::{Message, MockBackend, Role, DEFAULT_DIM};
use npurag::text::{fnv1a64, words};

#[test]
fn chat_echoes_the_last_user_message() {
    let backend = MockBackend::new();
    let answer = backend.chat(
        &vec![
            Message::system("You answer from context."),
            Message::user("first question"),
            Message::assistant("first answer"),
            Message::user("what did I decide about project X?"),
        ],
        None,
    );

    assert!(
        answer.contains("what did I decide about project X?"),
        "got {answer}"
    );
    assert_eq!(answer, "[mock:mock-chat] what did I decide about project X?");
}

#[test]
fn chat_reports_the_model_override() {
    let backend = MockBackend::new();
    let answer = backend.chat(&vec![Message::user("hi")], Some("some-model"));
    assert!(answer.contains("some-model"), "got {answer}");
    assert_eq!(answer, "[mock:some-model] hi");
}

#[test]
fn chat_without_a_user_message_still_answers() {
    let backend = MockBackend::new();
    let answer = backend.chat(&vec![Message::system("only a system prompt")], None);
    assert!(!answer.is_empty());
    assert_eq!(answer, "[mock:mock-chat] (no user message)");
}

#[test]
fn the_mock_is_always_healthy() {
    assert!(MockBackend::new().health());
}

#[test]
fn describe_mentions_the_dimension() {
    assert!(MockBackend::with_dim(16).describe().contains("16"));
    assert_eq!(MockBackend::with_dim(48).describe(), "mock (dim 48)");
    assert_eq!(
        MockBackend::new().with_reranker().describe(),
        "mock (dim 64, with reranker)"
    );
}

#[test]
fn the_default_dimension_is_sixty_four() {
    assert_eq!(MockBackend::new().dim(), DEFAULT_DIM);
    assert_eq!(DEFAULT_DIM, 64);
    assert_eq!(MockBackend::default().dim(), 64);
    assert!(!MockBackend::new().has_reranker());
    assert!(MockBackend::new().with_reranker().has_reranker());
}

#[test]
fn roles_are_named_as_the_chat_api_expects() {
    assert_eq!(Role::System.as_str(), "system");
    assert_eq!(Role::User.as_str(), "user");
    assert_eq!(Role::Assistant.as_str(), "assistant");
    let m = Message::user("hello");
    assert_eq!(m.role, Role::User);
    assert_eq!(m.content, "hello");
}

#[test]
fn fnv1a_has_the_published_values() {
    assert_eq!(fnv1a64(""), 0xcbf2_9ce4_8422_2325);
    assert_eq!(fnv1a64("a"), 0xaf63_dc4c_8601_ec8c);
    assert_eq!(fnv1a64("foobar"), 0x85944171f73967e8);
}

#[test]
fn words_are_distinct_lowercase_and_in_order() {
    assert_eq!(
        words("The backup, the BACKUP; and the vault!"),
        vec!["the", "backup", "and", "vault"]
    );
    assert!(words("--- ?!").is_empty());
    assert_eq!(words("Zażółć GĘŚLĄ"), vec!["zażółć", "gęślą"]);
}

#[test]
fn each_distinct_word_lands_in_its_hash_bucket() {
    let backend = MockBackend::with_dim(32);
    let buckets = backend.word_buckets("backup Backup vault");
    assert_eq!(buckets.len(), 2);
    assert_eq!(buckets[0], (fnv1a64("backup") % 32) as usize);
    assert_eq!(buckets[1], (fnv1a64("vault") % 32) as usize);
    assert!(backend.word_buckets("").is_empty());
}

#[test]
fn shared_words_count_the_query_words_a_document_contains() {
    let backend = MockBackend::new().with_reranker();
    assert_eq!(
        backend.shared_words("nightly backup vault", "The backup runs NIGHTLY."),
        (2, 3)
    );
    assert_eq!(backend.shared_words("", "anything"), (0, 0));
    assert_eq!(backend.shared_words("a b", "c d"), (0, 2));
}
