use npurag::display::{display_path, provenance, snippet, split_whitespace};
use npurag::index::{batches, FileStep, IndexOptions, IndexReport};
use npurag::extract::SkipReason;
use npurag::openai::{input_order, mixed_width, OpenAiBackend};
use npurag::rerank::{
    clip, enough_rated, llm_messages, llm_prompt, rating_tokens, ratings_by_excerpt, rerank_plan, scores_fit, RerankMode,
    RerankOptions, RerankPlan, LLM_SYSTEM_PROMPT,
};
use npurag::search::{
    candidate_pool, checked_retriever_pool, fusion_slots, retriever_pool, shortlist_size,
    PathFilter, SearchMode,
};
use npurag::store::{dim_check, model_compatible, model_mismatch_message, schema_check, DimCheck, SchemaCheck, Stats};
use npurag::walk::{WalkOptions, WalkStats};
use npurag::watch::{quiet_step, Heard, Quiet, QuietNext, WatchOptions};

#[test]
fn the_candidate_pool_is_never_narrower_than_the_result_set() {
    assert!(candidate_pool(0, 8) >= 8);
    assert!(candidate_pool(0, 200) >= 200);
    assert_eq!(candidate_pool(0, 8), 50);
    assert_eq!(candidate_pool(0, 20), 100);
    assert_eq!(
        candidate_pool(3, 10),
        10,
        "an explicit candidate count still has to cover top_k"
    );
    assert_eq!(candidate_pool(30, 10), 30);
}

#[test]
fn a_reranker_gets_a_longer_shortlist() {
    let mut rerank = RerankOptions::default();
    assert_eq!(shortlist_size(8, &rerank), 20);
    assert_eq!(shortlist_size(30, &rerank), 30);
    rerank.mode = RerankMode::Off;
    assert!(rerank.is_off());
    assert_eq!(shortlist_size(8, &rerank), 8);
    assert_eq!(retriever_pool(SearchMode::Hybrid, 8, 0), 50);
    assert_eq!(retriever_pool(SearchMode::Lexical, 8, 0), 8);
}

#[test]
fn modes_have_names() {
    assert_eq!(SearchMode::default(), SearchMode::Hybrid);
    assert_eq!(SearchMode::named("lexical"), Some(SearchMode::Lexical));
    assert_eq!(SearchMode::named("Lexical"), None);
    assert_eq!(SearchMode::Vector.as_str(), "vector");
    assert_eq!(RerankMode::default(), RerankMode::Auto);
    assert_eq!(RerankMode::named("llm"), Some(RerankMode::Llm));
    assert_eq!(RerankMode::named("sometimes"), None);
    assert_eq!(RerankMode::Endpoint.as_str(), "endpoint");
}

#[test]
fn one_excerpt_is_not_worth_a_rerank_call() {
    assert_eq!(rerank_plan(1, RerankMode::Llm), RerankPlan::Keep);
    assert_eq!(rerank_plan(0, RerankMode::Endpoint), RerankPlan::Keep);
    assert_eq!(rerank_plan(3, RerankMode::Off), RerankPlan::Keep);
    assert_eq!(rerank_plan(3, RerankMode::Auto), RerankPlan::Endpoint { required: false });
    assert_eq!(rerank_plan(3, RerankMode::Endpoint), RerankPlan::Endpoint { required: true });
    assert_eq!(rerank_plan(3, RerankMode::Llm), RerankPlan::Chat);
    assert!(scores_fit(3, 3) && !scores_fit(2, 3));
}

#[test]
fn a_reply_that_rated_almost_nothing_is_discarded() {
    assert!(!enough_rated(1, 4));
    assert!(enough_rated(2, 4));
    assert!(enough_rated(2, 3));
    assert!(!enough_rated(1, 3));
    assert!(!enough_rated(0, 0));
}

#[test]
fn clipping_trims_and_cuts_on_characters() {
    assert_eq!(clip("  zażółć gęślą  ", 6), "zażółć");
    assert_eq!(clip(" short ", 100), "short");
    assert_eq!(clip("abc", 0), "");
}

#[test]
fn the_scoring_prompt_numbers_every_excerpt() {
    let docs = vec!["  first one ".to_string(), "second".to_string()];
    assert_eq!(
        llm_prompt("what?", &docs),
        "Question: what?\n\nExcerpts:\n\n[1] first one\n\n[2] second\n\nRate all 2 excerpts, one per line."
    );
    let messages = llm_messages("what?", &docs);
    assert_eq!(messages.len(), 2);
    assert_eq!(messages[0].content, LLM_SYSTEM_PROMPT);
}

#[test]
fn fusion_slots_hold_each_chunk_once() {
    let (merged, v, l) = fusion_slots(&vec![7, 3, 9], &vec![3, 11, 7]);
    assert_eq!(merged, vec![7, 3, 9, 11]);
    assert_eq!(v, vec![0, 1, 2]);
    assert_eq!(l, vec![1, 3, 0]);
    let (merged, v, l) = fusion_slots(&vec![], &vec![5]);
    assert_eq!((merged, v, l), (vec![5], vec![], vec![0]));
}

#[test]
fn a_bare_extension_glob_matches_on_the_file_name() {
    let filter = PathFilter::new("*.md").expect("valid");
    assert!(filter.matches("/home/u/notes/backup.md"));
    assert!(filter.matches("backup.md"));
    assert!(!filter.matches("/home/u/notes/backup.rs"));
    // The whole path starts with `/`, so only its file name can match.
    let named = PathFilter::new("b*.md").expect("valid");
    assert!(named.matches("/home/u/notes/backup.md"));
    assert!(!named.matches("/home/u/notes/archive.md"));
}

#[test]
fn path_filters_match_full_paths_and_directories() {
    let filter = PathFilter::new("**/notes/**").unwrap();
    assert!(filter.matches("/home/u/notes/a.md"));
    assert!(!filter.matches("/home/u/code/a.rs"));

    let by_name = PathFilter::new("*.md").unwrap();
    assert!(by_name.matches("/home/u/notes/a.md"));
    assert!(!by_name.matches("/home/u/notes/a.rs"));

    let rooted = PathFilter::new("/n/**/a.md").expect("valid");
    assert!(rooted.matches("/n/x/a.md"));
    assert!(!rooted.matches("/m/x/a.md"));
}

#[test]
fn an_invalid_glob_is_reported_rather_than_ignored() {
    let err = PathFilter::new("notes/[").err().expect("invalid");
    assert!(err.contains("notes/["), "got {err}");
}

#[test]
fn paths_are_shown_relative_to_the_root() {
    assert_eq!(display_path("/home/u/notes/a.md", Some("/home/u/notes")), "a.md");
    assert_eq!(display_path("/elsewhere/a.md", Some("/home/u/notes")), "/elsewhere/a.md");
    assert_eq!(display_path("/x/a.md", None), "/x/a.md");
}

#[test]
fn previews_collapse_whitespace_and_cut_with_an_ellipsis() {
    assert_eq!(snippet("a  b\n\nc", 140), "a b c");
    assert_eq!(snippet("one two three", 8), "one two…");
    assert_eq!(snippet("one two three", 4), "one…");
    assert_eq!(split_whitespace(" a\tb  "), vec!["a", "b"]);
}

#[test]
fn provenance_names_the_stages() {
    assert_eq!(provenance(true, true, false), "v+l");
    assert_eq!(provenance(false, true, true), "l+r");
    assert_eq!(provenance(false, false, false), "");
}

#[test]
fn the_debouncer_waits_for_quiet() {
    assert_eq!(quiet_step(Quiet::Idle, Heard::Event), QuietNext::Wait(Quiet::Settling));
    assert_eq!(quiet_step(Quiet::Idle, Heard::Disconnected), QuietNext::Closed);
    assert_eq!(quiet_step(Quiet::Settling, Heard::Event), QuietNext::Wait(Quiet::Settling));
    assert_eq!(quiet_step(Quiet::Settling, Heard::Timeout), QuietNext::Settled);
    assert_eq!(quiet_step(Quiet::Settling, Heard::Disconnected), QuietNext::Settled);
    assert_eq!(WatchOptions::default().debounce_ms, 750);
}

#[test]
fn the_index_guards_its_model_width_and_schema() {
    assert!(model_compatible(None, "m"));
    assert!(model_compatible(Some("m"), "m"));
    assert!(!model_compatible(Some("m"), "other"));
    assert!(model_mismatch_message("m", "other").contains("--reindex"));
    assert_eq!(dim_check(None, 64), DimCheck::Record);
    assert_eq!(dim_check(Some("64"), 64), DimCheck::Matches);
    assert_eq!(dim_check(Some("768"), 64), DimCheck::Conflict);
    assert_eq!(schema_check(None), SchemaCheck::Fresh);
    assert_eq!(schema_check(Some("1")), SchemaCheck::Current);
    assert_eq!(schema_check(Some("2")), SchemaCheck::Foreign);
    assert_eq!(Stats::default().files, 0);
}

#[test]
fn chunks_are_embedded_in_batches() {
    assert_eq!(batches(5, 2), vec![(0, 2), (2, 4), (4, 5)]);
    assert_eq!(batches(3, 0), vec![(0, 1), (1, 2), (2, 3)]);
    assert!(batches(0, 32).is_empty());
    assert_eq!(IndexOptions::default().batch_size, 32);
}

#[test]
fn the_report_counts_what_happened() {
    let mut report = IndexReport::default();
    report.note_step(&FileStep::Skip { reason: SkipReason::Binary, forget: false }, 0);
    report.note_step(&FileStep::Skip { reason: SkipReason::UnsupportedFormat, forget: true }, 0);
    let indexed = FileStep::Index { text: "a".to_string(), digest: "d".to_string() };
    report.note_step(&indexed, 4);
    report.note_step(&FileStep::Unchanged, 0);
    report.note_step(&FileStep::Unreadable, 0);
    assert_eq!(report.skipped_binary, 1);
    assert_eq!(report.skipped_unsupported, 1);
    assert_eq!((report.indexed, report.chunks_written), (1, 4));
    assert_eq!((report.unchanged, report.unreadable), (1, 1));
    assert_eq!(report.skipped(), 3);
}

#[test]
fn walking_defaults_are_conservative() {
    let w = WalkOptions::default();
    assert_eq!(w.max_file_size, 5 * 1024 * 1024);
    assert!(w.respect_gitignore && !w.follow_symlinks);
    assert_eq!(WalkStats::default(), WalkStats { too_large: 0, unreadable: 0 });
}

#[test]
fn endpoints_keep_the_version_prefix() {
    let backend = OpenAiBackend::new("amd", "http://localhost:52625/v1/", "e", "c");
    assert_eq!(backend.base_url(), "http://localhost:52625/v1");
    assert_eq!(backend.endpoint("/embeddings"), "http://localhost:52625/v1/embeddings");
    assert_eq!(backend.endpoint("models"), "http://localhost:52625/v1/models");
    assert_eq!(backend.describe(), "amd (http://localhost:52625/v1)");
    assert_eq!((backend.embed_model(), backend.chat_model()), ("e", "c"));
}

#[test]
fn mixed_embedding_widths_are_found() {
    assert_eq!(mixed_width(&vec![3, 3, 3]), None);
    assert_eq!(mixed_width(&vec![3, 3, 4, 5]), Some((3, 4)));
    assert_eq!(mixed_width(&vec![]), None);
}

#[test]
fn embeddings_are_put_back_in_input_order_stably() {
    assert_eq!(input_order(&vec![2, 0, 1]), vec![1, 2, 0]);
    assert_eq!(input_order(&vec![1, 0, 1, 0]), vec![1, 3, 0, 2]);
    assert!(input_order(&vec![]).is_empty());
}

#[test]
fn the_llm_reranker_reads_scores_out_of_a_loosely_formatted_reply() {
    assert_eq!(rating_tokens("1: 9"), Some((1, "9".to_string())));
    assert_eq!(rating_tokens("[2] 7.5/10"), Some((2, "7.5".to_string())));
    assert_eq!(rating_tokens("**3.** score 4."), Some((3, "4".to_string())));
    assert_eq!(rating_tokens("Excerpt 1: 9"), None);
    assert_eq!(rating_tokens("4"), None);
    assert_eq!(rating_tokens(""), None);
}

#[test]
fn a_chat_model_that_ignores_the_format_leaves_retrieval_alone() {
    // A sentence does not begin with an excerpt number, so it rates nothing.
    assert_eq!(rating_tokens("The invoice FV-2026-00431 was paid"), None);
    // A line that does begin with one reads its next number as the score;
    // whether that is on the nought-to-ten scale is checked after parsing.
    assert_eq!(
        rating_tokens("[2] the invoice FV-2026-00431 was paid"),
        Some((2, "2026".to_string()))
    );
}

#[test]
fn an_origin_is_read_off_the_index_statistics() {
    let mut stats = Stats::default();
    stats.files = 3;
    stats.chunks = 9;
    stats.root_path = Some("/notes".to_string());
    stats.embed_model = Some("m".to_string());
    let origin = npurag::ask::Origin::of_stats(stats);
    assert_eq!((origin.files, origin.chunks), (3, 9));
    assert_eq!(origin.root.as_deref(), Some("/notes"));
    assert_eq!(origin.embed_model.as_deref(), Some("m"));
    assert!(origin.backend.is_none());
}

#[test]
fn an_unrated_excerpt_sinks_but_does_not_sink_the_ranking() {
    // Lines named excerpts 2, 1, 9 (out of range) and 2 again: the later
    // rating of excerpt 2 wins, excerpt 3 is unrated.
    assert_eq!(
        ratings_by_excerpt(&vec![2, 1, 9, 2], 3),
        vec![Some(1), Some(3), None]
    );
    assert_eq!(ratings_by_excerpt(&vec![0], 2), vec![None, None]);
    assert!(ratings_by_excerpt(&vec![1], 0).is_empty());
}

#[test]
fn a_pool_too_large_to_count_is_refused() {
    assert_eq!(checked_retriever_pool(SearchMode::Hybrid, usize::MAX / 5 + 1, 0), None);
    assert_eq!(checked_retriever_pool(SearchMode::Vector, usize::MAX / 5 + 1, 0), Some(usize::MAX / 5 + 1));
    assert_eq!(checked_retriever_pool(SearchMode::Hybrid, 10, 0), Some(retriever_pool(SearchMode::Hybrid, 10, 0)));
    assert_eq!(checked_retriever_pool(SearchMode::Lexical, 10, 3), Some(10));
}

#[test]
fn oversized_files_are_recognised_by_size_alone() {
    let w = WalkOptions::default();
    assert!(!w.too_large(5 * 1024 * 1024));
    assert!(w.too_large(5 * 1024 * 1024 + 1));
}
