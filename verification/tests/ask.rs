use npurag::ask::{build_prompt, select_context, AskOptions, Excerpt, Origin, SYSTEM_PROMPT};
use npurag::backend::Role;

fn excerpt(path: &str, text: &str) -> Excerpt {
    Excerpt { path: path.to_string(), text: text.to_string() }
}

#[test]
fn the_prompt_carries_the_question_and_every_excerpt() {
    let excerpts = vec![
        excerpt("/n/a.md", "the backup runs nightly"),
        excerpt("/n/b.md", "the importer ships first"),
    ];
    let messages = build_prompt("when does the backup run?", &excerpts);

    assert_eq!(messages.len(), 2);
    assert_eq!(messages[0].role, Role::System);
    assert_eq!(messages[1].role, Role::User);

    let user = &messages[1].content;
    assert!(user.contains("when does the backup run?"));
    assert!(user.contains("the backup runs nightly"));
    assert!(user.contains("the importer ships first"));
    assert!(user.contains("[1] /n/a.md"));
    assert!(user.contains("[2] /n/b.md"));
}

#[test]
fn the_system_prompt_forbids_answering_beyond_the_excerpts() {
    let messages = build_prompt("q", &vec![]);
    let system = &messages[0].content.to_lowercase();
    assert!(system.contains("only the excerpts"));
    assert!(system.contains("cite"));
    assert!(
        system.contains("same language"),
        "a Polish question deserves a Polish answer"
    );
}

#[test]
fn the_context_budget_drops_the_weakest_excerpts() {
    let long = "word ".repeat(200); // ~250 tokens
    let texts: Vec<String> = (0..10).map(|_| long.clone()).collect();

    let selected = select_context(&texts, 600);
    assert!(selected < texts.len(), "the budget must bite");
    assert!(selected > 0);
    assert_eq!(selected, 2);
}

#[test]
fn a_single_oversized_excerpt_is_still_used() {
    let huge = "word ".repeat(5000);
    let selected = select_context(&vec![huge], 10);
    assert_eq!(selected, 1, "answering from one excerpt beats none");
}

#[test]
fn the_prompt_is_laid_out_exactly() {
    let messages = build_prompt("why?", &vec![excerpt("a.md", "  text one \n")]);
    assert_eq!(messages[0].content, SYSTEM_PROMPT);
    assert_eq!(
        messages[1].content,
        "Excerpts from the indexed files:\n\n[1] a.md\ntext one\n\nQuestion: why?"
    );
}

#[test]
fn nothing_to_select_from_selects_nothing() {
    assert_eq!(select_context(&vec![], 100), 0);
    let small: Vec<String> = vec!["abcd".to_string(); 3];
    assert_eq!(select_context(&small, 3), 3);
    assert_eq!(select_context(&small, 2), 2);
    assert_eq!(select_context(&small, 0), 1);
}

#[test]
fn ask_options_default_to_eight_excerpts_in_three_thousand_tokens() {
    let o = AskOptions::default();
    assert_eq!(o.top_k, 8);
    assert_eq!(o.max_context_tokens, 3000);
    assert!(o.path.is_none() && o.model.is_none());
    let origin = Origin::default();
    assert_eq!((origin.files, origin.chunks), (0, 0));
    assert!(origin.root.is_none());
}
