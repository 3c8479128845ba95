//! Retrieval-augmented answering: which excerpts fit the prompt, and the
//! prompt that grounds the answer in them. Searching and asking the model
//! happen outside.

use vstd::prelude::*;
use vstd::string::StringExecFns;
use vstd::utf8::encode_utf8;

use crate::backend::{Message, Role};
use crate::chunk::estimate_tokens;
use crate::store::Stats;
use crate::text::{decimal, est_tokens, trim, trim_ws, usize_decimal};

verus! {

pub struct AskOptions {
    pub top_k: usize,
    /// Only draw excerpts from paths matching this glob.
    pub path: Option<String>,
    /// Override the configured chat model for this one question.
    pub model: Option<String>,
    /// Ceiling on how much retrieved text is pasted into the prompt.
    pub max_context_tokens: usize,
}

impl Default for AskOptions {
    fn default() -> (o: Self)
        ensures
            o.top_k == 8,
            o.path is None,
            o.model is None,
            o.max_context_tokens == 3000,
    {
        AskOptions { top_k: 8, path: None, model: None, max_context_tokens: 3000 }
    }
}

/// Which index answered: the root it was built from, by which backend and
/// embedding model, and how much of it there was.
#[derive(Debug, Clone, PartialEq)]
pub struct Origin {
    pub root: Option<String>,
    pub backend: Option<String>,
    pub embed_model: Option<String>,
    pub files: i64,
    pub chunks: i64,
}

impl Default for Origin {
    fn default() -> (o: Self)
        ensures
            o.root is None,
            o.backend is None,
            o.embed_model is None,
            o.files == 0,
            o.chunks == 0,
    {
        Origin { root: None, backend: None, embed_model: None, files: 0, chunks: 0 }
    }
}

impl Origin {
    /// The origin an index reports through its statistics.
    pub fn of_stats(stats: Stats) -> (o: Origin)
        ensures
            o.root == stats.root_path,
            o.backend == stats.backend,
            o.embed_model == stats.embed_model,
            o.files == stats.files,
            o.chunks == stats.chunks,
    {
        Origin {
            root: stats.root_path,
            backend: stats.backend,
            embed_model: stats.embed_model,
            files: stats.files,
            chunks: stats.chunks,
        }
    }
}

/// A retrieved passage, as the prompt shows it.
pub struct Excerpt {
    pub path: String,
    pub text: String,
}

/// The token estimate of each text.
pub open spec fn costs(texts: Seq<Seq<char>>) -> Seq<int> {
    texts.map_values(|t: Seq<char>| est_tokens(encode_utf8(t).len() as int))
}

/// The sum of the first `n` costs.
pub open spec fn cost_of_first(cs: Seq<int>, n: int) -> int
    decreases n,
{
    if n <= 0 {
        0
    } else {
        cost_of_first(cs, n - 1) + cs[n - 1]
    }
}

/// How many of the best-ranked excerpts fit the budget: the best one always,
/// then each next one while the running total stays within
/// `max_context_tokens`.
pub open spec fn fits_context(cs: Seq<int>, max: int, n: int) -> bool {
    &&& 0 <= n <= cs.len()
    &&& (cs.len() > 0 ==> n >= 1)
    &&& (n >= 2 ==> cost_of_first(cs, n) <= max)
    &&& (n < cs.len() && n >= 1 ==> cost_of_first(cs, n + 1) > max)
}

/// How many of `texts`, best first, go into the prompt. The best excerpt is
/// always kept even when it alone is over the budget: answering from one
/// long excerpt beats answering from none.
pub fn select_context(texts: &Vec<String>, max_context_tokens: usize) -> (n: usize)
    ensures
        fits_context(costs(texts.deep_view()), max_context_tokens as int, n as int),
{
    let ghost cs = costs(texts.deep_view());
    let mut used: usize = 0;
    let mut n: usize = 0;
    while n < texts.len()
        invariant
            cs == costs(texts.deep_view()),
            cs.len() == texts.len(),
            n <= texts.len(),
            used == cost_of_first(cs, n as int),
            n >= 2 ==> used <= max_context_tokens,
            n == 1 || used <= max_context_tokens || n == 0,
        ensures
            cs == costs(texts.deep_view()),
            n <= texts.len(),
            n >= 2 ==> cost_of_first(cs, n as int) <= max_context_tokens,
            n < texts.len() ==> n >= 1 && cost_of_first(cs, n as int + 1) > max_context_tokens,
            texts.len() > 0 ==> n >= 1,
        decreases texts.len() - n,
    {
        assert(texts.deep_view()[n as int] == texts[n as int]@);
        let cost = estimate_tokens(texts[n].as_str());
        assert(cost == cs[n as int]);
        if n > 0 {
            match used.checked_add(cost) {
                None => {
                    assert(cost_of_first(cs, n as int + 1) > max_context_tokens);
                    break;
                },
                Some(total) => {
                    if total > max_context_tokens {
                        assert(cost_of_first(cs, n as int + 1) > max_context_tokens);
                        break;
                    }
                },
            }
        }
        used = used + cost;
        n = n + 1;
    }
    n
}

pub const SYSTEM_PROMPT: &'static str = "You answer questions about the user's own files, using only the excerpts you are given. If the excerpts do not contain the answer, say so plainly instead of guessing. Cite the excerpts you rely on by their bracketed numbers, like [1] or [2][3]. Answer in the same language as the question.";

/// What an answer says when the index holds nothing to answer from.
pub const NOTHING_TO_ANSWER: &'static str = "The index has nothing to answer this from.";

/// The excerpts as the prompt lists them: `[n] path`, the trimmed text, and
/// a blank line.
pub open spec fn excerpt_lines(excerpts: Seq<Excerpt>) -> Seq<char>
    decreases excerpts.len(),
{
    if excerpts.len() == 0 {
        Seq::empty()
    } else {
        excerpt_lines(excerpts.drop_last()) + "["@ + decimal(excerpts.len()) + "] "@
            + excerpts.last().path@ + "\n"@ + trim_ws(excerpts.last().text@) + "\n\n"@
    }
}

/// The user message: the numbered excerpts, then the question.
pub open spec fn grounded_question(question: Seq<char>, excerpts: Seq<Excerpt>) -> Seq<char> {
    "Excerpts from the indexed files:\n\n"@ + excerpt_lines(excerpts) + "Question: "@ + question
}

/// The conversation that asks the model to answer from the excerpts alone,
/// citing them by number.
pub fn build_prompt(question: &str, excerpts: &Vec<Excerpt>) -> (r: Vec<Message>)
    ensures
        r@.len() == 2,
        r@[0].role == Role::System,
        r@[0].content@ == SYSTEM_PROMPT@,
        r@[1].role == Role::User,
        r@[1].content@ == grounded_question(question@, excerpts@),
{
    let mut context = String::from_str("Excerpts from the indexed files:\n\n");
    let ghost head = context@;
    let mut i: usize = 0;
    while i < excerpts.len()
        invariant
            i <= excerpts.len(),
            head == "Excerpts from the indexed files:\n\n"@,
            context@ == head + excerpt_lines(excerpts@.take(i as int)),
        decreases excerpts.len() - i,
    {
        assert(excerpts@.take(i as int + 1).drop_last() =~= excerpts@.take(i as int));
        context.append("[");
        let n = usize_decimal(i + 1);
        context.append(n.as_str());
        context.append("] ");
        context.append(excerpts[i].path.as_str());
        context.append("\n");
        let t = trim(excerpts[i].text.as_str());
        context.append(t.as_str());
        context.append("\n\n");
        i = i + 1;
        assert(context@ =~= head + excerpt_lines(excerpts@.take(i as int)));
    }
    assert(excerpts@.take(excerpts.len() as int) =~= excerpts@);
    context.append("Question: ");
    context.append(question);
    let mut r: Vec<Message> = Vec::new();
    r.push(Message::system(SYSTEM_PROMPT));
    r.push(Message::user(context.as_str()));
    r
}

/// The best excerpt always makes it into the prompt, and what is selected
/// is a prefix of the ranking that stays within the budget unless it is the
/// best excerpt alone.
pub proof fn law_best_excerpt_always_kept(cs: Seq<int>, max: int, n: int)
    requires
        fits_context(cs, max, n),
        cs.len() > 0,
    ensures
        1 <= n <= cs.len(),
        n == 1 || cost_of_first(cs, n) <= max,
{
}

} // verus!
