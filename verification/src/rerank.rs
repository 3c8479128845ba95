//! Reranking: when a second look at the shortlist is taken, what the
//! reranker is shown, and whether its answer can be used. The scores
//! themselves are floating-point and are handled outside.

use vstd::prelude::*;
use vstd::string::StringExecFns;

use crate::backend::Message;
use crate::text::{
    char_is_alphanumeric, chars_of, decimal, is_alphanumeric, parse_usize, parsed_usize, same_text,
    string_from_chars, sub_string, trim, trim_end_char, trim_end_matches, trim_start_char,
    trim_start_matches, trim_ws, usize_decimal,
};

verus! {

#[derive(Debug, Clone, Copy, PartialEq, Eq, Structural)]
pub enum RerankMode {
    /// Rerank when the backend has a reranking model, and quietly skip it
    /// when it has not.
    Auto,
    /// Rank by retrieval score alone.
    Off,
    /// Insist on the backend's `/rerank` endpoint, and fail if there is none.
    Endpoint,
    /// Score the excerpts with the chat model.
    Llm,
}

pub open spec fn rerank_mode_name(m: RerankMode) -> Seq<char> {
    match m {
        RerankMode::Auto => "auto"@,
        RerankMode::Off => "off"@,
        RerankMode::Endpoint => "endpoint"@,
        RerankMode::Llm => "llm"@,
    }
}

impl Default for RerankMode {
    fn default() -> (m: Self)
        ensures
            m == RerankMode::Auto,
    {
        RerankMode::Auto
    }
}

impl RerankMode {
    /// The name the command line and the config file use.
    pub fn as_str(self) -> (s: &'static str)
        ensures
            s@ == rerank_mode_name(self),
    {
        match self {
            RerankMode::Auto => "auto",
            RerankMode::Off => "off",
            RerankMode::Endpoint => "endpoint",
            RerankMode::Llm => "llm",
        }
    }

    /// The mode with this name, if there is one.
    pub fn named(name: &str) -> (m: Option<RerankMode>)
        ensures
            m matches Some(x) ==> rerank_mode_name(x) == name@,
            m is None ==> forall|x: RerankMode| rerank_mode_name(x) != name@,
    {
        if same_text(name, "auto") {
            Some(RerankMode::Auto)
        } else if same_text(name, "off") {
            Some(RerankMode::Off)
        } else if same_text(name, "endpoint") {
            Some(RerankMode::Endpoint)
        } else if same_text(name, "llm") {
            Some(RerankMode::Llm)
        } else {
            None
        }
    }
}

#[derive(Debug, Clone, Copy, PartialEq, Eq)]
pub struct RerankOptions {
    pub mode: RerankMode,
    /// How many retrieved chunks are handed to the reranker.
    pub top: usize,
    /// How much of each chunk is shown to it.
    pub max_chars: usize,
}

impl Default for RerankOptions {
    fn default() -> (o: Self)
        ensures
            o.mode == RerankMode::Auto,
            o.top == 20,
            o.max_chars == 1200,
    {
        RerankOptions { mode: RerankMode::Auto, top: 20, max_chars: 1200 }
    }
}

impl RerankOptions {
    pub fn is_off(&self) -> (b: bool)
        ensures
            b == (self.mode == RerankMode::Off),
    {
        self.mode == RerankMode::Off
    }
}

/// What a reranking run does with a shortlist.
#[derive(Debug, Clone, Copy, PartialEq, Eq, Structural)]
pub enum RerankPlan {
    /// Leave the retrieval order alone.
    Keep,
    /// Ask the backend's reranking model; `required` when its absence is an
    /// error rather than a reason to keep the order.
    Endpoint { required: bool },
    /// Have the chat model score the excerpts.
    Chat,
}

/// One excerpt cannot be reordered and none is not a question; otherwise
/// the mode decides.
pub open spec fn spec_rerank_plan(documents: nat, mode: RerankMode) -> RerankPlan {
    if documents < 2 {
        RerankPlan::Keep
    } else {
        match mode {
            RerankMode::Off => RerankPlan::Keep,
            RerankMode::Auto => RerankPlan::Endpoint { required: false },
            RerankMode::Endpoint => RerankPlan::Endpoint { required: true },
            RerankMode::Llm => RerankPlan::Chat,
        }
    }
}

pub fn rerank_plan(documents: usize, mode: RerankMode) -> (p: RerankPlan)
    ensures
        p == spec_rerank_plan(documents as nat, mode),
{
    if documents < 2 {
        return RerankPlan::Keep;
    }
    match mode {
        RerankMode::Off => RerankPlan::Keep,
        RerankMode::Auto => RerankPlan::Endpoint { required: false },
        RerankMode::Endpoint => RerankPlan::Endpoint { required: true },
        RerankMode::Llm => RerankPlan::Chat,
    }
}

/// A reranker's scores are used only when there is one per excerpt.
pub fn scores_fit(scores: usize, documents: usize) -> (b: bool)
    ensures
        b == (scores == documents),
{
    scores == documents
}

/// A model's ratings are used only when at least half the excerpts came back
/// rated; otherwise the retrieval order is kept.
pub fn enough_rated(rated: usize, expected: usize) -> (b: bool)
    requires
        rated <= expected,
    ensures
        b == (expected > 0 && 2 * rated >= expected),
{
    expected > 0 && rated >= expected - rated
}

/// A chunk as the reranker sees it: trimmed, then cut to `max_chars`
/// characters.
pub open spec fn clipped(text: Seq<char>, max_chars: nat) -> Seq<char> {
    if trim_ws(text).len() <= max_chars {
        trim_ws(text)
    } else {
        trim_ws(text).take(max_chars as int)
    }
}

/// Shorten a chunk to `max_chars` characters, on a character boundary.
pub fn clip(text: &str, max_chars: usize) -> (r: String)
    ensures
        r@ == clipped(text@, max_chars as nat),
        r@.len() <= max_chars,
{
    let trimmed = trim(text);
    let cs = chars_of(trimmed.as_str());
    if cs.len() <= max_chars {
        return trimmed;
    }
    sub_string(&cs, 0, max_chars)
}

pub const LLM_SYSTEM_PROMPT: &'static str = "You rate how well each numbered excerpt helps answer a question. Reply with one line per excerpt, in the form `N: S`, where N is the excerpt number and S is a relevance score from 0 (irrelevant) to 10 (answers the question directly). Rate every excerpt. Write nothing else.";

/// The excerpt lines of the scoring prompt: `[n] text` and a blank line.
pub open spec fn rating_lines(documents: Seq<Seq<char>>) -> Seq<char>
    decreases documents.len(),
{
    if documents.len() == 0 {
        Seq::empty()
    } else {
        rating_lines(documents.drop_last()) + "["@ + decimal(documents.len()) + "] "@ + trim_ws(
            documents.last(),
        ) + "\n\n"@
    }
}

/// The prompt that asks the chat model to score every excerpt at once.
pub open spec fn rating_prompt(query: Seq<char>, documents: Seq<Seq<char>>) -> Seq<char> {
    "Question: "@ + query + "\n\nExcerpts:\n\n"@ + rating_lines(documents) + "Rate all "@
        + decimal(documents.len()) + " excerpts, one per line."@
}

pub fn llm_prompt(query: &str, documents: &Vec<String>) -> (r: String)
    ensures
        r@ == rating_prompt(query@, documents.deep_view()),
{
    let mut prompt = String::from_str("Question: ");
    prompt.append(query);
    prompt.append("\n\nExcerpts:\n\n");
    let ghost head = prompt@;
    let mut i: usize = 0;
    while i < documents.len()
        invariant
            i <= documents.len(),
            head == "Question: "@ + query@ + "\n\nExcerpts:\n\n"@,
            prompt@ == head + rating_lines(documents.deep_view().take(i as int)),
        decreases documents.len() - i,
    {
        let ghost before = prompt@;
        assert(documents.deep_view().take(i as int + 1).drop_last() =~= documents.deep_view().take(
            i as int,
        ));
        assert(documents.deep_view()[i as int] == documents[i as int]@);
        prompt.append("[");
        let n = usize_decimal(i + 1);
        prompt.append(n.as_str());
        prompt.append("] ");
        let t = trim(documents[i].as_str());
        prompt.append(t.as_str());
        prompt.append("\n\n");
        i = i + 1;
        assert(prompt@ =~= head + rating_lines(documents.deep_view().take(i as int)));
    }
    assert(documents.deep_view().take(documents.len() as int) =~= documents.deep_view());
    prompt.append("Rate all ");
    let n = usize_decimal(documents.len());
    prompt.append(n.as_str());
    prompt.append(" excerpts, one per line.");
    prompt
}

/// The conversation that has the chat model score a shortlist.
pub fn llm_messages(query: &str, documents: &Vec<String>) -> (r: Vec<Message>)
    ensures
        r@.len() == 2,
        r@[0].role == crate::backend::Role::System,
        r@[0].content@ == LLM_SYSTEM_PROMPT@,
        r@[1].role == crate::backend::Role::User,
        r@[1].content@ == rating_prompt(query@, documents.deep_view()),
{
    let prompt = llm_prompt(query, documents);
    let mut r: Vec<Message> = Vec::new();
    r.push(Message::system(LLM_SYSTEM_PROMPT));
    r.push(Message::user(prompt.as_str()));
    r
}

} // verus!

verus! {

/// `s` without its leading characters that are not alphanumeric.
pub open spec fn skip_to_alphanumeric(s: Seq<char>) -> Seq<char>
    decreases s.len(),
{
    if s.len() > 0 && !char_is_alphanumeric(s[0]) {
        skip_to_alphanumeric(s.drop_first())
    } else {
        s
    }
}

pub open spec fn is_number_char(c: char) -> bool {
    ('0' <= c <= '9') || c == '.'
}

/// `str::trim_matches('.')`.
pub open spec fn trim_dots(t: Seq<char>) -> Seq<char> {
    trim_start_char(trim_end_char(t, '.'), '.')
}

/// Reading `s` and cutting it at every character that is neither a digit nor
/// a dot: the tokens completed so far (dots trimmed off their ends, empty ones
/// dropped), and the piece still being read.
pub open spec fn number_state(s: Seq<char>) -> (Seq<Seq<char>>, Seq<char>)
    decreases s.len(),
{
    if s.len() == 0 {
        (Seq::empty(), Seq::empty())
    } else {
        let (done, cur) = number_state(s.drop_last());
        if is_number_char(s.last()) {
            (done, cur.push(s.last()))
        } else if trim_dots(cur).len() == 0 {
            (done, Seq::empty())
        } else {
            (done.push(trim_dots(cur)), Seq::empty())
        }
    }
}

/// The numbers written on a line, as text.
pub open spec fn number_tokens(s: Seq<char>) -> Seq<Seq<char>> {
    let (done, cur) = number_state(s);
    if trim_dots(cur).len() == 0 {
        done
    } else {
        done.push(trim_dots(cur))
    }
}

/// What a rating line holds: it must begin, past any leading punctuation,
/// with a digit; its first number is the excerpt number and its second the
/// score, still as text.
pub open spec fn spec_rating_tokens(line: Seq<char>) -> Option<(usize, Seq<char>)> {
    let s = skip_to_alphanumeric(line);
    if s.len() == 0 || !('0' <= s[0] <= '9') {
        None
    } else if number_tokens(s).len() == 0 {
        None
    } else {
        match parsed_usize(number_tokens(s)[0]) {
            None => None,
            Some(i) => if number_tokens(s).len() < 2 {
                None
            } else {
                Some((i, number_tokens(s)[1]))
            },
        }
    }
}

proof fn lemma_skip_prefix(s: Seq<char>, lo: int)
    requires
        0 <= lo <= s.len(),
        forall|j: int| 0 <= j < lo ==> !char_is_alphanumeric(#[trigger] s[j]),
    ensures
        skip_to_alphanumeric(s) == skip_to_alphanumeric(s.subrange(lo, s.len() as int)),
    decreases lo,
{
    if lo == 0 {
        assert(s.subrange(0, s.len() as int) =~= s);
    } else {
        let t = s.drop_first();
        assert forall|j: int| 0 <= j < lo - 1 implies !char_is_alphanumeric(#[trigger] t[j]) by {
            assert(t[j] == s[j + 1]);
        }
        lemma_skip_prefix(t, lo - 1);
        assert(t.subrange(lo - 1, t.len() as int) =~= s.subrange(lo, s.len() as int));
    }
}

fn trim_dots_of(cur: &Vec<char>) -> (t: String)
    ensures
        t@ == trim_dots(cur@),
{
    let s = string_from_chars(cur);
    let end = trim_end_matches(s.as_str(), '.');
    trim_start_matches(end.as_str(), '.')
}

/// The excerpt number and the score text of a rating line such as `3: 7.5`,
/// or `None` for a line that is not one.
pub fn rating_tokens(line: &str) -> (r: Option<(usize, String)>)
    ensures
        match spec_rating_tokens(line@) {
            None => r is None,
            Some((i, t)) => r matches Some((j, u)) && j == i && u@ == t,
        },
{
    let cs = chars_of(line);
    let n = cs.len();
    let mut lo: usize = 0;
    while lo < n && !is_alphanumeric(cs[lo])
        invariant
            cs@ == line@,
            n == cs.len(),
            lo <= n,
            forall|j: int| 0 <= j < lo ==> !char_is_alphanumeric(#[trigger] cs@[j]),
        decreases n - lo,
    {
        lo = lo + 1;
    }
    proof {
        lemma_skip_prefix(line@, lo as int);
    }
    let ghost s = line@.subrange(lo as int, n as int);
    proof {
        if s.len() > 0 {
            assert(s[0] == cs@[lo as int]);
        }
        assert(skip_to_alphanumeric(s) == s);
    }
    if lo == n || !('0' <= cs[lo] && cs[lo] <= '9') {
        return None;
    }
    let mut tokens: Vec<String> = Vec::new();
    let mut cur: Vec<char> = Vec::new();
    let mut i: usize = lo;
    while i < n
        invariant
            cs@ == line@,
            n == cs.len(),
            lo <= i <= n,
            s == line@.subrange(lo as int, n as int),
            tokens.deep_view() == number_state(s.take(i - lo)).0,
            cur@ == number_state(s.take(i - lo)).1,
        decreases n - i,
    {
        let c = cs[i];
        assert(s.take(i - lo + 1).drop_last() =~= s.take(i - lo));
        assert(s.take(i - lo + 1).last() == c);
        if ('0' <= c && c <= '9') || c == '.' {
            cur.push(c);
        } else {
            let t = trim_dots_of(&cur);
            if t.as_str().is_empty() {
                cur = Vec::new();
            } else {
                tokens.push(t);
                assert(tokens.deep_view() =~= number_state(s.take(i - lo + 1)).0);
                cur = Vec::new();
            }
        }
        i = i + 1;
    }
    assert(s.take(n - lo) =~= s);
    let last = trim_dots_of(&cur);
    if !last.as_str().is_empty() {
        tokens.push(last);
    }
    assert(tokens.deep_view() =~= number_tokens(s));
    if tokens.len() == 0 {
        return None;
    }
    assert(tokens.deep_view()[0] == tokens[0]@);
    match parse_usize(tokens[0].as_str()) {
        None => None,
        Some(index) => {
            if tokens.len() < 2 {
                None
            } else {
                assert(tokens.deep_view()[1] == tokens[1]@);
                Some((index, String::from_str(tokens[1].as_str())))
            }
        },
    }
}

} // verus!

verus! {

/// The position of the last rating that names excerpt `e`, if any.
pub open spec fn last_rating(indices: Seq<usize>, e: int) -> Option<int>
    decreases indices.len(),
{
    if indices.len() == 0 {
        None
    } else if indices.last() == e {
        Some(indices.len() - 1)
    } else {
        last_rating(indices.drop_last(), e)
    }
}

/// A line position, as an integer.
pub open spec fn as_position(o: Option<usize>) -> Option<int> {
    match o {
        Some(k) => Some(k as int),
        None => None,
    }
}

/// Which rating each excerpt takes, given the excerpt number each rating
/// line named: the last line that names it, when one does. Numbers outside
/// `1..=expected` rate nothing.
pub fn ratings_by_excerpt(indices: &Vec<usize>, expected: usize) -> (r: Vec<Option<usize>>)
    ensures
        r.len() == expected,
        forall|e: int|
            0 <= e < expected ==> as_position(#[trigger] r[e]) == last_rating(indices@, e + 1),
{
    let mut r: Vec<Option<usize>> = Vec::new();
    let mut e: usize = 0;
    while e < expected
        invariant
            e <= expected,
            r.len() == e,
            forall|j: int| 0 <= j < e ==> #[trigger] r[j] is None,
        decreases expected - e,
    {
        r.push(None);
        e = e + 1;
    }
    let mut k: usize = 0;
    while k < indices.len()
        invariant
            k <= indices.len(),
            r.len() == expected,
            forall|e: int|
                0 <= e < expected ==> as_position(#[trigger] r[e]) == last_rating(
                    indices@.take(k as int),
                    e + 1,
                ),
        decreases indices.len() - k,
    {
        let n = indices[k];
        assert(indices@.take(k as int + 1).drop_last() =~= indices@.take(k as int));
        assert(indices@.take(k as int + 1).last() == n);
        if 1 <= n && n <= expected {
            r.set(n - 1, Some(k));
        }
        k = k + 1;
    }
    assert(indices@.take(indices.len() as int) =~= indices@);
    r
}

} // verus!
