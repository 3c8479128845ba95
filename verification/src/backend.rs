//! Chat messages, and the deterministic mock backend's logic: which words a
//! text is made of, where each lands in an embedding, how many of a query's
//! words an excerpt shares, and what the mock says back. Talking to a real
//! inference server, and the arithmetic on floating-point vectors, happen
//! outside.

use vstd::prelude::*;
use vstd::string::StringExecFns;
use vstd::utf8::encode_utf8;

use crate::text::{
    contains_string, decimal, distinct_words, fnv1a, fnv1a64, usize_decimal, words,
};

verus! {

/// Who authored a chat message.
#[derive(Debug, Clone, Copy, PartialEq, Eq, Structural)]
pub enum Role {
    System,
    User,
    Assistant,
}

pub open spec fn role_name(r: Role) -> Seq<char> {
    match r {
        Role::System => "system"@,
        Role::User => "user"@,
        Role::Assistant => "assistant"@,
    }
}

impl Role {
    /// The name the OpenAI chat API uses for this role.
    pub fn as_str(self) -> (s: &'static str)
        ensures
            s@ == role_name(self),
    {
        match self {
            Role::System => "system",
            Role::User => "user",
            Role::Assistant => "assistant",
        }
    }
}

/// A single chat message.
#[derive(Debug, Clone, PartialEq, Eq)]
pub struct Message {
    pub role: Role,
    pub content: String,
}

impl Message {
    pub fn system(content: &str) -> (m: Self)
        ensures
            m.role == Role::System,
            m.content@ == content@,
    {
        Message { role: Role::System, content: String::from_str(content) }
    }

    pub fn user(content: &str) -> (m: Self)
        ensures
            m.role == Role::User,
            m.content@ == content@,
    {
        Message { role: Role::User, content: String::from_str(content) }
    }

    pub fn assistant(content: &str) -> (m: Self)
        ensures
            m.role == Role::Assistant,
            m.content@ == content@,
    {
        Message { role: Role::Assistant, content: String::from_str(content) }
    }
}

/// A deterministic backend for tests and `--mock`: embeddings hash the
/// distinct words of a text into `dim` buckets.
pub struct MockBackend {
    dim: usize,
    reranker: bool,
}

/// Small enough to keep fixtures readable, large enough that unrelated words
/// rarely collide into the same bucket.
pub const DEFAULT_DIM: usize = 64;

/// The bucket a word lands in.
pub open spec fn bucket_of(word: Seq<char>, dim: usize) -> int {
    (fnv1a(encode_utf8(word)) as int) % (dim as int)
}

/// How many of the words in `ds` also occur in `qs`.
pub open spec fn shared_count(ds: Seq<Seq<char>>, qs: Seq<Seq<char>>) -> nat
    decreases ds.len(),
{
    if ds.len() == 0 {
        0
    } else {
        shared_count(ds.drop_last(), qs) + if qs.contains(ds.last()) {
            1nat
        } else {
            0nat
        }
    }
}

/// The index of the last user message, or -1.
pub open spec fn last_user(ms: Seq<Message>) -> int
    decreases ms.len(),
{
    if ms.len() == 0 {
        -1
    } else if ms.last().role == Role::User {
        ms.len() - 1
    } else {
        last_user(ms.drop_last())
    }
}

/// What the mock answers: the model it was asked for, and the last question.
pub open spec fn mock_reply(ms: Seq<Message>, model: Option<Seq<char>>) -> Seq<char> {
    "[mock:"@ + (match model {
        Some(m) => m,
        None => "mock-chat"@,
    }) + "] "@ + (if last_user(ms) >= 0 {
        ms[last_user(ms)].content@
    } else {
        "(no user message)"@
    })
}

pub open spec fn mock_description(dim: usize, reranker: bool) -> Seq<char> {
    "mock (dim "@ + decimal(dim as nat) + (if reranker {
        ", with reranker)"@
    } else {
        ")"@
    })
}

impl MockBackend {
    pub closed spec fn spec_dim(&self) -> usize {
        self.dim
    }

    pub closed spec fn spec_reranker(&self) -> bool {
        self.reranker
    }

    #[verifier::type_invariant]
    closed spec fn dim_positive(self) -> bool {
        self.dim > 0
    }

    pub fn new() -> (b: Self)
        ensures
            b.spec_dim() == DEFAULT_DIM,
            !b.spec_reranker(),
    {
        Self::with_dim(DEFAULT_DIM)
    }

    /// A mock embedding into `dim` dimensions; a zero-dimensional embedding
    /// is never valid.
    pub fn with_dim(dim: usize) -> (b: Self)
        requires
            dim > 0,
        ensures
            b.spec_dim() == dim,
            !b.spec_reranker(),
    {
        MockBackend { dim, reranker: false }
    }

    /// Pretend this backend has a reranking model.
    pub fn with_reranker(self) -> (b: Self)
        ensures
            b.spec_dim() == self.spec_dim(),
            b.spec_reranker(),
    {
        proof {
            use_type_invariant(&self);
        }
        MockBackend { dim: self.dim, reranker: true }
    }

    pub fn dim(&self) -> (d: usize)
        ensures
            d == self.spec_dim(),
            d > 0,
    {
        proof {
            use_type_invariant(self);
        }
        self.dim
    }

    pub fn has_reranker(&self) -> (b: bool)
        ensures
            b == self.spec_reranker(),
    {
        self.reranker
    }

    /// The bucket of each distinct lowercase word of `text`, in order of
    /// first appearance: where a word adds weight in the embedding.
    pub fn word_buckets(&self, text: &str) -> (r: Vec<usize>)
        ensures
            r.len() == distinct_words(text@).len(),
            forall|i: int|
                0 <= i < r.len() ==> r[i] as int == bucket_of(
                    #[trigger] distinct_words(text@)[i],
                    self.spec_dim(),
                ),
            forall|i: int| 0 <= i < r.len() ==> #[trigger] r[i] < self.spec_dim(),
    {
        proof {
            use_type_invariant(self);
        }
        let ws = words(text);
        let mut out: Vec<usize> = Vec::new();
        let mut i: usize = 0;
        while i < ws.len()
            invariant
                self.dim > 0,
                ws.deep_view() == distinct_words(text@),
                i <= ws.len(),
                out.len() == i,
                forall|j: int|
                    0 <= j < i ==> out[j] as int == bucket_of(
                        #[trigger] distinct_words(text@)[j],
                        self.dim,
                    ),
                forall|j: int| 0 <= j < i ==> #[trigger] out[j] < self.dim,
            decreases ws.len() - i,
        {
            assert(ws.deep_view()[i as int] == ws[i as int]@);
            let h = fnv1a64(ws[i].as_str());
            let b = (h % (self.dim as u64)) as usize;
            out.push(b);
            i = i + 1;
        }
        out
    }

    /// How many of the query's distinct words the document contains, and how
    /// many distinct words the query has.
    pub fn shared_words(&self, query: &str, document: &str) -> (r: (usize, usize))
        ensures
            r.0 == shared_count(distinct_words(document@), distinct_words(query@)),
            r.1 == distinct_words(query@).len(),
    {
        let wanted = words(query);
        let found = words(document);
        let mut count: usize = 0;
        let mut i: usize = 0;
        while i < found.len()
            invariant
                wanted.deep_view() == distinct_words(query@),
                found.deep_view() == distinct_words(document@),
                i <= found.len(),
                count == shared_count(found.deep_view().take(i as int), wanted.deep_view()),
                count <= i,
            decreases found.len() - i,
        {
            assert(found.deep_view().take(i as int + 1).drop_last() =~= found.deep_view().take(
                i as int,
            ));
            assert(found.deep_view()[i as int] == found[i as int]@);
            if contains_string(&wanted, &found[i]) {
                count = count + 1;
            }
            i = i + 1;
        }
        assert(found.deep_view().take(found.len() as int) =~= found.deep_view());
        (count, wanted.len())
    }

    /// The mock's reply: `[mock:<model>] <last user message>`.
    pub fn chat(&self, messages: &Vec<Message>, model: Option<&str>) -> (r: String)
        ensures
            r@ == mock_reply(
                messages@,
                match model {
                    Some(m) => Some(m@),
                    None => None,
                },
            ),
    {
        let mut i: usize = messages.len();
        assert(messages@.take(i as int) =~= messages@);
        while i > 0 && messages[i - 1].role != Role::User
            invariant
                i <= messages.len(),
                last_user(messages@) == last_user(messages@.take(i as int)),
            decreases i,
        {
            assert(messages@.take(i as int).drop_last() =~= messages@.take(i as int - 1));
            i = i - 1;
        }
        proof {
            assert(messages@.take(messages.len() as int) =~= messages@);
            if i > 0 {
                assert(messages@.take(i as int).last() == messages@[i - 1]);
                assert(last_user(messages@.take(i as int)) == i - 1);
            }
        }
        let mut reply = String::from_str("[mock:");
        match model {
            Some(m) => reply.append(m),
            None => reply.append("mock-chat"),
        }
        reply.append("] ");
        if i > 0 {
            reply.append(messages[i - 1].content.as_str());
        } else {
            reply.append("(no user message)");
        }
        reply
    }

    pub fn describe(&self) -> (r: String)
        ensures
            r@ == mock_description(self.spec_dim(), self.spec_reranker()),
    {
        let mut r = String::from_str("mock (dim ");
        let d = usize_decimal(self.dim);
        r.append(d.as_str());
        if self.reranker {
            r.append(", with reranker)");
        } else {
            r.append(")");
        }
        r
    }

    /// The mock is always reachable.
    pub fn health(&self) -> (b: bool)
        ensures
            b,
    {
        true
    }
}

impl Default for MockBackend {
    fn default() -> (b: Self)
        ensures
            b.spec_dim() == DEFAULT_DIM,
            !b.spec_reranker(),
    {
        Self::new()
    }
}

} // verus!
