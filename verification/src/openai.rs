//! The OpenAI-compatible HTTP backend's addressing: one client serves every
//! target, which differ only in base URL (with its version prefix) and model
//! names. Sending requests and reading JSON replies happen outside.

use vstd::prelude::*;
use vstd::string::StringExecFns;

use crate::text::{trim_end_char, trim_end_matches, trim_start_char, trim_start_matches};

verus! {

/// `ureq::Agent`, the HTTP client, carried through opaquely.
#[verifier::external_type_specification]
#[verifier::external_body]
pub struct ExAgent(ureq::Agent);

/// How long one request to the backend may take, in seconds, from connecting
/// to the last byte of the reply: local models can be slow to answer.
pub const REQUEST_TIMEOUT_SECS: u64 = 120;

/// `ureq::Agent::config_builder()` with `timeout_global` set to
/// `timeout_secs` seconds, built and turned into an agent. Nothing is
/// promised of the agent.
#[verifier::external_body]
fn new_agent(timeout_secs: u64) -> ureq::Agent {
    let config = ureq::Agent::config_builder().timeout_global(
        Some(std::time::Duration::from_secs(timeout_secs)),
    ).build();
    config.into()
}

pub struct OpenAiBackend {
    name: String,
    base_url: String,
    embed_model: String,
    chat_model: String,
    agent: ureq::Agent,
}

impl OpenAiBackend {
    pub closed spec fn spec_name(&self) -> Seq<char> {
        self.name@
    }

    pub closed spec fn spec_base_url(&self) -> Seq<char> {
        self.base_url@
    }

    pub closed spec fn spec_embed_model(&self) -> Seq<char> {
        self.embed_model@
    }

    pub closed spec fn spec_chat_model(&self) -> Seq<char> {
        self.chat_model@
    }

    /// The HTTP client this backend was built with.
    pub closed spec fn spec_agent(&self) -> ureq::Agent {
        self.agent
    }

    /// A backend for `base_url`, stored without trailing slashes so that
    /// endpoints can be joined on naively.
    pub fn new(name: &str, base_url: &str, embed_model: &str, chat_model: &str) -> (b: Self)
        ensures
            b.spec_name() == name@,
            b.spec_base_url() == trim_end_char(base_url@, '/'),
            b.spec_embed_model() == embed_model@,
            b.spec_chat_model() == chat_model@,
    {
        OpenAiBackend {
            name: String::from_str(name),
            base_url: trim_end_matches(base_url, '/'),
            embed_model: String::from_str(embed_model),
            chat_model: String::from_str(chat_model),
            agent: new_agent(REQUEST_TIMEOUT_SECS),
        }
    }

    pub fn base_url(&self) -> (s: &str)
        ensures
            s@ == self.spec_base_url(),
    {
        self.base_url.as_str()
    }

    pub fn embed_model(&self) -> (s: &str)
        ensures
            s@ == self.spec_embed_model(),
    {
        self.embed_model.as_str()
    }

    pub fn chat_model(&self) -> (s: &str)
        ensures
            s@ == self.spec_chat_model(),
    {
        self.chat_model.as_str()
    }

    /// The HTTP client requests go through: the one this backend holds.
    pub fn agent(&self) -> (a: &ureq::Agent)
        ensures
            *a == self.spec_agent(),
    {
        &self.agent
    }

    /// A path joined onto the base URL, keeping whatever version prefix the
    /// base URL carries.
    pub fn endpoint(&self, path: &str) -> (u: String)
        ensures
            u@ == self.spec_base_url() + seq!['/'] + trim_start_char(path@, '/'),
    {
        let mut u = String::from_str(self.base_url.as_str());
        u.append("/");
        proof {
            reveal_strlit("/");
        }
        let rest = trim_start_matches(path, '/');
        u.append(rest.as_str());
        u
    }

    /// `name (base_url)`, for diagnostics.
    pub fn describe(&self) -> (d: String)
        ensures
            d@ == self.spec_name() + " ("@ + self.spec_base_url() + ")"@,
    {
        let mut d = String::from_str(self.name.as_str());
        d.append(" (");
        d.append(self.base_url.as_str());
        d.append(")");
        d
    }
}

/// The first width that differs from the first vector's, if any: a batch of
/// embeddings must all share one dimensionality.
pub fn mixed_width(widths: &Vec<usize>) -> (r: Option<(usize, usize)>)
    ensures
        r is None <==> forall|i: int| 0 <= i < widths.len() ==> #[trigger] widths[i] == widths[0],
        r matches Some((first, bad)) ==> first == widths[0] && bad != first && exists|i: int|
            0 <= i < widths.len() && widths[i] == bad && forall|j: int|
                0 <= j < i ==> #[trigger] widths[j] == first,
{
    if widths.len() == 0 {
        return None;
    }
    let first = widths[0];
    let mut i: usize = 0;
    while i < widths.len()
        invariant
            widths.len() > 0,
            first == widths[0],
            i <= widths.len(),
            forall|j: int| 0 <= j < i ==> widths[j] == first,
        decreases widths.len() - i,
    {
        if widths[i] != first {
            return Some((first, widths[i]));
        }
        i = i + 1;
    }
    None
}

} // verus!

verus! {

/// Position `p` of a reply comes before position `q` when it answers an
/// earlier input, or the same input and arrived first.
pub open spec fn answers_before(indices: Seq<usize>, p: int, q: int) -> bool {
    indices[p] < indices[q] || (indices[p] == indices[q] && p < q)
}

/// The positions of an embeddings reply put back in input order: sorted by
/// the index each item carries, a stable sort, so items that carry the same
/// index keep the order they arrived in.
pub fn input_order(indices: &Vec<usize>) -> (r: Vec<usize>)
    ensures
        r.len() == indices.len(),
        forall|k: int| 0 <= k < r.len() ==> #[trigger] r[k] < indices.len(),
        forall|p: usize| p < indices.len() ==> #[trigger] r@.contains(p),
        forall|a: int, b: int|
            0 <= a < b < r.len() ==> answers_before(indices@, #[trigger] r[a] as int, #[trigger] r[b] as int),
{
    let mut r: Vec<usize> = Vec::new();
    let mut p: usize = 0;
    while p < indices.len()
        invariant
            p <= indices.len(),
            r.len() == p,
            forall|k: int| 0 <= k < r.len() ==> #[trigger] r[k] < p,
            forall|q: usize| q < p ==> #[trigger] r@.contains(q),
            forall|a: int, b: int|
                0 <= a < b < r.len() ==> answers_before(indices@, #[trigger] r[a] as int, #[trigger] r[b] as int),
        decreases indices.len() - p,
    {
        let mut k: usize = 0;
        while k < r.len() && indices[r[k]] <= indices[p]
            invariant
                k <= r.len(),
                p < indices.len(),
                forall|j: int| 0 <= j < r.len() ==> #[trigger] r[j] < p,
                forall|j: int| 0 <= j < k ==> indices[#[trigger] r[j] as int] <= indices[p as int],
            decreases r.len() - k,
        {
            k = k + 1;
        }
        let ghost before = r@;
        r.insert(k, p);
        assert(r@ == before.insert(k as int, p));
        assert forall|a: int, b: int| 0 <= a < b < r.len() implies answers_before(
            indices@,
            #[trigger] r[a] as int,
            #[trigger] r[b] as int,
        ) by {
            if b < k {
                assert(r[a] == before[a] && r[b] == before[b]);
            } else if b == k {
                assert(r[a] == before[a]);
                assert(indices[before[a] as int] <= indices[p as int]);
            } else if a < k {
                assert(r[a] == before[a] && r[b] == before[b - 1]);
                if a < b - 1 {
                    assert(answers_before(indices@, before[a] as int, before[b - 1] as int));
                }
            } else if a == k {
                assert(r[b] == before[b - 1]);
                assert(indices[p as int] < indices[before[k as int] as int]);
                if b - 1 > k {
                    assert(answers_before(indices@, before[k as int] as int, before[b - 1] as int));
                }
            } else {
                assert(r[a] == before[a - 1] && r[b] == before[b - 1]);
            }
        }
        assert forall|q: usize| q < p + 1 implies #[trigger] r@.contains(q) by {
            if q < p {
                assert(before.contains(q));
                let j = choose|j: int| 0 <= j < before.len() && before[j] == q;
                if j < k {
                    assert(r@[j] == q);
                } else {
                    assert(r@[j + 1] == q);
                }
            } else {
                assert(r@[k as int] == p);
            }
        }
        assert forall|j: int| 0 <= j < r.len() implies #[trigger] r[j] < p + 1 by {
            if j < k {
                assert(r[j] == before[j]);
            } else if j > k {
                assert(r[j] == before[j - 1]);
            }
        }
        p = p + 1;
    }
    r
}

} // verus!
