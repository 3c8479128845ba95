//! The index's bookkeeping: what it reports about itself, and the checks that
//! keep one index from mixing vectors of different models, widths or schema
//! versions. The SQLite database itself is handled outside.

use vstd::prelude::*;
use vstd::string::StringExecFns;

use crate::text::{decimal, same_text, usize_decimal};

verus! {

/// The schema version this build reads and writes.
pub const SCHEMA_VERSION: &'static str = "1";

/// The parts of a chunk that are only read once ranking has picked it.
#[derive(Debug, Clone, PartialEq, Eq)]
pub struct ChunkText {
    pub ord: i64,
    pub text: String,
    pub n_tokens: i64,
}

#[derive(Debug, Clone, PartialEq)]
pub struct Stats {
    pub files: i64,
    pub chunks: i64,
    pub embed_model: Option<String>,
    pub embed_dim: Option<usize>,
    pub backend: Option<String>,
    pub root_path: Option<String>,
}

impl Default for Stats {
    fn default() -> (s: Self)
        ensures
            s.files == 0,
            s.chunks == 0,
            s.embed_model is None,
            s.embed_dim is None,
            s.backend is None,
            s.root_path is None,
    {
        Stats { files: 0, chunks: 0, embed_model: None, embed_dim: None, backend: None, root_path: None }
    }
}

/// What opening an index finds about its schema.
#[derive(Debug, Clone, Copy, PartialEq, Eq, Structural)]
pub enum SchemaCheck {
    /// No version recorded yet: a new index, to be stamped with ours.
    Fresh,
    /// Our version.
    Current,
    /// Written by another version; refused.
    Foreign,
}

pub fn schema_check(found: Option<&str>) -> (r: SchemaCheck)
    ensures
        match found {
            None => r == SchemaCheck::Fresh,
            Some(v) => if v@ == SCHEMA_VERSION@ {
                r == SchemaCheck::Current
            } else {
                r == SchemaCheck::Foreign
            },
        },
{
    match found {
        None => SchemaCheck::Fresh,
        Some(v) => if same_text(v, SCHEMA_VERSION) {
            SchemaCheck::Current
        } else {
            SchemaCheck::Foreign
        },
    }
}

/// Whether an index built with `found` may be searched or extended with
/// vectors from `configured`: embeddings of two models occupy unrelated
/// spaces, so only an index with no model yet, or the same one, is.
pub fn model_compatible(found: Option<&str>, configured: &str) -> (b: bool)
    ensures
        b == match found {
            None => true,
            Some(f) => f@ == configured@,
        },
{
    match found {
        None => true,
        Some(f) => same_text(f, configured),
    }
}

/// The refusal to mix embedding models.
pub open spec fn model_mismatch_text(found: Seq<char>, configured: Seq<char>) -> Seq<char> {
    "this index was built with embedding model `"@ + found + "`, but `"@ + configured
        + "` is configured; vectors from different models are not comparable — rerun with --reindex to rebuild it"@
}

pub fn model_mismatch_message(found: &str, configured: &str) -> (m: String)
    ensures
        m@ == model_mismatch_text(found@, configured@),
{
    let mut m = String::from_str("this index was built with embedding model `");
    m.append(found);
    m.append("`, but `");
    m.append(configured);
    m.append(
        "` is configured; vectors from different models are not comparable — rerun with --reindex to rebuild it",
    );
    m
}

/// What to do with the width of a vector about to be stored.
#[derive(Debug, Clone, Copy, PartialEq, Eq, Structural)]
pub enum DimCheck {
    /// The first vector: remember its width.
    Record,
    /// The width the index already holds.
    Matches,
    /// A different width; refused.
    Conflict,
}

/// Compare the width of a new vector with the one the index recorded (as
/// text): the first width seen is remembered, and any later one must agree.
pub fn dim_check(found: Option<&str>, dim: usize) -> (r: DimCheck)
    ensures
        match found {
            None => r == DimCheck::Record,
            Some(f) => if f@ == decimal(dim as nat) {
                r == DimCheck::Matches
            } else {
                r == DimCheck::Conflict
            },
        },
{
    match found {
        None => DimCheck::Record,
        Some(f) => {
            let d = usize_decimal(dim);
            if same_text(f, d.as_str()) {
                DimCheck::Matches
            } else {
                DimCheck::Conflict
            }
        },
    }
}

} // verus!
