//! Retrieval settings: which retrievers run, how wide a net each casts, and
//! which paths a search may return. Scoring and fusing are floating-point and
//! happen outside.

use vstd::prelude::*;
use vstd::string::StringExecFns;

use crate::rerank::RerankOptions;
use crate::text::{find_char, rfind_char, same_text, split_once};

verus! {

/// Which retrievers to run.
#[derive(Debug, Clone, Copy, PartialEq, Eq, Structural)]
pub enum SearchMode {
    /// Both, fused.
    Hybrid,
    /// Embeddings only.
    Vector,
    /// BM25 only; needs no backend call at all.
    Lexical,
}

pub open spec fn search_mode_name(m: SearchMode) -> Seq<char> {
    match m {
        SearchMode::Hybrid => "hybrid"@,
        SearchMode::Vector => "vector"@,
        SearchMode::Lexical => "lexical"@,
    }
}

impl Default for SearchMode {
    fn default() -> (m: Self)
        ensures
            m == SearchMode::Hybrid,
    {
        SearchMode::Hybrid
    }
}

impl SearchMode {
    pub fn as_str(self) -> (s: &'static str)
        ensures
            s@ == search_mode_name(self),
    {
        match self {
            SearchMode::Hybrid => "hybrid",
            SearchMode::Vector => "vector",
            SearchMode::Lexical => "lexical",
        }
    }

    /// The mode with this name, if there is one.
    pub fn named(name: &str) -> (m: Option<SearchMode>)
        ensures
            m matches Some(x) ==> search_mode_name(x) == name@,
            m is None ==> forall|x: SearchMode| search_mode_name(x) != name@,
    {
        if same_text(name, "hybrid") {
            Some(SearchMode::Hybrid)
        } else if same_text(name, "vector") {
            Some(SearchMode::Vector)
        } else if same_text(name, "lexical") {
            Some(SearchMode::Lexical)
        } else {
            None
        }
    }
}

pub open spec fn spec_candidate_pool(candidates: nat, top_k: nat) -> nat {
    if candidates > 0 {
        if candidates >= top_k {
            candidates
        } else {
            top_k
        }
    } else if 5 * top_k >= 50 {
        5 * top_k
    } else {
        50
    }
}

/// The candidate pool each retriever fills before fusion: the configured
/// number when there is one, never below `top_k`; otherwise five times
/// `top_k`, and at least fifty.
pub fn candidate_pool(candidates: usize, top_k: usize) -> (p: usize)
    requires
        candidates > 0 || 5 * top_k <= usize::MAX,
    ensures
        p == spec_candidate_pool(candidates as nat, top_k as nat),
        p >= top_k,
{
    if candidates > 0 {
        return if candidates >= top_k {
            candidates
        } else {
            top_k
        };
    }
    let widened = top_k * 5;
    if widened >= 50 {
        widened
    } else {
        50
    }
}

/// How many chunks reach ranking: `top_k`, or more when a reranker will
/// look at the shortlist.
pub fn shortlist_size(top_k: usize, rerank: &RerankOptions) -> (s: usize)
    ensures
        s == (if rerank.mode == crate::rerank::RerankMode::Off {
            top_k
        } else if rerank.top >= top_k {
            rerank.top
        } else {
            top_k
        }),
        s >= top_k,
{
    if rerank.is_off() {
        top_k
    } else if rerank.top >= top_k {
        rerank.top
    } else {
        top_k
    }
}

/// How many candidates each retriever is asked for: hybrid search widens the
/// net before fusion, a single retriever needs only the shortlist.
pub fn retriever_pool(mode: SearchMode, shortlist: usize, candidates: usize) -> (p: usize)
    requires
        candidates > 0 || 5 * shortlist <= usize::MAX,
    ensures
        p == (if mode == SearchMode::Hybrid {
            spec_candidate_pool(candidates as nat, shortlist as nat)
        } else {
            shortlist as nat
        }),
        p >= shortlist,
{
    match mode {
        SearchMode::Hybrid => candidate_pool(candidates, shortlist),
        _ => shortlist,
    }
}

/// The retriever pool for a search, or `None` when hybrid search with no
/// explicit candidate count would widen the shortlist past what `usize` can
/// count.
pub fn checked_retriever_pool(mode: SearchMode, shortlist: usize, candidates: usize) -> (p: Option<
    usize,
>)
    ensures
        p is None <==> (mode == SearchMode::Hybrid && candidates == 0 && 5 * shortlist
            > usize::MAX),
        p matches Some(n) ==> n == (if mode == SearchMode::Hybrid {
            spec_candidate_pool(candidates as nat, shortlist as nat)
        } else {
            shortlist as nat
        }),
{
    match mode {
        SearchMode::Hybrid => {
            if candidates == 0 && shortlist > usize::MAX / 5 {
                return None;
            }
            Some(candidate_pool(candidates, shortlist))
        },
        _ => Some(shortlist),
    }
}

/// Whether globset accepts `pattern` as a glob and compiles it into a
/// matcher (`Glob::new`, then `GlobSetBuilder::build` on that one glob).
pub uninterp spec fn glob_valid(pattern: Seq<char>) -> bool;

/// Whether the compiled glob `pattern` matches `path`, as globset decides it.
pub uninterp spec fn glob_matches(pattern: Seq<char>, path: Seq<char>) -> bool;

/// `globset::Glob::new(pattern)`, added alone to a `GlobSetBuilder` and
/// built, then `GlobSet::is_match(path)`: `Ok` exactly when the pattern
/// parses and its matcher builds, carrying whether it matches the path;
/// otherwise the error as globset words it. Building through the set
/// returns a failure to compile as an error where `compile_matcher` would
/// panic.
#[verifier::external_body]
fn glob_match(pattern: &str, path: &str) -> (r: Result<bool, String>)
    ensures
        r is Ok <==> glob_valid(pattern@),
        r matches Ok(b) ==> b == glob_matches(pattern@, path@),
{
    let glob = match globset::Glob::new(pattern) {
        Ok(glob) => glob,
        Err(e) => return Err(e.to_string()),
    };
    let mut builder = globset::GlobSetBuilder::new();
    builder.add(glob);
    match builder.build() {
        Ok(set) => Ok(set.is_match(path)),
        Err(e) => Err(e.to_string()),
    }
}

/// Whether a valid glob matches a path.
fn glob_is_match(pattern: &str, path: &str) -> (b: bool)
    requires
        glob_valid(pattern@),
    ensures
        b == glob_matches(pattern@, path@),
{
    match glob_match(pattern, path) {
        Ok(b) => b,
        Err(_) => false,
    }
}

/// What `Path::file_name` gives for a path, as text.
pub uninterp spec fn path_file_name(path: Seq<char>) -> Option<Seq<char>>;

/// `Path::file_name`, as text.
#[verifier::external_body]
pub(crate) fn file_name_of(path: &str) -> (r: Option<String>)
    ensures
        match r {
            Some(n) => path_file_name(path@) == Some(n@),
            None => path_file_name(path@) is None,
        },
{
    std::path::Path::new(path).file_name().map(|n| n.to_string_lossy().into_owned())
}

/// Glob matching for `--path`. A pattern without a separator is matched
/// against the file name too, so `*.md` finds Markdown files anywhere.
pub struct PathFilter {
    pattern: String,
    match_file_name: bool,
}

/// Whether a path passes the filter built from `pattern`.
pub open spec fn path_passes(pattern: Seq<char>, path: Seq<char>) -> bool {
    ||| glob_matches(pattern, path)
    ||| (find_char(pattern, '/') < 0 && (match path_file_name(path) {
        Some(n) => glob_matches(pattern, n),
        None => false,
    }))
}

impl PathFilter {
    pub closed spec fn pattern_spec(&self) -> Seq<char> {
        self.pattern@
    }

    #[verifier::type_invariant]
    closed spec fn well_formed(self) -> bool {
        &&& glob_valid(self.pattern@)
        &&& self.match_file_name == (find_char(self.pattern@, '/') < 0)
    }

    /// A filter for `pattern`, or the reason it is not a valid glob.
    pub fn new(pattern: &str) -> (r: Result<PathFilter, String>)
        ensures
            r is Ok <==> glob_valid(pattern@),
            r matches Ok(f) ==> f.pattern_spec() == pattern@,
            r matches Err(m) ==> exists|reason: Seq<char>|
                m@ == "invalid --path glob `"@ + pattern@ + "`: "@ + reason,
    {
        match glob_match(pattern, "") {
            Err(e) => {
                let mut message = String::from_str("invalid --path glob `");
                message.append(pattern);
                message.append("`: ");
                message.append(e.as_str());
                Err(message)
            },
            Ok(_) => {
                let has_separator = split_once(pattern, '/').is_some();
                Ok(
                    PathFilter {
                        pattern: String::from_str(pattern),
                        match_file_name: !has_separator,
                    },
                )
            },
        }
    }

    pub fn matches(&self, path: &str) -> (b: bool)
        ensures
            b == path_passes(self.pattern_spec(), path@),
    {
        proof {
            use_type_invariant(self);
        }
        if glob_is_match(self.pattern.as_str(), path) {
            return true;
        }
        if self.match_file_name {
            if let Some(name) = file_name_of(path) {
                return glob_is_match(self.pattern.as_str(), name.as_str());
            }
        }
        false
    }
}

} // verus!

verus! {

/// The first occurrence of each element of `s`, in order of appearance.
pub open spec fn first_occurrences(s: Seq<i64>) -> Seq<i64>
    decreases s.len(),
{
    if s.len() == 0 {
        Seq::empty()
    } else {
        let d = first_occurrences(s.drop_last());
        if d.contains(s.last()) {
            d
        } else {
            d.push(s.last())
        }
    }
}

/// No chunk occurs twice.
pub open spec fn ids_distinct(s: Seq<i64>) -> bool {
    forall|i: int, j: int| 0 <= i < j < s.len() ==> s[i] != s[j]
}

/// The slot of `id` in `merged`, appending it when it is not there yet.
fn slot_of(merged: &mut Vec<i64>, id: i64) -> (p: usize)
    requires
        ids_distinct(old(merged)@),
    ensures
        final(merged)@ == (if old(merged)@.contains(id) {
            old(merged)@
        } else {
            old(merged)@.push(id)
        }),
        ids_distinct(final(merged)@),
        p < final(merged)@.len(),
        final(merged)@[p as int] == id,
{
    let mut p: usize = 0;
    while p < merged.len() && merged[p] != id
        invariant
            p <= merged.len(),
            forall|q: int| 0 <= q < p ==> merged@[q] != id,
        decreases merged.len() - p,
    {
        p = p + 1;
    }
    if p == merged.len() {
        assert(!merged@.contains(id));
        merged.push(id);
    } else {
        assert(merged@.contains(id)) by {
            assert(merged@[p as int] == id);
        }
    }
    p
}

/// Where each chunk of two ranked lists goes in their fusion: the fused list
/// holds each chunk once, in order of first appearance (the vector ranking
/// first), and each rank of each list points at its chunk's slot. The votes
/// that decide the fused order are added up per slot.
pub fn fusion_slots(vector: &Vec<i64>, lexical: &Vec<i64>) -> (r: (Vec<i64>, Vec<usize>, Vec<usize>))
    ensures
        r.0@ == first_occurrences(vector@ + lexical@),
        ids_distinct(r.0@),
        r.1.len() == vector.len(),
        r.2.len() == lexical.len(),
        forall|k: int|
            0 <= k < vector.len() ==> #[trigger] r.1[k] < r.0.len() && r.0[r.1[k] as int]
                == vector[k],
        forall|k: int|
            0 <= k < lexical.len() ==> #[trigger] r.2[k] < r.0.len() && r.0[r.2[k] as int]
                == lexical[k],
{
    let mut merged: Vec<i64> = Vec::new();
    let mut vslots: Vec<usize> = Vec::new();
    let mut lslots: Vec<usize> = Vec::new();
    let mut j: usize = 0;
    while j < vector.len()
        invariant
            j <= vector.len(),
            merged@ == first_occurrences(vector@.take(j as int)),
            ids_distinct(merged@),
            vslots.len() == j,
            forall|k: int|
                0 <= k < j ==> #[trigger] vslots[k] < merged.len() && merged[vslots[k] as int]
                    == vector[k],
        decreases vector.len() - j,
    {
        assert(vector@.take(j as int + 1).drop_last() =~= vector@.take(j as int));
        let ghost before = merged@;
        let p = slot_of(&mut merged, vector[j]);
        assert forall|k: int| 0 <= k < j implies #[trigger] vslots[k] < merged.len()
            && merged[vslots[k] as int] == vector[k] by {
            assert(merged@[vslots[k] as int] == before[vslots[k] as int]);
        }
        vslots.push(p);
        j = j + 1;
    }
    assert(vector@.take(vector.len() as int) =~= vector@);
    let mut j: usize = 0;
    while j < lexical.len()
        invariant
            j <= lexical.len(),
            merged@ == first_occurrences(vector@ + lexical@.take(j as int)),
            ids_distinct(merged@),
            vslots.len() == vector.len(),
            lslots.len() == j,
            forall|k: int|
                0 <= k < vector.len() ==> #[trigger] vslots[k] < merged.len() && merged[vslots[k] as int]
                    == vector[k],
            forall|k: int|
                0 <= k < j ==> #[trigger] lslots[k] < merged.len() && merged[lslots[k] as int]
                    == lexical[k],
        decreases lexical.len() - j,
    {
        assert((vector@ + lexical@.take(j as int + 1)).drop_last() =~= vector@ + lexical@.take(
            j as int,
        ));
        assert((vector@ + lexical@.take(j as int + 1)).last() == lexical[j as int]);
        let ghost before = merged@;
        let p = slot_of(&mut merged, lexical[j]);
        assert forall|k: int| 0 <= k < vector.len() implies #[trigger] vslots[k] < merged.len()
            && merged[vslots[k] as int] == vector[k] by {
            assert(merged@[vslots[k] as int] == before[vslots[k] as int]);
        }
        assert forall|k: int| 0 <= k < j implies #[trigger] lslots[k] < merged.len()
            && merged[lslots[k] as int] == lexical[k] by {
            assert(merged@[lslots[k] as int] == before[lslots[k] as int]);
        }
        lslots.push(p);
        j = j + 1;
    }
    assert(lexical@.take(lexical.len() as int) =~= lexical@);
    (merged, vslots, lslots)
}

/// The `--path` filter lets a file through when the glob matches its whole
/// path, whatever the pattern; a pattern without `/` also lets it through
/// when it matches the file name alone; nothing else passes.
pub proof fn law_path_filter_tries_the_whole_path_first(pattern: Seq<char>, path: Seq<char>)
    ensures
        glob_matches(pattern, path) ==> path_passes(pattern, path),
        find_char(pattern, '/') < 0 ==> (path_file_name(path) matches Some(n) && glob_matches(
            pattern,
            n,
        ) ==> path_passes(pattern, path)),
        find_char(pattern, '/') >= 0 ==> (path_passes(pattern, path) <==> glob_matches(
            pattern,
            path,
        )),
        path_passes(pattern, path) ==> glob_matches(pattern, path) || (path_file_name(path) matches Some(
            n,
        ) && glob_matches(pattern, n)),
{
}

} // verus!

