//! Indexing runs: their options, what a run does with each file it walks,
//! and the report of what it did.

use vstd::prelude::*;

use crate::extract::{extract, spec_looks_binary, spec_needs_extractor, Extraction, SkipReason};
use crate::text::{decimal, same_text, usize_decimal, utf8_lossy};

verus! {

pub struct IndexOptions {
    /// Rebuild everything, ignoring what the index already knows.
    pub reindex: bool,
    /// How many chunks are sent per embeddings request.
    pub batch_size: usize,
}

impl Default for IndexOptions {
    fn default() -> (o: Self)
        ensures
            !o.reindex,
            o.batch_size == 32,
    {
        IndexOptions { reindex: false, batch_size: 32 }
    }
}

#[derive(Debug, Clone, Copy, PartialEq, Eq)]
pub struct IndexReport {
    pub scanned: usize,
    pub indexed: usize,
    pub unchanged: usize,
    pub skipped_binary: usize,
    pub skipped_unsupported: usize,
    pub skipped_too_large: usize,
    pub unreadable: usize,
    pub removed: usize,
    pub chunks_written: usize,
}

impl Default for IndexReport {
    fn default() -> (r: Self)
        ensures
            r.scanned == 0,
            r.indexed == 0,
            r.unchanged == 0,
            r.skipped_binary == 0,
            r.skipped_unsupported == 0,
            r.skipped_too_large == 0,
            r.unreadable == 0,
            r.removed == 0,
            r.chunks_written == 0,
    {
        IndexReport {
            scanned: 0,
            indexed: 0,
            unchanged: 0,
            skipped_binary: 0,
            skipped_unsupported: 0,
            skipped_too_large: 0,
            unreadable: 0,
            removed: 0,
            chunks_written: 0,
        }
    }
}

/// The lowercase hexadecimal BLAKE3 digest of some bytes, as the index
/// records it for each file.
pub uninterp spec fn blake3_hex(bytes: Seq<u8>) -> Seq<char>;

/// `blake3::hash(bytes).to_hex()`, as a string.
#[verifier::external_body]
fn content_digest(bytes: &[u8]) -> (d: String)
    ensures
        d@ == blake3_hex(bytes@),
{
    blake3::hash(bytes).to_hex().to_string()
}

/// What is known of a file's content when its step is decided.
pub enum Contents<'a> {
    /// Not read yet: only its metadata has been compared.
    NotRead,
    /// Reading it failed.
    Unreadable,
    /// Its bytes.
    Bytes(&'a [u8]),
}

/// The model of [`Contents`].
pub enum ContentsView {
    NotRead,
    Unreadable,
    Bytes(Seq<u8>),
}

impl<'a> View for Contents<'a> {
    type V = ContentsView;

    open spec fn view(&self) -> ContentsView {
        match self {
            Contents::NotRead => ContentsView::NotRead,
            Contents::Unreadable => ContentsView::Unreadable,
            Contents::Bytes(b) => ContentsView::Bytes(b@),
        }
    }
}

/// What an incremental run does with one file it walked.
#[derive(Debug, Clone, PartialEq, Eq)]
pub enum FileStep {
    /// Same size and modification time as on record: counted unchanged
    /// without being opened.
    Unchanged,
    /// Nothing can be decided before the file is read.
    Read,
    /// The file could not be read: counted, and left as the index has it.
    Unreadable,
    /// Its bytes hash to the digest on record: only its size and time are
    /// refreshed, and it counts as unchanged.
    Touch,
    /// Extraction passed it over; `forget` when the index held an earlier
    /// version of it, whose entries must go.
    Skip { reason: SkipReason, forget: bool },
    /// New or changed text, to be chunked, embedded and stored under `digest`.
    Index { text: String, digest: String },
}

/// The model of [`FileStep`].
pub enum StepView {
    Unchanged,
    Read,
    Unreadable,
    Touch,
    Skip { reason: SkipReason, forget: bool },
    Index { text: Seq<char>, digest: Seq<char> },
}

impl View for FileStep {
    type V = StepView;

    open spec fn view(&self) -> StepView {
        match self {
            FileStep::Unchanged => StepView::Unchanged,
            FileStep::Read => StepView::Read,
            FileStep::Unreadable => StepView::Unreadable,
            FileStep::Touch => StepView::Touch,
            FileStep::Skip { reason, forget } => StepView::Skip { reason: *reason, forget: *forget },
            FileStep::Index { text, digest } => StepView::Index { text: text@, digest: digest@ },
        }
    }
}

/// The record the index holds for a path: its size and content digest.
pub open spec fn known_view(known: Option<(i64, &str)>) -> Option<(i64, Seq<char>)> {
    match known {
        Some((size, digest)) => Some((size, digest@)),
        None => None,
    }
}

/// The decision for one file, in the order the checks are made: the
/// metadata fast path, then reading, then the content hash, then extraction.
pub open spec fn spec_file_step(
    path: Seq<char>,
    known: Option<(i64, Seq<char>)>,
    size: u64,
    same_mtime: bool,
    contents: ContentsView,
) -> StepView {
    let fast = match known {
        Some((k, _)) => k == size as i64 && same_mtime,
        None => false,
    };
    if fast {
        StepView::Unchanged
    } else {
        match contents {
            ContentsView::NotRead => StepView::Read,
            ContentsView::Unreadable => StepView::Unreadable,
            ContentsView::Bytes(b) => {
                let touched = match known {
                    Some((_, d)) => d == blake3_hex(b),
                    None => false,
                };
                if touched {
                    StepView::Touch
                } else if spec_needs_extractor(path) {
                    StepView::Skip { reason: SkipReason::UnsupportedFormat, forget: known is Some }
                } else if spec_looks_binary(b) {
                    StepView::Skip { reason: SkipReason::Binary, forget: known is Some }
                } else {
                    StepView::Index { text: utf8_lossy(b), digest: blake3_hex(b) }
                }
            },
        }
    }
}

/// Decide what to do with a walked file, given the record the index holds
/// for it (`known`: size and digest), its size on disk, whether its
/// modification time matches the record's, and what is known of its bytes.
/// A caller first asks with [`Contents::NotRead`] and reads the file only
/// when told [`FileStep::Read`].
pub fn file_step(
    path: &str,
    known: Option<(i64, &str)>,
    size: u64,
    same_mtime: bool,
    contents: Contents,
) -> (s: FileStep)
    ensures
        s@ == spec_file_step(path@, known_view(known), size, same_mtime, contents@),
{
    let fast = match known {
        Some((k, _)) => k == size as i64 && same_mtime,
        None => false,
    };
    if fast {
        return FileStep::Unchanged;
    }
    match contents {
        Contents::NotRead => FileStep::Read,
        Contents::Unreadable => FileStep::Unreadable,
        Contents::Bytes(bytes) => {
            let digest = content_digest(bytes);
            let touched = match known {
                Some((_, d)) => same_text(d, digest.as_str()),
                None => false,
            };
            if touched {
                return FileStep::Touch;
            }
            match extract(path, bytes) {
                Extraction::Skipped(reason) => FileStep::Skip { reason, forget: known.is_some() },
                Extraction::Text(text) => FileStep::Index { text, digest },
            }
        },
    }
}

/// The report after one step; `chunks` is how many chunks an indexed file
/// was cut into.
pub open spec fn tally(r: IndexReport, s: StepView, chunks: nat) -> IndexReport {
    match s {
        StepView::Unchanged => IndexReport { unchanged: (r.unchanged + 1) as usize, ..r },
        StepView::Touch => IndexReport { unchanged: (r.unchanged + 1) as usize, ..r },
        StepView::Read => r,
        StepView::Unreadable => IndexReport { unreadable: (r.unreadable + 1) as usize, ..r },
        StepView::Skip { reason, .. } => match reason {
            SkipReason::Binary => IndexReport { skipped_binary: (r.skipped_binary + 1) as usize, ..r },
            SkipReason::UnsupportedFormat => IndexReport {
                skipped_unsupported: (r.skipped_unsupported + 1) as usize,
                ..r
            },
        },
        StepView::Index { .. } => IndexReport {
            indexed: (r.indexed + 1) as usize,
            chunks_written: (r.chunks_written + chunks) as usize,
            ..r
        },
    }
}

/// The summary of a run, as printed: root, index file, and the counters.
pub open spec fn report_summary(root: Seq<char>, index: Seq<char>, r: IndexReport) -> Seq<char> {
    let skipped = r.skipped_binary + r.skipped_unsupported + r.skipped_too_large + r.unreadable;
    "root         "@ + root + "\nindex        "@ + index + "\nscanned      "@ + decimal(
        r.scanned as nat,
    ) + "\nindexed      "@ + decimal(r.indexed as nat) + " file(s), "@ + decimal(
        r.chunks_written as nat,
    ) + " chunk(s)\nunchanged    "@ + decimal(r.unchanged as nat) + "\n"@ + (if r.removed > 0 {
        "removed      "@ + decimal(r.removed as nat) + " file(s) no longer present\n"@
    } else {
        Seq::empty()
    }) + (if skipped > 0 {
        "skipped      "@ + decimal(skipped as nat) + " ("@ + decimal(r.skipped_binary as nat)
            + " binary, "@ + decimal(r.skipped_unsupported as nat) + " needing an extractor, "@
            + decimal(r.skipped_too_large as nat) + " too large, "@ + decimal(r.unreadable as nat)
            + " unreadable)\n"@
    } else {
        Seq::empty()
    })
}

/// Whether the counter a step adds to has room for it.
pub open spec fn has_room(r: IndexReport, s: StepView, chunks: nat) -> bool {
    match s {
        StepView::Unchanged => r.unchanged < usize::MAX,
        StepView::Touch => r.unchanged < usize::MAX,
        StepView::Read => true,
        StepView::Unreadable => r.unreadable < usize::MAX,
        StepView::Skip { reason, .. } => match reason {
            SkipReason::Binary => r.skipped_binary < usize::MAX,
            SkipReason::UnsupportedFormat => r.skipped_unsupported < usize::MAX,
        },
        StepView::Index { .. } => r.indexed < usize::MAX && r.chunks_written + chunks
            <= usize::MAX,
    }
}

impl IndexReport {
    /// Whether [`IndexReport::note_step`] can count `step` without a counter
    /// overflowing.
    pub fn can_note(&self, step: &FileStep, chunks: usize) -> (b: bool)
        ensures
            b == has_room(*self, step@, chunks as nat),
    {
        match step {
            FileStep::Unchanged | FileStep::Touch => self.unchanged < usize::MAX,
            FileStep::Read => true,
            FileStep::Unreadable => self.unreadable < usize::MAX,
            FileStep::Skip { reason, .. } => match reason {
                SkipReason::Binary => self.skipped_binary < usize::MAX,
                SkipReason::UnsupportedFormat => self.skipped_unsupported < usize::MAX,
            },
            FileStep::Index { .. } => self.indexed < usize::MAX && chunks <= usize::MAX
                - self.chunks_written,
        }
    }

    /// Count one file's step: unchanged and touched files as unchanged,
    /// skips under their reason, and an indexed file with its `chunks`.
    pub fn note_step(&mut self, step: &FileStep, chunks: usize)
        requires
            has_room(*old(self), step@, chunks as nat),
        ensures
            *final(self) == tally(*old(self), step@, chunks as nat),
    {
        match step {
            FileStep::Unchanged | FileStep::Touch => self.unchanged = self.unchanged + 1,
            FileStep::Read => {},
            FileStep::Unreadable => self.unreadable = self.unreadable + 1,
            FileStep::Skip { reason, .. } => match reason {
                SkipReason::Binary => self.skipped_binary = self.skipped_binary + 1,
                SkipReason::UnsupportedFormat => self.skipped_unsupported = self.skipped_unsupported
                    + 1,
            },
            FileStep::Index { .. } => {
                self.indexed = self.indexed + 1;
                self.chunks_written = self.chunks_written + chunks;
            },
        }
    }

    /// Record how many indexed files the walk no longer found.
    pub fn note_removed(&mut self, removed: usize)
        ensures
            *final(self) == (IndexReport { removed, ..*old(self) }),
    {
        self.removed = removed;
    }

    /// The summary printed after a run over `root`, indexed into `index`:
    /// one line a counter, the removed and skipped lines only when there is
    /// something to report.
    pub fn summary(&self, root: &str, index: &str) -> (s: String)
        requires
            self.skipped_binary + self.skipped_unsupported + self.skipped_too_large
                + self.unreadable <= usize::MAX,
        ensures
            s@ == report_summary(root@, index@, *self),
    {
        let mut s = String::from_str("root         ");
        s.append(root);
        s.append("\nindex        ");
        s.append(index);
        s.append("\nscanned      ");
        s.append(usize_decimal(self.scanned).as_str());
        s.append("\nindexed      ");
        s.append(usize_decimal(self.indexed).as_str());
        s.append(" file(s), ");
        s.append(usize_decimal(self.chunks_written).as_str());
        s.append(" chunk(s)\nunchanged    ");
        s.append(usize_decimal(self.unchanged).as_str());
        s.append("\n");
        if self.removed > 0 {
            s.append("removed      ");
            s.append(usize_decimal(self.removed).as_str());
            s.append(" file(s) no longer present\n");
        }
        let skipped = self.skipped();
        if skipped > 0 {
            s.append("skipped      ");
            s.append(usize_decimal(skipped).as_str());
            s.append(" (");
            s.append(usize_decimal(self.skipped_binary).as_str());
            s.append(" binary, ");
            s.append(usize_decimal(self.skipped_unsupported).as_str());
            s.append(" needing an extractor, ");
            s.append(usize_decimal(self.skipped_too_large).as_str());
            s.append(" too large, ");
            s.append(usize_decimal(self.unreadable).as_str());
            s.append(" unreadable)\n");
        }
        s
    }

    /// Everything the run passed over, for whatever reason.
    pub fn skipped(&self) -> (n: usize)
        requires
            self.skipped_binary + self.skipped_unsupported + self.skipped_too_large
                + self.unreadable <= usize::MAX,
        ensures
            n == self.skipped_binary + self.skipped_unsupported + self.skipped_too_large
                + self.unreadable,
    {
        self.skipped_binary + self.skipped_unsupported + self.skipped_too_large + self.unreadable
    }
}

/// The paths among `known` whose flag in `seen` is false: indexed files the
/// walk did not find this time.
pub open spec fn spec_missing(known: Seq<Seq<char>>, seen: Seq<bool>) -> Seq<Seq<char>>
    decreases known.len(),
{
    if known.len() == 0 {
        Seq::empty()
    } else if seen[known.len() - 1] {
        spec_missing(known.drop_last(), seen)
    } else {
        spec_missing(known.drop_last(), seen).push(known.last())
    }
}

/// The indexed paths that a run must forget, in order: those the walk did
/// not see, `seen[i]` telling whether `known[i]` was walked.
pub fn missing_paths(known: &Vec<String>, seen: &Vec<bool>) -> (gone: Vec<String>)
    requires
        known.len() == seen.len(),
    ensures
        gone.deep_view() == spec_missing(known.deep_view(), seen@),
{
    let mut gone: Vec<String> = Vec::new();
    let mut i: usize = 0;
    while i < known.len()
        invariant
            known.len() == seen.len(),
            i <= known.len(),
            gone.deep_view() == spec_missing(known.deep_view().take(i as int), seen@),
        decreases known.len() - i,
    {
        let ghost k = known.deep_view().take(i as int + 1);
        assert(k.drop_last() =~= known.deep_view().take(i as int));
        assert(k.last() == known[i as int]@);
        if !seen[i] {
            gone.push(known[i].clone());
            assert(gone.deep_view() =~= spec_missing(k, seen@));
        }
        i = i + 1;
    }
    assert(known.deep_view().take(known.len() as int) =~= known.deep_view());
    gone
}

/// The embeddings a backend returned for one batch are usable only if there
/// is one per chunk sent; otherwise the error names the file and both counts.
pub fn check_embedding_count(path: &str, returned: usize, sent: usize) -> (r: Result<(), String>)
    ensures
        r is Ok <==> returned == sent,
        r matches Err(m) ==> m@ == "the backend returned "@ + decimal(returned as nat)
            + " embeddings for "@ + decimal(sent as nat) + " chunks of "@ + path@,
{
    if returned == sent {
        return Ok(());
    }
    let mut m = String::from_str("the backend returned ");
    m.append(usize_decimal(returned).as_str());
    m.append(" embeddings for ");
    m.append(usize_decimal(sent).as_str());
    m.append(" chunks of ");
    m.append(path);
    Err(m)
}

/// One walked file as a run meets it: its path, the record the index holds
/// for it, its size, whether its modification time matches the record's,
/// and its bytes (`None` when reading it fails).
pub struct FileVisit {
    pub path: Seq<char>,
    pub known: Option<(i64, Seq<char>)>,
    pub size: u64,
    pub same_mtime: bool,
    pub bytes: Option<Seq<u8>>,
}

/// The step a run settles on for a file: the one decided from metadata
/// alone, or, when that asks for the file to be read, the one decided from
/// what reading gave.
pub open spec fn settled_step(v: FileVisit) -> StepView {
    let first = spec_file_step(v.path, v.known, v.size, v.same_mtime, ContentsView::NotRead);
    if first is Read {
        spec_file_step(
            v.path,
            v.known,
            v.size,
            v.same_mtime,
            match v.bytes {
                Some(b) => ContentsView::Bytes(b),
                None => ContentsView::Unreadable,
            },
        )
    } else {
        first
    }
}

/// The report after a run over `visits`, starting from `r`; `chunks[i]` is
/// how many chunks the `i`-th file was cut into if it was indexed.
pub open spec fn run_tally(r: IndexReport, visits: Seq<FileVisit>, chunks: Seq<nat>) -> IndexReport
    decreases visits.len(),
{
    if visits.len() == 0 {
        r
    } else {
        tally(
            run_tally(r, visits.drop_last(), chunks),
            settled_step(visits.last()),
            chunks[visits.len() - 1],
        )
    }
}

/// A file whose record is what is on disk: readable, with the size and the
/// content digest the index holds for it.
pub open spec fn up_to_date(v: FileVisit) -> bool {
    match v.bytes {
        Some(b) => v.known == Some((v.size as i64, blake3_hex(b))),
        None => false,
    }
}

/// A file whose record is what is on disk is never read into the index
/// again: it is passed over on its metadata, or, when its modification time
/// moved, only touched after its digest is found unchanged.
pub proof fn law_up_to_date_file_is_not_reindexed(v: FileVisit)
    requires
        up_to_date(v),
    ensures
        settled_step(v) is Unchanged || settled_step(v) is Touch,
        v.same_mtime ==> settled_step(v) is Unchanged,
{
}

/// A file whose metadata moved and whose bytes no longer hash to the digest
/// on record is never left as it was: its new text is indexed under its new
/// digest, or, when extraction now passes it over, its old entries are
/// dropped.
pub proof fn law_changed_file_is_reindexed_or_evicted(
    v: FileVisit,
    recorded_size: i64,
    recorded_digest: Seq<char>,
    b: Seq<u8>,
)
    requires
        v.bytes == Some(b),
        v.known == Some((recorded_size, recorded_digest)),
        !(recorded_size == v.size as i64 && v.same_mtime),
        recorded_digest != blake3_hex(b),
    ensures
        settled_step(v) == (StepView::Index { text: utf8_lossy(b), digest: blake3_hex(b) })
            || settled_step(v) matches StepView::Skip { forget: true, .. },
{
}

/// Known paths all flagged as seen leave nothing to forget.
proof fn lemma_nothing_missing(known: Seq<Seq<char>>, seen: Seq<bool>)
    requires
        known.len() <= seen.len(),
        forall|i: int| 0 <= i < known.len() ==> seen[i],
    ensures
        spec_missing(known, seen).len() == 0,
    decreases known.len(),
{
    if known.len() > 0 {
        lemma_nothing_missing(known.drop_last(), seen);
    }
}

/// Running again over a tree that has not changed since it was indexed
/// changes nothing: every file counts as unchanged, none is indexed, no
/// chunk is written, no other counter moves, and, since every indexed path
/// is walked again, none is removed.
pub proof fn law_unchanged_tree_changes_nothing(
    r: IndexReport,
    visits: Seq<FileVisit>,
    chunks: Seq<nat>,
    known_paths: Seq<Seq<char>>,
    seen: Seq<bool>,
)
    requires
        forall|i: int| 0 <= i < visits.len() ==> #[trigger] up_to_date(visits[i]),
        r.unchanged + visits.len() <= usize::MAX,
        seen.len() == known_paths.len(),
        forall|i: int|
            0 <= i < known_paths.len() ==> (#[trigger] seen[i] <==> exists|j: int|
                0 <= j < visits.len() && visits[j].path == known_paths[i]),
        forall|i: int|
            0 <= i < known_paths.len() ==> exists|j: int|
                0 <= j < visits.len() && visits[j].path == #[trigger] known_paths[i],
    ensures
        run_tally(r, visits, chunks) == (IndexReport {
            unchanged: (r.unchanged + visits.len()) as usize,
            ..r
        }),
        spec_missing(known_paths, seen).len() == 0,
{
    lemma_tally_up_to_date(r, visits, chunks);
    assert forall|i: int| 0 <= i < known_paths.len() implies seen[i] by {
        assert(known_paths[i] == known_paths[i]);
    }
    lemma_nothing_missing(known_paths, seen);
}

/// The counting half of the law above.
proof fn lemma_tally_up_to_date(r: IndexReport, visits: Seq<FileVisit>, chunks: Seq<nat>)
    requires
        forall|i: int| 0 <= i < visits.len() ==> #[trigger] up_to_date(visits[i]),
        r.unchanged + visits.len() <= usize::MAX,
    ensures
        run_tally(r, visits, chunks) == (IndexReport {
            unchanged: (r.unchanged + visits.len()) as usize,
            ..r
        }),
    decreases visits.len(),
{
    if visits.len() > 0 {
        let rest = visits.drop_last();
        assert forall|i: int| 0 <= i < rest.len() implies #[trigger] up_to_date(rest[i]) by {
            assert(rest[i] == visits[i]);
        }
        lemma_tally_up_to_date(r, rest, chunks);
        assert(up_to_date(visits[visits.len() - 1]));
        law_up_to_date_file_is_not_reindexed(visits.last());
    }
}

/// The chunks of a file are sent for embedding in batches of `batch_size`,
/// one at a time when it is zero: the bounds of each batch, in order, every
/// batch but the last full.
pub fn batches(n: usize, batch_size: usize) -> (r: Vec<(usize, usize)>)
    ensures
        r.len() > 0 ==> r[0].0 == 0,
        r.len() > 0 ==> r[r.len() - 1].1 == n,
        n == 0 <==> r.len() == 0,
        forall|k: int|
            0 <= k < r.len() ==> (#[trigger] r[k]).0 < r[k].1 && r[k].1 - r[k].0 <= (if batch_size
                == 0 {
                1
            } else {
                batch_size as int
            }),
        forall|k: int| 0 <= k < r.len() - 1 ==> (#[trigger] r[k]).1 == r[k + 1].0,
        forall|k: int|
            0 <= k < r.len() - 1 ==> (#[trigger] r[k]).1 - r[k].0 == (if batch_size == 0 {
                1
            } else {
                batch_size as int
            }),
{
    let size: usize = if batch_size == 0 {
        1
    } else {
        batch_size
    };
    let mut r: Vec<(usize, usize)> = Vec::new();
    let mut start: usize = 0;
    while start < n
        invariant
            size == (if batch_size == 0 {
                1
            } else {
                batch_size
            }),
            start <= n,
            r.len() > 0 ==> r[0].0 == 0,
            r.len() > 0 ==> r[r.len() - 1].1 == start,
            r.len() == 0 ==> start == 0,
            forall|k: int|
                0 <= k < r.len() ==> (#[trigger] r[k]).0 < r[k].1 && r[k].1 - r[k].0 <= size,
            forall|k: int| 0 <= k < r.len() - 1 ==> (#[trigger] r[k]).1 == r[k + 1].0,
            forall|k: int| 0 <= k < r.len() - 1 ==> (#[trigger] r[k]).1 - r[k].0 == size,
            r.len() > 0 && start < n ==> r[r.len() - 1].1 - r[r.len() - 1].0 == size,
        decreases n - start,
    {
        let end = if n - start > size {
            start + size
        } else {
            n
        };
        r.push((start, end));
        start = end;
    }
    r
}

} // verus!
