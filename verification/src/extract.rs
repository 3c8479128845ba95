//! Turning a file's bytes into indexable text: plain text, code and Markdown
//! are read as they are; formats that need a real parser are recognised by
//! their extension and reported as skipped rather than silently mangled.

use vstd::prelude::*;
use vstd::utf8::*;

use crate::search::{file_name_of, path_file_name};
use crate::text::{
    ascii_lower, chars_equal, chars_of, from_utf8_lossy, rfind_char, rsplit_once,
    to_ascii_lowercase_chars, utf8_lossy,
};

verus! {

/// How many leading bytes are inspected when deciding whether a file is binary.
pub const SNIFF_BYTES: usize = 1024;

#[derive(Debug, Clone, PartialEq, Eq)]
pub enum Extraction {
    Text(String),
    Skipped(SkipReason),
}

#[derive(Debug, Clone, Copy, PartialEq, Eq)]
pub enum SkipReason {
    /// A NUL byte near the start; almost certainly not text.
    Binary,
    /// A format npurag knows about but cannot read.
    UnsupportedFormat,
}

/// Whether locally installed converters may be run for formats that have no
/// extractor of their own.
#[derive(Debug, Clone, Copy, PartialEq, Eq)]
pub struct ExtractOptions {
    pub external_tools: bool,
}

impl Default for ExtractOptions {
    fn default() -> (o: Self)
        ensures
            o.external_tools,
    {
        ExtractOptions { external_tools: true }
    }
}

/// The extension of a file name, by the rule `Path::extension` documents:
/// the part after the last `.`, or nothing when the name has no `.` or its
/// only `.` is the one it starts with.
pub open spec fn name_extension(name: Seq<char>) -> Option<Seq<char>> {
    if rfind_char(name, '.') <= 0 {
        None
    } else {
        Some(name.skip(rfind_char(name, '.') + 1))
    }
}

/// What `Path::extension` gives for a path: the extension of its file name.
pub open spec fn path_extension(path: Seq<char>) -> Option<Seq<char>> {
    match path_file_name(path) {
        Some(name) => name_extension(name),
        None => None,
    }
}

/// `Path::extension`, as text.
fn extension_of(path: &str) -> (r: Option<String>)
    ensures
        match r {
            Some(e) => path_extension(path@) == Some(e@),
            None => path_extension(path@) is None,
        },
{
    match file_name_of(path) {
        None => None,
        Some(name) => match rsplit_once(name.as_str(), '.') {
            None => None,
            Some((before, after)) => {
                if chars_of(before.as_str()).len() == 0 {
                    None
                } else {
                    Some(after)
                }
            },
        },
    }
}

/// Where `rfind_char` lands: on the last occurrence, with none after it.
proof fn lemma_rfind_last(s: Seq<char>, c: char)
    ensures
        -1 <= rfind_char(s, c) < s.len(),
        rfind_char(s, c) >= 0 ==> s[rfind_char(s, c)] == c,
        forall|j: int| rfind_char(s, c) < j < s.len() ==> s[j] != c,
    decreases s.len(),
{
    if s.len() > 0 && s.last() != c {
        lemma_rfind_last(s.drop_last(), c);
        assert forall|j: int| rfind_char(s, c) < j < s.len() implies s[j] != c by {
            if j < s.len() - 1 {
                assert(s[j] == s.drop_last()[j]);
            }
        }
    }
}

/// A path's extension is what follows the last `.` of its file name: it
/// holds no `.` itself, and that `.` has something before it. A file name
/// with no `.` after its first character has no extension.
pub proof fn law_extension_follows_the_last_dot(path: Seq<char>)
    ensures
        match path_extension(path) {
            Some(e) => {
                &&& forall|i: int| 0 <= i < e.len() ==> e[i] != '.'
                &&& path_file_name(path) matches Some(n) && n.len() >= e.len() + 2 && n[n.len()
                    - e.len() - 1] == '.' && n.skip(n.len() - e.len()) == e
            },
            None => path_file_name(path) matches Some(n) ==> forall|i: int|
                1 <= i < n.len() ==> n[i] != '.',
        },
{
    if let Some(n) = path_file_name(path) {
        lemma_rfind_last(n, '.');
        let r = rfind_char(n, '.');
        if r > 0 {
            let e = n.skip(r + 1);
            assert forall|i: int| 0 <= i < e.len() implies e[i] != '.' by {
                assert(e[i] == n[r + 1 + i]);
            }
            assert(n.skip(n.len() - e.len()) =~= e);
        }
    }
}

/// Conversely, a file name made of something, a `.`, and a suffix with no
/// `.` in it has that suffix as its extension: `invoice.2026.pdf` has `pdf`.
pub proof fn law_last_suffix_is_the_extension(path: Seq<char>, stem: Seq<char>, ext: Seq<char>)
    requires
        path_file_name(path) == Some(stem + seq!['.'] + ext),
        stem.len() > 0,
        forall|i: int| 0 <= i < ext.len() ==> ext[i] != '.',
    ensures
        path_extension(path) == Some(ext),
{
    let n = stem + seq!['.'] + ext;
    lemma_rfind_last(n, '.');
    let r = rfind_char(n, '.');
    assert(n[stem.len() as int] == '.');
    if r > stem.len() {
        assert(n[r] == ext[r - stem.len() - 1]);
    }
    assert(r == stem.len());
    assert(n.skip(r + 1) =~= ext);
}

/// Extensions that carry text but need a dedicated parser: office and
/// e-book formats, PDF, and HTML, whose markup must not reach the index.
pub open spec fn is_document_extension(e: Seq<char>) -> bool {
    ||| e == "pdf"@
    ||| e == "docx"@
    ||| e == "doc"@
    ||| e == "pptx"@
    ||| e == "ppt"@
    ||| e == "xlsx"@
    ||| e == "xls"@
    ||| e == "odt"@
    ||| e == "odp"@
    ||| e == "ods"@
    ||| e == "rtf"@
    ||| e == "epub"@
    ||| e == "html"@
    ||| e == "htm"@
}

pub open spec fn spec_needs_extractor(path: Seq<char>) -> bool {
    match path_extension(path) {
        Some(e) => is_document_extension(ascii_lower(e)),
        None => false,
    }
}

/// Whether a path names a format that needs a dedicated parser, judged by its
/// extension in any ASCII case.
pub fn needs_extractor(path: &str) -> (b: bool)
    ensures
        b == spec_needs_extractor(path@),
{
    match extension_of(path) {
        None => false,
        Some(e) => {
            let lowered = to_ascii_lowercase_chars(e.as_str());
            chars_equal(&lowered, "pdf") || chars_equal(&lowered, "docx") || chars_equal(
                &lowered,
                "doc",
            ) || chars_equal(&lowered, "pptx") || chars_equal(&lowered, "ppt") || chars_equal(
                &lowered,
                "xlsx",
            ) || chars_equal(&lowered, "xls") || chars_equal(&lowered, "odt") || chars_equal(
                &lowered,
                "odp",
            ) || chars_equal(&lowered, "ods") || chars_equal(&lowered, "rtf") || chars_equal(
                &lowered,
                "epub",
            ) || chars_equal(&lowered, "html") || chars_equal(&lowered, "htm")
        },
    }
}

/// A NUL byte among the first `SNIFF_BYTES` bytes.
pub open spec fn spec_looks_binary(bytes: Seq<u8>) -> bool {
    exists|i: int| 0 <= i < bytes.len() && i < SNIFF_BYTES && bytes[i] == 0
}

pub fn looks_binary(bytes: &[u8]) -> (b: bool)
    ensures
        b == spec_looks_binary(bytes@),
{
    let mut i: usize = 0;
    while i < bytes.len() && i < SNIFF_BYTES
        invariant
            i <= bytes.len(),
            i <= SNIFF_BYTES,
            forall|j: int| 0 <= j < i ==> bytes@[j] != 0,
        decreases bytes.len() - i,
    {
        if bytes[i] == 0 {
            return true;
        }
        i = i + 1;
    }
    false
}

/// What a file with this path and content yields: a skip for formats that
/// need a parser, then a skip for binary content, and otherwise its text,
/// invalid UTF-8 sequences replaced.
pub fn extract(path: &str, bytes: &[u8]) -> (r: Extraction)
    ensures
        spec_needs_extractor(path@) ==> r == Extraction::Skipped(SkipReason::UnsupportedFormat),
        !spec_needs_extractor(path@) && spec_looks_binary(bytes@) ==> r == Extraction::Skipped(
            SkipReason::Binary,
        ),
        !spec_needs_extractor(path@) && !spec_looks_binary(bytes@) ==> (r matches Extraction::Text(
            t,
        ) && t@ == utf8_lossy(bytes@) && (valid_utf8(bytes@) ==> t@ == decode_utf8(bytes@))),
{
    if needs_extractor(path) {
        return Extraction::Skipped(SkipReason::UnsupportedFormat);
    }
    if looks_binary(bytes) {
        return Extraction::Skipped(SkipReason::Binary);
    }
    Extraction::Text(from_utf8_lossy(bytes))
}

} // verus!
