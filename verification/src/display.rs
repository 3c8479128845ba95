//! How the command line shows results: paths relative to the indexed root,
//! one-line previews of chunks, and which retrievers found a hit.

use vstd::prelude::*;
use vstd::string::StringExecFns;

use crate::text::{
    chars_of, join, joined, spec_is_whitespace, strip_prefix, sub_string, trim_end_ws,
    trim_start_char, trim_start_matches, is_whitespace, string_from_chars,
};

verus! {

/// Reading `s` and cutting it at whitespace: the words completed so far,
/// and the word still being read.
pub open spec fn blank_state(s: Seq<char>) -> (Seq<Seq<char>>, Seq<char>)
    decreases s.len(),
{
    if s.len() == 0 {
        (Seq::empty(), Seq::empty())
    } else {
        let (done, cur) = blank_state(s.drop_last());
        if !spec_is_whitespace(s.last()) {
            (done, cur.push(s.last()))
        } else if cur.len() == 0 {
            (done, cur)
        } else {
            (done.push(cur), Seq::empty())
        }
    }
}

/// `str::split_whitespace`: the non-empty runs of non-whitespace characters.
pub open spec fn blank_separated(s: Seq<char>) -> Seq<Seq<char>> {
    let (done, cur) = blank_state(s);
    if cur.len() == 0 {
        done
    } else {
        done.push(cur)
    }
}

pub fn split_whitespace(s: &str) -> (v: Vec<String>)
    ensures
        v.deep_view() == blank_separated(s@),
{
    let cs = chars_of(s);
    let mut done: Vec<String> = Vec::new();
    let mut cur: Vec<char> = Vec::new();
    let mut i: usize = 0;
    while i < cs.len()
        invariant
            cs@ == s@,
            i <= cs.len(),
            done.deep_view() == blank_state(cs@.take(i as int)).0,
            cur@ == blank_state(cs@.take(i as int)).1,
        decreases cs.len() - i,
    {
        let c = cs[i];
        assert(cs@.take(i as int + 1).drop_last() =~= cs@.take(i as int));
        assert(cs@.take(i as int + 1).last() == c);
        if !is_whitespace(c) {
            cur.push(c);
        } else if cur.len() > 0 {
            let w = string_from_chars(&cur);
            done.push(w);
            assert(done.deep_view() =~= blank_state(cs@.take(i as int + 1)).0);
            cur = Vec::new();
        }
        i = i + 1;
    }
    assert(cs@.take(cs.len() as int) =~= cs@);
    if cur.len() > 0 {
        let w = string_from_chars(&cur);
        done.push(w);
        assert(done.deep_view() =~= blank_separated(s@));
    }
    done
}

/// A stored path shortened against the root the index was built from; the
/// path itself when it is not under that root.
pub open spec fn shown_path(path: Seq<char>, root: Option<Seq<char>>) -> Seq<char> {
    match root {
        Some(r) => if r.is_prefix_of(path) {
            trim_start_char(path.skip(r.len() as int), '/')
        } else {
            path
        },
        None => path,
    }
}

pub fn display_path(path: &str, root: Option<&str>) -> (r: String)
    ensures
        r@ == shown_path(
            path@,
            match root {
                Some(x) => Some(x@),
                None => None,
            },
        ),
{
    match root {
        None => String::from_str(path),
        Some(root) => match strip_prefix(path, root) {
            Some(rest) => trim_start_matches(rest.as_str(), '/'),
            None => String::from_str(path),
        },
    }
}

/// A one-line preview: whitespace collapsed to single spaces, cut to `width`
/// characters with an ellipsis when it is longer.
pub open spec fn preview(text: Seq<char>, width: nat) -> Seq<char> {
    let flat = joined(blank_separated(text), seq![' ']);
    if flat.len() <= width {
        flat
    } else {
        trim_end_ws(flat.take(width as int)) + seq!['…']
    }
}

pub fn snippet(text: &str, width: usize) -> (r: String)
    ensures
        r@ == preview(text@, width as nat),
{
    let words = split_whitespace(text);
    let flat = join(&words, " ");
    proof {
        reveal_strlit(" ");
        assert(" "@ =~= seq![' ']);
    }
    let cs = chars_of(flat.as_str());
    if cs.len() <= width {
        return flat;
    }
    let cut = sub_string(&cs, 0, width);
    let mut out = crate::text::trim_end_whitespace(cut.as_str());
    let mut ellipsis: Vec<char> = Vec::new();
    ellipsis.push('…');
    let e = string_from_chars(&ellipsis);
    out.append(e.as_str());
    out
}

/// Which stages put a hit where it is: `v` for the vector search, `l` for
/// BM25, `r` when the reranker had the last word, joined by `+`.
pub open spec fn provenance_tag(vector: bool, lexical: bool, reranked: bool) -> Seq<char> {
    joined(
        (if vector {
            seq!["v"@]
        } else {
            Seq::empty()
        }) + (if lexical {
            seq!["l"@]
        } else {
            Seq::empty()
        }) + (if reranked {
            seq!["r"@]
        } else {
            Seq::empty()
        }),
        "+"@,
    )
}

pub fn provenance(vector: bool, lexical: bool, reranked: bool) -> (r: String)
    ensures
        r@ == provenance_tag(vector, lexical, reranked),
{
    let mut parts: Vec<String> = Vec::new();
    if vector {
        parts.push(String::from_str("v"));
    }
    if lexical {
        parts.push(String::from_str("l"));
    }
    if reranked {
        parts.push(String::from_str("r"));
    }
    let ghost expected = (if vector {
        seq!["v"@]
    } else {
        Seq::empty()
    }) + (if lexical {
        seq!["l"@]
    } else {
        Seq::empty()
    }) + (if reranked {
        seq!["r"@]
    } else {
        Seq::empty()
    });
    assert(parts.deep_view() =~= expected);
    join(&parts, "+")
}

} // verus!
