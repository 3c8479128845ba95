//! Character and byte helpers shared by the other modules.

use vstd::prelude::*;
use vstd::utf8::*;
use vstd::string::StringExecFns;

verus! {

/// Unicode White_Space, the set `char::is_whitespace` recognises.
pub open spec fn spec_is_whitespace(c: char) -> bool {
    let u = c as u32;
    ||| 0x09 <= u <= 0x0d
    ||| u == 0x20
    ||| u == 0x85
    ||| u == 0xa0
    ||| u == 0x1680
    ||| 0x2000 <= u <= 0x200a
    ||| u == 0x2028
    ||| u == 0x2029
    ||| u == 0x202f
    ||| u == 0x205f
    ||| u == 0x3000
}

pub fn is_whitespace(c: char) -> (b: bool)
    ensures
        b == spec_is_whitespace(c),
{
    let u = c as u32;
    (0x09 <= u && u <= 0x0d) || u == 0x20 || u == 0x85 || u == 0xa0 || u == 0x1680 || (0x2000
        <= u && u <= 0x200a) || u == 0x2028 || u == 0x2029 || u == 0x202f || u == 0x205f || u
        == 0x3000
}

pub open spec fn all_whitespace(s: Seq<char>) -> bool {
    forall|i: int| 0 <= i < s.len() ==> spec_is_whitespace(#[trigger] s[i])
}

pub fn is_blank(s: &str) -> (b: bool)
    ensures
        b == all_whitespace(s@),
{
    broadcast use vstd::string::group_string_axioms;

    let mut blank = true;
    for c in it: s.chars()
        invariant
            it.seq() == s@,
            blank == (forall|j: int| 0 <= j < it.index() ==> spec_is_whitespace(#[trigger] s@[j])),
    {
        if !is_whitespace(c) {
            blank = false;
        }
    }
    blank
}

} // verus!

verus! {

/// The `len / 4` token estimate, rounded up, for a piece of `n` bytes.
pub open spec fn est_tokens(n: int) -> int {
    (n + 3) / 4
}

/// The UTF-8 encoding of a concatenation is the concatenation of the encodings.
pub proof fn lemma_encode_concat(a: Seq<char>, b: Seq<char>)
    ensures
        encode_utf8(a + b) == encode_utf8(a) + encode_utf8(b),
    decreases a.len(),
{
    if a.len() == 0 {
        assert(a + b =~= b);
        assert(encode_utf8(a) =~= Seq::<u8>::empty());
        assert(encode_utf8(a) + encode_utf8(b) =~= encode_utf8(b));
    } else {
        assert((a + b)[0] == a[0]);
        assert((a + b).drop_first() =~= a.drop_first() + b);
        lemma_encode_concat(a.drop_first(), b);
        assert(encode_utf8(a + b) =~= encode_scalar(a[0] as u32) + encode_utf8(a.drop_first() + b));
        assert(encode_utf8(a) + encode_utf8(b) =~= encode_scalar(a[0] as u32) + (encode_utf8(
            a.drop_first(),
        ) + encode_utf8(b)));
    }
}

/// From a character boundary, the next character ends at the next boundary,
/// at most four bytes further on, and one byte further on for ASCII.
pub proof fn lemma_next_boundary(b: Seq<u8>, s: int)
    requires
        valid_utf8(b),
        is_char_boundary(b, s),
        0 <= s < b.len(),
    ensures
        ({
            let l = length_of_first_scalar(b.subrange(s, b.len() as int));
            &&& 1 <= l <= 4
            &&& s + l <= b.len()
            &&& is_char_boundary(b, s + l)
            &&& (b[s] <= 0x7f ==> l == 1)
            &&& forall|j: int| s < j < s + l ==> is_continuation_byte(#[trigger] b[j])
        }),
    decreases b.len(),
{
    reveal_with_fuel(is_char_boundary, 2);
    reveal_with_fuel(valid_utf8, 2);
    if s == 0 {
        assert(b.subrange(0, b.len() as int) =~= b);
        let l = length_of_first_scalar(b);
        let t = pop_first_scalar(b);
        assert(t.len() == b.len() - l);
        assert(is_char_boundary(t, 0));
    } else {
        let l1 = length_of_first_scalar(b);
        let t = pop_first_scalar(b);
        assert(t.len() == b.len() - l1);
        lemma_next_boundary(t, s - l1);
        assert(t.subrange(s - l1, t.len() as int) =~= b.subrange(s, b.len() as int));
        let l = length_of_first_scalar(b.subrange(s, b.len() as int));
        assert(is_char_boundary(t, s - l1 + l));
        assert(t[s - l1] == b[s]);
        assert forall|j: int| s < j < s + l implies is_continuation_byte(#[trigger] b[j]) by {
            assert(b[j] == t[j - l1]);
        }
    }
}

/// A boundary inside a valid sequence stays a boundary of the tail cut at an
/// earlier boundary.
pub proof fn lemma_boundary_in_tail(b: Seq<u8>, p: int, q: int)
    requires
        valid_utf8(b),
        is_char_boundary(b, p),
        is_char_boundary(b, q),
        0 <= p <= q <= b.len(),
    ensures
        valid_utf8(b.subrange(p, b.len() as int)),
        is_char_boundary(b.subrange(p, b.len() as int), q - p),
{
    broadcast use valid_utf8_split, is_char_boundary_start_end_of_seq,
        is_char_boundary_iff_not_is_continuation_byte;

    let t = b.subrange(p, b.len() as int);
    assert(valid_utf8(t));
    if q < b.len() {
        assert(t[q - p] == b[q]);
        assert(is_char_boundary(b, q) <==> !is_continuation_byte(b[q]));
        assert(is_char_boundary(t, q - p) <==> !is_continuation_byte(t[q - p]));
    } else {
        assert(is_char_boundary(t, t.len() as int));
    }
}

/// Below the end, a boundary is exactly a byte that does not continue a character.
pub proof fn lemma_boundary_iff(b: Seq<u8>, i: int)
    requires
        valid_utf8(b),
        0 <= i <= b.len(),
    ensures
        is_char_boundary(b, i) <==> (i == b.len() || !is_continuation_byte(b[i])),
{
    broadcast use is_char_boundary_start_end_of_seq,
        is_char_boundary_iff_not_is_continuation_byte;

    if i < b.len() {
        assert(is_char_boundary(b, i) <==> !is_continuation_byte(b[i]));
    } else {
        assert(is_char_boundary(b, b.len() as int));
    }
}

} // verus!

verus! {

/// What `String::from_utf8_lossy` makes of `b`: the text it encodes, with each
/// invalid sequence replaced by U+FFFD.
pub uninterp spec fn utf8_lossy(b: Seq<u8>) -> Seq<char>;

/// `String::from_utf8_lossy`, owned. Valid UTF-8 comes back as the text it
/// encodes; otherwise the result is `utf8_lossy` of the bytes, which is not
/// spelled out here.
#[verifier::external_body]
pub(crate) fn from_utf8_lossy(bytes: &[u8]) -> (s: String)
    ensures
        s@ == utf8_lossy(bytes@),
        valid_utf8(bytes@) ==> s@ == decode_utf8(bytes@),
{
    String::from_utf8_lossy(bytes).into_owned()
}

/// A string holding exactly the characters `v`, collected by `FromIterator`.
#[verifier::external_body]
pub(crate) fn string_from_chars(v: &Vec<char>) -> (s: String)
    ensures
        s@ == v@,
{
    v.iter().collect()
}

/// Whether `char::is_alphanumeric` holds of `c` (Unicode Alphabetic or Numeric).
pub uninterp spec fn char_is_alphanumeric(c: char) -> bool;

/// `char::is_alphanumeric`; its result is named, not spelled out.
#[verifier::external_body]
pub(crate) fn is_alphanumeric(c: char) -> (b: bool)
    ensures
        b == char_is_alphanumeric(c),
{
    c.is_alphanumeric()
}

/// What `str::to_lowercase` returns for `s` (the Unicode lowercase mapping).
pub uninterp spec fn lowercase(s: Seq<char>) -> Seq<char>;

/// `str::to_lowercase`; its result is named, not spelled out.
#[verifier::external_body]
pub(crate) fn to_lowercase(s: &str) -> (r: String)
    ensures
        r@ == lowercase(s@),
{
    s.to_lowercase()
}

/// The characters of `s`, in order.
pub fn chars_of(s: &str) -> (v: Vec<char>)
    ensures
        v@ == s@,
{
    broadcast use vstd::string::group_string_axioms;

    let mut v: Vec<char> = Vec::new();
    for c in it: s.chars()
        invariant
            it.seq() == s@,
            v@ == s@.take(it.index() as int),
    {
        v.push(c);
        assert(v@ =~= s@.take(it.index() as int + 1));
    }
    assert(v@ =~= s@);
    v
}

/// The ASCII lowercase of a character; everything else is left alone.
pub open spec fn ascii_lower_char(c: char) -> char {
    if 'A' <= c <= 'Z' {
        ((c as u32) + 32) as char
    } else {
        c
    }
}

pub open spec fn ascii_lower(s: Seq<char>) -> Seq<char> {
    s.map_values(|c: char| ascii_lower_char(c))
}

pub fn to_ascii_lowercase_chars(s: &str) -> (v: Vec<char>)
    ensures
        v@ == ascii_lower(s@),
{
    let cs = chars_of(s);
    let mut v: Vec<char> = Vec::new();
    let mut i: usize = 0;
    while i < cs.len()
        invariant
            cs@ == s@,
            i <= cs.len(),
            v@ == ascii_lower(s@).take(i as int),
        decreases cs.len() - i,
    {
        let c = cs[i];
        let l = if 'A' <= c && c <= 'Z' {
            ((c as u8) + 32) as char
        } else {
            c
        };
        v.push(l);
        i = i + 1;
        assert(v@ =~= ascii_lower(s@).take(i as int));
    }
    assert(v@ =~= ascii_lower(s@));
    v
}

/// Whether `v` spells `s`.
pub fn chars_equal(v: &Vec<char>, s: &str) -> (b: bool)
    ensures
        b == (v@ == s@),
{
    let w = chars_of(s);
    if v.len() != w.len() {
        return false;
    }
    let mut i: usize = 0;
    while i < v.len()
        invariant
            w@ == s@,
            v.len() == w.len(),
            i <= v.len(),
            forall|j: int| 0 <= j < i ==> v@[j] == w@[j],
        decreases v.len() - i,
    {
        if v[i] != w[i] {
            return false;
        }
        i = i + 1;
    }
    assert(v@ =~= w@);
    true
}

} // verus!

verus! {

/// Reading `s` left to right and cutting it at every character that is not
/// alphanumeric: the words completed so far, and the word still being read.
pub open spec fn split_state(s: Seq<char>) -> (Seq<Seq<char>>, Seq<char>)
    decreases s.len(),
{
    if s.len() == 0 {
        (Seq::empty(), Seq::empty())
    } else {
        let (done, cur) = split_state(s.drop_last());
        let c = s.last();
        if char_is_alphanumeric(c) {
            (done, cur.push(c))
        } else if cur.len() == 0 {
            (done, cur)
        } else {
            (done.push(cur), Seq::empty())
        }
    }
}

/// The maximal non-empty runs of alphanumeric characters of `s`, in order:
/// `s.split(|c| !c.is_alphanumeric())` without its empty pieces.
pub open spec fn words_of(s: Seq<char>) -> Seq<Seq<char>> {
    let (done, cur) = split_state(s);
    if cur.len() == 0 {
        done
    } else {
        done.push(cur)
    }
}

/// The first occurrence of each element of `ws`, in order of appearance.
pub open spec fn distinct(ws: Seq<Seq<char>>) -> Seq<Seq<char>>
    decreases ws.len(),
{
    if ws.len() == 0 {
        Seq::empty()
    } else {
        let d = distinct(ws.drop_last());
        if d.contains(ws.last()) {
            d
        } else {
            d.push(ws.last())
        }
    }
}

/// Each element of `ws` mapped through `str::to_lowercase`.
pub open spec fn lowercase_all(ws: Seq<Seq<char>>) -> Seq<Seq<char>> {
    ws.map_values(|w: Seq<char>| lowercase(w))
}

/// The distinct lowercase words of a text.
pub open spec fn distinct_words(s: Seq<char>) -> Seq<Seq<char>> {
    distinct(lowercase_all(words_of(s)))
}

/// No element of `d` occurs twice.
pub open spec fn no_repeats(d: Seq<Seq<char>>) -> bool {
    forall|i: int, j: int| 0 <= i < j < d.len() ==> d[i] != d[j]
}

/// `distinct` keeps no repeats, keeps every element, and invents none.
pub proof fn lemma_distinct(ws: Seq<Seq<char>>)
    ensures
        no_repeats(distinct(ws)),
        forall|w: Seq<char>| ws.contains(w) <==> distinct(ws).contains(w),
        distinct(ws).len() <= ws.len(),
        distinct(ws).len() == 0 <==> ws.len() == 0,
    decreases ws.len(),
{
    if ws.len() > 0 {
        let p = ws.drop_last();
        lemma_distinct(p);
        let d = distinct(p);
        assert forall|w: Seq<char>| ws.contains(w) <==> distinct(ws).contains(w) by {
            if ws.contains(w) {
                let k = choose|k: int| 0 <= k < ws.len() && ws[k] == w;
                if k < ws.len() - 1 {
                    assert(p[k] == w);
                    assert(p.contains(w));
                } else {
                    assert(w == ws.last());
                }
                if !d.contains(ws.last()) {
                    if d.contains(w) {
                        let m = choose|m: int| 0 <= m < d.len() && d[m] == w;
                        assert(distinct(ws)[m] == w);
                    } else {
                        assert(distinct(ws)[d.len() as int] == w);
                    }
                }
            }
            if distinct(ws).contains(w) {
                let m = choose|m: int| 0 <= m < distinct(ws).len() && distinct(ws)[m] == w;
                if m < d.len() {
                    assert(d[m] == w);
                    assert(d.contains(w));
                    assert(p.contains(w));
                    let k = choose|k: int| 0 <= k < p.len() && p[k] == w;
                    assert(ws[k] == w);
                } else {
                    assert(ws[ws.len() - 1] == w);
                }
            }
        }
    }
}

/// The distinct elements of a prefix are a prefix of the distinct elements.
pub proof fn lemma_distinct_prefix(ws: Seq<Seq<char>>, k: int)
    requires
        0 <= k <= ws.len(),
    ensures
        distinct(ws.take(k)).len() <= distinct(ws).len(),
        distinct(ws.take(k)) == distinct(ws).take(distinct(ws.take(k)).len() as int),
    decreases ws.len(),
{
    if k == ws.len() {
        assert(ws.take(k) =~= ws);
    } else {
        let p = ws.drop_last();
        assert(p.take(k) =~= ws.take(k));
        lemma_distinct_prefix(p, k);
        let m = distinct(ws.take(k)).len() as int;
        assert(distinct(ws).take(m) =~= distinct(p).take(m));
    }
}

/// The words of `s`, each as a string of its own.
pub fn split_words(s: &str) -> (v: Vec<String>)
    ensures
        v.deep_view() == words_of(s@),
{
    let cs = chars_of(s);
    let mut done: Vec<String> = Vec::new();
    let mut cur: Vec<char> = Vec::new();
    let mut i: usize = 0;
    while i < cs.len()
        invariant
            cs@ == s@,
            i <= cs.len(),
            done.deep_view() == split_state(cs@.take(i as int)).0,
            cur@ == split_state(cs@.take(i as int)).1,
        decreases cs.len() - i,
    {
        let c = cs[i];
        assert(cs@.take(i as int + 1).drop_last() =~= cs@.take(i as int));
        assert(cs@.take(i as int + 1).last() == c);
        if is_alphanumeric(c) {
            cur.push(c);
        } else if cur.len() > 0 {
            let w = string_from_chars(&cur);
            done.push(w);
            assert(done.deep_view() =~= split_state(cs@.take(i as int + 1)).0);
            cur = Vec::new();
        }
        i = i + 1;
    }
    assert(cs@.take(cs.len() as int) =~= cs@);
    if cur.len() > 0 {
        let w = string_from_chars(&cur);
        done.push(w);
        assert(done.deep_view() =~= words_of(s@));
    }
    done
}

/// Whether `v` already holds a string spelling `w`.
pub fn contains_string(v: &Vec<String>, w: &String) -> (b: bool)
    ensures
        b == v.deep_view().contains(w@),
{
    let mut i: usize = 0;
    while i < v.len()
        invariant
            i <= v.len(),
            forall|j: int| 0 <= j < i ==> v.deep_view()[j] != w@,
        decreases v.len() - i,
    {
        if v[i] == *w {
            assert(v.deep_view()[i as int] == w@);
            return true;
        }
        i = i + 1;
    }
    false
}

/// The distinct lowercase words of `s`, in order of first appearance.
pub fn words(s: &str) -> (v: Vec<String>)
    ensures
        v.deep_view() == distinct_words(s@),
{
    let ws = split_words(s);
    let ghost lw = lowercase_all(words_of(s@));
    let mut v: Vec<String> = Vec::new();
    let mut j: usize = 0;
    while j < ws.len()
        invariant
            ws.deep_view() == words_of(s@),
            lw == lowercase_all(words_of(s@)),
            j <= ws.len(),
            v.deep_view() == distinct(lw.take(j as int)),
        decreases ws.len() - j,
    {
        let w = to_lowercase(ws[j].as_str());
        assert(lw.take(j as int + 1).drop_last() =~= lw.take(j as int));
        assert(lw.take(j as int + 1).last() == w@);
        if !contains_string(&v, &w) {
            v.push(w);
            assert(v.deep_view() =~= distinct(lw.take(j as int + 1)));
        }
        j = j + 1;
    }
    assert(lw.take(ws.len() as int) =~= lw);
    v
}

} // verus!

verus! {

/// `s` without its leading whitespace.
pub open spec fn trim_start_ws(s: Seq<char>) -> Seq<char>
    decreases s.len(),
{
    if s.len() > 0 && spec_is_whitespace(s[0]) {
        trim_start_ws(s.drop_first())
    } else {
        s
    }
}

/// `s` without its trailing whitespace.
pub open spec fn trim_end_ws(s: Seq<char>) -> Seq<char>
    decreases s.len(),
{
    if s.len() > 0 && spec_is_whitespace(s.last()) {
        trim_end_ws(s.drop_last())
    } else {
        s
    }
}

/// What `str::trim` leaves of `s`.
pub open spec fn trim_ws(s: Seq<char>) -> Seq<char> {
    trim_end_ws(trim_start_ws(s))
}

/// `s` without any trailing copies of `c` (`str::trim_end_matches(c)`).
pub open spec fn trim_end_char(s: Seq<char>, c: char) -> Seq<char>
    decreases s.len(),
{
    if s.len() > 0 && s.last() == c {
        trim_end_char(s.drop_last(), c)
    } else {
        s
    }
}

/// The index of the first `c` in `s`, or -1.
pub open spec fn find_char(s: Seq<char>, c: char) -> int
    decreases s.len(),
{
    if s.len() == 0 {
        -1
    } else if s[0] == c {
        0
    } else if find_char(s.drop_first(), c) < 0 {
        -1
    } else {
        find_char(s.drop_first(), c) + 1
    }
}

/// The index of the last `c` in `s`, or -1.
pub open spec fn rfind_char(s: Seq<char>, c: char) -> int
    decreases s.len(),
{
    if s.len() == 0 {
        -1
    } else if s.last() == c {
        s.len() - 1
    } else {
        rfind_char(s.drop_last(), c)
    }
}

/// The string made of `cs[lo..hi]`.
pub fn sub_string(cs: &Vec<char>, lo: usize, hi: usize) -> (r: String)
    requires
        lo <= hi <= cs.len(),
    ensures
        r@ == cs@.subrange(lo as int, hi as int),
{
    let mut v: Vec<char> = Vec::new();
    let mut i: usize = lo;
    while i < hi
        invariant
            lo <= i <= hi <= cs.len(),
            v@ == cs@.subrange(lo as int, i as int),
        decreases hi - i,
    {
        v.push(cs[i]);
        i = i + 1;
        assert(v@ =~= cs@.subrange(lo as int, i as int));
    }
    string_from_chars(&v)
}

/// Whether two strings hold the same characters.
pub fn same_text(a: &str, b: &str) -> (r: bool)
    ensures
        r == (a@ == b@),
{
    let v = chars_of(a);
    chars_equal(&v, b)
}

proof fn lemma_trim_start_skip(s: Seq<char>, lo: int)
    requires
        0 <= lo <= s.len(),
        forall|j: int| 0 <= j < lo ==> spec_is_whitespace(#[trigger] s[j]),
    ensures
        trim_start_ws(s) == trim_start_ws(s.subrange(lo, s.len() as int)),
    decreases lo,
{
    if lo == 0 {
        assert(s.subrange(0, s.len() as int) =~= s);
    } else {
        assert(spec_is_whitespace(s[0]));
        let t = s.drop_first();
        assert forall|j: int| 0 <= j < lo - 1 implies spec_is_whitespace(#[trigger] t[j]) by {
            assert(t[j] == s[j + 1]);
        }
        lemma_trim_start_skip(t, lo - 1);
        assert(t.subrange(lo - 1, t.len() as int) =~= s.subrange(lo, s.len() as int));
    }
}

proof fn lemma_trim_end_cut(s: Seq<char>, hi: int)
    requires
        0 <= hi <= s.len(),
        forall|j: int| hi <= j < s.len() ==> spec_is_whitespace(#[trigger] s[j]),
    ensures
        trim_end_ws(s) == trim_end_ws(s.subrange(0, hi)),
    decreases s.len() - hi,
{
    if hi == s.len() {
        assert(s.subrange(0, hi) =~= s);
    } else {
        assert(spec_is_whitespace(s.last()));
        let t = s.drop_last();
        lemma_trim_end_cut(t, hi);
        assert(t.subrange(0, hi) =~= s.subrange(0, hi));
    }
}

/// `str::trim`: `s` without leading and trailing whitespace.
pub fn trim(s: &str) -> (r: String)
    ensures
        r@ == trim_ws(s@),
{
    let cs = chars_of(s);
    let n = cs.len();
    let mut lo: usize = 0;
    while lo < n && is_whitespace(cs[lo])
        invariant
            cs@ == s@,
            n == cs.len(),
            lo <= n,
            forall|j: int| 0 <= j < lo ==> spec_is_whitespace(#[trigger] cs@[j]),
        decreases n - lo,
    {
        lo = lo + 1;
    }
    proof {
        lemma_trim_start_skip(s@, lo as int);
    }
    let ghost t = s@.subrange(lo as int, n as int);
    assert(trim_start_ws(t) == t);
    let mut hi: usize = n;
    while hi > lo && is_whitespace(cs[hi - 1])
        invariant
            cs@ == s@,
            n == cs.len(),
            lo <= hi <= n,
            t == s@.subrange(lo as int, n as int),
            forall|j: int| hi <= j < n ==> spec_is_whitespace(#[trigger] cs@[j]),
        decreases hi - lo,
    {
        hi = hi - 1;
    }
    proof {
        assert forall|j: int| hi - lo <= j < t.len() implies spec_is_whitespace(#[trigger] t[j]) by {
            assert(t[j] == cs@[j + lo]);
        }
        lemma_trim_end_cut(t, hi - lo);
        let u = t.subrange(0, hi - lo);
        assert(u =~= s@.subrange(lo as int, hi as int));
        if u.len() > 0 {
            assert(u.last() == cs@[hi - 1]);
        }
        assert(trim_end_ws(u) == u);
    }
    sub_string(&cs, lo, hi)
}

/// `str::trim_end_matches(c)` for a single character.
pub fn trim_end_matches(s: &str, c: char) -> (r: String)
    ensures
        r@ == trim_end_char(s@, c),
{
    let cs = chars_of(s);
    let mut hi: usize = cs.len();
    assert(s@.subrange(0, hi as int) =~= s@);
    while hi > 0 && cs[hi - 1] == c
        invariant
            cs@ == s@,
            hi <= cs.len(),
            trim_end_char(s@, c) == trim_end_char(s@.subrange(0, hi as int), c),
        decreases hi,
    {
        let ghost u = s@.subrange(0, hi as int);
        assert(u.drop_last() =~= s@.subrange(0, hi - 1));
        hi = hi - 1;
    }
    proof {
        let u = s@.subrange(0, hi as int);
        if hi > 0 {
            assert(u.last() == cs@[hi - 1]);
        }
        assert(trim_end_char(u, c) == u);
    }
    sub_string(&cs, 0, hi)
}

/// `str::strip_prefix`: the rest of `s` after `prefix`, if `s` starts with it.
pub fn strip_prefix(s: &str, prefix: &str) -> (r: Option<String>)
    ensures
        r is Some <==> prefix@.is_prefix_of(s@),
        r matches Some(t) ==> t@ == s@.skip(prefix@.len() as int),
{
    let cs = chars_of(s);
    let ps = chars_of(prefix);
    if ps.len() > cs.len() {
        return None;
    }
    let mut i: usize = 0;
    while i < ps.len()
        invariant
            cs@ == s@,
            ps@ == prefix@,
            ps.len() <= cs.len(),
            i <= ps.len(),
            forall|j: int| 0 <= j < i ==> ps@[j] == cs@[j],
        decreases ps.len() - i,
    {
        if ps[i] != cs[i] {
            return None;
        }
        i = i + 1;
    }
    assert(prefix@.is_prefix_of(s@)) by {
        assert(s@.take(prefix@.len() as int) =~= prefix@);
    }
    Some(sub_string(&cs, ps.len(), cs.len()))
}

proof fn lemma_find_char(s: Seq<char>, c: char, i: int)
    requires
        0 <= i <= s.len(),
        forall|j: int| 0 <= j < i ==> s[j] != c,
    ensures
        i < s.len() && s[i] == c ==> find_char(s, c) == i,
        i == s.len() ==> find_char(s, c) == -1,
    decreases i,
{
    if i > 0 {
        let t = s.drop_first();
        assert forall|j: int| 0 <= j < i - 1 implies t[j] != c by {
            assert(t[j] == s[j + 1]);
        }
        lemma_find_char(t, c, i - 1);
        if i < s.len() {
            assert(t[i - 1] == s[i]);
        }
    }
}

/// `str::split_once(c)`: the text before the first `c` and the text after it.
pub fn split_once(s: &str, c: char) -> (r: Option<(String, String)>)
    ensures
        r is None <==> find_char(s@, c) < 0,
        r matches Some((a, b)) ==> {
            &&& 0 <= find_char(s@, c) < s@.len()
            &&& a@ == s@.take(find_char(s@, c))
            &&& b@ == s@.skip(find_char(s@, c) + 1)
        },
{
    let cs = chars_of(s);
    let mut i: usize = 0;
    while i < cs.len()
        invariant
            cs@ == s@,
            i <= cs.len(),
            forall|j: int| 0 <= j < i ==> cs@[j] != c,
        decreases cs.len() - i,
    {
        if cs[i] == c {
            proof {
                lemma_find_char(s@, c, i as int);
            }
            let a = sub_string(&cs, 0, i);
            let b = sub_string(&cs, i + 1, cs.len());
            return Some((a, b));
        }
        i = i + 1;
    }
    proof {
        lemma_find_char(s@, c, i as int);
    }
    None
}

proof fn lemma_rfind_char(s: Seq<char>, c: char, i: int)
    requires
        -1 <= i < s.len(),
        forall|j: int| i < j < s.len() ==> s[j] != c,
    ensures
        i >= 0 && s[i] == c ==> rfind_char(s, c) == i,
        i == -1 ==> rfind_char(s, c) == -1,
    decreases s.len(),
{
    if s.len() > 0 && i < s.len() - 1 {
        lemma_rfind_char(s.drop_last(), c, i);
    }
}

/// `str::rsplit_once(c)`: the text before the last `c` and the text after it.
pub fn rsplit_once(s: &str, c: char) -> (r: Option<(String, String)>)
    ensures
        r is None <==> rfind_char(s@, c) < 0,
        r matches Some((a, b)) ==> {
            &&& 0 <= rfind_char(s@, c) < s@.len()
            &&& a@ == s@.take(rfind_char(s@, c))
            &&& b@ == s@.skip(rfind_char(s@, c) + 1)
        },
{
    let cs = chars_of(s);
    let mut i: usize = cs.len();
    while i > 0
        invariant
            cs@ == s@,
            i <= cs.len(),
            forall|j: int| i <= j < cs.len() ==> cs@[j] != c,
        decreases i,
    {
        if cs[i - 1] == c {
            proof {
                lemma_rfind_char(s@, c, i - 1);
            }
            let a = sub_string(&cs, 0, i - 1);
            let b = sub_string(&cs, i, cs.len());
            return Some((a, b));
        }
        i = i - 1;
    }
    proof {
        lemma_rfind_char(s@, c, -1);
    }
    None
}

} // verus!

verus! {

/// `s` without any leading copies of `c` (`str::trim_start_matches(c)`).
pub open spec fn trim_start_char(s: Seq<char>, c: char) -> Seq<char>
    decreases s.len(),
{
    if s.len() > 0 && s[0] == c {
        trim_start_char(s.drop_first(), c)
    } else {
        s
    }
}

proof fn lemma_trim_start_char_skip(s: Seq<char>, c: char, lo: int)
    requires
        0 <= lo <= s.len(),
        forall|j: int| 0 <= j < lo ==> #[trigger] s[j] == c,
    ensures
        trim_start_char(s, c) == trim_start_char(s.subrange(lo, s.len() as int), c),
    decreases lo,
{
    if lo == 0 {
        assert(s.subrange(0, s.len() as int) =~= s);
    } else {
        let t = s.drop_first();
        assert forall|j: int| 0 <= j < lo - 1 implies #[trigger] t[j] == c by {
            assert(t[j] == s[j + 1]);
        }
        lemma_trim_start_char_skip(t, c, lo - 1);
        assert(t.subrange(lo - 1, t.len() as int) =~= s.subrange(lo, s.len() as int));
    }
}

pub fn trim_start_matches(s: &str, c: char) -> (r: String)
    ensures
        r@ == trim_start_char(s@, c),
{
    let cs = chars_of(s);
    let mut lo: usize = 0;
    while lo < cs.len() && cs[lo] == c
        invariant
            cs@ == s@,
            lo <= cs.len(),
            forall|j: int| 0 <= j < lo ==> #[trigger] cs@[j] == c,
        decreases cs.len() - lo,
    {
        lo = lo + 1;
    }
    proof {
        lemma_trim_start_char_skip(s@, c, lo as int);
        let t = s@.subrange(lo as int, s@.len() as int);
        if t.len() > 0 {
            assert(t[0] == cs@[lo as int]);
        }
        assert(trim_start_char(t, c) == t);
    }
    sub_string(&cs, lo, cs.len())
}

} // verus!

verus! {

pub open spec fn is_digit_char(c: char) -> bool {
    '0' <= c <= '9'
}

/// The value of a string of decimal digits.
pub open spec fn digits_value(ds: Seq<char>) -> int
    decreases ds.len(),
{
    if ds.len() == 0 {
        0
    } else {
        10 * digits_value(ds.drop_last()) + (ds.last() as int - '0' as int)
    }
}

/// `s` without a leading `+`.
pub open spec fn unsigned_part(s: Seq<char>) -> Seq<char> {
    if s.len() > 0 && s[0] == '+' {
        s.drop_first()
    } else {
        s
    }
}

pub open spec fn all_digits(ds: Seq<char>) -> bool {
    forall|i: int| 0 <= i < ds.len() ==> is_digit_char(#[trigger] ds[i])
}

/// What `str::parse::<usize>` accepts: an optional `+`, then one or more
/// decimal digits whose value fits in a `usize`.
pub open spec fn parsed_usize(s: Seq<char>) -> Option<usize> {
    let ds = unsigned_part(s);
    if ds.len() > 0 && all_digits(ds) && digits_value(ds) <= usize::MAX {
        Some(digits_value(ds) as usize)
    } else {
        None
    }
}

proof fn lemma_digits_value_nonneg(ds: Seq<char>)
    requires
        forall|i: int| 0 <= i < ds.len() ==> is_digit_char(#[trigger] ds[i]),
    ensures
        digits_value(ds) >= 0,
    decreases ds.len(),
{
    if ds.len() > 0 {
        lemma_digits_value_nonneg(ds.drop_last());
        assert(is_digit_char(ds[ds.len() - 1]));
    }
}

/// `str::parse::<usize>`.
pub fn parse_usize(s: &str) -> (r: Option<usize>)
    ensures
        r == parsed_usize(s@),
{
    let cs = chars_of(s);
    let start: usize = if cs.len() > 0 && cs[0] == '+' {
        1
    } else {
        0
    };
    let ghost ds = unsigned_part(s@);
    assert(ds =~= s@.subrange(start as int, s@.len() as int));
    if start == cs.len() {
        return None;
    }
    let mut value: usize = 0;
    let mut i: usize = start;
    let mut overflow = false;
    while i < cs.len()
        invariant
            cs@ == s@,
            start <= i <= cs.len(),
            ds == s@.subrange(start as int, s@.len() as int),
            ds == unsigned_part(s@),
            forall|j: int| start <= j < i ==> is_digit_char(#[trigger] cs@[j]),
            !overflow ==> value == digits_value(s@.subrange(start as int, i as int)),
            overflow ==> digits_value(s@.subrange(start as int, i as int)) > usize::MAX,
        decreases cs.len() - i,
    {
        let c = cs[i];
        if !('0' <= c && c <= '9') {
            assert(!is_digit_char(ds[i - start]));
            assert(!all_digits(ds));
            return None;
        }
        let d = (c as u32 - '0' as u32) as usize;
        let ghost prefix = s@.subrange(start as int, i as int + 1);
        assert(prefix.drop_last() =~= s@.subrange(start as int, i as int));
        assert(prefix.last() == c);
        proof {
            assert forall|j: int| 0 <= j < prefix.drop_last().len() implies is_digit_char(
                #[trigger] prefix.drop_last()[j],
            ) by {
                assert(prefix.drop_last()[j] == cs@[start + j]);
            }
            lemma_digits_value_nonneg(prefix.drop_last());
        }
        if !overflow {
            match value.checked_mul(10) {
                Some(m) => match m.checked_add(d) {
                    Some(v) => {
                        value = v;
                    },
                    None => {
                        overflow = true;
                    },
                },
                None => {
                    overflow = true;
                },
            }
        }
        i = i + 1;
    }
    assert(s@.subrange(start as int, cs.len() as int) == ds);
    if overflow {
        None
    } else {
        Some(value)
    }
}

/// A string argument trimmed, or `None` when nothing but whitespace is left.
pub fn nonblank(s: &str) -> (r: Option<String>)
    ensures
        r is None <==> trim_ws(s@).len() == 0,
        r matches Some(t) ==> t@ == trim_ws(s@),
{
    let t = trim(s);
    if t.as_str().is_empty() {
        None
    } else {
        Some(t)
    }
}

} // verus!

verus! {

pub const FNV_OFFSET: u64 = 0xcbf2_9ce4_8422_2325;

pub const FNV_PRIME: u64 = 0x0000_0100_0000_01b3;

/// One step of 64-bit FNV-1a: xor in the byte, then multiply modulo 2^64.
pub open spec fn fnv_step(h: u64, b: u8) -> u64 {
    (((h ^ (b as u64)) as nat * FNV_PRIME as nat) % 0x1_0000_0000_0000_0000) as u64
}

/// 64-bit FNV-1a over a byte string.
pub open spec fn fnv1a(bytes: Seq<u8>) -> u64
    decreases bytes.len(),
{
    if bytes.len() == 0 {
        FNV_OFFSET
    } else {
        fnv_step(fnv1a(bytes.drop_last()), bytes.last())
    }
}

/// 64-bit FNV-1a over the UTF-8 bytes of `s`.
pub fn fnv1a64(s: &str) -> (h: u64)
    ensures
        h == fnv1a(encode_utf8(s@)),
{
    let bytes = s.as_bytes();
    let mut hash: u64 = FNV_OFFSET;
    let mut i: usize = 0;
    while i < bytes.len()
        invariant
            i <= bytes.len(),
            hash == fnv1a(bytes@.take(i as int)),
        decreases bytes.len() - i,
    {
        assert(bytes@.take(i as int + 1).drop_last() =~= bytes@.take(i as int));
        hash = (hash ^ (bytes[i] as u64)).wrapping_mul(FNV_PRIME);
        i = i + 1;
    }
    assert(bytes@.take(bytes.len() as int) =~= bytes@);
    hash
}

/// The lowercase hexadecimal digit for `d < 16`.
pub open spec fn hex_char(d: int) -> char {
    if d < 10 {
        (d + 0x30) as char
    } else {
        (d - 10 + 0x61) as char
    }
}

/// The last `n` hexadecimal digits of `h`, most significant first.
pub open spec fn hex_digits(h: nat, n: nat) -> Seq<char>
    decreases n,
{
    if n == 0 {
        Seq::empty()
    } else {
        hex_digits(h / 16, (n - 1) as nat).push(hex_char((h % 16) as int))
    }
}

/// `format!("{h:016x}")`: `h` as sixteen lowercase hexadecimal digits.
pub fn hex16(h: u64) -> (s: String)
    ensures
        s@ == hex_digits(h as nat, 16),
{
    let mut v: Vec<char> = vec!['0'; 16];
    let mut cur: u64 = h;
    let mut j: usize = 0;
    while j < 16
        invariant
            j <= 16,
            v.len() == 16,
            hex_digits(h as nat, 16) == hex_digits(cur as nat, (16 - j) as nat) + v@.subrange(
                16 - j,
                16,
            ),
        decreases 16 - j,
    {
        let d = cur % 16;
        let c = if d < 10 {
            ((d as u8) + 0x30) as char
        } else {
            ((d as u8) - 10 + 0x61) as char
        };
        let ghost before = v@;
        v.set(15 - j, c);
        assert(c == hex_char((cur % 16) as int));
        assert(v@.subrange(15 - j, 16) =~= seq![c] + before.subrange(16 - j, 16));
        assert(hex_digits(cur as nat, (16 - j) as nat) == hex_digits((cur / 16) as nat, (15
            - j) as nat).push(hex_char((cur % 16) as int)));
        cur = cur / 16;
        j = j + 1;
        assert(hex_digits(h as nat, 16) =~= hex_digits(cur as nat, (16 - j) as nat) + v@.subrange(
            16 - j,
            16,
        ));
    }
    assert(v@.subrange(0, 16) =~= v@);
    string_from_chars(&v)
}

/// The strings `ss` joined by `sep`.
pub open spec fn joined(ss: Seq<Seq<char>>, sep: Seq<char>) -> Seq<char>
    decreases ss.len(),
{
    if ss.len() == 0 {
        Seq::empty()
    } else if ss.len() == 1 {
        ss[0]
    } else {
        joined(ss.drop_last(), sep) + sep + ss.last()
    }
}

/// `[..].join(sep)`.
pub fn join(ss: &Vec<String>, sep: &str) -> (r: String)
    ensures
        r@ == joined(ss.deep_view(), sep@),
{
    let mut out = String::new();
    let mut j: usize = 0;
    while j < ss.len()
        invariant
            j <= ss.len(),
            out@ == joined(ss.deep_view().take(j as int), sep@),
        decreases ss.len() - j,
    {
        let ghost ts = ss.deep_view().take(j as int + 1);
        assert(ts.drop_last() =~= ss.deep_view().take(j as int));
        assert(ss.deep_view()[j as int] == ss[j as int]@);
        if j > 0 {
            out.append(sep);
        }
        out.append(ss[j].as_str());
        j = j + 1;
        assert(out@ =~= joined(ss.deep_view().take(j as int), sep@));
    }
    assert(ss.deep_view().take(ss.len() as int) =~= ss.deep_view());
    out
}

/// A copy of each string of `v`.
pub fn clone_strings(v: &Vec<String>) -> (r: Vec<String>)
    ensures
        r.deep_view() == v.deep_view(),
{
    let mut out: Vec<String> = Vec::new();
    let mut j: usize = 0;
    while j < v.len()
        invariant
            j <= v.len(),
            out.deep_view() == v.deep_view().take(j as int),
        decreases v.len() - j,
    {
        let c = String::from_str(v[j].as_str());
        assert(v.deep_view()[j as int] == v[j as int]@);
        let ghost before = out.deep_view();
        out.push(c);
        assert(out.deep_view() =~= before.push(v.deep_view()[j as int]));
        assert(v.deep_view().take(j as int + 1) =~= v.deep_view().take(j as int).push(
            v.deep_view()[j as int],
        ));
        j = j + 1;
        assert(out.deep_view() =~= v.deep_view().take(j as int));
    }
    assert(v.deep_view().take(v.len() as int) =~= v.deep_view());
    out
}

} // verus!

verus! {

/// The decimal digits of `n`, most significant first, with no leading zero.
pub open spec fn decimal(n: nat) -> Seq<char>
    decreases n,
{
    if n < 10 {
        seq![hex_char(n as int)]
    } else {
        decimal(n / 10).push(hex_char((n % 10) as int))
    }
}

/// `n.to_string()` for a `usize`.
pub fn usize_decimal(n: usize) -> (s: String)
    ensures
        s@ == decimal(n as nat),
{
    let mut rev: Vec<char> = Vec::new();
    let mut cur: usize = n;
    assert(decimal(n as nat) =~= decimal(cur as nat) + rev@.reverse());
    loop
        invariant_except_break
            decimal(n as nat) == decimal(cur as nat) + rev@.reverse(),
        ensures
            decimal(n as nat) == rev@.reverse(),
        decreases cur,
    {
        let d = cur % 10;
        let c = ((d as u8) + 0x30) as char;
        assert(c == hex_char(d as int));
        let ghost before = rev@;
        rev.push(c);
        assert(rev@.reverse() =~= seq![c] + before.reverse());
        if cur < 10 {
            assert(decimal(cur as nat) == seq![c]);
            assert(decimal(n as nat) =~= rev@.reverse());
            break;
        }
        assert(decimal(cur as nat) == decimal((cur / 10) as nat).push(c));
        cur = cur / 10;
        assert(decimal(n as nat) =~= decimal(cur as nat) + rev@.reverse());
    }
    let mut out: Vec<char> = Vec::new();
    let mut i: usize = rev.len();
    while i > 0
        invariant
            i <= rev.len(),
            out@ == rev@.reverse().take((rev.len() - i) as int),
        decreases i,
    {
        out.push(rev[i - 1]);
        i = i - 1;
        assert(out@ =~= rev@.reverse().take((rev.len() - i) as int));
    }
    assert(out@ =~= rev@.reverse());
    string_from_chars(&out)
}

} // verus!

verus! {

/// `str::trim_end`: `s` without trailing whitespace.
pub fn trim_end_whitespace(s: &str) -> (r: String)
    ensures
        r@ == trim_end_ws(s@),
{
    let cs = chars_of(s);
    let mut hi: usize = cs.len();
    assert(s@.subrange(0, hi as int) =~= s@);
    while hi > 0 && is_whitespace(cs[hi - 1])
        invariant
            cs@ == s@,
            hi <= cs.len(),
            trim_end_ws(s@) == trim_end_ws(s@.subrange(0, hi as int)),
        decreases hi,
    {
        let ghost u = s@.subrange(0, hi as int);
        assert(u.drop_last() =~= s@.subrange(0, hi - 1));
        hi = hi - 1;
    }
    proof {
        let u = s@.subrange(0, hi as int);
        if hi > 0 {
            assert(u.last() == cs@[hi - 1]);
        }
        assert(trim_end_ws(u) == u);
    }
    sub_string(&cs, 0, hi)
}

} // verus!

verus! {

proof fn lemma_tagged_bytes_are_high(x: u8)
    ensures
        (0x80u8 | x) >= 0x80,
        (0xC0u8 | x) >= 0x80,
        (0xE0u8 | x) >= 0x80,
        (0xF0u8 | x) >= 0x80,
{
    assert((0x80u8 | x) >= 0x80) by (bit_vector);
    assert((0xC0u8 | x) >= 0x80) by (bit_vector);
    assert((0xE0u8 | x) >= 0x80) by (bit_vector);
    assert((0xF0u8 | x) >= 0x80) by (bit_vector);
}

/// An ASCII character is encoded as its own byte; every byte of any other
/// character has the high bit set.
pub proof fn lemma_scalar_bytes(v: u32)
    ensures
        v <= 0x7f ==> encode_scalar(v) == seq![v as u8],
        v > 0x7f ==> forall|j: int| 0 <= j < encode_scalar(v).len() ==> #[trigger] encode_scalar(v)[j] >= 0x80,
{
    if v <= 0x7f {
        assert((v & 0x7F) as u8 == v as u8) by (bit_vector)
            requires
                v <= 0x7f,
        ;
    } else {
        lemma_tagged_bytes_are_high(((v >> 6) & 0x1F) as u8);
        lemma_tagged_bytes_are_high(((v >> 12) & 0x0F) as u8);
        lemma_tagged_bytes_are_high(((v >> 18) & 0x7) as u8);
        lemma_tagged_bytes_are_high((v & 0x3F) as u8);
        lemma_tagged_bytes_are_high(((v >> 6) & 0x3F) as u8);
        lemma_tagged_bytes_are_high(((v >> 12) & 0x3F) as u8);
    }
}

/// Text without the characters `a` and `b` (both ASCII) has neither byte in
/// its UTF-8 encoding.
pub proof fn lemma_ascii_absent_from_encoding(s: Seq<char>, a: char, b: char)
    requires
        (a as u32) <= 0x7f,
        (b as u32) <= 0x7f,
        forall|i: int| 0 <= i < s.len() ==> #[trigger] s[i] != a && s[i] != b,
    ensures
        forall|j: int|
            0 <= j < encode_utf8(s).len() ==> #[trigger] encode_utf8(s)[j] != (a as u32) as u8
                && encode_utf8(s)[j] != (b as u32) as u8,
    decreases s.len(),
{
    if s.len() > 0 {
        let t = s.drop_first();
        assert forall|i: int| 0 <= i < t.len() implies #[trigger] t[i] != a && t[i] != b by {
            assert(t[i] == s[i + 1]);
        }
        lemma_ascii_absent_from_encoding(t, a, b);
        let v = s[0] as u32;
        lemma_scalar_bytes(v);
        let head = encode_scalar(v);
        assert(encode_utf8(s) == head + encode_utf8(t));
        assert(s[0] != a && s[0] != b);
        assert forall|j: int| 0 <= j < encode_utf8(s).len() implies #[trigger] encode_utf8(s)[j]
            != (a as u32) as u8 && encode_utf8(s)[j] != (b as u32) as u8 by {
            if j < head.len() {
                assert(encode_utf8(s)[j] == head[j]);
                if v <= 0x7f {
                    assert(head[j] == v as u8);
                    char_u32_cast(s[0], v);
                    char_u32_cast(a, a as u32);
                    char_u32_cast(b, b as u32);
                    assert(v != (a as u32) && v != (b as u32));
                }
            } else {
                assert(encode_utf8(s)[j] == encode_utf8(t)[j - head.len()]);
            }
        }
    }
}

} // verus!
