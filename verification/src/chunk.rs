//! Splitting a document into overlapping pieces small enough to embed.
//!
//! Chunks are grown line by line, so paragraph and code-block boundaries survive.
//! Token counts are the `len / 4` heuristic: good enough to stay under a model's
//! input limit, and cheap.
//!
//! The model below works on the UTF-8 bytes of the text. A document is first cut
//! into *units* (its lines, with any line too long to ever fit a chunk broken at
//! character boundaries); the units are then gathered into chunks.

use vstd::prelude::*;
use vstd::utf8::*;
use vstd::string::StringExecFns;
use vstd::string::StringSliceAdditionalSpecFns;

use crate::text::{
    all_whitespace, est_tokens, lemma_boundary_iff,
    is_blank, lemma_boundary_in_tail, lemma_encode_concat, lemma_next_boundary,
};

verus! {

/// Sizes that govern how a document is chunked.
#[derive(Debug, Clone, Copy)]
pub struct ChunkOptions {
    /// Size a chunk grows towards before being closed.
    pub target_tokens: usize,
    /// How much of the previous chunk is repeated at the start of the next one,
    /// so a passage split across a boundary is still retrievable.
    pub overlap_tokens: usize,
    /// Hard ceiling; embeddinggemma-300m on FastFlowLM accepts 2048 tokens.
    pub max_tokens: usize,
}

impl Default for ChunkOptions {
    fn default() -> (o: Self)
        ensures
            o.target_tokens == 400,
            o.overlap_tokens == 60,
            o.max_tokens == 2048,
    {
        ChunkOptions { target_tokens: 400, overlap_tokens: 60, max_tokens: 2048 }
    }
}

/// One piece of a document, numbered from zero in document order.
#[derive(Debug, Clone, PartialEq, Eq)]
pub struct Chunk {
    pub ord: usize,
    pub text: String,
    pub n_tokens: usize,
}

/// The longest unit, in bytes, that `max_tokens` allows: four bytes a token,
/// saturating, and never below one byte.
pub open spec fn max_unit_bytes(max_tokens: usize) -> int {
    let m = if 4 * max_tokens > usize::MAX { usize::MAX as int } else { 4 * max_tokens };
    if m < 1 {
        1
    } else {
        m
    }
}

/// The end of the line that holds byte `s`: just past its newline, or the end
/// of the text.
pub open spec fn line_end(b: Seq<u8>, s: int) -> int
    decreases b.len() - s,
{
    if s >= b.len() {
        b.len() as int
    } else if b[s] == 10 {
        s + 1
    } else {
        line_end(b, s + 1)
    }
}

/// Step back from `e` until it no longer points into the middle of a character.
pub open spec fn back_off(b: Seq<u8>, le: int, e: int) -> int
    decreases e,
{
    if e <= 0 || e >= le || !is_continuation_byte(b[e]) {
        e
    } else {
        back_off(b, le, e - 1)
    }
}

/// Where the character starting at byte `s` ends.
pub open spec fn char_end(b: Seq<u8>, s: int) -> int {
    s + length_of_first_scalar(b.subrange(s, b.len() as int))
}

/// Where the unit starting at byte `s` ends: the end of its line when the rest
/// of the line fits in `mb` bytes, otherwise `mb` bytes on, pulled back to a
/// character boundary. When not even the first character fits in `mb` bytes,
/// that character is a unit of its own. (The last alternative, the end of the
/// text, is only taken where no progress could be made, which valid text never
/// allows.)
pub open spec fn unit_end(b: Seq<u8>, mb: int, s: int) -> int {
    let le = line_end(b, s);
    let e = back_off(b, le, if le - s > mb { s + mb } else { le });
    if s < e <= b.len() {
        e
    } else if s < char_end(b, s) <= b.len() {
        char_end(b, s)
    } else {
        b.len() as int
    }
}

/// The ends of the units from byte `s` on, in order.
pub open spec fn unit_ends(b: Seq<u8>, mb: int, s: int) -> Seq<int>
    decreases b.len() - s,
{
    if s < 0 || s >= b.len() {
        seq![]
    } else {
        seq![unit_end(b, mb, s)] + unit_ends(b, mb, unit_end(b, mb, s))
    }
}

/// Where unit `k` starts: the end of the one before it.
pub open spec fn unit_start(ends: Seq<int>, k: int) -> int {
    if k <= 0 {
        0
    } else {
        ends[k - 1]
    }
}

/// The token estimate of each unit.
pub open spec fn unit_tokens(ends: Seq<int>) -> Seq<int> {
    Seq::new(ends.len(), |k: int| est_tokens(ends[k] - unit_start(ends, k)))
}

/// The combined token estimate of units `a..b`.
pub open spec fn sum_tokens(t: Seq<int>, a: int, b: int) -> int
    decreases b - a,
{
    if a >= b {
        0
    } else {
        sum_tokens(t, a, b - 1) + t[b - 1]
    }
}

/// Walking back from `j`, extend the tail of units `a..` while its tokens stay
/// within `budget`; `acc` is what the tail `j..` already holds.
pub open spec fn tail_start(t: Seq<int>, a: int, j: int, budget: int, acc: int) -> int
    decreases j - a,
{
    if j > a && acc + t[j - 1] <= budget {
        tail_start(t, a, j - 1, budget, acc + t[j - 1])
    } else {
        j
    }
}

/// The first unit carried over from the chunk `a..i` into the next one. The
/// whole chunk is never carried: the next one would start where this one did.
pub open spec fn carry_start(t: Seq<int>, a: int, i: int, budget: int) -> int {
    if budget == 0 {
        i
    } else {
        let c = tail_start(t, a, i, budget, 0);
        if c == a {
            a + 1
        } else {
            c
        }
    }
}

/// Gather units `i..` into chunks, given the chunk `cur..i` being grown (of
/// `cur_tok` tokens) and the unit ranges `closed` already emitted.
pub open spec fn chunk_run(
    t: Seq<int>,
    o: ChunkOptions,
    i: int,
    cur: int,
    cur_tok: int,
    closed: Seq<(int, int)>,
) -> Seq<(int, int)>
    decreases t.len() - i,
{
    if i >= t.len() {
        closed.push((cur, t.len() as int))
    } else if cur < i && cur_tok + t[i] > o.target_tokens {
        let c = carry_start(t, cur, i, o.overlap_tokens as int);
        let ct = sum_tokens(t, c, i);
        if ct + t[i] > o.max_tokens {
            chunk_run(t, o, i + 1, i, t[i], closed.push((cur, i)))
        } else {
            chunk_run(t, o, i + 1, c, ct + t[i], closed.push((cur, i)))
        }
    } else {
        chunk_run(t, o, i + 1, cur, cur_tok + t[i], closed)
    }
}

/// The byte spans of every piece chunking cuts the text `b` into, before
/// empty and whitespace-only pieces are dropped.
pub open spec fn raw_spans(b: Seq<u8>, o: ChunkOptions) -> Seq<(int, int)> {
    let ends = unit_ends(b, max_unit_bytes(o.max_tokens), 0);
    let ranges = chunk_run(unit_tokens(ends), o, 0, 0, 0, seq![]);
    Seq::new(
        ranges.len(),
        |k: int| (unit_start(ends, ranges[k].0), unit_start(ends, ranges[k].1)),
    )
}

/// Whether the span `r` of `b` becomes a chunk: it must hold something other
/// than whitespace.
pub open spec fn span_kept(b: Seq<u8>, r: (int, int)) -> bool {
    r.0 < r.1 && !all_whitespace(decode_utf8(b.subrange(r.0, r.1)))
}

/// The spans that survive as chunks, in order.
pub open spec fn kept_spans(b: Seq<u8>, spans: Seq<(int, int)>) -> Seq<(int, int)>
    decreases spans.len(),
{
    if spans.len() == 0 {
        seq![]
    } else {
        let rest = kept_spans(b, spans.drop_last());
        if span_kept(b, spans.last()) {
            rest.push(spans.last())
        } else {
            rest
        }
    }
}

/// The byte spans of the chunks `chunk_text` returns for a text whose UTF-8
/// encoding is `b`.
pub open spec fn chunk_spans(b: Seq<u8>, o: ChunkOptions) -> Seq<(int, int)> {
    kept_spans(b, raw_spans(b, o))
}

} // verus!

verus! {

proof fn lemma_line_end(b: Seq<u8>, s: int)
    requires
        0 <= s <= b.len(),
    ensures
        s <= line_end(b, s) <= b.len(),
        s < b.len() ==> s < line_end(b, s),
        forall|j: int| s <= j < line_end(b, s) - 1 ==> #[trigger] b[j] != 10,
        s < line_end(b, s) < b.len() ==> b[line_end(b, s) - 1] == 10,
        s < line_end(b, s) && line_end(b, s) == b.len() && b[line_end(b, s) - 1] != 10 ==> forall|
            j: int,
        | s <= j < b.len() ==> #[trigger] b[j] != 10,
    decreases b.len() - s,
{
    if s < b.len() && b[s] != 10 {
        lemma_line_end(b, s + 1);
    }
}

/// Every byte of a line reports the same line end.
proof fn lemma_line_end_within(b: Seq<u8>, s: int, j: int)
    requires
        0 <= s <= j < line_end(b, s),
    ensures
        line_end(b, j) == line_end(b, s),
    decreases j - s,
{
    lemma_line_end(b, s);
    if s < j {
        assert(b[s] != 10);
        lemma_line_end_within(b, s + 1, j);
    }
}

proof fn lemma_back_off(b: Seq<u8>, le: int, e: int, x: int)
    requires
        0 <= e,
        0 < x <= e,
        le <= b.len(),
        x >= le || !is_continuation_byte(b[x]),
    ensures
        x <= back_off(b, le, e) <= e,
    decreases e,
{
    if !(e <= 0 || e >= le || !is_continuation_byte(b[e])) {
        if x < e {
            lemma_back_off(b, le, e - 1, x);
        }
    }
}

proof fn lemma_back_off_stop(b: Seq<u8>, le: int, e: int)
    requires
        0 <= e <= le <= b.len(),
    ensures
        ({
            let r = back_off(b, le, e);
            &&& 0 <= r <= e
            &&& (r <= 0 || r >= le || !is_continuation_byte(b[r]))
        }),
    decreases e,
{
    if !(e <= 0 || e >= le || !is_continuation_byte(b[e])) {
        lemma_back_off_stop(b, le, e - 1);
    }
}

/// On valid text, a unit starting at a boundary makes progress, stays within
/// its line and within `mb` bytes unless it is one character, and ends at a
/// boundary.
proof fn lemma_unit_end(b: Seq<u8>, mb: int, s: int)
    requires
        valid_utf8(b),
        is_char_boundary(b, s),
        0 <= s < b.len(),
        mb >= 1,
    ensures
        ({
            let le = line_end(b, s);
            let e = back_off(b, le, if le - s > mb { s + mb } else { le });
            let u = unit_end(b, mb, s);
            &&& s <= e <= s + mb
            &&& e <= le
            &&& s < char_end(b, s) <= le
            &&& char_end(b, s) - s <= 4
            &&& (s < e ==> u == e)
            &&& (e <= s ==> u == char_end(b, s))
            &&& forall|j: int| s < j < char_end(b, s) ==> is_continuation_byte(#[trigger] b[j])
            &&& (char_end(b, s) >= le || !is_continuation_byte(b[char_end(b, s)]))
            &&& s < u <= le
            &&& (u <= s + mb || u == char_end(b, s))
            &&& is_char_boundary(b, u)
        }),
{
    let le = line_end(b, s);
    let e0 = if le - s > mb { s + mb } else { le };
    lemma_line_end(b, s);
    lemma_next_boundary(b, s);
    let l = length_of_first_scalar(b.subrange(s, b.len() as int));
    let x = s + l;
    assert(x == char_end(b, s));
    // The line's end is a boundary.
    assert(is_char_boundary(b, le)) by {
        if le < b.len() {
            assert(b[le - 1] == 10);
            lemma_boundary_iff(b, le - 1);
            lemma_next_boundary(b, le - 1);
        } else {
            lemma_boundary_iff(b, le);
        }
    }
    // The first character fits before the line ends.
    assert(x <= le) by {
        if x > le {
            if le < b.len() {
                assert(b[le - 1] == 10);
                if le - 1 > s {
                    assert(is_continuation_byte(b[le - 1]));
                } else {
                    assert(b[s] <= 0x7f);
                }
            }
        }
    }
    assert(x >= le || !is_continuation_byte(b[x])) by {
        lemma_boundary_iff(b, x);
    }
    lemma_back_off_stop(b, le, e0);
    let e = back_off(b, le, e0);
    if s > 0 {
        lemma_boundary_iff(b, s);
        lemma_back_off(b, le, e0, s);
    }
    assert(is_char_boundary(b, e)) by {
        if e < le {
            lemma_boundary_iff(b, e);
        }
    }
}

} // verus!

verus! {

proof fn lemma_line_end_scan(b: Seq<u8>, s: int, x: int)
    requires
        0 <= s <= x <= b.len(),
        forall|j: int| s <= j < x ==> #[trigger] b[j] != 10,
    ensures
        line_end(b, s) == line_end(b, x),
    decreases x - s,
{
    if s < x {
        lemma_line_end_scan(b, s + 1, x);
    }
}

/// The units of `text`: its lines, with any line longer than `4 * max_tokens`
/// bytes broken at character boundaries, and a character that alone exceeds
/// that size kept whole as a unit of its own. Newlines are kept, so the units rejoin
/// into the text verbatim.
fn split_units(text: &str, max_tokens: usize) -> (units: Vec<String>)
    ensures
        ({
            let b = encode_utf8(text@);
            let ends = unit_ends(b, max_unit_bytes(max_tokens), 0);
            &&& units.len() == ends.len()
            &&& forall|k: int|
                0 <= k < units.len() ==> encode_utf8(#[trigger] units[k]@) == b.subrange(
                    unit_start(ends, k),
                    ends[k],
                )
        }),
{
    let bytes = text.as_bytes();
    let n = bytes.len();
    let ghost b = text.spec_bytes();
    let mb: usize = if max_tokens > usize::MAX / 4 {
        usize::MAX
    } else if max_tokens == 0 {
        1
    } else {
        max_tokens * 4
    };
    let ghost mbi = mb as int;
    proof {
        assert(mbi == max_unit_bytes(max_tokens));
        vstd::utf8::encode_utf8_valid_utf8(text@);
        lemma_boundary_iff(b, 0);
        assert(seq![] + unit_ends(b, mbi, 0) =~= unit_ends(b, mbi, 0));
    }
    let mut units: Vec<String> = Vec::new();
    let ghost mut ends: Seq<int> = seq![];
    let mut ls: usize = 0;
    while ls < n
        invariant
            bytes@ == b,
            n == b.len(),
            b == text.spec_bytes(),
            valid_utf8(b),
            mb == mbi,
            mbi == max_unit_bytes(max_tokens),
            ls <= n,
            is_char_boundary(b, ls as int),
            ends + unit_ends(b, mbi, ls as int) == unit_ends(b, mbi, 0),
            units.len() == ends.len(),
            ends.len() > 0 ==> ends.last() == ls,
            ends.len() == 0 ==> ls == 0,
            forall|k: int|
                0 <= k < units.len() ==> encode_utf8(#[trigger] units[k]@) == b.subrange(
                    unit_start(ends, k),
                    ends[k],
                ),
        decreases n - ls,
    {
        let mut le = ls;
        while le < n && bytes[le] != 10
            invariant
                bytes@ == b,
                n == b.len(),
                ls <= le <= n,
                forall|j: int| ls <= j < le ==> #[trigger] b[j] != 10,
            decreases n - le,
        {
            le = le + 1;
        }
        proof {
            lemma_line_end_scan(b, ls as int, le as int);
        }
        if le < n {
            le = le + 1;
        }
        assert(le == line_end(b, ls as int));
        let mut s = ls;
        while s < le
            invariant
                bytes@ == b,
                n == b.len(),
                b == text.spec_bytes(),
                valid_utf8(b),
                mb == mbi,
                mbi == max_unit_bytes(max_tokens),
                ls <= s <= le <= n,
                ls < le,
                le == line_end(b, ls as int),
                is_char_boundary(b, s as int),
                ends + unit_ends(b, mbi, s as int) == unit_ends(b, mbi, 0),
                units.len() == ends.len(),
                ends.len() > 0 ==> ends.last() == s,
                ends.len() == 0 ==> s == 0,
                forall|k: int|
                    0 <= k < units.len() ==> encode_utf8(#[trigger] units[k]@) == b.subrange(
                        unit_start(ends, k),
                        ends[k],
                    ),
            decreases le - s,
        {
            proof {
                lemma_line_end(b, ls as int);
                lemma_line_end_within(b, ls as int, s as int);
                lemma_boundary_iff(b, s as int);
            }
            let e0 = if le - s > mb {
                s + mb
            } else {
                le
            };
            let mut e = e0;
            while e < le && 0x80 <= bytes[e] && bytes[e] <= 0xbf
                invariant
                    bytes@ == b,
                    n == b.len(),
                    s <= e <= e0,
                    le <= n,
                    s < le,
                    !is_continuation_byte(b[s as int]),
                    back_off(b, le as int, e as int) == back_off(b, le as int, e0 as int),
                decreases e,
            {
                e = e - 1;
            }
            proof {
                lemma_unit_end(b, mbi, s as int);
            }
            if e == s {
                // Not even one character fits: it becomes a unit of its own.
                e = s + 1;
                while e < le && 0x80 <= bytes[e] && bytes[e] <= 0xbf
                    invariant
                        bytes@ == b,
                        n == b.len(),
                        s < e <= char_end(b, s as int),
                        char_end(b, s as int) <= le <= n,
                        forall|j: int|
                            s < j < char_end(b, s as int) ==> is_continuation_byte(#[trigger] b[j]),
                        char_end(b, s as int) >= le || !is_continuation_byte(
                            b[char_end(b, s as int)],
                        ),
                    decreases le - e,
                {
                    e = e + 1;
                }
            }
            proof {
                lemma_boundary_in_tail(b, s as int, e as int);
                assert(unit_ends(b, mbi, s as int) =~= seq![e as int] + unit_ends(b, mbi, e as int));
                assert(ends.push(e as int) + unit_ends(b, mbi, e as int) =~= ends + unit_ends(
                    b,
                    mbi,
                    s as int,
                ));
            }
            let rest = text.split_at(s).1;
            let piece = rest.split_at(e - s).0;
            assert(piece.spec_bytes() =~= b.subrange(s as int, e as int));
            let unit = piece.to_owned();
            units.push(unit);
            proof {
                ends = ends.push(e as int);
            }
            s = e;
        }
        ls = le;
    }
    proof {
        assert(unit_ends(b, mbi, n as int) =~= Seq::<int>::empty());
        assert(ends =~= unit_ends(b, mbi, 0));
    }
    units
}

} // verus!

verus! {

proof fn lemma_unit_ends_shape(b: Seq<u8>, mb: int, s: int)
    requires
        0 <= s <= b.len(),
    ensures
        ({
            let es = unit_ends(b, mb, s);
            &&& forall|k: int|
                0 <= k < es.len() ==> (if k == 0 {
                    s
                } else {
                    es[k - 1]
                }) < #[trigger] es[k] <= b.len()
            &&& es.len() > 0 ==> es.last() == b.len()
            &&& s < b.len() ==> es.len() > 0
        }),
    decreases b.len() - s,
{
    if s < b.len() {
        let e = unit_end(b, mb, s);
        lemma_unit_ends_shape(b, mb, e);
        let rest = unit_ends(b, mb, e);
        let es = unit_ends(b, mb, s);
        assert(es =~= seq![e] + rest);
        assert forall|k: int| 0 <= k < es.len() implies (if k == 0 {
            s
        } else {
            es[k - 1]
        }) < #[trigger] es[k] <= b.len() by {
            if k > 0 {
                assert(es[k] == rest[k - 1]);
                if k > 1 {
                    assert(es[k - 1] == rest[k - 2]);
                }
            }
        }
        if rest.len() > 0 {
            assert(es.last() == rest.last());
        } else {
            assert(e == b.len());
        }
    }
}

/// Units start where the previous one ended, and each holds at least a byte.
pub open spec fn ends_shaped(ends: Seq<int>, len: int) -> bool {
    &&& forall|k: int| 0 <= k < ends.len() ==> unit_start(ends, k) < #[trigger] ends[k] <= len
    &&& ends.len() > 0 ==> ends.last() == len
}

proof fn lemma_ends_shaped(b: Seq<u8>, mb: int)
    ensures
        ends_shaped(unit_ends(b, mb, 0), b.len() as int),
{
    lemma_unit_ends_shape(b, mb, 0);
    let es = unit_ends(b, mb, 0);
    assert forall|k: int| 0 <= k < es.len() implies unit_start(es, k) < #[trigger] es[k]
        <= b.len() by {
        assert((if k == 0 {
            0
        } else {
            es[k - 1]
        }) < es[k] <= b.len());
    }
}

proof fn lemma_sum_split(t: Seq<int>, a: int, m: int, c: int)
    requires
        a <= m <= c,
    ensures
        sum_tokens(t, a, c) == sum_tokens(t, a, m) + sum_tokens(t, m, c),
    decreases c - m,
{
    if m < c {
        lemma_sum_split(t, a, m, c - 1);
    }
}

proof fn lemma_sum_nonneg(t: Seq<int>, a: int, c: int)
    requires
        forall|k: int| 0 <= k < t.len() ==> #[trigger] t[k] >= 0,
        0 <= a,
        c <= t.len(),
    ensures
        sum_tokens(t, a, c) >= 0,
    decreases c - a,
{
    if a < c {
        lemma_sum_nonneg(t, a, c - 1);
    }
}

proof fn lemma_sum_within(t: Seq<int>, a: int, c: int, x: int, y: int)
    requires
        forall|k: int| 0 <= k < t.len() ==> #[trigger] t[k] >= 0,
        0 <= x <= a <= c <= y <= t.len(),
    ensures
        sum_tokens(t, a, c) <= sum_tokens(t, x, y),
{
    lemma_sum_split(t, x, a, y);
    lemma_sum_split(t, a, c, y);
    lemma_sum_nonneg(t, x, a);
    lemma_sum_nonneg(t, c, y);
}

/// Units are never worth more tokens than they hold bytes.
proof fn lemma_sum_bytes(ends: Seq<int>, len: int, a: int, c: int)
    requires
        ends_shaped(ends, len),
        0 <= a <= c <= ends.len(),
    ensures
        sum_tokens(unit_tokens(ends), a, c) <= unit_start(ends, c) - unit_start(ends, a),
        forall|k: int| 0 <= k < ends.len() ==> #[trigger] unit_tokens(ends)[k] >= 1,
    decreases c - a,
{
    let t = unit_tokens(ends);
    assert forall|k: int| 0 <= k < ends.len() implies #[trigger] unit_tokens(ends)[k] >= 1 by {
        assert(unit_start(ends, k) < ends[k]);
    }
    if a < c {
        lemma_sum_bytes(ends, len, a, c - 1);
        let w = ends[c - 1] - unit_start(ends, c - 1);
        assert(w >= 1);
        assert(est_tokens(w) <= w);
        if c - 1 > 0 {
            assert(unit_start(ends, c - 1) == ends[c - 2]);
        }
        if a == 0 && c == 1 {
            assert(unit_start(ends, 0) == 0);
        }
        assert(unit_start(ends, c) == ends[c - 1]);
    }
}

/// The `len / 4` token estimate for `text`, rounded up: deliberately crude.
pub fn estimate_tokens(text: &str) -> (n: usize)
    ensures
        n == est_tokens(encode_utf8(text@).len() as int),
{
    let l = text.as_bytes().len();
    let n = l / 4 + if l % 4 == 0 {
        0
    } else {
        1
    };
    assert(n == (l + 3) / 4) by (nonlinear_arith)
        requires
            n == l / 4 + if l % 4 == 0 {
                0int
            } else {
                1int
            },
            l >= 0,
    ;
    n
}

} // verus!

verus! {

pub open spec fn as_ints(t: Seq<usize>) -> Seq<int> {
    Seq::new(t.len(), |k: int| t[k] as int)
}

proof fn lemma_sum_front(t: Seq<int>, a: int, c: int)
    requires
        a < c,
    ensures
        sum_tokens(t, a, c) == t[a] + sum_tokens(t, a + 1, c),
{
    lemma_sum_split(t, a, a + 1, c);
    assert(sum_tokens(t, a, a + 1) == sum_tokens(t, a, a) + t[a]);
}

/// The first unit of `a..i` to carry into the next chunk, and the tokens the
/// carried units hold.
fn overlap_tail(t: &Vec<usize>, a: usize, i: usize, overlap_tokens: usize) -> (r: (usize, usize))
    requires
        a < i <= t.len(),
        sum_tokens(as_ints(t@), 0, t.len() as int) <= usize::MAX,
    ensures
        r.0 == carry_start(as_ints(t@), a as int, i as int, overlap_tokens as int),
        r.1 == sum_tokens(as_ints(t@), r.0 as int, i as int),
        a < r.0 <= i,
{
    let ghost ts = as_ints(t@);
    if overlap_tokens == 0 {
        return (i, 0);
    }
    let mut j = i;
    let mut tokens: usize = 0;
    proof {
        assert forall|k: int| 0 <= k < ts.len() implies #[trigger] ts[k] >= 0 by {}
        lemma_sum_within(ts, i - 1, i as int, 0, t.len() as int);
        lemma_sum_front(ts, i - 1, i as int);
    }
    while j > a && tokens + t[j - 1] <= overlap_tokens
        invariant
            ts == as_ints(t@),
            forall|k: int| 0 <= k < ts.len() ==> #[trigger] ts[k] >= 0,
            sum_tokens(ts, 0, t.len() as int) <= usize::MAX,
            j > 0 ==> tokens + ts[j - 1] <= usize::MAX,
            a <= j <= i <= t.len(),
            tokens == sum_tokens(ts, j as int, i as int),
            tokens <= overlap_tokens,
            tail_start(ts, a as int, i as int, overlap_tokens as int, 0) == tail_start(
                ts,
                a as int,
                j as int,
                overlap_tokens as int,
                tokens as int,
            ),
        decreases j,
    {
        proof {
            lemma_sum_front(ts, j - 1, i as int);
        }
        tokens = tokens + t[j - 1];
        j = j - 1;
        proof {
            if j > 0 {
                lemma_sum_within(ts, j - 1, i as int, 0, t.len() as int);
                lemma_sum_front(ts, j - 1, i as int);
            }
        }
    }
    proof {
        assert(tail_start(ts, a as int, j as int, overlap_tokens as int, tokens as int) == j);
    }
    if j == a {
        proof {
            lemma_sum_front(ts, a as int, i as int);
            lemma_sum_nonneg(ts, a + 1, i as int);
        }
        (a + 1, tokens - t[a])
    } else {
        (j, tokens)
    }
}

} // verus!

verus! {

/// `chunks` are the chunks cut from the text `b` at `spans`, numbered in order.
pub open spec fn chunks_match(chunks: Seq<Chunk>, b: Seq<u8>, spans: Seq<(int, int)>) -> bool {
    &&& chunks.len() == spans.len()
    &&& forall|k: int|
        0 <= k < chunks.len() ==> {
            &&& (#[trigger] chunks[k]).ord == k
            &&& encode_utf8(chunks[k].text@) == b.subrange(spans[k].0, spans[k].1)
            &&& chunks[k].n_tokens == est_tokens(spans[k].1 - spans[k].0)
        }
}

/// `units` are the units of `b` that end at `ends`.
pub open spec fn units_match(units: Seq<String>, b: Seq<u8>, ends: Seq<int>) -> bool {
    &&& units.len() == ends.len()
    &&& ends_shaped(ends, b.len() as int)
    &&& forall|k: int|
        0 <= k < units.len() ==> encode_utf8(#[trigger] units[k]@) == b.subrange(
            unit_start(ends, k),
            ends[k],
        )
}

proof fn lemma_unit_start_mono(ends: Seq<int>, len: int, x: int, y: int)
    requires
        ends_shaped(ends, len),
        0 <= x <= y <= ends.len(),
        len >= 0,
    ensures
        0 <= unit_start(ends, x) <= unit_start(ends, y) <= len,
        x < y ==> unit_start(ends, x) < unit_start(ends, y),
    decreases y,
{
    if x < y {
        lemma_unit_start_mono(ends, len, x, y - 1);
        assert(unit_start(ends, y - 1) < ends[y - 1]);
    } else if x > 0 {
        assert(unit_start(ends, x - 1) < ends[x - 1]);
        lemma_unit_start_mono(ends, len, x - 1, x - 1);
    }
}

proof fn lemma_append_unit(text: Seq<char>, unit: Seq<char>, b: Seq<u8>, ends: Seq<int>, x: int, k: int)
    requires
        ends_shaped(ends, b.len() as int),
        0 <= k < ends.len(),
        0 <= x <= unit_start(ends, k),
        encode_utf8(text) == b.subrange(x, unit_start(ends, k)),
        encode_utf8(unit) == b.subrange(unit_start(ends, k), ends[k]),
    ensures
        encode_utf8(text + unit) == b.subrange(x, unit_start(ends, k + 1)),
{
    lemma_encode_concat(text, unit);
    lemma_unit_start_mono(ends, b.len() as int, k, k + 1);
    assert(unit_start(ends, k + 1) == ends[k]);
    assert(b.subrange(x, unit_start(ends, k)) + b.subrange(unit_start(ends, k), ends[k])
        =~= b.subrange(x, ends[k]));
}

/// Close the chunk made of units `a..c`: join them, and keep the result unless
/// it is empty or only whitespace.
fn push_chunk(
    chunks: &mut Vec<Chunk>,
    units: &Vec<String>,
    a: usize,
    c: usize,
    Ghost(b): Ghost<Seq<u8>>,
    Ghost(ends): Ghost<Seq<int>>,
    Ghost(spans): Ghost<Seq<(int, int)>>,
)
    requires
        units_match(units@, b, ends),
        a <= c <= units.len(),
        chunks_match(old(chunks)@, b, kept_spans(b, spans)),
    ensures
        chunks_match(
            final(chunks)@,
            b,
            kept_spans(b, spans.push((unit_start(ends, a as int), unit_start(ends, c as int)))),
        ),
{
    let ghost r = (unit_start(ends, a as int), unit_start(ends, c as int));
    let ghost all = spans.push(r);
    proof {
        assert(all.drop_last() =~= spans);
        assert(all.last() == r);
        lemma_unit_start_mono(ends, b.len() as int, a as int, c as int);
    }
    if a >= c {
        return;
    }
    let mut text = String::new();
    let mut k = a;
    while k < c
        invariant
            units_match(units@, b, ends),
            a <= k <= c <= units.len(),
            encode_utf8(text@) == b.subrange(r.0, unit_start(ends, k as int)),
            r == (unit_start(ends, a as int), unit_start(ends, c as int)),
        decreases c - k,
    {
        proof {
            lemma_unit_start_mono(ends, b.len() as int, a as int, k as int);
            lemma_append_unit(text@, units[k as int]@, b, ends, r.0, k as int);
        }
        text.append(units[k].as_str());
        k = k + 1;
    }
    proof {
        vstd::utf8::encode_utf8_decode_utf8(text@);
    }
    if is_blank(text.as_str()) {
        return;
    }
    let n_tokens = estimate_tokens(text.as_str());
    let ord = chunks.len();
    let ghost before = chunks@;
    chunks.push(Chunk { ord, text, n_tokens });
    proof {
        assert(span_kept(b, r));
        assert(kept_spans(b, all) == kept_spans(b, spans).push(r));
        assert forall|j: int| 0 <= j < chunks@.len() implies {
            &&& (#[trigger] chunks@[j]).ord == j
            &&& encode_utf8(chunks@[j].text@) == b.subrange(
                kept_spans(b, all)[j].0,
                kept_spans(b, all)[j].1,
            )
            &&& chunks@[j].n_tokens == est_tokens(kept_spans(b, all)[j].1 - kept_spans(b, all)[j].0)
        } by {
            if j < before.len() {
                assert(chunks@[j] == before[j]);
            }
        }
    }
}

} // verus!

verus! {

/// The byte spans of unit ranges.
pub open spec fn byte_spans(ends: Seq<int>, ranges: Seq<(int, int)>) -> Seq<(int, int)> {
    Seq::new(
        ranges.len(),
        |k: int| (unit_start(ends, ranges[k].0), unit_start(ends, ranges[k].1)),
    )
}

fn token_counts(units: &Vec<String>, Ghost(b): Ghost<Seq<u8>>, Ghost(ends): Ghost<Seq<int>>) -> (t: Vec<usize>)
    requires
        units_match(units@, b, ends),
    ensures
        as_ints(t@) == unit_tokens(ends),
{
    let mut t: Vec<usize> = Vec::new();
    let mut k: usize = 0;
    while k < units.len()
        invariant
            units_match(units@, b, ends),
            k <= units.len(),
            t.len() == k,
            forall|j: int| 0 <= j < k ==> t@[j] as int == unit_tokens(ends)[j],
        decreases units.len() - k,
    {
        let n = estimate_tokens(units[k].as_str());
        proof {
            lemma_unit_start_mono(ends, b.len() as int, 0, k as int);
            assert(unit_start(ends, k as int) < ends[k as int] <= b.len());
        }
        t.push(n);
        k = k + 1;
    }
    assert(as_ints(t@) =~= unit_tokens(ends));
    t
}

/// Split `text` into chunks of about `target_tokens` tokens, each repeating up
/// to `overlap_tokens` of the one before, none larger than `max_tokens` allows,
/// and none made only of whitespace.
pub fn chunk_text(text: &str, options: &ChunkOptions) -> (chunks: Vec<Chunk>)
    ensures
        chunks_match(chunks@, encode_utf8(text@), chunk_spans(encode_utf8(text@), *options)),
{
    let ghost b = encode_utf8(text@);
    let ghost mb = max_unit_bytes(options.max_tokens);
    let ghost ends = unit_ends(b, mb, 0);
    let ghost tt = unit_tokens(ends);
    let units = split_units(text, options.max_tokens);
    let nbytes = text.as_bytes().len();
    proof {
        lemma_ends_shaped(b, mb);
        lemma_sum_bytes(ends, b.len() as int, 0, ends.len() as int);
        lemma_unit_start_mono(ends, b.len() as int, 0, ends.len() as int);
        assert(forall|k: int| 0 <= k < tt.len() ==> #[trigger] tt[k] >= 0);
    }
    let t = token_counts(&units, Ghost(b), Ghost(ends));
    let n = units.len();
    assert(as_ints(t@).len() == t.len() && tt.len() == ends.len());
    let mut chunks: Vec<Chunk> = Vec::new();
    let mut cur: usize = 0;
    let mut cur_tok: usize = 0;
    let ghost mut closed: Seq<(int, int)> = seq![];
    let mut i: usize = 0;
    while i < n
        invariant
            units_match(units@, b, ends),
            as_ints(t@) == tt,
            tt == unit_tokens(ends),
            forall|k: int| 0 <= k < tt.len() ==> #[trigger] tt[k] >= 0,
            sum_tokens(tt, 0, n as int) <= usize::MAX,
            n == units.len(),
            n == t.len(),
            cur <= i <= n,
            cur_tok == sum_tokens(tt, cur as int, i as int),
            chunk_run(tt, *options, 0, 0, 0, seq![]) == chunk_run(
                tt,
                *options,
                i as int,
                cur as int,
                cur_tok as int,
                closed,
            ),
            chunks_match(chunks@, b, kept_spans(b, byte_spans(ends, closed))),
        decreases n - i,
    {
        let ut = t[i];
        proof {
            lemma_sum_within(tt, cur as int, i + 1, 0, n as int);
            assert(sum_tokens(tt, cur as int, i + 1) == cur_tok + ut);
        }
        if cur < i && cur_tok + ut > options.target_tokens {
            let (c, ct) = overlap_tail(&t, cur, i, options.overlap_tokens);
            proof {
                assert(byte_spans(ends, closed.push((cur as int, i as int))) =~= byte_spans(
                    ends,
                    closed,
                ).push((unit_start(ends, cur as int), unit_start(ends, i as int))));
            }
            push_chunk(
                &mut chunks,
                &units,
                cur,
                i,
                Ghost(b),
                Ghost(ends),
                Ghost(byte_spans(ends, closed)),
            );
            proof {
                closed = closed.push((cur as int, i as int));
                lemma_sum_within(tt, c as int, i + 1, 0, n as int);
            }
            if ct + ut > options.max_tokens {
                cur = i;
                cur_tok = 0;
            } else {
                cur = c;
                cur_tok = ct;
            }
        }
        proof {
            assert(tt[i as int] == ut);
            assert(sum_tokens(tt, cur as int, i + 1) == sum_tokens(tt, cur as int, i as int) + tt[i as int]);
        }
        cur_tok = cur_tok + ut;
        i = i + 1;
    }
    proof {
        assert(byte_spans(ends, closed.push((cur as int, n as int))) =~= byte_spans(
            ends,
            closed,
        ).push((unit_start(ends, cur as int), unit_start(ends, n as int))));
    }
    push_chunk(&mut chunks, &units, cur, n, Ghost(b), Ghost(ends), Ghost(byte_spans(ends, closed)));
    proof {
        assert(raw_spans(b, *options) =~= byte_spans(ends, closed.push((cur as int, n as int))));
    }
    chunks
}

} // verus!

verus! {

proof fn lemma_tail_start(t: Seq<int>, a: int, j: int, budget: int, acc: int)
    requires
        a <= j,
    ensures
        a <= tail_start(t, a, j, budget, acc) <= j,
    decreases j - a,
{
    if j > a && acc + t[j - 1] <= budget {
        lemma_tail_start(t, a, j - 1, budget, acc + t[j - 1]);
    }
}

proof fn lemma_carry_start(t: Seq<int>, a: int, i: int, budget: int)
    requires
        a < i,
    ensures
        a < carry_start(t, a, i, budget) <= i,
        budget == 0 ==> carry_start(t, a, i, budget) == i,
{
    lemma_tail_start(t, a, i, budget, 0);
}

/// The largest a chunk may grow to, in tokens.
pub open spec fn chunk_ceiling(o: ChunkOptions) -> int {
    let m = if o.max_tokens >= 1 { o.max_tokens as int } else { 1 };
    if o.target_tokens as int >= m { o.target_tokens as int } else { m }
}

/// What holds of the unit ranges gathered so far, and of the chunk being grown.
pub open spec fn run_inv(
    t: Seq<int>,
    o: ChunkOptions,
    i: int,
    cur: int,
    cur_tok: int,
    closed: Seq<(int, int)>,
) -> bool {
    &&& 0 <= cur <= i <= t.len()
    &&& i > 0 ==> cur < i
    &&& cur_tok == sum_tokens(t, cur, i)
    &&& cur_tok <= chunk_ceiling(o)
    &&& forall|k: int|
        0 <= k < closed.len() ==> (#[trigger] closed[k]).0 < closed[k].1 && sum_tokens(
            t,
            closed[k].0,
            closed[k].1,
        ) <= chunk_ceiling(o)
    &&& forall|k: int|
        0 <= k < closed.len() - 1 ==> (#[trigger] closed[k]).0 < closed[k + 1].0 && closed[k].1
            < closed[k + 1].1
    &&& closed.len() > 0 ==> closed.last().0 < cur && closed.last().1 < i
    &&& o.overlap_tokens == 0 ==> {
        &&& closed.len() == 0 ==> cur == 0
        &&& closed.len() > 0 ==> closed[0].0 == 0 && closed.last().1 == cur
        &&& forall|k: int|
            0 <= k < closed.len() - 1 ==> (#[trigger] closed[k]).1 == closed[k + 1].0
    }
}

/// What holds of the unit ranges chunking produces.
pub open spec fn ranges_ok(t: Seq<int>, o: ChunkOptions, r: Seq<(int, int)>) -> bool {
    &&& r.len() > 0
    &&& t.len() > 0 ==> forall|k: int| 0 <= k < r.len() ==> (#[trigger] r[k]).0 < r[k].1
    &&& forall|k: int|
        0 <= k < r.len() ==> sum_tokens(t, (#[trigger] r[k]).0, r[k].1) <= chunk_ceiling(o)
    &&& forall|k: int|
        0 <= k < r.len() - 1 ==> (#[trigger] r[k]).0 < r[k + 1].0 && r[k].1 < r[k + 1].1
    &&& forall|k: int| 0 <= k < r.len() ==> 0 <= (#[trigger] r[k]).0 <= r[k].1 <= t.len()
    &&& o.overlap_tokens == 0 ==> {
        &&& r[0].0 == 0
        &&& r.last().1 == t.len()
        &&& forall|k: int| 0 <= k < r.len() - 1 ==> (#[trigger] r[k]).1 == r[k + 1].0
    }
}

#[verifier::spinoff_prover]
#[verifier::rlimit(40)]
proof fn lemma_run(
    t: Seq<int>,
    o: ChunkOptions,
    i: int,
    cur: int,
    cur_tok: int,
    closed: Seq<(int, int)>,
)
    requires
        run_inv(t, o, i, cur, cur_tok, closed),
        forall|k: int| 0 <= k < t.len() ==> 0 <= #[trigger] t[k] <= chunk_ceiling(o) && t[k] <= (
        if o.max_tokens >= 1 {
            o.max_tokens as int
        } else {
            1
        }),
        forall|k: int| 0 <= k < closed.len() ==> 0 <= (#[trigger] closed[k]).0 <= closed[k].1 <= i,
    ensures
        ranges_ok(t, o, chunk_run(t, o, i, cur, cur_tok, closed)),
    decreases t.len() - i,
{
    if i >= t.len() {
        let r = closed.push((cur, t.len() as int));
        assert forall|k: int| 0 <= k < r.len() - 1 implies (#[trigger] r[k]).0 < r[k + 1].0 && r[k].1
            < r[k + 1].1 by {
            if k < closed.len() - 1 {
                assert(r[k] == closed[k] && r[k + 1] == closed[k + 1]);
            } else {
                assert(r[k] == closed.last());
            }
        }
        if o.overlap_tokens == 0 {
            assert forall|k: int| 0 <= k < r.len() - 1 implies (#[trigger] r[k]).1 == r[k + 1].0 by {
                if k < closed.len() - 1 {
                    assert(r[k] == closed[k] && r[k + 1] == closed[k + 1]);
                }
            }
            if closed.len() > 0 {
                assert(r[0] == closed[0]);
            }
        }
        assert forall|k: int| 0 <= k < r.len() implies sum_tokens(t, (#[trigger] r[k]).0, r[k].1)
            <= chunk_ceiling(o) by {
            if k < closed.len() {
                assert(r[k] == closed[k]);
            }
        }
        assert forall|k: int| 0 <= k < r.len() implies 0 <= (#[trigger] r[k]).0 <= r[k].1 <= t.len() by {
            if k < closed.len() {
                assert(r[k] == closed[k]);
            }
        }
        if t.len() > 0 {
            assert forall|k: int| 0 <= k < r.len() implies (#[trigger] r[k]).0 < r[k].1 by {
                if k < closed.len() {
                    assert(r[k] == closed[k]);
                }
            }
        }
    } else if cur < i && cur_tok + t[i] > o.target_tokens {
        let c = carry_start(t, cur, i, o.overlap_tokens as int);
        let ct = sum_tokens(t, c, i);
        lemma_carry_start(t, cur, i, o.overlap_tokens as int);
        let closed2 = closed.push((cur, i));
        assert forall|k: int| 0 <= k < closed2.len() - 1 implies (#[trigger] closed2[k]).0
            < closed2[k + 1].0 && closed2[k].1 < closed2[k + 1].1 by {
            if k < closed.len() - 1 {
                assert(closed2[k] == closed[k] && closed2[k + 1] == closed[k + 1]);
            } else {
                assert(closed2[k] == closed.last());
            }
        }
        assert forall|k: int| 0 <= k < closed2.len() implies (#[trigger] closed2[k]).0 < closed2[k].1
            && sum_tokens(t, closed2[k].0, closed2[k].1) <= chunk_ceiling(o) by {
            if k < closed.len() {
                assert(closed2[k] == closed[k]);
            }
        }
        assert forall|k: int| 0 <= k < closed2.len() implies 0 <= (#[trigger] closed2[k]).0
            <= closed2[k].1 <= i + 1 by {
            if k < closed.len() {
                assert(closed2[k] == closed[k]);
            }
        }
        if o.overlap_tokens == 0 {
            assert forall|k: int| 0 <= k < closed2.len() - 1 implies (#[trigger] closed2[k]).1
                == closed2[k + 1].0 by {
                if k < closed.len() - 1 {
                    assert(closed2[k] == closed[k] && closed2[k + 1] == closed[k + 1]);
                }
            }
            if closed.len() > 0 {
                assert(closed2[0] == closed[0]);
            }
        }
        assert(sum_tokens(t, i, i) == 0);
        assert(sum_tokens(t, i, i + 1) == t[i]);
        assert(sum_tokens(t, c, i + 1) == ct + t[i]);
        if ct + t[i] > o.max_tokens {
            lemma_run(t, o, i + 1, i, t[i], closed2);
        } else {
            lemma_run(t, o, i + 1, c, ct + t[i], closed2);
        }
    } else {
        assert(sum_tokens(t, cur, i + 1) == cur_tok + t[i]);
        lemma_run(t, o, i + 1, cur, cur_tok + t[i], closed);
    }
}

} // verus!

verus! {

proof fn lemma_units_bounded(b: Seq<u8>, mb: int, s: int)
    requires
        valid_utf8(b),
        is_char_boundary(b, s),
        0 <= s <= b.len(),
        mb >= 1,
    ensures
        forall|k: int|
            0 <= k < unit_ends(b, mb, s).len() ==> #[trigger] unit_ends(b, mb, s)[k] - (if k == 0 {
                s
            } else {
                unit_ends(b, mb, s)[k - 1]
            }) <= (if mb >= 4 { mb } else { 4 }),
    decreases b.len() - s,
{
    if s < b.len() {
        lemma_unit_end(b, mb, s);
        let e = unit_end(b, mb, s);
        lemma_units_bounded(b, mb, e);
        let es = unit_ends(b, mb, s);
        let rest = unit_ends(b, mb, e);
        assert(es =~= seq![e] + rest);
        assert forall|k: int| 0 <= k < es.len() implies #[trigger] es[k] - (if k == 0 {
            s
        } else {
            es[k - 1]
        }) <= (if mb >= 4 { mb } else { 4 }) by {
            if k > 0 {
                assert(es[k] == rest[k - 1]);
                if k > 1 {
                    assert(es[k - 1] == rest[k - 2]);
                }
            }
        }
    }
}

proof fn lemma_unit_tokens_bounded(text: Seq<char>, o: ChunkOptions)
    ensures
        ({
            let b = encode_utf8(text);
            let t = unit_tokens(unit_ends(b, max_unit_bytes(o.max_tokens), 0));
            forall|k: int| 0 <= k < t.len() ==> 0 <= #[trigger] t[k] <= (if o.max_tokens >= 1 {
                o.max_tokens as int
            } else {
                1
            })
        }),
{
    let b = encode_utf8(text);
    let mb = max_unit_bytes(o.max_tokens);
    let ends = unit_ends(b, mb, 0);
    let t = unit_tokens(ends);
    vstd::utf8::encode_utf8_valid_utf8(text);
    lemma_boundary_iff(b, 0);
    lemma_units_bounded(b, mb, 0);
    lemma_ends_shaped(b, mb);
    assert forall|k: int| 0 <= k < t.len() implies 0 <= #[trigger] t[k] <= (if o.max_tokens >= 1 {
        o.max_tokens as int
    } else {
        1
    }) by {
        let w = ends[k] - unit_start(ends, k);
        assert(w <= (if mb >= 4 { mb } else { 4 }));
        assert(unit_start(ends, k) < ends[k]);
        assert(t[k] == est_tokens(w));
    }
}

proof fn lemma_est_sub(ends: Seq<int>, len: int, a: int, c: int)
    requires
        ends_shaped(ends, len),
        0 <= a <= c <= ends.len(),
        len >= 0,
    ensures
        est_tokens(unit_start(ends, c) - unit_start(ends, a)) <= sum_tokens(unit_tokens(ends), a, c),
    decreases c - a,
{
    lemma_unit_start_mono(ends, len, a, c);
    if a < c {
        lemma_est_sub(ends, len, a, c - 1);
        lemma_unit_start_mono(ends, len, a, c - 1);
        lemma_unit_start_mono(ends, len, c - 1, c);
        let x = unit_start(ends, c - 1) - unit_start(ends, a);
        let y = unit_start(ends, c) - unit_start(ends, c - 1);
        assert(unit_start(ends, c) == ends[c - 1]);
        assert(est_tokens(x + y) <= est_tokens(x) + est_tokens(y));
    }
}

proof fn lemma_kept_from(b: Seq<u8>, spans: Seq<(int, int)>, k: int)
    requires
        0 <= k < kept_spans(b, spans).len(),
    ensures
        exists|j: int| 0 <= j < spans.len() && spans[j] == #[trigger] kept_spans(b, spans)[k],
    decreases spans.len(),
{
    let rest = kept_spans(b, spans.drop_last());
    if span_kept(b, spans.last()) && k == rest.len() {
        assert(spans[spans.len() - 1] == kept_spans(b, spans)[k]);
    } else {
        lemma_kept_from(b, spans.drop_last(), k);
        let j = choose|j: int|
            0 <= j < spans.drop_last().len() && spans.drop_last()[j] == #[trigger] kept_spans(
                b,
                spans.drop_last(),
            )[k];
        assert(spans[j] == kept_spans(b, spans)[k]);
    }
}

proof fn lemma_raw_ranges(text: Seq<char>, o: ChunkOptions)
    ensures
        ({
            let b = encode_utf8(text);
            let ends = unit_ends(b, max_unit_bytes(o.max_tokens), 0);
            let t = unit_tokens(ends);
            let r = chunk_run(t, o, 0, 0, 0, seq![]);
            &&& ranges_ok(t, o, r)
            &&& ends_shaped(ends, b.len() as int)
            &&& raw_spans(b, o) == byte_spans(ends, r)
            &&& (ends.len() == 0 <==> b.len() == 0)
        }),
{
    let b = encode_utf8(text);
    let ends = unit_ends(b, max_unit_bytes(o.max_tokens), 0);
    let t = unit_tokens(ends);
    lemma_unit_tokens_bounded(text, o);
    lemma_ends_shaped(b, max_unit_bytes(o.max_tokens));
    lemma_unit_ends_shape(b, max_unit_bytes(o.max_tokens), 0);
    assert(sum_tokens(t, 0, 0) == 0);
    lemma_run(t, o, 0, 0, 0, seq![]);
}

/// The tail that `tail_start` picks, together with what it already held,
/// stays within the budget.
proof fn lemma_tail_within(t: Seq<int>, a: int, j: int, budget: int, acc: int)
    requires
        a <= j,
        acc <= budget,
    ensures
        sum_tokens(t, tail_start(t, a, j, budget, acc), j) + acc <= budget,
    decreases j - a,
{
    if j > a && acc + t[j - 1] <= budget {
        lemma_tail_within(t, a, j - 1, budget, acc + t[j - 1]);
        lemma_tail_start(t, a, j - 1, budget, acc + t[j - 1]);
        let s = tail_start(t, a, j - 1, budget, acc + t[j - 1]);
        assert(sum_tokens(t, s, j) == sum_tokens(t, s, j - 1) + t[j - 1]);
    }
}

/// What is carried into the next chunk stays within the overlap budget.
proof fn lemma_carry_within(t: Seq<int>, a: int, i: int, budget: int)
    requires
        a < i,
        budget >= 0,
        forall|k: int| 0 <= k < t.len() ==> 0 <= #[trigger] t[k],
        i <= t.len(),
        0 <= a,
    ensures
        sum_tokens(t, carry_start(t, a, i, budget), i) <= budget,
{
    if budget > 0 {
        lemma_tail_within(t, a, i, budget, 0);
        let c = tail_start(t, a, i, budget, 0);
        if c == a {
            lemma_sum_split(t, a, a + 1, i);
            assert(sum_tokens(t, a, a) == 0);
            assert(sum_tokens(t, a, a + 1) == sum_tokens(t, a, a) + t[a]);
        }
    }
}

/// Consecutive unit ranges share at most `overlap_tokens` tokens.
pub open spec fn overlap_bounded(t: Seq<int>, o: ChunkOptions, r: Seq<(int, int)>) -> bool {
    forall|k: int|
        0 <= k < r.len() - 1 && (#[trigger] r[k + 1]).0 < r[k].1 ==> sum_tokens(t, r[k + 1].0, r[k].1)
            <= o.overlap_tokens
}

proof fn lemma_run_overlap(
    t: Seq<int>,
    o: ChunkOptions,
    i: int,
    cur: int,
    cur_tok: int,
    closed: Seq<(int, int)>,
)
    requires
        0 <= cur <= i,
        forall|k: int| 0 <= k < t.len() ==> 0 <= #[trigger] t[k],
        overlap_bounded(t, o, closed),
        closed.len() > 0 && cur < closed.last().1 ==> sum_tokens(t, cur, closed.last().1)
            <= o.overlap_tokens,
    ensures
        overlap_bounded(t, o, chunk_run(t, o, i, cur, cur_tok, closed)),
    decreases t.len() - i,
{
    if i >= t.len() {
        let r = closed.push((cur, t.len() as int));
        assert forall|k: int|
            0 <= k < r.len() - 1 && (#[trigger] r[k + 1]).0 < r[k].1 implies sum_tokens(
            t,
            r[k + 1].0,
            r[k].1,
        ) <= o.overlap_tokens by {
            if k < closed.len() - 1 {
                assert(r[k] == closed[k] && r[k + 1] == closed[k + 1]);
            } else {
                assert(r[k] == closed.last());
            }
        }
    } else if cur < i && cur_tok + t[i] > o.target_tokens {
        let c = carry_start(t, cur, i, o.overlap_tokens as int);
        let ct = sum_tokens(t, c, i);
        lemma_carry_start(t, cur, i, o.overlap_tokens as int);
        lemma_carry_within(t, cur, i, o.overlap_tokens as int);
        let closed2 = closed.push((cur, i));
        assert forall|k: int|
            0 <= k < closed2.len() - 1 && (#[trigger] closed2[k + 1]).0 < closed2[k].1 implies sum_tokens(
            t,
            closed2[k + 1].0,
            closed2[k].1,
        ) <= o.overlap_tokens by {
            if k < closed.len() - 1 {
                assert(closed2[k] == closed[k] && closed2[k + 1] == closed[k + 1]);
            } else {
                assert(closed2[k] == closed.last());
            }
        }
        assert(closed2.last() == (cur, i));
        if ct + t[i] > o.max_tokens {
            lemma_run_overlap(t, o, i + 1, i, t[i], closed2);
        } else {
            lemma_run_overlap(t, o, i + 1, c, ct + t[i], closed2);
        }
    } else {
        lemma_run_overlap(t, o, i + 1, cur, cur_tok + t[i], closed);
    }
}

/// Consecutive pieces repeat at most `overlap_tokens` of each other: where
/// the next piece starts before this one ends, the text they share is
/// estimated at no more than `overlap_tokens` tokens.
pub proof fn law_overlap_within_budget(text: Seq<char>, o: ChunkOptions)
    ensures
        ({
            let raw = raw_spans(encode_utf8(text), o);
            forall|k: int|
                0 <= k < raw.len() - 1 && (#[trigger] raw[k + 1]).0 < raw[k].1 ==> est_tokens(
                    raw[k].1 - raw[k + 1].0,
                ) <= o.overlap_tokens
        }),
{
    let b = encode_utf8(text);
    let ends = unit_ends(b, max_unit_bytes(o.max_tokens), 0);
    let t = unit_tokens(ends);
    let r = chunk_run(t, o, 0, 0, 0, seq![]);
    lemma_raw_ranges(text, o);
    assert(forall|k: int| 0 <= k < t.len() ==> 0 <= #[trigger] t[k]);
    lemma_run_overlap(t, o, 0, 0, 0, seq![]);
    let raw = raw_spans(b, o);
    assert forall|k: int|
        0 <= k < raw.len() - 1 && (#[trigger] raw[k + 1]).0 < raw[k].1 implies est_tokens(
        raw[k].1 - raw[k + 1].0,
    ) <= o.overlap_tokens by {
        assert(0 <= r[k + 1].0 <= r[k + 1].1 <= t.len());
        assert(0 <= r[k].0 <= r[k].1 <= t.len());
        if r[k].1 <= r[k + 1].0 {
            lemma_unit_start_mono(ends, b.len() as int, r[k].1, r[k + 1].0);
        }
        assert(r[k + 1].0 < r[k].1);
        lemma_est_sub(ends, b.len() as int, r[k + 1].0, r[k].1);
    }
}

/// No chunk grows past `max(target_tokens, max_tokens)` tokens (counting a
/// zero `max_tokens` as one): units are cut to the hard ceiling, and a chunk
/// only grows past a unit while it stays under the target.
pub proof fn law_chunk_ceiling(text: Seq<char>, o: ChunkOptions)
    ensures
        forall|k: int|
            0 <= k < chunk_spans(encode_utf8(text), o).len() ==> est_tokens(
                (#[trigger] chunk_spans(encode_utf8(text), o)[k]).1 - chunk_spans(
                    encode_utf8(text),
                    o,
                )[k].0,
            ) <= chunk_ceiling(o),
{
    let b = encode_utf8(text);
    let ends = unit_ends(b, max_unit_bytes(o.max_tokens), 0);
    let t = unit_tokens(ends);
    let r = chunk_run(t, o, 0, 0, 0, seq![]);
    lemma_raw_ranges(text, o);
    let raw = raw_spans(b, o);
    assert forall|k: int| 0 <= k < chunk_spans(b, o).len() implies est_tokens(
        (#[trigger] chunk_spans(b, o)[k]).1 - chunk_spans(b, o)[k].0,
    ) <= chunk_ceiling(o) by {
        lemma_kept_from(b, raw, k);
        let j = choose|j: int| 0 <= j < raw.len() && raw[j] == #[trigger] kept_spans(b, raw)[k];
        assert(0 <= r[j].0 <= r[j].1 <= t.len());
        lemma_est_sub(ends, b.len() as int, r[j].0, r[j].1);
    }
}

/// With no overlap the pieces chunking cuts the text into abut and cover it
/// exactly, so the chunks tile the text apart from whitespace-only pieces.
pub proof fn law_zero_overlap_tiles(text: Seq<char>, o: ChunkOptions)
    requires
        o.overlap_tokens == 0,
    ensures
        ({
            let raw = raw_spans(encode_utf8(text), o);
            &&& raw.len() > 0
            &&& raw[0].0 == 0
            &&& raw.last().1 == encode_utf8(text).len()
            &&& forall|k: int| 0 <= k < raw.len() - 1 ==> (#[trigger] raw[k]).1 == raw[k + 1].0
        }),
{
    let b = encode_utf8(text);
    let ends = unit_ends(b, max_unit_bytes(o.max_tokens), 0);
    let t = unit_tokens(ends);
    let r = chunk_run(t, o, 0, 0, 0, seq![]);
    lemma_raw_ranges(text, o);
    let raw = raw_spans(b, o);
    assert(raw[0].0 == unit_start(ends, r[0].0));
    assert(raw.last() == raw[raw.len() - 1]);
    if ends.len() > 0 {
        assert(unit_start(ends, ends.len() as int) == b.len());
    }
    assert forall|k: int| 0 <= k < raw.len() - 1 implies (#[trigger] raw[k]).1 == raw[k + 1].0 by {
        assert(r[k].1 == r[k + 1].0);
    }
}

/// Overlap never stalls the walk: each piece starts and ends strictly after the
/// one before it.
pub proof fn law_chunks_advance(text: Seq<char>, o: ChunkOptions)
    ensures
        ({
            let raw = raw_spans(encode_utf8(text), o);
            forall|k: int|
                0 <= k < raw.len() - 1 ==> (#[trigger] raw[k]).0 < raw[k + 1].0 && raw[k].1 < raw[k
                    + 1].1
        }),
{
    let b = encode_utf8(text);
    let ends = unit_ends(b, max_unit_bytes(o.max_tokens), 0);
    let t = unit_tokens(ends);
    let r = chunk_run(t, o, 0, 0, 0, seq![]);
    lemma_raw_ranges(text, o);
    let raw = raw_spans(b, o);
    assert forall|k: int| 0 <= k < raw.len() - 1 implies (#[trigger] raw[k]).0 < raw[k + 1].0
        && raw[k].1 < raw[k + 1].1 by {
        assert(r[k].0 < r[k + 1].0 && r[k].1 < r[k + 1].1);
        assert(0 <= r[k + 1].0 <= r[k + 1].1 <= t.len());
        lemma_unit_start_mono(ends, b.len() as int, r[k].0, r[k + 1].0);
        lemma_unit_start_mono(ends, b.len() as int, r[k].1, r[k + 1].1);
    }
}

} // verus!
