//! The lexical half of retrieval: turning a question typed by a person into a
//! full-text `MATCH` expression that can only ever mean "any of these words".

use vstd::prelude::*;

use crate::text::{
    contains_string, distinct, lemma_distinct, lemma_distinct_prefix, lowercase, lowercase_all,
    no_repeats, split_words, string_from_chars, to_lowercase, words_of,
};

verus! {

/// A ceiling on how many distinct terms one query contributes.
pub const MAX_TERMS: usize = 32;

/// The terms a query is searched by: its distinct lowercase words, at most
/// `MAX_TERMS` of them, in order of first appearance.
pub open spec fn match_terms(query: Seq<char>) -> Seq<Seq<char>> {
    distinct(lowercase_all(words_of(query))).take(
        if distinct(lowercase_all(words_of(query))).len() < MAX_TERMS {
            distinct(lowercase_all(words_of(query))).len() as int
        } else {
            MAX_TERMS as int
        },
    )
}

/// One character inside an FTS5 string literal: a double quote is written
/// twice, anything else as it is.
pub open spec fn escaped_char(c: char) -> Seq<char> {
    if c == '"' {
        seq!['"', '"']
    } else {
        seq![c]
    }
}

/// The body of an FTS5 string literal holding `t`.
pub open spec fn escape_quotes(t: Seq<char>) -> Seq<char>
    decreases t.len(),
{
    if t.len() == 0 {
        Seq::empty()
    } else {
        escape_quotes(t.drop_last()) + escaped_char(t.last())
    }
}

/// A term as an FTS5 string literal.
pub open spec fn quoted(t: Seq<char>) -> Seq<char> {
    seq!['"'] + escape_quotes(t) + seq!['"']
}

/// How FTS5 reads the inside of a string literal: the number of characters
/// before the quote that closes it, a doubled quote standing for one quote.
pub open spec fn literal_body_len(s: Seq<char>) -> int
    decreases s.len(),
{
    if s.len() == 0 {
        0
    } else if s[0] == '"' && s.len() > 1 && s[1] == '"' {
        2 + literal_body_len(s.skip(2))
    } else if s[0] == '"' {
        0
    } else {
        1 + literal_body_len(s.drop_first())
    }
}

/// The quoted terms joined by ` OR `.
pub open spec fn quoted_or(ts: Seq<Seq<char>>) -> Seq<char>
    decreases ts.len(),
{
    if ts.len() == 0 {
        Seq::empty()
    } else if ts.len() == 1 {
        quoted(ts[0])
    } else {
        quoted_or(ts.drop_last()) + seq![' ', 'O', 'R', ' '] + quoted(ts.last())
    }
}

/// Turn free text into an FTS5 `MATCH` expression: an explicit `OR` of the
/// quoted, lowercased, distinct alphanumeric words of the query, so that
/// nothing the user typed is read as an operator. A double quote inside a
/// term is doubled, as FTS5 string literals require, so a term can never
/// close its own literal early. `None` when the query has
/// no word at all, which means there is nothing to look up.
pub fn match_expression(query: &str) -> (r: Option<String>)
    ensures
        r is None <==> words_of(query@).len() == 0,
        match r {
            None => match_terms(query@).len() == 0,
            Some(e) => e@ == quoted_or(match_terms(query@)),
        },
{
    let ws = split_words(query);
    let ghost lw = lowercase_all(words_of(query@));
    let mut terms: Vec<String> = Vec::new();
    let mut j: usize = 0;
    while j < ws.len()
        invariant
            ws.deep_view() == words_of(query@),
            lw == lowercase_all(words_of(query@)),
            lw.len() == ws.len(),
            j <= ws.len(),
            terms.deep_view() == distinct(lw.take(j as int)),
            terms.len() < MAX_TERMS,
        decreases ws.len() - j,
    {
        let w = to_lowercase(ws[j].as_str());
        assert(lw.take(j as int + 1).drop_last() =~= lw.take(j as int));
        assert(lw.take(j as int + 1).last() == w@);
        if !contains_string(&terms, &w) {
            terms.push(w);
            assert(terms.deep_view() =~= distinct(lw.take(j as int + 1)));
            if terms.len() == MAX_TERMS {
                proof {
                    lemma_distinct_prefix(lw, j as int + 1);
                    assert(match_terms(query@) =~= terms.deep_view());
                }
                return Some(quote_and_join(&terms));
            }
        }
        j = j + 1;
    }
    assert(lw.take(ws.len() as int) =~= lw);
    proof {
        lemma_distinct(lw);
        assert(match_terms(query@) =~= terms.deep_view());
    }
    if terms.len() == 0 {
        return None;
    }
    Some(quote_and_join(&terms))
}

/// `"t1" OR "t2" OR …` for the given terms, quotes inside them doubled.
fn quote_and_join(terms: &Vec<String>) -> (s: String)
    requires
        terms.len() > 0,
    ensures
        s@ == quoted_or(terms.deep_view()),
{
    let mut out: Vec<char> = Vec::new();
    let mut j: usize = 0;
    while j < terms.len()
        invariant
            j <= terms.len(),
            out@ == quoted_or(terms.deep_view().take(j as int)),
        decreases terms.len() - j,
    {
        let ghost before = out@;
        let ghost ts = terms.deep_view().take(j as int + 1);
        assert(ts.drop_last() =~= terms.deep_view().take(j as int));
        if j > 0 {
            out.push(' ');
            out.push('O');
            out.push('R');
            out.push(' ');
        }
        out.push('"');
        let cs = crate::text::chars_of(terms[j].as_str());
        let mut k: usize = 0;
        assert(cs@.take(0) =~= Seq::<char>::empty());
        while k < cs.len()
            invariant
                k <= cs.len(),
                out@ == (if j > 0 { before + seq![' ', 'O', 'R', ' '] } else { before }) + seq!['"']
                    + escape_quotes(cs@.take(k as int)),
            decreases cs.len() - k,
        {
            assert(cs@.take(k as int + 1).drop_last() =~= cs@.take(k as int));
            if cs[k] == '"' {
                out.push('"');
            }
            out.push(cs[k]);
            k = k + 1;
            assert(out@ =~= (if j > 0 { before + seq![' ', 'O', 'R', ' '] } else { before })
                + seq!['"'] + escape_quotes(cs@.take(k as int)));
        }
        out.push('"');
        assert(cs@.take(cs.len() as int) =~= cs@);
        assert(terms.deep_view()[j as int] == terms[j as int]@);
        j = j + 1;
        assert(out@ =~= quoted_or(terms.deep_view().take(j as int)));
    }
    assert(terms.deep_view().take(terms.len() as int) =~= terms.deep_view());
    string_from_chars(&out)
}

/// Escaping a term character by character, from the front.
proof fn lemma_escape_front(t: Seq<char>)
    requires
        t.len() > 0,
    ensures
        escape_quotes(t) == escaped_char(t[0]) + escape_quotes(t.drop_first()),
    decreases t.len(),
{
    if t.len() == 1 {
        assert(t.drop_last() =~= Seq::<char>::empty());
        assert(t.drop_first() =~= Seq::<char>::empty());
        assert(escape_quotes(t) =~= escaped_char(t[0]) + escape_quotes(t.drop_first()));
    } else {
        lemma_escape_front(t.drop_last());
        assert(t.drop_last().drop_first() =~= t.drop_first().drop_last());
        assert(t.drop_first().last() == t.last());
        assert(escape_quotes(t) =~= escaped_char(t[0]) + escape_quotes(t.drop_first()));
    }
}

/// A quoted term cannot be escaped out of: read as an FTS5 string literal,
/// the text after the opening quote closes exactly at the closing quote the
/// term was given, whatever characters (quotes included) the term holds.
pub proof fn law_quoted_term_closes_at_its_own_quote(t: Seq<char>)
    ensures
        literal_body_len(escape_quotes(t) + seq!['"']) == escape_quotes(t).len(),
        quoted(t) == seq!['"'] + escape_quotes(t) + seq!['"'],
    decreases t.len(),
{
    if t.len() == 0 {
        assert(escape_quotes(t) + seq!['"'] =~= seq!['"']);
    } else {
        let rest = t.drop_first();
        lemma_escape_front(t);
        law_quoted_term_closes_at_its_own_quote(rest);
        let s = escape_quotes(t) + seq!['"'];
        if t[0] == '"' {
            assert(s =~= seq!['"', '"'] + (escape_quotes(rest) + seq!['"']));
            assert(s.skip(2) =~= escape_quotes(rest) + seq!['"']);
        } else {
            assert(s =~= seq![t[0]] + (escape_quotes(rest) + seq!['"']));
            assert(s.drop_first() =~= escape_quotes(rest) + seq!['"']);
        }
    }
}

/// Text without a double quote is its own literal body.
pub proof fn law_escape_keeps_quote_free_text(t: Seq<char>)
    requires
        forall|i: int| 0 <= i < t.len() ==> t[i] != '"',
    ensures
        escape_quotes(t) == t,
    decreases t.len(),
{
    if t.len() > 0 {
        law_escape_keeps_quote_free_text(t.drop_last());
        assert(escape_quotes(t) =~= t);
    }
}

/// Every term occurs once, and there are at most `MAX_TERMS` of them.
pub proof fn law_match_terms_distinct_and_bounded(query: Seq<char>)
    ensures
        no_repeats(match_terms(query)),
        match_terms(query).len() <= MAX_TERMS,
{
    lemma_distinct(lowercase_all(words_of(query)));
}

} // verus!
