//! The request-level logic of the HTTP endpoint: who may ask, which route a
//! request names, how a query string is read, and what a refusal looks like.
//! how a request's arguments are gathered from its query string and JSON
//! body. Listening on a socket and serialising JSON values happen outside.

use vstd::prelude::*;
use vstd::string::StringExecFns;
use vstd::utf8::*;

use crate::json::{
    arg_named, args_view, first_string, json_parse, member_args, parse_json, spec_first_string,
    Arg, ArgView, Json, JsonView,
};
use crate::text::{
    ascii_lower, chars_of, from_utf8_lossy, rsplit_once, same_text, spec_is_whitespace,
    split_once, strip_prefix, trim, trim_ws, utf8_lossy, find_char, rfind_char,
};

verus! {

/// Where the endpoint listens unless told otherwise.
pub const DEFAULT_BIND: &'static str = "127.0.0.1:8787";

pub struct HttpOptions {
    pub bind: String,
    /// Required as `Authorization: Bearer …` on every route but `/health`.
    pub token: Option<String>,
}

impl Default for HttpOptions {
    fn default() -> (o: Self)
        ensures
            o.bind@ == DEFAULT_BIND@,
            o.token is None,
    {
        HttpOptions { bind: String::from_str(DEFAULT_BIND), token: None }
    }
}

/// A JSON reply, ready to go out.
pub struct Reply {
    pub status: u16,
    pub body: String,
}

/// What `serde_json::to_string` makes of a string: the JSON string literal
/// that spells it.
pub uninterp spec fn json_quoted(s: Seq<char>) -> Seq<char>;

/// `serde_json::to_string` on a string slice, which cannot fail for one.
#[verifier::external_body]
fn json_string(s: &str) -> (r: String)
    ensures
        r@ == json_quoted(s@),
{
    match serde_json::to_string(s) {
        Ok(text) => text,
        Err(_) => String::new(),
    }
}

/// The body of an error reply: `{"error":"…"}`.
pub open spec fn error_body(message: Seq<char>) -> Seq<char> {
    "{\"error\":"@ + json_quoted(message) + "}"@
}

impl Reply {
    /// A 200 carrying an already serialised JSON body.
    pub fn ok(body: String) -> (r: Reply)
        ensures
            r.status == 200,
            r.body@ == body@,
    {
        Reply { status: 200, body }
    }

    /// An error reply: `status`, and a body naming the problem.
    pub fn error(status: u16, message: &str) -> (r: Reply)
        ensures
            r.status == status,
            r.body@ == error_body(message@),
    {
        let mut body = String::from_str("{\"error\":");
        let quoted = json_string(message);
        body.append(quoted.as_str());
        body.append("}");
        Reply { status, body }
    }
}

/// The routes the endpoint answers.
#[derive(PartialEq, Eq, Structural, Clone, Copy, Debug)]
pub enum Route {
    /// `/health`, open to anyone and with any method.
    Health,
    Status,
    Search,
    Ask,
    /// A GET or POST to a path that is not served.
    NotFound,
    /// Any other method.
    NotAllowed,
}

pub open spec fn route_of(method: Seq<char>, path: Seq<char>) -> Route {
    if path == "/health"@ {
        Route::Health
    } else if method == "GET"@ && path == "/status"@ {
        Route::Status
    } else if (method == "GET"@ || method == "POST"@) && path == "/search"@ {
        Route::Search
    } else if (method == "GET"@ || method == "POST"@) && path == "/ask"@ {
        Route::Ask
    } else if method == "GET"@ || method == "POST"@ {
        Route::NotFound
    } else {
        Route::NotAllowed
    }
}

/// Which route a method and path name.
pub fn route(method: &str, path: &str) -> (r: Route)
    ensures
        r == route_of(method@, path@),
{
    let get = same_text(method, "GET");
    let post = same_text(method, "POST");
    if same_text(path, "/health") {
        Route::Health
    } else if get && same_text(path, "/status") {
        Route::Status
    } else if (get || post) && same_text(path, "/search") {
        Route::Search
    } else if (get || post) && same_text(path, "/ask") {
        Route::Ask
    } else if get || post {
        Route::NotFound
    } else {
        Route::NotAllowed
    }
}

/// A URL split at its first `?` into the path and the query string.
pub fn split_url(url: &str) -> (r: (String, String))
    ensures
        find_char(url@, '?') < 0 ==> r.0@ == url@ && r.1@ == Seq::<char>::empty(),
        find_char(url@, '?') >= 0 ==> r.0@ == url@.take(find_char(url@, '?')) && r.1@ == url@.skip(
            find_char(url@, '?') + 1,
        ),
{
    match split_once(url, '?') {
        Some((path, query)) => (path, query),
        None => (String::from_str(url), String::new()),
    }
}

/// The reply to a GET or POST naming no route.
pub fn not_found(path: &str) -> (r: Reply)
    ensures
        r.status == 404,
        r.body@ == error_body("no route "@ + path@ + "; try /search, /ask, /status or /health"@),
{
    let mut message = String::from_str("no route ");
    message.append(path);
    message.append("; try /search, /ask, /status or /health");
    Reply::error(404, message.as_str())
}

/// The reply to a method the endpoint does not take.
pub fn not_allowed(method: &str, path: &str) -> (r: Reply)
    ensures
        r.status == 405,
        r.body@ == error_body(method@ + " is not allowed on "@ + path@),
{
    let mut message = String::from_str(method);
    message.append(" is not allowed on ");
    message.append(path);
    Reply::error(405, message.as_str())
}

/// The reply to a request without the right token.
pub fn unauthorized() -> (r: Reply)
    ensures
        r.status == 401,
        r.body@ == error_body("missing or wrong bearer token"@),
{
    Reply::error(401, "missing or wrong bearer token")
}

/// Whether a request carrying the `Authorization` header `auth` may pass:
/// always when no token is configured, and otherwise only with
/// `Bearer <token>`, whitespace around the token aside.
pub open spec fn is_authorized(token: Option<Seq<char>>, auth: Option<Seq<char>>) -> bool {
    match token {
        None => true,
        Some(t) => match auth {
            None => false,
            Some(a) => "Bearer "@.is_prefix_of(a) && trim_ws(a.skip(7)) == t,
        },
    }
}

pub fn authorized(token: &Option<String>, auth: Option<&str>) -> (b: bool)
    ensures
        b == is_authorized(
            match token {
                Some(t) => Some(t@),
                None => None,
            },
            match auth {
                Some(a) => Some(a@),
                None => None,
            },
        ),
{
    match token {
        None => true,
        Some(expected) => match auth {
            None => false,
            Some(value) => {
                proof {
                    reveal_strlit("Bearer ");
                }
                match strip_prefix(value, "Bearer ") {
                    None => false,
                    Some(rest) => {
                        let given = trim(rest.as_str());
                        constant_time_eq(given.as_str(), expected.as_str())
                    },
                }
            },
        },
    }
}

proof fn lemma_or_zero(d: u8, x: u8, y: u8)
    ensures
        (d | (x ^ y)) == 0 <==> (d == 0 && x == y),
{
    assert((d | (x ^ y)) == 0 <==> (d == 0 && x == y)) by (bit_vector);
}

/// Compare two strings, byte by byte over the whole length, without an early
/// exit that would reveal through timing how much of the token was right.
pub fn constant_time_eq(a: &str, b: &str) -> (r: bool)
    ensures
        r == (a@ == b@),
{
    let x = a.as_bytes();
    let y = b.as_bytes();
    proof {
        broadcast use encode_utf8_decode_utf8;
    }
    if x.len() != y.len() {
        assert(x@ != y@);
        return false;
    }
    let mut difference: u8 = 0;
    let mut i: usize = 0;
    while i < x.len()
        invariant
            x.len() == y.len(),
            i <= x.len(),
            difference == 0 <==> forall|j: int| 0 <= j < i ==> x@[j] == y@[j],
        decreases x.len() - i,
    {
        proof {
            lemma_or_zero(difference, x@[i as int], y@[i as int]);
        }
        difference = difference | (x[i] ^ y[i]);
        i = i + 1;
    }
    proof {
        if difference == 0 {
            assert(x@ =~= y@);
            assert(decode_utf8(x@) == a@);
            assert(decode_utf8(y@) == b@);
        }
    }
    difference == 0
}

/// The host part of a bind address: what precedes the last `:`, without the
/// brackets of an IPv6 literal.
pub open spec fn bind_host_of(bind: Seq<char>) -> Seq<char> {
    let host = if rfind_char(bind, ':') < 0 {
        bind
    } else {
        bind.take(rfind_char(bind, ':'))
    };
    crate::text::trim_end_char(crate::text::trim_start_char(host, '['), ']')
}

pub fn bind_host(bind: &str) -> (h: String)
    ensures
        h@ == bind_host_of(bind@),
{
    let host = match rsplit_once(bind, ':') {
        Some((host, _)) => host,
        None => String::from_str(bind),
    };
    let opened = crate::text::trim_start_matches(host.as_str(), '[');
    crate::text::trim_end_matches(opened.as_str(), ']')
}

/// Whether a host name is `localhost`, in any ASCII case.
pub fn is_localhost(host: &str) -> (b: bool)
    ensures
        b == (ascii_lower(host@) == seq!['l', 'o', 'c', 'a', 'l', 'h', 'o', 's', 't']),
{
    let lowered = crate::text::to_ascii_lowercase_chars(host);
    let target: Vec<char> = vec!['l', 'o', 'c', 'a', 'l', 'h', 'o', 's', 't'];
    assert(target@ =~= seq!['l', 'o', 'c', 'a', 'l', 'h', 'o', 's', 't']);
    if lowered.len() != target.len() {
        return false;
    }
    let mut i: usize = 0;
    while i < lowered.len()
        invariant
            lowered@ == ascii_lower(host@),
            target@ == seq!['l', 'o', 'c', 'a', 'l', 'h', 'o', 's', 't'],
            lowered.len() == target.len(),
            i <= lowered.len(),
            forall|j: int| 0 <= j < i ==> lowered@[j] == target@[j],
        decreases lowered.len() - i,
    {
        if lowered[i] != target[i] {
            assert(lowered@[i as int] != target@[i as int]);
            return false;
        }
        i = i + 1;
    }
    assert(lowered@ =~= target@);
    true
}

/// The refusal to serve an address that is not loopback without a token.
pub open spec fn exposure_refusal(bind: Seq<char>) -> Seq<char> {
    "refusing to serve "@ + bind
        + " without a token: every indexed file is readable through this endpoint. Set NPURAG_TOKEN (or pass --token), or bind "@
        + DEFAULT_BIND@ + " instead"@
}

/// Refuse to serve the index beyond loopback without a token. `loopback`
/// says whether the bind address names this machine only.
pub fn guard_exposure(options: &HttpOptions, loopback: bool) -> (r: Result<(), String>)
    ensures
        r is Ok <==> (options.token is Some || loopback),
        r matches Err(m) ==> m@ == exposure_refusal(options.bind@),
{
    if options.token.is_some() || loopback {
        return Ok(());
    }
    let mut message = String::from_str("refusing to serve ");
    message.append(options.bind.as_str());
    message.append(
        " without a token: every indexed file is readable through this endpoint. Set NPURAG_TOKEN (or pass --token), or bind ",
    );
    message.append(DEFAULT_BIND);
    message.append(" instead");
    Err(message)
}

} // verus!

verus! {

/// An ASCII hexadecimal digit.
pub open spec fn is_hex_digit(b: u8) -> bool {
    (0x30 <= b <= 0x39) || (0x41 <= b <= 0x46) || (0x61 <= b <= 0x66)
}

pub open spec fn hex_value(b: u8) -> int {
    if b <= 0x39 {
        b - 0x30
    } else if b <= 0x46 {
        b - 0x41 + 10
    } else {
        b - 0x61 + 10
    }
}

/// The byte written `%XY` stands for, when `X` and `Y` are both
/// hexadecimal digits.
pub open spec fn hex_pair(x: u8, y: u8) -> Option<u8> {
    if is_hex_digit(x) && is_hex_digit(y) {
        Some((16 * hex_value(x) + hex_value(y)) as u8)
    } else {
        None
    }
}

/// Query-string decoding of raw bytes: `+` is a space, `%XY` is the byte
/// `XY`, and a `%` that does not start a valid escape stays as it is.
pub open spec fn decode_bytes(b: Seq<u8>) -> Seq<u8>
    decreases b.len(),
{
    if b.len() == 0 {
        Seq::empty()
    } else if b[0] == 0x2b {
        seq![0x20u8] + decode_bytes(b.drop_first())
    } else if b[0] == 0x25 && b.len() > 2 && hex_pair(b[1], b[2]) is Some {
        seq![hex_pair(b[1], b[2])->0] + decode_bytes(b.subrange(3, b.len() as int))
    } else {
        seq![b[0]] + decode_bytes(b.drop_first())
    }
}

/// The text a query-string component decodes to.
pub open spec fn percent_decoded(s: Seq<char>) -> Seq<char> {
    utf8_lossy(decode_bytes(encode_utf8(s)))
}

fn hex_digit_value(b: u8) -> (r: Option<u8>)
    ensures
        r is Some <==> is_hex_digit(b),
        r matches Some(v) ==> v == hex_value(b) && v < 16,
{
    if 0x30 <= b && b <= 0x39 {
        Some(b - 0x30)
    } else if 0x41 <= b && b <= 0x46 {
        Some(b - 0x41 + 10)
    } else if 0x61 <= b && b <= 0x66 {
        Some(b - 0x61 + 10)
    } else {
        None
    }
}

fn decode_pair(x: u8, y: u8) -> (r: Option<u8>)
    ensures
        r == hex_pair(x, y),
{
    match (hex_digit_value(x), hex_digit_value(y)) {
        (Some(high), Some(low)) => Some(16 * high + low),
        _ => None,
    }
}

/// Undo the encoding a query-string component arrives in. Text without `%`
/// or `+` comes back unchanged.
pub fn percent_decode(text: &str) -> (r: String)
    ensures
        r@ == percent_decoded(text@),
        valid_utf8(decode_bytes(encode_utf8(text@))) ==> r@ == decode_utf8(
            decode_bytes(encode_utf8(text@)),
        ),
        (forall|i: int| 0 <= i < text@.len() ==> #[trigger] text@[i] != '%' && text@[i] != '+')
            ==> r@ == text@,
{
    let bytes = text.as_bytes();
    let ghost b = bytes@;
    let n = bytes.len();
    let mut out: Vec<u8> = Vec::new();
    let mut i: usize = 0;
    assert(b.subrange(0, n as int) =~= b);
    assert(out@ + decode_bytes(b) =~= decode_bytes(b));
    while i < n
        invariant
            b == bytes@,
            n == b.len(),
            i <= n,
            decode_bytes(b) == out@ + decode_bytes(b.subrange(i as int, n as int)),
        decreases n - i,
    {
        let ghost t = b.subrange(i as int, n as int);
        assert(t[0] == b[i as int]);
        if bytes[i] == 0x2b {
            assert(t.drop_first() =~= b.subrange(i + 1, n as int));
            out.push(0x20);
            i = i + 1;
        } else if bytes[i] == 0x25 && n - i > 2 {
            assert(t[1] == b[i + 1] && t[2] == b[i + 2]);
            match decode_pair(bytes[i + 1], bytes[i + 2]) {
                Some(byte) => {
                    assert(t.subrange(3, t.len() as int) =~= b.subrange(i + 3, n as int));
                    out.push(byte);
                    i = i + 3;
                },
                None => {
                    assert(t.drop_first() =~= b.subrange(i + 1, n as int));
                    out.push(0x25);
                    i = i + 1;
                },
            }
        } else {
            assert(t.drop_first() =~= b.subrange(i + 1, n as int));
            out.push(bytes[i]);
            i = i + 1;
        }
        assert(decode_bytes(b) =~= out@ + decode_bytes(b.subrange(i as int, n as int)));
    }
    assert(b.subrange(n as int, n as int) =~= Seq::<u8>::empty());
    assert(decode_bytes(b) =~= out@);
    proof {
        if forall|i: int| 0 <= i < text@.len() ==> #[trigger] text@[i] != '%' && text@[i] != '+' {
            crate::text::lemma_ascii_absent_from_encoding(text@, '%', '+');
            assert forall|i: int| 0 <= i < b.len() implies #[trigger] b[i] != 0x25 && b[i] != 0x2b by {
                assert(b[i] != ('%' as u32) as u8);
                assert(b[i] != ('+' as u32) as u8);
            }
            lemma_decode_plain(b);
            broadcast use encode_utf8_valid_utf8, encode_utf8_decode_utf8;
        }
    }
    from_utf8_lossy(out.as_slice())
}

/// Bytes with no `%` and no `+` decode to themselves.
proof fn lemma_decode_plain(b: Seq<u8>)
    requires
        forall|i: int| 0 <= i < b.len() ==> #[trigger] b[i] != 0x25 && b[i] != 0x2b,
    ensures
        decode_bytes(b) == b,
    decreases b.len(),
{
    if b.len() > 0 {
        let t = b.drop_first();
        assert forall|i: int| 0 <= i < t.len() implies #[trigger] t[i] != 0x25 && t[i] != 0x2b by {
            assert(t[i] == b[i + 1]);
        }
        lemma_decode_plain(t);
        assert(decode_bytes(b) =~= seq![b[0]] + t);
    }
}

} // verus!

verus! {

/// Reading `s` and cutting it at each `sep`: the non-empty pieces completed so
/// far, and the piece still being read.
pub open spec fn field_state(s: Seq<char>, sep: char) -> (Seq<Seq<char>>, Seq<char>)
    decreases s.len(),
{
    if s.len() == 0 {
        (Seq::empty(), Seq::empty())
    } else {
        let (done, cur) = field_state(s.drop_last(), sep);
        if s.last() != sep {
            (done, cur.push(s.last()))
        } else if cur.len() == 0 {
            (done, cur)
        } else {
            (done.push(cur), Seq::empty())
        }
    }
}

/// The non-empty pieces of `s` between occurrences of `sep`.
pub open spec fn fields(s: Seq<char>, sep: char) -> Seq<Seq<char>> {
    let (done, cur) = field_state(s, sep);
    if cur.len() == 0 {
        done
    } else {
        done.push(cur)
    }
}

/// The name in a `name=value` pair; the whole pair when it has no `=`.
pub open spec fn key_of(pair: Seq<char>) -> Seq<char> {
    if find_char(pair, '=') < 0 {
        pair
    } else {
        pair.take(find_char(pair, '='))
    }
}

/// The value in a `name=value` pair; empty when it has no `=`.
pub open spec fn value_of(pair: Seq<char>) -> Seq<char> {
    if find_char(pair, '=') < 0 {
        Seq::empty()
    } else {
        pair.skip(find_char(pair, '=') + 1)
    }
}

/// The non-empty pieces of `s` between occurrences of `sep`.
pub fn fields_of(s: &str, sep: char) -> (v: Vec<String>)
    ensures
        v.deep_view() == fields(s@, sep),
{
    let cs = chars_of(s);
    let mut done: Vec<String> = Vec::new();
    let mut cur: Vec<char> = Vec::new();
    let mut i: usize = 0;
    while i < cs.len()
        invariant
            cs@ == s@,
            i <= cs.len(),
            done.deep_view() == field_state(cs@.take(i as int), sep).0,
            cur@ == field_state(cs@.take(i as int), sep).1,
        decreases cs.len() - i,
    {
        let c = cs[i];
        assert(cs@.take(i as int + 1).drop_last() =~= cs@.take(i as int));
        assert(cs@.take(i as int + 1).last() == c);
        if c != sep {
            cur.push(c);
        } else if cur.len() > 0 {
            let w = crate::text::string_from_chars(&cur);
            done.push(w);
            assert(done.deep_view() =~= field_state(cs@.take(i as int + 1), sep).0);
            cur = Vec::new();
        }
        i = i + 1;
    }
    assert(cs@.take(cs.len() as int) =~= cs@);
    if cur.len() > 0 {
        let w = crate::text::string_from_chars(&cur);
        done.push(w);
        assert(done.deep_view() =~= fields(s@, sep));
    }
    done
}

/// A `name=value` pair split at its first `=`.
fn split_pair(pair: &str) -> (r: (String, String))
    ensures
        r.0@ == key_of(pair@),
        r.1@ == value_of(pair@),
{
    match split_once(pair, '=') {
        Some((key, value)) => (key, value),
        None => (String::from_str(pair), String::new()),
    }
}

/// The decoded `(name, value)` pairs of a query string, in order. Pieces
/// without `=` have an empty value; empty pieces are skipped.
pub fn query_parameters(query: &str) -> (r: Vec<(String, String)>)
    ensures
        r.len() == fields(query@, '&').len(),
        forall|i: int|
            0 <= i < r.len() ==> (#[trigger] r[i]).0@ == percent_decoded(
                key_of(fields(query@, '&')[i]),
            ) && r[i].1@ == percent_decoded(value_of(fields(query@, '&')[i])),
{
    let pairs = fields_of(query, '&');
    let mut out: Vec<(String, String)> = Vec::new();
    let mut i: usize = 0;
    while i < pairs.len()
        invariant
            pairs.deep_view() == fields(query@, '&'),
            i <= pairs.len(),
            out.len() == i,
            forall|j: int|
                0 <= j < i ==> (#[trigger] out[j]).0@ == percent_decoded(
                    key_of(fields(query@, '&')[j]),
                ) && out[j].1@ == percent_decoded(value_of(fields(query@, '&')[j])),
        decreases pairs.len() - i,
    {
        assert(pairs.deep_view()[i as int] == pairs[i as int]@);
        let (key, value) = split_pair(pairs[i].as_str());
        let k = percent_decode(key.as_str());
        let v = percent_decode(value.as_str());
        out.push((k, v));
        i = i + 1;
    }
    out
}

/// The arguments a query string carries, in order, each value a string.
pub open spec fn query_args(query: Seq<char>) -> Seq<(Seq<char>, ArgView)> {
    Seq::new(
        fields(query, '&').len(),
        |i: int|
            (
                percent_decoded(key_of(fields(query, '&')[i])),
                ArgView::Text(percent_decoded(value_of(fields(query, '&')[i]))),
            ),
    )
}

/// Collect a request's arguments: those of the query string, then, for a
/// `POST` with a body, the members of the JSON object the body holds. Later
/// arguments override earlier ones, so the body wins over the query string.
pub fn parameters(method: &str, query: &str, body: &str) -> (r: Result<Vec<(String, Arg)>, String>)
    ensures
        !(method@ == "POST"@ && trim_ws(body@).len() > 0) ==> (r matches Ok(a) && args_view(a@)
            == query_args(query@)),
        method@ == "POST"@ && trim_ws(body@).len() > 0 ==> match json_parse(body@) {
            None => r matches Err(m) && m@ == "the request body is not JSON"@,
            Some(JsonView::Object(fields)) => r matches Ok(a) && args_view(a@) == query_args(
                query@,
            ) + member_args(fields),
            Some(_) => r matches Err(m) && m@ == "the request body must be a JSON object"@,
        },
{
    let pairs = query_parameters(query);
    let mut args: Vec<(String, Arg)> = Vec::new();
    let mut i: usize = 0;
    while i < pairs.len()
        invariant
            i <= pairs.len(),
            pairs.len() == fields(query@, '&').len(),
            forall|j: int|
                0 <= j < pairs.len() ==> (#[trigger] pairs[j]).0@ == percent_decoded(
                    key_of(fields(query@, '&')[j]),
                ) && pairs[j].1@ == percent_decoded(value_of(fields(query@, '&')[j])),
            args.len() == i,
            forall|j: int|
                0 <= j < i ==> (#[trigger] args@[j]).0@ == pairs[j].0@ && args@[j].1@
                    == ArgView::Text(pairs[j].1@),
        decreases pairs.len() - i,
    {
        args.push((pairs[i].0.clone(), Arg::Text(pairs[i].1.clone())));
        i = i + 1;
    }
    assert(args_view(args@) =~= query_args(query@));
    let blank = trim(body).as_str().is_empty();
    if !same_text(method, "POST") || blank {
        return Ok(args);
    }
    match parse_json(body) {
        Err(_) => Err(String::from_str("the request body is not JSON")),
        Ok(Json::Object(members)) => {
            crate::json::append_member_args(&mut args, &members);
            Ok(args)
        },
        Ok(_) => Err(String::from_str("the request body must be a JSON object")),
    }
}

/// An argument the body names overrides the one of that name in the query
/// string; one it does not name is read from the query string.
pub proof fn law_body_overrides_query(
    query: Seq<(Seq<char>, ArgView)>,
    body: Seq<(Seq<char>, ArgView)>,
    key: Seq<char>,
)
    ensures
        arg_named(query + body, key) == (if arg_named(body, key) is Some {
            arg_named(body, key)
        } else {
            arg_named(query, key)
        }),
    decreases body.len(),
{
    if body.len() == 0 {
        assert(query + body =~= query);
    } else {
        assert((query + body).drop_last() =~= query + body.drop_last());
        law_body_overrides_query(query, body.drop_last(), key);
    }
}

/// The first of `keys` that carries a non-blank string, trimmed; otherwise
/// an error naming the first key.
pub fn required(args: &Vec<(String, Arg)>, keys: &[&str]) -> (r: Result<String, String>)
    requires
        keys.len() > 0,
    ensures
        match spec_first_string(args_view(args@), keys@.map_values(|k: &str| k@)) {
            Some(s) => r matches Ok(v) && v@ == s,
            None => r matches Err(m) && m@ == "`"@ + keys@[0]@ + "` is required"@,
        },
{
    match first_string(args, keys) {
        Some(s) => Ok(s),
        None => {
            let mut m = String::from_str("`");
            m.append(keys[0]);
            m.append("` is required");
            Err(m)
        },
    }
}

} // verus!
