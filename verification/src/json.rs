//! JSON as the servers read it: a parsed value one level deep, its members
//! kept as JSON text so that each can be read in turn, and the scalar
//! arguments that requests carry.

use serde_json::Value;
use vstd::prelude::*;

use crate::text::{nonblank, parse_usize, parsed_usize, same_text, trim, trim_ws};

verus! {

/// A JSON value, one level deep: arrays and objects hold the JSON text of
/// their members.
#[derive(Debug, Clone, PartialEq, Eq)]
pub enum Json {
    Null,
    Bool(bool),
    /// A number, as serde_json writes it.
    Number(String),
    Text(String),
    Array(Vec<String>),
    /// The members of an object, each with the JSON text of its value.
    Object(Vec<(String, String)>),
}

/// The model of [`Json`].
pub enum JsonView {
    Null,
    Bool(bool),
    Number(Seq<char>),
    Text(Seq<char>),
    Array(Seq<Seq<char>>),
    Object(Seq<(Seq<char>, Seq<char>)>),
}

/// The model of a list of named members.
pub open spec fn members_view(m: Seq<(String, String)>) -> Seq<(Seq<char>, Seq<char>)> {
    Seq::new(m.len(), |i: int| (m[i].0@, m[i].1@))
}

impl View for Json {
    type V = JsonView;

    open spec fn view(&self) -> JsonView {
        match self {
            Json::Null => JsonView::Null,
            Json::Bool(b) => JsonView::Bool(*b),
            Json::Number(n) => JsonView::Number(n@),
            Json::Text(s) => JsonView::Text(s@),
            Json::Array(items) => JsonView::Array(items.deep_view()),
            Json::Object(m) => JsonView::Object(members_view(m@)),
        }
    }
}

/// What serde_json parses `text` into, one level deep; `None` when the text
/// is not JSON.
pub uninterp spec fn json_parse(text: Seq<char>) -> Option<JsonView>;

/// `serde_json::from_str::<Value>`, with each member of an array or object
/// written back out as JSON text by `Value::to_string`; the error as
/// serde_json words it.
#[verifier::external_body]
pub fn parse_json(text: &str) -> (r: Result<Json, String>)
    ensures
        r is Ok <==> json_parse(text@) is Some,
        r matches Ok(j) ==> json_parse(text@) == Some(j@),
{
    match serde_json::from_str::<Value>(text) {
        Err(e) => Err(e.to_string()),
        Ok(Value::Null) => Ok(Json::Null),
        Ok(Value::Bool(b)) => Ok(Json::Bool(b)),
        Ok(Value::Number(n)) => Ok(Json::Number(n.to_string())),
        Ok(Value::String(s)) => Ok(Json::Text(s)),
        Ok(Value::Array(a)) => Ok(Json::Array(a.iter().map(|v| v.to_string()).collect())),
        Ok(Value::Object(m)) => Ok(Json::Object(
            m.into_iter().map(|(k, v)| (k, v.to_string())).collect(),
        )),
    }
}

/// An optional string, by its characters.
pub open spec fn opt_view(o: Option<String>) -> Option<Seq<char>> {
    match o {
        Some(s) => Some(s@),
        None => None,
    }
}

/// The value of the first member named `key`.
pub open spec fn member(m: Seq<(Seq<char>, Seq<char>)>, key: Seq<char>) -> Option<Seq<char>>
    decreases m.len(),
{
    if m.len() == 0 {
        None
    } else if m[0].0 == key {
        Some(m[0].1)
    } else {
        member(m.drop_first(), key)
    }
}

/// The value of the first member named `key`, as JSON text.
pub fn member_of(m: &Vec<(String, String)>, key: &str) -> (r: Option<String>)
    ensures
        opt_view(r) == member(members_view(m@), key@),
{
    let ghost mv = members_view(m@);
    let mut i: usize = 0;
    assert(mv.skip(0) =~= mv);
    while i < m.len()
        invariant
            mv == members_view(m@),
            i <= m.len(),
            member(mv, key@) == member(mv.skip(i as int), key@),
        decreases m.len() - i,
    {
        assert(mv.skip(i as int).drop_first() =~= mv.skip(i as int + 1));
        assert(mv.skip(i as int)[0] == mv[i as int]);
        if same_text(m[i].0.as_str(), key) {
            return Some(m[i].1.clone());
        }
        i = i + 1;
    }
    None
}

/// The members of the object that `text` holds; none when it is missing or
/// holds something else.
pub open spec fn object_members(text: Option<Seq<char>>) -> Seq<(Seq<char>, Seq<char>)> {
    match text {
        Some(t) => match json_parse(t) {
            Some(JsonView::Object(m)) => m,
            _ => Seq::empty(),
        },
        None => Seq::empty(),
    }
}

pub fn object_members_of(text: Option<String>) -> (m: Vec<(String, String)>)
    ensures
        members_view(m@) == object_members(opt_view(text)),
{
    match text {
        Some(t) => match parse_json(t.as_str()) {
            Ok(Json::Object(m)) => m,
            _ => {
                assert(members_view(Seq::<(String, String)>::empty()) =~= Seq::empty());
                Vec::new()
            },
        },
        None => {
            assert(members_view(Seq::<(String, String)>::empty()) =~= Seq::empty());
            Vec::new()
        },
    }
}

/// The string that the JSON text `text` holds, if it holds one.
pub open spec fn text_in(text: Option<Seq<char>>) -> Option<Seq<char>> {
    match text {
        Some(t) => match json_parse(t) {
            Some(JsonView::Text(s)) => Some(s),
            _ => None,
        },
        None => None,
    }
}

pub fn text_in_of(text: Option<String>) -> (r: Option<String>)
    ensures
        opt_view(r) == text_in(opt_view(text)),
{
    match text {
        Some(t) => match parse_json(t.as_str()) {
            Ok(Json::Text(s)) => Some(s),
            _ => None,
        },
        None => None,
    }
}

/// A request argument, as the handlers read it: a string, a number (as
/// serde_json writes it), or anything else.
#[derive(Debug, Clone, PartialEq, Eq)]
pub enum Arg {
    Text(String),
    Number(String),
    Other,
}

pub enum ArgView {
    Text(Seq<char>),
    Number(Seq<char>),
    Other,
}

impl View for Arg {
    type V = ArgView;

    open spec fn view(&self) -> ArgView {
        match self {
            Arg::Text(s) => ArgView::Text(s@),
            Arg::Number(n) => ArgView::Number(n@),
            Arg::Other => ArgView::Other,
        }
    }
}

/// The argument a member's JSON text holds.
pub open spec fn arg_in(text: Seq<char>) -> ArgView {
    match json_parse(text) {
        Some(JsonView::Text(s)) => ArgView::Text(s),
        Some(JsonView::Number(n)) => ArgView::Number(n),
        _ => ArgView::Other,
    }
}

/// Named arguments, in order.
pub open spec fn args_view(a: Seq<(String, Arg)>) -> Seq<(Seq<char>, ArgView)> {
    Seq::new(a.len(), |i: int| (a[i].0@, a[i].1@))
}

/// The arguments an object's members carry, in order.
pub open spec fn member_args(m: Seq<(Seq<char>, Seq<char>)>) -> Seq<(Seq<char>, ArgView)> {
    Seq::new(m.len(), |i: int| (m[i].0, arg_in(m[i].1)))
}

/// Read each member of an object as an argument, after those already in `a`.
pub fn append_member_args(a: &mut Vec<(String, Arg)>, m: &Vec<(String, String)>)
    ensures
        args_view(final(a)@) == args_view(old(a)@) + member_args(members_view(m@)),
{
    let ghost before = args_view(a@);
    let ghost n0 = a.len();
    let mut i: usize = 0;
    while i < m.len()
        invariant
            i <= m.len(),
            a.len() == n0 + i,
            n0 == before.len(),
            forall|j: int| 0 <= j < n0 ==> (#[trigger] args_view(a@)[j]) == before[j],
            forall|j: int|
                0 <= j < i ==> (#[trigger] a@[n0 + j]).0@ == m@[j].0@ && a@[n0 + j].1@ == arg_in(
                    m@[j].1@,
                ),
        decreases m.len() - i,
    {
        let arg = match parse_json(m[i].1.as_str()) {
            Ok(Json::Text(s)) => Arg::Text(s),
            Ok(Json::Number(n)) => Arg::Number(n),
            _ => Arg::Other,
        };
        let ghost prev = a@;
        a.push((m[i].0.clone(), arg));
        assert forall|j: int| 0 <= j < n0 implies (#[trigger] args_view(a@)[j]) == before[j] by {
            assert(a@[j] == prev[j]);
            assert(args_view(prev)[j] == before[j]);
        }
        i = i + 1;
    }
    let ghost want = before + member_args(members_view(m@));
    assert forall|j: int| 0 <= j < a.len() implies #[trigger] args_view(a@)[j] == want[j] by {
        if j >= n0 {
            let k = j - n0;
            assert(a@[n0 + k].0@ == m@[k].0@);
        }
    }
    assert(args_view(a@) =~= want);
}

/// Read each member of an object as an argument.
pub fn args_of_members(m: &Vec<(String, String)>) -> (a: Vec<(String, Arg)>)
    ensures
        args_view(a@) == member_args(members_view(m@)),
{
    let mut a: Vec<(String, Arg)> = Vec::new();
    append_member_args(&mut a, m);
    assert(args_view(Seq::<(String, Arg)>::empty()) =~= Seq::empty());
    assert(args_view(a@) =~= member_args(members_view(m@)));
    a
}

/// The last argument named `key`: later arguments override earlier ones.
pub open spec fn arg_named(a: Seq<(Seq<char>, ArgView)>, key: Seq<char>) -> Option<ArgView>
    decreases a.len(),
{
    if a.len() == 0 {
        None
    } else if a.last().0 == key {
        Some(a.last().1)
    } else {
        arg_named(a.drop_last(), key)
    }
}

/// The last argument named `key`.
pub fn arg_of<'a>(a: &'a Vec<(String, Arg)>, key: &str) -> (r: Option<&'a Arg>)
    ensures
        match r {
            Some(v) => arg_named(args_view(a@), key@) == Some(v@),
            None => arg_named(args_view(a@), key@) is None,
        },
{
    let ghost av = args_view(a@);
    let mut i: usize = a.len();
    assert(av.take(a.len() as int) =~= av);
    while i > 0
        invariant
            av == args_view(a@),
            i <= a.len(),
            arg_named(av, key@) == arg_named(av.take(i as int), key@),
        decreases i,
    {
        assert(av.take(i as int).drop_last() =~= av.take(i as int - 1));
        assert(av.take(i as int).last() == av[i as int - 1]);
        if same_text(a[i - 1].0.as_str(), key) {
            return Some(&a[i - 1].1);
        }
        i = i - 1;
    }
    assert(av.take(0) =~= Seq::<(Seq<char>, ArgView)>::empty());
    None
}

/// A string argument, untouched; `None` when it is missing or not a string.
pub open spec fn spec_text_arg(a: Seq<(Seq<char>, ArgView)>, key: Seq<char>) -> Option<Seq<char>> {
    match arg_named(a, key) {
        Some(ArgView::Text(s)) => Some(s),
        _ => None,
    }
}

pub fn text_arg(a: &Vec<(String, Arg)>, key: &str) -> (r: Option<String>)
    ensures
        opt_view(r) == spec_text_arg(args_view(a@), key@),
{
    match arg_of(a, key) {
        Some(Arg::Text(s)) => Some(s.clone()),
        _ => None,
    }
}

/// A string argument trimmed, `None` when it is missing, not a string, or
/// blank.
pub open spec fn spec_string_of(a: Seq<(Seq<char>, ArgView)>, key: Seq<char>) -> Option<Seq<char>> {
    match spec_text_arg(a, key) {
        Some(s) => if trim_ws(s).len() > 0 {
            Some(trim_ws(s))
        } else {
            None
        },
        None => None,
    }
}

pub fn string_of(a: &Vec<(String, Arg)>, key: &str) -> (r: Option<String>)
    ensures
        opt_view(r) == spec_string_of(args_view(a@), key@),
{
    match text_arg(a, key) {
        Some(s) => nonblank(s.as_str()),
        None => None,
    }
}

/// The first of `keys` that carries a non-blank string, trimmed.
pub open spec fn spec_first_string(a: Seq<(Seq<char>, ArgView)>, keys: Seq<Seq<char>>) -> Option<
    Seq<char>,
>
    decreases keys.len(),
{
    if keys.len() == 0 {
        None
    } else if spec_string_of(a, keys[0]) is Some {
        spec_string_of(a, keys[0])
    } else {
        spec_first_string(a, keys.drop_first())
    }
}

pub fn first_string(a: &Vec<(String, Arg)>, keys: &[&str]) -> (r: Option<String>)
    ensures
        opt_view(r) == spec_first_string(args_view(a@), keys@.map_values(|k: &str| k@)),
{
    let ghost ks = keys@.map_values(|k: &str| k@);
    let mut i: usize = 0;
    assert(ks.skip(0) =~= ks);
    while i < keys.len()
        invariant
            ks == keys@.map_values(|k: &str| k@),
            i <= keys.len(),
            spec_first_string(args_view(a@), ks) == spec_first_string(
                args_view(a@),
                ks.skip(i as int),
            ),
        decreases keys.len() - i,
    {
        assert(ks.skip(i as int).drop_first() =~= ks.skip(i as int + 1));
        assert(ks.skip(i as int)[0] == keys@[i as int]@);
        let found = string_of(a, keys[i]);
        if found.is_some() {
            return found;
        }
        i = i + 1;
    }
    None
}

/// A whole number: a JSON number that is a non-negative integer, or a string
/// that `str::parse::<usize>` reads once trimmed.
pub open spec fn spec_count(v: ArgView) -> Option<usize> {
    match v {
        ArgView::Number(n) => parsed_usize(n),
        ArgView::Text(s) => parsed_usize(trim_ws(s)),
        ArgView::Other => None,
    }
}

pub fn count(v: &Arg) -> (r: Option<usize>)
    ensures
        r == spec_count(v@),
{
    match v {
        Arg::Number(n) => parse_usize(n.as_str()),
        Arg::Text(s) => {
            let t = trim(s.as_str());
            parse_usize(t.as_str())
        },
        Arg::Other => None,
    }
}

/// A whole number given as a JSON number; a string does not count.
pub open spec fn spec_number(v: ArgView) -> Option<usize> {
    match v {
        ArgView::Number(n) => parsed_usize(n),
        _ => None,
    }
}

pub fn number(v: &Arg) -> (r: Option<usize>)
    ensures
        r == spec_number(v@),
{
    match v {
        Arg::Number(n) => parse_usize(n.as_str()),
        _ => None,
    }
}

} // verus!
