//! The Model Context Protocol server's decisions: which protocol revisions
//! are answered, which requests are refused and why, and which method or
//! tool a request names. Reading JSON-RPC lines and writing replies happen
//! outside.

use vstd::prelude::*;
use vstd::string::StringExecFns;

use crate::json::{
    args_of_members, args_view, json_parse, member, member_args, member_of, members_view,
    object_members, object_members_of, opt_view, parse_json, text_in, text_in_of, Arg, ArgView,
    Json, JsonView,
};
use crate::text::{same_text, trim, trim_ws};

verus! {

/// The stateless revision this server implements.
pub const MODERN_VERSION: &'static str = "2026-07-28";

/// Handshake-based revisions still answered, newest first.
pub const LEGACY_NEWEST: &'static str = "2025-11-25";

pub const LEGACY_MIDDLE: &'static str = "2025-06-18";

pub const LEGACY_OLDEST: &'static str = "2025-03-26";

/// JSON-RPC and MCP error codes.
pub const INVALID_PARAMS: i64 = -32602;

pub const METHOD_NOT_FOUND: i64 = -32601;

pub const PARSE_ERROR: i64 = -32700;

pub const UNSUPPORTED_PROTOCOL_VERSION: i64 = -32022;

pub open spec fn is_legacy_version(v: Seq<char>) -> bool {
    v == LEGACY_NEWEST@ || v == LEGACY_MIDDLE@ || v == LEGACY_OLDEST@
}

/// A revision this server answers.
pub open spec fn is_known_version(v: Seq<char>) -> bool {
    v == MODERN_VERSION@ || is_legacy_version(v)
}

pub fn known_version(v: &str) -> (b: bool)
    ensures
        b == is_known_version(v@),
{
    same_text(v, MODERN_VERSION) || same_text(v, LEGACY_NEWEST) || same_text(v, LEGACY_MIDDLE)
        || same_text(v, LEGACY_OLDEST)
}

/// The verdict on a request's protocol metadata.
#[derive(Debug, Clone, Copy, PartialEq, Eq, Structural)]
pub enum ProtocolCheck {
    Accepted,
    /// The request names a revision this server does not answer.
    UnsupportedVersion,
    /// A modern request without the client capabilities it must carry.
    MissingCapabilities,
}

pub open spec fn spec_check_protocol(
    version: Option<Seq<char>>,
    has_capabilities: bool,
    method: Seq<char>,
) -> ProtocolCheck {
    match version {
        None => ProtocolCheck::Accepted,
        Some(v) => if !is_known_version(v) {
            ProtocolCheck::UnsupportedVersion
        } else if method != "server/discover"@ && v == MODERN_VERSION@ && !has_capabilities {
            ProtocolCheck::MissingCapabilities
        } else {
            ProtocolCheck::Accepted
        },
    }
}

/// Check a request's protocol version (from its `_meta`) before serving it.
/// A request without one comes from the handshake era and is served as it
/// always was; `server/discover` is answered even without capabilities.
pub fn check_protocol(version: Option<&str>, has_capabilities: bool, method: &str) -> (r:
    ProtocolCheck)
    ensures
        r == spec_check_protocol(
            match version {
                Some(v) => Some(v@),
                None => None,
            },
            has_capabilities,
            method@,
        ),
{
    match version {
        None => ProtocolCheck::Accepted,
        Some(v) => {
            if !known_version(v) {
                ProtocolCheck::UnsupportedVersion
            } else if !same_text(method, "server/discover") && same_text(v, MODERN_VERSION)
                && !has_capabilities {
                ProtocolCheck::MissingCapabilities
            } else {
                ProtocolCheck::Accepted
            }
        },
    }
}

/// The revision an `initialize` answers with: the one the client asked for
/// when it is answered here, otherwise the newest handshake revision.
pub fn negotiated_version(asked: Option<&str>) -> (v: &'static str)
    ensures
        match asked {
            Some(a) => if is_known_version(a@) {
                v@ == a@
            } else {
                v@ == LEGACY_NEWEST@
            },
            None => v@ == LEGACY_NEWEST@,
        },
{
    match asked {
        Some(a) => {
            if same_text(a, MODERN_VERSION) {
                MODERN_VERSION
            } else if same_text(a, LEGACY_NEWEST) {
                LEGACY_NEWEST
            } else if same_text(a, LEGACY_MIDDLE) {
                LEGACY_MIDDLE
            } else if same_text(a, LEGACY_OLDEST) {
                LEGACY_OLDEST
            } else {
                LEGACY_NEWEST
            }
        },
        None => LEGACY_NEWEST,
    }
}

/// The methods the server answers.
#[derive(Debug, Clone, Copy, PartialEq, Eq, Structural)]
pub enum McpMethod {
    Initialize,
    Discover,
    ToolsList,
    ToolsCall,
    Ping,
    Unknown,
}

pub open spec fn spec_method(name: Seq<char>) -> McpMethod {
    if name == "initialize"@ {
        McpMethod::Initialize
    } else if name == "server/discover"@ {
        McpMethod::Discover
    } else if name == "tools/list"@ {
        McpMethod::ToolsList
    } else if name == "tools/call"@ {
        McpMethod::ToolsCall
    } else if name == "ping"@ {
        McpMethod::Ping
    } else {
        McpMethod::Unknown
    }
}

pub fn method_named(name: &str) -> (m: McpMethod)
    ensures
        m == spec_method(name@),
{
    if same_text(name, "initialize") {
        McpMethod::Initialize
    } else if same_text(name, "server/discover") {
        McpMethod::Discover
    } else if same_text(name, "tools/list") {
        McpMethod::ToolsList
    } else if same_text(name, "tools/call") {
        McpMethod::ToolsCall
    } else if same_text(name, "ping") {
        McpMethod::Ping
    } else {
        McpMethod::Unknown
    }
}

/// The tools the server offers.
#[derive(Debug, Clone, Copy, PartialEq, Eq, Structural)]
pub enum Tool {
    Search,
    Ask,
    Status,
    Unknown,
}

pub open spec fn spec_tool(name: Seq<char>) -> Tool {
    if name == "search"@ {
        Tool::Search
    } else if name == "ask"@ {
        Tool::Ask
    } else if name == "status"@ {
        Tool::Status
    } else {
        Tool::Unknown
    }
}

pub fn tool_named(name: &str) -> (t: Tool)
    ensures
        t == spec_tool(name@),
{
    if same_text(name, "search") {
        Tool::Search
    } else if same_text(name, "ask") {
        Tool::Ask
    } else if same_text(name, "status") {
        Tool::Status
    } else {
        Tool::Unknown
    }
}

/// The `_meta` key that names a request's protocol revision.
pub const META_PROTOCOL_VERSION: &'static str = "io.modelcontextprotocol/protocolVersion";

/// The `_meta` key that carries the client's capabilities.
pub const META_CLIENT_CAPABILITIES: &'static str = "io.modelcontextprotocol/clientCapabilities";

/// A JSON-RPC request, as much of it as the server reads.
#[derive(Debug, Clone, PartialEq, Eq)]
pub struct Request {
    /// The request's id, as JSON text; `None` for a notification.
    pub id: Option<String>,
    /// The method named, or empty when it names none.
    pub method: String,
    /// The revision named in `params._meta`.
    pub protocol_version: Option<String>,
    /// Whether `params._meta` carries client capabilities.
    pub has_capabilities: bool,
    /// The revision an `initialize` asks for (`params.protocolVersion`).
    pub asked_version: Option<String>,
    /// The tool a `tools/call` names (`params.name`).
    pub tool: Option<String>,
    /// A tool call's arguments (`params.arguments`), when they form an object.
    pub arguments: Vec<(String, Arg)>,
}

/// The model of [`Request`].
pub struct RequestView {
    pub id: Option<Seq<char>>,
    pub method: Seq<char>,
    pub protocol_version: Option<Seq<char>>,
    pub has_capabilities: bool,
    pub asked_version: Option<Seq<char>>,
    pub tool: Option<Seq<char>>,
    pub arguments: Seq<(Seq<char>, ArgView)>,
}

impl View for Request {
    type V = RequestView;

    open spec fn view(&self) -> RequestView {
        RequestView {
            id: opt_view(self.id),
            method: self.method@,
            protocol_version: opt_view(self.protocol_version),
            has_capabilities: self.has_capabilities,
            asked_version: opt_view(self.asked_version),
            tool: opt_view(self.tool),
            arguments: args_view(self.arguments@),
        }
    }
}

/// The members of a parsed message; a message that is not an object has none.
pub open spec fn top_members(j: JsonView) -> Seq<(Seq<char>, Seq<char>)> {
    match j {
        JsonView::Object(m) => m,
        _ => Seq::empty(),
    }
}

/// What a request with these members says.
pub open spec fn spec_request(m: Seq<(Seq<char>, Seq<char>)>) -> RequestView {
    let params = object_members(member(m, "params"@));
    let meta = object_members(member(params, "_meta"@));
    RequestView {
        id: member(m, "id"@),
        method: match text_in(member(m, "method"@)) {
            Some(s) => s,
            None => Seq::empty(),
        },
        protocol_version: text_in(member(meta, META_PROTOCOL_VERSION@)),
        has_capabilities: member(meta, META_CLIENT_CAPABILITIES@) is Some,
        asked_version: text_in(member(params, "protocolVersion"@)),
        tool: text_in(member(params, "name"@)),
        arguments: member_args(object_members(member(params, "arguments"@))),
    }
}

/// Read a request out of the members of a parsed message.
pub fn read_request(m: &Vec<(String, String)>) -> (q: Request)
    ensures
        q@ == spec_request(members_view(m@)),
{
    let params = object_members_of(member_of(m, "params"));
    let meta = object_members_of(member_of(&params, "_meta"));
    let method = match text_in_of(member_of(m, "method")) {
        Some(s) => s,
        None => String::new(),
    };
    let arguments = args_of_members(&object_members_of(member_of(&params, "arguments")));
    Request {
        id: member_of(m, "id"),
        method,
        protocol_version: text_in_of(member_of(&meta, META_PROTOCOL_VERSION)),
        has_capabilities: member_of(&meta, META_CLIENT_CAPABILITIES).is_some(),
        asked_version: text_in_of(member_of(&params, "protocolVersion")),
        tool: text_in_of(member_of(&params, "name")),
        arguments,
    }
}

/// What a line from the client gets back.
#[derive(Debug, Clone, PartialEq, Eq)]
pub enum Framing {
    /// A blank line, or a notification: nothing is sent.
    Silence,
    /// A line that is not JSON: a parse error with a null id, carrying
    /// serde_json's description of what is wrong.
    ParseError(String),
    /// A request to answer, with its id.
    Reply(Request),
}

/// Frame one line from the client. JSON-RPC notifications carry no id and
/// must not be answered; a blank line is not a message; a line that does not
/// parse is answered with an error.
pub fn frame_line(line: &str) -> (f: Framing)
    ensures
        trim_ws(line@).len() == 0 ==> f is Silence,
        trim_ws(line@).len() > 0 && json_parse(trim_ws(line@)) is None ==> f is ParseError,
        trim_ws(line@).len() > 0 ==> match json_parse(trim_ws(line@)) {
            Some(j) => match f {
                Framing::Reply(q) => q@ == spec_request(top_members(j)) && q@.id is Some,
                Framing::Silence => spec_request(top_members(j)).id is None,
                Framing::ParseError(_) => false,
            },
            None => true,
        },
{
    let t = trim(line);
    if t.as_str().is_empty() {
        return Framing::Silence;
    }
    match parse_json(t.as_str()) {
        Err(e) => Framing::ParseError(e),
        Ok(j) => {
            let members = match j {
                Json::Object(m) => m,
                _ => {
                    assert(members_view(Seq::<(String, String)>::empty()) =~= Seq::empty());
                    Vec::new()
                },
            };
            let request = read_request(&members);
            if request.id.is_some() {
                Framing::Reply(request)
            } else {
                Framing::Silence
            }
        },
    }
}

/// A required string argument: present and not blank. Unlike the HTTP
/// endpoint's arguments it is passed on as given, untrimmed.
pub fn required_text(value: Option<&str>) -> (r: Option<String>)
    ensures
        match value {
            Some(v) => if trim_ws(v@).len() > 0 {
                r matches Some(s) && s@ == v@
            } else {
                r is None
            },
            None => r is None,
        },
{
    match value {
        None => None,
        Some(v) => {
            let t = trim(v);
            if t.as_str().is_empty() {
                None
            } else {
                Some(String::from_str(v))
            }
        },
    }
}

} // verus!
