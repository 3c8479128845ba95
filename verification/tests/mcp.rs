use npurag::json::{arg_of, Arg};
use npurag::mcp::{
    check_protocol, frame_line, known_version, method_named, negotiated_version, required_text,
    tool_named, Framing, McpMethod, ProtocolCheck, Tool, LEGACY_NEWEST, MODERN_VERSION,
};

fn request_of(line: &str) -> npurag::mcp::Request {
    match frame_line(line) {
        Framing::Reply(request) => request,
        other => panic!("expected a request, got {other:?}"),
    }
}

#[test]
fn a_notification_is_never_answered() {
    assert_eq!(
        frame_line(r#"{"jsonrpc":"2.0","method":"notifications/initialized"}"#),
        Framing::Silence
    );
    assert_eq!(frame_line("   "), Framing::Silence);
    assert_eq!(frame_line(""), Framing::Silence);
    let ping = request_of(r#"{"jsonrpc":"2.0","id":1,"method":"ping"}"#);
    assert_eq!(ping.id.as_deref(), Some("1"));
    assert_eq!(ping.method, "ping");
}

#[test]
fn a_malformed_line_is_reported_rather_than_ignored() {
    match frame_line("{not json") {
        Framing::ParseError(message) => assert!(!message.is_empty()),
        other => panic!("expected a parse error, got {other:?}"),
    }
}

#[test]
fn a_message_that_is_not_an_object_carries_no_id() {
    assert_eq!(frame_line("[1, 2]"), Framing::Silence);
    assert_eq!(frame_line("42"), Framing::Silence);
}

#[test]
fn a_null_id_is_still_an_id() {
    let request = request_of(r#"{"jsonrpc":"2.0","id":null,"method":"tools/list"}"#);
    assert_eq!(request.id.as_deref(), Some("null"));
    assert_eq!(request.method, "tools/list");
    assert_eq!(request.protocol_version, None);
    assert!(!request.has_capabilities);
}

#[test]
fn a_tool_call_is_read_with_its_metadata_and_arguments() {
    let line = r#"  {"jsonrpc":"2.0","id":"a-7","method":"tools/call","params":{"name":"search",
        "arguments":{"query":"nightly backup","k":3,"path":null},
        "_meta":{"io.modelcontextprotocol/protocolVersion":"2026-07-28",
                 "io.modelcontextprotocol/clientCapabilities":{}}}}  "#;
    let request = request_of(line);
    assert_eq!(request.id.as_deref(), Some("\"a-7\""));
    assert_eq!(request.method, "tools/call");
    assert_eq!(request.tool.as_deref(), Some("search"));
    assert_eq!(request.protocol_version.as_deref(), Some(MODERN_VERSION));
    assert!(request.has_capabilities);
    assert_eq!(request.asked_version, None);
    assert_eq!(request.arguments.len(), 3);
    assert_eq!(arg_of(&request.arguments, "query"), Some(&Arg::Text("nightly backup".to_string())));
    assert_eq!(arg_of(&request.arguments, "k"), Some(&Arg::Number("3".to_string())));
    assert_eq!(arg_of(&request.arguments, "path"), Some(&Arg::Other));
}

#[test]
fn an_initialize_names_the_revision_it_asks_for() {
    let request = request_of(
        r#"{"jsonrpc":"2.0","id":0,"method":"initialize","params":{"protocolVersion":"2025-06-18"}}"#,
    );
    assert_eq!(request.asked_version.as_deref(), Some("2025-06-18"));
    assert_eq!(request.tool, None);
    assert!(request.arguments.is_empty());
}

#[test]
fn discovery_answers_even_without_client_metadata() {
    assert_eq!(
        check_protocol(Some(MODERN_VERSION), false, "server/discover"),
        ProtocolCheck::Accepted
    );
    assert_eq!(check_protocol(None, false, "tools/list"), ProtocolCheck::Accepted);
}

#[test]
fn an_unknown_protocol_version_is_refused() {
    assert_eq!(
        check_protocol(Some("1999-01-01"), true, "tools/list"),
        ProtocolCheck::UnsupportedVersion
    );
}

#[test]
fn a_modern_request_without_client_capabilities_is_malformed() {
    assert_eq!(
        check_protocol(Some(MODERN_VERSION), false, "tools/list"),
        ProtocolCheck::MissingCapabilities
    );
    assert_eq!(
        check_protocol(Some(MODERN_VERSION), true, "tools/list"),
        ProtocolCheck::Accepted
    );
    assert_eq!(
        check_protocol(Some(LEGACY_NEWEST), false, "tools/list"),
        ProtocolCheck::Accepted
    );
}

#[test]
fn an_unknown_handshake_version_falls_back_to_one_we_speak() {
    assert_eq!(negotiated_version(Some("2025-06-18")), "2025-06-18");
    assert_eq!(negotiated_version(Some(MODERN_VERSION)), MODERN_VERSION);
    assert_eq!(negotiated_version(Some("1999-01-01")), LEGACY_NEWEST);
    assert_eq!(negotiated_version(None), LEGACY_NEWEST);
    assert!(known_version("2025-03-26"));
    assert!(!known_version("2024-11-05"));
}

#[test]
fn methods_and_tools_are_named() {
    assert_eq!(method_named("initialize"), McpMethod::Initialize);
    assert_eq!(method_named("server/discover"), McpMethod::Discover);
    assert_eq!(method_named("tools/list"), McpMethod::ToolsList);
    assert_eq!(method_named("tools/call"), McpMethod::ToolsCall);
    assert_eq!(method_named("ping"), McpMethod::Ping);
    assert_eq!(method_named("resources/list"), McpMethod::Unknown);
    assert_eq!(tool_named("search"), Tool::Search);
    assert_eq!(tool_named("ask"), Tool::Ask);
    assert_eq!(tool_named("status"), Tool::Status);
    assert_eq!(tool_named("delete"), Tool::Unknown);
}

#[test]
fn a_required_argument_must_not_be_blank() {
    assert_eq!(required_text(Some("  a query ")), Some("  a query ".to_string()));
    assert_eq!(required_text(Some(" \t")), None);
    assert_eq!(required_text(None), None);
}
