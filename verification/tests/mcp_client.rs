use std::collections::HashMap;

use saioawe::mcp::{
    choose_transport, flatten_tool_result, keep_connection, prefixed_tool_name, read_http_reply, response_to,
    rpc_error_message, select_tools, sse_event_data, sse_response, ContentItem, ListedTool, TransportKind,
};
use saioawe::models::McpServerConfig;

fn config(name: &str, transport: &str, command: &str, url: &str) -> McpServerConfig {
    McpServerConfig {
        id: "id1".to_string(),
        name: name.to_string(),
        transport: transport.to_string(),
        command: command.to_string(),
        args: vec![],
        env: HashMap::new(),
        url: url.to_string(),
        headers: HashMap::new(),
        enabled: true,
        created_at: "t0".to_string(),
        updated_at: "t1".to_string(),
    }
}

fn item(kind: Option<&str>, text: Option<&str>) -> ContentItem {
    ContentItem { kind: kind.map(|s| s.to_string()), text: text.map(|s| s.to_string()) }
}

#[test]
fn tool_names_are_sanitized_and_prefixed() {
    assert_eq!(prefixed_tool_name("my server", "read/file"), "my_server__read_file");
    assert_eq!(prefixed_tool_name("Web-Search_2", "go"), "Web-Search_2__go");
    assert_eq!(prefixed_tool_name("", "é"), "___");
}

#[test]
fn listed_tools_without_name_are_dropped() {
    let listed = vec![
        ListedTool { name: Some("a".to_string()), description: None, input_schema: None },
        ListedTool { name: None, description: Some("x".to_string()), input_schema: None },
        ListedTool {
            name: Some("b".to_string()),
            description: Some("does b".to_string()),
            input_schema: Some("{\"type\":\"object\"}".to_string()),
        },
    ];
    let tools = select_tools(&listed);
    assert_eq!(tools.len(), 2);
    assert_eq!(tools[0].name, "a");
    assert_eq!(tools[0].description, "");
    assert_eq!(tools[0].input_schema, "{\"type\":\"object\",\"properties\":{}}");
    assert_eq!(tools[1].name, "b");
    assert_eq!(tools[1].description, "does b");
    assert_eq!(tools[1].input_schema, "{\"type\":\"object\"}");
}

#[test]
fn tool_result_text_parts_are_joined() {
    let items = vec![item(Some("text"), Some("one")), item(None, Some("dropped")), item(Some("image"), None), item(Some("text"), Some("two"))];
    let r = flatten_tool_result("t", &items, Some("{}".to_string()), false).unwrap();
    assert_eq!(r, "one\n[unsupported content of type 'image']\ntwo");
}

#[test]
fn structured_content_stands_in_for_no_parts() {
    let r = flatten_tool_result("t", &vec![], Some("{\n  \"a\": 1\n}".to_string()), false).unwrap();
    assert_eq!(r, "{\n  \"a\": 1\n}");
    assert_eq!(flatten_tool_result("t", &vec![], None, false).unwrap(), "");
}

#[test]
fn tool_error_flag_makes_an_error() {
    let err = flatten_tool_result("fetch", &vec![item(Some("text"), Some("404"))], None, true).unwrap_err();
    assert_eq!(err, "tool 'fetch' reported an error: 404");
}

#[test]
fn sse_events_are_cut_at_blank_lines() {
    let body = "event: message\r\ndata: {\"a\":1}\r\n\r\ndata:  first\ndata:second \n\n: comment\ndata: last";
    assert_eq!(sse_event_data(body), vec!["{\"a\":1}".to_string(), "first\nsecond".to_string(), "last".to_string()]);
    assert!(sse_event_data("").is_empty());
}

#[test]
fn sse_response_finds_matching_id() {
    let body = "data: {\"jsonrpc\":\"2.0\",\"method\":\"note\"}\n\ndata: {\"jsonrpc\":\"2.0\",\"id\":7,\"result\":{}}\n\n";
    assert_eq!(sse_response(body, 7).unwrap(), "{\"jsonrpc\":\"2.0\",\"id\":7,\"result\":{}}");
    assert!(sse_response(body, 8).is_none());
    assert!(sse_response("data: not json\n\n", 1).is_none());
}

#[test]
fn http_reply_checks_status_and_stream() {
    let err = read_http_reply(false, "500 Internal Server Error", "text/plain", "oops", 1).unwrap_err();
    assert_eq!(err, "MCP HTTP endpoint returned 500 Internal Server Error: oops");
    let ok = read_http_reply(true, "200 OK", "application/json", "{\"id\":1}", 1).unwrap();
    assert_eq!(ok, "{\"id\":1}");
    let sse = read_http_reply(true, "200 OK", "text/event-stream; charset=utf-8", "data: {\"id\":3}\n\n", 3).unwrap();
    assert_eq!(sse, "{\"id\":3}");
    let missing = read_http_reply(true, "200 OK", "text/event-stream", "data: {\"id\":2}\n\n", 3).unwrap_err();
    assert_eq!(missing, "no JSON-RPC response for request 3 in SSE stream");
    let negative = read_http_reply(true, "200 OK", "text/event-stream", "", -12).unwrap_err();
    assert_eq!(negative, "no JSON-RPC response for request -12 in SSE stream");
}

#[test]
fn transport_is_chosen_by_config() {
    assert_eq!(choose_transport(&config("s", "stdio", "npx", "")).unwrap(), TransportKind::Stdio);
    assert_eq!(choose_transport(&config("s", "http", "", "http://x")).unwrap(), TransportKind::Http);
    assert_eq!(
        choose_transport(&config("files", "stdio", "  ", "")).unwrap_err(),
        "stdio MCP server 'files' has no command configured"
    );
    assert_eq!(
        choose_transport(&config("web", "http", "npx", "")).unwrap_err(),
        "http MCP server 'web' has no URL configured"
    );
    assert_eq!(
        choose_transport(&config("s", "pigeon", "x", "y")).unwrap_err(),
        "unknown MCP transport 'pigeon' (use 'stdio' or 'http')"
    );
}

#[test]
fn connection_is_kept_while_config_unchanged() {
    let a = config("s", "stdio", "x", "");
    let mut b = config("s", "stdio", "x", "");
    assert!(keep_connection(&a, &b, true));
    assert!(!keep_connection(&a, &b, false));
    b.updated_at = "t2".to_string();
    assert!(!keep_connection(&a, &b, true));
}

#[test]
fn stdout_lines_answer_requests() {
    assert_eq!(response_to("  {\"jsonrpc\":\"2.0\",\"id\":4,\"result\":{}}  "), Some(4));
    assert_eq!(response_to("{\"id\":5,\"error\":{\"code\":1}}"), Some(5));
    assert_eq!(response_to("{\"id\":6,\"method\":\"ping\"}"), None);
    assert_eq!(response_to("{\"method\":\"note\",\"result\":1}"), None);
    assert_eq!(response_to("log: starting"), None);
    assert_eq!(response_to("   "), None);
}

#[test]
fn rpc_errors_name_server_and_method() {
    assert_eq!(
        rpc_error_message("files", "tools/call", "{\"code\":-32601}"),
        "MCP server 'files' error on tools/call: {\"code\":-32601}"
    );
}

#[test]
fn post_headers_follow_session_state() {
    let custom = vec![("Authorization".to_string(), "Bearer x".to_string())];
    let h = saioawe::mcp::request_headers(&None, &None, &custom);
    assert_eq!(
        h,
        vec![
            ("Content-Type".to_string(), "application/json".to_string()),
            ("Accept".to_string(), "application/json, text/event-stream".to_string()),
            ("Authorization".to_string(), "Bearer x".to_string()),
        ]
    );
    let h = saioawe::mcp::request_headers(&Some("s1".to_string()), &Some("2024-11-05".to_string()), &vec![]);
    assert_eq!(h[2], ("Mcp-Session-Id".to_string(), "s1".to_string()));
    assert_eq!(h[3], ("MCP-Protocol-Version".to_string(), "2024-11-05".to_string()));
    assert_eq!(h.len(), 4);
}
