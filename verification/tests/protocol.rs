//! The request envelope, reply classification, exchange outcomes, and the
//! discovery scenarios, on concrete values.

use mcp_core::frame::encode_frame;
use mcp_core::json::JsonValue;
use mcp_core::lifecycle::method_ping;
use mcp_core::lifecycle::method_tools_list;
use mcp_core::lifecycle::parse_tool_list;
use mcp_core::lifecycle::already_running_status;
use mcp_core::lifecycle::prompt_get_params;
use mcp_core::lifecycle::resource_read_params;
use mcp_core::lifecycle::status_info_from;
use mcp_core::lifecycle::tool_call_params;
use mcp_core::lifecycle::McpServerStatusInfo;
use mcp_core::rpc::RpcOutcome;
use mcp_core::rpc::TransportFault;
use mcp_core::rpc::ReadEvent;
use mcp_core::rpc::build_request;
use mcp_core::rpc::classify_response;
use mcp_core::rpc::encode_request;
use mcp_core::rpc::exchange_outcome;
use mcp_core::rpc::obj_get;

fn obj(members: Vec<(&str, JsonValue)>) -> JsonValue {
    JsonValue::Object(
        members.into_iter().map(|(k, v)| (k.as_bytes().to_vec(), v)).collect(),
    )
}

fn s(text: &str) -> JsonValue {
    JsonValue::Str(text.as_bytes().to_vec())
}

#[test]
fn test_mcp_json_rpc_request_format() {
    let request = build_request(1, &method_tools_list(), obj(vec![]));
    assert_eq!(
        obj_get(&request, &b"jsonrpc".to_vec()),
        Some(s("2.0")),
    );
    assert_eq!(obj_get(&request, &b"id".to_vec()), Some(JsonValue::Int(1)));
    assert_eq!(obj_get(&request, &b"method".to_vec()), Some(s("tools/list")));
    assert!(matches!(
        obj_get(&request, &b"params".to_vec()),
        Some(JsonValue::Object(_))
    ));
}

#[test]
fn test_mcp_json_rpc_response_format() {
    let response = obj(vec![
        ("jsonrpc", s("2.0")),
        ("id", JsonValue::Int(1)),
        (
            "result",
            obj(vec![(
                "tools",
                JsonValue::Array(vec![obj(vec![
                    ("name", s("test_tool")),
                    ("description", s("A test tool")),
                ])]),
            )]),
        ),
    ]);
    assert_eq!(obj_get(&response, &b"jsonrpc".to_vec()), Some(s("2.0")));
    assert_eq!(obj_get(&response, &b"id".to_vec()), Some(JsonValue::Int(1)));
    let result = obj_get(&response, &b"result".to_vec()).expect("result present");
    assert!(matches!(result, JsonValue::Object(_)));
    assert!(matches!(
        obj_get(&result, &b"tools".to_vec()),
        Some(JsonValue::Array(_))
    ));
}

#[test]
fn test_mcp_json_rpc_error_format() {
    let error = obj(vec![
        ("jsonrpc", s("2.0")),
        ("id", JsonValue::Int(1)),
        (
            "error",
            obj(vec![("code", JsonValue::Int(-32600)), ("message", s("Invalid Request"))]),
        ),
    ]);
    assert_eq!(obj_get(&error, &b"jsonrpc".to_vec()), Some(s("2.0")));
    assert_eq!(obj_get(&error, &b"id".to_vec()), Some(JsonValue::Int(1)));
    let e = obj_get(&error, &b"error".to_vec()).expect("error present");
    assert!(matches!(e, JsonValue::Object(_)));
    assert_eq!(obj_get(&e, &b"code".to_vec()), Some(JsonValue::Int(-32600)));
    assert!(matches!(obj_get(&e, &b"message".to_vec()), Some(JsonValue::Str(_))));
}

#[test]
fn test_mcp_content_length_header() {
    // Test Content-Length header parsing
    let json_body = r#"{"jsonrpc":"2.0","id":1,"method":"ping","params":{}}"#;
    let content_length = json_body.len();

    let header = format!("Content-Length: {}\r\n\r\n", content_length);
    assert!(header.starts_with("Content-Length: "));
    assert!(header.contains(&content_length.to_string()));
}

#[test]
fn encoded_request_carries_the_envelope() {
    let bytes = encode_request(1, &method_ping(), obj(vec![]));
    let text = String::from_utf8(bytes).expect("the frame is valid UTF-8 here");
    let body = r#"{"jsonrpc":"2.0","id":1,"method":"ping","params":{}}"#;
    assert_eq!(text, format!("Content-Length: {}\r\n\r\n{}", body.len(), body));
}

#[test]
fn happy_path_discovery_finds_the_echo_tool() {
    // the stub's reply to a discovery call
    let reply = obj(vec![
        ("jsonrpc", s("2.0")),
        ("id", JsonValue::Int(1)),
        (
            "result",
            obj(vec![(
                "tools",
                JsonValue::Array(vec![obj(vec![
                    ("name", s("echo")),
                    ("description", s("echoes input")),
                    ("inputSchema", obj(vec![])),
                ])]),
            )]),
        ),
    ]);
    let wire = encode_frame(&reply);
    let outcome = exchange_outcome(ReadEvent::Reply(wire), 1);
    match outcome {
        RpcOutcome::Success(result) => {
            let tools = parse_tool_list(&result);
            assert_eq!(tools.len(), 1);
            assert_eq!(tools[0].name, b"echo".to_vec());
            assert_eq!(tools[0].description, b"echoes input".to_vec());
        },
        other => panic!("discovery should succeed, got {:?}", other),
    }
}

#[test]
fn timeout_is_a_transport_error() {
    let outcome = exchange_outcome(ReadEvent::TimedOut, 9);
    assert_eq!(outcome, RpcOutcome::TransportError(TransportFault::Timeout));
}

#[test]
fn application_error_passes_through() {
    // the stub replies with a method-not-found error
    let reply = obj(vec![
        ("jsonrpc", s("2.0")),
        ("id", JsonValue::Int(7)),
        (
            "error",
            obj(vec![("code", JsonValue::Int(-32601)), ("message", s("Method not found"))]),
        ),
    ]);
    let wire = encode_frame(&reply);
    let outcome = exchange_outcome(ReadEvent::Reply(wire), 7);
    assert_eq!(
        outcome,
        RpcOutcome::ApplicationError(-32601, b"Method not found".to_vec(), None)
    );
}

#[test]
fn reply_with_wrong_id_is_rejected() {
    let reply = obj(vec![
        ("jsonrpc", s("2.0")),
        ("id", JsonValue::Int(8)),
        ("result", obj(vec![])),
    ]);
    let outcome = classify_response(&reply, 7);
    assert_eq!(outcome, RpcOutcome::TransportError(TransportFault::IdMismatch));
}

#[test]
fn reply_without_result_succeeds_with_empty_object() {
    let reply = obj(vec![("jsonrpc", s("2.0")), ("id", JsonValue::Int(2))]);
    let outcome = classify_response(&reply, 2);
    assert_eq!(outcome, RpcOutcome::Success(JsonValue::Object(vec![])));
}

#[test]
fn tool_call_params_carry_name_and_arguments() {
    let params = tool_call_params(b"echo".to_vec(), obj(vec![("text", s("hi"))]));
    assert_eq!(obj_get(&params, &b"name".to_vec()), Some(s("echo")));
    let args = obj_get(&params, &b"arguments".to_vec()).expect("arguments present");
    assert_eq!(obj_get(&args, &b"text".to_vec()), Some(s("hi")));
}

#[test]
fn truncated_reply_is_a_framing_fault() {
    let wire = b"Content-Length: 10\r\n\r\n{}".to_vec();
    let outcome = exchange_outcome(ReadEvent::Reply(wire), 1);
    assert_eq!(
        outcome,
        RpcOutcome::TransportError(TransportFault::Frame(
            mcp_core::frame::FrameError::Truncated
        ))
    );
}

#[test]
fn prompt_params_carry_arguments_only_when_supplied() {
    let bare = prompt_get_params(b"greet".to_vec(), None);
    assert_eq!(obj_get(&bare, &b"name".to_vec()), Some(s("greet")));
    assert_eq!(obj_get(&bare, &b"arguments".to_vec()), None);
    let with_args = prompt_get_params(b"greet".to_vec(), Some(obj(vec![("who", s("you"))])));
    assert_eq!(obj_get(&with_args, &b"name".to_vec()), Some(s("greet")));
    assert!(obj_get(&with_args, &b"arguments".to_vec()).is_some());
}

#[test]
fn resource_params_carry_the_uri() {
    let params = resource_read_params(b"file:///tmp/a".to_vec());
    assert_eq!(obj_get(&params, &b"uri".to_vec()), Some(s("file:///tmp/a")));
}

#[test]
fn starting_a_running_server_reports_running_without_a_catalog() {
    let status = already_running_status("alpha".to_string());
    assert_eq!(status.server_id, "alpha");
    assert!(status.running);
    assert!(status.tools.is_empty());
    assert!(status.error.is_none());
}

#[test]
fn advisory_status_follows_registration_and_discovery() {
    let stopped = status_info_from("a".to_string(), None);
    assert!(matches!(stopped, McpServerStatusInfo::Stopped { .. }));
    let running = status_info_from("a".to_string(), Some(Ok(obj(vec![]))));
    assert!(matches!(running, McpServerStatusInfo::Running { .. }));
    let advisory = status_info_from("a".to_string(), Some(Err("down".to_string())));
    match advisory {
        McpServerStatusInfo::Error { server_id, error } => {
            assert_eq!(server_id, "a");
            assert_eq!(error, "down");
        },
        _ => panic!("a failed discovery is advisory, not an unregistration"),
    }
}

#[test]
fn error_without_message_gets_the_fallback_text() {
    let reply = obj(vec![
        ("jsonrpc", s("2.0")),
        ("id", JsonValue::Int(4)),
        ("error", obj(vec![("data", s("details"))])),
    ]);
    let outcome = classify_response(&reply, 4);
    assert_eq!(
        outcome,
        RpcOutcome::ApplicationError(0, b"Unknown error".to_vec(), Some(s("details")))
    );
}
