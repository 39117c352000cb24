//! The frame codec on concrete payloads: round trips, header correctness,
//! and truncation handling.

use mcp_core::frame::FrameError;
use mcp_core::frame::FrameStep;
use mcp_core::frame::decode_frame;
use mcp_core::frame::decode_step;
use mcp_core::frame::encode_frame;
use mcp_core::json::JsonValue;
use mcp_core::json::to_bytes;
use mcp_core::parse::check_wf;
use mcp_core::parse::from_bytes;

fn obj(members: Vec<(&str, JsonValue)>) -> JsonValue {
    JsonValue::Object(
        members.into_iter().map(|(k, v)| (k.as_bytes().to_vec(), v)).collect(),
    )
}

fn s(text: &str) -> JsonValue {
    JsonValue::Str(text.as_bytes().to_vec())
}

fn sample_value() -> JsonValue {
    obj(vec![
        ("jsonrpc", s("2.0")),
        ("id", JsonValue::Int(1)),
        ("method", s("tools/call")),
        (
            "params",
            obj(vec![
                ("name", s("echo")),
                (
                    "arguments",
                    obj(vec![
                        ("text", s("line one\nline \"two\" \\ done")),
                        ("count", JsonValue::Int(-42)),
                        ("rate", JsonValue::NumRaw(b"0.5".to_vec())),
                        ("big", JsonValue::NumRaw(b"1.5e300".to_vec())),
                        ("flags", JsonValue::Array(vec![
                            JsonValue::Bool(true),
                            JsonValue::Bool(false),
                            JsonValue::Null,
                        ])),
                    ]),
                ),
            ]),
        ),
    ])
}

#[test]
fn frame_round_trip_composite() {
    let v = sample_value();
    let bytes = encode_frame(&v);
    let decoded = decode_frame(&bytes).expect("frame should decode");
    assert_eq!(decoded.0, sample_value());
    assert_eq!(decoded.1, bytes.len());
}

#[test]
fn frame_round_trip_simple_values() {
    for v in [
        JsonValue::Null,
        JsonValue::Bool(true),
        JsonValue::Bool(false),
        JsonValue::Int(0),
        JsonValue::Int(i64::MIN),
        JsonValue::Int(i64::MAX),
        s(""),
        s("plain"),
        JsonValue::Array(vec![]),
        JsonValue::Object(vec![]),
        JsonValue::NumRaw(b"-2.75e-3".to_vec()),
    ] {
        let bytes = encode_frame(&v);
        let decoded = decode_frame(&bytes).expect("frame should decode");
        assert_eq!(decoded.1, bytes.len());
        let again = encode_frame(&decoded.0);
        assert_eq!(again, bytes);
    }
}

#[test]
fn header_declares_exact_byte_length_multibyte() {
    // a body with multi-byte UTF-8 characters: the header counts bytes,
    // not characters
    let v = s("héllo wörld — ünïcode");
    let body = to_bytes(&v);
    let bytes = encode_frame(&v);
    let text = String::from_utf8_lossy(&bytes);
    let expected_prefix = format!("Content-Length: {}\r\n\r\n", body.len());
    assert!(text.starts_with(&expected_prefix));
    assert_eq!(bytes.len(), expected_prefix.len() + body.len());
}

#[test]
fn truncated_body_is_detected() {
    // declares one hundred body bytes but the stream closes after fifty
    let mut bytes = b"Content-Length: 100\r\n\r\n".to_vec();
    bytes.extend(std::iter::repeat(b'x').take(50));
    assert_eq!(decode_frame(&bytes), Err(FrameError::Truncated));
    assert!(matches!(decode_step(&bytes), FrameStep::NeedMore));
}

#[test]
fn truncated_headers_are_detected() {
    let bytes = b"Content-Len".to_vec();
    assert_eq!(decode_frame(&bytes), Err(FrameError::Truncated));
}

#[test]
fn missing_length_is_detected() {
    let bytes = b"Content-Type: application/json\r\n\r\n{}".to_vec();
    assert_eq!(decode_frame(&bytes), Err(FrameError::MissingLength));
}

#[test]
fn non_numeric_length_is_detected() {
    let bytes = b"Content-Length: ten\r\n\r\n{}".to_vec();
    assert_eq!(decode_frame(&bytes), Err(FrameError::BadLength));
}

#[test]
fn malformed_body_is_detected() {
    let bytes = b"Content-Length: 4\r\n\r\n{{{{".to_vec();
    assert_eq!(decode_frame(&bytes), Err(FrameError::BadBody));
}

#[test]
fn decode_accepts_extra_headers_and_escapes() {
    // a frame written by another implementation: extra header lines, and
    // string escapes the canonical encoder does not use
    let body = br#"{"jsonrpc":"2.0","id":3,"result":{"text":"a\tb\ncA"}}"#;
    let framed = format!("Content-Type: application/json\r\nContent-Length: {}\r\n\r\n", body.len());
    let mut bytes = framed.into_bytes();
    bytes.extend_from_slice(body);
    let decoded = decode_frame(&bytes).expect("frame should decode");
    match &decoded.0 {
        JsonValue::Object(members) => {
            let result = members.iter().find(|m| m.0 == b"result").expect("result");
            match &result.1 {
                JsonValue::Object(inner) => {
                    let text = inner.iter().find(|m| m.0 == b"text").expect("text");
                    assert_eq!(text.1, s("a\tb\ncA"));
                },
                other => panic!("result should be an object, got {:?}", other),
            }
        },
        other => panic!("body should be an object, got {:?}", other),
    }
}

#[test]
fn decode_consumed_count_allows_pipelining() {
    let first = encode_frame(&s("one"));
    let second = encode_frame(&JsonValue::Int(2));
    let mut bytes = first.clone();
    bytes.extend_from_slice(&second);
    match decode_step(&bytes) {
        FrameStep::Frame(v, consumed) => {
            assert_eq!(v, s("one"));
            assert_eq!(consumed, first.len());
            let rest = bytes[consumed..].to_vec();
            match decode_step(&rest) {
                FrameStep::Frame(v2, c2) => {
                    assert_eq!(v2, JsonValue::Int(2));
                    assert_eq!(c2, second.len());
                },
                other => panic!("second frame should decode, got {:?}", other),
            }
        },
        _ => panic!("first frame should decode"),
    }
}

#[test]
fn document_round_trip() {
    let v = sample_value();
    assert!(check_wf(&v));
    let bytes = to_bytes(&v);
    assert_eq!(from_bytes(&bytes), Some(sample_value()));
}

#[test]
fn ill_formed_number_literals_are_recognized() {
    // a raw number literal must carry a fraction or an exponent, complete
    assert!(check_wf(&JsonValue::NumRaw(b"0.5".to_vec())));
    assert!(check_wf(&JsonValue::NumRaw(b"-1e9".to_vec())));
    assert!(check_wf(&JsonValue::NumRaw(b"2.5E+10".to_vec())));
    assert!(!check_wf(&JsonValue::NumRaw(b"7".to_vec())));
    assert!(!check_wf(&JsonValue::NumRaw(b"1.".to_vec())));
    assert!(!check_wf(&JsonValue::NumRaw(b"1e".to_vec())));
    assert!(!check_wf(&JsonValue::NumRaw(b"abc".to_vec())));
}
