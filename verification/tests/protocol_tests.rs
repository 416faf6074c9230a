//! Wire protocol tests: encoding, decoding, and round trips.

use wayclip::codec::{decode_request, decode_response, encode_request, encode_response};
use wayclip::protocol::{ErrorCode, Request, Response};
use wayclip::types::{ContentType, HistoryEntry};

#[test]
fn test_request_serialization() {
    let request = Request::GetHistory {
        limit: Some(10),
        offset: None,
        search: Some("test".to_string()),
    };

    let encoded = encode_request(&request);
    let decoded: Request = decode_request(trim_line(&encoded)).unwrap();

    match decoded {
        Request::GetHistory {
            limit,
            offset,
            search,
        } => {
            assert_eq!(limit, Some(10));
            assert_eq!(offset, None);
            assert_eq!(search, Some("test".to_string()));
        }
        _ => panic!("Wrong request type"),
    }
}

#[test]
fn test_response_serialization() {
    let response = Response::error(ErrorCode::NotFound, "Entry 42 not found".to_string());

    let encoded = encode_response(&response);
    let decoded: Response = decode_response(trim_line(&encoded)).unwrap();

    match decoded {
        Response::Error { code, message } => {
            assert_eq!(code, ErrorCode::NotFound);
            assert_eq!(message, "Entry 42 not found");
        }
        _ => panic!("Wrong response type"),
    }
}

/// The bytes of one record without its newline delimiter.
fn trim_line(encoded: &[u8]) -> &[u8] {
    assert_eq!(*encoded.last().unwrap(), b'\n');
    &encoded[..encoded.len() - 1]
}

fn roundtrip_request(request: Request) -> Request {
    let encoded = encode_request(&request);
    decode_request(trim_line(&encoded)).unwrap()
}

fn roundtrip_response(response: Response) -> Response {
    let encoded = encode_response(&response);
    decode_response(trim_line(&encoded)).unwrap()
}

#[test]
fn request_round_trip_all_variants() {
    let requests = vec![
        Request::GetHistory { limit: None, offset: None, search: None },
        Request::GetHistory { limit: Some(0), offset: Some(4294967295), search: None },
        Request::GetHistory {
            limit: Some(7),
            offset: Some(3),
            search: Some("he\"llo\\wor\nld\t\u{1f389}".to_string()),
        },
        Request::GetContent { id: 0 },
        Request::GetContent { id: i64::MIN },
        Request::SetClipboard { id: i64::MAX },
        Request::DeleteEntry { id: -7 },
        Request::ClearHistory,
        Request::SetPinned { id: 42, pinned: true },
        Request::SetPinned { id: 42, pinned: false },
        Request::GetStatus,
        Request::Ping,
    ];
    for request in requests {
        assert_eq!(roundtrip_request(request.clone()), request);
    }
}

#[test]
fn response_round_trip_all_variants() {
    let entry = HistoryEntry {
        id: 3,
        content_type: ContentType::Text,
        mime_type: "text/plain;charset=utf-8".to_string(),
        preview: "hello \u{1b} world \u{263a}".to_string(),
        byte_size: 11,
        created_at: 1700000000,
        pinned: false,
        thumbnail: None,
    };
    let entry2 = HistoryEntry {
        id: -9,
        content_type: ContentType::Image,
        mime_type: "image/png".to_string(),
        preview: "copied image (4x2)".to_string(),
        byte_size: 24,
        created_at: -5,
        pinned: true,
        thumbnail: Some("abc".to_string()),
    };
    let responses = vec![
        Response::History { entries: vec![], total_count: 0 },
        Response::History { entries: vec![entry.clone()], total_count: 1 },
        Response::History { entries: vec![entry, entry2], total_count: 7 },
        Response::Content {
            id: 5,
            mime_type: "text/plain".to_string(),
            data: "aGVsbG8K".to_string(),
        },
        Response::Okay,
        Response::Error { code: ErrorCode::NotFound, message: "Entry 1 not found".to_string() },
        Response::Error { code: ErrorCode::DatabaseError, message: "db".to_string() },
        Response::Error { code: ErrorCode::ClipboardError, message: String::new() },
        Response::Error { code: ErrorCode::InvalidRequest, message: "bad".to_string() },
        Response::Error { code: ErrorCode::InternalError, message: "oops".to_string() },
        Response::Status {
            version: "0.1.0".to_string(),
            entry_count: 2,
            database_size_bytes: u64::MAX,
        },
        Response::Pong,
    ];
    for response in responses {
        assert_eq!(roundtrip_response(response.clone()), response);
    }
}

#[test]
fn encoding_is_canonical_json() {
    let encoded = encode_request(&Request::GetContent { id: 42 });
    assert_eq!(encoded, b"{\"type\":\"get_content\",\"id\":42}\n".to_vec());
    let encoded = encode_request(&Request::Ping);
    assert_eq!(encoded, b"{\"type\":\"ping\"}\n".to_vec());
    let encoded = encode_response(&Response::Pong);
    assert_eq!(encoded, b"{\"type\":\"pong\"}\n".to_vec());
    let encoded = encode_request(&Request::GetHistory {
        limit: Some(10),
        offset: None,
        search: Some("a\"b".to_string()),
    });
    assert_eq!(
        encoded,
        b"{\"type\":\"get_history\",\"limit\":10,\"search\":\"a\\\"b\"}\n".to_vec()
    );
}

#[test]
fn decoding_tolerates_surrounding_whitespace() {
    let decoded = decode_request(b"  {\"type\":\"ping\"}\r\n");
    assert_eq!(decoded, Some(Request::Ping));
}

#[test]
fn unknown_type_or_malformed_record_is_rejected() {
    assert_eq!(decode_request(b"{\"type\":\"bogus\"}"), None);
    assert_eq!(decode_request(b"{\"type\":\"ping\""), None);
    assert_eq!(decode_request(b"not json at all"), None);
    assert_eq!(decode_request(b""), None);
    assert_eq!(decode_request(&[0xff, 0xfe, b'{']), None);
    assert_eq!(decode_request(b"{\"type\":\"get_content\",\"id\":1e3}"), None);
    assert_eq!(decode_response(b"{\"type\":\"okay\"}"), None);
}

#[test]
fn unicode_escapes_decode() {
    let decoded = decode_request(b"{\"type\":\"get_history\",\"search\":\"\\u0041\\u00e9\\t\"}");
    match decoded.unwrap() {
        Request::GetHistory { search, .. } => assert_eq!(search.as_deref(), Some("A\u{e9}\t")),
        _ => panic!("wrong variant"),
    }
}

#[test]
fn not_found_has_exact_message() {
    match Response::not_found(42) {
        Response::Error { code, message } => {
            assert_eq!(code, ErrorCode::NotFound);
            assert_eq!(message, "Entry 42 not found");
        }
        _ => panic!("wrong variant"),
    }
}

#[test]
fn is_error_flags_only_errors() {
    assert!(Response::not_found(1).is_error());
    assert!(!Response::Pong.is_error());
    assert!(!Response::Okay.is_error());
}

#[test]
fn split_frame_takes_first_record() {
    let buf = b"{\"type\":\"ping\"}\n{\"type\":\"get_status\"}\n".to_vec();
    let (rec, rest) = wayclip::codec::split_frame(&buf).unwrap();
    assert_eq!(rec, b"{\"type\":\"ping\"}".to_vec());
    assert_eq!(rest, b"{\"type\":\"get_status\"}\n".to_vec());
    let (rec2, rest2) = wayclip::codec::split_frame(&rest).unwrap();
    assert_eq!(rec2, b"{\"type\":\"get_status\"}".to_vec());
    assert_eq!(rest2, Vec::<u8>::new());
    assert_eq!(wayclip::codec::split_frame(&rest2), None);
    assert_eq!(wayclip::codec::split_frame(&b"partial".to_vec()), None);
}
