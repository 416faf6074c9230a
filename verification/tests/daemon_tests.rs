//! Coordinator tests: capture admission, previews, request servicing, and the
//! end-to-end scenarios of a daemon session.

use wayclip::daemon::{
    apply_request, finish_publish, generate_preview, handle_clipboard_event, respond_batch,
    respond_record, Action, CaptureOutcome,
};
use wayclip::config::Config;
use wayclip::protocol::{ErrorCode, Request, Response};
use wayclip::store::Database;
use wayclip::types::ContentType;

const HELLO: &[u8] = b"hello\n";

/// A minimal PNG-shaped buffer: width 4 and height 2 at the header offsets.
fn png_4x2() -> Vec<u8> {
    let mut b = vec![0u8; 24];
    b[0..8].copy_from_slice(&[0x89, b'P', b'N', b'G', b'\r', b'\n', 0x1A, b'\n']);
    b[16..20].copy_from_slice(&[0, 0, 0, 4]);
    b[20..24].copy_from_slice(&[0, 0, 0, 2]);
    b
}

fn capture(db: &mut Database, cfg: &Config, bytes: &[u8], mime: &str, now: i64) -> CaptureOutcome {
    handle_clipboard_event(db, cfg, bytes.to_vec(), mime.to_string(), now)
}

#[test]
fn fresh_text_capture_is_stored_with_preview() {
    let mut db = Database::new();
    let cfg = Config::default();
    let outcome = capture(&mut db, &cfg, HELLO, "text/plain;charset=utf-8", 1000);
    assert_eq!(outcome, CaptureOutcome::Stored { id: 1 });
    let (entries, total) = db.get_history(None, None, None);
    assert_eq!(total, 1);
    assert_eq!(entries.len(), 1);
    assert_eq!(entries[0].preview, "hello");
    assert_eq!(entries[0].content_type, ContentType::Text);
    assert_eq!(entries[0].byte_size, 6);
}

#[test]
fn capturing_the_same_bytes_again_touches_the_entry() {
    let mut db = Database::new();
    let cfg = Config::default();
    capture(&mut db, &cfg, HELLO, "text/plain;charset=utf-8", 1000);
    let outcome = capture(&mut db, &cfg, HELLO, "text/plain", 1001);
    assert_eq!(outcome, CaptureOutcome::Touched);
    let (entries, total) = db.get_history(None, None, None);
    assert_eq!(total, 1);
    assert_eq!(entries.len(), 1);
    let (created_at, last_used_at, use_count, _) = db.entry_stats(entries[0].id).unwrap();
    assert_eq!(created_at, 1000);
    assert_eq!(last_used_at, 1001);
    assert_eq!(use_count, 2);
    assert!(last_used_at >= created_at);
}

#[test]
fn sha256_dedup_key_is_the_real_digest() {
    let mut db = Database::new();
    let cfg = Config::default();
    capture(&mut db, &cfg, HELLO, "text/plain", 1000);
    // The well-known SHA-256 of "hello\n", in lowercase hex.
    assert!(db
        .find_by_hash("5891b5b522d5df086d0ff0b110fbd9d21bb4fc7163af34d08286a2e846f6be03")
        .is_some());
    assert!(db.find_by_hash("0000").is_none());
}

#[test]
fn png_capture_gets_a_size_preview() {
    let mut db = Database::new();
    let cfg = Config::default();
    let png = png_4x2();
    capture(&mut db, &cfg, &png, "image/png", 1000);
    let (entries, _) = db.get_history(None, None, None);
    assert_eq!(entries[0].preview, "copied image (4x2)");
    assert_eq!(entries[0].content_type, ContentType::Image);
}

#[test]
fn preview_shapes() {
    assert_eq!(
        generate_preview(b"  one\n\ttwo   three ", "text/plain", ContentType::Text),
        "one two three"
    );
    // Lenient decoding replaces invalid bytes rather than failing.
    assert_eq!(
        generate_preview(&[0xff, b'a', b'b'], "text/plain", ContentType::Text),
        "\u{fffd}ab"
    );
    // A long text is cut to its first two hundred code points.
    let long = "x".repeat(500);
    assert_eq!(
        generate_preview(long.as_bytes(), "text/plain", ContentType::Text).len(),
        200
    );
    // A non-PNG image, or a PNG too short for its header, gets the fixed phrase.
    assert_eq!(
        generate_preview(b"GIF89a", "image/gif", ContentType::Image),
        "copied image"
    );
    assert_eq!(
        generate_preview(b"tiny", "image/png", ContentType::Image),
        "copied image"
    );
}

#[test]
fn size_bounds_are_exact() {
    let mut cfg = Config::default();
    cfg.daemon.max_entry_size = 5;
    cfg.daemon.min_entry_size = 2;
    let mut db = Database::new();
    assert_eq!(
        capture(&mut db, &cfg, b"12345", "text/plain", 1),
        CaptureOutcome::Stored { id: 1 }
    );
    assert_eq!(
        capture(&mut db, &cfg, b"123456", "text/plain", 2),
        CaptureOutcome::TooLarge
    );
    assert_eq!(
        capture(&mut db, &cfg, b"12", "text/plain", 3),
        CaptureOutcome::Stored { id: 2 }
    );
    assert_eq!(capture(&mut db, &cfg, b"1", "text/plain", 4), CaptureOutcome::TooSmall);
    assert_eq!(db.count_entries(), 2);
}

#[test]
fn republish_flow_touches_the_entry() {
    let mut db = Database::new();
    let cfg = Config::default();
    capture(&mut db, &cfg, HELLO, "text/plain;charset=utf-8", 1000);
    let (entries, _) = db.get_history(None, None, None);
    let id = entries[0].id;
    let action = apply_request(&mut db, Request::SetClipboard { id }, 0);
    match action {
        Action::Publish { id: pid, mime_type, data } => {
            assert_eq!(pid, id);
            assert_eq!(mime_type, "text/plain;charset=utf-8");
            assert_eq!(data, HELLO.to_vec());
        }
        Action::Respond(r) => panic!("expected a publish action, got {:?}", r),
    }
    let response = finish_publish(&mut db, id, 2000, true, String::new());
    assert_eq!(response, Response::Okay);
    let (_, last_used_at, use_count, _) = db.entry_stats(id).unwrap();
    assert_eq!(last_used_at, 2000);
    assert_eq!(use_count, 2);
    // A failed publish reports a clipboard error and touches nothing.
    let response = finish_publish(&mut db, id, 3000, false, "helper exited".to_string());
    assert_eq!(
        response,
        Response::Error { code: ErrorCode::ClipboardError, message: "helper exited".to_string() }
    );
    assert_eq!(db.entry_stats(id).unwrap().1, 2000);
}

#[test]
fn republish_of_missing_id_is_not_found() {
    let mut db = Database::new();
    match apply_request(&mut db, Request::SetClipboard { id: 9 }, 0) {
        Action::Respond(Response::Error { code, message }) => {
            assert_eq!(code, ErrorCode::NotFound);
            assert_eq!(message, "Entry 9 not found");
        }
        _ => panic!("expected a not-found error"),
    }
}

#[test]
fn get_content_is_base64_of_the_bytes() {
    let mut db = Database::new();
    let cfg = Config::default();
    capture(&mut db, &cfg, HELLO, "text/plain", 1000);
    let (entries, _) = db.get_history(None, None, None);
    match apply_request(&mut db, Request::GetContent { id: entries[0].id }, 0) {
        Action::Respond(Response::Content { id, mime_type, data }) => {
            assert_eq!(id, entries[0].id);
            assert_eq!(mime_type, "text/plain");
            assert_eq!(data, "aGVsbG8K");
        }
        _ => panic!("expected content"),
    }
}

#[test]
fn pinning_survives_clear_history() {
    let mut db = Database::new();
    let cfg = Config::default();
    capture(&mut db, &cfg, HELLO, "text/plain;charset=utf-8", 1000);
    let png = png_4x2();
    capture(&mut db, &cfg, &png, "image/png", 1001);
    let (entries, _) = db.get_history(None, None, None);
    let png_id = entries
        .iter()
        .find(|e| e.content_type == ContentType::Image)
        .unwrap()
        .id;
    match apply_request(&mut db, Request::SetPinned { id: png_id, pinned: true }, 0) {
        Action::Respond(Response::Okay) => {}
        _ => panic!("expected ok"),
    }
    match apply_request(&mut db, Request::ClearHistory, 0) {
        Action::Respond(Response::Okay) => {}
        _ => panic!("expected ok"),
    }
    let (entries, total) = db.get_history(None, None, None);
    assert_eq!(total, 1);
    assert_eq!(entries.len(), 1);
    assert_eq!(entries[0].id, png_id);
    assert_eq!(entries[0].content_type, ContentType::Image);
}

#[test]
fn lru_eviction_removes_the_least_recently_used() {
    let mut db = Database::new();
    let mut cfg = Config::default();
    cfg.daemon.max_entries = 2;
    assert_eq!(
        capture(&mut db, &cfg, b"A", "text/plain", 10),
        CaptureOutcome::Stored { id: 1 }
    );
    assert_eq!(db.count_entries(), 1);
    assert_eq!(
        capture(&mut db, &cfg, b"B", "text/plain", 11),
        CaptureOutcome::Stored { id: 2 }
    );
    assert_eq!(db.count_entries(), 2);
    assert_eq!(
        capture(&mut db, &cfg, b"C", "text/plain", 12),
        CaptureOutcome::Stored { id: 3 }
    );
    assert_eq!(db.count_entries(), 2);
    let (entries, _) = db.get_history(None, None, None);
    let previews: Vec<&str> = entries.iter().map(|e| e.preview.as_str()).collect();
    // `A` was the least recently used; the newest two remain.
    assert_eq!(previews, vec!["C", "B"]);
}

#[test]
fn unknown_request_yields_invalid_request_and_connection_goes_on() {
    let mut db = Database::new();
    let action = respond_record(&mut db, b"{\"type\":\"frobnicate\"}", 0);
    match action {
        Action::Respond(Response::Error { code, .. }) => {
            assert_eq!(code, ErrorCode::InvalidRequest)
        }
        _ => panic!("expected an invalid-request error"),
    }
    // The same connection can still be served.
    match respond_record(&mut db, b"{\"type\":\"ping\"}", 0) {
        Action::Respond(Response::Pong) => {}
        _ => panic!("expected pong"),
    }
}

#[test]
fn get_status_reports_counts() {
    let mut db = Database::new();
    let cfg = Config::default();
    capture(&mut db, &cfg, HELLO, "text/plain", 1000);
    match apply_request(&mut db, Request::GetStatus, 4096) {
        Action::Respond(Response::Status { version, entry_count, database_size_bytes }) => {
            assert_eq!(version, "0.1.0");
            assert_eq!(entry_count, 1);
            assert_eq!(database_size_bytes, 4096);
        }
        _ => panic!("expected status"),
    }
}

#[test]
fn batch_responses_match_requests_in_order() {
    let mut db = Database::new();
    let lines: Vec<Vec<u8>> = vec![
        b"{\"type\":\"ping\"}".to_vec(),
        b"{\"type\":\"get_status\"}".to_vec(),
        b"{\"type\":\"nonsense\"}".to_vec(),
        b"{\"type\":\"ping\"}".to_vec(),
    ];
    let acts = respond_batch(&mut db, &lines, 7);
    assert_eq!(acts.len(), 4);
    assert!(matches!(&acts[0], Action::Respond(Response::Pong)));
    assert!(matches!(&acts[1], Action::Respond(Response::Status { .. })));
    assert!(matches!(
        &acts[2],
        Action::Respond(Response::Error { code: ErrorCode::InvalidRequest, .. })
    ));
    assert!(matches!(&acts[3], Action::Respond(Response::Pong)));
}
