//! The coordinator: admission control and preview derivation for captures,
//! and the mapping from decoded requests to store actions and responses.
//!
//! Everything here is a function from plain values to plain values; the caller
//! owns the clock, the sockets and the clipboard helper, hands events in, and
//! carries the returned actions out.

use vstd::prelude::*;

use base64::Engine;
use sha2::Digest;

verus! {

use crate::codec::spec_decode_request;
use crate::config::Config;
use crate::protocol::{ErrorCode, ReqV, Request, RespV, Response, not_found_message};
use crate::store::{
    Database,
    StoredEntryV,
    aged,
    cleanup_post,
    has_hash,
    has_id,
    hist_list,
    inserted_somewhere,
    new_entry_v,
    norm_query,
    spec_page,
    to_hist_all,
    touched,
};
use crate::text::{collapse_ws, collapse_ws_prefix, dec_u64, push_dec_u64, str_chars,
    string_from_chars};
use crate::types::{ContentType, spec_content_type};

// ---------------------------------------------------------------------------
// Outside computations: the dedup hash and the content transfer encoding.
// ---------------------------------------------------------------------------

/// The SHA-256 digest of a byte string.
pub uninterp spec fn sha256_of(b: Seq<u8>) -> Seq<u8>;

/// Relies on sha2's `Sha256`: the digest is thirty-two bytes and a function
/// of the input bytes alone.
#[verifier::external_body]
fn sha256_bytes(data: &[u8]) -> (r: Vec<u8>)
    ensures
        r@ == sha256_of(data@),
        r@.len() == 32,
{
    sha2::Sha256::digest(data).to_vec()
}

/// The standard base64 encoding of a byte string.
pub uninterp spec fn base64_of(b: Seq<u8>) -> Seq<char>;

/// Relies on base64's standard engine with padding: the encoding is a
/// function of the input bytes alone.
#[verifier::external_body]
fn base64_encode(data: &[u8]) -> (s: String)
    ensures
        s@ == base64_of(data@),
{
    base64::engine::general_purpose::STANDARD.encode(data)
}

/// What `String::from_utf8_lossy` decodes a byte string to: a function of the
/// bytes alone.
pub uninterp spec fn utf8_lossy(b: Seq<u8>) -> Seq<char>;

/// Relies on `String::from_utf8_lossy`: the result is a function of the bytes
/// alone, and on valid UTF-8 it is exactly their decoding.
#[verifier::external_body]
fn from_utf8_lossy(b: &[u8]) -> (s: String)
    ensures
        s@ == utf8_lossy(b@),
        vstd::utf8::valid_utf8(b@) ==> s@ == vstd::utf8::decode_utf8(b@),
{
    String::from_utf8_lossy(b).into_owned()
}

// ---------------------------------------------------------------------------
// The dedup hash, in lowercase hex.
// ---------------------------------------------------------------------------

/// The lowercase hex expansion of a byte string, two digits per byte.
pub open spec fn hex_of(b: Seq<u8>) -> Seq<char>
    decreases b.len(),
{
    if b.len() == 0 {
        Seq::empty()
    } else {
        seq![
            crate::codec::hex_char((b[0] / 16) as nat),
            crate::codec::hex_char((b[0] % 16) as nat),
        ] + hex_of(b.drop_first())
    }
}

/// The content hash of captured bytes: their SHA-256 digest in lowercase hex.
pub open spec fn content_hash_of(b: Seq<u8>) -> Seq<char> {
    hex_of(sha256_of(b))
}

/// The lowercase hex expansion of a byte string.
fn hex_lower(b: &Vec<u8>) -> (r: Vec<char>)
    ensures
        r@ == hex_of(b@),
{
    let n = b.len();
    let mut r: Vec<char> = Vec::new();
    let mut i: usize = 0;
    proof {
        assert(b@.subrange(0, n as int) =~= b@);
    }
    while i < n
        invariant
            0 <= i <= n,
            n == b@.len(),
            r@ + hex_of(b@.subrange(i as int, n as int)) == hex_of(b@),
        decreases n - i,
    {
        let ghost suf = b@.subrange(i as int, n as int);
        proof {
            assert(suf[0] == b@[i as int]);
            assert(suf.drop_first() =~= b@.subrange(i as int + 1, n as int));
        }
        let x = b[i];
        let hi = x / 16;
        let lo = x % 16;
        let ghost r0 = r@;
        r.push(crate::codec::hex_char_exec(hi));
        r.push(crate::codec::hex_char_exec(lo));
        proof {
            assert(r@ + hex_of(b@.subrange(i as int + 1, n as int)) =~= r0 + hex_of(suf));
        }
        i += 1;
    }
    proof {
        assert(b@.subrange(n as int, n as int) =~= Seq::<u8>::empty());
        assert(r@ =~= r@ + hex_of(Seq::<u8>::empty()));
    }
    r
}

// ---------------------------------------------------------------------------
// Previews.
// ---------------------------------------------------------------------------

/// The big-endian 32-bit value at offset `i` of a byte string.
pub open spec fn be32(b: Seq<u8>, i: int) -> nat {
    (b[i] * 0x1000000 + b[i + 1] * 0x10000 + b[i + 2] * 0x100 + b[i + 3]) as nat
}

/// The preview of text content: its first two hundred code points, decoded
/// leniently, with whitespace runs collapsed to single spaces and both ends
/// trimmed.
pub open spec fn text_preview(b: Seq<u8>) -> Seq<char> {
    let s = utf8_lossy(b);
    collapse_ws(
        if s.len() <= 200 {
            s
        } else {
            s.subrange(0, 200)
        },
    )
}

/// The preview of image content: the pixel size when the content is a PNG
/// image large enough to carry its header, else a fixed phrase.
pub open spec fn image_preview(b: Seq<u8>, mime: Seq<char>) -> Seq<char> {
    if mime == "image/png"@ && b.len() >= 24 {
        "copied image ("@ + dec_u64(be32(b, 16)) + "x"@ + dec_u64(be32(b, 20)) + ")"@
    } else {
        "copied image"@
    }
}

/// The preview of captured content.
pub open spec fn spec_preview(b: Seq<u8>, mime: Seq<char>, ct: ContentType) -> Seq<char> {
    match ct {
        ContentType::Text => text_preview(b),
        ContentType::Image => image_preview(b, mime),
    }
}

/// The big-endian 32-bit value at offset `i`.
fn read_be32(b: &[u8], i: usize) -> (r: u32)
    requires
        i + 4 <= b@.len(),
    ensures
        r as nat == be32(b@, i as int),
{
    (b[i] as u32) * 0x1000000 + (b[i + 1] as u32) * 0x10000 + (b[i + 2] as u32) * 0x100 + (b[i
        + 3] as u32)
}

/// Derive the preview shown for captured content.
pub fn generate_preview(content: &[u8], mime_type: &str, content_type: ContentType) -> (r: String)
    ensures
        r@ == spec_preview(content@, mime_type@, content_type),
{
    match content_type {
        ContentType::Text => {
            let s = from_utf8_lossy(content);
            let cs = str_chars(s.as_str());
            let collapsed = collapse_ws_prefix(&cs, 200);
            string_from_chars(&collapsed)
        },
        ContentType::Image => {
            let png = String::from_str("image/png");
            let m = mime_type.to_owned();
            if png == m && content.len() >= 24 {
                let w = read_be32(content, 16);
                let h = read_be32(content, 20);
                let mut out = str_chars("copied image (");
                push_dec_u64(&mut out, w as u64);
                crate::codec::push_lit(&mut out, "x");
                push_dec_u64(&mut out, h as u64);
                crate::codec::push_lit(&mut out, ")");
                proof {
                    assert(out@ =~= "copied image ("@ + dec_u64(be32(content@, 16)) + "x"@
                        + dec_u64(be32(content@, 20)) + ")"@);
                }
                string_from_chars(&out)
            } else {
                assert(!(mime_type@ == "image/png"@ && content@.len() >= 24));
                let r = String::from_str("copied image");
                r
            }
        },
    }
}

// ---------------------------------------------------------------------------
// Capture handling.
// ---------------------------------------------------------------------------

/// What became of one capture.
#[derive(Debug, Clone, Copy, PartialEq, Eq, Structural)]
pub enum CaptureOutcome {
    /// Dropped: larger than the configured ceiling.
    TooLarge,
    /// Dropped: smaller than the configured floor.
    TooSmall,
    /// The same bytes were already stored; their entry was touched.
    Touched,
    /// A new entry was stored, and an eviction pass ran.
    Stored { id: i64 },
    /// Dropped: the id space is exhausted.
    StoreFull,
}

/// Admit one capture: drop it when it falls outside the configured size
/// bounds; touch the existing entry when the same bytes are already stored;
/// else store a new entry and run an eviction pass.
pub fn handle_clipboard_event(
    db: &mut Database,
    config: &Config,
    content: Vec<u8>,
    mime_type: String,
    now: i64,
) -> (r: CaptureOutcome)
    requires
        old(db).wf(),
    ensures
        final(db).wf(),
        ({
            let h = content_hash_of(content@);
            let ct = spec_content_type(mime_type@);
            if content@.len() > config@.max_entry_size {
                r == CaptureOutcome::TooLarge && final(db)@ == old(db)@
            } else if content@.len() < config@.min_entry_size {
                r == CaptureOutcome::TooSmall && final(db)@ == old(db)@
            } else if has_hash(old(db)@, h) {
                r == CaptureOutcome::Touched && exists|k: int|
                    0 <= k < old(db)@.len() && (#[trigger] old(db)@[k]).content_hash == h
                        && final(db)@ =~= old(db)@.update(k, touched(old(db)@[k], now))
            } else if old(db).spec_next_id() == i64::MAX {
                r == CaptureOutcome::StoreFull && final(db)@ == old(db)@
            } else {
                r == (CaptureOutcome::Stored { id: old(db).spec_next_id() as i64 }) && exists|
                    mid: Seq<StoredEntryV>,
                |
                    inserted_somewhere(
                        old(db)@,
                        mid,
                        new_entry_v(
                            old(db).spec_next_id() as i64,
                            h,
                            ct,
                            mime_type@,
                            spec_preview(content@, mime_type@, ct),
                            content@,
                            now,
                        ),
                    ) && cleanup_post(
                        aged(mid, config@.max_age_days, now),
                        final(db)@,
                        config@.max_entries,
                    )
            }
        }),
{
    let len64 = content.len() as u64;
    if len64 > config.daemon.max_entry_size {
        return CaptureOutcome::TooLarge;
    }
    if len64 < config.daemon.min_entry_size {
        return CaptureOutcome::TooSmall;
    }
    let digest = sha256_bytes(content.as_slice());
    let hashv = hex_lower(&digest);
    let hash = string_from_chars(&hashv);
    match db.find_by_hash(hash.as_str()) {
        Some(_) => {
            db.touch_by_hash(hash.as_str(), now);
            CaptureOutcome::Touched
        },
        None => {
            let ct = ContentType::from_mime(mime_type.as_str());
            let preview = generate_preview(content.as_slice(), mime_type.as_str(), ct);
            match db.insert_entry(hash, ct, mime_type, preview, content, now) {
                Some(id) => {
                    let ghost mid = db@;
                    db.sweep(config.daemon.max_entries, config.daemon.max_age_days, now);
                    proof {
                        assert(cleanup_post(
                            aged(mid, config@.max_age_days, now),
                            db@,
                            config@.max_entries,
                        ));
                        assert(inserted_somewhere(
                            old(db)@,
                            mid,
                            new_entry_v(
                                old(db).spec_next_id() as i64,
                                content_hash_of(content@),
                                spec_content_type(mime_type@),
                                mime_type@,
                                spec_preview(content@, mime_type@, spec_content_type(mime_type@)),
                                content@,
                                now,
                            ),
                        ));
                    }
                    CaptureOutcome::Stored { id }
                },
                None => CaptureOutcome::StoreFull,
            }
        },
    }
}

// ---------------------------------------------------------------------------
// Request handling.
// ---------------------------------------------------------------------------

/// What the coordinator asks its caller to do for one request: write a
/// response back, or first install an entry's bytes as the current selection
/// and then report how that went through `finish_publish`.
pub enum Action {
    Respond(Response),
    Publish { id: i64, mime_type: String, data: Vec<u8> },
}

/// The mathematical view of an action.
pub enum ActionV {
    Respond(RespV),
    Publish { id: i64, mime_type: Seq<char>, data: Seq<u8> },
}

impl DeepView for Action {
    type V = ActionV;

    open spec fn deep_view(&self) -> ActionV {
        self.view()
    }
}

impl View for Action {
    type V = ActionV;

    open spec fn view(&self) -> ActionV {
        match self {
            Action::Respond(resp) => ActionV::Respond(resp@),
            Action::Publish { id, mime_type, data } => ActionV::Publish {
                id: *id,
                mime_type: mime_type@,
                data: data@,
            },
        }
    }
}

/// The daemon version string.
pub fn version() -> (s: String)
    ensures
        s@ == "0.1.0"@,
{
    String::from_str("0.1.0")
}

/// The error response for a missing id, as a view.
pub open spec fn not_found_v(id: i64) -> RespV {
    RespV::Error { code: ErrorCode::NotFound, message: not_found_message(id as int) }
}

/// What servicing one request does: how the store moves from `pre` to `post`
/// and which action comes out, for each request kind.
pub open spec fn apply_post(
    pre: Seq<StoredEntryV>,
    rv: ReqV,
    db_size: u64,
    post: Seq<StoredEntryV>,
    a: ActionV,
) -> bool {
    match rv {
        ReqV::GetHistory { limit, offset, search } => post == pre && a == ActionV::Respond(
            RespV::History {
                entries: spec_page(
                    to_hist_all(hist_list(pre, norm_query(search), pre.len() as int)),
                    match limit {
                        Some(x) => x,
                        None => 100u32,
                    },
                    match offset {
                        Some(x) => x,
                        None => 0u32,
                    },
                ),
                total_count: hist_list(pre, norm_query(search), pre.len() as int).len() as u64,
            },
        ),
        ReqV::GetContent { id } => post == pre && (if has_id(pre, id) {
            exists|k: int|
                0 <= k < pre.len() && (#[trigger] pre[k]).id == id && a == ActionV::Respond(
                    RespV::Content {
                        id,
                        mime_type: pre[k].mime_type,
                        data: base64_of(pre[k].bytes),
                    },
                )
        } else {
            a == ActionV::Respond(not_found_v(id))
        }),
        ReqV::SetClipboard { id } => post == pre && (if has_id(pre, id) {
            exists|k: int|
                0 <= k < pre.len() && (#[trigger] pre[k]).id == id && a == (ActionV::Publish {
                    id,
                    mime_type: pre[k].mime_type,
                    data: pre[k].bytes,
                })
        } else {
            a == ActionV::Respond(not_found_v(id))
        }),
        ReqV::DeleteEntry { id } => if has_id(pre, id) {
            a == ActionV::Respond(RespV::Okay) && exists|k: int|
                0 <= k < pre.len() && (#[trigger] pre[k]).id == id && post =~= pre.remove(k)
        } else {
            post == pre && a == ActionV::Respond(not_found_v(id))
        },
        ReqV::ClearHistory => a == ActionV::Respond(RespV::Okay) && post
            == crate::store::keep_pinned(pre),
        ReqV::SetPinned { id, pinned } => if has_id(pre, id) {
            a == ActionV::Respond(RespV::Okay) && exists|k: int|
                0 <= k < pre.len() && (#[trigger] pre[k]).id == id && post =~= pre.update(
                    k,
                    StoredEntryV { pinned, ..pre[k] },
                )
        } else {
            post == pre && a == ActionV::Respond(not_found_v(id))
        },
        ReqV::GetStatus => post == pre && a == ActionV::Respond(
            RespV::Status {
                version: "0.1.0"@,
                entry_count: pre.len() as u64,
                database_size_bytes: db_size,
            },
        ),
        ReqV::Ping => post == pre && a == ActionV::Respond(RespV::Pong),
    }
}

/// Service one decoded request against the store.  `db_size` is the size of
/// the durable copy of the store as the caller measured it.  A
/// `set_clipboard` request with a stored id yields a `Publish` action;
/// everything else yields its response directly.
pub fn apply_request(db: &mut Database, req: Request, db_size: u64) -> (a: Action)
    requires
        old(db).wf(),
    ensures
        final(db).wf(),
        apply_post(old(db)@, req@, db_size, final(db)@, a@),
{
    match req {
        Request::GetHistory { limit, offset, search } => {
            let (entries, total_count) = db.get_history(
                limit,
                offset,
                match &search {
                    Some(s) => Some(s.as_str()),
                    None => None,
                },
            );
            Action::Respond(Response::History { entries, total_count })
        },
        Request::GetContent { id } => {
            match db.get_content(id) {
                Some((mime_type, data)) => {
                    let encoded = base64_encode(data.as_slice());
                    Action::Respond(Response::Content { id, mime_type, data: encoded })
                },
                None => Action::Respond(Response::not_found(id)),
            }
        },
        Request::SetClipboard { id } => {
            match db.get_content(id) {
                Some((mime_type, data)) => Action::Publish { id, mime_type, data },
                None => Action::Respond(Response::not_found(id)),
            }
        },
        Request::DeleteEntry { id } => {
            if db.delete_entry(id) {
                Action::Respond(Response::Okay)
            } else {
                Action::Respond(Response::not_found(id))
            }
        },
        Request::ClearHistory => {
            db.clear_unpinned();
            Action::Respond(Response::Okay)
        },
        Request::SetPinned { id, pinned } => {
            if db.set_pinned(id, pinned) {
                Action::Respond(Response::Okay)
            } else {
                Action::Respond(Response::not_found(id))
            }
        },
        Request::GetStatus => {
            let entry_count = db.count_entries();
            Action::Respond(
                Response::Status { version: version(), entry_count, database_size_bytes: db_size },
            )
        },
        Request::Ping => Action::Respond(Response::Pong),
    }
}

/// Conclude a `Publish` action: when the publisher succeeded, touch the
/// published entry and answer `ok`; else answer a clipboard error carrying
/// the publisher's message.
pub fn finish_publish(
    db: &mut Database,
    id: i64,
    now: i64,
    published: bool,
    error_message: String,
) -> (r: Response)
    requires
        old(db).wf(),
    ensures
        final(db).wf(),
        published ==> r@ == RespV::Okay && (if has_id(old(db)@, id) {
            exists|k: int|
                0 <= k < old(db)@.len() && (#[trigger] old(db)@[k]).id == id
                    && final(db)@ =~= old(db)@.update(k, touched(old(db)@[k], now))
        } else {
            final(db)@ == old(db)@
        }),
        !published ==> final(db)@ == old(db)@ && r@ == (RespV::Error {
            code: ErrorCode::ClipboardError,
            message: error_message@,
        }),
{
    if published {
        db.touch_entry(id, now);
        Response::Okay
    } else {
        Response::error(ErrorCode::ClipboardError, error_message)
    }
}

/// What servicing one raw record does: a record that does not decode is
/// answered with `invalid_request` and leaves the store unchanged — the
/// connection goes on — and a decoded request is serviced as `apply_post`
/// says.
pub open spec fn record_post(
    pre: Seq<StoredEntryV>,
    line: Seq<u8>,
    db_size: u64,
    post: Seq<StoredEntryV>,
    a: ActionV,
) -> bool {
    match spec_decode_request(line) {
        Some(rv) => apply_post(pre, rv, db_size, post, a),
        None => post == pre && a == ActionV::Respond(
            RespV::Error { code: ErrorCode::InvalidRequest, message: "invalid request"@ },
        ),
    }
}

/// Service one raw record from a connection, as `record_post` says.
pub fn respond_record(db: &mut Database, line: &[u8], db_size: u64) -> (a: Action)
    requires
        old(db).wf(),
    ensures
        final(db).wf(),
        record_post(old(db)@, line@, db_size, final(db)@, a@),
{
    match crate::codec::decode_request(line) {
        Some(req) => apply_request(db, req, db_size),
        None => Action::Respond(
            Response::error(ErrorCode::InvalidRequest, String::from_str("invalid request")),
        ),
    }
}

/// Whether the actions `acts` answer the records `lines` in order: there is
/// one action per record, and the store states chain so that the action at
/// each position answers the record at the same position against the state
/// the records before it left behind.
pub open spec fn batch_post(
    pre: Seq<StoredEntryV>,
    lines: Seq<Seq<u8>>,
    db_size: u64,
    post: Seq<StoredEntryV>,
    acts: Seq<ActionV>,
) -> bool
    decreases lines.len(),
{
    if lines.len() == 0 {
        post == pre && acts.len() == 0
    } else {
        acts.len() == lines.len() && exists|mid: Seq<StoredEntryV>|
            #[trigger] record_post(pre, lines[0], db_size, mid, acts[0]) && batch_post(
                mid,
                lines.drop_first(),
                db_size,
                post,
                acts.drop_first(),
            )
    }
}

/// One more record extends an answered batch at its end.
proof fn lemma_batch_post_snoc(
    pre: Seq<StoredEntryV>,
    lines: Seq<Seq<u8>>,
    db_size: u64,
    mid: Seq<StoredEntryV>,
    acts: Seq<ActionV>,
    line: Seq<u8>,
    post: Seq<StoredEntryV>,
    a: ActionV,
)
    requires
        batch_post(pre, lines, db_size, mid, acts),
        record_post(mid, line, db_size, post, a),
    ensures
        batch_post(pre, lines.push(line), db_size, post, acts.push(a)),
    decreases lines.len(),
{
    let nl = lines.push(line);
    let na = acts.push(a);
    if lines.len() == 0 {
        assert(nl[0] == line && na[0] == a);
        assert(nl.drop_first() =~= Seq::<Seq<u8>>::empty());
        assert(na.drop_first() =~= Seq::<ActionV>::empty());
        assert(record_post(pre, nl[0], db_size, post, na[0]));
        assert(batch_post(post, nl.drop_first(), db_size, post, na.drop_first()));
    } else {
        let m1 = choose|m1: Seq<StoredEntryV>|
            #[trigger] record_post(pre, lines[0], db_size, m1, acts[0]) && batch_post(
                m1,
                lines.drop_first(),
                db_size,
                mid,
                acts.drop_first(),
            );
        lemma_batch_post_snoc(
            m1,
            lines.drop_first(),
            db_size,
            mid,
            acts.drop_first(),
            line,
            post,
            a,
        );
        assert(nl.drop_first() =~= lines.drop_first().push(line));
        assert(na.drop_first() =~= acts.drop_first().push(a));
        assert(nl[0] == lines[0] && na[0] == acts[0]);
        assert(record_post(pre, nl[0], db_size, m1, na[0]));
    }
}

/// Service the records of one connection in order.  The action at each
/// position answers the record at the same position: on one connection, the
/// order of responses is the order of requests.
pub fn respond_batch(db: &mut Database, lines: &Vec<Vec<u8>>, db_size: u64) -> (acts: Vec<Action>)
    requires
        old(db).wf(),
    ensures
        final(db).wf(),
        acts@.len() == lines@.len(),
        batch_post(old(db)@, lines.deep_view(), db_size, final(db)@, acts.deep_view()),
{
    let n = lines.len();
    let mut acts: Vec<Action> = Vec::new();
    proof {
        assert(lines.deep_view().subrange(0, 0) =~= Seq::<Seq<u8>>::empty());
        assert(acts.deep_view() =~= Seq::<ActionV>::empty());
    }
    let mut i: usize = 0;
    while i < n
        invariant
            0 <= i <= n,
            n == lines@.len(),
            db.wf(),
            acts@.len() == i,
            batch_post(
                old(db)@,
                lines.deep_view().subrange(0, i as int),
                db_size,
                db@,
                acts.deep_view(),
            ),
        decreases n - i,
    {
        let ghost pre_mid = db@;
        let ghost acc0 = acts.deep_view();
        let a = respond_record(db, lines[i].as_slice(), db_size);
        let ghost av = a@;
        acts.push(a);
        proof {
            assert(acts.deep_view() =~= acc0.push(av));
            assert(lines.deep_view().subrange(0, i as int + 1) =~= lines.deep_view().subrange(
                0,
                i as int,
            ).push(lines.deep_view()[i as int]));
            assert(lines.deep_view()[i as int] == lines@[i as int]@);
            lemma_batch_post_snoc(
                old(db)@,
                lines.deep_view().subrange(0, i as int),
                db_size,
                pre_mid,
                acc0,
                lines.deep_view()[i as int],
                db@,
                av,
            );
        }
        i += 1;
    }
    proof {
        assert(lines.deep_view().subrange(0, n as int) =~= lines.deep_view());
    }
    acts
}

} // verus!
