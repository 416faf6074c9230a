//! Requests and responses of the client/daemon protocol.

use vstd::prelude::*;

verus! {

use crate::text::{dec_i64, push_dec_i64, string_from_chars, str_chars};
use crate::types::HistoryEntry;

/// A request from a client to the daemon.
#[derive(Debug, Clone, PartialEq, Eq)]
pub enum Request {
    /// List history entries.
    GetHistory { limit: Option<u32>, offset: Option<u32>, search: Option<String> },
    /// Fetch the raw content of an entry.
    GetContent { id: i64 },
    /// Re-publish an entry to the clipboard.
    SetClipboard { id: i64 },
    /// Delete an entry.
    DeleteEntry { id: i64 },
    /// Delete all non-pinned entries.
    ClearHistory,
    /// Pin or unpin an entry.
    SetPinned { id: i64, pinned: bool },
    /// Report daemon status.
    GetStatus,
    /// Liveness check.
    Ping,
}

/// A response from the daemon to a client.
#[derive(Debug, Clone, PartialEq, Eq)]
pub enum Response {
    /// A page of history entries and the total count for pagination.
    History { entries: Vec<HistoryEntry>, total_count: u64 },
    /// Raw content of one entry; `data` is standard base64 over the bytes.
    Content { id: i64, mime_type: String, data: String },
    /// Generic success; its wire tag is `ok`.
    Okay,
    /// An error, with its code and a human-readable message.
    Error { code: ErrorCode, message: String },
    /// Daemon status.
    Status { version: String, entry_count: u64, database_size_bytes: u64 },
    /// Reply to `Ping`.
    Pong,
}

/// Error codes carried by error responses.
#[derive(Debug, Clone, Copy, PartialEq, Eq, Structural)]
pub enum ErrorCode {
    /// No entry with the given id.
    NotFound,
    /// A failure of the persistent store.
    DatabaseError,
    /// The clipboard publisher failed.
    ClipboardError,
    /// A record that could not be decoded, or an unknown variant.
    InvalidRequest,
    /// The daemon could not produce a reply.
    InternalError,
}

/// The mathematical view of a request: its strings as character sequences.
pub enum ReqV {
    GetHistory { limit: Option<u32>, offset: Option<u32>, search: Option<Seq<char>> },
    GetContent { id: i64 },
    SetClipboard { id: i64 },
    DeleteEntry { id: i64 },
    ClearHistory,
    SetPinned { id: i64, pinned: bool },
    GetStatus,
    Ping,
}

impl View for Request {
    type V = ReqV;

    open spec fn view(&self) -> ReqV {
        match self {
            Request::GetHistory { limit, offset, search } => ReqV::GetHistory {
                limit: *limit,
                offset: *offset,
                search: match search {
                    Some(s) => Some(s@),
                    None => None,
                },
            },
            Request::GetContent { id } => ReqV::GetContent { id: *id },
            Request::SetClipboard { id } => ReqV::SetClipboard { id: *id },
            Request::DeleteEntry { id } => ReqV::DeleteEntry { id: *id },
            Request::ClearHistory => ReqV::ClearHistory,
            Request::SetPinned { id, pinned } => ReqV::SetPinned { id: *id, pinned: *pinned },
            Request::GetStatus => ReqV::GetStatus,
            Request::Ping => ReqV::Ping,
        }
    }
}

/// The mathematical view of a response.
pub enum RespV {
    History { entries: Seq<crate::types::EntryV>, total_count: u64 },
    Content { id: i64, mime_type: Seq<char>, data: Seq<char> },
    Okay,
    Error { code: ErrorCode, message: Seq<char> },
    Status { version: Seq<char>, entry_count: u64, database_size_bytes: u64 },
    Pong,
}

impl View for Response {
    type V = RespV;

    open spec fn view(&self) -> RespV {
        match self {
            Response::History { entries, total_count } => RespV::History {
                entries: entries.deep_view(),
                total_count: *total_count,
            },
            Response::Content { id, mime_type, data } => RespV::Content {
                id: *id,
                mime_type: mime_type@,
                data: data@,
            },
            Response::Okay => RespV::Okay,
            Response::Error { code, message } => RespV::Error {
                code: *code,
                message: message@,
            },
            Response::Status { version, entry_count, database_size_bytes } => RespV::Status {
                version: version@,
                entry_count: *entry_count,
                database_size_bytes: *database_size_bytes,
            },
            Response::Pong => RespV::Pong,
        }
    }
}

/// The message of the error response for a missing entry id.
pub open spec fn not_found_message(id: int) -> Seq<char> {
    "Entry "@ + dec_i64(id) + " not found"@
}

impl Response {
    /// An error response from a code and a message.
    pub fn error(code: ErrorCode, message: String) -> (r: Response)
        ensures
            r == (Response::Error { code, message }),
    {
        Response::Error { code, message }
    }

    /// The error response for a missing entry id.
    pub fn not_found(id: i64) -> (r: Response)
        ensures
            r matches Response::Error { code, message } && code == ErrorCode::NotFound
                && message@ == not_found_message(id as int),
    {
        let mut m = str_chars("Entry ");
        push_dec_i64(&mut m, id);
        let mut tail = str_chars(" not found");
        m.append(&mut tail);
        let message = string_from_chars(&m);
        Response::Error { code: ErrorCode::NotFound, message }
    }

    /// Whether this is an error response.
    pub fn is_error(&self) -> (b: bool)
        ensures
            b == (*self matches Response::Error { .. }),
    {
        matches!(self, Response::Error { .. })
    }
}

} // verus!
