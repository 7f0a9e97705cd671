//! The sorting of the messages a language server sends, and the replies to
//! its requests.
//!
//! The caller holds the JSON values; it hands here what the decisions read.

use vstd::prelude::*;
use vstd::string::*;

use crate::text::same_text;

verus! {

/// What a message from the server carries, as far as its kind depends on it.
#[derive(Debug)]
pub struct MessageShape {
    /// The `method` member, where it is a string.
    pub method: Option<String>,
    /// Whether the message has an `id` member.
    pub has_id: bool,
    /// The `id` member, where it is an integer that fits an `i64`.
    pub id: Option<i64>,
    /// Whether the message has an `error` member.
    pub has_error: bool,
    /// The error's `message` member, where it is a string.
    pub error_message: Option<String>,
}

/// The kind of a message from the server.
#[derive(Debug)]
pub enum MessageKind {
    /// A request from the server, which the client answers.
    ServerRequest { method: String },
    /// A notification.
    Notification { method: String },
    /// The response to the request `id`: its result, or the error's detail.
    Response { id: i64, error: Option<String> },
}

/// Why a message could not be understood.
#[derive(Debug, Clone, Copy, PartialEq, Eq, Structural)]
pub enum ProtocolError {
    /// A response whose `id` is not an integer.
    NonIntegerId,
    /// A message with neither a method nor an id.
    Malformed,
}

/// The detail of a response error: its message, or "unknown error".
pub open spec fn error_detail(message: Option<String>) -> Seq<char> {
    match message {
        Some(m) => m@,
        None => "unknown error"@,
    }
}

/// Whether `k` is the kind of the message `m`: with a method and an id it is
/// a request from the server; with a method only, a notification; with an id
/// only, a response, whose id must be an integer.
pub open spec fn kind_of(m: MessageShape, k: MessageKind) -> bool {
    match m.method {
        Some(method) => if m.has_id {
            k matches MessageKind::ServerRequest { method: km } && km@ == method@
        } else {
            k matches MessageKind::Notification { method: km } && km@ == method@
        },
        None => m.has_id && m.id is Some && (k matches MessageKind::Response { id, error } && id
            == m.id->0 && if m.has_error {
            error matches Some(e) && e@ == error_detail(m.error_message)
        } else {
            error is None
        }),
    }
}

/// The error that classifying the message `m` fails with, if it fails.
pub open spec fn shape_error(m: MessageShape) -> Option<ProtocolError> {
    if m.method is Some {
        None
    } else if !m.has_id {
        Some(ProtocolError::Malformed)
    } else if m.id is None {
        Some(ProtocolError::NonIntegerId)
    } else {
        None
    }
}

/// Classify a message from the server.
pub fn classify(m: MessageShape) -> (r: Result<MessageKind, ProtocolError>)
    ensures
        match r {
            Ok(k) => shape_error(m) is None && kind_of(m, k),
            Err(e) => shape_error(m) == Some(e),
        },
{
    match m.method {
        Some(method) => {
            if m.has_id {
                Ok(MessageKind::ServerRequest { method })
            } else {
                Ok(MessageKind::Notification { method })
            }
        },
        None => {
            if !m.has_id {
                return Err(ProtocolError::Malformed);
            }
            let id = match m.id {
                Some(id) => id,
                None => return Err(ProtocolError::NonIntegerId),
            };
            let error = if m.has_error {
                Some(
                    match m.error_message {
                        Some(msg) => msg,
                        None => String::from_str("unknown error"),
                    },
                )
            } else {
                None
            };
            Ok(MessageKind::Response { id, error })
        },
    }
}

/// What `serde_json` reads of a message body: `None` where the body is not
/// JSON, else the members that the message's kind depends on.
pub uninterp spec fn parsed_message(body: Seq<u8>) -> Option<MessageShape>;

/// `serde_json::from_slice` into a `serde_json::Value`, then the members
/// `method` (where a string), `id` (its presence, and its value where an
/// integer that fits an `i64`), `error` (its presence) and the error's
/// `message` (where a string).
///
/// The contract names the result: parsing and reading members depend on the
/// bytes alone.
#[verifier::external_body]
fn message_shape(body: &[u8]) -> (r: Option<MessageShape>)
    ensures
        r == parsed_message(body@),
{
    let message: serde_json::Value = serde_json::from_slice(body).ok()?;
    let error = message.get("error");
    Some(MessageShape {
        method: message.get("method").and_then(serde_json::Value::as_str).map(str::to_owned),
        has_id: message.get("id").is_some(),
        id: message.get("id").and_then(serde_json::Value::as_i64),
        has_error: error.is_some(),
        error_message: error.and_then(|e| e.get("message")).and_then(serde_json::Value::as_str).map(
            str::to_owned,
        ),
    })
}

/// The kind of the message whose body is `body`: `None` where the body is not
/// JSON, else the classification of what it carries (see `classify`).
pub fn message_kind(body: &[u8]) -> (r: Option<Result<MessageKind, ProtocolError>>)
    ensures
        match parsed_message(body@) {
            Some(m) => r matches Some(k) && match k {
                Ok(kk) => shape_error(m) is None && kind_of(m, kk),
                Err(e) => shape_error(m) == Some(e),
            },
            None => r is None,
        },
{
    match message_shape(body) {
        Some(m) => Some(classify(m)),
        None => None,
    }
}

/// How many `null` entries answer a server request, or `None` to answer it
/// with a plain `null`: `workspace/configuration` expects one entry per
/// requested item.
pub open spec fn reply_entries(method: Seq<char>, items: Option<usize>) -> Option<usize> {
    if method == "workspace/configuration"@ {
        Some(
            match items {
                Some(n) => n,
                None => 0,
            },
        )
    } else {
        None
    }
}

/// The shape of the reply to a server request: see `reply_entries`.
pub fn server_reply(method: &str, items: Option<usize>) -> (r: Option<usize>)
    ensures
        r == reply_entries(method@, items),
{
    if same_text(method, "workspace/configuration") {
        Some(
            match items {
                Some(n) => n,
                None => 0,
            },
        )
    } else {
        None
    }
}

/// What a client that awaits the response to one of its requests does with
/// the next message from the server.
#[derive(Debug)]
pub enum RequestStep {
    /// The awaited response: stop waiting; the error's detail, if it failed.
    Done { error: Option<String> },
    /// A response to another request: drop it.
    Skip,
    /// A notification: keep it for later, under its method.
    Queue { method: String },
    /// A request from the server: answer it (see `server_reply`).
    Answer { method: String },
}

/// Decide what to do with the message of kind `kind` while awaiting the
/// response to the request `waiting`.
pub fn request_step(waiting: i64, kind: MessageKind) -> (r: RequestStep)
    ensures
        match kind {
            MessageKind::Response { id, error } => if id == waiting {
                r matches RequestStep::Done { error: e } && e == error
            } else {
                r is Skip
            },
            MessageKind::Notification { method } => r matches RequestStep::Queue { method: m }
                && m == method,
            MessageKind::ServerRequest { method } => r matches RequestStep::Answer { method: m }
                && m == method,
        },
{
    match kind {
        MessageKind::Response { id, error } => {
            if id == waiting {
                RequestStep::Done { error }
            } else {
                RequestStep::Skip
            }
        },
        MessageKind::Notification { method } => RequestStep::Queue { method },
        MessageKind::ServerRequest { method } => RequestStep::Answer { method },
    }
}

/// What a client that awaits the next notification does with the next
/// message from the server.
#[derive(Debug)]
pub enum NotificationStep {
    /// A notification: hand it out, under its method.
    Deliver { method: String },
    /// A request from the server: answer it (see `server_reply`).
    Answer { method: String },
    /// A response: no request awaits it any more; drop it.
    Skip,
}

/// Decide what to do with the message of kind `kind` while awaiting a
/// notification.
pub fn notification_step(kind: MessageKind) -> (r: NotificationStep)
    ensures
        match kind {
            MessageKind::Notification { method } => r matches NotificationStep::Deliver {
                method: m,
            } && m == method,
            MessageKind::ServerRequest { method } => r matches NotificationStep::Answer {
                method: m,
            } && m == method,
            MessageKind::Response { .. } => r is Skip,
        },
{
    match kind {
        MessageKind::Notification { method } => NotificationStep::Deliver { method },
        MessageKind::ServerRequest { method } => NotificationStep::Answer { method },
        MessageKind::Response { .. } => NotificationStep::Skip,
    }
}

/// Whether a notification tells that the server has finished its analysis:
/// an `experimental/serverStatus` notification whose `quiescent` member is
/// `true` (a missing or non-boolean member counts as `false`).
pub fn is_ready_status(method: &str, quiescent: Option<bool>) -> (r: bool)
    ensures
        r <==> (method@ == "experimental/serverStatus"@ && quiescent == Some(true)),
{
    if !same_text(method, "experimental/serverStatus") {
        return false;
    }
    match quiescent {
        Some(q) => q,
        None => false,
    }
}

/// The id of the request after the request `id`.
pub fn next_request_id(id: i64) -> (r: i64)
    requires
        id < i64::MAX,
    ensures
        r == id + 1,
{
    id + 1
}

} // verus!
