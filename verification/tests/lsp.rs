use koyashi::lsp::client::{
    classify, is_ready_status, message_kind, next_request_id, notification_step, request_step,
    server_reply, MessageKind, MessageShape, NotificationStep, ProtocolError, RequestStep,
};
use koyashi::lsp::transport::{body_length, frame_header, header_line, trim_text, FrameError, HeaderLine};

fn read_header(lines: &[&str]) -> Result<usize, FrameError> {
    let mut content_length = None;
    for line in lines {
        match header_line(line)? {
            HeaderLine::End => break,
            HeaderLine::ContentLength(n) => content_length = Some(n),
            HeaderLine::Other => {}
        }
    }
    body_length(content_length)
}

#[test]
fn write_then_read_round_trips() {
    let mut object = serde_json::Map::new();
    object.insert("method".to_string(), serde_json::Value::String("ping".to_string()));
    let message = serde_json::Value::Object(object);
    let payload = serde_json::to_vec(&message).unwrap();

    let mut buffer = frame_header(payload.len()).into_bytes();
    buffer.extend_from_slice(&payload);

    let text = String::from_utf8(buffer).unwrap();
    let (header, body) = text.split_once("\r\n\r\n").unwrap();
    let first = format!("{header}\r\n");
    let length = read_header(&[first.as_str(), "\r\n"]).unwrap();
    assert_eq!(length, body.len());
    let read: serde_json::Value = serde_json::from_str(&body[..length]).unwrap();
    assert_eq!(read, message);
}

#[test]
fn header_lines() {
    assert_eq!(frame_header(17), "Content-Length: 17\r\n\r\n");
    assert_eq!(header_line("Content-Length: 17\r\n"), Ok(HeaderLine::ContentLength(17)));
    assert_eq!(header_line("Content-Length:+8\n"), Ok(HeaderLine::ContentLength(8)));
    assert_eq!(header_line("\r\n"), Ok(HeaderLine::End));
    assert_eq!(header_line("Content-Type: x\r\n"), Ok(HeaderLine::Other));
    assert_eq!(header_line("Content-Length: x\r\n"), Err(FrameError::InvalidContentLength));
    assert_eq!(
        header_line("Content-Length: 99999999999999999999999\r\n"),
        Err(FrameError::InvalidContentLength)
    );
    assert_eq!(read_header(&["Content-Type: x\r\n", "\r\n"]), Err(FrameError::MissingContentLength));
    assert_eq!(trim_text("\t 12 \u{3000}"), "12");
}

fn shape(method: Option<&str>, id: Option<Option<i64>>, error: Option<Option<&str>>) -> MessageShape {
    MessageShape {
        method: method.map(|m| m.to_string()),
        has_id: id.is_some(),
        id: id.flatten(),
        has_error: error.is_some(),
        error_message: error.flatten().map(|m| m.to_string()),
    }
}

#[test]
fn messages_are_sorted_by_their_members() {
    match classify(shape(Some("workspace/configuration"), Some(Some(3)), None)) {
        Ok(MessageKind::ServerRequest { method }) => assert_eq!(method, "workspace/configuration"),
        other => panic!("unexpected {other:?}"),
    }
    match classify(shape(Some("experimental/serverStatus"), None, None)) {
        Ok(MessageKind::Notification { method }) => assert_eq!(method, "experimental/serverStatus"),
        other => panic!("unexpected {other:?}"),
    }
    match classify(shape(None, Some(Some(7)), Some(None))) {
        Ok(MessageKind::Response { id, error }) => {
            assert_eq!(id, 7);
            assert_eq!(error.as_deref(), Some("unknown error"));
        }
        other => panic!("unexpected {other:?}"),
    }
    match classify(shape(None, Some(Some(8)), None)) {
        Ok(MessageKind::Response { id, error }) => {
            assert_eq!(id, 8);
            assert!(error.is_none());
        }
        other => panic!("unexpected {other:?}"),
    }
    assert!(matches!(classify(shape(None, Some(None), None)), Err(ProtocolError::NonIntegerId)));
    assert!(matches!(classify(shape(None, None, None)), Err(ProtocolError::Malformed)));
}

#[test]
fn server_requests_get_default_replies() {
    assert_eq!(server_reply("workspace/configuration", Some(3)), Some(3));
    assert_eq!(server_reply("workspace/configuration", None), Some(0));
    assert_eq!(server_reply("window/workDoneProgress/create", Some(3)), None);
    assert_eq!(next_request_id(41), 42);
}

#[test]
fn awaiting_a_response_sorts_incoming_messages() {
    let done = request_step(
        7,
        MessageKind::Response { id: 7, error: None },
    );
    assert!(matches!(done, RequestStep::Done { error: None }));
    let failed = request_step(
        7,
        MessageKind::Response { id: 7, error: Some("boom".to_string()) },
    );
    assert!(matches!(failed, RequestStep::Done { error: Some(ref e) } if e == "boom"));
    let other = request_step(7, MessageKind::Response { id: 3, error: None });
    assert!(matches!(other, RequestStep::Skip));
    let queued = request_step(
        7,
        MessageKind::Notification { method: "$/progress".to_string() },
    );
    assert!(matches!(queued, RequestStep::Queue { ref method } if method == "$/progress"));
    let answered = request_step(
        7,
        MessageKind::ServerRequest { method: "workspace/configuration".to_string() },
    );
    assert!(matches!(answered, RequestStep::Answer { ref method } if method == "workspace/configuration"));
}

#[test]
fn readiness_needs_a_quiescent_status() {
    assert!(is_ready_status("experimental/serverStatus", Some(true)));
    assert!(!is_ready_status("experimental/serverStatus", Some(false)));
    assert!(!is_ready_status("experimental/serverStatus", None));
    assert!(!is_ready_status("$/progress", Some(true)));
}

#[test]
fn message_bodies_are_classified() {
    let kind = message_kind(br#"{"jsonrpc":"2.0","id":4,"result":null}"#);
    assert!(matches!(kind, Some(Ok(MessageKind::Response { id: 4, error: None }))));
    let kind = message_kind(br#"{"id":4,"error":{"code":1,"message":"no"}}"#);
    assert!(matches!(kind, Some(Ok(MessageKind::Response { id: 4, error: Some(ref e) })) if e == "no"));
    let kind = message_kind(br#"{"id":4,"error":{"code":1}}"#);
    assert!(matches!(kind, Some(Ok(MessageKind::Response { error: Some(ref e), .. })) if e == "unknown error"));
    let kind = message_kind(br#"{"method":"$/progress","params":{}}"#);
    assert!(matches!(kind, Some(Ok(MessageKind::Notification { ref method })) if method == "$/progress"));
    let kind = message_kind(br#"{"id":"a","method":"workspace/configuration"}"#);
    assert!(matches!(kind, Some(Ok(MessageKind::ServerRequest { ref method })) if method == "workspace/configuration"));
    assert!(matches!(message_kind(br#"{"id":"a"}"#), Some(Err(ProtocolError::NonIntegerId))));
    assert!(matches!(message_kind(br#"{"jsonrpc":"2.0"}"#), Some(Err(ProtocolError::Malformed))));
    assert!(matches!(message_kind(br#"[1, 2]"#), Some(Err(ProtocolError::Malformed))));
    assert!(message_kind(b"{not json").is_none());
}

#[test]
fn awaiting_a_notification_sorts_incoming_messages() {
    let delivered = notification_step(MessageKind::Notification { method: "$/progress".to_string() });
    assert!(matches!(delivered, NotificationStep::Deliver { ref method } if method == "$/progress"));
    let answered = notification_step(MessageKind::ServerRequest { method: "client/registerCapability".to_string() });
    assert!(matches!(answered, NotificationStep::Answer { ref method } if method == "client/registerCapability"));
    let skipped = notification_step(MessageKind::Response { id: 1, error: None });
    assert!(matches!(skipped, NotificationStep::Skip));
}
