use shellymcshellface::types::{SseEvent, StatusState};

#[test]
fn test_output_event_serialises_to_sse_parts() {
    let ev = SseEvent::output("hello\n");
    let (event_type, data) = ev.to_sse_parts();
    assert_eq!(event_type, "output");
    let json: serde_json::Value = serde_json::from_str(&data).unwrap();
    assert_eq!(json["text"], "hello\n");
}

#[test]
fn test_input_event_serialises_to_sse_parts() {
    let ev = SseEvent::input("ls -la");
    let (event_type, data) = ev.to_sse_parts();
    assert_eq!(event_type, "input");
    let json: serde_json::Value = serde_json::from_str(&data).unwrap();
    assert_eq!(json["text"], "ls -la");
}

#[test]
fn test_status_connected_serialises() {
    let ev = SseEvent::connected();
    let (event_type, data) = ev.to_sse_parts();
    assert_eq!(event_type, "status");
    let json: serde_json::Value = serde_json::from_str(&data).unwrap();
    assert_eq!(json["state"], "connected");
}

#[test]
fn test_status_pty_exited_with_code() {
    let ev = SseEvent::pty_exited(Some(1));
    let (_, data) = ev.to_sse_parts();
    let json: serde_json::Value = serde_json::from_str(&data).unwrap();
    assert_eq!(json["state"], "pty_exited");
    assert_eq!(json["code"], 1);
}

#[test]
fn test_status_pty_exited_code_zero_has_no_code_field() {
    let ev = SseEvent::pty_exited(Some(0));
    let (_, data) = ev.to_sse_parts();
    let json: serde_json::Value = serde_json::from_str(&data).unwrap();
    assert_eq!(json["code"], serde_json::Value::Null);
    assert!(json.get("code").is_none());
}

#[test]
fn test_status_user_quit_serialises() {
    let ev = SseEvent::user_quit();
    let (event_type, data) = ev.to_sse_parts();
    assert_eq!(event_type, "status");
    let json: serde_json::Value = serde_json::from_str(&data).unwrap();
    assert_eq!(json["state"], "user_quit");
    assert_eq!(json["code"], serde_json::Value::Null);
}

#[test]
fn test_exact_wire_text() {
    assert_eq!(
        SseEvent::output("say \"hi\"\\\n\t\u{1}\u{1f}\u{7f}\u{e9}").to_sse_parts().1,
        "{\"text\":\"say \\\"hi\\\"\\\\\\n\\t\\u0001\\u001f\u{7f}\u{e9}\"}"
    );
    assert_eq!(
        SseEvent::pty_exited(Some(-2147483648)).to_sse_parts().1,
        "{\"code\":-2147483648,\"state\":\"pty_exited\"}"
    );
    assert_eq!(
        SseEvent::pty_error().to_sse_parts(),
        ("status".to_string(), "{\"state\":\"pty_error\"}".to_string())
    );
    assert_eq!(SseEvent::connected().to_sse_parts().1, "{\"state\":\"connected\"}");
    assert_eq!(SseEvent::pty_exited(Some(0)).to_sse_parts().1, "{\"state\":\"pty_exited\"}");
    assert_eq!(
        SseEvent::pty_exited(Some(7)).to_sse_parts().1,
        "{\"code\":7,\"state\":\"pty_exited\"}"
    );
}

#[test]
fn test_wire_text_matches_a_serde_json_object() {
    for text in ["", "plain", "\u{8}\u{c}\r\"/", "\u{1F600} ok"] {
        let expected = serde_json::Value::Object(
            [("text".to_string(), serde_json::Value::String(text.to_string()))]
                .into_iter()
                .collect(),
        )
        .to_string();
        assert_eq!(SseEvent::input(text).to_sse_parts().1, expected);
    }
}

#[test]
fn test_pty_exited_codes() {
    match SseEvent::pty_exited(None) {
        SseEvent::Status { state, code } => {
            assert_eq!(state, StatusState::PtyExited);
            assert_eq!(code, None);
        }
        other => panic!("unexpected {:?}", other),
    }
    match SseEvent::pty_exited(Some(-1)) {
        SseEvent::Status { code, .. } => assert_eq!(code, Some(-1)),
        other => panic!("unexpected {:?}", other),
    }
}

#[test]
fn test_clone_keeps_contents() {
    let ev = SseEvent::output("x");
    match ev.clone() {
        SseEvent::Output { text } => assert_eq!(text, "x"),
        other => panic!("unexpected {:?}", other),
    }
}
