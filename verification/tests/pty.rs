use shellymcshellface::event_buffer::EventBuffer;
use shellymcshellface::line_editor::LineEditor;
use shellymcshellface::pty::{
    emit, flush_partial_line, process_stdin_bytes, process_stdout_chunk, push_output_text,
    LiveChannel, Session,
};
use shellymcshellface::types::{SseEvent, StatusState};
use tokio::sync::broadcast;

fn make_deps() -> (LiveChannel, EventBuffer) {
    let (tx, _rx) = broadcast::channel(128);
    (LiveChannel::new(tx), EventBuffer::new())
}

fn output_texts(buf: &EventBuffer) -> Vec<String> {
    buf.snapshot()
        .into_iter()
        .map(|e| match e {
            SseEvent::Output { text } => text,
            other => panic!("expected Output event, got {:?}", other),
        })
        .collect()
}

#[test]
fn test_emit_pushes_to_buffer_and_broadcasts() {
    let (tx, _rx) = broadcast::channel(128);
    let mut rx = tx.subscribe();
    let mut live = LiveChannel::new(tx);
    let mut buf = EventBuffer::new();
    emit(SseEvent::connected(), &mut live, &mut buf);
    assert_eq!(buf.snapshot().len(), 1);
    assert!(rx.try_recv().is_ok());
}

#[test]
fn test_process_stdout_chunk_emits_complete_lines() {
    let (mut live, mut buf) = make_deps();
    let mut partial = String::new();
    process_stdout_chunk(b"hello\nworld\n", &mut partial, &mut live, &mut buf);
    let events = buf.snapshot();
    assert_eq!(events.len(), 2);
}

#[test]
fn test_process_stdout_chunk_buffers_partial_line() {
    let (mut live, mut buf) = make_deps();
    let mut partial = String::new();
    process_stdout_chunk(b"hel", &mut partial, &mut live, &mut buf);
    assert_eq!(buf.snapshot().len(), 0);
    assert_eq!(partial, "hel");
}

#[test]
fn test_process_stdout_chunk_completes_partial() {
    let (mut live, mut buf) = make_deps();
    let mut partial = "hel".to_string();
    process_stdout_chunk(b"lo\n", &mut partial, &mut live, &mut buf);
    assert_eq!(buf.snapshot().len(), 1);
    assert_eq!(partial, "");
}

// A cursor movement inside a line becomes the U+E000 placeholder, as the
// filter itself gives for a\x1b[Ab, and the line keeps its newline.
#[test]
fn test_process_stdout_strips_cursor_movement() {
    let (mut live, mut buf) = make_deps();
    let mut partial = String::new();
    process_stdout_chunk(b"a\x1b[Ab\n", &mut partial, &mut live, &mut buf);
    let events = buf.snapshot();
    if let SseEvent::Output { text } = &events[0] {
        assert_eq!(text, "a\u{E000}b\n");
    } else {
        panic!("expected Output event");
    }
}

#[test]
fn test_process_stdout_lines_are_filtered_and_keep_newline() {
    let (mut live, mut buf) = make_deps();
    let mut partial = String::new();
    process_stdout_chunk(b"a\x1b[Ab\n\x1b[1mc\x1b[0m\nrest", &mut partial, &mut live, &mut buf);
    assert_eq!(output_texts(&buf), vec!["a\u{E000}b\n", "\x1b[1mc\x1b[0m\n"]);
    assert_eq!(partial, "rest");
}

#[test]
fn test_chunking_does_not_change_the_lines() {
    let text = "one\ntwo\r\nthree\n\nfour";
    let (mut live, mut whole) = make_deps();
    let mut partial_whole = String::new();
    push_output_text(text, &mut partial_whole, &mut live, &mut whole);
    for cut in 0..text.len() {
        let (mut live, mut pieces) = make_deps();
        let mut partial = String::new();
        push_output_text(&text[..cut], &mut partial, &mut live, &mut pieces);
        push_output_text(&text[cut..], &mut partial, &mut live, &mut pieces);
        assert_eq!(output_texts(&pieces), output_texts(&whole));
        assert_eq!(partial, partial_whole);
    }
    assert_eq!(output_texts(&whole), vec!["one\n", "two\r\n", "three\n", "\n"]);
    assert_eq!(partial_whole, "four");
}

#[test]
fn test_invalid_utf8_is_replaced() {
    let (mut live, mut buf) = make_deps();
    let mut partial = String::new();
    process_stdout_chunk(b"a\xffb\n", &mut partial, &mut live, &mut buf);
    assert_eq!(output_texts(&buf), vec!["a\u{FFFD}b\n"]);
}

#[test]
fn test_broadcast_receives_each_line() {
    let (tx, _rx) = broadcast::channel(128);
    let mut rx = tx.subscribe();
    let mut live = LiveChannel::new(tx);
    let mut buf = EventBuffer::new();
    let mut partial = String::new();
    process_stdout_chunk(b"x\ny\n", &mut partial, &mut live, &mut buf);
    let mut got = Vec::new();
    while let Ok(SseEvent::Output { text }) = rx.try_recv() {
        got.push(text);
    }
    assert_eq!(got, vec!["x\n", "y\n"]);
}

#[test]
fn test_flush_partial_line() {
    let (mut live, mut buf) = make_deps();
    flush_partial_line("", &mut live, &mut buf);
    assert_eq!(buf.snapshot().len(), 0);
    flush_partial_line("tail\x1b[2J", &mut live, &mut buf);
    assert_eq!(output_texts(&buf), vec!["tail\u{E000}"]);
}

#[test]
fn test_process_stdin_bytes_emits_entered_lines() {
    let (mut live, mut buf) = make_deps();
    let mut ed = LineEditor::new();
    process_stdin_bytes(b"ls -l\x7fa\r  \rpw", &mut ed, &mut live, &mut buf);
    let inputs: Vec<String> = buf
        .snapshot()
        .into_iter()
        .map(|e| match e {
            SseEvent::Input { text } => text,
            other => panic!("expected Input event, got {:?}", other),
        })
        .collect();
    assert_eq!(inputs, vec!["ls -a", "(empty command)"]);
    assert_eq!(ed.buffer(), "pw");
}

#[test]
fn test_process_stdin_bytes_ctrl_q_emits_user_quit_and_stops() {
    let (tx, _rx) = broadcast::channel(128);
    let mut rx = tx.subscribe();
    let mut live = LiveChannel::new(tx);
    let mut buf = EventBuffer::new();
    let mut ed = LineEditor::new();
    let quit = process_stdin_bytes(b"ls\rab\x11cd\r", &mut ed, &mut live, &mut buf);
    assert_eq!(quit, Some(5));
    let events = buf.snapshot();
    assert_eq!(events.len(), 2);
    assert!(matches!(&events[0], SseEvent::Input { text } if text == "ls"));
    assert!(matches!(
        events[1],
        SseEvent::Status { state: StatusState::UserQuit, code: None }
    ));
    assert_eq!(ed.buffer(), "ab");
    assert!(matches!(rx.try_recv(), Ok(SseEvent::Input { .. })));
    assert!(matches!(rx.try_recv(), Ok(SseEvent::Status { state: StatusState::UserQuit, .. })));
    assert!(rx.try_recv().is_err());
}

#[test]
fn test_process_stdin_bytes_without_ctrl_q_returns_none() {
    let (mut live, mut buf) = make_deps();
    let mut ed = LineEditor::new();
    assert_eq!(process_stdin_bytes(b"pw", &mut ed, &mut live, &mut buf), None);
    assert_eq!(process_stdin_bytes(b"d\n", &mut ed, &mut live, &mut buf), None);
    assert!(matches!(&buf.snapshot()[0], SseEvent::Input { text } if text == "pwd"));
}

fn describe(events: Vec<SseEvent>) -> Vec<String> {
    events
        .into_iter()
        .map(|e| match e {
            SseEvent::Input { text } => format!("input {:?}", text),
            SseEvent::Output { text } => format!("output {:?}", text),
            SseEvent::Status { state, code } => format!("status {:?} {:?}", state, code),
        })
        .collect()
}

#[test]
fn test_session_order_connected_lines_tail_exit() {
    let (tx, _rx) = broadcast::channel(128);
    let mut rx = tx.subscribe();
    let mut live = LiveChannel::new(tx);
    let mut buf = EventBuffer::new();
    let mut session = Session::new();
    // Output before the spawn is reported is ignored.
    session.on_output(b"early\n", &mut live, &mut buf);
    session.on_spawn(true, &mut live, &mut buf);
    // An exit before the output ends is ignored.
    session.on_exit(9, &mut live, &mut buf);
    session.on_output(b"he", &mut live, &mut buf);
    session.on_output(b"llo\nwor", &mut live, &mut buf);
    session.on_output(b"ld\n\x1b[1mtail", &mut live, &mut buf);
    session.on_output_end(&mut live, &mut buf);
    session.on_exit(3, &mut live, &mut buf);
    session.on_exit(4, &mut live, &mut buf);
    let expected = vec![
        "status Connected None".to_string(),
        "output \"hello\\n\"".to_string(),
        "output \"world\\n\"".to_string(),
        "output \"\\u{1b}[1mtail\"".to_string(),
        "status PtyExited Some(3)".to_string(),
    ];
    assert_eq!(describe(buf.snapshot()), expected);
    let mut sent = Vec::new();
    while let Ok(e) = rx.try_recv() {
        sent.push(e);
    }
    assert_eq!(describe(sent), expected);
}

#[test]
fn test_session_exit_code_zero_and_no_tail() {
    let (mut live, mut buf) = make_deps();
    let mut session = Session::new();
    session.on_spawn(true, &mut live, &mut buf);
    session.on_output(b"done\n", &mut live, &mut buf);
    session.on_output_end(&mut live, &mut buf);
    session.on_exit(0, &mut live, &mut buf);
    assert_eq!(
        describe(buf.snapshot()),
        vec!["status Connected None", "output \"done\\n\"", "status PtyExited None"]
    );
}

#[test]
fn test_session_failed_spawn_emits_only_pty_error() {
    let (mut live, mut buf) = make_deps();
    let mut session = Session::new();
    session.on_spawn(false, &mut live, &mut buf);
    session.on_spawn(true, &mut live, &mut buf);
    session.on_output(b"x\n", &mut live, &mut buf);
    session.on_output_end(&mut live, &mut buf);
    session.on_exit(1, &mut live, &mut buf);
    assert_eq!(describe(buf.snapshot()), vec!["status PtyError None"]);
}
