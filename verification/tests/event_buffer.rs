use shellymcshellface::event_buffer::EventBuffer;
use shellymcshellface::types::SseEvent;

#[test]
fn test_new_buffer_is_empty() {
    let buf = EventBuffer::new();
    assert_eq!(buf.snapshot().len(), 0);
}

#[test]
fn test_push_and_snapshot_preserves_order() {
    let mut buf = EventBuffer::new();
    buf.push(SseEvent::connected());
    buf.push(SseEvent::output("line1\n"));
    buf.push(SseEvent::input("ls"));
    buf.push(SseEvent::output("file.txt\n"));
    let snap = buf.snapshot();
    assert_eq!(snap.len(), 4);
    assert!(matches!(snap[0], SseEvent::Status { .. }));
    assert!(matches!(snap[1], SseEvent::Output { .. }));
    assert!(matches!(snap[2], SseEvent::Input { .. }));
    assert!(matches!(snap[3], SseEvent::Output { .. }));
}

#[test]
fn test_snapshot_is_a_clone() {
    let mut buf = EventBuffer::new();
    buf.push(SseEvent::output("a\n"));
    let snap1 = buf.snapshot();
    buf.push(SseEvent::output("b\n"));
    let snap2 = buf.snapshot();
    assert_eq!(snap1.len(), 1);
    assert_eq!(snap2.len(), 2);
}

#[test]
fn test_replay_keeps_contents_in_order() {
    let mut buf = EventBuffer::new();
    buf.push(SseEvent::input("one"));
    buf.push(SseEvent::output("two\n"));
    buf.push(SseEvent::pty_exited(Some(3)));
    let snap = buf.snapshot();
    match &snap[0] {
        SseEvent::Input { text } => assert_eq!(text, "one"),
        other => panic!("unexpected {:?}", other),
    }
    match &snap[1] {
        SseEvent::Output { text } => assert_eq!(text, "two\n"),
        other => panic!("unexpected {:?}", other),
    }
    match &snap[2] {
        SseEvent::Status { code, .. } => assert_eq!(*code, Some(3)),
        other => panic!("unexpected {:?}", other),
    }
    // A snapshot leaves the buffer as it was.
    assert_eq!(buf.snapshot().len(), 3);
}
