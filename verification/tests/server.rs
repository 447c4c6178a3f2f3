use shellymcshellface::types::SseEvent;

#[test]
fn test_sse_format_from_event() {
    let ev = SseEvent::output("hello\n");
    let (event_type, data) = ev.to_sse_parts();
    let _sse = axum::response::sse::Event::default()
        .event(event_type)
        .data(data);
    let ev2 = SseEvent::output("hello\n");
    let (t, d) = ev2.to_sse_parts();
    assert_eq!(t, "output");
    assert!(d.contains("hello"));
}
