use shellymcshellface::line_editor::LineEditor;

#[test]
fn test_printable_chars_accumulate_in_buffer() {
    let mut ed = LineEditor::new();
    ed.feed(b'h'); ed.feed(b'i');
    assert_eq!(ed.buffer(), "hi");
}

#[test]
fn test_backspace_removes_last_char() {
    let mut ed = LineEditor::new();
    ed.feed(b'h'); ed.feed(b'i'); ed.feed(0x7f);
    assert_eq!(ed.buffer(), "h");
}

#[test]
fn test_backspace_on_empty_buffer_is_no_op() {
    let mut ed = LineEditor::new();
    ed.feed(0x7f);
    assert_eq!(ed.buffer(), "");
}

#[test]
fn test_enter_cr_flushes_and_returns_text() {
    let mut ed = LineEditor::new();
    ed.feed(b'l'); ed.feed(b's');
    let result = ed.feed(b'\r');
    assert_eq!(result, Some("ls".to_string()));
    assert_eq!(ed.buffer(), "");
}

#[test]
fn test_enter_lf_flushes_and_returns_text() {
    let mut ed = LineEditor::new();
    ed.feed(b'p'); ed.feed(b'w'); ed.feed(b'd');
    let result = ed.feed(b'\n');
    assert_eq!(result, Some("pwd".to_string()));
}

#[test]
fn test_empty_enter_returns_empty_command_literal() {
    let mut ed = LineEditor::new();
    let result = ed.feed(b'\r');
    assert_eq!(result, Some("(empty command)".to_string()));
}

#[test]
fn test_whitespace_only_enter_returns_empty_command_literal() {
    let mut ed = LineEditor::new();
    ed.feed(b' '); ed.feed(b' ');
    let result = ed.feed(b'\r');
    assert_eq!(result, Some("(empty command)".to_string()));
}

#[test]
fn test_control_chars_not_added_to_buffer() {
    let mut ed = LineEditor::new();
    ed.feed(b'a');
    ed.feed(0x03); // Ctrl+C
    ed.feed(0x01); // Ctrl+A
    assert_eq!(ed.buffer(), "a");
}

#[test]
fn test_control_char_does_not_flush() {
    let mut ed = LineEditor::new();
    ed.feed(b'a');
    let result = ed.feed(0x03);
    assert_eq!(result, None);
}

#[test]
fn test_backspace_undoes_keystroke() {
    let mut ed = LineEditor::new();
    ed.feed(b'a');
    ed.feed(b'b');
    assert_eq!(ed.feed(b'c'), None);
    assert_eq!(ed.feed(0x7f), None);
    assert_eq!(ed.buffer(), "ab");
}

#[test]
fn test_enter_clears_buffer_and_lf_after_cr_is_empty_command() {
    let mut ed = LineEditor::new();
    ed.feed(b'x');
    assert_eq!(ed.feed(b'\r'), Some("x".to_string()));
    assert_eq!(ed.buffer(), "");
    assert_eq!(ed.feed(b'\n'), Some("(empty command)".to_string()));
}

#[test]
fn test_non_ascii_and_tab_bytes_ignored() {
    let mut ed = LineEditor::new();
    ed.feed(b'a');
    assert_eq!(ed.feed(0xc3), None);
    assert_eq!(ed.feed(0xa9), None);
    assert_eq!(ed.feed(b'\t'), None);
    assert_eq!(ed.feed(0x1b), None);
    assert_eq!(ed.buffer(), "a");
}

#[test]
fn test_text_with_inner_spaces_is_kept_as_typed() {
    let mut ed = LineEditor::new();
    for &b in b" ls  -la " {
        ed.feed(b);
    }
    assert_eq!(ed.feed(b'\n'), Some(" ls  -la ".to_string()));
}

#[test]
fn test_tilde_and_space_are_the_printable_bounds() {
    let mut ed = LineEditor::new();
    ed.feed(0x1f);
    ed.feed(b' ');
    ed.feed(b'~');
    ed.feed(0x7f);
    ed.feed(0x7f);
    ed.feed(0x7f);
    ed.feed(b'~');
    assert_eq!(ed.buffer(), "~");
}
