use shellymcshellface::ansi::strip_non_sgr;

#[test]
fn test_plain_text_unchanged() {
    assert_eq!(strip_non_sgr("hello world"), "hello world");
}

#[test]
fn test_sgr_reset_preserved() {
    assert_eq!(strip_non_sgr("\x1b[0m"), "\x1b[0m");
}

#[test]
fn test_sgr_bold_preserved() {
    assert_eq!(strip_non_sgr("\x1b[1m"), "\x1b[1m");
}

#[test]
fn test_sgr_colour_preserved() {
    assert_eq!(strip_non_sgr("\x1b[32m"), "\x1b[32m");
}

#[test]
fn test_sgr_compound_preserved() {
    assert_eq!(strip_non_sgr("\x1b[1;32m"), "\x1b[1;32m");
}

#[test]
fn test_cursor_to_col1_default_emits_cr() {
    assert_eq!(strip_non_sgr("abc\x1b[Gdef"), "abc\rdef");
}

#[test]
fn test_cursor_to_col1_explicit_emits_cr() {
    assert_eq!(strip_non_sgr("abc\x1b[1Gdef"), "abc\rdef");
}

#[test]
fn test_cursor_to_col1_zero_emits_cr() {
    assert_eq!(strip_non_sgr("abc\x1b[0Gdef"), "abc\rdef");
}

#[test]
fn test_cursor_to_col2_emits_placeholder() {
    assert_eq!(strip_non_sgr("abc\x1b[2Gdef"), "abc\u{E000}def");
}

// PSReadLine uses ESC[2K (erase entire line) + ESC[nG (column after prompt) when
// repainting the edit line during tab completion. ESC[2K must emit \r so the JS
// \r-overwrite pass discards all intermediate completion states, leaving only the last.
#[test]
fn test_erase_entire_line_emits_cr() {
    assert_eq!(strip_non_sgr("abc\x1b[2Kdef"), "abc\rdef");
}

#[test]
fn test_tab_completion_cycle_overwrites() {
    // Simulates PSReadLine tab cycling: ESC[2K + ESC[nG between each completion.
    // ESC[2K → \r; ESC[27G (column > 1) → \uE000.
    // The \r-overwrite pass in JS will keep only "comp3".
    assert_eq!(
        strip_non_sgr("comp1\x1b[2K\x1b[27Gcomp2\x1b[2K\x1b[27Gcomp3"),
        "comp1\r\u{E000}comp2\r\u{E000}comp3"
    );
}

#[test]
fn test_cursor_up_stripped() {
    assert_eq!(strip_non_sgr("a\x1b[Ab"), "a\u{E000}b");
}

#[test]
fn test_cursor_up_with_count_stripped() {
    assert_eq!(strip_non_sgr("a\x1b[3Ab"), "a\u{E000}b");
}

#[test]
fn test_clear_screen_stripped() {
    assert_eq!(strip_non_sgr("a\x1b[2Jb"), "a\u{E000}b");
}

#[test]
fn test_cursor_position_emits_cr() {
    // ESC[row;colH (cursor absolute position) → \r so the JS \r-overwrite pass
    // treats each cursor-reposition as the start of a new line rewrite.
    assert_eq!(strip_non_sgr("a\x1b[1;1Hb"), "a\rb");
}

#[test]
fn test_cursor_home_emits_cr() {
    assert_eq!(strip_non_sgr("a\x1b[Hb"), "a\rb");
}

// Windows Console (non-PSReadLine) tab completion pattern:
//   hide-cursor + ESC[row;colH + show-cursor + new_completion
// The ESC[row;colH → \r so the JS \r-overwrite keeps only the final completion.
#[test]
fn test_windows_console_tab_completion_overwrites() {
    // ESC[?25l → \uE000, ESC[19;21H → \r, ESC[?25h → \uE000
    assert_eq!(
        strip_non_sgr("comp1\x1b[?25l\x1b[19;21H\x1b[?25hcomp2\x1b[?25l\x1b[19;21H\x1b[?25hcomp3"),
        "comp1\u{E000}\r\u{E000}comp2\u{E000}\r\u{E000}comp3"
    );
}

#[test]
fn test_osc_title_stripped() {
    assert_eq!(strip_non_sgr("\x1b]0;My Title\x07text"), "text");
}

#[test]
fn test_private_mode_stripped() {
    assert_eq!(strip_non_sgr("\x1b[?25l"), "\u{E000}");
}

#[test]
fn test_text_around_sgr_preserved() {
    assert_eq!(
        strip_non_sgr("before\x1b[1mbold\x1b[0mafter"),
        "before\x1b[1mbold\x1b[0mafter"
    );
}

#[test]
fn test_mixed_sgr_and_cursor_movement() {
    assert_eq!(
        strip_non_sgr("\x1b[1mhello\x1b[A\x1b[0m"),
        "\x1b[1mhello\u{E000}\x1b[0m"
    );
}

// An ESC directly followed by a multi-byte character is dropped together
// with the whole character, so the rest of the text is kept.
#[test]
fn test_escape_before_multibyte_char_drops_both() {
    assert_eq!(strip_non_sgr("ab\x1b\u{e9}cd"), "abcd");
    assert_eq!(strip_non_sgr("a\x1b\u{1F600}\u{e9}"), "a\u{e9}");
    assert_eq!(strip_non_sgr("a\x1b\u{20AC}"), "a");
}

#[test]
fn test_multibyte_text_copied_verbatim() {
    assert_eq!(strip_non_sgr("h\u{e9}llo \u{1F600}\x1b[31m\u{e9}"), "h\u{e9}llo \u{1F600}\x1b[31m\u{e9}");
}

#[test]
fn test_osc_terminated_by_st_stripped() {
    assert_eq!(strip_non_sgr("a\x1b]2;t\u{e9}tle\x1b\\b"), "ab");
}

#[test]
fn test_unterminated_osc_drops_rest() {
    assert_eq!(strip_non_sgr("a\x1b]0;title"), "a");
}

#[test]
fn test_escape_at_end_dropped() {
    assert_eq!(strip_non_sgr("abc\x1b"), "abc");
}

#[test]
fn test_escape_with_single_char_dropped() {
    assert_eq!(strip_non_sgr("a\x1b7b\x1b(Bc"), "abBc");
}

#[test]
fn test_incomplete_csi_dropped_without_placeholder() {
    // The byte that cuts the sequence short is kept.
    assert_eq!(strip_non_sgr("a\x1b[12\u{e9}b"), "a\u{e9}b");
    assert_eq!(strip_non_sgr("a\x1b[12"), "a");
}

#[test]
fn test_sgr_with_intermediate_bytes_preserved() {
    assert_eq!(strip_non_sgr("\x1b[1 m"), "\x1b[1 m");
}

#[test]
fn test_erase_line_variants() {
    assert_eq!(strip_non_sgr("a\x1b[Kb"), "a\u{E000}b");
    assert_eq!(strip_non_sgr("a\x1b[22Kb"), "a\u{E000}b");
    assert_eq!(strip_non_sgr("a\x1b[11Gb"), "a\u{E000}b");
}

#[test]
fn test_filter_is_stable_on_its_output() {
    let once = strip_non_sgr("x\x1b[1mred\x1b[2K\x1b[5Gy\x1b]0;t\x07z");
    assert_eq!(once, "x\x1b[1mred\r\u{E000}yz");
    assert_eq!(strip_non_sgr(&once), once);
}
