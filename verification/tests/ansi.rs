use rtlens::sanitize::ansi::clean;

#[test]
fn strips_sgr_colour() {
    assert_eq!(clean("\x1b[31mred\x1b[0m text", 4), "red text");
}

#[test]
fn keeps_osc8_hyperlink_label() {
    let input = "see \x1b]8;;https://example.com\x07the docs\x1b]8;;\x07 now";
    assert_eq!(clean(input, 4), "see the docs now");
}

#[test]
fn drops_bracketed_paste_markers() {
    assert_eq!(clean("\x1b[200~pasted\x1b[201~", 4), "pasted");
}

#[test]
fn collapses_progress_bar_to_final_frame() {
    let input = "  10%\r  50%\r 100% done";
    assert_eq!(clean(input, 4), " 100% done");
}

#[test]
fn applies_backspace_overstrike() {
    assert_eq!(clean("X\u{8}X", 4), "X");
}

#[test]
fn preserves_box_drawing_and_bullets() {
    let input = "╭─────╮\n│ • hi │\n╰─────╯";
    assert_eq!(clean(input, 4), input);
}

#[test]
fn expands_tabs_to_stops() {
    assert_eq!(clean("ab\tc", 4), "ab  c");
    assert_eq!(clean("a\tb", 4), "a   b");
}

#[test]
fn removes_stray_bidi_controls_but_keeps_zwnj() {
    // U+200F RLM must go; U+200C ZWNJ is load-bearing in Persian ("می‌رود").
    let input = "\u{200F}می\u{200C}رود";
    assert_eq!(clean(input, 4), "می\u{200C}رود");
}

#[test]
fn preserves_trailing_and_leading_whitespace() {
    assert_eq!(clean("   indented   ", 4), "   indented   ");
}

#[test]
fn collapses_whitespace_only_lines_without_trimming_indentation() {
    let input =
        "question\n                                                            \n    indented answer";
    assert_eq!(clean(input, 4), "question\n\n    indented answer");
}

// ---- further cases of the library's own

#[test]
fn crlf_becomes_lf() {
    assert_eq!(clean("a\r\nb", 4), "a\nb");
}

#[test]
fn isolate_controls_and_bom_are_removed() {
    assert_eq!(clean("\u{FEFF}a\u{2066}b\u{2069}", 4), "ab");
}

#[test]
fn a_tab_width_of_one_gives_one_space() {
    // Tabs expand to the next multiple of the width; the width is at least one column.
    assert_eq!(clean("a\tb", 1), "a b");
}

#[test]
fn no_escape_survives() {
    let out = clean("\x1b[1;32mok\x1b[0m\x1b[2K\x1b]0;title\x07 done", 4);
    assert!(!out.contains('\u{1b}'), "{out:?}");
}
