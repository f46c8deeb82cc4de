use rtlens::bidi::gutter::{split, Split};

fn s(line: &str) -> Split {
    split(line)
}

#[test]
fn boxed_persian_row_keeps_frame_out_of_the_content() {
    let r = s("│ متن فارسی │");
    assert_eq!(r.lead, "│ ");
    assert_eq!(r.content, "متن فارسی");
    assert_eq!(r.tail, " │");
    assert!(r.boxed);
}

#[test]
fn pure_border_line_is_all_lead() {
    let r = s("╭──────────╮");
    assert_eq!(r.lead, "╭──────────╮");
    assert_eq!(r.content, "");
    assert!(!r.boxed);
}

#[test]
fn plain_text_has_no_frame() {
    let r = s("hello world");
    assert_eq!(r.lead, "");
    assert_eq!(r.content, "hello world");
    assert_eq!(r.tail, "");
    assert!(!r.boxed);
}

#[test]
fn indentation_becomes_lead() {
    let r = s("    سلام");
    assert_eq!(r.lead, "    ");
    assert_eq!(r.content, "سلام");
}

#[test]
fn bullet_and_ordered_markers() {
    assert_eq!(s("- یک مورد").lead, "- ");
    assert_eq!(s("• یک مورد").lead, "• ");
    assert_eq!(s("1. اول").lead, "1. ");
    assert_eq!(s("12) دوازدهم").lead, "12) ");
}

#[test]
fn agent_glyph_gutter() {
    let r = s("⏺ در حال اجرا");
    assert_eq!(r.lead, "⏺ ");
    assert_eq!(r.content, "در حال اجرا");
    let r = s("  ⎿  خروجی");
    assert_eq!(r.lead, "  ⎿  ");
    assert_eq!(r.content, "خروجی");
}

#[test]
fn minus_without_space_is_not_a_marker() {
    let r = s("-42 degrees");
    assert_eq!(r.lead, "");
    assert_eq!(r.content, "-42 degrees");
}

#[test]
fn hyphenated_word_is_not_a_marker() {
    assert_eq!(s("e-mail address").lead, "");
}

#[test]
fn prompt_marker_is_gutter() {
    let r = s("$ npm install");
    assert_eq!(r.lead, "$ ");
    assert_eq!(r.content, "npm install");
}

#[test]
fn trailing_whitespace_alone_is_not_a_tail() {
    let r = s("hello   ");
    assert!(!r.boxed);
    assert_eq!(r.tail, "");
    assert_eq!(r.content, "hello");
}

#[test]
fn empty_line() {
    let r = s("");
    assert_eq!(r.lead, "");
    assert_eq!(r.content, "");
    assert!(!r.boxed);
}

#[test]
fn box_row_with_mixed_content() {
    let r = s("│ فایل src/main.rs را ببین   │");
    assert_eq!(r.lead, "│ ");
    assert_eq!(r.content, "فایل src/main.rs را ببین");
    assert_eq!(r.tail, "   │");
    assert!(r.boxed);
}

// ---- further cases of the library's own

#[test]
fn split_reassembles_the_line() {
    for line in ["│ متن فارسی │", "  - مورد", "12) دوازدهم   ", "╭───╮", "", "plain"] {
        let r = s(line);
        let rebuilt = format!("{}{}{}", r.lead, r.content, r.tail);
        // Only trailing blanks after an open row are dropped.
        assert_eq!(rebuilt.trim_end(), line.trim_end(), "{line:?}");
    }
}

#[test]
fn content_starts_past_the_frame() {
    let r = s("┃ ┃ سلام");
    assert!(!r.content.starts_with(' '));
    assert!(!r.content.starts_with('┃'));
}

#[test]
fn a_row_with_only_a_right_frame_is_not_boxed() {
    let r = s("سلام │");
    assert!(!r.boxed);
    assert_eq!(r.lead, "");
}

#[test]
fn a_boxed_split_always_has_content() {
    for line in ["│ x │", "║ متن ║", "│ a │ b │"] {
        let r = s(line);
        assert!(r.boxed);
        assert!(!r.content.is_empty());
        assert!(!r.tail.trim().is_empty());
    }
    assert!(s("just text").tail.is_empty());
}
