use rtlens::copyback::{render, CopyMode, LRI, PDI, RLI};
use rtlens::{process, CaptureSource, Doc, Options};
use unicode_width::UnicodeWidthStr;

fn doc(input: &str) -> Doc {
    process(input, &Options::default(), CaptureSource::Selection)
}

#[test]
fn plain_round_trips_simple_text() {
    let d = doc("سلام دنیا\nhello world");
    assert_eq!(render(&d, CopyMode::Plain), "سلام دنیا\nhello world");
}

#[test]
fn plain_rebuilds_a_square_box() {
    let d = doc("│ کوتاه │\n│ یک خط بلندتر │");
    let out = render(&d, CopyMode::Plain);
    let widths: Vec<usize> = out.lines().map(|l| l.width()).collect();
    assert_eq!(widths[0], widths[1], "box rows must align:\n{out}");
}

#[test]
fn markdown_refences_code_runs() {
    let d = doc("فایل src/main.rs را ببین");
    assert_eq!(render(&d, CopyMode::Markdown), "فایل `src/main.rs` را ببین");
}

#[test]
fn bidi_safe_isolates_code_and_line() {
    let out = render(&doc("فایل src/main.rs را ببین"), CopyMode::BidiSafe);
    assert!(out.starts_with(RLI), "RTL line must open with an RTL isolate");
    assert!(out.ends_with(PDI));
    assert!(out.contains(&format!("{LRI}src/main.rs{PDI}")));
}

#[test]
fn bidi_safe_strips_to_the_same_visible_text() {
    let source = "فایل src/main.rs را ببین";
    let out = render(&doc(source), CopyMode::BidiSafe);
    let visible: String = out.chars().filter(|c| !matches!(*c, LRI | RLI | PDI)).collect();
    assert_eq!(visible, source);
}

#[test]
fn ltr_line_opens_with_an_ltr_isolate() {
    let out = render(&doc("hello world"), CopyMode::BidiSafe);
    assert!(out.starts_with(LRI));
}

#[test]
fn empty_doc_is_empty_string() {
    let d = Doc { lines: vec![], source: CaptureSource::Empty, diff_mode: false };
    assert_eq!(render(&d, CopyMode::Plain), "");
    assert_eq!(render(&d, CopyMode::BidiSafe), "");
}

// ---- further cases of the library's own

fn strip(s: &str) -> String {
    s.chars().filter(|c| !matches!(*c, LRI | RLI | PDI)).collect()
}

#[test]
fn bidi_safe_strips_to_plain_on_a_mixed_document() {
    let d = doc("سلام دنیا\nhello world\n- مورد اول با src/lib.rs");
    assert_eq!(strip(&render(&d, CopyMode::BidiSafe)), render(&d, CopyMode::Plain));
}

#[test]
fn bidi_safe_strips_to_plain_on_a_framed_table() {
    let d = doc("┌──────┬──────┐\n│ a    │ b    │\n├──────┼──────┤\n│ یک   │ دو   │\n└──────┴──────┘");
    assert_eq!(strip(&render(&d, CopyMode::BidiSafe)), render(&d, CopyMode::Plain));
}

#[test]
fn a_framed_table_comes_back_framed_and_square() {
    let d = doc("┌──────┬──────┐\n│ a    │ b    │\n├──────┼──────┤\n│ یک   │ دو   │\n└──────┴──────┘");
    let out = render(&d, CopyMode::Plain);
    assert_eq!(out, "┌────┬────┐\n│ a  │ b  │\n├────┼────┤\n│ یک │ دو │\n└────┴────┘");
}

#[test]
fn markdown_tables_are_pipe_tables() {
    let d = doc("│ a  │ b  │\n│ یک │ دو │");
    let out = render(&d, CopyMode::Markdown);
    assert_eq!(out, "| a  | b  |\n| --- | --- |\n| یک | دو |");
}

#[test]
fn a_boxed_row_is_padded_to_the_widest() {
    let d = doc("│ ab │\n│ abcd │");
    assert_eq!(render(&d, CopyMode::Plain), "│ ab   │\n│ abcd │");
}

#[test]
fn bidi_safe_isolates_lead_and_tail() {
    let d = doc("│ سلام │");
    let out = render(&d, CopyMode::BidiSafe);
    assert_eq!(out, format!("{LRI}│ {PDI}{RLI}سلام{PDI} {LRI}│{PDI}"));
}

fn balanced(s: &str) -> bool {
    let mut depth: i64 = 0;
    for c in s.chars() {
        if c == LRI || c == RLI {
            depth += 1;
        } else if c == PDI {
            depth -= 1;
            if depth < 0 {
                return false;
            }
        }
    }
    depth == 0
}

#[test]
fn bidi_safe_isolates_are_balanced() {
    let d = doc("│ فایل src/main.rs را ببین │\n- مورد `x` و y.rs\n\n a    b\n یک   دو");
    let out = render(&d, CopyMode::BidiSafe);
    assert!(balanced(&out), "{out:?}");
    for line in out.lines() {
        assert!(balanced(line), "{line:?}");
    }
}

#[test]
fn a_copied_framed_table_is_square_on_every_line() {
    let d = doc("┌──────┬──────────┐\n│ a    │ b        │\n├──────┼──────────┤\n│ یک   │ دو سه    │\n│ x    │          │\n└──────┴──────────┘");
    let out = render(&d, CopyMode::Plain);
    assert!(out.starts_with('┌') && out.ends_with('┘'), "{out}");
    let widths: Vec<usize> = out.lines().map(|l| l.width()).collect();
    assert!(widths.iter().all(|w| *w == widths[0]), "{out}");
}

#[test]
fn bidi_safe_lines_read_as_plain_up_to_trailing_blanks() {
    let d = doc("a    b    c\n━━━  ━━━  ━━━\nd    e    f\ng    h\n\n│ متن │\nسلام world");
    let strip = |s: &str| s.chars().filter(|c| !matches!(*c, '\u{2066}' | '\u{2067}' | '\u{2069}')).collect::<String>();
    let safe = strip(&render(&d, CopyMode::BidiSafe));
    let plain = render(&d, CopyMode::Plain);
    let a: Vec<&str> = safe.split('\n').map(|l| l.trim_end()).collect();
    let b: Vec<&str> = plain.split('\n').map(|l| l.trim_end()).collect();
    assert_eq!(a, b);
}

#[test]
fn isolate_controls_in_the_input_do_not_survive_into_the_copy() {
    let d = doc("\u{2067}سلام\u{2069} world\n\u{2066}│ a  │ b  │\u{2069}\n│ یک │ دو │");
    let plain = render(&d, CopyMode::Plain);
    assert!(!plain.chars().any(|c| matches!(c, '\u{2066}' | '\u{2067}' | '\u{2069}')));
    let strip = |s: &str| s.chars().filter(|c| !matches!(*c, '\u{2066}' | '\u{2067}' | '\u{2069}')).collect::<String>();
    let safe = strip(&render(&d, CopyMode::BidiSafe));
    let a: Vec<&str> = safe.split('\n').map(|l| l.trim_end()).collect();
    let b: Vec<&str> = plain.split('\n').map(|l| l.trim_end()).collect();
    assert_eq!(a, b);
}
