use rtlens::table::{detect, is_rule, split_welded_rule, Candidate, Table};
use rtlens::Sep;
use unicode_width::UnicodeWidthChar;

/// Pad to a display width, the way a renderer lays a cell out.
fn pad(s: &str, width: usize) -> String {
    let w: usize = s.chars().map(|c| UnicodeWidthChar::width(c).unwrap_or(0)).sum();
    format!("{s}{}", " ".repeat(width.saturating_sub(w)))
}

/// One painted row: cells padded to `widths`, joined the way `sep` says.
fn row(sep: Option<char>, cells: &[&str], widths: &[usize]) -> String {
    let padded: Vec<String> = cells.iter().zip(widths).map(|(c, w)| pad(c, *w)).collect();
    match sep {
        Some(d) => format!("{d} {} {d}", padded.join(&format!(" {d} "))),
        None => format!(" {}", padded.join("  ")),
    }
}

fn candidates(text: &str) -> Vec<Candidate<'_>> {
    text.split('\n').map(|l| Candidate { text: l, blank: l.trim().is_empty(), code: false }).collect()
}

fn only(text: &str) -> Table {
    let lines = candidates(text);
    let mut found = detect(&lines);
    assert_eq!(found.len(), 1, "expected exactly one table in:\n{text}");
    found.remove(0)
}

fn none(text: &str) {
    let lines = candidates(text);
    assert!(detect(&lines).is_empty(), "expected no table in:\n{text}");
}

#[test]
fn delimited_table_splits_into_cells() {
    let w = [9, 16];
    let text = format!(
        "{}\n{}",
        row(Some('│'), &["دکمه", "کاری که می‌کند"], &w),
        row(Some('│'), &["Plain", "متن تمیز"], &w)
    );
    let t = only(&text);
    assert_eq!(t.columns, 2);
    assert_eq!(t.sep, Sep::Delimited('│'));
    assert_eq!(t.rows[0].cells, vec!["دکمه", "کاری که می‌کند"]);
    assert_eq!(t.rows[1].cells, vec!["Plain", "متن تمیز"]);
}

#[test]
fn header_rule_marks_the_header_and_disappears() {
    let t = only("│ a   │ b   │\n├─────┼─────┤\n│ یک  │ دو  │");
    assert_eq!(t.rows.len(), 2, "the rule is not a row");
    assert!(t.rows[0].head);
    assert!(!t.rows[1].head);
}

#[test]
fn outer_frame_is_recognised_and_dropped() {
    let t = only("┌───────┬───────┐\n│ a     │ b     │\n│ یک    │ دو    │\n└───────┴───────┘");
    assert!(t.framed);
    assert_eq!(t.rows.len(), 2);
    assert_eq!(t.columns, 2);
}

#[test]
fn wrapped_cell_rejoins_inside_its_own_column() {
    let t = only(
        "│ BiDi-safe │ همان متن، به‌علاوهٔ کاراکترهای isolate یونیکد که  │\n│           │ نامرئی‌اند ولی چیدمان را حفظ می‌کنند              │\n│ MD        │ مثل Plain                                        │",
    );
    assert_eq!(t.rows.len(), 2, "the continuation must not become its own row");
    assert_eq!(t.rows[0].cells[0], "BiDi-safe");
    assert!(t.rows[0].cells[1].contains("یونیکد که نامرئی‌اند"), "{:?}", t.rows[0].cells[1]);
    assert_eq!(t.rows[1].cells[0], "MD");
}

#[test]
fn whitespace_aligned_table_is_read_from_its_blank_columns() {
    let t = only(
        " بخش      تغییر            وضعیت\n━━━━━━━  ━━━━━━━━━━━━━━━  ━━━━━━━━\n بک‌اند    تغییر نوع ستون    🔴 بله\n فرانت    حذف SVG داخلی     🟢 خیر",
    );
    assert_eq!(t.sep, Sep::Spaced);
    assert_eq!(t.columns, 3);
    assert_eq!(t.rows.len(), 3);
    assert!(t.rows[0].head);
    assert_eq!(t.rows[2].cells[2], "🟢 خیر");
}

#[test]
fn spaced_continuation_folds_into_the_cell_above() {
    let t = only(
        " بخش      تغییر                وضعیت\n━━━━━━━  ━━━━━━━━━━━━━━━━━━━  ━━━━━━━\n بک‌اند    تغییر نوع چند ستون    🔴 بله\n          شناسه از INTEGER\n فرانت    حذف SVG              🟢 خیر",
    );
    assert_eq!(t.rows.len(), 3);
    assert!(t.rows[1].cells[1].contains("چند ستون شناسه از INTEGER"), "{:?}", t.rows[1].cells[1]);
    assert_eq!(t.rows[2].cells[0], "فرانت");
}

#[test]
fn double_width_glyphs_do_not_shift_the_columns() {
    // The emoji occupies two display columns; reading by `char` would slide every
    // boundary after it one column to the left.
    let w = [10, 4];
    let text = format!("{}\n{}", row(None, &["🔴 بله", "یک"], &w), row(None, &["🟢 خیر", "دو"], &w));
    let t = only(&text);
    assert_eq!(t.columns, 2);
    assert_eq!(t.rows[0].cells, vec!["🔴 بله", "یک"]);
    assert_eq!(t.rows[1].cells, vec!["🟢 خیر", "دو"]);
}

#[test]
fn zero_width_joiner_stays_with_its_word() {
    let w = [10, 4];
    let text = format!("{}\n{}", row(None, &["بک‌اند", "یک"], &w), row(None, &["فرانت‌اند", "دو"], &w));
    let t = only(&text);
    assert_eq!(t.rows[0].cells[0], "بک\u{200c}اند");
    assert_eq!(t.rows[1].cells[0], "فرانت\u{200c}اند");
}

#[test]
fn a_token_broken_across_lines_rejoins_without_a_space() {
    let w = [8, 22];
    let text = format!(
        "{}\n{}\n{}",
        row(None, &["بک\u{200c}اند", "تغییر hash به PBKDF2-"], &w),
        row(None, &["", "HMAC-SHA256 با iteration"], &w),
        row(None, &["فرانت", "حذف SVG"], &w)
    );
    let t = only(&text);
    assert!(t.rows[0].cells[1].contains("PBKDF2-HMAC-SHA256"), "{:?}", t.rows[0].cells[1]);
    // A normal wrap still gets its space back.
    assert!(t.rows[0].cells[1].contains("SHA256 با"), "{:?}", t.rows[0].cells[1]);
}

#[test]
fn prose_is_not_a_table() {
    none("این یک متن طولانی فارسی است که توسط ترمینال شکسته شده\nو باید دوباره به هم بچسبد.");
    none("hello world\ngoodbye world");
}

#[test]
fn a_single_wide_gap_in_two_prose_lines_is_not_a_table() {
    // Ragged: the second line has nothing in the second column, so the shape is not
    // a grid and the rows must be left alone.
    none("سلام دنیا      hello\nفقط یک خط دیگر");
}

#[test]
fn indented_block_is_not_a_table() {
    none("    اول\n    دوم\n    سوم");
}

#[test]
fn one_row_is_not_a_table() {
    none("│ a │ b │");
}

#[test]
fn blank_line_ends_a_table() {
    let text = " a    b\n یک   دو\n\n c    d\n سه   چهار";
    let lines = candidates(text);
    let found = detect(&lines);
    assert_eq!(found.len(), 2, "a blank line separates two tables");
    assert_eq!(found[0].start, 0);
    assert_eq!(found[0].end, 2);
    assert_eq!(found[1].start, 3);
}

#[test]
fn rules_are_recognised_in_both_styles() {
    assert!(is_rule("├─────┼─────┤"));
    assert!(is_rule("━━━━━━  ━━━━━━"));
    assert!(is_rule("+-----+-----+"));
    assert!(is_rule("| --- | --- |"));
    assert!(!is_rule("│ a │ b │"));
    assert!(!is_rule("--"), "too short to be a rule");
}

#[test]
fn split_welded_rule_splits_header_and_rule() {
    let line = "   عنوان ۱         عنوان ۲                                                               ━━━━━━━━━━━━  ━━━━━━━━━━━━";
    let split = split_welded_rule(line);
    assert!(split.is_some());
    let (head, rule) = split.unwrap();
    assert_eq!(head, "   عنوان ۱         عنوان ۲");
    assert_eq!(rule, "━━━━━━━━━━━━  ━━━━━━━━━━━━");
    assert!(is_rule(&rule));

    // Normal prose or code comments must not split
    assert!(split_welded_rule("سلام دنیا").is_none());
    assert!(split_welded_rule("let x = 1;        // ------------------").is_none());
}

#[test]
fn segmented_rule_guides_ragged_columns() {
    // Here column 2 ends at col 16 and column 3 starts at col 18 in row 1, but starts
    // at col 17 in row 2. The intersection of blanks is only 1 column wide, but the
    // segmented rule line below confirms the boundary.
    let text = " پارامتر      شرح                                     نتیجه\n━━━━━━━━━━  ━━━━━━━━━━━━━━━━━━━━━━━━━━━━━━━━━━━━━━  ━━━━━━━━\n Jc          توضیح کوتاه که به ستون بعد نزدیک شد     بله\n Jmin        توضیح دیگر                              بله\n";
    let t = only(text);
    assert_eq!(t.columns, 3);
    assert_eq!(t.rows[0].cells[0], "پارامتر");
    assert_eq!(t.rows[0].cells[1], "شرح");
    assert_eq!(t.rows[0].cells[2], "نتیجه");
}

// ---- further cases of the library's own

#[test]
fn code_lines_are_never_a_table() {
    let text = "│ a │ b │\n│ c │ d │";
    let lines: Vec<Candidate<'_>> =
        text.split('\n').map(|l| Candidate { text: l, blank: false, code: true }).collect();
    assert!(detect(&lines).is_empty());
}

#[test]
fn every_row_has_as_many_cells_as_columns() {
    let t = only("│ a  │ b  │ c  │\n│ یک │ دو │ سه │");
    assert_eq!(t.columns, 3);
    for r in &t.rows {
        assert_eq!(r.cells.len(), 3);
    }
}

#[test]
fn a_rule_needs_more_than_dashes_of_prose() {
    assert!(!is_rule("hello ---- world"));
    assert!(is_rule("═════════"));
}

#[test]
fn ascii_pipe_tables_are_delimited() {
    let t = only("| a | b |\n| c | d |");
    assert_eq!(t.sep, Sep::Delimited('|'));
    assert_eq!(t.rows[1].cells, vec!["c", "d"]);
}

#[test]
fn without_a_header_rule_one_ragged_row_makes_it_prose() {
    none("a    b    c\nd    e    f\ng    h");
}

#[test]
fn without_a_header_rule_no_row_is_a_header() {
    let t = only("a    b    c\nd    e    f\ng    h    i");
    assert!(t.rows.iter().all(|r| !r.head));
}

#[test]
fn a_rule_under_the_first_row_makes_it_the_header_even_when_ragged() {
    let t = only("a    b    c\n━━━  ━━━  ━━━\nd    e    f\ng    h");
    assert!(t.rows[0].head);
    assert!(t.rows[1..].iter().all(|r| !r.head));
}

#[test]
fn a_delimited_block_with_a_hole_and_no_rule_is_prose() {
    none("│ a  │ b  │ c  │\n│ یک │ دو │    │");
}

#[test]
fn every_detected_table_spans_at_least_two_lines() {
    let text = "intro\n\nname    value\n━━━━━━  ━━━━━\nalpha   one\nbeta    two\n\nend";
    for t in detect(&candidates(text)) {
        assert!(t.end - t.start >= 2);
        assert!(t.rows.len() >= 2 && t.columns >= 2);
    }
    assert_eq!(detect(&candidates(text)).len(), 1);
}
