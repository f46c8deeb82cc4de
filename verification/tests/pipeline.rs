use rtlens::{process, CaptureSource, Dir, Doc, Options, Segment};

fn doc(input: &str) -> Doc {
    process(input, &Options::default(), CaptureSource::Selection)
}

#[test]
fn end_to_end_boxed_persian_line() {
    let d = doc("╭────────────╮\n│ فایل src/main.rs را ببین │\n╰────────────╯");
    assert_eq!(d.lines.len(), 3);

    let row = &d.lines[1];
    assert_eq!(row.dir, Dir::Rtl);
    assert!(row.boxed);
    assert_eq!(row.lead, "│ ");
    assert!(row.tail.contains('│'));
    assert!(row.segments.contains(&Segment::Code("src/main.rs".into())));

    // The frame itself is never part of the directional content.
    assert!(!row.content().contains('│'));
}

#[test]
fn mixed_directions_across_lines() {
    let d = doc("سلام دنیا\nhello world\n۱۲۳");
    assert_eq!(d.lines[0].dir, Dir::Rtl);
    assert_eq!(d.lines[1].dir, Dir::Ltr);
    // Persian digits are neutral, so the line has no strong character and defaults LTR.
    assert_eq!(d.lines[2].dir, Dir::Ltr);
}

#[test]
fn ansi_is_stripped_before_direction_is_read() {
    // The escape sequence must not be mistaken for leading Latin text.
    let d = doc("\x1b[31mسلام\x1b[0m");
    assert_eq!(d.lines[0].dir, Dir::Rtl);
    assert_eq!(d.lines[0].content(), "سلام");
}

#[test]
fn fenced_code_block_stays_ltr() {
    let d = doc("توضیح:\n```rust\nlet x = 1; // سلام\n```\nپایان");
    assert_eq!(d.lines[0].dir, Dir::Rtl);
    assert_eq!(d.lines[2].dir, Dir::Ltr);
    assert!(d.lines[2].code);
    assert_eq!(d.lines[4].dir, Dir::Rtl);
    assert!(!d.lines[4].code);
}

#[test]
fn diff_mode_pins_everything_ltr() {
    let d = doc("diff --git a/x b/x\n--- a/x\n+++ b/x\n@@ -1 +1 @@\n-سلام\n+درود");
    assert!(d.diff_mode);
    assert!(d.lines.iter().all(|l| l.dir == Dir::Ltr));
}

#[test]
fn trailing_newline_does_not_add_a_line() {
    assert_eq!(doc("one\ntwo\n").lines.len(), 2);
}

#[test]
fn empty_input_yields_one_empty_line() {
    let d = doc("");
    assert_eq!(d.lines.len(), 1);
    assert!(d.lines[0].is_blank());
}

#[test]
fn options_toggles_are_respected() {
    let off = Options { normalize_persian: false, soft_unwrap: false, ..Default::default() };
    let d = process("\u{0643}\u{064A}", &off, CaptureSource::Selection);
    assert_eq!(d.lines[0].content(), "\u{0643}\u{064A}");

    let on = Options::default();
    let d = process("\u{0643}\u{064A}", &on, CaptureSource::Selection);
    assert_eq!(d.lines[0].content(), "\u{06A9}\u{06CC}");
}

// ---- further cases of the library's own

#[test]
fn the_source_is_kept() {
    let d = process("x", &Options::default(), CaptureSource::ClipboardFallback);
    assert_eq!(d.source, CaptureSource::ClipboardFallback);
}

#[test]
fn a_hunk_without_a_file_header_is_not_a_diff() {
    assert!(!doc("@@ -1 +1 @@\n-سلام").diff_mode);
    assert!(doc("@@ -1 +1 @@\n+++ b/x").diff_mode);
}

#[test]
fn a_table_becomes_rows_with_cells() {
    let d = doc("│ a  │ b  │\n│ یک │ دو │");
    let rows: Vec<_> = d.lines.iter().filter_map(|l| l.table.as_ref()).collect();
    assert_eq!(rows.len(), 2);
    assert_eq!(rows[0].id, rows[1].id);
    assert_eq!(rows[1].cells[0].text(), "یک");
    assert_eq!(rows[1].cells[0].dir, Dir::Rtl);
    assert_eq!(rows[0].cells[1].dir, Dir::Ltr);
}

#[test]
fn chunks_keep_a_table_together() {
    let d = doc("intro\n\n│ a  │ b  │\n│ یک │ دو │\n\noutro");
    let chunks = d.chunks();
    assert_eq!(chunks.len(), 5);
    assert!(matches!(&chunks[2], rtlens::Chunk::Table(rows) if rows.len() == 2));
    assert!(matches!(&chunks[4], rtlens::Chunk::Line(l) if l.content() == "outro"));
}

#[test]
fn a_blank_line_is_blank() {
    let d = doc("a\n   \nb");
    assert!(d.lines[1].is_blank());
    assert!(!d.lines[0].is_blank());
}

#[test]
fn segments_of_a_line_carry_its_content() {
    let d = doc("فایل src/main.rs را ببین");
    assert_eq!(d.lines[0].content(), "فایل src/main.rs را ببین");
    assert_eq!(d.lines[0].segments[1], Segment::Code("src/main.rs".into()));
}

#[test]
fn every_table_line_reads_as_its_cells() {
    let d = doc("intro\n\n│ a  │ b  │    │\n│ یک │ دو │ سه │\n\noutro");
    let mut seen = 0;
    for l in &d.lines {
        if let Some(t) = &l.table {
            seen += 1;
            assert!(l.lead.is_empty() && l.tail.is_empty());
            assert!(!l.boxed && !l.code);
            assert!(t.cells.len() >= 2);
            assert_eq!(t.cells.len(), t.columns);
            let texts: Vec<String> = t.cells.iter().map(|c| c.text()).filter(|s| !s.is_empty()).collect();
            assert_eq!(l.content(), texts.join("  "));
        }
    }
    assert_eq!(seen, 2);
}

#[test]
fn a_code_line_is_one_code_run_outside_any_table() {
    let d = doc("متن\n```\n│ a │ b │\n│ c │ d │\n```");
    for l in &d.lines {
        if l.code {
            assert_eq!(l.dir, Dir::Ltr);
            assert!(l.table.is_none());
            assert!(l.segments.len() <= 1);
            assert!(l.segments.iter().all(|s| matches!(s, Segment::Code(_))));
        }
    }
    assert!(d.lines[2].code);
    assert_eq!(d.lines[2].segments, vec![Segment::Code(d.lines[2].content())]);
}

#[test]
fn each_table_is_one_run_of_lines_numbered_in_order() {
    let d = doc("intro\n\n│ a  │ b  │\n│ یک │ دو │\n\nmiddle\n\n│ c  │ d  │\n│ سه │ چهار │\n\noutro");
    let ids: Vec<Option<u32>> = d.lines.iter().map(|l| l.table.as_ref().map(|t| t.id)).collect();
    let table_ids: Vec<u32> = ids.iter().flatten().copied().collect();
    assert_eq!(table_ids, vec![0, 0, 1, 1]);
    for (p, a) in ids.iter().enumerate() {
        for (r, b) in ids.iter().enumerate().skip(p + 1) {
            if let (Some(x), Some(y)) = (a, b) {
                assert!(x <= y);
                if x == y {
                    assert!(ids[p..=r].iter().all(|m| *m == Some(*x)));
                }
            }
        }
    }
}

#[test]
fn only_boxed_lines_have_tails() {
    let d = doc("╭────╮\n│ متن │\n╰────╯\nplain line\n│ a  │ b  │\n│ یک │ دو │");
    for l in &d.lines {
        assert_eq!(l.boxed, !l.tail.is_empty(), "{l:?}");
    }
}
