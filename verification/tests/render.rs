use rtlens::render::{fragment, standalone};
use rtlens::{process, CaptureSource, Doc, Options};

fn html(input: &str) -> String {
    fragment(&process(input, &Options::default(), CaptureSource::Selection))
}

#[test]
fn sets_dir_per_line() {
    let out = html("سلام\nhello");
    assert!(out.contains(r#"<span class="rtl-content" dir="rtl">"#));
    assert!(out.contains(r#"<span class="rtl-content" dir="ltr">"#));
}

#[test]
fn code_runs_are_ltr_isolated() {
    let out = html("فایل /src/main.rs را ببین");
    assert!(out.contains(r#"<span class="rtl-code" dir="ltr">/src/main.rs</span>"#));
}

#[test]
fn box_frame_lands_in_gutters_not_content() {
    let out = html("│ سلام │");
    assert!(out.contains(r#"<span class="rtl-gutter">│ </span>"#));
    assert!(out.contains("rtl-gutter--tail"));
    // The frame must never end up inside the directional content span.
    let content = out.split(r#"class="rtl-content""#).nth(1).unwrap();
    let content = content.split("</span>").next().unwrap();
    assert!(!content.contains('│'));
}

#[test]
fn rtl_bullet_line_flips_but_boxed_line_does_not() {
    assert!(html("- سلام").contains("rtl-line--rtl"));
    assert!(!html("│ سلام │").contains("rtl-line--rtl"));
}

#[test]
fn escapes_markup_in_content() {
    let out = html("<script>alert(1)</script>");
    assert!(!out.contains("<script>"));
    assert!(out.contains("&lt;script&gt;"));
}

#[test]
fn standalone_page_embeds_the_shared_css() {
    let d = process("سلام", &Options::default(), CaptureSource::Selection);
    let page = standalone(&d, "t");
    assert!(page.contains("unicode-bidi: isolate"));
    assert!(page.starts_with("<!doctype html>"));
}

// ---- further cases of the library's own

#[test]
fn a_line_renders_exactly() {
    assert_eq!(
        html("سلام"),
        r#"<div class="rtl-doc"><div class="rtl-line"><span class="rtl-content" dir="rtl">سلام</span></div></div>"#
    );
}

#[test]
fn quotes_and_ampersands_are_escaped() {
    let out = html("a \"b\" & c");
    assert!(out.contains("a &quot;b&quot; &amp; c"));
}

#[test]
fn the_title_is_escaped() {
    let d = process("x", &Options::default(), CaptureSource::Selection);
    assert!(standalone(&d, "<t>").contains("<title>&lt;t&gt;</title>"));
}

#[test]
fn a_table_is_a_grid_with_its_column_count() {
    let out = html("│ a  │ b  │\n│ یک │ دو │");
    assert!(out.contains(r#"style="--rtl-cols:2""#), "{out}");
    assert!(out.contains(r#"dir="rtl">یک</div>"#), "{out}");
}

#[test]
fn an_empty_document_is_an_empty_wrapper() {
    let d = Doc { lines: vec![], source: CaptureSource::Empty, diff_mode: false };
    assert_eq!(fragment(&d), r#"<div class="rtl-doc"></div>"#);
}

#[test]
fn blank_and_code_lines_are_marked() {
    let out = html("```\nx\n```\n");
    assert!(out.contains("rtl-line--code"));
    let out = html("a\n\nb");
    assert!(out.contains("rtl-line--blank"));
}

#[test]
fn every_angle_bracket_opens_a_div_or_a_span() {
    let out = html("<b>bold</b> │ x\n│ a  │ b  │\n│ یک │ دو │\n`<i>` here");
    for (k, _) in out.match_indices('<') {
        let rest = &out[k..];
        assert!(
            rest.starts_with("<div ") || rest.starts_with("<span ") || rest.starts_with("</div>")
                || rest.starts_with("</span>"),
            "{rest}"
        );
    }
}
