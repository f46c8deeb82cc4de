use rtlens::bidi::direction::{count_runs, document_dir, first_strong, resolve, Context};
use rtlens::bidi::segment::prose_only;
use rtlens::Dir;

fn rtl_ctx() -> Context {
    Context { doc_dir: Dir::Rtl, ..Default::default() }
}

#[test]
fn persian_sentence_opening_with_an_english_term_is_rtl() {
    // The reported regression: first-strong called these LTR and reversed them.
    for line in [
        "merge قابلیت‌های پنل 6.15.3 و حل conflictها در محیط جدا: کامل",
        "backup دیتابیس، ارتقای container و تست عملی بعد از migration: باقی‌مانده",
        "merge قابلیت‌ها کامل شد",
    ] {
        assert_eq!(resolve(line, rtl_ctx()), Dir::Rtl, "should be RTL: {line}");
    }
}

#[test]
fn a_latin_path_does_not_drag_a_persian_line_ltr() {
    // Majority-Latin by character count, unmistakably Persian by word.
    assert_eq!(resolve("فایل src/components/App.tsx را با --verbose اجرا کن.", rtl_ctx()), Dir::Rtl);
}

#[test]
fn genuinely_english_lines_stay_ltr() {
    for line in [
        "Run cargo test before you commit a1b2c3d4e5f6.",
        "added 42 packages in 3.1s",
        "Install the فایل first, then continue with the rest",
    ] {
        assert_eq!(resolve(line, rtl_ctx()), Dir::Ltr, "should be LTR: {line}");
    }
}

#[test]
fn structure_only_lines_stay_physical() {
    // A box rule must not flip to the far edge just because the document is Persian.
    assert_eq!(resolve("", rtl_ctx()), Dir::Ltr);
    assert_eq!(resolve("--- 123 ---", rtl_ctx()), Dir::Ltr);
}

#[test]
fn ties_defer_to_the_document() {
    let line = "merge کامل";
    assert_eq!(count_runs(&prose_only(line)), (1, 1));
    assert_eq!(resolve(line, rtl_ctx()), Dir::Rtl);
    assert_eq!(resolve(line, Context::default()), Dir::Ltr);
}

#[test]
fn zwnj_does_not_split_a_persian_word() {
    assert_eq!(count_runs("قابلیت\u{200C}های"), (0, 1));
}

#[test]
fn code_and_diff_context_force_ltr() {
    let line = "سلام";
    assert_eq!(resolve(line, rtl_ctx()), Dir::Rtl);
    assert_eq!(resolve(line, Context { in_code: true, ..rtl_ctx() }), Dir::Ltr);
    assert_eq!(resolve(line, Context { diff_mode: true, ..rtl_ctx() }), Dir::Ltr);
}

#[test]
fn prompt_line_stays_ltr() {
    assert_eq!(resolve("$ echo سلام", rtl_ctx()), Dir::Ltr);
}

#[test]
fn first_strong_still_reports_what_it_sees() {
    assert_eq!(first_strong("سلام world"), Some(Dir::Rtl));
    assert_eq!(first_strong("hello سلام"), Some(Dir::Ltr));
    assert_eq!(first_strong("123 -- ── سلام"), Some(Dir::Rtl));
    assert_eq!(first_strong(""), None);
}

#[test]
fn document_dir_follows_the_majority() {
    assert_eq!(document_dir(&["سلام دنیا".into(), "خوش آمدید".into()]), Dir::Rtl);
    assert_eq!(document_dir(&["hello world".into()]), Dir::Ltr);
    assert_eq!(document_dir(&[]), Dir::Ltr);
}

// ---- further cases of the library's own

#[test]
fn count_runs_counts_words_of_each_script() {
    assert_eq!(count_runs("hello world سلام"), (2, 1));
    assert_eq!(count_runs("123 --- ..."), (0, 0));
}

#[test]
fn a_tie_with_no_document_direction_is_ltr() {
    // One run of each script and an LTR document: the tie goes to the document.
    assert_eq!(resolve("کامل merge", Context::default()), Dir::Ltr);
    assert_eq!(resolve("کامل merge", rtl_ctx()), Dir::Rtl);
}

#[test]
fn one_sided_lines_follow_their_only_script() {
    assert_eq!(resolve("سلام دنیا", Context::default()), Dir::Rtl);
    assert_eq!(resolve("hello world", rtl_ctx()), Dir::Ltr);
}

#[test]
fn document_dir_on_a_tie_is_ltr() {
    assert_eq!(document_dir(&["سلام".into(), "hello".into()]), Dir::Ltr);
}

#[test]
fn other_prompts_stay_ltr() {
    assert_eq!(resolve("PS C:\\> سلام دنیا", rtl_ctx()), Dir::Ltr);
    assert_eq!(resolve("  ➜ سلام دنیا", rtl_ctx()), Dir::Ltr);
    assert_eq!(resolve("❯سلام", rtl_ctx()), Dir::Ltr);
}

#[test]
fn runs_add_up_over_a_space() {
    let a = "merge قابلیت‌ها";
    let b = "کامل شد ok";
    let (la, ra) = count_runs(a);
    let (lb, rb) = count_runs(b);
    assert_eq!(count_runs(&format!("{a} {b}")), (la + lb, ra + rb));
    assert_eq!(count_runs(a), count_runs(&a.replace(['\u{200C}', '\u{200D}'], "")));
}

#[test]
fn line_order_does_not_change_the_document_direction() {
    let lines: Vec<String> = vec!["hello world".into(), "سلام دنیا خوش".into(), "ok".into()];
    let mut rev = lines.clone();
    rev.reverse();
    assert_eq!(document_dir(&lines), document_dir(&rev));
}

#[test]
fn a_space_between_two_texts_adds_their_runs() {
    rtlens::bidi::direction::runs_add_up_over_a_space();
    let (a, b) = ("merge کامل", "سلام world");
    let (al, ar) = count_runs(a);
    let (bl, br) = count_runs(b);
    assert_eq!(count_runs(&format!("{a} {b}")), (al + bl, ar + br));
}

#[test]
fn any_reordering_keeps_the_document_direction() {
    let lines: Vec<String> =
        ["hello world", "سلام دنیا", "این یک متن است", "code here"].iter().map(|s| s.to_string()).collect();
    let base = document_dir(&lines);
    let perms = [[3, 1, 0, 2], [2, 3, 1, 0], [1, 0, 3, 2]];
    for p in perms {
        let shuffled: Vec<String> = p.iter().map(|&i| lines[i].clone()).collect();
        assert_eq!(document_dir(&shuffled), base);
    }
}
