use rtlens::bidi::RawLine;
use rtlens::sanitize::unwrap::soft_unwrap;
use rtlens::Dir;

fn line(content: &str, dir: Dir) -> RawLine {
    RawLine {
        lead: String::new(),
        row: None,
        content: content.to_string(),
        tail: String::new(),
        boxed: false,
        in_code: false,
        dir,
    }
}

fn contents(lines: Vec<RawLine>) -> Vec<String> {
    lines.into_iter().map(|l| l.content).collect()
}

#[test]
fn joins_a_hard_wrapped_persian_paragraph() {
    // Two fragments of one sentence, each near the terminal width.
    let a = "این یک متن طولانی فارسی است که توسط ترمینال در عرض هشتاد ستون شکسته";
    let b = "شده است و باید دوباره به هم بچسبد.";
    let out = contents(soft_unwrap(vec![line(a, Dir::Rtl), line(b, Dir::Rtl)]));
    assert_eq!(out, vec![format!("{a} {b}")]);
}

#[test]
fn does_not_join_after_sentence_end() {
    let a = "این یک جمله کامل فارسی است که به نقطه ختم می‌شود و تمام شده است.";
    let b = "این جمله بعدی است که جدا بماند.";
    let out = contents(soft_unwrap(vec![line(a, Dir::Rtl), line(b, Dir::Rtl)]));
    assert_eq!(out.len(), 2);
}

#[test]
fn does_not_join_short_list_items() {
    // The regression this guard exists for: three short lines are a list, not a paragraph.
    let out = contents(soft_unwrap(vec![
        line("سلام", Dir::Rtl),
        line("خداحافظ", Dir::Rtl),
        line("بدرود", Dir::Rtl),
    ]));
    assert_eq!(out.len(), 3);
}

#[test]
fn does_not_join_across_directions() {
    let a = "این یک متن طولانی فارسی است که توسط ترمینال در عرض هشتاد ستون شکسته";
    let b = "and this english line should stay separate from it entirely";
    let out = contents(soft_unwrap(vec![line(a, Dir::Rtl), line(b, Dir::Ltr)]));
    assert_eq!(out.len(), 2);
}

#[test]
fn never_joins_code_or_boxed_lines() {
    let long = "این یک متن طولانی فارسی است که توسط ترمینال در عرض هشتاد ستون شکسته";
    let mut a = line(long, Dir::Rtl);
    let mut b = line("ادامه متن", Dir::Rtl);
    a.in_code = true;
    b.in_code = true;
    assert_eq!(soft_unwrap(vec![a, b]).len(), 2);

    let mut a = line(long, Dir::Rtl);
    let mut b = line("ادامه متن", Dir::Rtl);
    a.boxed = true;
    b.boxed = true;
    assert_eq!(soft_unwrap(vec![a, b]).len(), 2);
}

#[test]
fn blank_line_breaks_a_paragraph() {
    let long = "این یک متن طولانی فارسی است که توسط ترمینال در عرض هشتاد ستون شکسته";
    let out = soft_unwrap(vec![line(long, Dir::Rtl), line("", Dir::Ltr), line("ادامه", Dir::Rtl)]);
    assert_eq!(out.len(), 3);
}

#[test]
fn differing_indentation_is_not_one_paragraph() {
    let long = "این یک متن طولانی فارسی است که توسط ترمینال در عرض هشتاد ستون شکسته";
    let mut a = line(long, Dir::Rtl);
    a.lead = "- ".into();
    let mut b = line("ادامه دارد", Dir::Rtl);
    b.lead = "  ".into();
    assert_eq!(soft_unwrap(vec![a, b]).len(), 2);
}

#[test]
fn empty_input() {
    assert!(soft_unwrap(vec![]).is_empty());
}

// ---- further cases of the library's own

#[test]
fn three_fragments_become_one() {
    let a = "this is a long english sentence that the terminal has wrapped at";
    let b = "its column width and that continues on the following line until";
    let c = "it finally ends.";
    let out = contents(soft_unwrap(vec![line(a, Dir::Ltr), line(b, Dir::Ltr), line(c, Dir::Ltr)]));
    assert_eq!(out, vec![format!("{a} {b} {c}")]);
}

#[test]
fn a_short_first_line_is_kept_apart() {
    // Under the wrap width: a deliberately short line, never merged.
    let out = contents(soft_unwrap(vec![line("short line", Dir::Ltr), line("next", Dir::Ltr)]));
    assert_eq!(out.len(), 2);
}

#[test]
fn the_join_trims_the_seam_only() {
    let a = "this is a long english sentence that the terminal has wrapped at  ";
    let b = "  the end";
    let out = contents(soft_unwrap(vec![line(a, Dir::Ltr), line(b, Dir::Ltr)]));
    assert_eq!(out, vec![format!("{} {}", a.trim_end(), b.trim_start())]);
}

#[test]
fn unwrapping_keeps_every_word_in_order() {
    let a = "این یک متن طولانی فارسی است که توسط ترمینال در عرض هشتاد ستون شکسته   ";
    let b = "   شده است و باید دوباره به هم بچسبد.";
    let c = "کوتاه";
    let input = vec![line(a, Dir::Rtl), line(b, Dir::Rtl), line("", Dir::Ltr), line(c, Dir::Rtl)];
    let before: Vec<String> =
        input.iter().flat_map(|l| l.content.split_whitespace().map(str::to_string)).collect();
    let out = soft_unwrap(input);
    assert_eq!(out.len(), 3);
    let after: Vec<String> =
        out.iter().flat_map(|l| l.content.split_whitespace().map(str::to_string)).collect();
    assert_eq!(after, before);
    assert_eq!(out[0].content, format!("{} {}", a.trim_end(), b.trim_start()));
    assert!(out.iter().all(|l| l.lead.is_empty() && l.tail.is_empty() && !l.boxed && !l.in_code));
}
