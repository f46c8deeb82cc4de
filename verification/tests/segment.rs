use rtlens::bidi::segment::{prose_only, segment};
use rtlens::Segment;

fn kinds(content: &str) -> Vec<(&'static str, String)> {
    segment(content, true)
        .into_iter()
        .map(|s| match s {
            Segment::Text(t) => ("text", t),
            Segment::Code(t) => ("code", t),
        })
        .collect()
}

fn codes(content: &str) -> Vec<String> {
    kinds(content).into_iter().filter(|(k, _)| *k == "code").map(|(_, t)| t).collect()
}

#[test]
fn a_settings_key_keeps_its_value() {
    // Reported from a report table: the value broke away from its key and its digits
    // reordered against the Persian around them.
    let segs = segment("محدودیت پیش‌فرض report.maxPositions=50000 است", true);
    assert!(
        segs.contains(&Segment::Code("report.maxPositions=50000".into())),
        "key and value must stay one token: {segs:?}"
    );
}

#[test]
fn isolates_paths_flags_and_urls() {
    assert_eq!(codes("فایل /src/main.rs را ببین"), vec!["/src/main.rs"]);
    assert_eq!(codes("از --help استفاده کن"), vec!["--help"]);
    assert_eq!(codes("برو به https://example.com/docs"), vec!["https://example.com/docs"]);
    assert_eq!(codes("مسیر src/components/App.tsx"), vec!["src/components/App.tsx"]);
}

#[test]
fn trailing_period_stays_with_the_sentence() {
    // The whole point: the period must not be swallowed into the LTR run.
    let out = kinds("فایل main.rs.");
    assert_eq!(
        out,
        vec![("text", "فایل ".to_string()), ("code", "main.rs".to_string()), ("text", ".".to_string()),]
    );
}

#[test]
fn unmatched_closing_bracket_is_pushed_out() {
    let out = kinds("(فایل main.rs)");
    assert_eq!(out.last().unwrap(), &("text", ")".to_string()));
}

#[test]
fn balanced_brackets_stay_inside() {
    assert_eq!(codes("مقدار [INFO] است"), vec!["[INFO]"]);
}

#[test]
fn hyphenated_word_is_not_a_flag() {
    assert!(codes("send an e-mail today").is_empty());
}

#[test]
fn hex_word_without_digits_is_not_a_hash() {
    assert!(codes("the defaced page").is_empty());
    assert_eq!(codes("commit a1b2c3d4e5"), vec!["a1b2c3d4e5"]);
}

#[test]
fn versions_and_identifiers() {
    assert_eq!(codes("نسخه v1.2.3 منتشر شد"), vec!["v1.2.3"]);
    assert_eq!(codes("فایل package.json را باز کن"), vec!["package.json"]);
    assert_eq!(codes("فایل docker-compose.yml را باز کن"), vec!["docker-compose.yml"]);
    assert_eq!(codes("تابع foo::bar را صدا بزن"), vec!["foo::bar"]);
    assert_eq!(codes("متغیر dockhand_stg_webhook_url را تنظیم کن"), vec!["dockhand_stg_webhook_url"]);
    assert_eq!(codes("مقدار PLATFORM_ENV=production است"), vec!["PLATFORM_ENV=production"]);
    assert_eq!(codes("کاربر admin@local.c را بساز"), vec!["admin@local.c"]);
}

#[test]
fn backticks_are_stripped_when_asked() {
    assert_eq!(segment("مقدار `cargo test` است", true)[1], Segment::Code("cargo test".into()));
    assert_eq!(segment("مقدار `cargo test` است", false)[1], Segment::Code("`cargo test`".into()));
}

#[test]
fn plain_prose_is_left_alone() {
    assert_eq!(kinds("این یک جمله فارسی است"), vec![("text", "این یک جمله فارسی است".to_string())]);
    assert_eq!(
        kinds("just a plain english line"),
        vec![("text", "just a plain english line".to_string())]
    );
}

#[test]
fn empty_content() {
    assert!(segment("", true).is_empty());
}

#[test]
fn prose_only_drops_code_tokens() {
    assert_eq!(
        prose_only("فایل src/components/App.tsx را با --verbose اجرا کن.").trim(),
        "فایل   را با   اجرا کن."
    );
    assert_eq!(prose_only("این یک جمله فارسی است"), "این یک جمله فارسی است");
}

#[test]
fn segments_reassemble_to_the_original() {
    for line in [
        "فایل /src/main.rs را با --verbose اجرا کن.",
        "run cargo build --release then check target/debug",
        "نسخه v1.2.3 در package.json ثبت شد (مهم)",
    ] {
        let joined: String = segment(line, false).iter().map(|s| s.text()).collect();
        assert_eq!(joined, line, "lossless reassembly failed for: {line}");
    }
}

// ---- further cases of the library's own

#[test]
fn a_backticked_span_is_one_code_run() {
    assert_eq!(codes("اجرای `npm run build` کامل شد"), vec!["npm run build"]);
}

#[test]
fn no_two_text_runs_are_adjacent() {
    let segs = segment("فایل a.rs و b.rs و c.rs", true);
    for pair in segs.windows(2) {
        assert!(!matches!(pair, [Segment::Text(_), Segment::Text(_)]), "{segs:?}");
    }
}

#[test]
fn prose_only_leaves_no_code_behind() {
    let prose = prose_only("فایل src/main.rs را با --verbose ببین");
    assert!(!prose.contains("src/main.rs"), "{prose:?}");
    assert!(!prose.contains("--verbose"), "{prose:?}");
    assert!(prose.contains("فایل") && prose.contains("ببین"), "{prose:?}");
}

#[test]
fn stripping_backticks_only_unfences_code_runs() {
    let line = "مقدار `cargo test` و src/main.rs است";
    let kept = segment(line, false);
    let stripped = segment(line, true);
    assert_eq!(kept.len(), stripped.len());
    for (a, b) in kept.iter().zip(&stripped) {
        match (a, b) {
            (Segment::Text(x), Segment::Text(y)) => assert_eq!(x, y),
            (Segment::Code(x), Segment::Code(y)) => assert_eq!(x.trim_matches('`'), y),
            _ => panic!("kinds differ: {a:?} {b:?}"),
        }
    }
    assert!(kept.iter().all(|s| !s.is_empty()));
}

#[test]
fn prose_is_the_text_with_each_code_run_as_one_space() {
    let line = "فایل src/main.rs را با --verbose ببین";
    let expected: String = segment(line, false)
        .iter()
        .map(|s| match s {
            Segment::Text(t) => t.as_str(),
            Segment::Code(_) => " ",
        })
        .collect();
    assert_eq!(prose_only(line), expected);
}

#[test]
fn no_segment_is_ever_empty_either_way() {
    for c in ["run `x` and src/main.rs then `y`", "``", "a `` b", "`a`", "plain"] {
        for strip in [false, true] {
            let segs = segment(c, strip);
            assert!(segs.iter().all(|s| match s {
                Segment::Text(t) | Segment::Code(t) => !t.is_empty(),
            }));
            assert!(segs.windows(2).all(|w| !(matches!(w[0], Segment::Text(_)) && matches!(w[1], Segment::Text(_)))));
        }
    }
}
