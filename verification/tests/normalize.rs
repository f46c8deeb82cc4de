use rtlens::sanitize::normalize::persian;

#[test]
fn folds_arabic_yeh_and_kaf() {
    // "کیفیت" spelled with Arabic yeh + kaf.
    let arabic = "\u{0643}\u{064A}\u{0641}\u{064A}\u{062A}";
    let persian_form = "\u{06A9}\u{06CC}\u{0641}\u{06CC}\u{062A}";
    assert_eq!(persian(arabic), persian_form);
}

#[test]
fn expands_lam_alef_ligature() {
    // U+FEFB ARABIC LIGATURE LAM WITH ALEF ISOLATED FORM -> lam + alef.
    assert_eq!(persian("\u{FEFB}"), "\u{0644}\u{0627}");
}

#[test]
fn folds_positional_presentation_forms() {
    // U+FEF3 (yeh initial form) normalises to plain yeh, then folds to Farsi yeh.
    assert_eq!(persian("\u{FEF3}"), "\u{06CC}");
}

#[test]
fn leaves_bom_alone() {
    // U+FEFF sits just past the presentation-form range and must not be NFKC'd here;
    // the escape cleaner is what removes it.
    assert_eq!(persian("\u{FEFF}"), "\u{FEFF}");
}

#[test]
fn leaves_ascii_and_digits_untouched() {
    assert_eq!(persian("v1.2.3 --flag /src/main.rs"), "v1.2.3 --flag /src/main.rs");
}

#[test]
fn preserves_zwnj() {
    assert_eq!(persian("می\u{200C}رود"), "می\u{200C}رود");
}

// ---- further cases of the library's own

#[test]
fn alef_maksura_folds_to_farsi_yeh() {
    assert_eq!(persian("\u{0649}"), "\u{06CC}");
}

#[test]
fn full_width_latin_outside_the_forms_is_kept() {
    assert_eq!(persian("ＡＢＣ"), "ＡＢＣ");
}

#[test]
fn persian_digits_are_kept() {
    assert_eq!(persian("۱۲۳"), "۱۲۳");
}

#[test]
fn a_presentation_form_of_kaf_folds_to_keheh() {
    // U+FEDB ARABIC LETTER KAF INITIAL FORM -> kaf -> keheh.
    assert_eq!(persian("\u{FEDB}"), "\u{06A9}");
}
