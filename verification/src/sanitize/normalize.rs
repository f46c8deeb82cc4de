//! Persian orthographic normalisation.
//!
//! Terminal output routinely mixes Arabic and Persian codepoints for what a reader sees as
//! the same letter. Left alone, a Persian font has no glyph for the Arabic form and the
//! renderer falls back to a different face mid-word.

use vstd::prelude::*;
use crate::text::{chars_of, string_of};

verus! {

/// What `unicode_normalization` yields for the one-character string `c` under NFKC.
pub uninterp spec fn nfkc_of(c: char) -> Seq<char>;

/// Calls `UnicodeNormalization::nfkc` on the one-character string `c` and collects the
/// characters. Claims: the result is the named value, and it holds none of U+2066..U+2069
/// (the isolate controls) unless `c` is one: no decomposition or composition in the crate's
/// tables yields them, so they come out only where they went in.
#[verifier::external_body]
fn nfkc_char(c: char) -> (r: Vec<char>)
    ensures
        r@ == nfkc_of(c),
        !(0x2066 <= c as u32 <= 0x2069) ==> forall|k: int| 0 <= k < r@.len() ==> !(0x2066 <= #[trigger] r@[k] as u32 <= 0x2069),
{
    unicode_normalization::UnicodeNormalization::nfkc(c.to_string().as_str()).collect()
}

/// Arabic presentation forms A and B (U+FB50..U+FDFF, U+FE70..U+FEFC): precomposed
/// ligatures and positional variants. U+FEFF, the BOM, is not one of them.
pub open spec fn presentation_form(c: char) -> bool {
    let u = c as u32;
    (0xFB50 <= u <= 0xFDFF) || (0xFE70 <= u <= 0xFEFC)
}

/// Fold an Arabic codepoint onto its Persian equivalent: yeh and alef maksura become
/// Farsi yeh, kaf becomes keheh; everything else is left alone.
pub open spec fn fold_letter(c: char) -> char {
    if c == '\u{064A}' || c == '\u{0649}' {
        '\u{06CC}'
    } else if c == '\u{0643}' {
        '\u{06A9}'
    } else {
        c
    }
}

fn fold_letter_exec(c: char) -> (r: char)
    ensures
        r == fold_letter(c),
{
    if c == '\u{064A}' || c == '\u{0649}' {
        '\u{06CC}'
    } else if c == '\u{0643}' {
        '\u{06A9}'
    } else {
        c
    }
}

/// What one input character becomes: a presentation form is NFKC-decomposed and each
/// resulting letter folded; any other character is folded on its own.
pub open spec fn normalize_char(c: char) -> Seq<char> {
    if presentation_form(c) {
        nfkc_of(c).map_values(|x: char| fold_letter(x))
    } else {
        seq![fold_letter(c)]
    }
}

pub open spec fn persian_of(s: Seq<char>) -> Seq<char>
    decreases s.len(),
{
    if s.len() == 0 {
        Seq::empty()
    } else {
        persian_of(s.drop_last()) + normalize_char(s.last())
    }
}

pub fn persian_chars(input: &[char]) -> (r: Vec<char>)
    ensures
        r@ == persian_of(input@),
        crate::copyback::no_isolates(input@) ==> crate::copyback::no_isolates(r@),
{
    let mut out: Vec<char> = Vec::new();
    let mut i: usize = 0;
    while i < input.len()
        invariant
            i <= input@.len(),
            out@ == persian_of(input@.take(i as int)),
            crate::copyback::no_isolates(input@) ==> crate::copyback::no_isolates(out@),
        decreases input@.len() - i,
    {
        assert(input@.take(i + 1).drop_last() =~= input@.take(i as int));
        let ch = input[i];
        let u = ch as u32;
        if (0xFB50 <= u && u <= 0xFDFF) || (0xFE70 <= u && u <= 0xFEFC) {
            let parts = nfkc_char(ch);
            assert(!(0x2066 <= ch as u32 <= 0x2069));
            let ghost base = out@;
            let mut k: usize = 0;
            while k < parts.len()
                invariant
                    k <= parts@.len(),
                    out@ == base + parts@.take(k as int).map_values(|x: char| fold_letter(x)),
                    !(0x2066 <= ch as u32 <= 0x2069),
                    forall|j: int| 0 <= j < parts@.len() ==> !(0x2066 <= #[trigger] parts@[j] as u32 <= 0x2069),
                    crate::copyback::no_isolates(input@) ==> crate::copyback::no_isolates(out@),
                decreases parts@.len() - k,
            {
                let ghost before = out@;
                out.push(fold_letter_exec(parts[k]));
                proof {
                    if crate::copyback::no_isolates(input@) {
                        assert(!(0x2066 <= parts@[k as int] as u32 <= 0x2069));
                        assert forall|j: int| 0 <= j < out@.len() implies !crate::copyback::is_isolate(#[trigger] out@[j]) by {
                            if j < before.len() {
                                assert(out@[j] == before[j]);
                            }
                        }
                    }
                }
                k += 1;
                assert(out@ =~= base + parts@.take(k as int).map_values(|x: char| fold_letter(x)));
            }
            assert(parts@.take(parts@.len() as int) =~= parts@);
        } else {
            let ghost before = out@;
            out.push(fold_letter_exec(ch));
            proof {
                if crate::copyback::no_isolates(input@) {
                    assert(!crate::copyback::is_isolate(input@[i as int]));
                    assert forall|j: int| 0 <= j < out@.len() implies !crate::copyback::is_isolate(#[trigger] out@[j]) by {
                        if j < before.len() {
                            assert(out@[j] == before[j]);
                        }
                    }
                }
            }
        }
        i += 1;
    }
    assert(input@.take(input@.len() as int) =~= input@);
    out
}

/// Apply Persian normalisation to a whole document. Digits are left alone on purpose:
/// mapping them would corrupt version numbers, hashes and paths.
pub fn persian(input: &str) -> (r: String)
    ensures
        r@ == persian_of(input@),
{
    let c = chars_of(input);
    let out = persian_chars(&c);
    string_of(&out)
}

proof fn lemma_persian_no_arabic(s: Seq<char>)
    ensures
        forall|k: int|
            0 <= k < persian_of(s).len() ==> #[trigger] persian_of(s)[k] != '\u{064A}' && persian_of(s)[k]
                != '\u{0649}' && persian_of(s)[k] != '\u{0643}',
        forall|k: int| 0 <= k < persian_of(s).len() ==> exists|x: char| #[trigger] persian_of(s)[k] == fold_letter(x),
    decreases s.len(),
{
    if s.len() > 0 {
        lemma_persian_no_arabic(s.drop_last());
        let p = persian_of(s.drop_last());
        let t = normalize_char(s.last());
        assert forall|k: int| 0 <= k < persian_of(s).len() implies exists|x: char| #[trigger] persian_of(s)[k] == fold_letter(x) by {
            if k < p.len() {
                assert(persian_of(s)[k] == p[k]);
            } else {
                assert(persian_of(s)[k] == t[k - p.len()]);
                if presentation_form(s.last()) {
                    assert(t[k - p.len()] == fold_letter(nfkc_of(s.last())[k - p.len()]));
                } else {
                    assert(t[k - p.len()] == fold_letter(s.last()));
                }
            }
        }
    }
}

/// Normalised text never holds Arabic yeh, alef maksura or kaf: every one of them,
/// including those a ligature decomposes into, is folded to its Persian form.
pub proof fn law_no_arabic_forms_survive(s: Seq<char>)
    ensures
        !persian_of(s).contains('\u{064A}'),
        !persian_of(s).contains('\u{0649}'),
        !persian_of(s).contains('\u{0643}'),
{
    lemma_persian_no_arabic(s);
}

/// Text with no presentation form and none of the three folded letters (ASCII, digits,
/// paths, Persian itself) passes through unchanged.
pub proof fn law_other_text_is_untouched(s: Seq<char>)
    requires
        forall|k: int|
            0 <= k < s.len() ==> !presentation_form(#[trigger] s[k]) && fold_letter(s[k]) == s[k],
    ensures
        persian_of(s) == s,
    decreases s.len(),
{
    if s.len() > 0 {
        law_other_text_is_untouched(s.drop_last());
        assert(s.drop_last().push(s.last()) =~= s);
    }
}

} // verus!
