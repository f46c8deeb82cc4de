//! Display widths, as the `unicode-width` crate measures them.

use vstd::prelude::*;

verus! {

/// What `UnicodeWidthChar::width` reports for `c`: its width in terminal columns, or
/// `None` for a control character.
pub uninterp spec fn char_width(c: char) -> Option<usize>;

/// What `unicode_width::char_iter_width` (the same measure as `UnicodeWidthStr::width`)
/// reports for the text `s`. It is not in general the sum of the character widths: emoji
/// sequences and `"\r\n"` are measured as units.
pub uninterp spec fn display_width(s: Seq<char>) -> usize;

/// Calls `UnicodeWidthChar::width`. Claims: the result is the named value; a width is at
/// most 255 (the crate reads it from a `u8` table entry); printable ASCII (U+0020 to
/// U+007E) is one column; the C0 and C1 controls (below U+0020, U+007F to U+009F) have no
/// width. The last two are the crate's checks before any table lookup.
#[verifier::external_body]
pub(crate) fn width_of_char(c: char) -> (r: Option<usize>)
    ensures
        r == char_width(c),
        r matches Some(w) ==> w <= 255,
        0x20 <= c as u32 <= 0x7E ==> r == Some(1usize),
        (c as u32) < 0x20 || (0x7F <= c as u32 && (c as u32) < 0xA0) ==> r is None,
{
    unicode_width::UnicodeWidthChar::width(c)
}

/// Calls `unicode_width::char_iter_width` on the characters of `s`. Claims: the result is
/// the named value.
#[verifier::external_body]
pub(crate) fn width_of(s: &[char]) -> (r: usize)
    ensures
        r == display_width(s@),
{
    unicode_width::char_iter_width(s.iter().copied())
}

/// A character's width, with control characters counted as zero columns.
pub open spec fn cw(c: char) -> nat {
    match char_width(c) {
        Some(w) => w as nat,
        None => 0,
    }
}

} // verus!
