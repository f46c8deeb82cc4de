//! Reading the user's current selection out of an application that will not tell us what
//! it is. The platform work (a synthetic copy, the clipboard swap) happens in the shell;
//! what it found is judged here.

use vstd::prelude::*;
use crate::model::CaptureSource;

verus! {

/// How long, in milliseconds, to wait for the target application to answer a synthetic
/// copy. Terminals typically respond in 15-60 ms; a busy application is slow rather than
/// broken, and giving up early means showing the user stale clipboard content.
pub const DEFAULT_BUDGET_MS: u64 = 350;

/// A capture attempt's result.
#[derive(Debug, Clone)]
pub struct Captured {
    pub text: String,
    pub source: CaptureSource,
    /// Bundle id / process name of the app the selection came from, when known.
    pub app: Option<String>,
}

impl Captured {
    /// Nothing captured.
    pub fn empty() -> (r: Self)
        ensures
            r.text@.len() == 0,
            r.source == CaptureSource::Empty,
            r.app is None,
    {
        Self { text: String::new(), source: CaptureSource::Empty, app: None }
    }
}

/// When no selection came through, what is shown instead: the clipboard as it stands when
/// the fallback is on and the clipboard holds something, else nothing at all — never the
/// clipboard dressed up as a selection.
pub fn without_selection(clipboard: String, clipboard_fallback: bool, app: Option<String>) -> (r: Captured)
    ensures
        r.source == (if clipboard@.len() == 0 || !clipboard_fallback {
            CaptureSource::Empty
        } else {
            CaptureSource::ClipboardFallback
        }),
        r.text@ == (if clipboard_fallback {
            clipboard@
        } else {
            Seq::<char>::empty()
        }),
        r.app == app,
{
    let empty = clipboard.as_str().unicode_len() == 0;
    let source = if empty || !clipboard_fallback {
        CaptureSource::Empty
    } else {
        CaptureSource::ClipboardFallback
    };
    let text = if clipboard_fallback {
        clipboard
    } else {
        String::new()
    };
    Captured { text, source, app }
}

/// Without a clipboard sequence number, a copy is detected by content: the clipboard now
/// holds some text, and not the text it held before. Re-copying identical text therefore
/// reads as "no selection", which is harmless: the text shown is the same either way.
pub fn is_fresh_copy(now: &str, before: &str) -> (r: bool)
    ensures
        r == (now@.len() > 0 && now@ != before@),
{
    let a = crate::text::chars_of(now);
    let b = crate::text::chars_of(before);
    a.len() > 0 && !crate::text::same_chars(&a, &b)
}


/// The primary selection counts only when it holds something besides whitespace.
pub fn selection_if_any(text: String) -> (r: Option<String>)
    ensures
        r matches Some(t) ==> t@ == text@ && !crate::text::all_ws(text@),
        r is None ==> crate::text::all_ws(text@),
{
    let c = crate::text::chars_of(text.as_str());
    let t = crate::text::trimmed(&c);
    proof {
        crate::text::lemma_trim_empty_iff_all_ws(text@);
    }
    if t.len() > 0 {
        Some(text)
    } else {
        None
    }
}


/// Putting the clipboard back after a capture is skipped when the clipboard moved on
/// again after the copy (another app, or the user, wrote to it meanwhile, and clobbering
/// that would be worse than leaving the copy in place), and when there is nothing to put
/// back.
pub fn should_restore(change_count_now: isize, expected: isize, backup_empty: bool) -> (r: bool)
    ensures
        r == (change_count_now == expected && !backup_empty),
{
    change_count_now == expected && !backup_empty
}

} // verus!
