//! Decisions about the shell's windows.

use vstd::prelude::*;
use crate::text::{chars_of, has_char, string_of, trim, trimmed};

verus! {

/// The label of the HUD window.
pub const HUD: &'static str = "hud";

/// The label of the settings window.
pub const SETTINGS: &'static str = "settings";

/// Calls `std::str::from_utf8`. Claims what its documentation says: it succeeds exactly on
/// valid UTF-8, and then gives the characters the bytes encode.
#[verifier::external_body]
fn decode_utf8(bytes: &[u8]) -> (r: Option<String>)
    ensures
        r is Some <==> vstd::utf8::valid_utf8(bytes@),
        r matches Some(s) ==> s@ == vstd::utf8::decode_utf8(bytes@),
{
    match std::str::from_utf8(bytes) {
        Ok(s) => Some(s.to_string()),
        Err(_) => None,
    }
}

/// The workspace a window manager reports as focused, from its text: one name on one
/// line. Blank output, or more than one line, names no workspace.
pub open spec fn workspace_of(text: Seq<char>) -> Option<Seq<char>> {
    let t = trim(text);
    if t.len() > 0 && !t.contains('\n') && !t.contains('\r') {
        Some(t)
    } else {
        None
    }
}

/// The focused workspace named by a window manager's text output.
pub fn workspace_from_text(text: &str) -> (r: Option<String>)
    ensures
        r matches Some(s) ==> workspace_of(text@) == Some(s@),
        r is None ==> workspace_of(text@) is None,
{
    let c = chars_of(text);
    let t = trimmed(&c);
    if t.len() > 0 && !has_char(&t, '\n') && !has_char(&t, '\r') {
        Some(string_of(&t))
    } else {
        None
    }
}

/// The focused workspace named by a window manager's raw output: nothing when the output
/// is not UTF-8.
pub fn parse_workspace(stdout: &[u8]) -> (r: Option<String>)
    ensures
        r matches Some(s) ==> vstd::utf8::valid_utf8(stdout@) && workspace_of(vstd::utf8::decode_utf8(stdout@))
            == Some(s@),
        r is None ==> (vstd::utf8::valid_utf8(stdout@) ==> workspace_of(vstd::utf8::decode_utf8(stdout@)) is None),
{
    match decode_utf8(stdout) {
        Some(text) => workspace_from_text(text.as_str()),
        None => None,
    }
}

} // verus!
