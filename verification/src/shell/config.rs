//! Persisted settings.

use vstd::prelude::*;
use crate::model::Options;

verus! {

/// The file the settings are stored in.
pub const STORE_FILE: &'static str = "settings.json";

/// The key the settings are stored under.
pub const KEY: &'static str = "settings";

/// The default trigger.
///
/// Deliberately not ⌘⇧R: a global shortcut outranks application shortcuts, so binding
/// that would disable hard-reload in every browser for as long as RTLens is running.
pub fn default_shortcut() -> (r: String)
    ensures
        r@ == "Control+Alt+R"@,
{
    String::from_str("Control+Alt+R")
}

#[derive(Debug, Clone, PartialEq, Eq)]
pub struct Settings {
    pub shortcut: String,
    pub engine: Options,
    /// Hide the HUD when it loses focus.
    pub dismiss_on_blur: bool,
    /// When no selection is detected, show the current clipboard instead of an empty state.
    pub clipboard_fallback: bool,
    pub font_size: u32,
}

impl Default for Settings {
    fn default() -> (r: Self)
        ensures
            r.shortcut@ == "Control+Alt+R"@,
            r.engine.normalize_persian,
            r.engine.soft_unwrap,
            r.engine.strip_backticks,
            r.engine.tab_width == 4,
            r.dismiss_on_blur,
            r.clipboard_fallback,
            r.font_size == 14,
    {
        Self {
            shortcut: default_shortcut(),
            engine: Options::default(),
            dismiss_on_blur: true,
            clipboard_fallback: true,
            font_size: 14,
        }
    }
}

} // verus!
