//! How the shell answers what happens to it: the trigger, the menu bar, window events,
//! a failed hotkey binding at startup, an engine re-run, and retries of the window
//! manager.

use vstd::prelude::*;
use crate::model::CaptureSource;
use crate::text::{chars_of, same_chars};

verus! {

/// What a press of the trigger does.
#[derive(Debug, Clone, Copy, PartialEq, Eq, Structural)]
pub enum TriggerAction {
    /// Capture, analyse and show.
    Capture,
    /// Put the HUD away.
    Hide,
}

/// A second press while the HUD is up means "put it away".
pub fn on_trigger(hud_visible: bool) -> (r: TriggerAction)
    ensures
        r == (if hud_visible {
            TriggerAction::Hide
        } else {
            TriggerAction::Capture
        }),
{
    if hud_visible {
        TriggerAction::Hide
    } else {
        TriggerAction::Capture
    }
}

/// What an item of the menu-bar menu does.
#[derive(Debug, Clone, Copy, PartialEq, Eq, Structural)]
pub enum MenuAction {
    Capture,
    OpenSettings,
    ToggleAutostart,
    Quit,
    Nothing,
}

/// The action behind a menu item's id.
pub open spec fn menu_action_of(id: Seq<char>) -> MenuAction {
    if id == "capture"@ {
        MenuAction::Capture
    } else if id == "settings"@ {
        MenuAction::OpenSettings
    } else if id == "autostart"@ {
        MenuAction::ToggleAutostart
    } else if id == "quit"@ {
        MenuAction::Quit
    } else {
        MenuAction::Nothing
    }
}

/// The text is exactly the literal.
fn is_text(s: &str, lit: &str) -> (r: bool)
    ensures
        r == (s@ == lit@),
{
    let a = chars_of(s);
    let b = chars_of(lit);
    same_chars(&a, &b)
}

pub fn menu_action(id: &str) -> (r: MenuAction)
    ensures
        r == menu_action_of(id@),
{
    if is_text(id, "capture") {
        MenuAction::Capture
    } else if is_text(id, "settings") {
        MenuAction::OpenSettings
    } else if is_text(id, "autostart") {
        MenuAction::ToggleAutostart
    } else if is_text(id, "quit") {
        MenuAction::Quit
    } else {
        MenuAction::Nothing
    }
}

/// Closing the HUD puts it away rather than tearing it down: the window is built once
/// and reused for every capture. Any other window closes as asked.
pub fn hides_instead_of_closing(label: &str) -> (r: bool)
    ensures
        r == (label@ == crate::shell::window::HUD@),
{
    is_text(label, crate::shell::window::HUD)
}

/// When the configured trigger cannot be bound at startup, the default is bound instead
/// so the app is never left with no trigger; when the default itself failed there is
/// nothing to fall back to.
pub fn startup_fallback(configured: &str) -> (r: Option<String>)
    ensures
        r matches Some(s) ==> configured@ != "Control+Alt+R"@ && s@ == "Control+Alt+R"@,
        r is None ==> configured@ == "Control+Alt+R"@,
{
    let d = crate::shell::config::default_shortcut();
    if is_text(configured, d.as_str()) {
        None
    } else {
        Some(d)
    }
}

/// Saving settings rebinds the trigger only when the shortcut changed.
pub fn needs_rebind(previous: &str, next: &str) -> (r: bool)
    ensures
        r == (previous@ != next@),
{
    !is_text(previous, next)
}

/// Re-running the engine with new toggles keeps the source of the text already captured;
/// with nothing captured yet, the source is `Empty`.
pub fn rerun_source(last: Option<CaptureSource>) -> (r: CaptureSource)
    ensures
        r == (match last {
            Some(s) => s,
            None => CaptureSource::Empty,
        }),
{
    match last {
        Some(s) => s,
        None => CaptureSource::Empty,
    }
}

/// How many times the window manager is asked to move the settings window.
pub const MOVE_ATTEMPTS: u32 = 10;

/// Milliseconds to wait before the next attempt to move the settings window, after
/// attempt `attempt` (counted from 0) failed; `None` when that was the last attempt.
pub fn retry_delay_ms(attempt: u32) -> (r: Option<u64>)
    ensures
        r == (if attempt + 1 < MOVE_ATTEMPTS {
            Some(50u64)
        } else {
            None::<u64>
        }),
{
    if attempt < MOVE_ATTEMPTS - 1 {
        Some(50)
    } else {
        None
    }
}

} // verus!
