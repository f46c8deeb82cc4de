//! The decisions of the application shell: what it persists, how it reads a capture, and
//! how it answers the platform. The shell itself (windows, hotkeys, clipboard, threads)
//! performs the actions these decide on.

use vstd::prelude::*;

pub mod antigravity;
pub mod capture;
pub mod config;
pub mod events;
pub mod window;

verus! {

/// Activating the app from the Dock opens the settings window, but only when no window of
/// the app is on screen: with one visible, the activation just brings it forward.
pub fn should_open_settings_on_reopen(has_visible_windows: bool) -> (r: bool)
    ensures
        r == !has_visible_windows,
{
    !has_visible_windows
}

} // verus!
