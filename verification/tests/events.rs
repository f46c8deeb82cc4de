use rtlens::shell::capture::should_restore;
use rtlens::shell::events::{
    hides_instead_of_closing, menu_action, needs_rebind, on_trigger, rerun_source, retry_delay_ms, startup_fallback,
    MenuAction, TriggerAction,
};
use rtlens::CaptureSource;

#[test]
fn a_second_press_puts_the_hud_away() {
    assert_eq!(on_trigger(true), TriggerAction::Hide);
    assert_eq!(on_trigger(false), TriggerAction::Capture);
}

#[test]
fn menu_items_map_to_their_actions() {
    assert_eq!(menu_action("capture"), MenuAction::Capture);
    assert_eq!(menu_action("settings"), MenuAction::OpenSettings);
    assert_eq!(menu_action("autostart"), MenuAction::ToggleAutostart);
    assert_eq!(menu_action("quit"), MenuAction::Quit);
    assert_eq!(menu_action("other"), MenuAction::Nothing);
}

#[test]
fn only_the_hud_hides_instead_of_closing() {
    assert!(hides_instead_of_closing("hud"));
    assert!(!hides_instead_of_closing("settings"));
}

#[test]
fn a_failed_binding_falls_back_to_the_default_once() {
    assert_eq!(startup_fallback("Control+Shift+Y"), Some("Control+Alt+R".to_string()));
    assert_eq!(startup_fallback("Control+Alt+R"), None);
}

#[test]
fn only_a_changed_shortcut_is_rebound() {
    assert!(needs_rebind("Control+Alt+R", "Control+Alt+T"));
    assert!(!needs_rebind("Control+Alt+R", "Control+Alt+R"));
}

#[test]
fn a_rerun_keeps_the_capture_source() {
    assert_eq!(rerun_source(Some(CaptureSource::ClipboardFallback)), CaptureSource::ClipboardFallback);
    assert_eq!(rerun_source(None), CaptureSource::Empty);
}

#[test]
fn the_window_manager_is_asked_ten_times() {
    let waits: Vec<Option<u64>> = (0..10).map(retry_delay_ms).collect();
    assert_eq!(waits[..9].iter().filter(|w| **w == Some(50)).count(), 9);
    assert_eq!(waits[9], None);
}

#[test]
fn the_clipboard_is_restored_only_when_untouched_and_saved() {
    assert!(should_restore(7, 7, false));
    assert!(!should_restore(8, 7, false));
    assert!(!should_restore(7, 7, true));
}
