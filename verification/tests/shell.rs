use rtlens::shell::capture::{is_fresh_copy, selection_if_any, without_selection, Captured};
use rtlens::shell::config::{default_shortcut, Settings};
use rtlens::shell::should_open_settings_on_reopen;
use rtlens::shell::window::{parse_workspace, workspace_from_text};
use rtlens::CaptureSource;

#[test]
fn dock_reopen_opens_settings_when_all_windows_are_hidden() {
    assert!(should_open_settings_on_reopen(false));
    assert!(!should_open_settings_on_reopen(true));
}

#[test]
fn parses_one_focused_aerospace_workspace() {
    assert_eq!(parse_workspace(b"  dev \n"), Some("dev".to_string()));
}

#[test]
fn rejects_missing_or_ambiguous_aerospace_workspace() {
    assert_eq!(parse_workspace(b"\n"), None);
    assert_eq!(parse_workspace(b"one\ntwo\n"), None);
    assert_eq!(parse_workspace(&[0xff]), None);
}

// ---- further cases of the library's own

#[test]
fn a_workspace_name_may_hold_inner_spaces() {
    assert_eq!(workspace_from_text(" web dev\r\n"), Some("web dev".to_string()));
    assert_eq!(workspace_from_text("a\rb"), None);
}

#[test]
fn utf8_workspace_names_are_read() {
    assert_eq!(parse_workspace("کار\n".as_bytes()), Some("کار".to_string()));
}

#[test]
fn the_default_shortcut_spares_browser_reload() {
    assert_eq!(default_shortcut(), "Control+Alt+R");
}

#[test]
fn default_settings() {
    let s = Settings::default();
    assert_eq!(s.shortcut, "Control+Alt+R");
    assert!(s.dismiss_on_blur);
    assert!(s.clipboard_fallback);
    assert_eq!(s.font_size, 14);
    assert_eq!(s.engine.tab_width, 4);
}

#[test]
fn an_empty_capture_is_empty() {
    let c = Captured::empty();
    assert_eq!(c.text, "");
    assert_eq!(c.source, CaptureSource::Empty);
    assert_eq!(c.app, None);
}

#[test]
fn without_a_selection_the_clipboard_is_shown_only_when_asked() {
    let c = without_selection("old".to_string(), true, Some("app".to_string()));
    assert_eq!(c.source, CaptureSource::ClipboardFallback);
    assert_eq!(c.text, "old");
    assert_eq!(c.app.as_deref(), Some("app"));

    let c = without_selection("old".to_string(), false, None);
    assert_eq!(c.source, CaptureSource::Empty);
    assert_eq!(c.text, "");

    let c = without_selection(String::new(), true, None);
    assert_eq!(c.source, CaptureSource::Empty);
    assert_eq!(c.text, "");
}

#[test]
fn a_copy_is_fresh_only_when_the_clipboard_changed_to_something() {
    assert!(is_fresh_copy("new", "old"));
    assert!(!is_fresh_copy("old", "old"));
    assert!(!is_fresh_copy("", "old"));
}

#[test]
fn a_blank_primary_selection_is_no_selection() {
    assert_eq!(selection_if_any("  \n".to_string()), None);
    assert_eq!(selection_if_any(" x ".to_string()), Some(" x ".to_string()));
}
