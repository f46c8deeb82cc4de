use rtlens::shell::antigravity::{
    authority, port_from_file, read_reply, verdict, windows, Antigravity, Page, Reply, Target, Verdict,
};

fn page(id: &str) -> Page {
    Page { id: id.to_string(), title: format!("window {id}"), ws_url: format!("ws://127.0.0.1:9222/devtools/page/{id}") }
}

fn target(kind: &str, url: &str, id: Option<&str>, ws: Option<&str>) -> Target {
    Target {
        kind: Some(kind.to_string()),
        url: Some(url.to_string()),
        id: id.map(str::to_string),
        title: None,
        ws_url: ws.map(str::to_string),
    }
}

#[test]
fn a_new_watcher_has_nothing_attached() {
    let w = Antigravity::start(true);
    let s = w.status();
    assert!(s.enabled);
    assert_eq!(s.attached, 0);
    assert_eq!(s.error, None);
}

#[test]
fn a_listing_claims_each_window_once() {
    let mut w = Antigravity::start(true);
    let first = w.poll(Ok(vec![page("a"), page("b"), page("a")]));
    let ids: Vec<String> = first.iter().map(|p| p.id.clone()).collect();
    assert_eq!(ids, vec!["a", "b"]);
    // The next tick sees the same windows and attaches nothing new.
    let second = w.poll(Ok(vec![page("b"), page("c")]));
    let ids: Vec<String> = second.iter().map(|p| p.id.clone()).collect();
    assert_eq!(ids, vec!["c"]);
}

#[test]
fn a_failed_listing_is_reported_and_cleared_by_the_next() {
    let mut w = Antigravity::start(true);
    assert!(w.poll(Err("not running".to_string())).is_empty());
    assert_eq!(w.status().error.as_deref(), Some("not running"));
    w.poll(Ok(vec![]));
    assert_eq!(w.status().error, None);
}

#[test]
fn a_disabled_watcher_attaches_nothing() {
    let mut w = Antigravity::start(false);
    assert!(w.poll(Ok(vec![page("a")])).is_empty());
    assert_eq!(w.status().error, None);
    w.set_enabled(true);
    assert_eq!(w.poll(Ok(vec![page("a")])).len(), 1);
}

#[test]
fn an_ended_session_frees_its_window() {
    let mut w = Antigravity::start(true);
    w.poll(Ok(vec![page("a")]));
    w.session_attached();
    assert_eq!(w.status().attached, 1);
    w.session_detached();
    w.session_ended(&"a".to_string());
    assert_eq!(w.status().attached, 0);
    assert_eq!(w.poll(Ok(vec![page("a")])).len(), 1);
}

#[test]
fn only_real_page_targets_are_windows() {
    let ts = vec![
        target("page", "file:///x.html", Some("1"), Some("ws://h:1/p/1")),
        target("page", "devtools://devtools/inspector.html", Some("2"), Some("ws://h:1/p/2")),
        target("service_worker", "https://x", Some("3"), Some("ws://h:1/p/3")),
        target("page", "https://y", None, Some("ws://h:1/p/4")),
        target("page", "https://z", Some("5"), None),
    ];
    let ws = windows(&ts);
    assert_eq!(ws.len(), 1);
    assert_eq!(ws[0].id, "1");
    assert_eq!(ws[0].title, "");
    assert_eq!(ws[0].ws_url, "ws://h:1/p/1");
}

#[test]
fn the_port_is_on_the_first_line() {
    assert_eq!(port_from_file("9222\n/devtools/browser/abc\n"), Some(9222));
    assert_eq!(port_from_file(" 9222 \r\n"), Some(9222));
    assert_eq!(port_from_file("+80"), Some(80));
    assert_eq!(port_from_file(""), None);
    assert_eq!(port_from_file("70000\n"), None);
    assert_eq!(port_from_file("port\n"), None);
    assert_eq!(port_from_file("\n9222"), None);
}

#[test]
fn the_authority_is_between_the_scheme_and_the_path() {
    assert_eq!(authority("ws://127.0.0.1:9222/devtools/page/X"), Some("127.0.0.1:9222".to_string()));
    assert_eq!(authority("ws://host"), Some("host".to_string()));
    assert_eq!(authority("http://host/x"), None);
}

#[test]
fn a_complete_answer_gives_its_body() {
    let raw = b"HTTP/1.1 200 OK\r\nContent-Length: 5\r\n\r\nhello world";
    match read_reply(raw, false) {
        Reply::Body(b) => assert_eq!(b, b"hello"),
        other => panic!("{other:?}"),
    }
}

#[test]
fn a_short_body_means_read_on() {
    let raw = b"HTTP/1.1 200 OK\r\ncontent-length: 50\r\n\r\nhello";
    assert!(matches!(read_reply(raw, false), Reply::More));
    assert!(matches!(read_reply(raw, true), Reply::ClosedEarly));
    assert!(matches!(read_reply(b"HTTP/1.1 200", false), Reply::More));
}

#[test]
fn without_a_length_the_body_ends_with_the_connection() {
    let raw = b"HTTP/1.0 200 OK\r\n\r\n[]";
    assert!(matches!(read_reply(raw, false), Reply::More));
    match read_reply(raw, true) {
        Reply::Body(b) => assert_eq!(b, b"[]"),
        other => panic!("{other:?}"),
    }
}

#[test]
fn a_refusal_is_not_ok() {
    let raw = b"HTTP/1.1 404 Not Found\r\nContent-Length: 0\r\n\r\n";
    assert!(matches!(read_reply(raw, false), Reply::NotOk));
}

#[test]
fn only_the_answer_to_the_call_counts() {
    assert_eq!(verdict(3, None, false, false), Verdict::Skip);
    assert_eq!(verdict(3, Some(2), true, false), Verdict::Skip);
    assert_eq!(verdict(3, Some(3), true, true), Verdict::Refused);
    assert_eq!(verdict(3, Some(3), false, true), Verdict::Threw);
    assert_eq!(verdict(3, Some(3), false, false), Verdict::Answered);
}

#[test]
fn an_undecodable_header_does_not_spoil_the_answer() {
    let raw = b"HTTP/1.1 200 OK\r\nX-Junk: \xff\xfe\r\nContent-Length: 2\r\n\r\nok";
    match read_reply(raw, false) {
        Reply::Body(b) => assert_eq!(b, b"ok"),
        other => panic!("{other:?}"),
    }
}

#[test]
fn the_flag_follows_the_last_toggle() {
    for toggles in [vec![], vec![false], vec![false, true], vec![true, false, false], vec![false, true, true, false]] {
        let mut w = Antigravity::start(true);
        for &b in &toggles {
            w.set_enabled(b);
            w.poll(Ok(vec![page("p")]));
        }
        assert_eq!(w.status().enabled, toggles.last().copied().unwrap_or(true));
    }
}

#[test]
fn ending_one_session_leaves_the_others_claimed() {
    let mut w = Antigravity::start(true);
    assert_eq!(w.poll(Ok(vec![page("a"), page("b"), page("a")])).len(), 2);
    assert!(w.poll(Ok(vec![page("a")])).is_empty());
    w.session_ended(&"a".to_string());
    let again = w.poll(Ok(vec![page("a"), page("b")]));
    assert_eq!(again.len(), 1);
    assert_eq!(again[0].id, "a");
}
