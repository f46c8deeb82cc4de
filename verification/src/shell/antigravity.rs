//! Live RTL support for Antigravity's agent chat.
//!
//! Antigravity is an Electron app. When it runs with remote debugging enabled it writes
//! `DevToolsActivePort`, and every window is reachable over the Chrome DevTools Protocol.
//! The shell attaches to each window and runs the page script there; the connections,
//! sockets and threads are the shell's. What it decides on — which windows to attach to,
//! where the debugger listens, whether an HTTP answer is complete — is decided here.

use vstd::prelude::*;
use crate::text::{chars_of, lines, lines_of, parse_decimal, parse_unsigned, same_chars, starts, starts_with, starts_with_str, string_of, trim, trimmed};

verus! {

// ----------------------------------------------------------------------------- state

/// What the settings pane shows of the feature.
#[derive(Debug, Clone)]
pub struct Status {
    pub enabled: bool,
    /// Windows the script is actually running in.
    pub attached: usize,
    pub error: Option<String>,
}

/// A debugger page target: one Antigravity window.
#[derive(Debug, Clone)]
pub struct Page {
    pub id: String,
    pub title: String,
    pub ws_url: String,
}

pub struct PageV {
    pub id: Seq<char>,
    pub title: Seq<char>,
    pub ws_url: Seq<char>,
}

impl View for Page {
    type V = PageV;

    open spec fn view(&self) -> PageV {
        PageV { id: self.id@, title: self.title@, ws_url: self.ws_url@ }
    }
}

pub open spec fn pages_view(v: Seq<Page>) -> Seq<PageV> {
    v.map_values(|p: Page| p@)
}

pub open spec fn page_ids(v: Seq<PageV>) -> Seq<Seq<char>> {
    v.map_values(|p: PageV| p.id)
}

/// The pages of one listing that are new: not claimed by a session already, and not a
/// repeat of a page earlier in the same listing.
pub open spec fn fresh_pages(claimed: Set<Seq<char>>, pages: Seq<PageV>) -> Seq<PageV>
    decreases pages.len(),
{
    if pages.len() == 0 {
        Seq::empty()
    } else {
        let prev = fresh_pages(claimed, pages.drop_last());
        let p = pages.last();
        if claimed.contains(p.id) || page_ids(pages.drop_last()).contains(p.id) {
            prev
        } else {
            prev.push(p)
        }
    }
}

/// The watcher's shared state: whether the feature is on, how many windows run the
/// script, the last error, and the windows that have a session (attached or attaching).
pub struct Antigravity {
    enabled: bool,
    attached: usize,
    last_error: Option<String>,
    claimed: vstd::hash_set::StringHashSet,
}

pub struct AntigravityV {
    pub enabled: bool,
    pub attached: usize,
    pub error: Option<Seq<char>>,
    pub claimed: Set<Seq<char>>,
}

pub open spec fn opt_text(s: Option<String>) -> Option<Seq<char>> {
    match s {
        Some(t) => Some(t@),
        None => None,
    }
}

impl View for Antigravity {
    type V = AntigravityV;

    closed spec fn view(&self) -> AntigravityV {
        AntigravityV {
            enabled: self.enabled,
            attached: self.attached,
            error: opt_text(self.last_error),
            claimed: self.claimed@,
        }
    }
}

impl Antigravity {
    /// The watcher as it starts: nothing attached, nothing claimed, no error yet.
    pub fn start(enabled: bool) -> (r: Self)
        ensures
            r@.enabled == enabled,
            r@.attached == 0,
            r@.error is None,
            r@.claimed == Set::<Seq<char>>::empty(),
    {
        Antigravity { enabled, attached: 0, last_error: None, claimed: vstd::hash_set::StringHashSet::new() }
    }

    /// Turning it off makes every session remove the script from its window, not just
    /// keeps it out of future ones.
    pub fn set_enabled(&mut self, enabled: bool)
        ensures
            final(self)@ == (AntigravityV { enabled, ..old(self)@ }),
            final(self)@ == after_toggles(old(self)@, seq![enabled]),
    {
        let ghost s0 = self@;
        self.enabled = enabled;
        assert(seq![enabled].drop_last() =~= Seq::<bool>::empty());
        assert(after_toggles(s0, seq![enabled].drop_last()) == s0);
        assert(after_toggles(s0, seq![enabled]) == (AntigravityV { enabled, ..s0 }));
    }

    pub fn status(&self) -> (r: Status)
        ensures
            r.enabled == self@.enabled,
            r.attached == self@.attached,
            opt_text(r.error) == self@.error,
    {
        let error = match &self.last_error {
            Some(e) => Some(e.clone()),
            None => None,
        };
        Status { enabled: self.enabled, attached: self.attached, error }
    }
}


/// A copy of a page.
fn copy_page(p: &Page) -> (r: Page)
    ensures
        r@ == p@,
{
    Page { id: p.id.clone(), title: p.title.clone(), ws_url: p.ws_url.clone() }
}

/// An id is taken, after some pages of a listing, exactly when it was claimed before the
/// listing or belongs to one of the fresh pages so far.
proof fn lemma_fresh_taken(claimed: Set<Seq<char>>, pages: Seq<PageV>, x: Seq<char>)
    ensures
        (claimed.contains(x) || page_ids(pages).contains(x)) <==> claimed.union(
            page_ids(fresh_pages(claimed, pages)).to_set(),
        ).contains(x),
    decreases pages.len(),
{
    broadcast use vstd::seq_lib::group_seq_properties;

    if pages.len() == 0 {
        assert(page_ids(pages) =~= Seq::<Seq<char>>::empty());
    } else {
        let init = pages.drop_last();
        let l = pages.last();
        lemma_fresh_taken(claimed, init, x);
        lemma_fresh_taken(claimed, init, l.id);
        let prev = fresh_pages(claimed, init);
        assert(page_ids(pages) =~= page_ids(init).push(l.id));
        if !(claimed.contains(l.id) || page_ids(init).contains(l.id)) {
            assert(page_ids(prev.push(l)) =~= page_ids(prev).push(l.id));
        }
    }
}

impl Antigravity {
    /// One tick of the watcher. While the feature is on, a listing of the windows claims
    /// every window that has no session yet and hands those back to be attached, and a
    /// failed listing becomes the error the settings pane shows. While it is off nothing is
    /// attached and no error is kept.
    pub fn poll(&mut self, listed: Result<Vec<Page>, String>) -> (attach: Vec<Page>)
        ensures
            final(self)@.enabled == old(self)@.enabled,
            final(self)@.attached == old(self)@.attached,
            !old(self)@.enabled ==> attach@.len() == 0 && final(self)@.error is None
                && final(self)@.claimed == old(self)@.claimed,
            old(self)@.enabled ==> match listed {
                Ok(pages) => pages_view(attach@) == fresh_pages(old(self)@.claimed, pages_view(pages@))
                    && final(self)@.claimed == old(self)@.claimed.union(page_ids(pages_view(attach@)).to_set())
                    && final(self)@.error is None,
                Err(e) => attach@.len() == 0 && final(self)@.error == Some(e@) && final(self)@.claimed
                    == old(self)@.claimed,
            },
    {
        let mut attach: Vec<Page> = Vec::new();
        if !self.enabled {
            self.last_error = None;
            return attach;
        }
        match listed {
            Err(e) => {
                self.last_error = Some(e);
            },
            Ok(pages) => {
                let ghost c0 = self.claimed@;
                let ghost pv = pages_view(pages@);
                let mut i: usize = 0;
                assert(page_ids(pages_view(attach@)).to_set() =~= Set::<Seq<char>>::empty());
                assert(c0.union(Set::<Seq<char>>::empty()) =~= c0);
                while i < pages.len()
                    invariant
                        i <= pages@.len() == pv.len(),
                        pv == pages_view(pages@),
                        c0 == old(self)@.claimed,
                        self.enabled == old(self)@.enabled,
                        self.attached == old(self)@.attached,
                        pages_view(attach@) == fresh_pages(c0, pv.take(i as int)),
                        self.claimed@ == c0.union(page_ids(pages_view(attach@)).to_set()),
                    decreases pages@.len() - i,
                {
                    let p = &pages[i];
                    proof {
                        assert(pv.take(i + 1).drop_last() =~= pv.take(i as int));
                        assert(pv.take(i + 1).last() == p@);
                        lemma_fresh_taken(c0, pv.take(i as int), p@.id);
                    }
                    if !self.claimed.contains(p.id.as_str()) {
                        let ghost before_a = attach@;
                        let ghost before_c = self.claimed@;
                        let id = p.id.clone();
                        self.claimed.insert(id);
                        attach.push(copy_page(p));
                        proof {
                            assert(pages_view(attach@) =~= pages_view(before_a).push(p@));
                            assert(page_ids(pages_view(attach@)) =~= page_ids(pages_view(before_a)).push(p@.id));
                            assert(page_ids(pages_view(attach@)).to_set() =~= page_ids(pages_view(before_a)).to_set().insert(p@.id)) by {
                                broadcast use vstd::seq_lib::group_seq_properties;
                            }
                            assert(self.claimed@ =~= c0.union(page_ids(pages_view(attach@)).to_set()));
                        }
                    }
                    i += 1;
                }
                assert(pv.take(pages@.len() as int) =~= pv);
                self.last_error = None;
            },
        }
        attach
    }

    /// A session has the script running in its window.
    pub fn session_attached(&mut self)
        ensures
            final(self)@ == (AntigravityV {
                attached: if old(self)@.attached == usize::MAX {
                    0
                } else {
                    (old(self)@.attached + 1) as usize
                },
                ..old(self)@
            }),
    {
        self.attached = if self.attached == usize::MAX {
            0
        } else {
            self.attached + 1
        };
    }

    /// A session that had attached is over: its window no longer runs the script.
    pub fn session_detached(&mut self)
        ensures
            final(self)@ == (AntigravityV {
                attached: if old(self)@.attached == 0 {
                    usize::MAX
                } else {
                    (old(self)@.attached - 1) as usize
                },
                ..old(self)@
            }),
    {
        self.attached = if self.attached == 0 {
            usize::MAX
        } else {
            self.attached - 1
        };
    }

    /// A session ended, attached or not: its window may be claimed again.
    pub fn session_ended(&mut self, id: &String)
        ensures
            final(self)@ == (AntigravityV { claimed: old(self)@.claimed.remove(id@), ..old(self)@ }),
    {
        self.claimed.remove(id.as_str());
    }
}


// --------------------------------------------------------------------------- targets

/// One entry of the debugger's target list, each field as found: `None` where it is
/// missing or not a string.
#[derive(Debug, Clone)]
pub struct Target {
    pub kind: Option<String>,
    pub url: Option<String>,
    pub id: Option<String>,
    pub title: Option<String>,
    pub ws_url: Option<String>,
}

pub struct TargetV {
    pub kind: Option<Seq<char>>,
    pub url: Option<Seq<char>>,
    pub id: Option<Seq<char>>,
    pub title: Option<Seq<char>>,
    pub ws_url: Option<Seq<char>>,
}

impl View for Target {
    type V = TargetV;

    open spec fn view(&self) -> TargetV {
        TargetV {
            kind: opt_text(self.kind),
            url: opt_text(self.url),
            id: opt_text(self.id),
            title: opt_text(self.title),
            ws_url: opt_text(self.ws_url),
        }
    }
}

pub open spec fn targets_view(v: Seq<Target>) -> Seq<TargetV> {
    v.map_values(|t: Target| t@)
}

/// A field's text, or the empty text when it is missing.
pub open spec fn text_or_empty(t: Option<Seq<char>>) -> Seq<char> {
    match t {
        Some(s) => s,
        None => Seq::empty(),
    }
}

/// A target is a window worth attaching to: a page that is not a DevTools window itself,
/// with an id and a debugger address.
pub open spec fn is_window(t: TargetV) -> bool {
    &&& t.kind == Some("page"@)
    &&& !starts(text_or_empty(t.url), "devtools://"@)
    &&& t.id is Some
    &&& t.ws_url is Some
}

pub open spec fn page_of(t: TargetV) -> PageV {
    PageV { id: t.id->0, title: text_or_empty(t.title), ws_url: t.ws_url->0 }
}

/// The windows among the targets, in listing order.
pub open spec fn windows_of(ts: Seq<TargetV>) -> Seq<PageV>
    decreases ts.len(),
{
    if ts.len() == 0 {
        Seq::empty()
    } else {
        windows_of(ts.drop_last()) + if is_window(ts.last()) {
            seq![page_of(ts.last())]
        } else {
            Seq::empty()
        }
    }
}

/// The field holds exactly the given text.
fn field_is(f: &Option<String>, want: &str) -> (r: bool)
    ensures
        r == (opt_text(*f) == Some(want@)),
{
    match f {
        Some(s) => {
            let a = chars_of(s.as_str());
            let b = chars_of(want);
            same_chars(&a, &b)
        },
        None => false,
    }
}

/// A field's text, or the empty text.
fn field_text(f: &Option<String>) -> (r: String)
    ensures
        r@ == text_or_empty(opt_text(*f)),
{
    match f {
        Some(s) => s.clone(),
        None => String::new(),
    }
}

/// The windows among the debugger's targets.
pub fn windows(targets: &Vec<Target>) -> (r: Vec<Page>)
    ensures
        pages_view(r@) == windows_of(targets_view(targets@)),
{
    let ghost tv = targets_view(targets@);
    let mut out: Vec<Page> = Vec::new();
    let mut i: usize = 0;
    while i < targets.len()
        invariant
            i <= targets@.len() == tv.len(),
            tv == targets_view(targets@),
            pages_view(out@) == windows_of(tv.take(i as int)),
        decreases targets@.len() - i,
    {
        proof {
            assert(tv.take(i + 1).drop_last() =~= tv.take(i as int));
            assert(tv[i as int] == targets@[i as int]@);
        }
        let t = &targets[i];
        let url = chars_of(field_text(&t.url).as_str());
        let ghost before = out@;
        if field_is(&t.kind, "page") && !starts_with_str(&url, "devtools://") {
            match (&t.id, &t.ws_url) {
                (Some(id), Some(ws)) => {
                    let p = Page { id: id.clone(), title: field_text(&t.title), ws_url: ws.clone() };
                    out.push(p);
                    assert(pages_view(out@) =~= pages_view(before).push(p@));
                },
                _ => {},
            }
        }
        assert(pages_view(out@) =~= windows_of(tv.take(i + 1)));
        i += 1;
    }
    assert(tv.take(targets@.len() as int) =~= tv);
    out
}

// ------------------------------------------------------------------------ port file

/// The debug port named on the first line of `DevToolsActivePort`, if that line holds a
/// port number.
pub open spec fn port_of(contents: Seq<char>) -> Option<nat> {
    let ls = lines_of(contents);
    if ls.len() == 0 {
        None
    } else {
        parse_unsigned(trim(ls[0]), 65535)
    }
}

/// Read the debug port from the contents of `DevToolsActivePort`; `None` when the file is
/// malformed.
pub fn port_from_file(contents: &str) -> (r: Option<u16>)
    ensures
        r matches Some(p) ==> port_of(contents@) == Some(p as nat),
        r is None ==> port_of(contents@) is None,
{
    let c = chars_of(contents);
    let ls = lines(&c);
    if ls.len() == 0 {
        return None;
    }
    let first = trimmed(&ls[0]);
    match parse_decimal(&first, 65535) {
        Some(v) => Some(v as u16),
        None => None,
    }
}

// --------------------------------------------------------------------- debugger url

/// The `host:port` of a debugger address: what follows `ws://`, up to the first `/`.
pub open spec fn authority_of(url: Seq<char>) -> Option<Seq<char>> {
    if starts(url, "ws://"@) {
        Some(crate::text::split_on(url.skip(5), '/')[0])
    } else {
        None
    }
}

/// The `host:port` to connect to for a debugger address; `None` when it is not a `ws://`
/// address.
pub fn authority(ws_url: &str) -> (r: Option<String>)
    ensures
        r matches Some(a) ==> authority_of(ws_url@) == Some(a@),
        r is None ==> authority_of(ws_url@) is None,
{
    let c = chars_of(ws_url);
    if !starts_with_str(&c, "ws://") {
        return None;
    }
    proof {
        reveal_strlit("ws://");
    }
    let rest = crate::text::slice_chars(&c, 5, c.len());
    let pieces = crate::text::split_chars(&rest, '/');
    proof {
        crate::text::lemma_split_on_len(rest@, '/');
    }
    Some(string_of(&pieces[0]))
}


// -------------------------------------------------------------------- HTTP answers

/// What `String::from_utf8_lossy` makes of the bytes: their text, with each invalid
/// sequence replaced by U+FFFD.
pub uninterp spec fn utf8_lossy(bytes: Seq<u8>) -> Seq<char>;

/// Calls `String::from_utf8_lossy`. Claims: the result is the named value.
#[verifier::external_body]
fn decode_lossy(bytes: &[u8]) -> (r: String)
    ensures
        r@ == utf8_lossy(bytes@),
{
    String::from_utf8_lossy(bytes).into_owned()
}

/// The head of an HTTP answer ends at `p`: a blank line, `\r\n\r\n`, starts there.
pub open spec fn ends_head_at(raw: Seq<u8>, p: int) -> bool {
    0 <= p && p + 4 <= raw.len() && raw[p] == 13 && raw[p + 1] == 10 && raw[p + 2] == 13 && raw[p + 3] == 10
}

/// The first place at or after `p` where the head ends.
pub open spec fn head_end_from(raw: Seq<u8>, p: int) -> Option<int>
    decreases raw.len() - p,
{
    if p < 0 || p + 4 > raw.len() {
        None
    } else if ends_head_at(raw, p) {
        Some(p)
    } else {
        head_end_from(raw, p + 1)
    }
}

/// ASCII letters in lower case, everything else as it is.
pub open spec fn lower(c: char) -> char {
    if 'A' <= c <= 'Z' {
        ((c as u32) + 32) as char
    } else {
        c
    }
}

pub open spec fn ascii_lower(s: Seq<char>) -> Seq<char> {
    s.map_values(|c: char| lower(c))
}

/// The answer says `200`.
pub open spec fn status_ok(head: Seq<char>) -> bool {
    starts(head, "http/1.1 200"@) || starts(head, "http/1.0 200"@)
}

/// The value after `content-length:` on the first header line that carries one.
pub open spec fn length_field(ls: Seq<Seq<char>>, i: int) -> Option<Seq<char>>
    decreases ls.len() - i,
{
    if i < 0 || i >= ls.len() {
        None
    } else if starts(ls[i], "content-length:"@) {
        Some(ls[i].skip(15))
    } else {
        length_field(ls, i + 1)
    }
}

/// The body length the head announces, if it announces one that parses.
pub open spec fn content_length(head: Seq<char>) -> Option<nat> {
    match length_field(lines_of(head), 0) {
        Some(v) => parse_unsigned(trim(v), usize::MAX as nat),
        None => None,
    }
}

/// Where reading an HTTP answer stands.
#[derive(Debug, Clone)]
pub enum Reply {
    /// Not complete yet: read on.
    More,
    /// The body, complete.
    Body(Vec<u8>),
    /// The answer is not a `200`.
    NotOk,
    /// The peer closed the connection before the answer was complete.
    ClosedEarly,
}

pub enum ReplyV {
    More,
    Body(Seq<u8>),
    NotOk,
    ClosedEarly,
}

impl View for Reply {
    type V = ReplyV;

    open spec fn view(&self) -> ReplyV {
        match self {
            Reply::More => ReplyV::More,
            Reply::Body(b) => ReplyV::Body(b@),
            Reply::NotOk => ReplyV::NotOk,
            Reply::ClosedEarly => ReplyV::ClosedEarly,
        }
    }
}

/// What the bytes read so far amount to; `closed` when the last read found the
/// connection closed. Once the head is in, a non-`200` answer is refused; a body is
/// complete when it is as long as the head announced, or, with no length announced, when
/// the connection closes. A connection that closes before then closed early.
pub open spec fn reply_of(raw: Seq<u8>, closed: bool) -> ReplyV {
    let unfinished = if closed {
        ReplyV::ClosedEarly
    } else {
        ReplyV::More
    };
    match head_end_from(raw, 0) {
        Some(p) => {
            let head = ascii_lower(utf8_lossy(raw.take(p)));
            let body = raw.skip(p + 4);
            if !status_ok(head) {
                ReplyV::NotOk
            } else {
                match content_length(head) {
                    Some(l) => if body.len() >= l {
                        ReplyV::Body(body.take(l as int))
                    } else {
                        unfinished
                    },
                    None => if closed {
                        ReplyV::Body(body)
                    } else {
                        unfinished
                    },
                }
            }
        },
        None => unfinished,
    }
}

fn lower_char(c: char) -> (r: char)
    ensures
        r == lower(c),
{
    if 'A' <= c && c <= 'Z' {
        let u: u8 = c as u8;
        assert(u as u32 == c as u32);
        (u + 32) as char
    } else {
        c
    }
}

/// Where the head ends.
fn find_head_end(raw: &[u8]) -> (r: Option<usize>)
    ensures
        r matches Some(p) ==> head_end_from(raw@, 0) == Some(p as int) && p + 4 <= raw@.len(),
        r is None ==> head_end_from(raw@, 0) is None,
{
    let mut p: usize = 0;
    while p < raw.len() && raw.len() - p >= 4
        invariant
            p <= raw@.len(),
            head_end_from(raw@, 0) == head_end_from(raw@, p as int),
        decreases raw@.len() - p,
    {
        if raw[p] == 13 && raw[p + 1] == 10 && raw[p + 2] == 13 && raw[p + 3] == 10 {
            return Some(p);
        }
        p += 1;
    }
    None
}

/// The bytes `[from, to)`.
fn byte_range(raw: &[u8], from: usize, to: usize) -> (r: Vec<u8>)
    requires
        from <= to <= raw@.len(),
    ensures
        r@ == raw@.subrange(from as int, to as int),
{
    let mut out: Vec<u8> = Vec::new();
    let mut i: usize = from;
    while i < to
        invariant
            from <= i <= to <= raw@.len(),
            out@ == raw@.subrange(from as int, i as int),
        decreases to - i,
    {
        out.push(raw[i]);
        i += 1;
        assert(out@ =~= raw@.subrange(from as int, i as int));
    }
    out
}

/// The head of the answer, decoded and in lower case.
fn lowered_head(raw: &[u8], p: usize) -> (r: Vec<char>)
    requires
        p <= raw@.len(),
    ensures
        r@ == ascii_lower(utf8_lossy(raw@.take(p as int))),
{
    let bytes = byte_range(raw, 0, p);
    assert(bytes@ =~= raw@.take(p as int));
    let text = chars_of(decode_lossy(&bytes).as_str());
    let mut out: Vec<char> = Vec::new();
    let mut i: usize = 0;
    while i < text.len()
        invariant
            i <= text@.len(),
            out@ == ascii_lower(text@.take(i as int)),
        decreases text@.len() - i,
    {
        out.push(lower_char(text[i]));
        i += 1;
        assert(out@ =~= ascii_lower(text@.take(i as int)));
    }
    assert(text@.take(text@.len() as int) =~= text@);
    out
}

/// The announced body length.
fn announced_length(head: &[char]) -> (r: Option<usize>)
    ensures
        r matches Some(l) ==> content_length(head@) == Some(l as nat),
        r is None ==> content_length(head@) is None,
{
    let ls = lines(head);
    let ghost lv = lines_of(head@);
    let mut i: usize = 0;
    while i < ls.len()
        invariant
            i <= ls@.len() == lv.len(),
            lv == lines_of(head@),
            forall|k: int| 0 <= k < ls@.len() ==> (#[trigger] ls@[k])@ == lv[k],
            length_field(lv, 0) == length_field(lv, i as int),
        decreases ls@.len() - i,
    {
        if starts_with_str(&ls[i], "content-length:") {
            proof {
                reveal_strlit("content-length:");
            }
            let rest = crate::text::slice_chars(&ls[i], 15, ls[i].len());
            assert(rest@ =~= lv[i as int].skip(15));
            let t = trimmed(&rest);
            return match parse_decimal(&t, usize::MAX as u64) {
                Some(v) => Some(v as usize),
                None => None,
            };
        }
        i += 1;
    }
    None
}

/// Judge the bytes of an HTTP answer read so far; `closed` when the last read found the
/// connection closed.
pub fn read_reply(raw: &[u8], closed: bool) -> (r: Reply)
    ensures
        r@ == reply_of(raw@, closed),
{
    let unfinished = if closed {
        Reply::ClosedEarly
    } else {
        Reply::More
    };
    match find_head_end(raw) {
        None => unfinished,
        Some(p) => {
            let head = lowered_head(raw, p);
            if !(starts_with_str(&head, "http/1.1 200") || starts_with_str(&head, "http/1.0 200")) {
                return Reply::NotOk;
            }
            let body_len = raw.len() - (p + 4);
            match announced_length(&head) {
                Some(l) => {
                    if body_len >= l {
                        let body = byte_range(raw, p + 4, p + 4 + l);
                        assert(body@ =~= raw@.skip(p + 4).take(l as int));
                        Reply::Body(body)
                    } else {
                        unfinished
                    }
                },
                None => {
                    if closed {
                        let body = byte_range(raw, p + 4, raw.len());
                        assert(body@ =~= raw@.skip(p + 4));
                        Reply::Body(body)
                    } else {
                        unfinished
                    }
                },
            }
        },
    }
}


// -------------------------------------------------------------------- debugger calls

/// What to make of one message while waiting for the answer to a call.
#[derive(Debug, Clone, Copy, PartialEq, Eq, Structural)]
pub enum Verdict {
    /// Not the answer: an event, something unreadable, or the answer to another call.
    Skip,
    /// The debugger refused the call.
    Refused,
    /// The call ran, but the script it evaluated threw.
    Threw,
    /// The answer, with its result.
    Answered,
}

/// Judge a message while waiting for the answer to call `expected`. Only a text message
/// that parses carries an `id`; the answer is the one whose `id` is `expected`, and it
/// fails when it carries an error, or a result with exception details.
pub fn verdict(expected: u64, id: Option<u64>, has_error: bool, has_exception: bool) -> (r: Verdict)
    ensures
        r == (if id != Some(expected) {
            Verdict::Skip
        } else if has_error {
            Verdict::Refused
        } else if has_exception {
            Verdict::Threw
        } else {
            Verdict::Answered
        }),
{
    match id {
        Some(i) => {
            if i != expected {
                Verdict::Skip
            } else if has_error {
                Verdict::Refused
            } else if has_exception {
                Verdict::Threw
            } else {
                Verdict::Answered
            }
        },
        None => Verdict::Skip,
    }
}


/// The state after `set_enabled` with each flag of `bs` in turn.
pub open spec fn after_toggles(s: AntigravityV, bs: Seq<bool>) -> AntigravityV
    decreases bs.len(),
{
    if bs.len() == 0 {
        s
    } else {
        AntigravityV { enabled: bs.last(), ..after_toggles(s, bs.drop_last()) }
    }
}

/// The enabled flag follows the last toggle: after any number of `set_enabled` calls it
/// is the flag of the last one (or the starting flag when there was none), and the calls
/// change nothing else. The other operations keep the flag as it is (see their contracts).
pub proof fn law_enabled_follows_the_last_toggle(s: AntigravityV, bs: Seq<bool>)
    ensures
        after_toggles(s, bs).enabled == (if bs.len() == 0 {
            s.enabled
        } else {
            bs.last()
        }),
        after_toggles(s, bs) == (AntigravityV { enabled: after_toggles(s, bs).enabled, ..s }),
    decreases bs.len(),
{
    if bs.len() > 0 {
        law_enabled_follows_the_last_toggle(s, bs.drop_last());
    }
}

} // verus!
