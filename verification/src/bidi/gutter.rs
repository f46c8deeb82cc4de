//! Separate a line's structural frame from its directional content.
//!
//! In `│ متن فارسی │` the pipes are neutral characters, so the bidi algorithm sweeps them
//! into the RTL run and the frame lands in the wrong place. Instead of fighting the
//! algorithm the frame is taken out of its reach: `lead` and `tail` are laid out physically
//! and only the text between them gets a resolved direction.

use vstd::prelude::*;
use crate::text::{
    chars_of, is_digit, is_whitespace, is_ws, lemma_trimmed_end_len, slice_chars, string_of,
    trim_end, trimmed_end, trimmed_end_len,
};

verus! {

/// Characters that carry structure rather than meaning when they sit at a line's edge:
/// arrows, misc technical symbols, box drawing, block elements, geometric shapes, check
/// marks, heavy angle brackets, bullets, middle dots and `|`.
pub open spec fn structural(c: char) -> bool {
    let u = c as u32;
    (0x2190 <= u <= 0x21FF) || (0x2300 <= u <= 0x23FF) || (0x2500 <= u <= 0x257F) || (0x2580 <= u
        <= 0x259F) || (0x25A0 <= u <= 0x25FF) || (0x2713 <= u <= 0x2718) || (0x276E <= u <= 0x2771)
        || u == 0x2022 || u == 0x2023 || u == 0x2043 || u == 0x00B7 || u == 0x2027 || c == '|'
}

fn is_structural(c: char) -> (r: bool)
    ensures
        r == structural(c),
{
    let u = c as u32;
    (0x2190 <= u && u <= 0x21FF) || (0x2300 <= u && u <= 0x23FF) || (0x2500 <= u && u <= 0x257F)
        || (0x2580 <= u && u <= 0x259F) || (0x25A0 <= u && u <= 0x25FF) || (0x2713 <= u && u
        <= 0x2718) || (0x276E <= u && u <= 0x2771) || u == 0x2022 || u == 0x2023 || u == 0x2043
        || u == 0x00B7 || u == 0x2027 || c == '|'
}

/// Position `k` exists and holds whitespace.
pub open spec fn space_at(s: Seq<char>, k: int) -> bool {
    0 <= k < s.len() && is_ws(s[k])
}

/// End of the run of ASCII digits starting at `i`.
pub open spec fn digits_end(s: Seq<char>, i: int) -> int
    decreases s.len() - i,
{
    if 0 <= i < s.len() && is_digit(s[i]) {
        digits_end(s, i + 1)
    } else {
        i
    }
}

/// Length of a list or prompt marker starting at `i`: `-`, `*`, `+` or `$` followed by a
/// space; `>` followed by a space or another `>`; or digits followed by `.` or `)` and a
/// space.
pub open spec fn marker(s: Seq<char>, i: int) -> Option<int> {
    let c = s[i];
    if (c == '-' || c == '*' || c == '+' || c == '$') && space_at(s, i + 1) {
        Some(1)
    } else if c == '>' && (space_at(s, i + 1) || (i + 1 < s.len() && s[i + 1] == '>')) {
        Some(1)
    } else if is_digit(c) {
        let k = digits_end(s, i);
        if 0 <= k < s.len() && (s[k] == '.' || s[k] == ')') && space_at(s, k + 1) {
            Some(k - i + 1)
        } else {
            None
        }
    } else {
        None
    }
}

proof fn lemma_digits_end(s: Seq<char>, i: int)
    requires
        0 <= i,
    ensures
        i <= digits_end(s, i),
        digits_end(s, i) <= s.len() || digits_end(s, i) == i,
        forall|k: int| i <= k < digits_end(s, i) ==> is_digit(#[trigger] s[k]),
        0 <= digits_end(s, i) < s.len() ==> !is_digit(s[digits_end(s, i)]),
    decreases s.len() - i,
{
    if 0 <= i < s.len() && is_digit(s[i]) {
        lemma_digits_end(s, i + 1);
    }
}

fn marker_len(s: &[char], i: usize) -> (r: Option<usize>)
    requires
        i < s@.len(),
    ensures
        match r {
            Some(l) => marker(s@, i as int) == Some(l as int),
            None => marker(s@, i as int) is None,
        },
{
    let n = s.len();
    let c = s[i];
    let next_space = i + 1 < n && is_whitespace(s[i + 1]);
    if (c == '-' || c == '*' || c == '+' || c == '$') && next_space {
        Some(1)
    } else if c == '>' && (next_space || (i + 1 < n && s[i + 1] == '>')) {
        Some(1)
    } else if '0' <= c && c <= '9' {
        let mut k = i;
        while k < n && '0' <= s[k] && s[k] <= '9'
            invariant
                i <= k <= n == s@.len(),
                digits_end(s@, i as int) == digits_end(s@, k as int),
            decreases n - k,
        {
            k += 1;
        }
        if k < n && (s[k] == '.' || s[k] == ')') && k + 1 < n && is_whitespace(s[k + 1]) {
            Some(k - i + 1)
        } else {
            None
        }
    } else {
        None
    }
}

/// Where the lead ends: walk in from the left through whitespace, structural glyphs and
/// list markers.
pub open spec fn lead_from(s: Seq<char>, i: int) -> int
    decreases s.len() - i,
{
    if i < 0 || i >= s.len() {
        i
    } else if is_ws(s[i]) || structural(s[i]) {
        lead_from(s, i + 1)
    } else {
        match marker(s, i) {
            Some(l) => if l > 0 && i + l <= s.len() {
                lead_from(s, i + l)
            } else {
                i
            },
            None => i,
        }
    }
}

/// Where the tail starts: walk in from the right (no further than `lo`) through
/// whitespace and structural glyphs. Markers are start-only.
pub open spec fn tail_from(s: Seq<char>, lo: int, j: int) -> int
    decreases j,
{
    if j > lo && j > 0 && j <= s.len() && (is_ws(s[j - 1]) || structural(s[j - 1])) {
        tail_from(s, lo, j - 1)
    } else {
        j
    }
}

/// Some character of `s[a..b]` is not whitespace.
pub open spec fn has_ink(s: Seq<char>, a: int, b: int) -> bool {
    exists|k: int| a <= k < b && !is_ws(#[trigger] s[k])
}

/// A line decomposed into frame and content (views).
pub struct SplitV {
    pub lead: Seq<char>,
    pub content: Seq<char>,
    pub tail: Seq<char>,
    pub boxed: bool,
}

pub open spec fn lead_end(s: Seq<char>) -> int {
    lead_from(s, 0)
}

pub open spec fn tail_start(s: Seq<char>) -> int {
    tail_from(s, lead_end(s), s.len() as int)
}

/// Structure on both sides with content between: a row inside a box.
pub open spec fn is_boxed(s: Seq<char>) -> bool {
    let le = lead_end(s);
    let ts = tail_start(s);
    has_ink(s, 0, le) && ts < s.len() && has_ink(s, ts, s.len() as int) && ts > le
}

/// The decomposition of one line. Content keeps no trailing whitespace; a tail is only
/// reported for a boxed row, otherwise trailing structure stays in the content.
pub open spec fn split_of(s: Seq<char>) -> SplitV {
    let le = lead_end(s);
    let ts = tail_start(s);
    if is_boxed(s) {
        SplitV {
            lead: s.take(le),
            content: trim_end(s.subrange(le, ts)),
            tail: s.skip(ts),
            boxed: true,
        }
    } else {
        SplitV {
            lead: s.take(le),
            content: trim_end(s.skip(le)),
            tail: Seq::empty(),
            boxed: false,
        }
    }
}

proof fn lemma_lead_from(s: Seq<char>, i: int)
    requires
        0 <= i <= s.len(),
    ensures
        i <= lead_from(s, i) <= s.len(),
        lead_from(s, i) < s.len() ==> !is_ws(s[lead_from(s, i)]) && !structural(s[lead_from(s, i)]),
    decreases s.len() - i,
{
    if i < s.len() {
        if is_ws(s[i]) || structural(s[i]) {
            lemma_lead_from(s, i + 1);
        } else {
            match marker(s, i) {
                Some(l) => if l > 0 && i + l <= s.len() {
                    lemma_lead_from(s, i + l);
                },
                None => {},
            }
        }
    }
}

proof fn lemma_tail_from(s: Seq<char>, lo: int, j: int)
    requires
        0 <= lo <= j <= s.len(),
    ensures
        lo <= tail_from(s, lo, j) <= j,
        forall|k: int| tail_from(s, lo, j) <= k < j ==> is_ws(#[trigger] s[k]) || structural(s[k]),
        tail_from(s, lo, j) > lo ==> !is_ws(s[tail_from(s, lo, j) - 1]) && !structural(s[tail_from(s, lo, j) - 1]),
    decreases j,
{
    if j > lo && j > 0 && (is_ws(s[j - 1]) || structural(s[j - 1])) {
        lemma_tail_from(s, lo, j - 1);
    }
}

/// A line decomposed into frame and content.
#[derive(Debug, Clone, PartialEq, Eq)]
pub struct Split {
    pub lead: String,
    pub content: String,
    pub tail: String,
    /// True when structure appears on both sides, i.e. this is a row inside a box.
    pub boxed: bool,
}

impl View for Split {
    type V = SplitV;

    open spec fn view(&self) -> SplitV {
        SplitV { lead: self.lead@, content: self.content@, tail: self.tail@, boxed: self.boxed }
    }
}

fn has_ink_in(s: &[char], a: usize, b: usize) -> (r: bool)
    requires
        a <= b <= s@.len(),
    ensures
        r == has_ink(s@, a as int, b as int),
{
    let mut k = a;
    while k < b
        invariant
            a <= k <= b <= s@.len(),
            forall|m: int| a <= m < k ==> is_ws(#[trigger] s@[m]),
        decreases b - k,
    {
        if !is_whitespace(s[k]) {
            return true;
        }
        k += 1;
    }
    false
}

/// Decompose one line given as characters.
pub fn split_chars(chars: &[char]) -> (r: Split)
    ensures
        r@ == split_of(chars@),
{
    let n = chars.len();
    let ghost s = chars@;
    let mut i: usize = 0;
    let mut done = false;
    while !done && i < n
        invariant
            i <= n == s.len(),
            s == chars@,
            lead_from(s, 0) == lead_from(s, i as int),
            done ==> lead_from(s, i as int) == i,
        decreases (n - i) + (if done { 0int } else { 1int }),
    {
        if is_whitespace(chars[i]) || is_structural(chars[i]) {
            i += 1;
        } else {
            match marker_len(chars, i) {
                Some(len) => {
                    if len > 0 && len <= n - i {
                        i += len;
                    } else {
                        done = true;
                    }
                },
                None => {
                    done = true;
                },
            }
        }
    }
    let le = i;
    let mut j = n;
    proof {
        lemma_lead_from(s, 0);
    }
    while j > le && (is_whitespace(chars[j - 1]) || is_structural(chars[j - 1]))
        invariant
            le <= j <= n == s.len(),
            s == chars@,
            le == lead_end(s),
            tail_start(s) == tail_from(s, le as int, j as int),
        decreases j,
    {
        j -= 1;
    }
    let ts = j;
    let lead_structured = has_ink_in(chars, 0, le);
    let tail_structured = ts < n && has_ink_in(chars, ts, n);
    let boxed = lead_structured && tail_structured && ts > le;
    let lead = string_of(&slice_chars(chars, 0, le));
    if boxed {
        let mid = slice_chars(chars, le, ts);
        let content = string_of(&trimmed_end(&mid));
        let tail = string_of(&slice_chars(chars, ts, n));
        assert(s.subrange(0, le as int) =~= s.take(le as int));
        assert(s.subrange(ts as int, n as int) =~= s.skip(ts as int));
        Split { lead, content, tail, boxed: true }
    } else {
        let rest = slice_chars(chars, le, n);
        let content = string_of(&trimmed_end(&rest));
        assert(s.subrange(0, le as int) =~= s.take(le as int));
        assert(s.subrange(le as int, n as int) =~= s.skip(le as int));
        Split { lead, content, tail: String::new(), boxed: false }
    }
}

/// Decompose one line. Never fails; a line with no structure yields empty `lead`/`tail`.
pub fn split(line: &str) -> (r: Split)
    ensures
        r@ == split_of(line@),
{
    let c = chars_of(line);
    split_chars(&c)
}

/// Splitting loses nothing but whitespace: the line is its lead, its content, a run of
/// whitespace (the padding dropped from the content) and its tail, in that order.
pub proof fn law_split_reassembles(line: Seq<char>)
    ensures
        exists|pad: Seq<char>|
            crate::text::all_ws(pad) && line == split_of(line).lead + split_of(line).content + pad
                + split_of(line).tail,
{
    let le = lead_end(line);
    lemma_lead_from(line, 0);
    lemma_tail_from(line, le, line.len() as int);
    let ts = tail_start(line);
    let sp = split_of(line);
    let mid = if is_boxed(line) {
        line.subrange(le, ts)
    } else {
        line.skip(le)
    };
    lemma_trimmed_end_len(mid);
    let pad = mid.skip(trimmed_end_len(mid) as int);
    assert(crate::text::all_ws(pad)) by {
        assert forall|k: int| 0 <= k < pad.len() implies is_ws(#[trigger] pad[k]) by {
            assert(pad[k] == mid[trimmed_end_len(mid) + k]);
        }
    }
    assert(sp.content + pad =~= mid);
    if is_boxed(line) {
        assert(line =~= sp.lead + sp.content + pad + sp.tail);
    } else {
        assert(line =~= sp.lead + sp.content + pad + sp.tail);
    }
}

/// The frame never reaches into the content: content that is not empty starts with a
/// character that is neither whitespace nor a structural glyph.
pub proof fn law_content_starts_past_the_frame(line: Seq<char>)
    ensures
        split_of(line).content.len() > 0 ==> !is_ws(split_of(line).content[0]) && !structural(
            split_of(line).content[0],
        ),
{
    let le = lead_end(line);
    lemma_lead_from(line, 0);
    lemma_tail_from(line, le, line.len() as int);
    let ts = tail_start(line);
    let mid = if is_boxed(line) {
        line.subrange(le, ts)
    } else {
        line.skip(le)
    };
    lemma_trimmed_end_len(mid);
    if split_of(line).content.len() > 0 {
        assert(split_of(line).content[0] == mid[0]);
        assert(mid[0] == line[le]);
    }
}

/// A boxed row has visible structure on both sides and text between them, and only a boxed
/// row has a tail.
pub proof fn law_boxed_rows_have_both_edges(line: Seq<char>)
    ensures
        split_of(line).boxed ==> has_ink(split_of(line).lead, 0, split_of(line).lead.len() as int)
            && has_ink(split_of(line).tail, 0, split_of(line).tail.len() as int),
        split_of(line).boxed ==> split_of(line).content.len() > 0,
        !split_of(line).boxed ==> split_of(line).tail.len() == 0,
{
    let le = lead_end(line);
    lemma_lead_from(line, 0);
    lemma_tail_from(line, le, line.len() as int);
    let ts = tail_start(line);
    if is_boxed(line) {
        let k1 = choose|k: int| 0 <= k < le && !is_ws(#[trigger] line[k]);
        assert(split_of(line).lead[k1] == line[k1]);
        let k2 = choose|k: int| ts <= k < line.len() && !is_ws(#[trigger] line[k]);
        assert(split_of(line).tail[k2 - ts] == line[k2]);
        let mid = line.subrange(le, ts);
        assert(mid.last() == line[ts - 1]);
        crate::text::lemma_trimmed_end_len(mid);
    }
}


/// The lead ends no later than the tail starts, and both lie inside the line.
pub proof fn lemma_split_bounds(line: Seq<char>)
    ensures
        0 <= lead_end(line) <= tail_start(line) <= line.len(),
{
    lemma_lead_from(line, 0);
    lemma_tail_from(line, lead_end(line), line.len() as int);
}


/// List and prompt markers at the start of a line belong to its lead, together with the
/// whitespace after them, so they are never read as text: a bullet (`-`, `*`, `+`, `$`)
/// followed by whitespace, a quote mark `>` followed by whitespace, and a number followed by
/// `.` or `)` and whitespace.
pub proof fn law_list_markers_go_to_the_lead(line: Seq<char>, n: int)
    ensures
        line.len() >= 2 && (line[0] == '-' || line[0] == '*' || line[0] == '+' || line[0] == '$' || line[0]
            == '>') && is_ws(line[1]) ==> split_of(line).lead.len() >= 2 && split_of(line).lead.take(2)
            == line.take(2),
        1 <= n && n + 2 <= line.len() && (forall|k: int| 0 <= k < n ==> '0' <= #[trigger] line[k] <= '9')
            && (line[n] == '.' || line[n] == ')') && is_ws(line[n + 1]) ==> split_of(line).lead.len() >= n + 2
            && split_of(line).lead.take(n + 2) == line.take(n + 2),
{
    lemma_lead_from(line, 0);
    if line.len() >= 2 && (line[0] == '-' || line[0] == '*' || line[0] == '+' || line[0] == '$' || line[0]
        == '>') && is_ws(line[1]) {
        assert(!is_ws(line[0]));
        assert(!structural(line[0]));
        assert(marker(line, 0) == Some(1int));
        lemma_lead_from(line, 2);
        assert(lead_from(line, 1) == lead_from(line, 2));
        assert(split_of(line).lead.take(2) =~= line.take(2));
    }
    if 1 <= n && n + 2 <= line.len() && (forall|k: int| 0 <= k < n ==> '0' <= #[trigger] line[k] <= '9')
        && (line[n] == '.' || line[n] == ')') && is_ws(line[n + 1]) {
        assert('0' <= line[0] <= '9');
        assert(!is_ws(line[0]));
        assert(!structural(line[0]));
        lemma_digits_end(line, 0);
        let k = digits_end(line, 0);
        if k > n {
            assert(is_digit(line[n]));
        }
        if k < n {
            assert('0' <= line[k] <= '9');
        }
        assert(k == n);
        assert(marker(line, 0) == Some(n + 1));
        lemma_lead_from(line, n + 2);
        assert(lead_from(line, n + 1) == lead_from(line, n + 2));
        assert(split_of(line).lead.take(n + 2) =~= line.take(n + 2));
    }
}

} // verus!
