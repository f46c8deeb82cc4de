//! Find the runs inside a line that must be isolated LTR.
//!
//! A plain English word inside a Persian sentence already renders correctly. What breaks is
//! *neutral* characters next to a directional boundary: the trailing `.` of a filename, the
//! closing `)` of a parenthetical, the `/` in a path. So structured tokens are isolated, not
//! every Latin word.
//!
//! The candidate tokens come from one regular expression, run by the `regex` crate; which of
//! its matches become code runs, and how a line is cut around them, is decided here.

use vstd::prelude::*;
use crate::model::{Segment, SegmentV, segs_text, segs_view};
use crate::text::{chars_of, slice_chars, push_all, string_of, is_ws};

verus! {

/// The token grammar: inline code spans, URLs, paths, flags, assignments, scoped
/// identifiers, file names, snake-case identifiers, e-mail addresses, versions, hashes and
/// bracketed tags, as alternatives tried in this order.
pub const CODE_PATTERN: &'static str = r"`[^`\n]+`|(?:https?|ftp|file)://[^\s]+|[A-Za-z]:\\[^\s]+|(?:~|\.{1,2})?/[A-Za-z0-9._@+-]+(?:/[A-Za-z0-9._@+-]*)*|[A-Za-z0-9._@+-]+(?:/[A-Za-z0-9._@+-]+)+|--?[A-Za-z][A-Za-z0-9-]*(?:=[^\s]+)?|[A-Za-z_][A-Za-z0-9_]*(?:(?:::|\.|->)[A-Za-z_][A-Za-z0-9_]*)*(?:\(\))?=[A-Za-z0-9._/+-]+|[A-Za-z_][A-Za-z0-9_]*(?:(?:::|\.|->)[A-Za-z_][A-Za-z0-9_]*)+(?:\(\))?|[A-Za-z_][A-Za-z0-9_-]*(?:\.[A-Za-z0-9_-]+)+|_*[A-Za-z0-9]+(?:_+[A-Za-z0-9]+)+_*|__[A-Za-z0-9]+__|[A-Za-z0-9._%+-]+@[A-Za-z0-9.-]+\.[A-Za-z0-9]+|v?[0-9]+\.[0-9]+(?:\.[0-9]+)?(?:[-+][A-Za-z0-9.]+)?|[0-9a-f]{7,40}|\[[\x21-\x7E][\x20-\x7E]*\]";

/// What the `regex` crate answers for `pattern` over `hay`: `None` when the pattern does not
/// compile, otherwise the byte spans of `Regex::find_iter`, in the order it yields them.
pub uninterp spec fn regex_matches(pattern: Seq<char>, hay: Seq<char>) -> Option<Seq<(usize, usize)>>;

/// Compiles `pattern` with `regex::Regex::new` and collects the `(start, end)` byte offsets
/// of every match that `Regex::find_iter` yields over `hay`. The contract only ties the
/// result to the named value; nothing about the spans (order, bounds) is assumed, the
/// callers check them.
#[verifier::external_body]
fn regex_find_all(pattern: &str, hay: &str) -> (r: Option<Vec<(usize, usize)>>)
    ensures
        match r {
            Some(v) => regex_matches(pattern@, hay@) == Some(v@),
            None => regex_matches(pattern@, hay@) is None,
        },
{
    let re = regex::Regex::new(pattern).ok()?;
    Some(re.find_iter(hay).map(|m| (m.start(), m.end())).collect())
}

// ------------------------------------------------------------------ byte offsets

/// Number of bytes `c` takes in UTF-8 (`char::len_utf8`).
pub open spec fn utf8_len(c: char) -> nat {
    let u = c as u32;
    if u < 0x80 {
        1
    } else if u < 0x800 {
        2
    } else if u < 0x10000 {
        3
    } else {
        4
    }
}

/// Byte offset, in the UTF-8 encoding of `s`, of the character at index `i`.
pub open spec fn byte_pos(s: Seq<char>, i: int) -> nat
    decreases i,
{
    if i <= 0 {
        0
    } else {
        byte_pos(s, i - 1) + utf8_len(s[i - 1])
    }
}

/// The first character index at or after `i` whose byte offset is `b`.
pub open spec fn index_from(s: Seq<char>, b: int, i: int) -> Option<int>
    decreases s.len() + 1 - i,
{
    if i > s.len() || i < 0 {
        None
    } else if byte_pos(s, i) == b {
        Some(i)
    } else {
        index_from(s, b, i + 1)
    }
}

/// The character index at byte offset `b`, if `b` falls on a character boundary.
pub open spec fn char_index(s: Seq<char>, b: int) -> Option<int> {
    index_from(s, b, 0)
}

proof fn lemma_byte_pos_bound(s: Seq<char>, i: int)
    requires
        0 <= i,
    ensures
        byte_pos(s, i) <= 4 * i,
    decreases i,
{
    if i > 0 {
        lemma_byte_pos_bound(s, i - 1);
    }
}

proof fn lemma_index_from_range(s: Seq<char>, b: int, i: int)
    ensures
        index_from(s, b, i) matches Some(k) ==> i <= k <= s.len(),
    decreases s.len() + 1 - i,
{
    if 0 <= i <= s.len() && byte_pos(s, i) != b {
        lemma_index_from_range(s, b, i + 1);
    }
}

/// Character index of byte offset `b` in `s`.
fn char_index_of(s: &[char], b: usize) -> (r: Option<usize>)
    ensures
        match r {
            Some(k) => char_index(s@, b as int) == Some(k as int),
            None => char_index(s@, b as int) is None,
        },
{
    let mut i: usize = 0;
    let mut pos: u128 = 0;
    proof {
        lemma_index_from_range(s@, b as int, 0);
    }
    loop
        invariant
            i <= s@.len(),
            pos == byte_pos(s@, i as int),
            char_index(s@, b as int) == index_from(s@, b as int, i as int),
        decreases s@.len() - i,
    {
        if pos == b as u128 {
            return Some(i);
        }
        if i == s.len() {
            assert(index_from(s@, b as int, (i + 1) as int) is None);
            return None;
        }
        proof {
            lemma_byte_pos_bound(s@, (i + 1) as int);
        }
        let c = s[i];
        let u = c as u32;
        let w: u128 = if u < 0x80 {
            1
        } else if u < 0x800 {
            2
        } else if u < 0x10000 {
            3
        } else {
            4
        };
        pos = pos + w;
        i += 1;
    }
}

// ------------------------------------------------------------------ token filters

/// A token may only start at a word boundary: the start of the line, after whitespace, or
/// after an opening bracket, a quote or one of `« ، , : = |`.
pub open spec fn token_boundary(hay: Seq<char>, start: int) -> bool {
    if start <= 0 {
        true
    } else {
        let prev = hay[start - 1];
        is_ws(prev) || prev == '(' || prev == '[' || prev == '{' || prev == '"' || prev == '\''
            || prev == '«' || prev == '،' || prev == ',' || prev == ':' || prev == '=' || prev == '|'
    }
}

fn at_token_boundary(hay: &[char], start: usize) -> (r: bool)
    requires
        start <= hay@.len(),
    ensures
        r == token_boundary(hay@, start as int),
{
    if start == 0 {
        return true;
    }
    let prev = hay[start - 1];
    crate::text::is_whitespace(prev) || prev == '(' || prev == '[' || prev == '{' || prev == '"'
        || prev == '\'' || prev == '«' || prev == '،' || prev == ',' || prev == ':' || prev == '='
        || prev == '|'
}

/// Number of occurrences of `c` in `s`.
pub open spec fn count_of(s: Seq<char>, c: char) -> nat
    decreases s.len(),
{
    if s.len() == 0 {
        0
    } else {
        count_of(s.drop_last(), c) + if s.last() == c {
            1nat
        } else {
            0nat
        }
    }
}

fn count_char(s: &[char], upto: usize, c: char) -> (r: usize)
    requires
        upto <= s@.len(),
    ensures
        r == count_of(s@.take(upto as int), c),
{
    let mut n: usize = 0;
    let mut i: usize = 0;
    while i < upto
        invariant
            i <= upto <= s@.len(),
            n == count_of(s@.take(i as int), c),
            n <= i,
        decreases upto - i,
    {
        assert(s@.take(i + 1).drop_last() =~= s@.take(i as int));
        if s[i] == c {
            n += 1;
        }
        i += 1;
    }
    n
}

/// The opening bracket matching a closing one.
pub open spec fn opener_of(closer: char) -> char {
    if closer == ')' {
        '('
    } else if closer == ']' {
        '['
    } else {
        '{'
    }
}

/// Sentence punctuation that is pushed back out of the end of a token.
pub open spec fn is_sentence_punct(c: char) -> bool {
    c == '.' || c == ',' || c == ':' || c == ';' || c == '!' || c == '?' || c == '،' || c == '؛'
        || c == '؟' || c == '»'
}

/// Whether the last character of `s` is stripped: sentence punctuation always, a closing
/// bracket only when `s` holds fewer of its openers than of itself.
pub open spec fn strips_last(s: Seq<char>) -> bool {
    let c = s.last();
    is_sentence_punct(c) || ((c == ')' || c == ']' || c == '}') && count_of(s, opener_of(c))
        < count_of(s, c))
}

/// Length of a token once trailing punctuation has been pushed out of it.
pub open spec fn punct_trimmed_len(s: Seq<char>) -> nat
    decreases s.len(),
{
    if s.len() == 0 {
        0
    } else if strips_last(s) {
        punct_trimmed_len(s.drop_last())
    } else {
        s.len()
    }
}

proof fn lemma_punct_trimmed_len(s: Seq<char>)
    ensures
        punct_trimmed_len(s) <= s.len(),
    decreases s.len(),
{
    if s.len() > 0 && strips_last(s) {
        lemma_punct_trimmed_len(s.drop_last());
    }
}

/// How many characters of `tok[from..to]` survive trailing-punctuation trimming.
fn trim_trailing_punct(tok: &[char], from: usize, to: usize) -> (r: usize)
    requires
        from <= to <= tok@.len(),
    ensures
        r == punct_trimmed_len(tok@.subrange(from as int, to as int)),
        r <= to - from,
{
    let mut end = to;
    proof {
        lemma_punct_trimmed_len(tok@.subrange(from as int, to as int));
    }
    while end > from
        invariant
            from <= end <= to <= tok@.len(),
            punct_trimmed_len(tok@.subrange(from as int, to as int)) == punct_trimmed_len(
                tok@.subrange(from as int, end as int),
            ),
        decreases end - from,
    {
        let ghost sub = tok@.subrange(from as int, end as int);
        let c = tok[end - 1];
        assert(sub.last() == c);
        let strip = if c == '.' || c == ',' || c == ':' || c == ';' || c == '!' || c == '?' || c
            == '،' || c == '؛' || c == '؟' || c == '»' {
            true
        } else if c == ')' || c == ']' || c == '}' {
            let opener = if c == ')' {
                '('
            } else if c == ']' {
                '['
            } else {
                '{'
            };
            let sub_owned = slice_chars(tok, from, end);
            assert(sub_owned@.take(sub.len() as int) =~= sub);
            let opens = count_char(&sub_owned, sub_owned.len(), opener);
            let closes = count_char(&sub_owned, sub_owned.len(), c);
            opens < closes
        } else {
            false
        };
        if !strip {
            proof {
                lemma_punct_trimmed_len(sub);
            }
            return end - from;
        }
        assert(sub.drop_last() =~= tok@.subrange(from as int, end - 1));
        end -= 1;
    }
    end - from
}

/// Rejects matches that are almost certainly ordinary words: single characters, and runs
/// of lower-case hex letters without a digit (`defaced` is a word, not a hash).
pub open spec fn acceptable_token(t: Seq<char>) -> bool {
    let all_hex = forall|i: int|
        0 <= i < t.len() ==> (('0' <= #[trigger] t[i] <= '9') || ('a' <= t[i] <= 'f'));
    let has_digit = exists|i: int| 0 <= i < t.len() && '0' <= #[trigger] t[i] <= '9';
    t.len() >= 2 && !(all_hex && !has_digit)
}

fn acceptable(t: &[char], from: usize, to: usize) -> (r: bool)
    requires
        from <= to <= t@.len(),
    ensures
        r == acceptable_token(t@.subrange(from as int, to as int)),
{
    let ghost s = t@.subrange(from as int, to as int);
    if to - from < 2 {
        return false;
    }
    let mut all_hex = true;
    let mut has_digit = false;
    let mut i = from;
    while i < to
        invariant
            from <= i <= to <= t@.len(),
            s == t@.subrange(from as int, to as int),
            all_hex == (forall|k: int|
                0 <= k < i - from ==> (('0' <= #[trigger] s[k] <= '9') || ('a' <= s[k] <= 'f'))),
            has_digit == (exists|k: int| 0 <= k < i - from && '0' <= #[trigger] s[k] <= '9'),
        decreases to - i,
    {
        let c = t[i];
        assert(s[i - from] == c);
        if !(('0' <= c && c <= '9') || ('a' <= c && c <= 'f')) {
            all_hex = false;
        }
        if '0' <= c && c <= '9' {
            has_digit = true;
        }
        i += 1;
        proof {
            if !has_digit {
                assert forall|k: int| 0 <= k < i - from implies !('0' <= #[trigger] s[k] <= '9') by {
                    if k < i - 1 - from {
                    }
                }
            }
        }
    }
    !(all_hex && !has_digit)
}

// ------------------------------------------------------------------ code ranges

/// Fold one regex match into the code ranges found so far (`st.0`), given where the last
/// accepted range ended (`st.1`). A match is dropped when it does not fall on character
/// boundaries, overlaps the previous range, starts mid-word, or leaves an unacceptable
/// token once its trailing punctuation is pushed out.
pub open spec fn code_step(content: Seq<char>, st: (Seq<(int, int)>, int), m: (usize, usize)) -> (
    Seq<(int, int)>,
    int,
) {
    match (char_index(content, m.0 as int), char_index(content, m.1 as int)) {
        (Some(s), Some(e)) => {
            if s < st.1 || e < s || !token_boundary(content, s) {
                st
            } else {
                let n = punct_trimmed_len(content.subrange(s, e));
                if n == 0 || !acceptable_token(content.subrange(s, s + n)) {
                    st
                } else {
                    (st.0.push((s, s + n)), s + n)
                }
            }
        },
        _ => st,
    }
}

pub open spec fn code_fold(content: Seq<char>, ms: Seq<(usize, usize)>) -> (Seq<(int, int)>, int)
    decreases ms.len(),
{
    if ms.len() == 0 {
        (Seq::empty(), 0)
    } else {
        code_step(content, code_fold(content, ms.drop_last()), ms.last())
    }
}

/// The code ranges (character spans) of a line: the accepted matches of [`CODE_PATTERN`].
pub open spec fn code_ranges_of(content: Seq<char>) -> Seq<(int, int)> {
    match regex_matches(CODE_PATTERN@, content) {
        Some(ms) => code_fold(content, ms).0,
        None => Seq::empty(),
    }
}

/// Ranges that are non-empty, in order, non-overlapping and inside a text of length `n`,
/// where `last` is the end of the final range (0 when there is none).
pub open spec fn ranges_wf(r: Seq<(int, int)>, last: int, n: int) -> bool {
    &&& forall|k: int| 0 <= k < r.len() ==> 0 <= (#[trigger] r[k]).0 < r[k].1 <= n
    &&& forall|k: int| 0 <= k < r.len() - 1 ==> (#[trigger] r[k]).1 <= r[k + 1].0
    &&& last == (if r.len() == 0 {
        0
    } else {
        r.last().1
    })
    &&& 0 <= last <= n
}

pub proof fn lemma_index_from_bound(s: Seq<char>, b: int, i: int)
    ensures
        index_from(s, b, i) matches Some(k) ==> 0 <= k <= s.len(),
    decreases s.len() + 1 - i,
{
    if 0 <= i <= s.len() && byte_pos(s, i) != b {
        lemma_index_from_bound(s, b, i + 1);
    }
}

pub proof fn lemma_code_fold_wf(content: Seq<char>, ms: Seq<(usize, usize)>)
    ensures
        ranges_wf(code_fold(content, ms).0, code_fold(content, ms).1, content.len() as int),
    decreases ms.len(),
{
    if ms.len() > 0 {
        lemma_code_fold_wf(content, ms.drop_last());
        let m = ms.last();
        lemma_index_from_bound(content, m.0 as int, 0);
        lemma_index_from_bound(content, m.1 as int, 0);
        let st = code_fold(content, ms.drop_last());
        match (char_index(content, m.0 as int), char_index(content, m.1 as int)) {
            (Some(s), Some(e)) => {
                if !(s < st.1 || e < s || !token_boundary(content, s)) {
                    lemma_punct_trimmed_len(content.subrange(s, e));
                }
            },
            _ => {},
        }
    }
}

pub proof fn lemma_code_ranges_wf(content: Seq<char>)
    ensures
        ranges_wf(
            code_ranges_of(content),
            if code_ranges_of(content).len() == 0 {
                0
            } else {
                code_ranges_of(content).last().1
            },
            content.len() as int,
        ),
{
    match regex_matches(CODE_PATTERN@, content) {
        Some(ms) => lemma_code_fold_wf(content, ms),
        None => {},
    }
}

/// Views of exec ranges.
pub open spec fn spans_view(v: Seq<(usize, usize)>) -> Seq<(int, int)> {
    v.map_values(|p: (usize, usize)| (p.0 as int, p.1 as int))
}

/// The code ranges a set of regex matches yields over `content` (see [`code_step`]).
pub fn code_ranges_from(content: &[char], matches: &[(usize, usize)]) -> (r: Vec<(usize, usize)>)
    ensures
        spans_view(r@) == code_fold(content@, matches@).0,
        ranges_wf(spans_view(r@), code_fold(content@, matches@).1, content@.len() as int),
{
    let mut ranges: Vec<(usize, usize)> = Vec::new();
    let mut last: usize = 0;
    let mut i: usize = 0;
    while i < matches.len()
        invariant
            i <= matches@.len(),
            spans_view(ranges@) == code_fold(content@, matches@.take(i as int)).0,
            last == code_fold(content@, matches@.take(i as int)).1,
            ranges_wf(spans_view(ranges@), last as int, content@.len() as int),
        decreases matches@.len() - i,
    {
        proof {
            assert(matches@.take(i + 1).drop_last() =~= matches@.take(i as int));
            lemma_code_fold_wf(content@, matches@.take(i + 1));
        }
        let (mb, me) = matches[i];
        let ghost st = code_fold(content@, matches@.take(i as int));
        let si = char_index_of(content, mb);
        let ei = char_index_of(content, me);
        proof {
            lemma_index_from_bound(content@, mb as int, 0);
            lemma_index_from_bound(content@, me as int, 0);
        }
        if let (Some(s), Some(e)) = (si, ei) {
            if s >= last && e >= s && at_token_boundary(content, s) {
                let n = trim_trailing_punct(content, s, e);
                if n > 0 && acceptable(content, s, s + n) {
                    ranges.push((s, s + n));
                    last = s + n;
                    assert(spans_view(ranges@) =~= st.0.push((s as int, s + n)));
                }
            }
        }
        i += 1;
    }
    assert(matches@.take(matches@.len() as int) =~= matches@);
    ranges
}

/// The code ranges of `content`: runs the token grammar, then filters its matches.
fn code_ranges(content: &[char]) -> (r: Vec<(usize, usize)>)
    ensures
        spans_view(r@) == code_ranges_of(content@),
        ranges_wf(
            spans_view(r@),
            if r@.len() == 0 {
                0
            } else {
                r@.last().1 as int
            },
            content@.len() as int,
        ),
{
    let hay = string_of(content);
    match regex_find_all(CODE_PATTERN, hay.as_str()) {
        Some(ms) => code_ranges_from(content, &ms),
        None => Vec::new(),
    }
}

// ------------------------------------------------------------------ prose and segments

pub open spec fn prose_fold(content: Seq<char>, ranges: Seq<(int, int)>) -> (Seq<char>, int)
    decreases ranges.len(),
{
    if ranges.len() == 0 {
        (Seq::empty(), 0)
    } else {
        let (out, last) = prose_fold(content, ranges.drop_last());
        let r = ranges.last();
        (out + content.subrange(last, r.0) + seq![' '], r.1)
    }
}

/// The line with every code range replaced by one space.
pub open spec fn prose_with(content: Seq<char>, ranges: Seq<(int, int)>) -> Seq<char> {
    let (out, last) = prose_fold(content, ranges);
    out + content.subrange(last, content.len() as int)
}

pub open spec fn prose_of(content: Seq<char>) -> Seq<char> {
    prose_with(content, code_ranges_of(content))
}

proof fn lemma_prose_fold_last(content: Seq<char>, ranges: Seq<(int, int)>, last: int)
    requires
        ranges_wf(ranges, last, content.len() as int),
    ensures
        prose_fold(content, ranges).1 == last,
    decreases ranges.len(),
{
    if ranges.len() > 0 {
        let pre = ranges.drop_last();
        let pl = if pre.len() == 0 {
            0
        } else {
            pre.last().1
        };
        if pre.len() > 0 {
            assert(pre.last() == ranges[ranges.len() - 2]);
        }
        lemma_prose_fold_last(content, pre, pl);
    }
}

/// `content` with its code ranges blanked out, given the ranges.
pub fn prose_with_ranges(content: &[char], ranges: &[(usize, usize)]) -> (r: Vec<char>)
    requires
        ranges_wf(
            spans_view(ranges@),
            if ranges@.len() == 0 {
                0
            } else {
                ranges@.last().1 as int
            },
            content@.len() as int,
        ),
    ensures
        r@ == prose_with(content@, spans_view(ranges@)),
{
    let ghost sv = spans_view(ranges@);
    let mut out: Vec<char> = Vec::new();
    let mut last: usize = 0;
    let mut i: usize = 0;
    while i < ranges.len()
        invariant
            i <= ranges@.len(),
            sv == spans_view(ranges@),
            ranges_wf(sv, if ranges@.len() == 0 { 0 } else { ranges@.last().1 as int }, content@.len() as int),
            out@ == prose_fold(content@, sv.take(i as int)).0,
            last == prose_fold(content@, sv.take(i as int)).1,
            i == 0 ==> last == 0,
            i > 0 ==> last == sv[i - 1].1,
        decreases ranges@.len() - i,
    {
        assert(sv.take(i + 1).drop_last() =~= sv.take(i as int));
        let (s, e) = ranges[i];
        assert(sv[i as int] == (s as int, e as int));
        if i > 0 {
            assert(sv[i - 1].1 <= sv[i as int].0);
        }
        let piece = slice_chars(content, last, s);
        push_all(&mut out, &piece);
        out.push(' ');
        last = e;
        i += 1;
    }
    assert(sv.take(ranges@.len() as int) =~= sv);
    if ranges.len() > 0 {
        assert(sv.last() == sv[ranges@.len() - 1]);
    }
    let rest = slice_chars(content, last, content.len());
    push_all(&mut out, &rest);
    out
}

/// The line with code tokens blanked out, so a path or flag is not counted as evidence of
/// what language the line is written in.
pub fn prose_only_chars(content: &[char]) -> (r: Vec<char>)
    ensures
        r@ == prose_of(content@),
{
    let ranges = code_ranges(content);
    prose_with_ranges(content, &ranges)
}

/// The line with code tokens blanked out (each replaced by one space).
pub fn prose_only(content: &str) -> (r: String)
    ensures
        r@ == prose_of(content@),
{
    let c = chars_of(content);
    let out = prose_only_chars(&c);
    string_of(&out)
}

/// Append text, merging with a preceding text run.
pub open spec fn push_text_spec(segs: Seq<SegmentV>, t: Seq<char>) -> Seq<SegmentV> {
    if t.len() == 0 {
        segs
    } else if segs.len() > 0 && segs.last() is Text {
        segs.update(segs.len() - 1, SegmentV::Text(segs.last().text() + t))
    } else {
        segs.push(SegmentV::Text(t))
    }
}

/// A code run's text: without its backticks when asked to strip them and there is
/// something between them (a run is never emptied).
pub open spec fn code_text(kept: Seq<char>, strip: bool) -> Seq<char> {
    if strip && kept.len() > 2 && kept[0] == '`' && kept.last() == '`' {
        kept.subrange(1, kept.len() - 1)
    } else {
        kept
    }
}

pub open spec fn seg_fold(content: Seq<char>, ranges: Seq<(int, int)>, strip: bool) -> (
    Seq<SegmentV>,
    int,
)
    decreases ranges.len(),
{
    if ranges.len() == 0 {
        (Seq::empty(), 0)
    } else {
        let (segs, last) = seg_fold(content, ranges.drop_last(), strip);
        let r = ranges.last();
        let segs1 = if r.0 > last {
            push_text_spec(segs, content.subrange(last, r.0))
        } else {
            segs
        };
        (segs1.push(SegmentV::Code(code_text(content.subrange(r.0, r.1), strip))), r.1)
    }
}

/// The segments of `content` cut around `ranges`.
pub open spec fn segment_with(content: Seq<char>, ranges: Seq<(int, int)>, strip: bool) -> Seq<
    SegmentV,
> {
    if content.len() == 0 {
        Seq::empty()
    } else {
        let (segs, last) = seg_fold(content, ranges, strip);
        if last < content.len() {
            push_text_spec(segs, content.subrange(last, content.len() as int))
        } else {
            segs
        }
    }
}

/// The segments of a line: text runs and isolated code runs.
pub open spec fn segment_of(content: Seq<char>, strip: bool) -> Seq<SegmentV> {
    segment_with(content, code_ranges_of(content), strip)
}

/// Segments under construction: `(is_code, text)`.
pub open spec fn parts_view(v: Seq<(bool, Vec<char>)>) -> Seq<SegmentV> {
    v.map_values(
        |p: (bool, Vec<char>)|
            if p.0 {
                SegmentV::Code(p.1@)
            } else {
                SegmentV::Text(p.1@)
            },
    )
}

fn push_text(segs: &mut Vec<(bool, Vec<char>)>, text: Vec<char>)
    ensures
        parts_view(final(segs)@) == push_text_spec(parts_view(old(segs)@), text@),
{
    if text.len() == 0 {
        return;
    }
    let n = segs.len();
    if n > 0 && !segs[n - 1].0 {
        let ghost before = parts_view(segs@);
        let (_, mut prev) = segs.pop().unwrap();
        push_all(&mut prev, &text);
        segs.push((false, prev));
        assert(parts_view(segs@) =~= before.update(
            before.len() - 1,
            SegmentV::Text(before.last().text() + text@),
        ));
    } else {
        let ghost before = parts_view(segs@);
        segs.push((false, text));
        assert(parts_view(segs@) =~= before.push(SegmentV::Text(text@)));
    }
}

fn parts_to_segments(parts: Vec<(bool, Vec<char>)>) -> (r: Vec<Segment>)
    ensures
        segs_view(r@) == parts_view(parts@),
{
    let mut out: Vec<Segment> = Vec::new();
    let mut i: usize = 0;
    while i < parts.len()
        invariant
            i <= parts@.len(),
            segs_view(out@) == parts_view(parts@).take(i as int),
        decreases parts@.len() - i,
    {
        let s = string_of(&parts[i].1);
        let seg = if parts[i].0 {
            Segment::Code(s)
        } else {
            Segment::Text(s)
        };
        let ghost before = out@;
        out.push(seg);
        assert(seg@ == parts_view(parts@)[i as int]);
        assert(out@ == before.push(seg));
        assert(segs_view(out@) =~= segs_view(before).push(seg@));
        assert(parts_view(parts@).take(i + 1) =~= parts_view(parts@).take(i as int).push(parts_view(parts@)[i as int]));
        i += 1;
        assert(segs_view(out@) =~= parts_view(parts@).take(i as int));
    }
    assert(parts_view(parts@).take(parts@.len() as int) =~= parts_view(parts@));
    out
}

proof fn lemma_seg_fold_last(content: Seq<char>, ranges: Seq<(int, int)>, strip: bool, last: int)
    requires
        ranges_wf(ranges, last, content.len() as int),
    ensures
        seg_fold(content, ranges, strip).1 == last,
    decreases ranges.len(),
{
    if ranges.len() > 0 {
        let pre = ranges.drop_last();
        let pl = if pre.len() == 0 {
            0
        } else {
            pre.last().1
        };
        if pre.len() > 0 {
            assert(pre.last() == ranges[ranges.len() - 2]);
        }
        lemma_seg_fold_last(content, pre, strip, pl);
    }
}

/// Split `content` into text and code runs around the given code ranges.
pub fn segment_with_ranges(content: &[char], ranges: &[(usize, usize)], strip_backticks: bool) -> (r:
    Vec<Segment>)
    requires
        ranges_wf(
            spans_view(ranges@),
            if ranges@.len() == 0 {
                0
            } else {
                ranges@.last().1 as int
            },
            content@.len() as int,
        ),
    ensures
        segs_view(r@) == segment_with(content@, spans_view(ranges@), strip_backticks),
{
    if content.len() == 0 {
        return Vec::new();
    }
    let ghost sv = spans_view(ranges@);
    let mut segs: Vec<(bool, Vec<char>)> = Vec::new();
    let mut last: usize = 0;
    let mut i: usize = 0;
    while i < ranges.len()
        invariant
            i <= ranges@.len(),
            sv == spans_view(ranges@),
            ranges_wf(sv, if ranges@.len() == 0 { 0 } else { ranges@.last().1 as int }, content@.len() as int),
            parts_view(segs@) == seg_fold(content@, sv.take(i as int), strip_backticks).0,
            last == seg_fold(content@, sv.take(i as int), strip_backticks).1,
            i == 0 ==> last == 0,
            i > 0 ==> last == sv[i - 1].1,
        decreases ranges@.len() - i,
    {
        assert(sv.take(i + 1).drop_last() =~= sv.take(i as int));
        let (s, e) = ranges[i];
        assert(sv[i as int] == (s as int, e as int));
        if i > 0 {
            assert(sv[i - 1].1 <= sv[i as int].0);
        }
        if s > last {
            let t = slice_chars(content, last, s);
            push_text(&mut segs, t);
        }
        let code = if strip_backticks && e - s > 2 && content[s] == '`' && content[e - 1] == '`' {
            slice_chars(content, s + 1, e - 1)
        } else {
            slice_chars(content, s, e)
        };
        proof {
            let kept = content@.subrange(s as int, e as int);
            if strip_backticks && kept.len() > 2 && kept[0] == '`' && kept.last() == '`' {
                assert(code@ =~= kept.subrange(1, kept.len() - 1));
            }
        }
        let ghost before = parts_view(segs@);
        segs.push((true, code));
        assert(parts_view(segs@) =~= before.push(
            SegmentV::Code(code_text(content@.subrange(s as int, e as int), strip_backticks)),
        ));
        last = e;
        i += 1;
    }
    assert(sv.take(ranges@.len() as int) =~= sv);
    if ranges.len() > 0 {
        assert(sv.last() == sv[ranges@.len() - 1]);
    }
    if last < content.len() {
        let t = slice_chars(content, last, content.len());
        push_text(&mut segs, t);
    }
    parts_to_segments(segs)
}

/// Split line content (as characters) into text and isolated-code runs.
pub fn segment_chars(content: &[char], strip_backticks: bool) -> (r: Vec<Segment>)
    ensures
        segs_view(r@) == segment_of(content@, strip_backticks),
{
    let ranges = code_ranges(content);
    segment_with_ranges(content, &ranges, strip_backticks)
}

/// Split line content into text and isolated-code runs.
pub fn segment(content: &str, strip_backticks: bool) -> (r: Vec<Segment>)
    ensures
        segs_view(r@) == segment_of(content@, strip_backticks),
{
    let c = chars_of(content);
    segment_chars(&c, strip_backticks)
}

// ------------------------------------------------------------------ laws

proof fn lemma_push_text_text(segs: Seq<SegmentV>, t: Seq<char>)
    ensures
        segs_text(push_text_spec(segs, t)) == segs_text(segs) + t,
{
    if t.len() == 0 {
        assert(segs_text(segs) + t =~= segs_text(segs));
    } else if segs.len() > 0 && segs.last() is Text {
        let u = push_text_spec(segs, t);
        assert(u.drop_last() =~= segs.drop_last());
        assert(segs_text(u) =~= segs_text(segs) + t);
    } else {
        let u = push_text_spec(segs, t);
        assert(u.drop_last() =~= segs);
    }
}

proof fn lemma_seg_fold_text(content: Seq<char>, ranges: Seq<(int, int)>, last: int)
    requires
        ranges_wf(ranges, last, content.len() as int),
    ensures
        segs_text(seg_fold(content, ranges, false).0) == content.take(last),
    decreases ranges.len(),
{
    if ranges.len() > 0 {
        let pre = ranges.drop_last();
        let pl = if pre.len() == 0 {
            0
        } else {
            pre.last().1
        };
        if pre.len() > 0 {
            assert(pre.last() == ranges[ranges.len() - 2]);
        }
        lemma_seg_fold_text(content, pre, pl);
        lemma_seg_fold_last(content, pre, false, pl);
        let (segs, l0) = seg_fold(content, pre, false);
        let r = ranges.last();
        let segs1 = if r.0 > l0 {
            push_text_spec(segs, content.subrange(l0, r.0))
        } else {
            segs
        };
        if r.0 > l0 {
            lemma_push_text_text(segs, content.subrange(l0, r.0));
        }
        assert(segs_text(segs1) =~= content.take(r.0));
        let out = segs1.push(SegmentV::Code(content.subrange(r.0, r.1)));
        assert(out.drop_last() =~= segs1);
        assert(segs_text(out) =~= content.take(r.1));
    }
}

/// Segmentation is lossless: with the backticks kept, the segments of a line concatenate
/// back to the line exactly.
pub proof fn law_segments_reassemble(content: Seq<char>)
    ensures
        segs_text(segment_of(content, false)) == content,
{
    lemma_code_ranges_wf(content);
    let ranges = code_ranges_of(content);
    let last = if ranges.len() == 0 {
        0
    } else {
        ranges.last().1
    };
    if content.len() > 0 {
        lemma_seg_fold_text(content, ranges, last);
        lemma_seg_fold_last(content, ranges, false, last);
        let segs = seg_fold(content, ranges, false).0;
        if last < content.len() {
            lemma_push_text_text(segs, content.subrange(last, content.len() as int));
        }
        assert(content.take(last) + content.subrange(last, content.len() as int) =~= content);
        assert(content.take(content.len() as int) =~= content);
    } else {
        assert(content =~= Seq::<char>::empty());
    }
}


/// No two neighbouring segments are both text: text runs are always merged.
pub open spec fn no_adjacent_text(segs: Seq<SegmentV>) -> bool {
    forall|k: int| 0 <= k < segs.len() - 1 ==> !((#[trigger] segs[k]) is Text && segs[k + 1] is Text)
}

/// Every text segment holds text.
pub open spec fn texts_nonempty(segs: Seq<SegmentV>) -> bool {
    forall|k: int| 0 <= k < segs.len() && (#[trigger] segs[k]) is Text ==> segs[k].text().len() > 0
}

/// Every segment holds text.
pub open spec fn all_nonempty(segs: Seq<SegmentV>) -> bool {
    forall|k: int| 0 <= k < segs.len() ==> (#[trigger] segs[k]).text().len() > 0
}

/// A code segment with its fencing backticks taken off; text as it is.
pub open spec fn unfence(s: SegmentV) -> SegmentV {
    match s {
        SegmentV::Code(t) => SegmentV::Code(code_text(t, true)),
        SegmentV::Text(t) => SegmentV::Text(t),
    }
}

/// The segments' text with every code run replaced by one space.
pub open spec fn prose_text(segs: Seq<SegmentV>) -> Seq<char>
    decreases segs.len(),
{
    if segs.len() == 0 {
        Seq::empty()
    } else {
        prose_text(segs.drop_last()) + match segs.last() {
            SegmentV::Text(t) => t,
            SegmentV::Code(_) => seq![' '],
        }
    }
}

proof fn lemma_push_text_shape(segs: Seq<SegmentV>, t: Seq<char>)
    ensures
        no_adjacent_text(segs) ==> no_adjacent_text(push_text_spec(segs, t)),
        texts_nonempty(segs) ==> texts_nonempty(push_text_spec(segs, t)),
        all_nonempty(segs) ==> all_nonempty(push_text_spec(segs, t)),
        push_text_spec(segs.map_values(|x: SegmentV| unfence(x)), t) == push_text_spec(segs, t).map_values(
            |x: SegmentV| unfence(x),
        ),
        prose_text(push_text_spec(segs, t)) == prose_text(segs) + t,
{
    let u = push_text_spec(segs, t);
    let m = segs.map_values(|x: SegmentV| unfence(x));
    if t.len() == 0 {
        assert(prose_text(segs) + t =~= prose_text(segs));
    } else if segs.len() > 0 && segs.last() is Text {
        assert(u.drop_last() =~= segs.drop_last());
        assert(prose_text(u) =~= prose_text(segs) + t);
        assert(m.last() == segs.last());
        assert(push_text_spec(m, t) =~= u.map_values(|x: SegmentV| unfence(x)));
        assert forall|k: int| 0 <= k < u.len() - 1 && no_adjacent_text(segs) implies !((#[trigger] u[k]) is Text && u[k + 1] is Text) by {
            assert(u[k] == segs[k]);
            if k + 1 < segs.len() - 1 {
                assert(u[k + 1] == segs[k + 1]);
            }
        }
    } else {
        assert(u.drop_last() =~= segs);
        assert(push_text_spec(m, t) =~= u.map_values(|x: SegmentV| unfence(x)));
        assert forall|k: int| 0 <= k < u.len() - 1 && no_adjacent_text(segs) implies !((#[trigger] u[k]) is Text && u[k + 1] is Text) by {
            assert(u[k] == segs[k]);
            if k + 1 < segs.len() {
                assert(u[k + 1] == segs[k + 1]);
            }
        }
    }
}

proof fn lemma_push_code_shape(segs: Seq<SegmentV>, c: SegmentV)
    requires
        c is Code,
    ensures
        no_adjacent_text(segs) ==> no_adjacent_text(segs.push(c)),
        texts_nonempty(segs) ==> texts_nonempty(segs.push(c)),
        all_nonempty(segs) && c.text().len() > 0 ==> all_nonempty(segs.push(c)),
        prose_text(segs.push(c)) == prose_text(segs) + seq![' '],
{
    let u = segs.push(c);
    assert(u.drop_last() =~= segs);
    assert forall|k: int| 0 <= k < u.len() - 1 && no_adjacent_text(segs) implies !((#[trigger] u[k]) is Text && u[k + 1] is Text) by {
        assert(u[k] == segs[k]);
        if k + 1 < segs.len() {
            assert(u[k + 1] == segs[k + 1]);
        }
    }
}

proof fn lemma_seg_fold_shape(content: Seq<char>, ranges: Seq<(int, int)>, last: int, strip: bool)
    requires
        ranges_wf(ranges, last, content.len() as int),
    ensures
        no_adjacent_text(seg_fold(content, ranges, strip).0),
        texts_nonempty(seg_fold(content, ranges, strip).0),
        all_nonempty(seg_fold(content, ranges, false).0),
        all_nonempty(seg_fold(content, ranges, strip).0),
        seg_fold(content, ranges, true).0 == seg_fold(content, ranges, false).0.map_values(|x: SegmentV| unfence(x)),
        prose_text(seg_fold(content, ranges, false).0) == prose_fold(content, ranges).0,
    decreases ranges.len(),
{
    if ranges.len() > 0 {
        let pre = ranges.drop_last();
        let pl = if pre.len() == 0 {
            0
        } else {
            pre.last().1
        };
        if pre.len() > 0 {
            assert(pre.last() == ranges[ranges.len() - 2]);
        }
        lemma_seg_fold_shape(content, pre, pl, strip);
        lemma_seg_fold_shape(content, pre, pl, false);
        lemma_seg_fold_last(content, pre, strip, pl);
        lemma_seg_fold_last(content, pre, false, pl);
        lemma_seg_fold_last(content, pre, true, pl);
        lemma_prose_fold_last(content, pre, pl);
        let r = ranges.last();
        let t = content.subrange(pl, r.0);
        let code = content.subrange(r.0, r.1);
        let f = seg_fold(content, pre, false).0;
        let g = seg_fold(content, pre, true).0;
        let h = seg_fold(content, pre, strip).0;
        let f1 = if r.0 > pl { push_text_spec(f, t) } else { f };
        let g1 = if r.0 > pl { push_text_spec(g, t) } else { g };
        let h1 = if r.0 > pl { push_text_spec(h, t) } else { h };
        lemma_push_text_shape(f, t);
        lemma_push_text_shape(h, t);
        lemma_push_code_shape(h1, SegmentV::Code(code_text(code, strip)));
        lemma_push_code_shape(f1, SegmentV::Code(code));
        assert(f1.push(SegmentV::Code(code)).map_values(|x: SegmentV| unfence(x)) =~= f1.map_values(|x: SegmentV| unfence(x)).push(SegmentV::Code(code_text(code, true))));
        if r.0 <= pl {
            assert(t =~= Seq::<char>::empty());
        }
        assert(prose_fold(content, pre).0 + t + seq![' '] == prose_fold(content, ranges).0);
    }
}

/// The shape of a line's segments: no two text runs are neighbours, every text run holds
/// text, and so does every code run, backticks kept or stripped; stripping backticks only
/// unfences the code runs; and the prose the direction count reads is the segments' text
/// with each code run replaced by one space.
pub proof fn law_segment_shape(content: Seq<char>)
    ensures
        no_adjacent_text(segment_of(content, false)),
        no_adjacent_text(segment_of(content, true)),
        texts_nonempty(segment_of(content, false)),
        texts_nonempty(segment_of(content, true)),
        all_nonempty(segment_of(content, false)),
        all_nonempty(segment_of(content, true)),
        segment_of(content, true) == segment_of(content, false).map_values(|x: SegmentV| unfence(x)),
        prose_of(content) == prose_text(segment_of(content, false)),
{
    lemma_code_ranges_wf(content);
    let ranges = code_ranges_of(content);
    let last = if ranges.len() == 0 {
        0
    } else {
        ranges.last().1
    };
    lemma_seg_fold_shape(content, ranges, last, true);
    lemma_seg_fold_shape(content, ranges, last, false);
    lemma_seg_fold_last(content, ranges, true, last);
    lemma_seg_fold_last(content, ranges, false, last);
    lemma_prose_fold_last(content, ranges, last);
    let tail = content.subrange(last, content.len() as int);
    if content.len() > 0 {
        lemma_push_text_shape(seg_fold(content, ranges, false).0, tail);
        lemma_push_text_shape(seg_fold(content, ranges, true).0, tail);
        if last >= content.len() {
            assert(tail =~= Seq::<char>::empty());
        }
    } else {
        assert(ranges.len() == 0) by {
            if ranges.len() > 0 {
                assert(0 <= ranges[0].0 < ranges[0].1 <= 0);
            }
        }
        assert(segment_of(content, false).map_values(|x: SegmentV| unfence(x)) =~= Seq::<SegmentV>::empty());
        assert(prose_of(content) =~= Seq::<char>::empty());
    }
}


proof fn lemma_segs_text_clean(v: Seq<SegmentV>)
    requires
        crate::copyback::no_isolates(crate::model::segs_text(v)),
    ensures
        crate::copyback::segs_clean(v),
    decreases v.len(),
{
    if v.len() > 0 {
        let a = crate::model::segs_text(v.drop_last());
        let b = v.last().text();
        assert(crate::model::segs_text(v) == a + b);
        crate::copyback::lemma_clean_subrange(a + b, 0, a.len() as int);
        crate::copyback::lemma_clean_subrange(a + b, a.len() as int, (a + b).len() as int);
        assert((a + b).subrange(0, a.len() as int) =~= a);
        assert((a + b).subrange(a.len() as int, (a + b).len() as int) =~= b);
        lemma_segs_text_clean(v.drop_last());
        assert forall|j: int| 0 <= j < v.len() implies crate::copyback::no_isolates(#[trigger] v[j].text()) by {
            if j < v.len() - 1 {
                assert(v[j] == v.drop_last()[j]);
            }
        }
    }
}

/// The segments of a text without isolate controls carry none, backticks kept or stripped.
pub proof fn lemma_segments_clean(content: Seq<char>, strip: bool)
    requires
        crate::copyback::no_isolates(content),
    ensures
        crate::copyback::segs_clean(segment_of(content, strip)),
{
    law_segments_reassemble(content);
    law_segment_shape(content);
    let f = segment_of(content, false);
    lemma_segs_text_clean(f);
    if strip {
        let t = segment_of(content, true);
        assert forall|j: int| 0 <= j < t.len() implies crate::copyback::no_isolates(#[trigger] t[j].text()) by {
            assert(t[j] == unfence(f[j]));
            assert(crate::copyback::no_isolates(f[j].text()));
            let x = f[j].text();
            if x.len() > 2 {
                crate::copyback::lemma_clean_subrange(x, 1, x.len() - 1);
            }
        }
    }
}


// ------------------------------------------------------------------ code runs end clean

proof fn lemma_punct_trimmed_last(s: Seq<char>)
    requires
        punct_trimmed_len(s) > 0,
    ensures
        punct_trimmed_len(s) <= s.len(),
        !strips_last(s.take(punct_trimmed_len(s) as int)),
    decreases s.len(),
{
    lemma_punct_trimmed_len(s);
    if strips_last(s) {
        lemma_punct_trimmed_last(s.drop_last());
        assert(s.drop_last().take(punct_trimmed_len(s) as int) =~= s.take(punct_trimmed_len(s) as int));
    } else {
        assert(s.take(s.len() as int) =~= s);
    }
}

/// Every code range found ends on a character that is not sentence punctuation.
proof fn lemma_code_fold_ends(content: Seq<char>, ms: Seq<(usize, usize)>)
    ensures
        forall|j: int|
            0 <= j < code_fold(content, ms).0.len() ==> !strips_last(
                content.subrange((#[trigger] code_fold(content, ms).0[j]).0, code_fold(content, ms).0[j].1),
            ),
    decreases ms.len(),
{
    if ms.len() > 0 {
        lemma_code_fold_ends(content, ms.drop_last());
        lemma_code_fold_wf(content, ms);
        let m = ms.last();
        lemma_index_from_bound(content, m.0 as int, 0);
        lemma_index_from_bound(content, m.1 as int, 0);
        let st = code_fold(content, ms.drop_last());
        let out = code_fold(content, ms).0;
        match (char_index(content, m.0 as int), char_index(content, m.1 as int)) {
            (Some(a), Some(e)) => {
                if !(a < st.1 || e < a || !token_boundary(content, a)) {
                    let sub = content.subrange(a, e);
                    let n = punct_trimmed_len(sub);
                    if n > 0 && acceptable_token(content.subrange(a, a + n)) {
                        lemma_punct_trimmed_last(sub);
                        assert(sub.take(n as int) =~= content.subrange(a, a + n));
                        assert forall|j: int| 0 <= j < out.len() implies !strips_last(
                            content.subrange((#[trigger] out[j]).0, out[j].1),
                        ) by {
                            if j < st.0.len() {
                                assert(out[j] == st.0[j]);
                            }
                        }
                    }
                }
            },
            _ => {},
        }
    }
}

/// A code segment that is the text of one of the ranges.
pub open spec fn code_from_ranges(x: SegmentV, content: Seq<char>, ranges: Seq<(int, int)>) -> bool {
    x is Code ==> exists|j: int| 0 <= j < ranges.len() && x.text() == content.subrange((#[trigger] ranges[j]).0, ranges[j].1)
}

proof fn lemma_push_text_codes(segs: Seq<SegmentV>, t: Seq<char>)
    ensures
        forall|k: int|
            0 <= k < push_text_spec(segs, t).len() && (#[trigger] push_text_spec(segs, t)[k]) is Code ==> k
                < segs.len() && push_text_spec(segs, t)[k] == segs[k],
{
}

proof fn lemma_seg_fold_codes(content: Seq<char>, ranges: Seq<(int, int)>)
    ensures
        forall|k: int|
            0 <= k < seg_fold(content, ranges, false).0.len() ==> code_from_ranges(
                #[trigger] seg_fold(content, ranges, false).0[k],
                content,
                ranges,
            ),
    decreases ranges.len(),
{
    if ranges.len() > 0 {
        let pre = ranges.drop_last();
        lemma_seg_fold_codes(content, pre);
        let (segs, last) = seg_fold(content, pre, false);
        let r = ranges.last();
        let segs1 = if r.0 > last {
            push_text_spec(segs, content.subrange(last, r.0))
        } else {
            segs
        };
        lemma_push_text_codes(segs, content.subrange(last, r.0));
        let out = segs1.push(SegmentV::Code(code_text(content.subrange(r.0, r.1), false)));
        assert forall|k: int| 0 <= k < out.len() implies code_from_ranges(#[trigger] out[k], content, ranges) by {
            if k < segs1.len() {
                assert(out[k] == segs1[k]);
                if out[k] is Code {
                    assert(segs1[k] == segs[k]);
                    assert(code_from_ranges(segs[k], content, pre));
                    let j = choose|j: int| 0 <= j < pre.len() && segs[k].text() == content.subrange((#[trigger] pre[j]).0, pre[j].1);
                    assert(pre[j] == ranges[j]);
                }
            } else {
                assert(ranges[ranges.len() - 1] == r);
            }
        }
    }
}

proof fn lemma_unstripped_codes_end(content: Seq<char>)
    ensures
        forall|k: int|
            0 <= k < segment_of(content, false).len() && (#[trigger] segment_of(content, false)[k]) is Code
                ==> segment_of(content, false)[k].text().len() > 0 && !strips_last(segment_of(content, false)[k].text()),
{
    lemma_code_ranges_wf(content);
    let ranges = code_ranges_of(content);
    match regex_matches(CODE_PATTERN@, content) {
        Some(ms) => lemma_code_fold_ends(content, ms),
        None => {},
    }
    lemma_seg_fold_codes(content, ranges);
    let (segs, last) = seg_fold(content, ranges, false);
    let f = segment_of(content, false);
    if content.len() > 0 && last < content.len() {
        lemma_push_text_codes(segs, content.subrange(last, content.len() as int));
    }
    assert forall|k: int| 0 <= k < f.len() && (#[trigger] f[k]) is Code implies f[k].text().len() > 0
        && !strips_last(f[k].text()) by {
        assert(f[k] == segs[k]);
        assert(code_from_ranges(segs[k], content, ranges));
        let j = choose|j: int| 0 <= j < ranges.len() && segs[k].text() == content.subrange((#[trigger] ranges[j]).0, ranges[j].1);
        let rj = ranges[j];
        assert(0 <= rj.0 < rj.1 <= content.len());
    }
}

/// Trailing punctuation never stays in a code run: every code run of a line ends on a
/// character other than `.` `,` `:` `;` `!` `?` `،` `؛` `؟` `»`, and when it ends on a
/// closing bracket the run also holds at least as many of the matching opening bracket;
/// what was pushed out is given back to the text around it. With backticks stripped, the
/// one exception is a run that was fenced in backticks, whose inside is kept as written.
pub proof fn law_code_runs_give_back_punctuation(content: Seq<char>, strip: bool, k: int)
    requires
        0 <= k < segment_of(content, strip).len(),
    ensures
        segment_of(content, strip)[k] matches SegmentV::Code(t) ==> t.len() > 0 && ({
            let c = t.last();
            &&& !(c == '.' || c == ',' || c == ':' || c == ';' || c == '!' || c == '?' || c == '،' || c == '؛'
                || c == '؟' || c == '»')
            &&& c == ')' ==> count_of(t, '(') >= count_of(t, ')')
            &&& c == ']' ==> count_of(t, '[') >= count_of(t, ']')
            &&& c == '}' ==> count_of(t, '{') >= count_of(t, '}')
        } || (strip && segment_of(content, false)[k] == SegmentV::Code(seq!['`'] + t + seq!['`']))),
{
    law_segment_shape(content);
    lemma_unstripped_codes_end(content);
    let f = segment_of(content, false);
    assert(f.len() == segment_of(content, strip).len());
    if f[k] is Code {
        let t0 = f[k].text();
        assert(t0.len() > 0 && !strips_last(t0));
        if strip {
            assert(segment_of(content, true)[k] == unfence(f[k]));
            if t0.len() > 2 && t0[0] == '`' && t0.last() == '`' {
                let inner = t0.subrange(1, t0.len() - 1);
                assert(seq!['`'] + inner + seq!['`'] =~= t0);
            }
        }
    }

}

} // verus!
