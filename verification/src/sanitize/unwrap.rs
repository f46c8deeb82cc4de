//! Rejoin lines the terminal broke mid-sentence.
//!
//! A terminal hard-wraps at its column width, so one Persian sentence arrives as several
//! lines. Every rule here is a veto: false negatives leave a line wrapped, which is merely
//! the status quo; a false positive welds together two lines that were meant to be
//! separate, which destroys information.

use vstd::prelude::*;
use crate::bidi::{RawLine, RawLineV, raw_lines_view};
use crate::text::{
    all_whitespace, all_ws, chars_of, push_all, string_of, trim_end, trim_start, trimmed_end,
    trimmed_start, words,
};
use crate::width::{display_width, width_of};

verus! {

/// A wrapped line is, by construction, close to the terminal's width. Anything shorter is
/// a deliberately short line.
pub const MIN_WRAP_WIDTH: usize = 40;

/// The content, once trailing whitespace is dropped, ends with sentence punctuation.
pub open spec fn ends_sentence(content: Seq<char>) -> bool {
    let t = trim_end(content);
    t.len() > 0 && {
        let c = t.last();
        c == '.' || c == '!' || c == '?' || c == ':' || c == '؛' || c == '؟' || c == '۔' || c == '。'
    }
}

fn ends_sentence_exec(content: &[char]) -> (r: bool)
    ensures
        r == ends_sentence(content@),
{
    let t = trimmed_end(content);
    if t.len() == 0 {
        return false;
    }
    let c = t[t.len() - 1];
    c == '.' || c == '!' || c == '?' || c == ':' || c == '؛' || c == '؟' || c == '۔' || c == '。'
}

/// Two lines can only belong to the same paragraph if they share their structure exactly:
/// the same lead, no table row, no frame, no code, no tail, and text on both.
pub open spec fn same_block(a: RawLineV, b: RawLineV) -> bool {
    a.lead == b.lead && a.row is None && b.row is None && !a.boxed && !b.boxed && !a.in_code
        && !b.in_code && a.tail.len() == 0 && b.tail.len() == 0 && !all_ws(a.content) && !all_ws(
        b.content,
    )
}

/// A line looks hard-wrapped when it is at least 40 columns wide and within 90% of the
/// paragraph's widest line (`10 * width >= 9 * widest`), does not end a sentence, and the
/// next line runs in the same direction.
pub open spec fn joinable(cur: RawLineV, next: RawLineV, max_width: int) -> bool {
    let w = display_width(cur.content) as int;
    w >= MIN_WRAP_WIDTH && 10 * w >= 9 * max_width && !ends_sentence(cur.content) && cur.dir
        == next.dir
}

/// The end of the paragraph that starts at `start`, scanning from `end`.
pub open spec fn group_end(lines: Seq<RawLineV>, start: int, end: int) -> int
    decreases lines.len() - end,
{
    if 0 <= start < lines.len() && 0 <= end < lines.len() && same_block(lines[start], lines[end]) {
        group_end(lines, start, end + 1)
    } else {
        end
    }
}

/// The widest content in a run of lines.
pub open spec fn widest(g: Seq<RawLineV>) -> int
    decreases g.len(),
{
    if g.len() == 0 {
        0
    } else {
        let p = widest(g.drop_last());
        let w = display_width(g.last().content) as int;
        if w > p {
            w
        } else {
            p
        }
    }
}

/// Two lines welded into one: the first without its trailing whitespace, a space, the
/// second without its leading whitespace.
pub open spec fn weld(cur: RawLineV, next: RawLineV) -> RawLineV {
    RawLineV {
        content: trim_end(cur.content) + seq![' '] + trim_start(next.content),
        ..cur
    }
}

/// Merge the lines of a paragraph: `(finished lines, line being built)`.
pub open spec fn merge_fold(g: Seq<RawLineV>, max_width: int) -> (Seq<RawLineV>, RawLineV)
    decreases g.len(),
{
    if g.len() <= 1 {
        (Seq::empty(), g[0])
    } else {
        let (out, cur) = merge_fold(g.drop_last(), max_width);
        let line = g.last();
        if joinable(cur, line, max_width) {
            (out, weld(cur, line))
        } else {
            (out.push(cur), line)
        }
    }
}

pub open spec fn merge_group(g: Seq<RawLineV>) -> Seq<RawLineV> {
    let (out, cur) = merge_fold(g, widest(g));
    out.push(cur)
}

/// The lines from `i` on, with every paragraph of two or more lines merged.
pub open spec fn unwrap_from(lines: Seq<RawLineV>, i: int) -> Seq<RawLineV>
    decreases lines.len() - i,
{
    if i < 0 || i >= lines.len() {
        Seq::empty()
    } else {
        let end = group_end(lines, i, i + 1);
        if end <= i || end > lines.len() {
            Seq::empty()
        } else if end - i < 2 {
            seq![lines[i]] + unwrap_from(lines, end)
        } else {
            merge_group(lines.subrange(i, end)) + unwrap_from(lines, end)
        }
    }
}

pub open spec fn unwrap_of(lines: Seq<RawLineV>) -> Seq<RawLineV> {
    unwrap_from(lines, 0)
}

proof fn lemma_group_end(lines: Seq<RawLineV>, start: int, end: int)
    requires
        0 <= start < end <= lines.len(),
    ensures
        end <= group_end(lines, start, end) <= lines.len(),
    decreases lines.len() - end,
{
    if end < lines.len() && same_block(lines[start], lines[end]) {
        lemma_group_end(lines, start, end + 1);
    }
}

fn same_block_exec(a: &RawLine, b: &RawLine) -> (r: bool)
    ensures
        r == same_block(a@, b@),
{
    if a.lead != b.lead || a.row.is_some() || b.row.is_some() || a.boxed || b.boxed || a.in_code
        || b.in_code || !a.tail.as_str().is_empty() || !b.tail.as_str().is_empty() {
        return false;
    }
    let ac = chars_of(a.content.as_str());
    let bc = chars_of(b.content.as_str());
    !all_whitespace(&ac) && !all_whitespace(&bc)
}

fn content_width(l: &RawLine) -> (r: usize)
    ensures
        r == display_width(l@.content),
{
    let c = chars_of(l.content.as_str());
    width_of(&c)
}

fn joinable_exec(cur: &RawLine, next: &RawLine, max_width: usize) -> (r: bool)
    ensures
        r == joinable(cur@, next@, max_width as int),
{
    let w = content_width(cur);
    let c = chars_of(cur.content.as_str());
    w >= MIN_WRAP_WIDTH && (w as u128) * 10 >= (max_width as u128) * 9 && !ends_sentence_exec(&c)
        && cur.dir == next.dir
}

fn weld_exec(cur: &RawLine, next: &RawLine) -> (r: RawLine)
    ensures
        r@ == weld(cur@, next@),
{
    let a = chars_of(cur.content.as_str());
    let b = chars_of(next.content.as_str());
    let mut content = trimmed_end(&a);
    content.push(' ');
    let tb = trimmed_start(&b);
    push_all(&mut content, &tb);
    assert(content@ =~= trim_end(cur@.content) + seq![' '] + trim_start(next@.content));
    let mut out = cur.duplicate();
    out.content = string_of(&content);
    out
}

/// Merge hard-wrapped continuation lines within each paragraph.
pub fn soft_unwrap(lines: Vec<RawLine>) -> (r: Vec<RawLine>)
    ensures
        raw_lines_view(r@) == unwrap_of(raw_lines_view(lines@)),
{
    let ghost lv = raw_lines_view(lines@);
    let mut out: Vec<RawLine> = Vec::new();
    let mut i: usize = 0;
    let n = lines.len();
    while i < n
        invariant
            i <= n == lines@.len() == lv.len(),
            lv == raw_lines_view(lines@),
            raw_lines_view(out@) + unwrap_from(lv, i as int) == unwrap_of(lv),
        decreases n - i,
    {
        let start = i;
        let mut end = i + 1;
        proof {
            lemma_group_end(lv, start as int, end as int);
        }
        while end < n && same_block_exec(&lines[start], &lines[end])
            invariant
                start < end <= n == lines@.len() == lv.len(),
                lv == raw_lines_view(lines@),
                group_end(lv, start as int, start + 1) == group_end(lv, start as int, end as int),
            decreases n - end,
        {
            assert(lv[start as int] == lines@[start as int]@);
            assert(lv[end as int] == lines@[end as int]@);
            end += 1;
        }
        proof {
            if end < n {
                assert(lv[start as int] == lines@[start as int]@);
                assert(lv[end as int] == lines@[end as int]@);
            }
        }
        let ghost ob = raw_lines_view(out@);
        if end - start < 2 {
            let l = lines[start].duplicate();
            assert(lv[start as int] == lines@[start as int]@);
            out.push(l);
            assert(raw_lines_view(out@) =~= ob.push(l@));
            assert(raw_lines_view(out@) + unwrap_from(lv, end as int) =~= ob + (seq![lv[start as int]] + unwrap_from(lv, end as int)));
            i = end;
            continue;
        }
        let ghost g = lv.subrange(start as int, end as int);
        let mut max_width: usize = 0;
        let mut k = start;
        while k < end
            invariant
                start <= k <= end <= n == lines@.len() == lv.len(),
                lv == raw_lines_view(lines@),
                g == lv.subrange(start as int, end as int),
                max_width == widest(g.take(k - start)),
            decreases end - k,
        {
            assert(g.take(k + 1 - start).drop_last() =~= g.take(k - start));
            assert(g[k - start] == lines@[k as int]@);
            let w = content_width(&lines[k]);
            if w > max_width {
                max_width = w;
            }
            k += 1;
        }
        assert(g.take(end - start) =~= g);
        let mut cur = lines[start].duplicate();
        let mut built: Vec<RawLine> = Vec::new();
        let mut k = start + 1;
        assert(g.take(1).drop_last().len() == 0);
        assert(g[0] == lines@[start as int]@);
        while k < end
            invariant
                start < k <= end <= n == lines@.len() == lv.len(),
                lv == raw_lines_view(lines@),
                g == lv.subrange(start as int, end as int),
                max_width == widest(g),
                (raw_lines_view(built@), cur@) == merge_fold(g.take(k - start), max_width as int),
            decreases end - k,
        {
            assert(g.take(k + 1 - start).drop_last() =~= g.take(k - start));
            assert(g.take(k + 1 - start).last() == lines@[k as int]@);
            let line = &lines[k];
            if joinable_exec(&cur, line, max_width) {
                cur = weld_exec(&cur, line);
            } else {
                let ghost bb = raw_lines_view(built@);
                let next = line.duplicate();
                built.push(cur);
                assert(raw_lines_view(built@) =~= bb.push(merge_fold(g.take(k - start), max_width as int).1));
                cur = next;
            }
            k += 1;
        }
        assert(g.take(end - start) =~= g);
        let ghost bb = raw_lines_view(built@);
        built.push(cur);
        assert(raw_lines_view(built@) =~= merge_group(g));
        let mut j: usize = 0;
        let ghost base = raw_lines_view(out@);
        while j < built.len()
            invariant
                j <= built@.len(),
                raw_lines_view(out@) == base + raw_lines_view(built@).take(j as int),
            decreases built@.len() - j,
        {
            let l = built[j].duplicate();
            let ghost before = raw_lines_view(out@);
            out.push(l);
            assert(raw_lines_view(out@) =~= before.push(l@));
            j += 1;
            assert(raw_lines_view(built@).take(j as int) =~= raw_lines_view(built@).take(j - 1).push(built@[j - 1]@));
        }
        assert(raw_lines_view(built@).take(built@.len() as int) =~= raw_lines_view(built@));
        assert(raw_lines_view(out@) + unwrap_from(lv, end as int) =~= base + (merge_group(g) + unwrap_from(lv, end as int)));
        i = end;
    }
    out
}

// ------------------------------------------------------------------ laws

proof fn lemma_merge_fold_len(g: Seq<RawLineV>, m: int)
    requires
        g.len() >= 1,
    ensures
        merge_fold(g, m).0.len() + 1 <= g.len(),
    decreases g.len(),
{
    if g.len() > 1 {
        lemma_merge_fold_len(g.drop_last(), m);
    }
}

proof fn lemma_unwrap_from_len(lines: Seq<RawLineV>, i: int)
    requires
        0 <= i <= lines.len(),
    ensures
        unwrap_from(lines, i).len() <= lines.len() - i,
    decreases lines.len() - i,
{
    if i < lines.len() {
        let end = group_end(lines, i, i + 1);
        lemma_group_end(lines, i, i + 1);
        lemma_unwrap_from_len(lines, end);
        if end - i >= 2 {
            lemma_merge_fold_len(lines.subrange(i, end), widest(lines.subrange(i, end)));
        }
    }
}

proof fn lemma_unwrap_from_frozen(lines: Seq<RawLineV>, i: int)
    requires
        0 <= i <= lines.len(),
        forall|k: int| 0 <= k < lines.len() ==> (#[trigger] lines[k]).boxed || lines[k].in_code || lines[k].row is Some,
    ensures
        unwrap_from(lines, i) == lines.skip(i),
    decreases lines.len() - i,
{
    if i < lines.len() {
        if i + 1 < lines.len() {
            assert(!same_block(lines[i], lines[i + 1]));
        }
        assert(group_end(lines, i, i + 1) == i + 1);
        lemma_unwrap_from_frozen(lines, i + 1);
        assert(seq![lines[i]] + lines.skip(i + 1) =~= lines.skip(i));
    } else {
        assert(lines.skip(i) =~= Seq::<RawLineV>::empty());
    }
}

/// Unwrapping only ever merges: the output never has more lines than the input, and
/// lines that are boxed, in code or table rows are never joined, so an input made only
/// of such lines comes back unchanged.
pub proof fn law_unwrap_only_merges(lines: Seq<RawLineV>)
    ensures
        unwrap_of(lines).len() <= lines.len(),
        (forall|k: int| 0 <= k < lines.len() ==> (#[trigger] lines[k]).boxed || lines[k].in_code || lines[k].row is Some)
            ==> unwrap_of(lines) == lines,
{
    lemma_unwrap_from_len(lines, 0);
    if forall|k: int| 0 <= k < lines.len() ==> (#[trigger] lines[k]).boxed || lines[k].in_code || lines[k].row is Some {
        lemma_unwrap_from_frozen(lines, 0);
        assert(lines.skip(0) =~= lines);
    }
}


/// A line unwrapping must leave alone: a table row, a boxed row, a code line, a line with
/// a tail, or a line with no text.
pub open spec fn untouchable(l: RawLineV) -> bool {
    l.row is Some || l.boxed || l.in_code || l.tail.len() > 0 || all_ws(l.content)
}

/// The untouchable lines of a run, in order.
pub open spec fn untouched(s: Seq<RawLineV>) -> Seq<RawLineV>
    decreases s.len(),
{
    if s.len() == 0 {
        Seq::empty()
    } else if untouchable(s.last()) {
        untouched(s.drop_last()).push(s.last())
    } else {
        untouched(s.drop_last())
    }
}

proof fn lemma_untouched_add(a: Seq<RawLineV>, b: Seq<RawLineV>)
    ensures
        untouched(a + b) == untouched(a) + untouched(b),
    decreases b.len(),
{
    if b.len() == 0 {
        assert(a + b =~= a);
        assert(untouched(a) + untouched(b) =~= untouched(a));
    } else {
        lemma_untouched_add(a, b.drop_last());
        assert((a + b).drop_last() =~= a + b.drop_last());
        assert((a + b).last() == b.last());
    }
}

proof fn lemma_untouched_none(s: Seq<RawLineV>)
    requires
        forall|k: int| 0 <= k < s.len() ==> !untouchable(#[trigger] s[k]),
    ensures
        untouched(s) == Seq::<RawLineV>::empty(),
    decreases s.len(),
{
    if s.len() > 0 {
        assert(!untouchable(s[s.len() - 1]));
        lemma_untouched_none(s.drop_last());
    }
}

proof fn lemma_group_members(lines: Seq<RawLineV>, start: int, end: int)
    requires
        0 <= start < end <= lines.len(),
        forall|k: int| start < k < end ==> same_block(lines[start], #[trigger] lines[k]),
    ensures
        forall|k: int| start < k < group_end(lines, start, end) ==> same_block(lines[start], #[trigger] lines[k]),
    decreases lines.len() - end,
{
    if end < lines.len() && same_block(lines[start], lines[end]) {
        lemma_group_members(lines, start, end + 1);
    }
}

proof fn lemma_trim_end_keeps_text(s: Seq<char>)
    requires
        !all_ws(s),
    ensures
        !all_ws(trim_end(s)),
{
    let k = choose|k: int| 0 <= k < s.len() && !crate::text::is_ws(s[k]);
    crate::text::lemma_trimmed_end_len(s);
    assert(k < crate::text::trimmed_end_len(s));
    assert(trim_end(s)[k] == s[k]);
}

proof fn lemma_merge_fold_smooth(g: Seq<RawLineV>, m: int)
    requires
        g.len() >= 1,
        forall|k: int| 0 <= k < g.len() ==> !untouchable(#[trigger] g[k]),
    ensures
        forall|k: int| 0 <= k < merge_fold(g, m).0.len() ==> !untouchable(#[trigger] merge_fold(g, m).0[k]),
        !untouchable(merge_fold(g, m).1),
    decreases g.len(),
{
    if g.len() > 1 {
        assert forall|k: int| 0 <= k < g.drop_last().len() implies !untouchable(#[trigger] g.drop_last()[k]) by {
            assert(g.drop_last()[k] == g[k]);
        }
        lemma_merge_fold_smooth(g.drop_last(), m);
        let (out, cur) = merge_fold(g.drop_last(), m);
        let line = g.last();
        assert(!untouchable(g[g.len() - 1]));
        if joinable(cur, line, m) {
            let w = weld(cur, line);
            lemma_trim_end_keeps_text(cur.content);
            let t = trim_end(cur.content);
            let k = choose|k: int| 0 <= k < t.len() && !crate::text::is_ws(t[k]);
            assert(w.content[k] == t[k]);
        } else {
            assert forall|k: int| 0 <= k < out.push(cur).len() implies !untouchable(#[trigger] out.push(cur)[k]) by {
                if k < out.len() {
                    assert(out.push(cur)[k] == out[k]);
                }
            }
        }
    } else {
        assert(g[0] == g[0]);
    }
}

proof fn lemma_unwrap_from_untouched(lines: Seq<RawLineV>, i: int)
    requires
        0 <= i <= lines.len(),
    ensures
        untouched(unwrap_from(lines, i)) == untouched(lines.skip(i)),
        (unwrap_from(lines, i).len() == 0) == (i == lines.len()),
    decreases lines.len() - i,
{
    if i < lines.len() {
        let end = group_end(lines, i, i + 1);
        lemma_group_end(lines, i, i + 1);
        lemma_unwrap_from_untouched(lines, end);
        let rest = unwrap_from(lines, end);
        assert(lines.skip(i) =~= lines.subrange(i, end) + lines.skip(end));
        lemma_untouched_add(lines.subrange(i, end), lines.skip(end));
        if end - i < 2 {
            assert(lines.subrange(i, end) =~= seq![lines[i]]);
            lemma_untouched_add(seq![lines[i]], rest);
            assert(seq![lines[i]].drop_last() =~= Seq::<RawLineV>::empty());
        } else {
            let g = lines.subrange(i, end);
            lemma_group_members(lines, i, i + 1);
            assert forall|k: int| 0 <= k < g.len() implies !untouchable(#[trigger] g[k]) by {
                assert(g[k] == lines[i + k]);
                if k == 0 {
                    assert(same_block(lines[i], lines[i + 1]));
                } else {
                    assert(same_block(lines[i], lines[i + k]));
                }
            }
            lemma_untouched_none(g);
            lemma_merge_fold_smooth(g, widest(g));
            let mg = merge_group(g);
            let (out, cur) = merge_fold(g, widest(g));
            assert forall|k: int| 0 <= k < mg.len() implies !untouchable(#[trigger] mg[k]) by {
                if k < out.len() {
                    assert(mg[k] == out[k]);
                }
            }
            lemma_untouched_none(mg);
            lemma_untouched_add(mg, rest);
        }
    } else {
        assert(lines.skip(i) =~= Seq::<RawLineV>::empty());
    }
}

/// Unwrapping leaves alone what it must: the table rows, boxed rows, code lines, lines
/// with a tail and lines without text come out exactly as they went in and in the same
/// order, and no other line becomes one of them; and only an empty input unwraps to
/// nothing.
pub proof fn law_unwrap_leaves_untouchable_lines(lines: Seq<RawLineV>)
    ensures
        untouched(unwrap_of(lines)) == untouched(lines),
        (unwrap_of(lines).len() == 0) == (lines.len() == 0),
{
    lemma_unwrap_from_untouched(lines, 0);
    assert(lines.skip(0) =~= lines);
}


proof fn lemma_untouched_contains(s: Seq<RawLineV>, x: RawLineV)
    ensures
        untouched(s).contains(x) <==> (s.contains(x) && untouchable(x)),
    decreases s.len(),
{
    if s.len() > 0 {
        let init = s.drop_last();
        lemma_untouched_contains(init, x);
        if init.contains(x) {
            let k = choose|k: int| 0 <= k < init.len() && init[k] == x;
            assert(s[k] == x);
        }
        if s.contains(x) {
            let k = choose|k: int| 0 <= k < s.len() && s[k] == x;
            if k < init.len() {
                assert(init[k] == x);
            }
        }
        let u = untouched(init);
        if untouchable(s.last()) {
            assert(untouched(s) == u.push(s.last()));
            if u.push(s.last()).contains(x) {
                let k = choose|k: int| 0 <= k < u.push(s.last()).len() && u.push(s.last())[k] == x;
                if k < u.len() {
                    assert(u[k] == x);
                }
            }
            if u.contains(x) {
                let k = choose|k: int| 0 <= k < u.len() && u[k] == x;
                assert(u.push(s.last())[k] == x);
            }
            if x == s.last() {
                assert(u.push(s.last())[u.len() as int] == x);
            }
        }
    } else {
        assert(!s.contains(x));
    }
}

/// Every line of the unwrapped text that unwrapping must leave alone is a line of the
/// input.
pub proof fn lemma_unwrap_untouchable_from_input(lines: Seq<RawLineV>, x: RawLineV)
    requires
        unwrap_of(lines).contains(x),
        untouchable(x),
    ensures
        lines.contains(x),
{
    law_unwrap_leaves_untouchable_lines(lines);
    lemma_untouched_contains(unwrap_of(lines), x);
    lemma_untouched_contains(lines, x);
}


// ------------------------------------------------------------------ words

/// The words of every line's content, line after line.
pub open spec fn line_words(ls: Seq<RawLineV>) -> Seq<Seq<char>>
    decreases ls.len(),
{
    if ls.len() == 0 {
        Seq::empty()
    } else {
        line_words(ls.drop_last()) + words(ls.last().content)
    }
}

proof fn lemma_line_words_add(a: Seq<RawLineV>, b: Seq<RawLineV>)
    ensures
        line_words(a + b) == line_words(a) + line_words(b),
    decreases b.len(),
{
    if b.len() == 0 {
        assert(a + b =~= a);
        assert(line_words(a) + line_words(b) =~= line_words(a));
    } else {
        lemma_line_words_add(a, b.drop_last());
        assert((a + b).drop_last() =~= a + b.drop_last());
        assert((a + b).last() == b.last());
        assert(line_words(a + b) =~= line_words(a) + line_words(b));
    }
}

/// Welding keeps the words of both lines, in order.
proof fn lemma_weld_words(cur: RawLineV, next: RawLineV)
    ensures
        words(weld(cur, next).content) == words(cur.content) + words(next.content),
{
    crate::text::lemma_words_split(trim_end(cur.content), ' ', trim_start(next.content));
    crate::text::lemma_words_trim(cur.content);
    crate::text::lemma_words_trim(next.content);
}

proof fn lemma_merge_fold_words(g: Seq<RawLineV>, m: int)
    requires
        g.len() >= 1,
    ensures
        line_words(merge_fold(g, m).0) + words(merge_fold(g, m).1.content) == line_words(g),
    decreases g.len(),
{
    if g.len() > 1 {
        lemma_merge_fold_words(g.drop_last(), m);
        let (out, cur) = merge_fold(g.drop_last(), m);
        let line = g.last();
        if joinable(cur, line, m) {
            lemma_weld_words(cur, line);
            assert(line_words(out) + words(weld(cur, line).content) =~= line_words(g));
        } else {
            assert(out.push(cur).drop_last() =~= out);
            assert(line_words(out.push(cur)) + words(line.content) =~= line_words(g));
        }
    } else {
        assert(g.drop_last() =~= Seq::<RawLineV>::empty());
        assert(line_words(Seq::<RawLineV>::empty()) + words(g[0].content) =~= line_words(g));
    }
}

proof fn lemma_unwrap_from_words(lines: Seq<RawLineV>, i: int)
    requires
        0 <= i <= lines.len(),
    ensures
        line_words(unwrap_from(lines, i)) == line_words(lines.skip(i)),
    decreases lines.len() - i,
{
    if i < lines.len() {
        let end = group_end(lines, i, i + 1);
        lemma_group_end(lines, i, i + 1);
        lemma_unwrap_from_words(lines, end);
        let rest = unwrap_from(lines, end);
        let g = lines.subrange(i, end);
        assert(lines.skip(i) =~= g + lines.skip(end));
        lemma_line_words_add(g, lines.skip(end));
        if end - i < 2 {
            assert(g =~= seq![lines[i]]);
            lemma_line_words_add(seq![lines[i]], rest);
        } else {
            lemma_merge_fold_words(g, widest(g));
            let (out, cur) = merge_fold(g, widest(g));
            assert(out.push(cur).drop_last() =~= out);
            lemma_line_words_add(merge_group(g), rest);
        }
    } else {
        assert(lines.skip(i) =~= Seq::<RawLineV>::empty());
    }
}

/// Unwrapping never drops, adds or reorders a word: the whitespace-separated words of all
/// the lines, read in order, are the same before and after.
pub proof fn law_unwrap_keeps_the_words(lines: Seq<RawLineV>)
    ensures
        line_words(unwrap_of(lines)) == line_words(lines),
{
    lemma_unwrap_from_words(lines, 0);
    assert(lines.skip(0) =~= lines);
}


/// Two lines that agree in everything but their content.
pub open spec fn alike(x: RawLineV, y: RawLineV) -> bool {
    x.dir == y.dir && x.lead == y.lead && x.tail == y.tail && x.boxed == y.boxed && x.in_code
        == y.in_code && x.row == y.row
}

// ------------------------------------------------------------------ origins

/// Where each line of a merged paragraph starts in the paragraph: `(finished, building)`.
pub open spec fn merge_origin(g: Seq<RawLineV>, m: int) -> (Seq<int>, int)
    decreases g.len(),
{
    if g.len() <= 1 {
        (Seq::empty(), 0)
    } else {
        let (oo, co) = merge_origin(g.drop_last(), m);
        let (out, cur) = merge_fold(g.drop_last(), m);
        if joinable(cur, g.last(), m) {
            (oo, co)
        } else {
            (oo.push(co), g.len() - 1)
        }
    }
}

/// The positions rise strictly.
pub open spec fn increasing(o: Seq<int>) -> bool {
    forall|a: int, b: int| 0 <= a < b < o.len() ==> #[trigger] o[a] < #[trigger] o[b]
}

proof fn lemma_merge_origin(g: Seq<RawLineV>, m: int)
    requires
        g.len() >= 1,
    ensures
        merge_origin(g, m).0.len() == merge_fold(g, m).0.len(),
        increasing(merge_origin(g, m).0),
        forall|k: int| 0 <= k < merge_origin(g, m).0.len() ==> 0 <= #[trigger] merge_origin(g, m).0[k] < merge_origin(g, m).1,
        0 <= merge_origin(g, m).1 < g.len(),
        forall|k: int| 0 <= k < merge_fold(g, m).0.len() ==> alike(#[trigger] merge_fold(g, m).0[k], g[merge_origin(g, m).0[k]]),
        alike(merge_fold(g, m).1, g[merge_origin(g, m).1]),
    decreases g.len(),
{
    if g.len() > 1 {
        let init = g.drop_last();
        lemma_merge_origin(init, m);
        let (oo, co) = merge_origin(init, m);
        let (out, cur) = merge_fold(init, m);
        let line = g.last();
        assert forall|k: int| 0 <= k < out.len() implies alike(#[trigger] out[k], g[oo[k]]) by {
            assert(alike(out[k], init[oo[k]]));
            assert(g[oo[k]] == init[oo[k]]);
        }
        assert(g[co] == init[co]);
        if !joinable(cur, line, m) {
            let o2 = oo.push(co);
            let out2 = out.push(cur);
            assert forall|a: int, b: int| 0 <= a < b < o2.len() implies #[trigger] o2[a] < #[trigger] o2[b] by {
                if b < oo.len() {
                    assert(o2[a] == oo[a] && o2[b] == oo[b]);
                } else {
                    assert(o2[a] == oo[a]);
                }
            }
            assert forall|k: int| 0 <= k < out2.len() implies alike(#[trigger] out2[k], g[o2[k]]) by {
                if k < out.len() {
                    assert(out2[k] == out[k] && o2[k] == oo[k]);
                }
            }
            assert forall|k: int| 0 <= k < o2.len() implies 0 <= #[trigger] o2[k] < g.len() - 1 by {
                if k < oo.len() {
                    assert(o2[k] == oo[k]);
                }
            }
            assert(alike(line, g[g.len() - 1]));
        }
    }
}

/// For each line of `unwrap_from(lines, i)`, the position of the input line it comes from.
pub open spec fn unwrap_origin(lines: Seq<RawLineV>, i: int) -> Seq<int>
    decreases lines.len() - i,
{
    if i < 0 || i >= lines.len() {
        Seq::empty()
    } else {
        let end = group_end(lines, i, i + 1);
        if end <= i || end > lines.len() {
            Seq::empty()
        } else if end - i < 2 {
            seq![i] + unwrap_origin(lines, end)
        } else {
            let g = lines.subrange(i, end);
            let (oo, co) = merge_origin(g, widest(g));
            oo.push(co).map_values(|x: int| x + i) + unwrap_origin(lines, end)
        }
    }
}

proof fn lemma_unwrap_origin(lines: Seq<RawLineV>, i: int)
    requires
        0 <= i <= lines.len(),
    ensures
        unwrap_origin(lines, i).len() == unwrap_from(lines, i).len(),
        increasing(unwrap_origin(lines, i)),
        forall|k: int| 0 <= k < unwrap_origin(lines, i).len() ==> i <= #[trigger] unwrap_origin(lines, i)[k] < lines.len(),
        forall|k: int|
            0 <= k < unwrap_from(lines, i).len() ==> alike(#[trigger] unwrap_from(lines, i)[k], lines[unwrap_origin(lines, i)[k]]),
    decreases lines.len() - i,
{
    if i < lines.len() {
        let end = group_end(lines, i, i + 1);
        lemma_group_end(lines, i, i + 1);
        lemma_unwrap_origin(lines, end);
        let ro = unwrap_origin(lines, end);
        let rest = unwrap_from(lines, end);
        let g = lines.subrange(i, end);
        let (ho, head) = if end - i < 2 {
            (seq![i], seq![lines[i]])
        } else {
            let (oo, co) = merge_origin(g, widest(g));
            (oo.push(co).map_values(|x: int| x + i), merge_group(g))
        };
        assert(unwrap_origin(lines, i) == ho + ro);
        assert(unwrap_from(lines, i) == head + rest);
        if end - i < 2 {
            assert(alike(lines[i], lines[i]));
        } else {
            lemma_merge_origin(g, widest(g));
            let (oo, co) = merge_origin(g, widest(g));
            let (out, cur) = merge_fold(g, widest(g));
            assert forall|k: int| 0 <= k < head.len() implies alike(#[trigger] head[k], lines[ho[k]]) && i <= ho[k] < end by {
                if k < out.len() {
                    assert(head[k] == out[k]);
                    assert(ho[k] == oo[k] + i);
                    assert(lines[oo[k] + i] == g[oo[k]]);
                } else {
                    assert(head[k] == cur);
                    assert(ho[k] == co + i);
                    assert(lines[co + i] == g[co]);
                }
            }
            assert forall|a: int, b: int| 0 <= a < b < ho.len() implies #[trigger] ho[a] < #[trigger] ho[b] by {
                if b < oo.len() {
                    assert(ho[a] == oo[a] + i && ho[b] == oo[b] + i);
                } else {
                    assert(ho[a] == oo[a] + i && ho[b] == co + i);
                }
            }
        }
        let o = ho + ro;
        let all = head + rest;
        assert forall|k: int| 0 <= k < o.len() implies i <= #[trigger] o[k] < lines.len() by {
            if k < ho.len() {
                assert(o[k] == ho[k]);
            } else {
                assert(o[k] == ro[k - ho.len()]);
            }
        }
        assert forall|a: int, b: int| 0 <= a < b < o.len() implies #[trigger] o[a] < #[trigger] o[b] by {
            if b < ho.len() {
                assert(o[a] == ho[a] && o[b] == ho[b]);
            } else if a < ho.len() {
                assert(o[a] == ho[a] && o[b] == ro[b - ho.len()]);
                assert(ro[b - ho.len()] >= end);
            } else {
                assert(o[a] == ro[a - ho.len()] && o[b] == ro[b - ho.len()]);
            }
        }
        assert forall|k: int| 0 <= k < all.len() implies alike(#[trigger] all[k], lines[o[k]]) by {
            if k < head.len() {
                assert(all[k] == head[k] && o[k] == ho[k]);
            } else {
                assert(all[k] == rest[k - head.len()] && o[k] == ro[k - ho.len()]);
            }
        }
    }
}

/// Every line unwrapping gives back comes from a line it was given, agreeing with it in
/// everything but content, and the lines come back in the order they went in.
pub proof fn law_unwrap_keeps_line_order(lines: Seq<RawLineV>)
    ensures
        unwrap_origin(lines, 0).len() == unwrap_of(lines).len(),
        increasing(unwrap_origin(lines, 0)),
        forall|k: int| 0 <= k < unwrap_origin(lines, 0).len() ==> 0 <= #[trigger] unwrap_origin(lines, 0)[k] < lines.len(),
        forall|k: int| 0 <= k < unwrap_of(lines).len() ==> alike(#[trigger] unwrap_of(lines)[k], lines[unwrap_origin(lines, 0)[k]]),
{
    lemma_unwrap_origin(lines, 0);
}


// ------------------------------------------------------------------ isolate controls

/// No line's content holds an isolate control.
pub open spec fn contents_clean(ls: Seq<RawLineV>) -> bool {
    forall|k: int| 0 <= k < ls.len() ==> crate::copyback::no_isolates((#[trigger] ls[k]).content)
}

proof fn lemma_merge_fold_clean(g: Seq<RawLineV>, m: int)
    requires
        g.len() >= 1,
        contents_clean(g),
    ensures
        contents_clean(merge_fold(g, m).0),
        crate::copyback::no_isolates(merge_fold(g, m).1.content),
    decreases g.len(),
{
    if g.len() > 1 {
        let init = g.drop_last();
        assert forall|k: int| 0 <= k < init.len() implies crate::copyback::no_isolates((#[trigger] init[k]).content) by {
            assert(init[k] == g[k]);
        }
        lemma_merge_fold_clean(init, m);
        let (out, cur) = merge_fold(init, m);
        let line = g.last();
        assert(crate::copyback::no_isolates(g[g.len() - 1].content));
        if joinable(cur, line, m) {
            crate::copyback::lemma_clean_trim(cur.content);
            crate::copyback::lemma_clean_trim(line.content);
            crate::copyback::lemma_clean_add(trim_end(cur.content), seq![' ']);
            crate::copyback::lemma_clean_add(trim_end(cur.content) + seq![' '], trim_start(line.content));
        } else {
            assert forall|k: int| 0 <= k < out.push(cur).len() implies crate::copyback::no_isolates(
                (#[trigger] out.push(cur)[k]).content,
            ) by {
                if k < out.len() {
                    assert(out.push(cur)[k] == out[k]);
                }
            }
        }
    } else {
        assert(crate::copyback::no_isolates(g[0].content));
    }
}

proof fn lemma_unwrap_from_clean(lines: Seq<RawLineV>, i: int)
    requires
        0 <= i <= lines.len(),
        contents_clean(lines),
    ensures
        contents_clean(unwrap_from(lines, i)),
    decreases lines.len() - i,
{
    if i < lines.len() {
        let end = group_end(lines, i, i + 1);
        lemma_group_end(lines, i, i + 1);
        lemma_unwrap_from_clean(lines, end);
        let rest = unwrap_from(lines, end);
        let g = lines.subrange(i, end);
        assert forall|k: int| 0 <= k < g.len() implies crate::copyback::no_isolates((#[trigger] g[k]).content) by {
            assert(g[k] == lines[i + k]);
        }
        let head = if end - i < 2 {
            seq![lines[i]]
        } else {
            merge_group(g)
        };
        if end - i < 2 {
            assert(crate::copyback::no_isolates(lines[i].content));
        } else {
            lemma_merge_fold_clean(g, widest(g));
            let (out, cur) = merge_fold(g, widest(g));
            assert forall|k: int| 0 <= k < head.len() implies crate::copyback::no_isolates((#[trigger] head[k]).content) by {
                if k < out.len() {
                    assert(head[k] == out[k]);
                }
            }
        }
        assert(unwrap_from(lines, i) == head + rest);
        assert forall|k: int| 0 <= k < (head + rest).len() implies crate::copyback::no_isolates(
            (#[trigger] (head + rest)[k]).content,
        ) by {
            if k < head.len() {
                assert((head + rest)[k] == head[k]);
            } else {
                assert((head + rest)[k] == rest[k - head.len()]);
            }
        }
    }
}

/// Unwrapping brings in no isolate control: welding adds only a space.
pub proof fn lemma_unwrap_clean(lines: Seq<RawLineV>)
    requires
        contents_clean(lines),
    ensures
        contents_clean(unwrap_of(lines)),
{
    lemma_unwrap_from_clean(lines, 0);
}


// ------------------------------------------------------------------ sentence ends

/// The content, trailing whitespace aside, ends with sentence punctuation:
/// `.` `!` `?` `:` `؛` `؟` `۔` `。`.
pub open spec fn closes_sentence(content: Seq<char>) -> bool {
    let t = trim_end(content);
    t.len() > 0 && (t.last() == '.' || t.last() == '!' || t.last() == '?' || t.last() == ':' || t.last()
        == '؛' || t.last() == '؟' || t.last() == '۔' || t.last() == '。')
}

/// Line `k` ends a paragraph: it closes a sentence, or the next line runs in the other
/// direction.
pub open spec fn ends_paragraph(lines: Seq<RawLineV>, k: int) -> bool {
    closes_sentence(lines[k].content) || (k + 1 < lines.len() && lines[k].dir != lines[k + 1].dir)
}

/// Some run of the first lines of `out` holds exactly the words `ws`.
pub open spec fn cut_at(out: Seq<RawLineV>, ws: Seq<Seq<char>>) -> bool {
    exists|j: int| 0 <= j < out.len() && line_words(#[trigger] out.take(j + 1)) == ws
}

proof fn lemma_weld_end(cur: RawLineV, next: RawLineV)
    requires
        !all_ws(next.content),
    ensures
        trim_end(weld(cur, next).content).len() > 0,
        trim_end(weld(cur, next).content).last() == trim_end(next.content).last(),
        trim_end(next.content).len() > 0,
{
    let x = next.content;
    crate::text::lemma_leading_ws(x);
    let n = crate::text::leading_ws(x) as int;
    let b = trim_start(x);
    let k0 = choose|k: int| 0 <= k < x.len() && !crate::text::is_ws(#[trigger] x[k]);
    assert(k0 >= n);
    assert(!all_ws(b)) by {
        assert(b[k0 - n] == x[k0]);
    }
    let a = trim_end(cur.content) + seq![' '];
    assert(weld(cur, next).content == a + b);
    crate::text::lemma_trimmed_end_len_add(a, b);
    assert(x =~= x.take(n) + b);
    crate::text::lemma_trimmed_end_len_add(x.take(n), b);
    crate::text::lemma_trimmed_end_len(b);
    let tb = crate::text::trimmed_end_len(b) as int;
    assert(0 < tb <= b.len());
    assert((a + b)[a.len() + tb - 1] == b[tb - 1]);
    assert((x.take(n) + b)[n + tb - 1] == b[tb - 1]);
}

proof fn lemma_merge_cur_end(g: Seq<RawLineV>, m: int)
    requires
        g.len() >= 1,
        forall|i: int| 0 <= i < g.len() ==> !all_ws((#[trigger] g[i]).content),
    ensures
        trim_end(merge_fold(g, m).1.content).len() > 0,
        trim_end(merge_fold(g, m).1.content).last() == trim_end(g.last().content).last(),
        merge_fold(g, m).1.dir == g.last().dir,
    decreases g.len(),
{
    assert(!all_ws(g[g.len() - 1].content));
    if g.len() > 1 {
        let init = g.drop_last();
        assert forall|i: int| 0 <= i < init.len() implies !all_ws((#[trigger] init[i]).content) by {
            assert(init[i] == g[i]);
        }
        lemma_merge_cur_end(init, m);
        let (out, cur) = merge_fold(init, m);
        lemma_weld_end(cur, g.last());
    } else {
        lemma_weld_end(g[0], g[0]);
    }
}

proof fn lemma_line_words_last(x: Seq<RawLineV>)
    requires
        x.len() > 0,
        !all_ws(x.last().content),
    ensures
        line_words(x).len() >= 1,
{
    crate::text::lemma_words_nonempty(x.last().content);
}

proof fn lemma_take_push(a: Seq<RawLineV>, b: RawLineV, j: int)
    requires
        0 <= j < a.len(),
    ensures
        a.push(b).take(j + 1) == a.take(j + 1),
{
    assert(a.push(b).take(j + 1) =~= a.take(j + 1));
}

proof fn lemma_merge_cuts(g: Seq<RawLineV>, m: int, k: int)
    requires
        g.len() >= 1,
        forall|i: int| 0 <= i < g.len() ==> !all_ws((#[trigger] g[i]).content),
        0 <= k < g.len(),
        k == g.len() - 1 || ends_paragraph(g, k),
    ensures
        cut_at(merge_fold(g, m).0.push(merge_fold(g, m).1), line_words(g.take(k + 1))),
    decreases g.len(),
{
    let full = merge_fold(g, m).0.push(merge_fold(g, m).1);
    lemma_merge_fold_words(g, m);
    assert(full.drop_last() =~= merge_fold(g, m).0);
    if k == g.len() - 1 {
        assert(full.take(full.len() as int) =~= full);
        assert(g.take(k + 1) =~= g);
        assert(line_words(full.take((full.len() - 1) + 1)) == line_words(g.take(k + 1)));
    } else {
        let init = g.drop_last();
        assert forall|i: int| 0 <= i < init.len() implies !all_ws((#[trigger] init[i]).content) by {
            assert(init[i] == g[i]);
        }
        assert(init[k] == g[k]);
        if k + 1 < init.len() {
            assert(init[k + 1] == g[k + 1]);
        }
        lemma_merge_cuts(init, m, k);
        let (out0, cur0) = merge_fold(init, m);
        let full0 = out0.push(cur0);
        assert(init.take(k + 1) =~= g.take(k + 1));
        let j0 = choose|j: int| 0 <= j < full0.len() && line_words(#[trigger] full0.take(j + 1)) == line_words(init.take(k + 1));
        let line = g.last();
        if joinable(cur0, line, m) {
            if j0 == out0.len() {
                if k == init.len() - 1 {
                    lemma_merge_cur_end(init, m);
                    assert(init.last() == g[k]);
                    assert(line == g[k + 1]);
                    if closes_sentence(g[k].content) {
                        assert(crate::sanitize::unwrap::ends_sentence(cur0.content));
                    }
                    assert(false);
                } else {
                    lemma_merge_fold_words(init, m);
                    assert(full0.drop_last() =~= out0);
                    assert(full0.take(j0 + 1) =~= full0);
                    assert(line_words(full0) == line_words(init));
                    assert(init =~= init.take(k + 1) + init.skip(k + 1));
                    lemma_line_words_add(init.take(k + 1), init.skip(k + 1));
                    assert(init.skip(k + 1).last() == init[init.len() - 1]);
                    lemma_line_words_last(init.skip(k + 1));
                    assert(false);
                }
            }
            assert(j0 < out0.len());
            assert(full == out0.push(weld(cur0, line)));
            lemma_take_push(out0, weld(cur0, line), j0);
            lemma_take_push(out0, cur0, j0);
            assert(line_words(full.take(j0 + 1)) == line_words(g.take(k + 1)));
        } else {
            assert(full == full0.push(line));
            lemma_take_push(full0, line, j0);
            assert(line_words(full.take(j0 + 1)) == line_words(g.take(k + 1)));
        }
    }
}

proof fn lemma_unwrap_cuts(lines: Seq<RawLineV>, i: int, k: int)
    requires
        0 <= i <= k < lines.len(),
        ends_paragraph(lines, k),
    ensures
        cut_at(unwrap_from(lines, i), line_words(lines.subrange(i, k + 1))),
    decreases lines.len() - i,
{
    let end = group_end(lines, i, i + 1);
    lemma_group_end(lines, i, i + 1);
    let rest = unwrap_from(lines, end);
    let g = lines.subrange(i, end);
    let head = if end - i < 2 {
        seq![lines[i]]
    } else {
        merge_group(g)
    };
    assert(unwrap_from(lines, i) == head + rest);
    if k < end {
        if end - i < 2 {
            assert(k == i);
            assert((head + rest).take(1) =~= head);
            assert(lines.subrange(i, k + 1) =~= head);
            assert(line_words((head + rest).take(0int + 1)) == line_words(lines.subrange(i, k + 1)));
        } else {
            lemma_group_members(lines, i, i + 1);
            assert forall|q: int| 0 <= q < g.len() implies !all_ws((#[trigger] g[q]).content) by {
                assert(g[q] == lines[i + q]);
                if q == 0 {
                    assert(same_block(lines[i], lines[i + 1]));
                } else {
                    assert(same_block(lines[i], lines[i + q]));
                }
            }
            assert(g[k - i] == lines[k]);
            if k + 1 < end {
                assert(g[k - i + 1] == lines[k + 1]);
            }
            lemma_merge_cuts(g, widest(g), k - i);
            let full = merge_fold(g, widest(g)).0.push(merge_fold(g, widest(g)).1);
            assert(head == full);
            assert(g.take(k - i + 1) =~= lines.subrange(i, k + 1));
            let j = choose|j: int| 0 <= j < full.len() && line_words(#[trigger] full.take(j + 1)) == line_words(g.take(k - i + 1));
            assert((head + rest).take(j + 1) =~= head.take(j + 1));
            assert(line_words((head + rest).take(j + 1)) == line_words(lines.subrange(i, k + 1)));
        }
    } else {
        lemma_unwrap_cuts(lines, end, k);
        let j1 = choose|j: int| 0 <= j < rest.len() && line_words(#[trigger] rest.take(j + 1)) == line_words(lines.subrange(end, k + 1));
        let j = head.len() + j1;
        assert((head + rest).take(j + 1) =~= head + rest.take(j1 + 1));
        lemma_line_words_add(head, rest.take(j1 + 1));
        assert(lines.subrange(i, k + 1) =~= g + lines.subrange(end, k + 1));
        lemma_line_words_add(g, lines.subrange(end, k + 1));
        if end - i < 2 {
            assert(g =~= head);
        } else {
            lemma_merge_fold_words(g, widest(g));
            let (out, cur) = merge_fold(g, widest(g));
            assert(head.drop_last() =~= out);
        }
        assert(line_words((head + rest).take(j + 1)) == line_words(lines.subrange(i, k + 1)));
    }
}

/// A line that ends a sentence, or that the next line follows in the other direction, is
/// never welded to the line after it: for every such input line, the words of the input up
/// to and including it are exactly the words of the first few output lines, so an output
/// line ends right where it ends.
pub proof fn law_sentence_ends_stay_line_ends(lines: Seq<RawLineV>, k: int)
    requires
        0 <= k < lines.len(),
        ends_paragraph(lines, k),
    ensures
        cut_at(unwrap_of(lines), line_words(lines.take(k + 1))),
{
    lemma_unwrap_cuts(lines, 0, k);
    assert(lines.subrange(0, k + 1) =~= lines.take(k + 1));
}

} // verus!
