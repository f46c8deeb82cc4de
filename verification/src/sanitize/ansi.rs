//! Turn raw terminal bytes into clean text, without losing the glyphs that carry structure.
//!
//! Escape sequences, cursor games and stray bidi controls go away, while box drawing,
//! bullets and whitespace survive untouched because the gutter splitter depends on them.
//! Escape sequences are removed by the VTE parser inside `strip_ansi_escapes`; everything
//! around that call is decided here.

use vstd::prelude::*;
use crate::text::{all_whitespace, all_ws, chars_of, is_cc, is_control, join, push_all, push_repeat, repeat, split_chars, split_on, string_of};

verus! {

/// What `strip_ansi_escapes::strip_str` returns for the text `s`: the text with its ANSI
/// escape sequences (CSI, OSC, ...) and the C0 controls the VTE parser consumes removed.
pub uninterp spec fn ansi_stripped(s: Seq<char>) -> Seq<char>;

/// Calls `strip_ansi_escapes::strip_str`, which runs the VTE parser over the UTF-8 bytes
/// of `s` (the crate documents that stripping UTF-8 always leaves UTF-8). Claims: the
/// result is the named value.
#[verifier::external_body]
fn strip_escapes(s: &str) -> (r: String)
    ensures
        r@ == ansi_stripped(s@),
{
    strip_ansi_escapes::strip_str(s)
}

/// Explicit bidi controls injected upstream (LRM, RLM, LRE..RLO, LRI..PDI, ALM). ZWNJ and
/// ZWJ are not among them: Persian orthography and emoji need those.
pub open spec fn stray_bidi(c: char) -> bool {
    let u = c as u32;
    u == 0x200E || u == 0x200F || (0x202A <= u <= 0x202E) || (0x2066 <= u <= 0x2069) || u == 0x061C
}

fn is_stray_bidi_control(c: char) -> (r: bool)
    ensures
        r == stray_bidi(c),
{
    let u = c as u32;
    u == 0x200E || u == 0x200F || (0x202A <= u && u <= 0x202E) || (0x2066 <= u && u <= 0x2069)
        || u == 0x061C
}

/// Carriage return, tab and backspace are swapped for private-use sentinels across the
/// escape stripper, which would otherwise consume them.
pub open spec fn protect_char(c: char) -> char {
    if c == '\r' {
        '\u{E000}'
    } else if c == '\t' {
        '\u{E001}'
    } else if c == '\u{8}' {
        '\u{E002}'
    } else {
        c
    }
}

pub open spec fn unprotect_char(c: char) -> char {
    if c == '\u{E000}' {
        '\r'
    } else if c == '\u{E001}' {
        '\t'
    } else if c == '\u{E002}' {
        '\u{8}'
    } else {
        c
    }
}

fn map_protect(s: &[char], forward: bool) -> (r: Vec<char>)
    ensures
        r@ == if forward {
            s@.map_values(|c: char| protect_char(c))
        } else {
            s@.map_values(|c: char| unprotect_char(c))
        },
{
    let mut out: Vec<char> = Vec::new();
    let mut i: usize = 0;
    while i < s.len()
        invariant
            i <= s@.len(),
            out@ == if forward {
                s@.take(i as int).map_values(|c: char| protect_char(c))
            } else {
                s@.take(i as int).map_values(|c: char| unprotect_char(c))
            },
        decreases s@.len() - i,
    {
        let c = s[i];
        let m = if forward {
            if c == '\r' {
                '\u{E000}'
            } else if c == '\t' {
                '\u{E001}'
            } else if c == '\u{8}' {
                '\u{E002}'
            } else {
                c
            }
        } else {
            if c == '\u{E000}' {
                '\r'
            } else if c == '\u{E001}' {
                '\t'
            } else if c == '\u{E002}' {
                '\u{8}'
            } else {
                c
            }
        };
        out.push(m);
        i += 1;
        proof {
            if forward {
                assert(out@ =~= s@.take(i as int).map_values(|c: char| protect_char(c)));
            } else {
                assert(out@ =~= s@.take(i as int).map_values(|c: char| unprotect_char(c)));
            }
        }
    }
    assert(s@.take(s@.len() as int) =~= s@);
    out
}

/// `replace("\r\n", "\n")`.
pub open spec fn crlf_to_lf(s: Seq<char>) -> Seq<char>
    decreases s.len(),
{
    if s.len() == 0 {
        Seq::empty()
    } else if s.len() >= 2 && s[0] == '\r' && s[1] == '\n' {
        seq!['\n'] + crlf_to_lf(s.skip(2))
    } else {
        seq![s[0]] + crlf_to_lf(s.skip(1))
    }
}

fn crlf_exec(s: &[char]) -> (r: Vec<char>)
    ensures
        r@ == crlf_to_lf(s@),
{
    let mut out: Vec<char> = Vec::new();
    let mut i: usize = 0;
    assert(s@.skip(0) =~= s@);
    while i < s.len()
        invariant
            i <= s@.len(),
            out@ + crlf_to_lf(s@.skip(i as int)) == crlf_to_lf(s@),
        decreases s@.len() - i,
    {
        let ghost t = s@.skip(i as int);
        if i + 1 < s.len() && s[i] == '\r' && s[i + 1] == '\n' {
            assert(t[0] == '\r' && t[1] == '\n');
            assert(t.skip(2) =~= s@.skip(i + 2));
            out.push('\n');
            assert(out@ + crlf_to_lf(s@.skip(i + 2)) =~= out@.drop_last() + crlf_to_lf(t));
            i += 2;
        } else {
            assert(t[0] == s@[i as int]);
            assert(t.skip(1) =~= s@.skip(i + 1));
            out.push(s[i]);
            assert(out@ + crlf_to_lf(s@.skip(i + 1)) =~= out@.drop_last() + crlf_to_lf(t));
            i += 1;
        }
    }
    assert(s@.skip(i as int) =~= Seq::<char>::empty());
    assert(out@ + Seq::<char>::empty() =~= out@);
    out
}

/// Terminal replay of a line: `(cells, cursor column)`. A carriage return goes back to
/// column 0, a backspace one column left (not past 0), any other character overwrites
/// the cell under the cursor and advances it.
pub open spec fn replay_fold(s: Seq<char>) -> (Seq<char>, int)
    decreases s.len(),
{
    if s.len() == 0 {
        (Seq::empty(), 0)
    } else {
        let (cells, col) = replay_fold(s.drop_last());
        let ch = s.last();
        if ch == '\r' {
            (cells, 0)
        } else if ch == '\u{8}' {
            (cells, if col > 0 { col - 1 } else { 0 })
        } else if col < cells.len() {
            (cells.update(col, ch), col + 1)
        } else {
            (cells.push(ch), col + 1)
        }
    }
}

/// A line's final frame, as a terminal would show it. Lines without carriage returns or
/// backspaces are already final.
pub open spec fn replay_of(s: Seq<char>) -> Seq<char> {
    if s.contains('\r') || s.contains('\u{8}') {
        replay_fold(s).0
    } else {
        s
    }
}

proof fn lemma_replay_col(s: Seq<char>)
    ensures
        0 <= replay_fold(s).1 <= replay_fold(s).0.len(),
    decreases s.len(),
{
    if s.len() > 0 {
        lemma_replay_col(s.drop_last());
    }
}

fn replay_cursor(line: &[char]) -> (r: Vec<char>)
    ensures
        r@ == replay_of(line@),
{
    if !crate::text::has_char(line, '\r') && !crate::text::has_char(line, '\u{8}') {
        return crate::text::copy_chars(line);
    }
    let mut cells: Vec<char> = Vec::new();
    let mut col: usize = 0;
    let mut i: usize = 0;
    while i < line.len()
        invariant
            i <= line@.len(),
            (cells@, col as int) == replay_fold(line@.take(i as int)),
        decreases line@.len() - i,
    {
        assert(line@.take(i + 1).drop_last() =~= line@.take(i as int));
        proof {
            lemma_replay_col(line@.take(i as int));
        }
        let ch = line[i];
        if ch == '\r' {
            col = 0;
        } else if ch == '\u{8}' {
            col = if col > 0 {
                col - 1
            } else {
                0
            };
        } else {
            if col < cells.len() {
                cells.set(col, ch);
            } else {
                cells.push(ch);
            }
            let len = cells.len();
            assert(col < len);
            col = col + 1;
        }
        i += 1;
    }
    assert(line@.take(line@.len() as int) =~= line@);
    cells
}

/// Tabs expanded to the next stop of width `w`: `(text, column)`.
pub open spec fn tabs_fold(s: Seq<char>, w: int) -> Seq<char>
    decreases s.len(),
{
    if s.len() == 0 {
        Seq::empty()
    } else {
        let out = tabs_fold(s.drop_last(), w);
        if s.last() == '\t' {
            out + repeat(' ', (w - (out.len() as int) % w) as nat)
        } else {
            out.push(s.last())
        }
    }
}

/// Tabs expanded to stops every `tab_width` columns (at least 1). Lines without tabs are
/// left as they are.
pub open spec fn expand_of(s: Seq<char>, tab_width: int) -> Seq<char> {
    if s.contains('\t') {
        tabs_fold(s, if tab_width > 1 { tab_width } else { 1 })
    } else {
        s
    }
}

fn expand_tabs(line: &[char], tab_width: usize) -> (r: Vec<char>)
    ensures
        r@ == expand_of(line@, tab_width as int),
{
    if !crate::text::has_char(line, '\t') {
        return crate::text::copy_chars(line);
    }
    let width: usize = if tab_width > 1 {
        tab_width
    } else {
        1
    };
    let mut out: Vec<char> = Vec::new();
    let mut i: usize = 0;
    while i < line.len()
        invariant
            i <= line@.len(),
            width >= 1,
            width == (if tab_width > 1 { tab_width as int } else { 1 }),
            out@ == tabs_fold(line@.take(i as int), width as int),
        decreases line@.len() - i,
    {
        assert(line@.take(i + 1).drop_last() =~= line@.take(i as int));
        let ch = line[i];
        if ch == '\t' {
            let col = out.len();
            let pad = width - (col % width);
            push_repeat(&mut out, ' ', pad);
        } else {
            out.push(ch);
        }
        i += 1;
    }
    assert(line@.take(line@.len() as int) =~= line@);
    out
}

/// What survives of a line's characters: everything but stray bidi controls, the BOM and
/// other control characters.
pub open spec fn keep_char(c: char) -> bool {
    !stray_bidi(c) && c != '\u{FEFF}' && !is_cc(c)
}

pub open spec fn keep_fold(s: Seq<char>) -> Seq<char>
    decreases s.len(),
{
    if s.len() == 0 {
        Seq::empty()
    } else if keep_char(s.last()) {
        keep_fold(s.drop_last()).push(s.last())
    } else {
        keep_fold(s.drop_last())
    }
}

/// One cleaned line: cursor games replayed, tabs expanded, content-free rows collapsed to
/// nothing, and noise characters dropped.
pub open spec fn clean_line(raw: Seq<char>, tab_width: int) -> Seq<char> {
    let line = expand_of(replay_of(raw), tab_width);
    if all_ws(line) {
        Seq::empty()
    } else {
        keep_fold(line)
    }
}

pub open spec fn clean_lines(lines: Seq<Seq<char>>, tab_width: int) -> Seq<Seq<char>> {
    lines.map_values(|l: Seq<char>| clean_line(l, tab_width))
}

/// Everything after the escape stripper: restore the protected controls, fold CRLF to
/// LF, and clean each line.
pub open spec fn clean_after_strip(stripped: Seq<char>, tab_width: int) -> Seq<char> {
    let restored = stripped.map_values(|c: char| unprotect_char(c));
    join(clean_lines(split_on(crlf_to_lf(restored), '\n'), tab_width), seq!['\n'])
}

/// The full cleanup of a capture.
pub open spec fn clean_of(input: Seq<char>, tab_width: int) -> Seq<char> {
    clean_after_strip(ansi_stripped(input.map_values(|c: char| protect_char(c))), tab_width)
}

fn clean_line_exec(raw: &[char], tab_width: usize) -> (r: Vec<char>)
    ensures
        r@ == clean_line(raw@, tab_width as int),
{
    let line = replay_cursor(raw);
    let line = expand_tabs(&line, tab_width);
    if all_whitespace(&line) {
        return Vec::new();
    }
    let mut out: Vec<char> = Vec::new();
    let mut i: usize = 0;
    while i < line.len()
        invariant
            i <= line@.len(),
            out@ == keep_fold(line@.take(i as int)),
        decreases line@.len() - i,
    {
        assert(line@.take(i + 1).drop_last() =~= line@.take(i as int));
        let ch = line[i];
        if !is_stray_bidi_control(ch) && ch != '\u{FEFF}' && !is_control(ch) {
            out.push(ch);
        }
        i += 1;
    }
    assert(line@.take(line@.len() as int) =~= line@);
    out
}

/// Clean the output of the escape stripper (its sentinels still in place).
pub fn clean_stripped(stripped: &str, tab_width: usize) -> (r: String)
    ensures
        r@ == clean_after_strip(stripped@, tab_width as int),
{
    let s = chars_of(stripped);
    let restored = map_protect(&s, false);
    let normalized = crlf_exec(&restored);
    let pieces = split_chars(&normalized, '\n');
    let ghost pv = split_on(crlf_to_lf(restored@), '\n');
    let ghost cl = clean_lines(pv, tab_width as int);
    let mut out: Vec<char> = Vec::new();
    let mut i: usize = 0;
    while i < pieces.len()
        invariant
            i <= pieces@.len() == pv.len(),
            forall|k: int| 0 <= k < pieces@.len() ==> (#[trigger] pieces@[k])@ == pv[k],
            cl == clean_lines(pv, tab_width as int),
            out@ == join(cl.take(i as int), seq!['\n']),
        decreases pieces@.len() - i,
    {
        assert(cl.take(i + 1).drop_last() =~= cl.take(i as int));
        if i > 0 {
            out.push('\n');
        }
        let line = clean_line_exec(&pieces[i], tab_width);
        let ghost before = out@;
        push_all(&mut out, &line);
        proof {
            if i == 0 {
                assert(out@ =~= join(cl.take(1), seq!['\n']));
            } else {
                assert(out@ =~= join(cl.take(i as int), seq!['\n']) + seq!['\n'] + cl[i as int]);
            }
        }
        i += 1;
    }
    assert(cl.take(pieces@.len() as int) =~= cl);
    string_of(&out)
}

/// Full cleanup pass: ANSI/OSC removal, cursor replay, tab expansion, control and BOM
/// scrubbing. Box drawing, bullets and spacing are preserved verbatim.
pub fn clean(input: &str, tab_width: usize) -> (r: String)
    ensures
        r@ == clean_of(input@, tab_width as int),
{
    let c = chars_of(input);
    let protected = map_protect(&c, true);
    let p = string_of(&protected);
    let stripped = strip_escapes(p.as_str());
    clean_stripped(stripped.as_str(), tab_width)
}

// ------------------------------------------------------------------ laws

proof fn lemma_keep_fold(s: Seq<char>)
    ensures
        forall|k: int| 0 <= k < keep_fold(s).len() ==> keep_char(#[trigger] keep_fold(s)[k]),
    decreases s.len(),
{
    if s.len() > 0 {
        lemma_keep_fold(s.drop_last());
        let p = keep_fold(s.drop_last());
        assert forall|k: int| 0 <= k < keep_fold(s).len() implies keep_char(#[trigger] keep_fold(s)[k]) by {
            if k < p.len() {
                assert(keep_fold(s)[k] == p[k]);
            }
        }
    }
}

proof fn lemma_join_chars(pieces: Seq<Seq<char>>)
    requires
        forall|k: int, m: int| 0 <= k < pieces.len() && 0 <= m < pieces[k].len() ==> keep_char(#[trigger] pieces[k][m]),
    ensures
        forall|m: int| 0 <= m < join(pieces, seq!['\n']).len() ==> #[trigger] join(pieces, seq!['\n'])[m] == '\n' || keep_char(join(pieces, seq!['\n'])[m]),
    decreases pieces.len(),
{
    if pieces.len() > 1 {
        let pre = pieces.drop_last();
        assert forall|k: int, m: int| 0 <= k < pre.len() && 0 <= m < pre[k].len() implies keep_char(#[trigger] pre[k][m]) by {
            assert(pre[k] == pieces[k]);
        }
        lemma_join_chars(pre);
        let a = join(pre, seq!['\n']);
        let j = join(pieces, seq!['\n']);
        assert forall|m: int| 0 <= m < j.len() implies #[trigger] j[m] == '\n' || keep_char(j[m]) by {
            if m < a.len() {
                assert(j[m] == a[m]);
            } else if m == a.len() {
            } else {
                assert(j[m] == pieces.last()[m - a.len() - 1]);
            }
        }
    } else if pieces.len() == 1 {
        assert forall|m: int| 0 <= m < join(pieces, seq!['\n']).len() implies #[trigger] join(pieces, seq!['\n'])[m] == '\n' || keep_char(join(pieces, seq!['\n'])[m]) by {
            assert(keep_char(pieces[0][m]));
        }
    }
}

/// Cleaned text holds no control character but the line feeds between lines, no stray
/// bidi control and no byte-order mark, whatever the input was.
pub proof fn law_clean_output_has_no_noise(input: Seq<char>, tab_width: int)
    ensures
        forall|m: int|
            0 <= m < clean_of(input, tab_width).len() ==> #[trigger] clean_of(input, tab_width)[m] == '\n'
                || (!is_cc(clean_of(input, tab_width)[m]) && !stray_bidi(clean_of(input, tab_width)[m])
                && clean_of(input, tab_width)[m] != '\u{FEFF}'),
{
    let restored = ansi_stripped(input.map_values(|c: char| protect_char(c))).map_values(|c: char| unprotect_char(c));
    let lines = clean_lines(split_on(crlf_to_lf(restored), '\n'), tab_width);
    assert forall|k: int, m: int| 0 <= k < lines.len() && 0 <= m < lines[k].len() implies keep_char(#[trigger] lines[k][m]) by {
        let raw = split_on(crlf_to_lf(restored), '\n')[k];
        let line = expand_of(replay_of(raw), tab_width);
        if !all_ws(line) {
            lemma_keep_fold(line);
        }
    }
    lemma_join_chars(lines);
}


proof fn lemma_keep_fold_clean(s: Seq<char>)
    ensures
        crate::copyback::no_isolates(keep_fold(s)),
    decreases s.len(),
{
    if s.len() > 0 {
        lemma_keep_fold_clean(s.drop_last());
        let p = keep_fold(s.drop_last());
        if keep_char(s.last()) {
            assert forall|k: int| 0 <= k < p.push(s.last()).len() implies !crate::copyback::is_isolate(
                #[trigger] p.push(s.last())[k],
            ) by {
                if k < p.len() {
                    assert(p.push(s.last())[k] == p[k]);
                }
            }
        }
    }
}

/// Cleaning leaves no isolate control behind: every stray bidi control is dropped.
pub proof fn law_clean_drops_isolates(input: Seq<char>, tab_width: int)
    ensures
        crate::copyback::no_isolates(clean_of(input, tab_width)),
{
    let restored = ansi_stripped(input.map_values(|c: char| protect_char(c))).map_values(|c: char| unprotect_char(c));
    let lines = clean_lines(split_on(crlf_to_lf(restored), '\n'), tab_width);
    assert forall|k: int| 0 <= k < lines.len() implies crate::copyback::no_isolates(#[trigger] lines[k]) by {
        let raw = split_on(crlf_to_lf(restored), '\n')[k];
        let line = expand_of(replay_of(raw), tab_width);
        lemma_keep_fold_clean(line);
        assert(crate::copyback::no_isolates(Seq::<char>::empty()));
    }
    let nl = seq!['\n'];
    assert(crate::copyback::no_isolates(nl)) by {
        assert forall|i: int| 0 <= i < nl.len() implies !crate::copyback::is_isolate(#[trigger] nl[i]) by {}
    }
    crate::copyback::lemma_clean_join(lines, nl);
}


proof fn lemma_tabs_fold_plain(s: Seq<char>, w: int)
    requires
        !s.contains('\t'),
    ensures
        tabs_fold(s, w) == s,
    decreases s.len(),
{
    if s.len() > 0 {
        assert(!s.drop_last().contains('\t')) by {
            if s.drop_last().contains('\t') {
                let k = choose|k: int| 0 <= k < s.drop_last().len() && s.drop_last()[k] == '\t';
                assert(s[k] == '\t');
            }
        }
        lemma_tabs_fold_plain(s.drop_last(), w);
        assert(s[s.len() - 1] != '\t');
        assert(s.drop_last().push(s.last()) =~= s);
    }
}

proof fn lemma_expand_is_fold(s: Seq<char>, tab_width: int)
    ensures
        expand_of(s, tab_width) == tabs_fold(s, if tab_width > 1 { tab_width } else { 1 }),
{
    if !s.contains('\t') {
        lemma_tabs_fold_plain(s, if tab_width > 1 { tab_width } else { 1 });
    }
}

/// Tabs expand to tab stops of the given width (at least 1): reading a line character by
/// character, every other character is copied as it is, and every tab becomes between one
/// and `w` spaces that end exactly on a tab stop, a multiple of `w` counted in output
/// columns (so the pad depends on what was emitted before the tab, not on where the tab
/// stood in the input).
pub proof fn law_tabs_end_on_tab_stops(s: Seq<char>, tab_width: int, k: int)
    requires
        0 <= k < s.len(),
    ensures
        ({
            let w = if tab_width > 1 { tab_width } else { 1 };
            let before = expand_of(s.take(k), tab_width);
            let after = expand_of(s.take(k + 1), tab_width);
            &&& s[k] != '\t' ==> after == before.push(s[k])
            &&& s[k] == '\t' ==> before.len() < after.len() <= before.len() + w && after == before + repeat(
                ' ',
                (after.len() - before.len()) as nat,
            ) && (after.len() as int) % w == 0
        }),
        expand_of(s.take(0), tab_width).len() == 0,
        expand_of(s.take(s.len() as int), tab_width) == expand_of(s, tab_width),
{
    let w = if tab_width > 1 { tab_width } else { 1 };
    lemma_expand_is_fold(s.take(k), tab_width);
    lemma_expand_is_fold(s.take(k + 1), tab_width);
    lemma_expand_is_fold(s.take(0), tab_width);
    assert(s.take(k + 1).drop_last() =~= s.take(k));
    assert(s.take(k + 1).last() == s[k]);
    assert(s.take(s.len() as int) =~= s);
    let before = tabs_fold(s.take(k), w);
    if s[k] == '\t' {
        let l = before.len() as int;
        let n = w - l % w;
        vstd::arithmetic::div_mod::lemma_fundamental_div_mod(l, w);
        assert(0 <= l % w < w);
        let q = l / w;
        assert(l + n == w * q + w);
        assert(w * q + w == (q + 1) * w) by (nonlinear_arith);
        vstd::arithmetic::div_mod::lemma_mod_multiples_basic(q + 1, w);
        assert((before + repeat(' ', n as nat)).len() == l + n);
    }
}

} // verus!
