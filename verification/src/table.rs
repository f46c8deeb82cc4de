//! Recover the column structure of a table that arrived as flat lines.
//!
//! A terminal draws a table by *painting* it: every row is padded to the column widths and
//! emitted as one line. The columns are found geometrically, because the only thing
//! `│`-delimited output and whitespace-aligned output have in common is that *the same
//! screen columns stay free on every row*. That invariant is the whole detector.

use vstd::prelude::*;
use crate::model::Sep;
use crate::text::{
    all_ws, chars_of, copy_chars, is_whitespace, is_ws, lemma_trimmed_end_len, push_all,
    slice_chars, string_of, trim, trim_end, trimmed, trimmed_end,
};
use crate::width::{char_width, cw, width_of_char};

verus! {

// ------------------------------------------------------------------ column arithmetic

/// A line indexed by display column: which columns carry ink, which glyph starts at each
/// column, and every char with the column it starts at.
#[verifier::ext_equal]
pub struct ColsV {
    pub filled: Seq<bool>,
    pub starts: Seq<Option<char>>,
    pub chars: Seq<(int, char)>,
}

/// The column grid of a line: each character covers as many columns as it is wide.
pub open spec fn cols_of(s: Seq<char>) -> ColsV
    decreases s.len(),
{
    if s.len() == 0 {
        ColsV { filled: Seq::empty(), starts: Seq::empty(), chars: Seq::empty() }
    } else {
        let p = cols_of(s.drop_last());
        let c = s.last();
        let w = cw(c);
        ColsV {
            filled: p.filled + Seq::new(w, |k: int| !is_ws(c)),
            starts: p.starts + Seq::new(
                w,
                |k: int|
                    if k == 0 {
                        Some(c)
                    } else {
                        None
                    },
            ),
            chars: p.chars.push((p.filled.len() as int, c)),
        }
    }
}

pub open spec fn filled_at(g: ColsV, c: int) -> bool {
    0 <= c < g.filled.len() && g.filled[c]
}

pub open spec fn char_at(g: ColsV, c: int) -> Option<char> {
    if 0 <= c < g.starts.len() {
        g.starts[c]
    } else {
        None
    }
}

/// The chars that start in columns `[a, b)`, in order.
pub open spec fn select(chars: Seq<(int, char)>, a: int, b: int) -> Seq<char>
    decreases chars.len(),
{
    if chars.len() == 0 {
        Seq::empty()
    } else {
        let p = select(chars.drop_last(), a, b);
        if a <= chars.last().0 < b {
            p.push(chars.last().1)
        } else {
            p
        }
    }
}

/// The text between two display columns, trimmed.
pub open spec fn slice_of(g: ColsV, a: int, b: int) -> Seq<char> {
    trim(select(g.chars, a, b))
}

struct Cols {
    filled: Vec<bool>,
    starts: Vec<Option<char>>,
    chars: Vec<(usize, char)>,
}

impl View for Cols {
    type V = ColsV;

    closed spec fn view(&self) -> ColsV {
        ColsV {
            filled: self.filled@,
            starts: self.starts@,
            chars: self.chars@.map_values(|p: (usize, char)| (p.0 as int, p.1)),
        }
    }
}

proof fn lemma_cols_of(s: Seq<char>)
    ensures
        cols_of(s).filled.len() == cols_of(s).starts.len(),
        cols_of(s).chars.len() == s.len(),
        forall|k: int| 0 <= k < s.len() ==> (#[trigger] cols_of(s).chars[k]).1 == s[k],
        forall|k: int|
            0 <= k < s.len() ==> 0 <= (#[trigger] cols_of(s).chars[k]).0 <= cols_of(s).filled.len(),
    decreases s.len(),
{
    if s.len() > 0 {
        lemma_cols_of(s.drop_last());
    }
}

impl Cols {
    fn new(s: &[char]) -> (r: Cols)
        ensures
            r@ == cols_of(s@),
    {
        let mut filled: Vec<bool> = Vec::new();
        let mut starts: Vec<Option<char>> = Vec::new();
        let mut chars: Vec<(usize, char)> = Vec::new();
        let mut i: usize = 0;
        while i < s.len()
            invariant
                i <= s@.len(),
                (Cols { filled, starts, chars })@ == cols_of(s@.take(i as int)),
            decreases s@.len() - i,
        {
            assert(s@.take(i + 1).drop_last() =~= s@.take(i as int));
            let c = s[i];
            let w = match width_of_char(c) {
                Some(w) => w,
                None => 0,
            };
            let ghost before = Cols { filled, starts, chars }@;
            let col = filled.len();
            chars.push((col, c));
            let ink = !is_whitespace(c);
            let mut k: usize = 0;
            while k < w
                invariant
                    k <= w,
                    w == cw(c),
                    filled@ == before.filled + Seq::new(k as nat, |m: int| !is_ws(c)),
                    starts@ == before.starts + Seq::new(
                        k as nat,
                        |m: int|
                            if m == 0 {
                                Some(c)
                            } else {
                                None
                            },
                    ),
                    ink == !is_ws(c),
                decreases w - k,
            {
                filled.push(ink);
                starts.push(if k == 0 {
                    Some(c)
                } else {
                    None
                });
                k += 1;
                assert(filled@ =~= before.filled + Seq::new(k as nat, |m: int| !is_ws(c)));
                assert(starts@ =~= before.starts + Seq::new(
                    k as nat,
                    |m: int|
                        if m == 0 {
                            Some(c)
                        } else {
                            None
                        },
                ));
            }
            i += 1;
            assert((Cols { filled, starts, chars })@.chars =~= before.chars.push(
                (before.filled.len() as int, c),
            ));
        }
        assert(s@.take(s@.len() as int) =~= s@);
        Cols { filled, starts, chars }
    }

    fn width(&self) -> (r: usize)
        ensures
            r == self@.filled.len(),
    {
        self.filled.len()
    }

    fn filled_at(&self, c: usize) -> (r: bool)
        ensures
            r == filled_at(self@, c as int),
    {
        c < self.filled.len() && self.filled[c]
    }

    fn char_at(&self, c: usize) -> (r: Option<char>)
        requires
            self@.filled.len() == self@.starts.len(),
        ensures
            r == char_at(self@, c as int),
    {
        if c < self.starts.len() {
            self.starts[c]
        } else {
            None
        }
    }

    /// The text between two display columns, trimmed.
    fn slice(&self, a: usize, b: usize) -> (r: Vec<char>)
        ensures
            r@ == slice_of(self@, a as int, b as int),
    {
        let ghost cv = self@.chars;
        let mut out: Vec<char> = Vec::new();
        let mut i: usize = 0;
        while i < self.chars.len()
            invariant
                i <= self.chars@.len(),
                cv == self@.chars,
                out@ == select(cv.take(i as int), a as int, b as int),
            decreases self.chars@.len() - i,
        {
            assert(cv.take(i + 1).drop_last() =~= cv.take(i as int));
            let (col, c) = self.chars[i];
            if a <= col && col < b {
                out.push(c);
            }
            i += 1;
        }
        assert(cv.take(self.chars@.len() as int) =~= cv);
        trimmed(&out)
    }
}

// ------------------------------------------------------------------ classification

/// Glyphs a renderer draws rules and frames with.
pub open spec fn rule_char(c: char) -> bool {
    c == '─' || c == '━' || c == '═' || c == '╌' || c == '┄' || c == '┈' || c == '╍' || c == '-'
        || c == '=' || c == '_' || c == '~' || c == '┌' || c == '┬' || c == '┐' || c == '├' || c
        == '┼' || c == '┤' || c == '└' || c == '┴' || c == '┘' || c == '╭' || c == '╮' || c == '╰'
        || c == '╯' || c == '╞' || c == '╡' || c == '╪' || c == '╔' || c == '╦' || c == '╗' || c
        == '╠' || c == '╬' || c == '╣' || c == '╚' || c == '╩' || c == '╝' || c == '│' || c == '┃'
        || c == '║' || c == '|' || c == '+'
}

fn is_rule_char(c: char) -> (r: bool)
    ensures
        r == rule_char(c),
{
    c == '─' || c == '━' || c == '═' || c == '╌' || c == '┄' || c == '┈' || c == '╍' || c == '-'
        || c == '=' || c == '_' || c == '~' || c == '┌' || c == '┬' || c == '┐' || c == '├' || c
        == '┼' || c == '┤' || c == '└' || c == '┴' || c == '┘' || c == '╭' || c == '╮' || c == '╰'
        || c == '╯' || c == '╞' || c == '╡' || c == '╪' || c == '╔' || c == '╦' || c == '╗' || c
        == '╠' || c == '╬' || c == '╣' || c == '╚' || c == '╩' || c == '╝' || c == '│' || c == '┃'
        || c == '║' || c == '|' || c == '+'
}

/// The corners only an outer frame has.
pub open spec fn corner_char(c: char) -> bool {
    c == '┌' || c == '┐' || c == '└' || c == '┘' || c == '╭' || c == '╮' || c == '╰' || c == '╯'
        || c == '╔' || c == '╗' || c == '╚' || c == '╝'
}

/// Number of non-whitespace characters.
pub open spec fn ink_count(s: Seq<char>) -> nat
    decreases s.len(),
{
    if s.len() == 0 {
        0
    } else {
        ink_count(s.drop_last()) + if is_ws(s.last()) {
            0nat
        } else {
            1nat
        }
    }
}

/// Number of rule glyphs.
pub open spec fn rule_count(s: Seq<char>) -> nat
    decreases s.len(),
{
    if s.len() == 0 {
        0
    } else {
        rule_count(s.drop_last()) + if rule_char(s.last()) {
            1nat
        } else {
            0nat
        }
    }
}

/// A horizontal rule: nothing but rule and junction glyphs (and whitespace), at least
/// three of them.
pub open spec fn rule_of(s: Seq<char>) -> bool {
    (forall|k: int| 0 <= k < s.len() && !is_ws(#[trigger] s[k]) ==> rule_char(s[k])) && ink_count(
        s,
    ) >= 3
}

/// A frame edge: a rule that also holds a corner.
pub open spec fn frame_of(s: Seq<char>) -> bool {
    rule_of(s) && exists|k: int| 0 <= k < s.len() && corner_char(#[trigger] s[k])
}

proof fn lemma_ink_count_bound(s: Seq<char>)
    ensures
        ink_count(s) <= s.len(),
        rule_count(s) <= s.len(),
    decreases s.len(),
{
    if s.len() > 0 {
        lemma_ink_count_bound(s.drop_last());
    }
}

fn is_rule_chars(s: &[char]) -> (r: bool)
    ensures
        r == rule_of(s@),
{
    let mut rules: usize = 0;
    let mut i: usize = 0;
    while i < s.len()
        invariant
            i <= s@.len(),
            rules == ink_count(s@.take(i as int)),
            forall|k: int| 0 <= k < i && !is_ws(#[trigger] s@[k]) ==> rule_char(s@[k]),
        decreases s@.len() - i,
    {
        proof {
            assert(s@.take(i + 1).drop_last() =~= s@.take(i as int));
            lemma_ink_count_bound(s@.take(i as int));
        }
        let c = s[i];
        if !is_whitespace(c) {
            if !is_rule_char(c) {
                return false;
            }
            rules += 1;
        }
        i += 1;
    }
    assert(s@.take(s@.len() as int) =~= s@);
    rules >= 3
}

/// A horizontal rule: the `├───┼───┤` under a header, or the `━━━━  ━━━━` a report
/// script prints. Recognised by exclusion: nothing on the line but rule glyphs.
pub fn is_rule(line: &str) -> (r: bool)
    ensures
        r == rule_of(line@),
{
    let c = chars_of(line);
    is_rule_chars(&c)
}

fn is_frame(s: &[char]) -> (r: bool)
    ensures
        r == frame_of(s@),
{
    if !is_rule_chars(s) {
        return false;
    }
    let mut i: usize = 0;
    while i < s.len()
        invariant
            i <= s@.len(),
            rule_of(s@),
            forall|k: int| 0 <= k < i ==> !corner_char(#[trigger] s@[k]),
        decreases s@.len() - i,
    {
        let c = s[i];
        if c == '┌' || c == '┐' || c == '└' || c == '┘' || c == '╭' || c == '╮' || c == '╰' || c
            == '╯' || c == '╔' || c == '╗' || c == '╚' || c == '╝' {
            assert(corner_char(s@[i as int]));
            return true;
        }
        i += 1;
    }
    false
}

fn rule_count_of(s: &[char]) -> (r: usize)
    ensures
        r == rule_count(s@),
{
    let mut n: usize = 0;
    let mut i: usize = 0;
    while i < s.len()
        invariant
            i <= s@.len(),
            n == rule_count(s@.take(i as int)),
        decreases s@.len() - i,
    {
        proof {
            assert(s@.take(i + 1).drop_last() =~= s@.take(i as int));
            lemma_ink_count_bound(s@.take(i as int));
        }
        if is_rule_char(s[i]) {
            n += 1;
        }
        i += 1;
    }
    assert(s@.take(s@.len() as int) =~= s@);
    n
}

/// End of the run of `' '` starting at `i`.
pub open spec fn spaces_end(s: Seq<char>, i: int) -> int
    decreases s.len() - i,
{
    if 0 <= i < s.len() && s[i] == ' ' {
        spaces_end(s, i + 1)
    } else {
        i
    }
}

proof fn lemma_spaces_end(s: Seq<char>, i: int)
    requires
        0 <= i <= s.len(),
    ensures
        i <= spaces_end(s, i) <= s.len(),
        i < s.len() && s[i] == ' ' ==> spaces_end(s, i) > i,
    decreases s.len() - i,
{
    if i < s.len() && s[i] == ' ' {
        lemma_spaces_end(s, i + 1);
    }
}

/// Scan from `i` for a run of at least eight spaces followed by a rule of at least ten
/// rule glyphs running to the end of the line.
pub open spec fn welded_from(s: Seq<char>, i: int) -> Option<(Seq<char>, Seq<char>)>
    decreases s.len() - i,
{
    if i < 0 || i >= s.len() {
        None
    } else if s[i] == ' ' {
        let e = spaces_end(s, i);
        if e <= i || e > s.len() {
            None
        } else if e - i >= 8 && e < s.len() && rule_of(s.skip(e)) && rule_count(s.skip(e)) >= 10 {
            Some((trim_end(s.take(i)), s.skip(e)))
        } else {
            welded_from(s, e)
        }
    } else {
        welded_from(s, i + 1)
    }
}

/// A header welded to the rule under it: `(text part, rule part)`, or `None`.
pub open spec fn welded_of(s: Seq<char>) -> Option<(Seq<char>, Seq<char>)> {
    if rule_of(s) {
        None
    } else {
        welded_from(s, 0)
    }
}

/// Split a header line from a rule welded to its end after a wide run of spaces.
pub fn split_welded_rule_chars(chars: &[char]) -> (r: Option<(Vec<char>, Vec<char>)>)
    ensures
        match r {
            Some((a, b)) => welded_of(chars@) == Some((a@, b@)),
            None => welded_of(chars@) is None,
        },
{
    if is_rule_chars(chars) {
        return None;
    }
    let ghost s = chars@;
    let n = chars.len();
    let mut i: usize = 0;
    while i < n
        invariant
            i <= n == s.len(),
            s == chars@,
            !rule_of(s),
            welded_of(s) == welded_from(s, i as int),
        decreases n - i,
    {
        if chars[i] == ' ' {
            let start = i;
            proof {
                lemma_spaces_end(s, start as int);
            }
            while i < n && chars[i] == ' '
                invariant
                    start <= i <= n == s.len(),
                    s == chars@,
                    spaces_end(s, start as int) == spaces_end(s, i as int),
                decreases n - i,
            {
                i += 1;
            }
            let gap = i - start;
            if gap >= 8 && i < n {
                let rest = slice_chars(chars, i, n);
                assert(rest@ =~= s.skip(i as int));
                let count = rule_count_of(&rest);
                if is_rule_chars(&rest) && count >= 10 {
                    let head = slice_chars(chars, 0, start);
                    assert(head@ =~= s.take(start as int));
                    return Some((trimmed_end(&head), rest));
                }
            }
        } else {
            i += 1;
        }
    }
    None
}

/// When a terminal pads a table header to the window width without a newline, the rule
/// below can arrive welded to the header after a wide run of spaces. This splits them
/// back into `(text part, rule part)`.
pub fn split_welded_rule(line: &str) -> (r: Option<(String, String)>)
    ensures
        match r {
            Some((a, b)) => welded_of(line@) == Some((a@, b@)),
            None => welded_of(line@) is None,
        },
{
    let c = chars_of(line);
    match split_welded_rule_chars(&c) {
        Some((a, b)) => Some((string_of(&a), string_of(&b))),
        None => None,
    }
}


// ------------------------------------------------------------------ boundary finding

/// The widest grid's width (0 for no grids).
pub open spec fn width_max(rows: Seq<ColsV>) -> int
    decreases rows.len(),
{
    if rows.len() == 0 {
        0
    } else {
        let p = width_max(rows.drop_last());
        let w = rows.last().filled.len() as int;
        if w > p {
            w
        } else {
            p
        }
    }
}

proof fn lemma_width_max(rows: Seq<ColsV>)
    ensures
        0 <= width_max(rows),
        forall|k: int| 0 <= k < rows.len() ==> (#[trigger] rows[k]).filled.len() <= width_max(rows),
        rows.len() > 0 ==> exists|k: int| 0 <= k < rows.len() && (#[trigger] rows[k]).filled.len() == width_max(rows),
    decreases rows.len(),
{
    if rows.len() > 0 {
        lemma_width_max(rows.drop_last());
        assert forall|k: int| 0 <= k < rows.len() implies (#[trigger] rows[k]).filled.len() <= width_max(rows) by {
            if k < rows.len() - 1 {
                assert(rows[k] == rows.drop_last()[k]);
            }
        }
        if width_max(rows) != rows.last().filled.len() {
            let k = choose|k: int| 0 <= k < rows.drop_last().len() && (#[trigger] rows.drop_last()[k]).filled.len() == width_max(rows.drop_last());
            assert(rows[k] == rows.drop_last()[k]);
        } else {
            assert(rows[rows.len() - 1] == rows.last());
        }
    }
}

spec fn views_of(v: Seq<Cols>) -> Seq<ColsV> {
    v.map_values(|g: Cols| g@)
}

fn width_of_rows(rows: &Vec<Cols>) -> (r: usize)
    ensures
        r == width_max(views_of(rows@)),
{
    let ghost vs = views_of(rows@);
    let mut w: usize = 0;
    let mut i: usize = 0;
    while i < rows.len()
        invariant
            i <= rows@.len(),
            vs == views_of(rows@),
            w == width_max(vs.take(i as int)),
        decreases rows@.len() - i,
    {
        assert(vs.take(i + 1).drop_last() =~= vs.take(i as int));
        let x = rows[i].width();
        if x > w {
            w = x;
        }
        i += 1;
    }
    assert(vs.take(rows@.len() as int) =~= vs);
    w
}

/// Every row either has the delimiter starting at column `c` or no ink there.
pub open spec fn delim_ok(rows: Seq<ColsV>, c: int, d: char) -> bool {
    forall|k: int| 0 <= k < rows.len() ==> char_at(#[trigger] rows[k], c) == Some(d) || !filled_at(rows[k], c)
}

/// How many rows have the delimiter starting at column `c`.
pub open spec fn delim_hits(rows: Seq<ColsV>, c: int, d: char) -> nat
    decreases rows.len(),
{
    if rows.len() == 0 {
        0
    } else {
        delim_hits(rows.drop_last(), c, d) + if char_at(rows.last(), c) == Some(d) {
            1nat
        } else {
            0nat
        }
    }
}

/// Columns below `n` where a vertical rule stands on every row that reaches them, and on
/// at least two rows.
pub open spec fn bounds_upto(rows: Seq<ColsV>, d: char, n: int) -> Seq<int>
    decreases n,
{
    if n <= 0 {
        Seq::empty()
    } else {
        let p = bounds_upto(rows, d, n - 1);
        if delim_ok(rows, n - 1, d) && delim_hits(rows, n - 1, d) >= 2 {
            p.push(n - 1)
        } else {
            p
        }
    }
}

pub open spec fn delimited_bounds_of(rows: Seq<ColsV>, d: char) -> Seq<int> {
    bounds_upto(rows, d, width_max(rows))
}

proof fn lemma_delim_hits_bound(rows: Seq<ColsV>, c: int, d: char)
    ensures
        delim_hits(rows, c, d) <= rows.len(),
    decreases rows.len(),
{
    if rows.len() > 0 {
        lemma_delim_hits_bound(rows.drop_last(), c, d);
    }
}

pub open spec fn grids_wf(rows: Seq<ColsV>) -> bool {
    forall|k: int| 0 <= k < rows.len() ==> (#[trigger] rows[k]).filled.len() == rows[k].starts.len()
}

fn delimited_bounds(rows: &Vec<Cols>, delim: char) -> (r: Vec<usize>)
    requires
        grids_wf(views_of(rows@)),
    ensures
        r@.map_values(|b: usize| b as int) == delimited_bounds_of(views_of(rows@), delim),
{
    let ghost vs = views_of(rows@);
    let width = width_of_rows(rows);
    let mut bounds: Vec<usize> = Vec::new();
    let mut c: usize = 0;
    while c < width
        invariant
            c <= width,
            vs == views_of(rows@),
            grids_wf(vs),
            width == width_max(vs),
            bounds@.map_values(|b: usize| b as int) == bounds_upto(vs, delim, c as int),
        decreases width - c,
    {
        let mut hits: usize = 0;
        let mut clean = true;
        let mut j: usize = 0;
        while j < rows.len() && clean
            invariant
                j <= rows@.len(),
                vs == views_of(rows@),
                grids_wf(vs),
                clean ==> delim_ok(vs.take(j as int), c as int, delim),
                !clean ==> !delim_ok(vs, c as int, delim),
                hits == delim_hits(vs.take(j as int), c as int, delim),
            decreases rows@.len() - j,
        {
            proof {
                assert(vs.take(j + 1).drop_last() =~= vs.take(j as int));
                lemma_delim_hits_bound(vs.take(j as int), c as int, delim);
            }
            let row = &rows[j];
            assert(vs[j as int] == row@);
            let ch = row.char_at(c);
            if ch == Some(delim) {
                hits += 1;
            } else if !row.filled_at(c) {
            } else {
                clean = false;
            }
            j += 1;
            proof {
                if !clean {
                    assert(!(char_at(vs[j - 1], c as int) == Some(delim) || !filled_at(vs[j - 1], c as int)));
                }
                if clean {
                    assert forall|k: int| 0 <= k < vs.take(j as int).len() implies char_at(#[trigger] vs.take(j as int)[k], c as int) == Some(delim) || !filled_at(vs.take(j as int)[k], c as int) by {
                        if k < j - 1 {
                            assert(vs.take(j as int)[k] == vs.take(j - 1)[k]);
                        }
                    }
                }
            }
        }
        proof {
            if clean {
                assert(vs.take(rows@.len() as int) =~= vs);
            }
        }
        let ghost before = bounds@;
        if clean && hits >= 2 {
            bounds.push(c);
            assert(bounds@.map_values(|b: usize| b as int) =~= before.map_values(|b: usize| b as int).push(c as int));
        }
        c += 1;
    }
    bounds
}

/// Column `c` is inside the grid width and no row has ink there.
pub open spec fn blank_col(rows: Seq<ColsV>, width: int, c: int) -> bool {
    c < width && forall|k: int| 0 <= k < rows.len() ==> !filled_at(#[trigger] rows[k], c)
}

/// A one-column gap `[start, c)` lies within two columns of a gap in a segmented rule.
pub open spec fn near_rule(rg: Seq<(int, int)>, start: int, c: int) -> bool {
    exists|k: int| 0 <= k < rg.len() && start <= (#[trigger] rg[k]).1 + 2 && c + 2 >= rg[k].0
}

/// Runs of blank columns among the first `n` columns: `(gaps, open run)`. A run becomes a
/// gap when it is at least two columns wide, or one column next to a rule gap.
pub open spec fn gaps_fold(rows: Seq<ColsV>, rg: Seq<(int, int)>, width: int, n: int) -> (
    Seq<(int, int)>,
    Option<int>,
)
    decreases n,
{
    if n <= 0 {
        (Seq::empty(), None)
    } else {
        let (gaps, run) = gaps_fold(rows, rg, width, n - 1);
        let c = n - 1;
        let blank = blank_col(rows, width, c);
        if blank && run is None {
            (gaps, Some(c))
        } else if !blank && run is Some {
            let start = run->0;
            let len = c - start;
            if len >= 2 || (len == 1 && near_rule(rg, start, c)) {
                (gaps.push((start, c)), None)
            } else {
                (gaps, None)
            }
        } else {
            (gaps, run)
        }
    }
}

/// Runs of columns left blank by every row: the gutters of a whitespace-aligned table.
pub open spec fn spaced_gaps_of(rows: Seq<ColsV>, rg: Seq<(int, int)>) -> Seq<(int, int)> {
    gaps_fold(rows, rg, width_max(rows), width_max(rows) + 1).0
}

pub open spec fn pairs_view(v: Seq<(usize, usize)>) -> Seq<(int, int)> {
    v.map_values(|p: (usize, usize)| (p.0 as int, p.1 as int))
}

fn blank_at(rows: &Vec<Cols>, width: usize, c: usize) -> (r: bool)
    ensures
        r == blank_col(views_of(rows@), width as int, c as int),
{
    if c >= width {
        return false;
    }
    let ghost vs = views_of(rows@);
    let mut j: usize = 0;
    while j < rows.len()
        invariant
            j <= rows@.len(),
            vs == views_of(rows@),
            forall|k: int| 0 <= k < j ==> !filled_at(#[trigger] vs[k], c as int),
        decreases rows@.len() - j,
    {
        assert(vs[j as int] == rows@[j as int]@);
        if rows[j].filled_at(c) {
            return false;
        }
        j += 1;
    }
    true
}

fn is_near_rule(rg: &Vec<(usize, usize)>, start: usize, c: usize) -> (r: bool)
    ensures
        r == near_rule(pairs_view(rg@), start as int, c as int),
{
    let ghost pv = pairs_view(rg@);
    let mut k: usize = 0;
    while k < rg.len()
        invariant
            k <= rg@.len(),
            pv == pairs_view(rg@),
            forall|m: int| 0 <= m < k ==> !(start <= (#[trigger] pv[m]).1 + 2 && c + 2 >= pv[m].0),
        decreases rg@.len() - k,
    {
        let (a, b) = rg[k];
        assert(pv[k as int] == (a as int, b as int));
        if (start as u128) <= (b as u128) + 2 && (c as u128) + 2 >= (a as u128) {
            return true;
        }
        k += 1;
    }
    false
}

fn gap_step(
    rows: &Vec<Cols>,
    rg: &Vec<(usize, usize)>,
    width: usize,
    c: usize,
    gaps: &mut Vec<(usize, usize)>,
    run: &mut Option<usize>,
)
    requires
        c <= width,
        pairs_view(old(gaps)@) == gaps_fold(views_of(rows@), pairs_view(rg@), width as int, c as int).0,
        *old(run) == match gaps_fold(views_of(rows@), pairs_view(rg@), width as int, c as int).1 {
            Some(s) => Some(s as usize),
            None => None::<usize>,
        },
        gaps_fold(views_of(rows@), pairs_view(rg@), width as int, c as int).1 matches Some(s) ==> 0 <= s < c,
    ensures
        pairs_view(final(gaps)@) == gaps_fold(views_of(rows@), pairs_view(rg@), width as int, c + 1).0,
        *final(run) == match gaps_fold(views_of(rows@), pairs_view(rg@), width as int, c + 1).1 {
            Some(s) => Some(s as usize),
            None => None::<usize>,
        },
        gaps_fold(views_of(rows@), pairs_view(rg@), width as int, c + 1).1 matches Some(s) ==> 0 <= s < c + 1,
{
    let blank = blank_at(rows, width, c);
    match *run {
        None => {
            if blank {
                *run = Some(c);
            }
        },
        Some(start) => {
            if !blank {
                let len = c - start;
                if len >= 2 || (len == 1 && is_near_rule(rg, start, c)) {
                    let ghost before = gaps@;
                    gaps.push((start, c));
                    assert(pairs_view(gaps@) =~= pairs_view(before).push((start as int, c as int)));
                }
                *run = None;
            }
        },
    }
}

fn spaced_gaps(rows: &Vec<Cols>, rg: &Vec<(usize, usize)>) -> (r: Vec<(usize, usize)>)
    ensures
        pairs_view(r@) == spaced_gaps_of(views_of(rows@), pairs_view(rg@)),
{
    let width = width_of_rows(rows);
    let mut gaps: Vec<(usize, usize)> = Vec::new();
    let mut run: Option<usize> = None;
    let mut c: usize = 0;
    while c < width
        invariant
            c <= width,
            width == width_max(views_of(rows@)),
            pairs_view(gaps@) == gaps_fold(views_of(rows@), pairs_view(rg@), width as int, c as int).0,
            run == match gaps_fold(views_of(rows@), pairs_view(rg@), width as int, c as int).1 {
                Some(s) => Some(s as usize),
                None => None::<usize>,
            },
            gaps_fold(views_of(rows@), pairs_view(rg@), width as int, c as int).1 matches Some(s) ==> 0 <= s < c,
        decreases width - c,
    {
        gap_step(rows, rg, width, c, &mut gaps, &mut run);
        c += 1;
    }
    gap_step(rows, rg, width, c, &mut gaps, &mut run);
    gaps
}

/// First index holding `true`, or 0 when there is none.
pub open spec fn first_true_from(f: Seq<bool>, i: int) -> int
    decreases f.len() - i,
{
    if i < 0 || i >= f.len() {
        0
    } else if f[i] {
        i
    } else {
        first_true_from(f, i + 1)
    }
}

/// Last index below `n` holding `true`, or 0 when there is none.
pub open spec fn last_true_upto(f: Seq<bool>, n: int) -> int
    decreases n,
{
    if n <= 0 || n > f.len() {
        0
    } else if f[n - 1] {
        n - 1
    } else {
        last_true_upto(f, n - 1)
    }
}

/// Keep the gaps that lie strictly between a rule's first and last inked columns.
pub open spec fn inner_gaps(gaps: Seq<(int, int)>, first: int, last: int) -> Seq<(int, int)>
    decreases gaps.len(),
{
    if gaps.len() == 0 {
        Seq::empty()
    } else {
        let p = inner_gaps(gaps.drop_last(), first, last);
        let g = gaps.last();
        if g.0 > first && g.1 <= last {
            p.push(g)
        } else {
            p
        }
    }
}

/// Internal gaps in a rule line (the whitespace between `━━━━  ━━━━` segments).
pub open spec fn rule_gaps_of(rule: ColsV) -> Seq<(int, int)> {
    inner_gaps(
        spaced_gaps_of(seq![rule], Seq::empty()),
        first_true_from(rule.filled, 0),
        last_true_upto(rule.filled, rule.filled.len() as int),
    )
}

/// The internal gaps of every rule, in order.
pub open spec fn all_rule_gaps(rules: Seq<ColsV>) -> Seq<(int, int)>
    decreases rules.len(),
{
    if rules.len() == 0 {
        Seq::empty()
    } else {
        all_rule_gaps(rules.drop_last()) + rule_gaps_of(rules.last())
    }
}

fn clone_cols(g: &Cols) -> (r: Cols)
    ensures
        r@ == g@,
{
    let mut filled: Vec<bool> = Vec::new();
    let mut starts: Vec<Option<char>> = Vec::new();
    let mut chars: Vec<(usize, char)> = Vec::new();
    let mut i: usize = 0;
    while i < g.filled.len()
        invariant
            i <= g.filled@.len(),
            filled@ == g.filled@.take(i as int),
        decreases g.filled@.len() - i,
    {
        filled.push(g.filled[i]);
        i += 1;
        assert(filled@ =~= g.filled@.take(i as int));
    }
    i = 0;
    while i < g.starts.len()
        invariant
            i <= g.starts@.len(),
            starts@ == g.starts@.take(i as int),
        decreases g.starts@.len() - i,
    {
        starts.push(g.starts[i]);
        i += 1;
        assert(starts@ =~= g.starts@.take(i as int));
    }
    i = 0;
    while i < g.chars.len()
        invariant
            i <= g.chars@.len(),
            chars@ == g.chars@.take(i as int),
        decreases g.chars@.len() - i,
    {
        chars.push(g.chars[i]);
        i += 1;
        assert(chars@ =~= g.chars@.take(i as int));
    }
    assert(filled@ =~= g.filled@);
    assert(starts@ =~= g.starts@);
    assert(chars@ =~= g.chars@);
    Cols { filled, starts, chars }
}

fn internal_rule_gaps(rule: &Cols) -> (r: Vec<(usize, usize)>)
    ensures
        pairs_view(r@) == rule_gaps_of(rule@),
{
    let n = rule.filled.len();
    let mut first: usize = 0;
    let mut i: usize = 0;
    assert(first_true_from(rule@.filled, 0) == first_true_from(rule@.filled, i as int));
    while i < n && !rule.filled[i]
        invariant
            i <= n == rule@.filled.len(),
            first_true_from(rule@.filled, 0) == first_true_from(rule@.filled, i as int),
        decreases n - i,
    {
        i += 1;
    }
    if i < n {
        first = i;
    }
    let mut last: usize = 0;
    let mut j: usize = n;
    while j > 0 && !rule.filled[j - 1]
        invariant
            j <= n == rule@.filled.len(),
            last_true_upto(rule@.filled, n as int) == last_true_upto(rule@.filled, j as int),
        decreases j,
    {
        j -= 1;
    }
    if j > 0 {
        last = j - 1;
    }
    let mut one: Vec<Cols> = Vec::new();
    one.push(clone_cols(rule));
    assert(views_of(one@) =~= seq![rule@]);
    let empty: Vec<(usize, usize)> = Vec::new();
    assert(pairs_view(empty@) =~= Seq::<(int, int)>::empty());
    let all = spaced_gaps(&one, &empty);
    let ghost av = pairs_view(all@);
    let mut out: Vec<(usize, usize)> = Vec::new();
    let mut k: usize = 0;
    while k < all.len()
        invariant
            k <= all@.len(),
            av == pairs_view(all@),
            pairs_view(out@) == inner_gaps(av.take(k as int), first as int, last as int),
        decreases all@.len() - k,
    {
        assert(av.take(k + 1).drop_last() =~= av.take(k as int));
        let (a, b) = all[k];
        assert(av[k as int] == (a as int, b as int));
        if a > first && b <= last {
            let ghost before = out@;
            out.push((a, b));
            assert(pairs_view(out@) =~= pairs_view(before).push((a as int, b as int)));
        }
        k += 1;
    }
    assert(av.take(all@.len() as int) =~= av);
    out
}

/// Turn delimiter columns into the column ranges between them.
pub open spec fn delim_ranges_fold(bounds: Seq<int>) -> (Seq<(int, int)>, int)
    decreases bounds.len(),
{
    if bounds.len() == 0 {
        (Seq::empty(), 0)
    } else {
        let (r, cursor) = delim_ranges_fold(bounds.drop_last());
        let b = bounds.last();
        (r.push((cursor, b)), b + 1)
    }
}

pub open spec fn ranges_from_delims(bounds: Seq<int>, width: int) -> Seq<(int, int)> {
    let (r, cursor) = delim_ranges_fold(bounds);
    r.push((cursor, if width > cursor { width } else { cursor }))
}

/// Turn gaps into the column ranges that hold the cells.
pub open spec fn gap_ranges_fold(gaps: Seq<(int, int)>) -> (Seq<(int, int)>, int)
    decreases gaps.len(),
{
    if gaps.len() == 0 {
        (Seq::empty(), 0)
    } else {
        let (r, cursor) = gap_ranges_fold(gaps.drop_last());
        let g = gaps.last();
        (if g.0 > cursor { r.push((cursor, g.0)) } else { r }, g.1)
    }
}

pub open spec fn ranges_from_gaps(gaps: Seq<(int, int)>, width: int) -> Seq<(int, int)> {
    let (r, cursor) = gap_ranges_fold(gaps);
    if cursor < width {
        r.push((cursor, width))
    } else {
        r
    }
}

proof fn lemma_bounds_upto(rows: Seq<ColsV>, d: char, n: int)
    ensures
        forall|k: int| 0 <= k < bounds_upto(rows, d, n).len() ==> 0 <= #[trigger] bounds_upto(rows, d, n)[k] < n,
    decreases n,
{
    if n > 0 {
        lemma_bounds_upto(rows, d, n - 1);
        let p = bounds_upto(rows, d, n - 1);
        assert forall|k: int| 0 <= k < bounds_upto(rows, d, n).len() implies 0 <= #[trigger] bounds_upto(rows, d, n)[k] < n by {
            if k < p.len() {
                assert(bounds_upto(rows, d, n)[k] == p[k]);
            }
        }
    }
}

fn delim_ranges(bounds: &Vec<usize>, width: usize) -> (r: Vec<(usize, usize)>)
    requires
        forall|k: int| 0 <= k < bounds@.len() ==> #[trigger] bounds@[k] < usize::MAX,
    ensures
        pairs_view(r@) == ranges_from_delims(bounds@.map_values(|b: usize| b as int), width as int),
{
    let ghost bv = bounds@.map_values(|b: usize| b as int);
    let mut out: Vec<(usize, usize)> = Vec::new();
    let mut cursor: usize = 0;
    let mut i: usize = 0;
    while i < bounds.len()
        invariant
            i <= bounds@.len(),
            bv == bounds@.map_values(|b: usize| b as int),
            forall|k: int| 0 <= k < bounds@.len() ==> #[trigger] bounds@[k] < usize::MAX,
            pairs_view(out@) == delim_ranges_fold(bv.take(i as int)).0,
            cursor == delim_ranges_fold(bv.take(i as int)).1,
        decreases bounds@.len() - i,
    {
        assert(bv.take(i + 1).drop_last() =~= bv.take(i as int));
        let b = bounds[i];
        let ghost before = out@;
        out.push((cursor, b));
        assert(pairs_view(out@) =~= pairs_view(before).push((cursor as int, b as int)));
        cursor = b + 1;
        i += 1;
    }
    assert(bv.take(bounds@.len() as int) =~= bv);
    let ghost before = out@;
    let hi = if width > cursor { width } else { cursor };
    out.push((cursor, hi));
    assert(pairs_view(out@) =~= pairs_view(before).push((cursor as int, hi as int)));
    out
}

fn gap_ranges(gaps: &Vec<(usize, usize)>, width: usize) -> (r: Vec<(usize, usize)>)
    ensures
        pairs_view(r@) == ranges_from_gaps(pairs_view(gaps@), width as int),
{
    let ghost gv = pairs_view(gaps@);
    let mut out: Vec<(usize, usize)> = Vec::new();
    let mut cursor: usize = 0;
    let mut i: usize = 0;
    while i < gaps.len()
        invariant
            i <= gaps@.len(),
            gv == pairs_view(gaps@),
            pairs_view(out@) == gap_ranges_fold(gv.take(i as int)).0,
            cursor == gap_ranges_fold(gv.take(i as int)).1,
        decreases gaps@.len() - i,
    {
        assert(gv.take(i + 1).drop_last() =~= gv.take(i as int));
        let (a, b) = gaps[i];
        assert(gv[i as int] == (a as int, b as int));
        if a > cursor {
            let ghost before = out@;
            out.push((cursor, a));
            assert(pairs_view(out@) =~= pairs_view(before).push((cursor as int, a as int)));
        }
        cursor = b;
        i += 1;
    }
    assert(gv.take(gaps@.len() as int) =~= gv);
    if cursor < width {
        let ghost before = out@;
        out.push((cursor, width));
        assert(pairs_view(out@) =~= pairs_view(before).push((cursor as int, width as int)));
    }
    out
}


// ------------------------------------------------------------------ detection

/// The vertical rules a renderer might draw between columns, in order of preference on a
/// tie (the later one wins).
pub open spec fn delimiters() -> Seq<char> {
    seq!['│', '┃', '║', '|']
}

/// The grids of the lines that are not rules.
pub open spec fn content_grids(texts: Seq<Seq<char>>) -> Seq<ColsV>
    decreases texts.len(),
{
    if texts.len() == 0 {
        Seq::empty()
    } else if rule_of(texts.last()) {
        content_grids(texts.drop_last())
    } else {
        content_grids(texts.drop_last()).push(cols_of(texts.last()))
    }
}

/// The lines that are not rules.
pub open spec fn content_texts(texts: Seq<Seq<char>>) -> Seq<Seq<char>>
    decreases texts.len(),
{
    if texts.len() == 0 {
        Seq::empty()
    } else if rule_of(texts.last()) {
        content_texts(texts.drop_last())
    } else {
        content_texts(texts.drop_last()).push(texts.last())
    }
}

/// The grids of the rule lines.
pub open spec fn rule_grids(texts: Seq<Seq<char>>) -> Seq<ColsV>
    decreases texts.len(),
{
    if texts.len() == 0 {
        Seq::empty()
    } else if rule_of(texts.last()) {
        rule_grids(texts.drop_last()).push(cols_of(texts.last()))
    } else {
        rule_grids(texts.drop_last())
    }
}

/// How many of the lines contain `d`.
pub open spec fn rows_with(texts: Seq<Seq<char>>, d: char) -> nat
    decreases texts.len(),
{
    if texts.len() == 0 {
        0
    } else {
        rows_with(texts.drop_last(), d) + if texts.last().contains(d) {
            1nat
        } else {
            0nat
        }
    }
}

/// The delimiter found on the most lines (at least two), later candidates winning ties.
pub open spec fn delim_pick(texts: Seq<Seq<char>>, ds: Seq<char>) -> Option<(char, nat)>
    decreases ds.len(),
{
    if ds.len() == 0 {
        None
    } else {
        let best = delim_pick(texts, ds.drop_last());
        let d = ds.last();
        let n = rows_with(texts, d);
        let beats = match best {
            None => true,
            Some((_, m)) => n >= m,
        };
        if n >= 2 && beats {
            Some((d, n))
        } else {
            best
        }
    }
}

/// The separator style and the column ranges of a block: between explicit delimiters
/// when one is present, otherwise between the blank columns.
pub open spec fn column_plan(texts: Seq<Seq<char>>) -> Option<(Sep, Seq<(int, int)>)> {
    let content = content_grids(texts);
    let width = width_max(content);
    match delim_pick(content_texts(texts), delimiters()) {
        Some((d, _)) => {
            let b = delimited_bounds_of(content, d);
            if b.len() == 0 {
                None
            } else {
                Some((Sep::Delimited(d), ranges_from_delims(b, width)))
            }
        },
        None => {
            let g = spaced_gaps_of(content, all_rule_gaps(rule_grids(texts)));
            if g.len() == 0 {
                None
            } else {
                Some((Sep::Spaced, ranges_from_gaps(g, width)))
            }
        },
    }
}

/// Some row has text in the range.
pub open spec fn range_used(content: Seq<ColsV>, r: (int, int)) -> bool {
    exists|k: int| 0 <= k < content.len() && slice_of(#[trigger] content[k], r.0, r.1).len() > 0
}

/// The ranges some row fills; the others are the outside of a frame, not columns.
pub open spec fn keep_ranges(ranges: Seq<(int, int)>, content: Seq<ColsV>) -> Seq<(int, int)>
    decreases ranges.len(),
{
    if ranges.len() == 0 {
        Seq::empty()
    } else {
        let p = keep_ranges(ranges.drop_last(), content);
        if range_used(content, ranges.last()) {
            p.push(ranges.last())
        } else {
            p
        }
    }
}

/// One logical row (view): continuation lines already folded into their cells.
pub struct RowV {
    pub cells: Seq<Seq<char>>,
    pub head: bool,
}

/// The cells of a line under the given column ranges.
pub open spec fn cells_of(g: ColsV, ranges: Seq<(int, int)>) -> Seq<Seq<char>> {
    ranges.map_values(|r: (int, int)| slice_of(g, r.0, r.1))
}

pub open spec fn all_empty(cells: Seq<Seq<char>>) -> bool {
    forall|k: int| 0 <= k < cells.len() ==> (#[trigger] cells[k]).len() == 0
}

/// A row that continues the one above: its first cell is empty where the previous row's
/// was not, no rule came between, and something actually continues.
pub open spec fn continuation(cells: Seq<Seq<char>>, rows: Seq<RowV>, after_rule: bool) -> bool {
    !after_rule && rows.len() > 0 && cells.len() > 0 && cells[0].len() == 0 && rows.last().cells.len()
        > 0 && rows.last().cells[0].len() > 0 && !all_empty(cells)
}

/// A wrapped fragment appended to its cell: with a space, unless the break came after a
/// hyphen, a slash or a ZWNJ, or before a slash.
pub open spec fn fold_cell(target: Seq<char>, extra: Seq<char>) -> Seq<char> {
    if extra.len() == 0 {
        target
    } else if target.len() == 0 {
        extra
    } else if target.last() == '-' || target.last() == '/' || target.last() == '\u{200c}'
        || extra[0] == '/' {
        target + extra
    } else {
        target + seq![' '] + extra
    }
}

pub open spec fn fold_row(row: RowV, cells: Seq<Seq<char>>) -> RowV {
    RowV {
        cells: Seq::new(
            row.cells.len(),
            |k: int|
                if k < cells.len() {
                    fold_cell(row.cells[k], cells[k])
                } else {
                    row.cells[k]
                },
        ),
        head: row.head,
    }
}

/// Build the logical rows of a block: `(rows, header still open, a rule just passed)`.
/// A row is a header only when a rule follows it while it is the only row so far; every
/// other row is a body row.
pub open spec fn rows_fold(texts: Seq<Seq<char>>, ranges: Seq<(int, int)>) -> (Seq<RowV>, bool, bool)
    decreases texts.len(),
{
    if texts.len() == 0 {
        (Seq::empty(), true, false)
    } else {
        let (rows, head_open, saw) = rows_fold(texts.drop_last(), ranges);
        let t = texts.last();
        if rule_of(t) {
            // A rule right under the first row closes the header: that row is the head.
            let marked = if rows.len() == 1 && head_open {
                rows.update(0, RowV { cells: rows[0].cells, head: true })
            } else {
                rows
            };
            (marked, if rows.len() > 0 { false } else { head_open }, true)
        } else {
            let cells = cells_of(cols_of(t), ranges);
            if all_empty(cells) {
                (rows, head_open, saw)
            } else if continuation(cells, rows, saw) {
                (rows.update(rows.len() - 1, fold_row(rows.last(), cells)), head_open, false)
            } else {
                (rows.push(RowV { cells, head: false }), head_open, false)
            }
        }
    }
}

/// Number of non-empty cells.
pub open spec fn nonempty_cells(cells: Seq<Seq<char>>) -> nat
    decreases cells.len(),
{
    if cells.len() == 0 {
        0
    } else {
        nonempty_cells(cells.drop_last()) + if cells.last().len() > 0 {
            1nat
        } else {
            0nat
        }
    }
}

/// Number of rows filling at least two cells.
pub open spec fn populated(rows: Seq<RowV>) -> nat
    decreases rows.len(),
{
    if rows.len() == 0 {
        0
    } else {
        populated(rows.drop_last()) + if nonempty_cells(rows.last().cells) >= 2 {
            1nat
        } else {
            0nat
        }
    }
}

/// A cell holds content: some text that is not just the table's own column rule (a
/// closing rule that drifted by a column lands in a cell of its own, and is frame).
pub open spec fn holds_content(c: Seq<char>, sep: Sep) -> bool {
    c.len() > 0 && match sep {
        Sep::Delimited(d) => exists|i: int| 0 <= i < c.len() && #[trigger] c[i] != d,
        Sep::Spaced => true,
    }
}

/// Which cells of a row hold content.
pub open spec fn pattern(r: RowV, sep: Sep) -> Seq<bool> {
    r.cells.map_values(|c: Seq<char>| holds_content(c, sep))
}

/// Every row fills the same columns as the first.
pub open spec fn uniform(rows: Seq<RowV>, sep: Sep) -> bool {
    forall|k: int| 0 <= k < rows.len() ==> pattern(#[trigger] rows[k], sep) == pattern(rows[0], sep)
}

/// A detected table (view) and the span of input lines it accounts for.
pub struct TableV {
    pub rows: Seq<RowV>,
    pub columns: int,
    pub sep: Sep,
    pub framed: bool,
    pub start: int,
    pub end: int,
}

/// Read the block of lines `texts` (input lines `start..end`) as a single table: at least
/// two content lines, a column plan with at least two used columns, at least two logical
/// rows of which two fill two cells, and without a header rule a uniform shape.
pub open spec fn analyse_of(texts: Seq<Seq<char>>, start: int, end: int) -> Option<TableV> {
    if texts.len() < 2 || content_grids(texts).len() < 2 {
        None
    } else {
        match column_plan(texts) {
            None => None,
            Some((sep, ranges0)) => {
                let ranges = keep_ranges(ranges0, content_grids(texts));
                if ranges.len() < 2 {
                    None
                } else {
                    let rows = rows_fold(texts, ranges).0;
                    if rows.len() < 2 || populated(rows) < 2 {
                        None
                    } else if !rows[0].head && !uniform(rows, sep) {
                        None
                    } else {
                        Some(
                            TableV {
                                rows,
                                columns: ranges.len() as int,
                                sep,
                                framed: exists|k: int| 0 <= k < texts.len() && frame_of(#[trigger] texts[k]),
                                start,
                                end,
                            },
                        )
                    }
                }
            },
        }
    }
}


// ------------------------------------------------------------------ detection (exec)

/// The views of a vector of character vectors.
pub open spec fn texts_view(v: Seq<Vec<char>>) -> Seq<Seq<char>> {
    v.map_values(|t: Vec<char>| t@)
}

struct RowC {
    cells: Vec<Vec<char>>,
    head: bool,
}

impl View for RowC {
    type V = RowV;

    closed spec fn view(&self) -> RowV {
        RowV { cells: texts_view(self.cells@), head: self.head }
    }
}

spec fn rows_view(v: Seq<RowC>) -> Seq<RowV> {
    v.map_values(|r: RowC| r@)
}

proof fn lemma_grids_wf(texts: Seq<Seq<char>>)
    ensures
        grids_wf(content_grids(texts)),
        grids_wf(rule_grids(texts)),
    decreases texts.len(),
{
    if texts.len() > 0 {
        lemma_grids_wf(texts.drop_last());
        lemma_cols_of(texts.last());
    }
}

/// Split a block into content grids, content texts and rule grids.
fn classify(texts: &Vec<Vec<char>>, start: usize, end: usize) -> (r: (Vec<bool>, Vec<Cols>, Vec<Cols>))
    requires
        start <= end <= texts@.len(),
    ensures
        r.0@ == texts_view(texts@).subrange(start as int, end as int).map_values(|t: Seq<char>| rule_of(t)),
        views_of(r.1@) == content_grids(texts_view(texts@).subrange(start as int, end as int)),
        views_of(r.2@) == rule_grids(texts_view(texts@).subrange(start as int, end as int)),
{
    let ghost block = texts_view(texts@).subrange(start as int, end as int);
    let mut kinds: Vec<bool> = Vec::new();
    let mut content: Vec<Cols> = Vec::new();
    let mut rules: Vec<Cols> = Vec::new();
    let mut k = start;
    while k < end
        invariant
            start <= k <= end <= texts@.len(),
            block == texts_view(texts@).subrange(start as int, end as int),
            kinds@ == block.take(k - start).map_values(|t: Seq<char>| rule_of(t)),
            views_of(content@) == content_grids(block.take(k - start)),
            views_of(rules@) == rule_grids(block.take(k - start)),
        decreases end - k,
    {
        assert(block.take(k + 1 - start).drop_last() =~= block.take(k - start));
        assert(block[k - start] == texts@[k as int]@);
        let t = &texts[k];
        let rule = is_rule_chars(t);
        let ghost kb = kinds@;
        kinds.push(rule);
        assert(kinds@ =~= block.take(k + 1 - start).map_values(|t: Seq<char>| rule_of(t)));
        let g = Cols::new(t);
        if rule {
            let ghost rb = rules@;
            rules.push(g);
            assert(views_of(rules@) =~= views_of(rb).push(g@));
        } else {
            let ghost cb = content@;
            content.push(g);
            assert(views_of(content@) =~= views_of(cb).push(g@));
        }
        k += 1;
    }
    assert(block.take(end - start) =~= block);
    (kinds, content, rules)
}

/// How many content lines of the block contain `d`.
fn count_rows_with(texts: &Vec<Vec<char>>, start: usize, end: usize, d: char) -> (r: usize)
    requires
        start <= end <= texts@.len(),
    ensures
        r == rows_with(content_texts(texts_view(texts@).subrange(start as int, end as int)), d),
{
    let ghost block = texts_view(texts@).subrange(start as int, end as int);
    let mut n: usize = 0;
    let mut k = start;
    while k < end
        invariant
            start <= k <= end <= texts@.len(),
            block == texts_view(texts@).subrange(start as int, end as int),
            n == rows_with(content_texts(block.take(k - start)), d),
            n <= k - start,
        decreases end - k,
    {
        assert(block.take(k + 1 - start).drop_last() =~= block.take(k - start));
        assert(block[k - start] == texts@[k as int]@);
        let t = &texts[k];
        proof {
            lemma_content_texts_len(block.take(k - start));
            let prev = content_texts(block.take(k - start));
            assert(prev.push(t@).drop_last() =~= prev);
        }
        if !is_rule_chars(t) {
            if crate::text::has_char(t, d) {
                n += 1;
            }
        }
        k += 1;
    }
    assert(block.take(end - start) =~= block);
    n
}

proof fn lemma_content_texts_len(texts: Seq<Seq<char>>)
    ensures
        content_texts(texts).len() <= texts.len(),
    decreases texts.len(),
{
    if texts.len() > 0 {
        lemma_content_texts_len(texts.drop_last());
    }
}

fn pick_delimiter(texts: &Vec<Vec<char>>, start: usize, end: usize) -> (r: Option<char>)
    requires
        start <= end <= texts@.len(),
    ensures
        match delim_pick(content_texts(texts_view(texts@).subrange(start as int, end as int)), delimiters()) {
            Some((d, _)) => r == Some(d),
            None => r is None,
        },
{
    let ghost ct = content_texts(texts_view(texts@).subrange(start as int, end as int));
    let ds: Vec<char> = vec!['│', '┃', '║', '|'];
    assert(ds@ =~= delimiters());
    let mut best: Option<(char, usize)> = None;
    let mut i: usize = 0;
    while i < ds.len()
        invariant
            i <= ds@.len(),
            ds@ == delimiters(),
            ct == content_texts(texts_view(texts@).subrange(start as int, end as int)),
            start <= end <= texts@.len(),
            match delim_pick(ct, ds@.take(i as int)) {
                Some((d, n)) => best matches Some((d2, m)) && d2 == d && m as nat == n,
                None => best is None,
            },
        decreases ds@.len() - i,
    {
        assert(ds@.take(i + 1).drop_last() =~= ds@.take(i as int));
        let d = ds[i];
        assert(ds@.take(i + 1).last() == d);
        let n = count_rows_with(texts, start, end, d);
        let beats = match best {
            None => true,
            Some((_, m)) => n >= m,
        };
        if n >= 2 && beats {
            best = Some((d, n));
        }
        i += 1;
    }
    assert(ds@.take(ds@.len() as int) =~= ds@);
    match best {
        Some((d, _)) => Some(d),
        None => None,
    }
}

fn all_rule_gaps_exec(rules: &Vec<Cols>) -> (r: Vec<(usize, usize)>)
    ensures
        pairs_view(r@) == all_rule_gaps(views_of(rules@)),
{
    let ghost rv = views_of(rules@);
    let mut out: Vec<(usize, usize)> = Vec::new();
    let mut i: usize = 0;
    while i < rules.len()
        invariant
            i <= rules@.len(),
            rv == views_of(rules@),
            pairs_view(out@) == all_rule_gaps(rv.take(i as int)),
        decreases rules@.len() - i,
    {
        assert(rv.take(i + 1).drop_last() =~= rv.take(i as int));
        assert(rv[i as int] == rules@[i as int]@);
        let g = internal_rule_gaps(&rules[i]);
        let mut j: usize = 0;
        let ghost base = out@;
        while j < g.len()
            invariant
                j <= g@.len(),
                pairs_view(out@) == pairs_view(base) + pairs_view(g@).take(j as int),
            decreases g@.len() - j,
        {
            let ghost ob = out@;
            out.push(g[j]);
            assert(pairs_view(out@) =~= pairs_view(ob).push((g@[j as int].0 as int, g@[j as int].1 as int)));
            assert(pairs_view(g@).take(j + 1) =~= pairs_view(g@).take(j as int).push(pairs_view(g@)[j as int]));
            j += 1;
            assert(pairs_view(out@) =~= pairs_view(base) + pairs_view(g@).take(j as int));
        }
        assert(pairs_view(g@).take(g@.len() as int) =~= pairs_view(g@));
        i += 1;
    }
    assert(rv.take(rules@.len() as int) =~= rv);
    out
}

/// The separator and column ranges of a block, if it has any.
fn plan_columns(texts: &Vec<Vec<char>>, start: usize, end: usize, content: &Vec<Cols>, rules: &Vec<
    Cols,
>) -> (r: Option<(Sep, Vec<(usize, usize)>)>)
    requires
        start <= end <= texts@.len(),
        views_of(content@) == content_grids(texts_view(texts@).subrange(start as int, end as int)),
        views_of(rules@) == rule_grids(texts_view(texts@).subrange(start as int, end as int)),
    ensures
        match column_plan(texts_view(texts@).subrange(start as int, end as int)) {
            Some((sep, ranges)) => r matches Some((s2, r2)) && s2 == sep && pairs_view(r2@) == ranges,
            None => r is None,
        },
{
    let ghost block = texts_view(texts@).subrange(start as int, end as int);
    proof {
        lemma_grids_wf(block);
    }
    let width = width_of_rows(content);
    match pick_delimiter(texts, start, end) {
        Some(d) => {
            let bounds = delimited_bounds(content, d);
            if bounds.len() == 0 {
                return None;
            }
            proof {
                lemma_bounds_upto(views_of(content@), d, width as int);
                assert forall|k: int| 0 <= k < bounds@.len() implies #[trigger] bounds@[k] < usize::MAX by {
                    assert(bounds@.map_values(|b: usize| b as int)[k] == bounds@[k] as int);
                }
            }
            let ranges = delim_ranges(&bounds, width);
            Some((Sep::Delimited(d), ranges))
        },
        None => {
            let rg = all_rule_gaps_exec(rules);
            let gaps = spaced_gaps(content, &rg);
            if gaps.len() == 0 {
                return None;
            }
            let ranges = gap_ranges(&gaps, width);
            Some((Sep::Spaced, ranges))
        },
    }
}

fn range_is_used(content: &Vec<Cols>, a: usize, b: usize) -> (r: bool)
    ensures
        r == range_used(views_of(content@), (a as int, b as int)),
{
    let ghost cv = views_of(content@);
    let mut k: usize = 0;
    while k < content.len()
        invariant
            k <= content@.len(),
            cv == views_of(content@),
            forall|m: int| 0 <= m < k ==> slice_of(#[trigger] cv[m], a as int, b as int).len() == 0,
        decreases content@.len() - k,
    {
        assert(cv[k as int] == content@[k as int]@);
        let t = content[k].slice(a, b);
        if t.len() > 0 {
            return true;
        }
        k += 1;
    }
    false
}

fn keep_used(ranges: &Vec<(usize, usize)>, content: &Vec<Cols>) -> (r: Vec<(usize, usize)>)
    ensures
        pairs_view(r@) == keep_ranges(pairs_view(ranges@), views_of(content@)),
{
    let ghost rv = pairs_view(ranges@);
    let mut out: Vec<(usize, usize)> = Vec::new();
    let mut i: usize = 0;
    while i < ranges.len()
        invariant
            i <= ranges@.len(),
            rv == pairs_view(ranges@),
            pairs_view(out@) == keep_ranges(rv.take(i as int), views_of(content@)),
        decreases ranges@.len() - i,
    {
        assert(rv.take(i + 1).drop_last() =~= rv.take(i as int));
        let (a, b) = ranges[i];
        assert(rv[i as int] == (a as int, b as int));
        if range_is_used(content, a, b) {
            let ghost before = out@;
            out.push((a, b));
            assert(pairs_view(out@) =~= pairs_view(before).push((a as int, b as int)));
        }
        i += 1;
    }
    assert(rv.take(ranges@.len() as int) =~= rv);
    out
}

fn cells_for(g: &Cols, ranges: &Vec<(usize, usize)>) -> (r: Vec<Vec<char>>)
    ensures
        texts_view(r@) == cells_of(g@, pairs_view(ranges@)),
{
    let mut out: Vec<Vec<char>> = Vec::new();
    let mut i: usize = 0;
    while i < ranges.len()
        invariant
            i <= ranges@.len(),
            texts_view(out@) == cells_of(g@, pairs_view(ranges@)).take(i as int),
        decreases ranges@.len() - i,
    {
        let (a, b) = ranges[i];
        let t = g.slice(a, b);
        let ghost before = out@;
        out.push(t);
        assert(texts_view(out@) =~= texts_view(before).push(t@));
        i += 1;
        assert(texts_view(out@) =~= cells_of(g@, pairs_view(ranges@)).take(i as int));
    }
    assert(cells_of(g@, pairs_view(ranges@)).take(ranges@.len() as int) =~= cells_of(g@, pairs_view(ranges@)));
    out
}

fn all_cells_empty(cells: &Vec<Vec<char>>) -> (r: bool)
    ensures
        r == all_empty(texts_view(cells@)),
{
    let mut k: usize = 0;
    while k < cells.len()
        invariant
            k <= cells@.len(),
            forall|m: int| 0 <= m < k ==> (#[trigger] texts_view(cells@)[m]).len() == 0,
        decreases cells@.len() - k,
    {
        assert(texts_view(cells@)[k as int] == cells@[k as int]@);
        if cells[k].len() > 0 {
            return false;
        }
        k += 1;
    }
    true
}

fn fold_cell_exec(target: &Vec<char>, extra: &Vec<char>) -> (r: Vec<char>)
    ensures
        r@ == fold_cell(target@, extra@),
{
    if extra.len() == 0 {
        return copy_chars(target);
    }
    if target.len() == 0 {
        return copy_chars(extra);
    }
    let last = target[target.len() - 1];
    let split_token = last == '-' || last == '/' || last == '\u{200c}' || extra[0] == '/';
    let mut out = copy_chars(target);
    if !split_token {
        out.push(' ');
    }
    push_all(&mut out, extra);
    out
}

fn fold_into(row: RowC, cells: &Vec<Vec<char>>) -> (r: RowC)
    ensures
        r@ == fold_row(row@, texts_view(cells@)),
{
    let mut out: Vec<Vec<char>> = Vec::new();
    let mut k: usize = 0;
    let ghost target = fold_row(row@, texts_view(cells@)).cells;
    while k < row.cells.len()
        invariant
            k <= row.cells@.len(),
            target == fold_row(row@, texts_view(cells@)).cells,
            texts_view(out@) == target.take(k as int),
        decreases row.cells@.len() - k,
    {
        let t = if k < cells.len() {
            fold_cell_exec(&row.cells[k], &cells[k])
        } else {
            copy_chars(&row.cells[k])
        };
        let ghost before = out@;
        out.push(t);
        assert(texts_view(out@) =~= texts_view(before).push(t@));
        k += 1;
        assert(texts_view(out@) =~= target.take(k as int));
    }
    assert(target.take(row.cells@.len() as int) =~= target);
    RowC { cells: out, head: row.head }
}

fn is_continuation(cells: &Vec<Vec<char>>, rows: &Vec<RowC>, after_rule: bool) -> (r: bool)
    ensures
        r == continuation(texts_view(cells@), rows_view(rows@), after_rule),
{
    if after_rule || rows.len() == 0 || cells.len() == 0 {
        return false;
    }
    let prev = &rows[rows.len() - 1];
    assert(rows_view(rows@).last() == prev@);
    if cells[0].len() != 0 || prev.cells.len() == 0 || prev.cells[0].len() == 0 {
        return false;
    }
    !all_cells_empty(cells)
}

fn build_rows(texts: &Vec<Vec<char>>, start: usize, end: usize, ranges: &Vec<(usize, usize)>) -> (r: Vec<RowC>)
    requires
        start <= end <= texts@.len(),
    ensures
        rows_view(r@) == rows_fold(texts_view(texts@).subrange(start as int, end as int), pairs_view(ranges@)).0,
{
    let ghost block = texts_view(texts@).subrange(start as int, end as int);
    let ghost rv = pairs_view(ranges@);
    let mut rows: Vec<RowC> = Vec::new();
    let mut head_open = true;
    let mut saw_rule = false;
    let mut k = start;
    while k < end
        invariant
            start <= k <= end <= texts@.len(),
            block == texts_view(texts@).subrange(start as int, end as int),
            rv == pairs_view(ranges@),
            (rows_view(rows@), head_open, saw_rule) == rows_fold(block.take(k - start), rv),
        decreases end - k,
    {
        assert(block.take(k + 1 - start).drop_last() =~= block.take(k - start));
        assert(block[k - start] == texts@[k as int]@);
        let t = &texts[k];
        if is_rule_chars(t) {
            if rows.len() == 1 && head_open {
                let ghost before = rows_view(rows@);
                let first = rows.pop().unwrap();
                assert(first@ == before[0]);
                let marked = RowC { cells: first.cells, head: true };
                rows.push(marked);
                assert(rows_view(rows@) =~= before.update(0, RowV { cells: before[0].cells, head: true }));
            }
            if rows.len() > 0 {
                head_open = false;
            }
            saw_rule = true;
        } else {
            let g = Cols::new(t);
            let cells = cells_for(&g, ranges);
            if !all_cells_empty(&cells) {
                if is_continuation(&cells, &rows, saw_rule) {
                    let ghost before = rows_view(rows@);
                    let last = rows.pop().unwrap();
                    assert(rows_view(rows@) =~= before.drop_last());
                    assert(last@ == before.last());
                    let folded = fold_into(last, &cells);
                    rows.push(folded);
                    assert(rows_view(rows@) =~= before.update(before.len() - 1, folded@));
                } else {
                    let ghost before = rows_view(rows@);
                    let row = RowC { cells, head: false };
                    rows.push(row);
                    assert(rows_view(rows@) =~= before.push(row@));
                }
                saw_rule = false;
            }
        }
        k += 1;
    }
    assert(block.take(end - start) =~= block);
    rows
}

fn count_nonempty(cells: &Vec<Vec<char>>) -> (r: usize)
    ensures
        r == nonempty_cells(texts_view(cells@)),
{
    let ghost cv = texts_view(cells@);
    let mut n: usize = 0;
    let mut k: usize = 0;
    while k < cells.len()
        invariant
            k <= cells@.len(),
            cv == texts_view(cells@),
            n == nonempty_cells(cv.take(k as int)),
            n <= k,
        decreases cells@.len() - k,
    {
        assert(cv.take(k + 1).drop_last() =~= cv.take(k as int));
        assert(cv[k as int] == cells@[k as int]@);
        if cells[k].len() > 0 {
            n += 1;
        }
        k += 1;
    }
    assert(cv.take(cells@.len() as int) =~= cv);
    n
}

fn count_populated(rows: &Vec<RowC>) -> (r: usize)
    ensures
        r == populated(rows_view(rows@)),
{
    let ghost rv = rows_view(rows@);
    let mut n: usize = 0;
    let mut k: usize = 0;
    while k < rows.len()
        invariant
            k <= rows@.len(),
            rv == rows_view(rows@),
            n == populated(rv.take(k as int)),
            n <= k,
        decreases rows@.len() - k,
    {
        assert(rv.take(k + 1).drop_last() =~= rv.take(k as int));
        assert(rv[k as int] == rows@[k as int]@);
        if count_nonempty(&rows[k].cells) >= 2 {
            n += 1;
        }
        k += 1;
    }
    assert(rv.take(rows@.len() as int) =~= rv);
    n
}

fn holds_content_exec(c: &Vec<char>, sep: Sep) -> (r: bool)
    ensures
        r == holds_content(c@, sep),
{
    if c.len() == 0 {
        return false;
    }
    match sep {
        Sep::Spaced => true,
        Sep::Delimited(d) => {
            let mut i: usize = 0;
            while i < c.len()
                invariant
                    i <= c@.len(),
                    c@.len() > 0,
                    sep == Sep::Delimited(d),
                    forall|m: int| 0 <= m < i ==> c@[m] == d,
                decreases c@.len() - i,
            {
                if c[i] != d {
                    assert(c@[i as int] != d);
                    return true;
                }
                i += 1;
            }
            false
        },
    }
}

fn same_pattern(a: &Vec<Vec<char>>, b: &Vec<Vec<char>>, sep: Sep) -> (r: bool)
    ensures
        r == (texts_view(a@).map_values(|c: Seq<char>| holds_content(c, sep)) == texts_view(b@).map_values(
            |c: Seq<char>| holds_content(c, sep),
        )),
{
    let ghost pa = texts_view(a@).map_values(|c: Seq<char>| holds_content(c, sep));
    let ghost pb = texts_view(b@).map_values(|c: Seq<char>| holds_content(c, sep));
    if a.len() != b.len() {
        assert(pa.len() != pb.len());
        return false;
    }
    let mut k: usize = 0;
    while k < a.len()
        invariant
            k <= a@.len() == b@.len(),
            pa == texts_view(a@).map_values(|c: Seq<char>| holds_content(c, sep)),
            pb == texts_view(b@).map_values(|c: Seq<char>| holds_content(c, sep)),
            forall|m: int| 0 <= m < k ==> pa[m] == pb[m],
        decreases a@.len() - k,
    {
        assert(pa[k as int] == holds_content(a@[k as int]@, sep));
        assert(pb[k as int] == holds_content(b@[k as int]@, sep));
        if holds_content_exec(&a[k], sep) != holds_content_exec(&b[k], sep) {
            return false;
        }
        k += 1;
    }
    assert(pa =~= pb);
    true
}

fn is_uniform(rows: &Vec<RowC>, sep: Sep) -> (r: bool)
    requires
        rows@.len() > 0,
    ensures
        r == uniform(rows_view(rows@), sep),
{
    let ghost rv = rows_view(rows@);
    let mut k: usize = 0;
    while k < rows.len()
        invariant
            k <= rows@.len(),
            rows@.len() > 0,
            rv == rows_view(rows@),
            forall|m: int| 0 <= m < k ==> pattern(#[trigger] rv[m], sep) == pattern(rv[0], sep),
        decreases rows@.len() - k,
    {
        assert(rv[k as int] == rows@[k as int]@);
        assert(rv[0] == rows@[0]@);
        if !same_pattern(&rows[k].cells, &rows[0].cells, sep) {
            return false;
        }
        k += 1;
    }
    true
}

fn any_frame(texts: &Vec<Vec<char>>, start: usize, end: usize) -> (r: bool)
    requires
        start <= end <= texts@.len(),
    ensures
        r == exists|k: int| 0 <= k < end - start && frame_of(#[trigger] texts_view(texts@).subrange(start as int, end as int)[k]),
{
    let ghost block = texts_view(texts@).subrange(start as int, end as int);
    let mut k = start;
    while k < end
        invariant
            start <= k <= end <= texts@.len(),
            block == texts_view(texts@).subrange(start as int, end as int),
            forall|m: int| 0 <= m < k - start ==> !frame_of(#[trigger] block[m]),
        decreases end - k,
    {
        assert(block[k - start] == texts@[k as int]@);
        if is_frame(&texts[k]) {
            return true;
        }
        k += 1;
    }
    false
}

struct TableC {
    rows: Vec<RowC>,
    columns: usize,
    sep: Sep,
    framed: bool,
    start: usize,
    end: usize,
}

impl View for TableC {
    type V = TableV;

    closed spec fn view(&self) -> TableV {
        TableV {
            rows: rows_view(self.rows@),
            columns: self.columns as int,
            sep: self.sep,
            framed: self.framed,
            start: self.start as int,
            end: self.end as int,
        }
    }
}

proof fn lemma_content_grids_len(texts: Seq<Seq<char>>)
    ensures
        content_grids(texts).len() <= texts.len(),
    decreases texts.len(),
{
    if texts.len() > 0 {
        lemma_content_grids_len(texts.drop_last());
    }
}

fn analyse(texts: &Vec<Vec<char>>, start: usize, end: usize) -> (r: Option<TableC>)
    requires
        start <= end <= texts@.len(),
    ensures
        match analyse_of(texts_view(texts@).subrange(start as int, end as int), start as int, end as int) {
            Some(t) => r matches Some(tc) && tc@ == t,
            None => r is None,
        },
{
    let ghost block = texts_view(texts@).subrange(start as int, end as int);
    if end - start < 2 {
        return None;
    }
    let (_kinds, content, rules) = classify(texts, start, end);
    if content.len() < 2 {
        return None;
    }
    let (sep, ranges0) = match plan_columns(texts, start, end, &content, &rules) {
        Some(p) => p,
        None => return None,
    };
    let ranges = keep_used(&ranges0, &content);
    if ranges.len() < 2 {
        return None;
    }
    let rows = build_rows(texts, start, end, &ranges);
    if rows.len() < 2 {
        return None;
    }
    if count_populated(&rows) < 2 {
        return None;
    }
    assert(rows_view(rows@)[0] == rows@[0]@);
    if !rows[0].head && !is_uniform(&rows, sep) {
        return None;
    }
    let framed = any_frame(texts, start, end);
    Some(TableC { rows, columns: ranges.len(), sep, framed, start, end })
}


// ------------------------------------------------------------------ public detection

/// A line as the detector sees it: the original text, minus any trailing frame.
pub struct Candidate<'a> {
    pub text: &'a str,
    pub blank: bool,
    pub code: bool,
}

pub struct CandV {
    pub text: Seq<char>,
    pub blank: bool,
    pub code: bool,
}

impl<'a> View for Candidate<'a> {
    type V = CandV;

    open spec fn view(&self) -> CandV {
        CandV { text: self.text@, blank: self.blank, code: self.code }
    }
}

pub open spec fn cands_view(v: Seq<Candidate>) -> Seq<CandV> {
    v.map_values(|c: Candidate| c@)
}

pub open spec fn cand_texts(c: Seq<CandV>) -> Seq<Seq<char>> {
    c.map_values(|x: CandV| x.text)
}

/// The first line at or after `i` that is blank or code (or the end).
pub open spec fn block_end(c: Seq<CandV>, i: int) -> int
    decreases c.len() - i,
{
    if i < 0 || i >= c.len() || c[i].blank || c[i].code {
        i
    } else {
        block_end(c, i + 1)
    }
}

/// The tables found from line `i` on: each maximal run of lines that are neither blank nor
/// code is read as one candidate table.
pub open spec fn detect_from(c: Seq<CandV>, i: int) -> Seq<TableV>
    decreases c.len() - i,
{
    if i < 0 || i >= c.len() {
        Seq::empty()
    } else if c[i].blank || c[i].code {
        detect_from(c, i + 1)
    } else {
        let e = block_end(c, i);
        if e <= i || e > c.len() {
            Seq::empty()
        } else {
            match analyse_of(cand_texts(c).subrange(i, e), i, e) {
                Some(t) => seq![t] + detect_from(c, e),
                None => detect_from(c, e),
            }
        }
    }
}

/// Every table in a run of lines, in input order.
pub open spec fn detect_of(c: Seq<CandV>) -> Seq<TableV> {
    detect_from(c, 0)
}

/// One logical row: continuation lines already folded into their cells.
#[derive(Debug, Clone, PartialEq, Eq)]
pub struct Row {
    pub cells: Vec<String>,
    /// True for a row above the first horizontal rule, i.e. a header.
    pub head: bool,
}

impl View for Row {
    type V = RowV;

    open spec fn view(&self) -> RowV {
        RowV { cells: self.cells@.map_values(|s: String| s@), head: self.head }
    }
}

/// A detected table and the span of input lines it accounts for.
#[derive(Debug, Clone, PartialEq, Eq)]
pub struct Table {
    pub rows: Vec<Row>,
    pub columns: usize,
    pub sep: Sep,
    /// True when the source drew an outer frame around the whole table.
    pub framed: bool,
    /// Indices into the slice passed to [`detect`], inclusive of `start`, exclusive of `end`.
    pub start: usize,
    pub end: usize,
}

impl View for Table {
    type V = TableV;

    open spec fn view(&self) -> TableV {
        TableV {
            rows: self.rows@.map_values(|r: Row| r@),
            columns: self.columns as int,
            sep: self.sep,
            framed: self.framed,
            start: self.start as int,
            end: self.end as int,
        }
    }
}

pub open spec fn tables_view(v: Seq<Table>) -> Seq<TableV> {
    v.map_values(|t: Table| t@)
}

fn row_out(r: &RowC) -> (o: Row)
    ensures
        o@ == r@,
{
    let mut cells: Vec<String> = Vec::new();
    let mut k: usize = 0;
    while k < r.cells.len()
        invariant
            k <= r.cells@.len(),
            cells@.map_values(|s: String| s@) == texts_view(r.cells@).take(k as int),
        decreases r.cells@.len() - k,
    {
        let s = string_of(&r.cells[k]);
        let ghost before = cells@;
        cells.push(s);
        assert(cells@.map_values(|s: String| s@) =~= before.map_values(|s: String| s@).push(s@));
        k += 1;
        assert(texts_view(r.cells@).take(k as int) =~= texts_view(r.cells@).take(k - 1).push(r.cells@[k - 1]@));
    }
    assert(texts_view(r.cells@).take(r.cells@.len() as int) =~= texts_view(r.cells@));
    Row { cells, head: r.head }
}

fn table_out(t: TableC) -> (o: Table)
    ensures
        o@ == t@,
{
    let mut rows: Vec<Row> = Vec::new();
    let mut k: usize = 0;
    while k < t.rows.len()
        invariant
            k <= t.rows@.len(),
            rows@.map_values(|r: Row| r@) == rows_view(t.rows@).take(k as int),
        decreases t.rows@.len() - k,
    {
        let r = row_out(&t.rows[k]);
        let ghost before = rows@;
        rows.push(r);
        assert(rows@.map_values(|r: Row| r@) =~= before.map_values(|r: Row| r@).push(r@));
        k += 1;
        assert(rows_view(t.rows@).take(k as int) =~= rows_view(t.rows@).take(k - 1).push(t.rows@[k - 1]@));
    }
    assert(rows_view(t.rows@).take(t.rows@.len() as int) =~= rows_view(t.rows@));
    Table { rows, columns: t.columns, sep: t.sep, framed: t.framed, start: t.start, end: t.end }
}

proof fn lemma_block_end(c: Seq<CandV>, i: int)
    requires
        0 <= i <= c.len(),
    ensures
        i <= block_end(c, i) <= c.len(),
        forall|k: int| i <= k < block_end(c, i) ==> !(#[trigger] c[k]).blank && !c[k].code,
        block_end(c, i) < c.len() ==> c[block_end(c, i)].blank || c[block_end(c, i)].code,
    decreases c.len() - i,
{
    if i < c.len() && !c[i].blank && !c[i].code {
        lemma_block_end(c, i + 1);
    }
}

/// Find every table in a run of lines. Returns tables in input order, each carrying the
/// line span it replaces; lines not covered by any span keep their normal handling.
pub fn detect(lines: &[Candidate<'_>]) -> (r: Vec<Table>)
    ensures
        tables_view(r@) == detect_of(cands_view(lines@)),
{
    let ghost cv = cands_view(lines@);
    let mut texts: Vec<Vec<char>> = Vec::new();
    let mut k: usize = 0;
    while k < lines.len()
        invariant
            k <= lines@.len(),
            cv == cands_view(lines@),
            texts_view(texts@) == cand_texts(cv).take(k as int),
        decreases lines@.len() - k,
    {
        let t = chars_of(lines[k].text);
        let ghost before = texts@;
        texts.push(t);
        assert(texts_view(texts@) =~= texts_view(before).push(t@));
        k += 1;
        assert(cand_texts(cv).take(k as int) =~= cand_texts(cv).take(k - 1).push(cv[k - 1].text));
    }
    assert(cand_texts(cv).take(lines@.len() as int) =~= cand_texts(cv));
    let mut tables: Vec<Table> = Vec::new();
    let mut i: usize = 0;
    let n = lines.len();
    while i < n
        invariant
            i <= n == lines@.len() == cv.len(),
            cv == cands_view(lines@),
            texts_view(texts@) == cand_texts(cv),
            tables_view(tables@) + detect_from(cv, i as int) == detect_of(cv),
        decreases n - i,
    {
        assert(cv[i as int] == lines@[i as int]@);
        if lines[i].blank || lines[i].code {
            i += 1;
            continue;
        }
        let mut end = i;
        proof {
            lemma_block_end(cv, i as int);
        }
        while end < n && !lines[end].blank && !lines[end].code
            invariant
                i <= end <= n == lines@.len() == cv.len(),
                cv == cands_view(lines@),
                block_end(cv, i as int) == block_end(cv, end as int),
            decreases n - end,
        {
            assert(cv[end as int] == lines@[end as int]@);
            end += 1;
        }
        proof {
            if end < n {
                assert(cv[end as int] == lines@[end as int]@);
            }
        }
        assert(end > i);
        assert(texts@.len() == texts_view(texts@).len());
        let found = analyse(&texts, i, end);
        match found {
            Some(t) => {
                let ghost tv = t@;
                let tab = table_out(t);
                let ghost before = tables@;
                tables.push(tab);
                assert(tables_view(tables@) =~= tables_view(before).push(tv));
                assert(tables_view(tables@) + detect_from(cv, end as int) =~= tables_view(before) + (seq![tv] + detect_from(cv, end as int)));
            },
            None => {},
        }
        i = end;
    }
    tables
}


// ------------------------------------------------------------------ laws

proof fn lemma_rows_fold_width(texts: Seq<Seq<char>>, ranges: Seq<(int, int)>)
    ensures
        forall|k: int|
            0 <= k < rows_fold(texts, ranges).0.len() ==> (#[trigger] rows_fold(texts, ranges).0[k]).cells.len()
                == ranges.len(),
    decreases texts.len(),
{
    if texts.len() > 0 {
        lemma_rows_fold_width(texts.drop_last(), ranges);
        let (rows, head_open, saw) = rows_fold(texts.drop_last(), ranges);
        let out = rows_fold(texts, ranges).0;
        assert forall|k: int| 0 <= k < out.len() implies (#[trigger] out[k]).cells.len() == ranges.len() by {
            if k < rows.len() {
                assert(rows[k].cells.len() == ranges.len());
            }
        }
    }
}

/// Only the first row can be the header, and it is one only when a rule line follows it.
proof fn lemma_rows_fold_head(texts: Seq<Seq<char>>, ranges: Seq<(int, int)>)
    ensures
        forall|k: int| 0 < k < rows_fold(texts, ranges).0.len() ==> !(#[trigger] rows_fold(texts, ranges).0[k]).head,
        rows_fold(texts, ranges).0.len() > 0 && rows_fold(texts, ranges).0[0].head ==> exists|m: int|
            0 <= m < texts.len() && rule_of(#[trigger] texts[m]),
    decreases texts.len(),
{
    if texts.len() > 0 {
        let init = texts.drop_last();
        lemma_rows_fold_head(init, ranges);
        let (rows, head_open, saw) = rows_fold(init, ranges);
        let out = rows_fold(texts, ranges).0;
        assert forall|k: int| 0 < k < out.len() implies !(#[trigger] out[k]).head by {
            if k < rows.len() {
                assert(!rows[k].head);
            }
        }
        if out.len() > 0 && out[0].head {
            if rule_of(texts.last()) {
                assert(rule_of(texts[texts.len() - 1]));
            } else {
                let m = choose|m: int| 0 <= m < init.len() && rule_of(#[trigger] init[m]);
                assert(texts[m] == init[m]);
            }
        }
    }
}

/// Well-formedness of one detected table within the candidate lines `c`: its span lies
/// inside the input, covers at least two lines and holds no blank or code line, and is a whole block (blank, code or
/// the edge of the input on both sides); it has at least two rows and two columns, one
/// cell per column in every row; only its first row may be the header, and only when a
/// rule line of the span marked it so; without a header every row fills the same columns.
pub open spec fn table_wf(t: TableV, c: Seq<CandV>) -> bool {
    &&& 0 <= t.start < t.end <= c.len()
    &&& t.end - t.start >= 2
    &&& t.rows.len() >= 2
    &&& t.columns >= 2
    &&& forall|r: int| 0 <= r < t.rows.len() ==> (#[trigger] t.rows[r]).cells.len() == t.columns
    &&& forall|m: int| t.start <= m < t.end ==> !(#[trigger] c[m]).blank && !c[m].code
    &&& (t.start == 0 || c[t.start - 1].blank || c[t.start - 1].code)
    &&& (t.end == c.len() || c[t.end].blank || c[t.end].code)
    &&& forall|r: int| 0 < r < t.rows.len() ==> !(#[trigger] t.rows[r]).head
    &&& t.rows[0].head ==> exists|m: int| t.start <= m < t.end && rule_of(#[trigger] c[m].text)
    &&& !t.rows[0].head ==> uniform(t.rows, t.sep)
}

proof fn lemma_detect_from(c: Seq<CandV>, i: int)
    requires
        0 <= i,
        i == 0 || i >= c.len() || c[i - 1].blank || c[i - 1].code || c[i].blank || c[i].code,
    ensures
        forall|k: int| 0 <= k < detect_from(c, i).len() ==> table_wf(#[trigger] detect_from(c, i)[k], c),
        forall|k: int| 0 <= k < detect_from(c, i).len() ==> i <= (#[trigger] detect_from(c, i)[k]).start,
        forall|k: int|
            0 <= k < detect_from(c, i).len() - 1 ==> (#[trigger] detect_from(c, i)[k]).end < detect_from(
                c,
                i,
            )[k + 1].start,
    decreases c.len() - i,
{
    if i < c.len() {
        if c[i].blank || c[i].code {
            lemma_detect_from(c, i + 1);
        } else {
            let e = block_end(c, i);
            lemma_block_end(c, i);
            if e > i && e <= c.len() {
                lemma_detect_from(c, e);
                let texts = cand_texts(c).subrange(i, e);
                match analyse_of(texts, i, e) {
                    Some(t) => {
                        let rest = detect_from(c, e);
                        let all = seq![t] + rest;
                        assert(detect_from(c, i) == all);
                        match column_plan(texts) {
                            Some((sep, ranges0)) => {
                                let ranges = keep_ranges(ranges0, content_grids(texts));
                                lemma_rows_fold_width(texts, ranges);
                                lemma_rows_fold_head(texts, ranges);
                                if t.rows[0].head {
                                    let m = choose|m: int| 0 <= m < texts.len() && rule_of(#[trigger] texts[m]);
                                    assert(texts[m] == c[i + m].text);
                                }
                            },
                            None => {},
                        }
                        assert(table_wf(t, c));
                        assert forall|k: int| 0 <= k < all.len() implies table_wf(#[trigger] all[k], c) by {
                            if k > 0 {
                                assert(all[k] == rest[k - 1]);
                            }
                        }
                        assert forall|k: int| 0 <= k < all.len() implies i <= (#[trigger] all[k]).start by {
                            if k > 0 {
                                assert(all[k] == rest[k - 1]);
                            }
                        }
                        assert forall|k: int| 0 <= k < all.len() - 1 implies (#[trigger] all[k]).end < all[k + 1].start by {
                            if k > 0 {
                                assert(all[k] == rest[k - 1]);
                                assert(all[k + 1] == rest[k]);
                            } else {
                                assert(all[1] == rest[0]);
                                assert(table_wf(rest[0], c));
                                assert(!c[rest[0].start].blank && !c[rest[0].start].code);
                            }
                        }
                    },
                    None => {},
                }
            }
        }
    }
}

/// What the detector reports is always a well-formed cover of part of the input (see
/// [`table_wf`]): tables come in input order with at least one line between them, each is
/// a whole block of non-blank, non-code lines, has at least two rows and two columns with
/// one cell per column in every row, has a header only as its first row and only under a
/// rule, and without a header fills the same columns in every row.
pub proof fn law_detected_tables_are_well_formed(c: Seq<CandV>)
    ensures
        forall|k: int| 0 <= k < detect_of(c).len() ==> table_wf(#[trigger] detect_of(c)[k], c),
        forall|k: int|
            0 <= k < detect_of(c).len() - 1 ==> (#[trigger] detect_of(c)[k]).end < detect_of(c)[k + 1].start,
{
    lemma_detect_from(c, 0);
}


// ------------------------------------------------------------------ isolate controls

/// No cell of any row holds an isolate control.
pub open spec fn rows_clean(rows: Seq<RowV>) -> bool {
    forall|j: int, m: int|
        0 <= j < rows.len() && 0 <= m < rows[j].cells.len() ==> crate::copyback::no_isolates(
            #[trigger] rows[j].cells[m],
        )
}

proof fn lemma_cols_clean(t: Seq<char>)
    requires
        crate::copyback::no_isolates(t),
    ensures
        forall|k: int| 0 <= k < cols_of(t).chars.len() ==> !crate::copyback::is_isolate(#[trigger] cols_of(t).chars[k].1),
    decreases t.len(),
{
    if t.len() > 0 {
        crate::copyback::lemma_clean_subrange(t, 0, t.len() - 1);
        assert(t.take(t.len() - 1) =~= t.drop_last());
        lemma_cols_clean(t.drop_last());
        let p = cols_of(t.drop_last());
        assert forall|k: int| 0 <= k < cols_of(t).chars.len() implies !crate::copyback::is_isolate(
            #[trigger] cols_of(t).chars[k].1,
        ) by {
            if k < p.chars.len() {
                assert(cols_of(t).chars[k] == p.chars[k]);
            } else {
                assert(t[t.len() - 1] == t.last());
            }
        }
    }
}

proof fn lemma_select_clean(chars: Seq<(int, char)>, a: int, b: int)
    requires
        forall|k: int| 0 <= k < chars.len() ==> !crate::copyback::is_isolate(#[trigger] chars[k].1),
    ensures
        crate::copyback::no_isolates(select(chars, a, b)),
    decreases chars.len(),
{
    if chars.len() > 0 {
        assert forall|k: int| 0 <= k < chars.drop_last().len() implies !crate::copyback::is_isolate(
            #[trigger] chars.drop_last()[k].1,
        ) by {
            assert(chars.drop_last()[k] == chars[k]);
        }
        lemma_select_clean(chars.drop_last(), a, b);
        let p = select(chars.drop_last(), a, b);
        assert(!crate::copyback::is_isolate(chars[chars.len() - 1].1));
        crate::copyback::lemma_clean_add(p, seq![chars.last().1]);
        assert(p.push(chars.last().1) =~= p + seq![chars.last().1]);
    }
}

proof fn lemma_cells_clean(t: Seq<char>, ranges: Seq<(int, int)>)
    requires
        crate::copyback::no_isolates(t),
    ensures
        forall|m: int| 0 <= m < cells_of(cols_of(t), ranges).len() ==> crate::copyback::no_isolates(
            #[trigger] cells_of(cols_of(t), ranges)[m],
        ),
{
    lemma_cols_clean(t);
    assert forall|m: int| 0 <= m < cells_of(cols_of(t), ranges).len() implies crate::copyback::no_isolates(
        #[trigger] cells_of(cols_of(t), ranges)[m],
    ) by {
        let r = ranges[m];
        lemma_select_clean(cols_of(t).chars, r.0, r.1);
        crate::copyback::lemma_clean_trim(select(cols_of(t).chars, r.0, r.1));
    }
}

proof fn lemma_fold_cell_clean(target: Seq<char>, extra: Seq<char>)
    requires
        crate::copyback::no_isolates(target),
        crate::copyback::no_isolates(extra),
    ensures
        crate::copyback::no_isolates(fold_cell(target, extra)),
{
    crate::copyback::lemma_clean_add(target, extra);
    crate::copyback::lemma_clean_add(target, seq![' ']);
    crate::copyback::lemma_clean_add(target + seq![' '], extra);
}

proof fn lemma_rows_fold_clean(texts: Seq<Seq<char>>, ranges: Seq<(int, int)>)
    requires
        forall|k: int| 0 <= k < texts.len() ==> crate::copyback::no_isolates(#[trigger] texts[k]),
    ensures
        rows_clean(rows_fold(texts, ranges).0),
    decreases texts.len(),
{
    if texts.len() > 0 {
        let init = texts.drop_last();
        assert forall|k: int| 0 <= k < init.len() implies crate::copyback::no_isolates(#[trigger] init[k]) by {
            assert(init[k] == texts[k]);
        }
        lemma_rows_fold_clean(init, ranges);
        let (rows, head_open, saw) = rows_fold(init, ranges);
        let t = texts.last();
        assert(crate::copyback::no_isolates(texts[texts.len() - 1]));
        let out = rows_fold(texts, ranges).0;
        if rule_of(t) {
            assert forall|j: int, m: int| 0 <= j < out.len() && 0 <= m < out[j].cells.len() implies crate::copyback::no_isolates(
                #[trigger] out[j].cells[m],
            ) by {
                assert(out[j].cells == rows[j].cells);
            }
        } else {
            let cells = cells_of(cols_of(t), ranges);
            lemma_cells_clean(t, ranges);
            if all_empty(cells) {
            } else if continuation(cells, rows, saw) {
                let last = rows.last();
                let fr = fold_row(last, cells);
                assert forall|m: int| 0 <= m < fr.cells.len() implies crate::copyback::no_isolates(#[trigger] fr.cells[m]) by {
                    assert(crate::copyback::no_isolates(rows[rows.len() - 1].cells[m]));
                    if m < cells.len() {
                        lemma_fold_cell_clean(last.cells[m], cells[m]);
                    }
                }
                assert forall|j: int, m: int| 0 <= j < out.len() && 0 <= m < out[j].cells.len() implies crate::copyback::no_isolates(
                    #[trigger] out[j].cells[m],
                ) by {
                    if j < rows.len() - 1 {
                        assert(out[j] == rows[j]);
                    } else {
                        assert(out[j] == fr);
                    }
                }
            } else {
                assert forall|j: int, m: int| 0 <= j < out.len() && 0 <= m < out[j].cells.len() implies crate::copyback::no_isolates(
                    #[trigger] out[j].cells[m],
                ) by {
                    if j < rows.len() {
                        assert(out[j] == rows[j]);
                    } else {
                        assert(out[j].cells == cells);
                    }
                }
            }
        }
    }
}

proof fn lemma_detect_from_clean(c: Seq<CandV>, i: int)
    requires
        forall|k: int| 0 <= k < c.len() ==> crate::copyback::no_isolates(#[trigger] c[k].text),
    ensures
        forall|k: int| 0 <= k < detect_from(c, i).len() ==> rows_clean((#[trigger] detect_from(c, i)[k]).rows),
    decreases c.len() - i,
{
    if 0 <= i < c.len() {
        if c[i].blank || c[i].code {
            lemma_detect_from_clean(c, i + 1);
        } else {
            let e = block_end(c, i);
            if e > i && e <= c.len() {
                lemma_detect_from_clean(c, e);
                let texts = cand_texts(c).subrange(i, e);
                assert forall|k: int| 0 <= k < texts.len() implies crate::copyback::no_isolates(#[trigger] texts[k]) by {
                    assert(texts[k] == c[i + k].text);
                }
                match analyse_of(texts, i, e) {
                    Some(t) => {
                        match column_plan(texts) {
                            Some((sep, ranges0)) => {
                                let ranges = keep_ranges(ranges0, content_grids(texts));
                                lemma_rows_fold_clean(texts, ranges);
                            },
                            None => {},
                        }
                        let rest = detect_from(c, e);
                        assert(detect_from(c, i) == seq![t] + rest);
                        assert forall|k: int| 0 <= k < detect_from(c, i).len() implies rows_clean(
                            (#[trigger] detect_from(c, i)[k]).rows,
                        ) by {
                            if k > 0 {
                                assert(detect_from(c, i)[k] == rest[k - 1]);
                            }
                        }
                    },
                    None => {},
                }
            }
        }
    }
}

/// When no candidate line holds an isolate control, no cell of a detected table does.
pub proof fn lemma_detect_clean(c: Seq<CandV>)
    requires
        forall|k: int| 0 <= k < c.len() ==> crate::copyback::no_isolates(#[trigger] c[k].text),
    ensures
        forall|k: int| 0 <= k < detect_of(c).len() ==> rows_clean((#[trigger] detect_of(c)[k]).rows),
{
    lemma_detect_from_clean(c, 0);
}

} // verus!
