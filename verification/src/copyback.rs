//! Turn an analysed [`Doc`] back into text worth pasting somewhere else.
//!
//! Everything is built as a sequence of characters and stated over the views of the
//! document: [`render_of`] is the text each copy mode produces.

use vstd::prelude::*;
use crate::model::{
    Cell, CellV, Chunk, ChunkV, Dir, Doc, DocV, Line, LineV, Segment, SegmentV, Sep, TableRow,
    TableRowV, chunks_of, chunks_view,
};
use crate::text::{all_ws, is_ws, lemma_trimmed_end_len_unique, leading_ws, trimmed_end_len, chars_of, join, join_chars, push_all, push_repeat, repeat, string_of, trim_end, trim_start, trimmed_end, trimmed_start};
use crate::width::{display_width, width_of};

verus! {

/// Left-to-right isolate. Unlike the deprecated embedding controls (LRE/RLE/PDF),
/// isolates do not leak their direction into surrounding text, which is exactly the
/// property needed for a fragment that will be pasted into unknown context.
pub const LRI: char = '\u{2066}';

/// Right-to-left isolate.
pub const RLI: char = '\u{2067}';

/// Pop directional isolate: closes the innermost open isolate.
pub const PDI: char = '\u{2069}';

#[derive(Debug, Clone, Copy, PartialEq, Eq, Structural)]
pub enum CopyMode {
    /// Clean text, nothing added. Best for pasting back into a terminal or an editor.
    Plain,
    /// Text carrying explicit isolate controls, so the layout survives being pasted into
    /// Slack, Telegram, Notion or a GitHub comment — apps that run their own bidi pass.
    BidiSafe,
    /// Plain, with inline code runs re-fenced in backticks.
    Markdown,
}

// ------------------------------------------------------------------------- segments

/// A backtick when `on`, else nothing.
pub open spec fn tick(on: bool) -> Seq<char> {
    if on {
        seq!['`']
    } else {
        Seq::empty()
    }
}

/// `c` when `on`, else nothing.
pub open spec fn mark(on: bool, c: char) -> Seq<char> {
    if on {
        seq![c]
    } else {
        Seq::empty()
    }
}

/// One segment as copied: text as it is; a code run fenced in backticks when `backtick`,
/// and wrapped in an LTR isolate when `isolate`.
pub open spec fn piece(s: SegmentV, backtick: bool, isolate: bool) -> Seq<char> {
    match s {
        SegmentV::Text(t) => t,
        SegmentV::Code(t) => tick(backtick) + mark(isolate, LRI) + t + mark(isolate, PDI) + tick(
            backtick,
        ),
    }
}

/// A run of segments as copied.
pub open spec fn pieces(segs: Seq<SegmentV>, backtick: bool, isolate: bool) -> Seq<char>
    decreases segs.len(),
{
    if segs.len() == 0 {
        Seq::empty()
    } else {
        pieces(segs.drop_last(), backtick, isolate) + piece(segs.last(), backtick, isolate)
    }
}

/// A line's content as plain text, code runs fenced in backticks when `backtick`.
pub open spec fn body_of(segs: Seq<SegmentV>, backtick: bool) -> Seq<char> {
    pieces(segs, backtick, false)
}

/// The isolate that opens a run of the given direction.
pub open spec fn open_for(d: Dir) -> char {
    match d {
        Dir::Rtl => RLI,
        Dir::Ltr => LRI,
    }
}

fn open_isolate(d: Dir) -> (r: char)
    ensures
        r == open_for(d),
{
    match d {
        Dir::Rtl => RLI,
        Dir::Ltr => LRI,
    }
}

/// Append a run of segments as copied.
fn push_pieces(dst: &mut Vec<char>, segs: &Vec<Segment>, backtick: bool, isolate: bool)
    ensures
        final(dst)@ == old(dst)@ + pieces(crate::model::segs_view(segs@), backtick, isolate),
{
    let ghost sv = crate::model::segs_view(segs@);
    let mut i: usize = 0;
    while i < segs.len()
        invariant
            i <= segs@.len() == sv.len(),
            sv == crate::model::segs_view(segs@),
            dst@ == old(dst)@ + pieces(sv.take(i as int), backtick, isolate),
        decreases segs@.len() - i,
    {
        let ghost before = dst@;
        proof {
            assert(sv.take(i + 1).drop_last() =~= sv.take(i as int));
            assert(sv[i as int] == segs@[i as int]@);
        }
        match &segs[i] {
            Segment::Text(t) => {
                let tc = chars_of(t.as_str());
                push_all(dst, &tc);
            },
            Segment::Code(t) => {
                let tc = chars_of(t.as_str());
                if backtick {
                    dst.push('`');
                }
                if isolate {
                    dst.push(LRI);
                }
                push_all(dst, &tc);
                if isolate {
                    dst.push(PDI);
                }
                if backtick {
                    dst.push('`');
                }
            },
        }
        proof {
            assert(dst@ =~= before + piece(sv[i as int], backtick, isolate));
        }
        i += 1;
    }
    assert(sv.take(segs@.len() as int) =~= sv);
}

/// A line's content as plain text.
fn body(line: &Line, backtick: bool) -> (r: Vec<char>)
    ensures
        r@ == body_of(line@.segments, backtick),
{
    let mut out: Vec<char> = Vec::new();
    push_pieces(&mut out, &line.segments, backtick, false);
    assert(out@ =~= body_of(line@.segments, backtick));
    out
}

// --------------------------------------------------------------------------- frames

/// The three glyphs of one rule of a frame: left corner, crossing, right corner.
#[derive(Clone, Copy)]
pub struct Ends {
    pub left: char,
    pub cross: char,
    pub right: char,
}

/// The glyphs a rebuilt frame is drawn with, matched to the ones the capture used so a
/// light table does not come back heavy.
#[derive(Clone, Copy)]
pub struct Frame {
    pub v: char,
    pub h: char,
    pub top: Ends,
    pub mid: Ends,
    pub bot: Ends,
}

pub open spec fn ends(left: char, cross: char, right: char) -> Ends {
    Ends { left, cross, right }
}

/// The frame drawn for a table whose columns were divided by `delim`.
pub open spec fn frame_of(delim: char) -> Frame {
    if delim == '┃' {
        Frame {
            v: '┃',
            h: '━',
            top: ends('┏', '┳', '┓'),
            mid: ends('┣', '╋', '┫'),
            bot: ends('┗', '┻', '┛'),
        }
    } else if delim == '║' {
        Frame {
            v: '║',
            h: '═',
            top: ends('╔', '╦', '╗'),
            mid: ends('╠', '╬', '╣'),
            bot: ends('╚', '╩', '╝'),
        }
    } else if delim == '|' {
        Frame { v: '|', h: '-', top: ends('+', '+', '+'), mid: ends('+', '+', '+'), bot: ends('+', '+', '+') }
    } else {
        Frame {
            v: '│',
            h: '─',
            top: ends('┌', '┬', '┐'),
            mid: ends('├', '┼', '┤'),
            bot: ends('└', '┴', '┘'),
        }
    }
}

fn frame_for(delim: char) -> (f: Frame)
    ensures
        f == frame_of(delim),
{
    if delim == '┃' {
        Frame {
            v: '┃',
            h: '━',
            top: Ends { left: '┏', cross: '┳', right: '┓' },
            mid: Ends { left: '┣', cross: '╋', right: '┫' },
            bot: Ends { left: '┗', cross: '┻', right: '┛' },
        }
    } else if delim == '║' {
        Frame {
            v: '║',
            h: '═',
            top: Ends { left: '╔', cross: '╦', right: '╗' },
            mid: Ends { left: '╠', cross: '╬', right: '╣' },
            bot: Ends { left: '╚', cross: '╩', right: '╝' },
        }
    } else if delim == '|' {
        let plus = Ends { left: '+', cross: '+', right: '+' };
        Frame { v: '|', h: '-', top: plus, mid: plus, bot: plus }
    } else {
        Frame {
            v: '│',
            h: '─',
            top: Ends { left: '┌', cross: '┬', right: '┐' },
            mid: Ends { left: '├', cross: '┼', right: '┤' },
            bot: Ends { left: '└', cross: '┴', right: '┘' },
        }
    }
}

/// The run of `h` over a column of width `w`, one space's worth wider on each side.
pub open spec fn rule_span(h: char, w: usize) -> Seq<char> {
    repeat(h, (w + 2) as nat)
}

/// A horizontal rule across columns of the given widths.
pub open spec fn rule_of(widths: Seq<usize>, h: char, e: Ends) -> Seq<char> {
    seq![e.left] + join(widths.map_values(|w: usize| rule_span(h, w)), seq![e.cross]) + seq![e.right]
}

fn rule_line(widths: &Vec<usize>, h: char, e: Ends) -> (r: Vec<char>)
    ensures
        r@ == rule_of(widths@, h, e),
{
    let ghost spans = widths@.map_values(|w: usize| rule_span(h, w));
    let mut out: Vec<char> = Vec::new();
    out.push(e.left);
    let mut i: usize = 0;
    while i < widths.len()
        invariant
            i <= widths@.len() == spans.len(),
            spans == widths@.map_values(|w: usize| rule_span(h, w)),
            out@ == seq![e.left] + join(spans.take(i as int), seq![e.cross]),
        decreases widths@.len() - i,
    {
        let ghost before = out@;
        proof {
            assert(spans.take(i + 1).drop_last() =~= spans.take(i as int));
        }
        if i > 0 {
            out.push(e.cross);
        }
        push_repeat(&mut out, h, widths[i]);
        out.push(h);
        out.push(h);
        proof {
            assert(spans[i as int] =~= repeat(h, widths@[i as int] as nat) + seq![h, h]);
            if i == 0 {
                assert(join(spans.take(1), seq![e.cross]) == spans[0]);
            }
            assert(out@ =~= seq![e.left] + join(spans.take(i + 1), seq![e.cross]));
        }
        i += 1;
    }
    assert(spans.take(widths@.len() as int) =~= spans);
    out.push(e.right);
    out
}

// ---------------------------------------------------------------------------- cells

/// What a cell shows, code runs fenced in backticks when `backtick`.
pub open spec fn cell_visible(c: CellV, backtick: bool) -> Seq<char> {
    body_of(c.segments, backtick)
}

/// The columns a cell occupies: isolate controls are invisible, so the width is measured on
/// the text without them.
pub open spec fn cell_width(c: CellV, backtick: bool) -> usize {
    display_width(cell_visible(c, backtick))
}

/// A cell as copied: with `isolate`, wrapped in an isolate of its own direction and with
/// each code run isolated LTR inside it.
pub open spec fn cell_out(c: CellV, backtick: bool, isolate: bool) -> Seq<char> {
    if isolate {
        seq![open_for(c.dir)] + pieces(c.segments, backtick, true) + seq![PDI]
    } else {
        pieces(c.segments, backtick, false)
    }
}

/// One cell as text, plus the width it will actually occupy.
fn cell_text(cell: &Cell, backtick: bool, isolate: bool) -> (r: (Vec<char>, usize))
    ensures
        r.0@ == cell_out(cell@, backtick, isolate),
        r.1 == cell_width(cell@, backtick),
{
    let mut visible: Vec<char> = Vec::new();
    push_pieces(&mut visible, &cell.segments, backtick, false);
    assert(visible@ =~= cell_visible(cell@, backtick));
    let w = width_of(&visible);
    if isolate {
        let mut out: Vec<char> = Vec::new();
        out.push(open_isolate(cell.dir));
        push_pieces(&mut out, &cell.segments, backtick, true);
        out.push(PDI);
        assert(out@ =~= cell_out(cell@, backtick, isolate));
        (out, w)
    } else {
        (visible, w)
    }
}

/// The views of the rows of a table chunk.
pub open spec fn rows_view(v: Seq<&TableRow>) -> Seq<TableRowV> {
    v.map_values(|r: &TableRow| r@)
}

/// The most cells any row has.
pub open spec fn max_cells(rows: Seq<TableRowV>) -> nat
    decreases rows.len(),
{
    if rows.len() == 0 {
        0
    } else {
        let m = max_cells(rows.drop_last());
        let k = rows.last().cells.len();
        if k > m {
            k
        } else {
            m
        }
    }
}

/// The width of column `c`: its widest cell, or 0 when no row has one there.
pub open spec fn col_width(rows: Seq<TableRowV>, c: int, backtick: bool) -> usize
    decreases rows.len(),
{
    if rows.len() == 0 {
        0
    } else {
        let m = col_width(rows.drop_last(), c, backtick);
        let r = rows.last();
        if 0 <= c < r.cells.len() && cell_width(r.cells[c], backtick) > m {
            cell_width(r.cells[c], backtick)
        } else {
            m
        }
    }
}

/// The width of every column of a table.
pub open spec fn widths_of(rows: Seq<TableRowV>, backtick: bool) -> Seq<usize> {
    Seq::new(max_cells(rows), |c: int| col_width(rows, c, backtick))
}

fn column_widths(rows: &Vec<&TableRow>, backtick: bool) -> (r: Vec<usize>)
    ensures
        r@ == widths_of(rows_view(rows@), backtick),
{
    let ghost rv = rows_view(rows@);
    let mut columns: usize = 0;
    let mut i: usize = 0;
    while i < rows.len()
        invariant
            i <= rows@.len() == rv.len(),
            rv == rows_view(rows@),
            columns == max_cells(rv.take(i as int)),
        decreases rows@.len() - i,
    {
        proof {
            assert(rv.take(i + 1).drop_last() =~= rv.take(i as int));
            assert(rv[i as int] == rows@[i as int]@);
        }
        let k = rows[i].cells.len();
        if k > columns {
            columns = k;
        }
        i += 1;
    }
    assert(rv.take(rows@.len() as int) =~= rv);
    let mut out: Vec<usize> = Vec::new();
    let mut c: usize = 0;
    while c < columns
        invariant
            c <= columns == max_cells(rv),
            rows@.len() == rv.len(),
            rv == rows_view(rows@),
            out@ =~= Seq::new(c as nat, |k: int| col_width(rv, k, backtick)),
        decreases columns - c,
    {
        let mut w: usize = 0;
        let mut j: usize = 0;
        while j < rows.len()
            invariant
                j <= rows@.len() == rv.len(),
                rv == rows_view(rows@),
                w == col_width(rv.take(j as int), c as int, backtick),
            decreases rows@.len() - j,
        {
            proof {
                assert(rv.take(j + 1).drop_last() =~= rv.take(j as int));
                assert(rv[j as int] == rows@[j as int]@);
            }
            if c < rows[j].cells.len() {
                proof {
                    assert(rv[j as int].cells[c as int] == rows@[j as int].cells@[c as int]@);
                }
                let (_, cw) = cell_text(&rows[j].cells[c], backtick, false);
                if cw > w {
                    w = cw;
                }
            }
            j += 1;
        }
        assert(rv.take(rows@.len() as int) =~= rv);
        out.push(w);
        c += 1;
    }
    out
}

/// How far `a` reaches past `b`, or 0.
pub open spec fn sat(a: usize, b: usize) -> nat {
    if a > b {
        (a - b) as nat
    } else {
        0
    }
}

/// Cell `c` of a row, padded with spaces to its column's width; a row short of cells is
/// filled out with blank ones.
pub open spec fn padded_cell(row: TableRowV, widths: Seq<usize>, c: int, backtick: bool, isolate: bool) -> Seq<char> {
    if c < row.cells.len() {
        cell_out(row.cells[c], backtick, isolate) + repeat(' ', sat(widths[c], cell_width(row.cells[c], backtick)))
    } else {
        repeat(' ', widths[c] as nat)
    }
}

/// Every cell of a row, padded to square.
pub open spec fn padded_of(row: TableRowV, widths: Seq<usize>, backtick: bool, isolate: bool) -> Seq<Seq<char>> {
    Seq::new(widths.len(), |c: int| padded_cell(row, widths, c, backtick, isolate))
}

pub open spec fn texts_view(v: Seq<Vec<char>>) -> Seq<Seq<char>> {
    v.map_values(|p: Vec<char>| p@)
}

fn padded_cells(row: &TableRow, widths: &Vec<usize>, backtick: bool, isolate: bool) -> (r: Vec<Vec<char>>)
    ensures
        texts_view(r@) == padded_of(row@, widths@, backtick, isolate),
{
    let mut out: Vec<Vec<char>> = Vec::new();
    let mut c: usize = 0;
    while c < widths.len()
        invariant
            c <= widths@.len(),
            texts_view(out@) =~= Seq::new(c as nat, |k: int| padded_cell(row@, widths@, k, backtick, isolate)),
        decreases widths@.len() - c,
    {
        let mut text: Vec<char>;
        if c < row.cells.len() {
            proof {
                assert(row@.cells[c as int] == row.cells@[c as int]@);
            }
            let (t, w) = cell_text(&row.cells[c], backtick, isolate);
            text = t;
            let pad = if widths[c] > w { widths[c] - w } else { 0 };
            push_repeat(&mut text, ' ', pad);
        } else {
            text = Vec::new();
            push_repeat(&mut text, ' ', widths[c]);
        }
        assert(text@ =~= padded_cell(row@, widths@, c as int, backtick, isolate));
        let ghost before = out@;
        out.push(text);
        proof {
            assert(texts_view(out@) =~= texts_view(before).push(text@));
        }
        c += 1;
    }
    out
}

// --------------------------------------------------------------------------- tables

/// A markdown pipe-table row: `| a | b |`.
pub open spec fn md_row(cells: Seq<Seq<char>>) -> Seq<char> {
    seq!['|', ' '] + join(cells, seq![' ', '|', ' ']) + seq![' ', '|']
}

/// The dashes under a markdown column: as wide as the column, and at least three.
pub open spec fn md_dashes(w: usize) -> Seq<char> {
    repeat('-', if w > 3 { w as nat } else { 3 })
}

/// The rule markdown requires under the first row.
pub open spec fn md_rule(widths: Seq<usize>) -> Seq<char> {
    md_row(widths.map_values(|w: usize| md_dashes(w)))
}

/// A row between vertical rules: `│ a │ b │`.
pub open spec fn framed_row(cells: Seq<Seq<char>>, v: char) -> Seq<char> {
    seq![v, ' '] + join(cells, seq![' ', v, ' ']) + seq![' ', v]
}

/// A row held apart by blank columns, with no trailing blanks.
pub open spec fn spaced_row(cells: Seq<Seq<char>>) -> Seq<char> {
    trim_end(join(cells, seq![' ', ' ']))
}

/// The light rule under the header of a spaced table.
pub open spec fn bars_of(widths: Seq<usize>) -> Seq<char> {
    join(widths.map_values(|w: usize| repeat('─', w as nat)), seq![' ', ' '])
}

/// One row of a table as copied; `sep` is how the table's columns were divided.
pub open spec fn row_text(row: TableRowV, widths: Seq<usize>, mode: CopyMode, sep: Sep) -> Seq<char> {
    let cells = padded_of(row, widths, mode == CopyMode::Markdown, mode == CopyMode::BidiSafe);
    if mode == CopyMode::Markdown {
        md_row(cells)
    } else {
        match sep {
            Sep::Delimited(d) => framed_row(cells, frame_of(d).v),
            Sep::Spaced => spaced_row(cells),
        }
    }
}

/// `line` when `on`, else nothing.
pub open spec fn opt_line(on: bool, line: Seq<char>) -> Seq<Seq<char>> {
    if on {
        seq![line]
    } else {
        Seq::empty()
    }
}

/// The lines of a rebuilt table, padded to square. Markdown always gets a pipe table with
/// its rule under the first row; otherwise the table comes back the way it was divided,
/// with a frame when it had one and a rule under the header row.
pub open spec fn table_lines(rows: Seq<TableRowV>, mode: CopyMode) -> Seq<Seq<char>> {
    let widths = widths_of(rows, mode == CopyMode::Markdown);
    if widths.len() == 0 || rows.len() == 0 {
        Seq::empty()
    } else {
        let first = rows[0];
        let body = Seq::new(rows.len(), |i: int| row_text(rows[i], widths, mode, first.sep));
        let rest = body.skip(1);
        if mode == CopyMode::Markdown {
            seq![body[0], md_rule(widths)] + rest
        } else {
            match first.sep {
                Sep::Delimited(d) => {
                    let f = frame_of(d);
                    opt_line(first.framed, rule_of(widths, f.h, f.top)) + seq![body[0]] + opt_line(
                        first.head,
                        rule_of(widths, f.h, f.mid),
                    ) + rest + opt_line(first.framed, rule_of(widths, f.h, f.bot))
                },
                Sep::Spaced => seq![body[0]] + opt_line(first.head, bars_of(widths)) + rest,
            }
        }
    }
}

/// A rebuilt table as one text.
pub open spec fn table_text_of(rows: Seq<TableRowV>, mode: CopyMode) -> Seq<char> {
    join(table_lines(rows, mode), seq!['\n'])
}

fn md_line(cells: &Vec<Vec<char>>) -> (r: Vec<char>)
    ensures
        r@ == md_row(texts_view(cells@)),
{
    let sep: Vec<char> = vec![' ', '|', ' '];
    assert(sep@ =~= seq![' ', '|', ' ']);
    let mid = join_chars(cells, &sep);
    let mut out: Vec<char> = vec!['|', ' '];
    push_all(&mut out, &mid);
    out.push(' ');
    out.push('|');
    assert(out@ =~= md_row(texts_view(cells@)));
    out
}

fn md_rule_line(widths: &Vec<usize>) -> (r: Vec<char>)
    ensures
        r@ == md_rule(widths@),
{
    let mut dashes: Vec<Vec<char>> = Vec::new();
    let mut i: usize = 0;
    while i < widths.len()
        invariant
            i <= widths@.len(),
            texts_view(dashes@) =~= widths@.take(i as int).map_values(|w: usize| md_dashes(w)),
        decreases widths@.len() - i,
    {
        let mut d: Vec<char> = Vec::new();
        let n = if widths[i] > 3 { widths[i] } else { 3 };
        push_repeat(&mut d, '-', n);
        assert(d@ =~= md_dashes(widths@[i as int]));
        let ghost before = dashes@;
        dashes.push(d);
        proof {
            assert(texts_view(dashes@) =~= texts_view(before).push(d@));
            assert(widths@.take(i + 1).map_values(|w: usize| md_dashes(w)) =~= widths@.take(
                i as int,
            ).map_values(|w: usize| md_dashes(w)).push(md_dashes(widths@[i as int])));
        }
        i += 1;
    }
    assert(widths@.take(widths@.len() as int) =~= widths@);
    md_line(&dashes)
}

fn framed_line(cells: &Vec<Vec<char>>, v: char) -> (r: Vec<char>)
    ensures
        r@ == framed_row(texts_view(cells@), v),
{
    let sep: Vec<char> = vec![' ', v, ' '];
    assert(sep@ =~= seq![' ', v, ' ']);
    let mid = join_chars(cells, &sep);
    let mut out: Vec<char> = vec![v, ' '];
    push_all(&mut out, &mid);
    out.push(' ');
    out.push(v);
    assert(out@ =~= framed_row(texts_view(cells@), v));
    out
}

fn spaced_line(cells: &Vec<Vec<char>>) -> (r: Vec<char>)
    ensures
        r@ == spaced_row(texts_view(cells@)),
{
    let sep: Vec<char> = vec![' ', ' '];
    assert(sep@ =~= seq![' ', ' ']);
    let joined = join_chars(cells, &sep);
    trimmed_end(&joined)
}

fn bars_line(widths: &Vec<usize>) -> (r: Vec<char>)
    ensures
        r@ == bars_of(widths@),
{
    let mut bars: Vec<Vec<char>> = Vec::new();
    let mut i: usize = 0;
    while i < widths.len()
        invariant
            i <= widths@.len(),
            texts_view(bars@) =~= widths@.take(i as int).map_values(|w: usize| repeat('─', w as nat)),
        decreases widths@.len() - i,
    {
        let mut b: Vec<char> = Vec::new();
        push_repeat(&mut b, '─', widths[i]);
        let ghost before = bars@;
        bars.push(b);
        proof {
            assert(texts_view(bars@) =~= texts_view(before).push(b@));
            assert(widths@.take(i + 1).map_values(|w: usize| repeat('─', w as nat)) =~= widths@.take(
                i as int,
            ).map_values(|w: usize| repeat('─', w as nat)).push(repeat('─', widths@[i as int] as nat)));
        }
        i += 1;
    }
    assert(widths@.take(widths@.len() as int) =~= widths@);
    let sep: Vec<char> = vec![' ', ' '];
    assert(sep@ =~= seq![' ', ' ']);
    join_chars(&bars, &sep)
}

fn row_line(row: &TableRow, widths: &Vec<usize>, mode: CopyMode, sep: Sep) -> (r: Vec<char>)
    ensures
        r@ == row_text(row@, widths@, mode, sep),
{
    let backtick = mode == CopyMode::Markdown;
    let isolate = mode == CopyMode::BidiSafe;
    let cells = padded_cells(row, widths, backtick, isolate);
    if backtick {
        md_line(&cells)
    } else {
        match sep {
            Sep::Delimited(d) => framed_line(&cells, frame_for(d).v),
            Sep::Spaced => spaced_line(&cells),
        }
    }
}

proof fn lemma_rows_when_columns(rows: Seq<TableRowV>)
    ensures
        max_cells(rows) > 0 ==> rows.len() > 0,
{
}

/// Rebuild a table as text.
///
/// Padded to square, because the recovered cells are what the reader just looked at — a
/// table that pastes back ragged would make the fix feel undone. Markdown gets a pipe
/// table, which is the one form every renderer downstream understands.
fn table_text(rows: &Vec<&TableRow>, mode: CopyMode) -> (r: Vec<char>)
    ensures
        r@ == table_text_of(rows_view(rows@), mode),
{
    let ghost rv = rows_view(rows@);
    let backtick = mode == CopyMode::Markdown;
    let widths = column_widths(rows, backtick);
    if widths.len() == 0 {
        return Vec::new();
    }
    proof {
        lemma_rows_when_columns(rv);
    }
    let first: &TableRow = rows[0];
    assert(rv[0] == first@);
    let ghost body = Seq::new(rv.len(), |i: int| row_text(rv[i], widths@, mode, first.sep));
    let ghost lines = table_lines(rv, mode);
    let mut out: Vec<Vec<char>> = Vec::new();
    let mut frame: Option<Frame> = None;
    if !backtick {
        if let Sep::Delimited(d) = first.sep {
            frame = Some(frame_for(d));
        }
    }
    match frame {
        Some(f) => {
            if first.framed {
                out.push(rule_line(&widths, f.h, f.top));
            }
        },
        None => {},
    }
    let l0 = row_line(first, &widths, mode, first.sep);
    out.push(l0);
    if backtick {
        out.push(md_rule_line(&widths));
    } else if first.head {
        match frame {
            Some(f) => out.push(rule_line(&widths, f.h, f.mid)),
            None => out.push(bars_line(&widths)),
        }
    }
    let ghost prefix = texts_view(out@);
    let mut i: usize = 1;
    while i < rows.len()
        invariant
            1 <= i <= rows@.len() == rv.len(),
            rv == rows_view(rows@),
            body == Seq::new(rv.len(), |i: int| row_text(rv[i], widths@, mode, first.sep)),
            texts_view(out@) =~= prefix + body.subrange(1, i as int),
        decreases rows@.len() - i,
    {
        proof {
            assert(rv[i as int] == rows@[i as int]@);
        }
        let line = row_line(rows[i], &widths, mode, first.sep);
        let ghost before = out@;
        out.push(line);
        proof {
            assert(texts_view(out@) =~= texts_view(before).push(line@));
        }
        i += 1;
    }
    match frame {
        Some(f) => {
            if first.framed {
                let ghost before = out@;
                let bot = rule_line(&widths, f.h, f.bot);
                out.push(bot);
                proof {
                    assert(texts_view(out@) =~= texts_view(before).push(bot@));
                }
            }
        },
        None => {},
    }
    proof {
        assert(body.subrange(1, rv.len() as int) =~= body.skip(1));
        assert(texts_view(out@) =~= lines);
    }
    let nl: Vec<char> = vec!['\n'];
    assert(nl@ =~= seq!['\n']);
    join_chars(&out, &nl)
}

// ------------------------------------------------------------------------- documents

/// What a line shows before its right-hand frame: the lead and the content.
pub open spec fn head_of(l: LineV, backtick: bool) -> Seq<char> {
    l.lead + body_of(l.segments, backtick)
}

/// Width of the widest boxed row, used to rebuild a square frame.
pub open spec fn box_width(lines: Seq<LineV>, backtick: bool) -> usize
    decreases lines.len(),
{
    if lines.len() == 0 {
        0
    } else {
        let m = box_width(lines.drop_last(), backtick);
        let l = lines.last();
        if l.boxed && display_width(head_of(l, backtick)) > m {
            display_width(head_of(l, backtick))
        } else {
            m
        }
    }
}

/// The spaces that carry a boxed row out to the widest one, plus the one before its frame.
pub open spec fn box_pad(l: LineV, target: usize, backtick: bool) -> Seq<char> {
    repeat(' ', sat(target, display_width(head_of(l, backtick))) + 1)
}

/// A line as plain text. A boxed row is re-padded rather than replayed with its original
/// spacing: after soft-unwrap the content width has changed, and a box padded to the old
/// width would come out crooked.
pub open spec fn plain_line(l: LineV, backtick: bool, target: usize) -> Seq<char> {
    if l.boxed {
        head_of(l, backtick) + box_pad(l, target, backtick) + trim_start(l.tail)
    } else {
        head_of(l, backtick) + l.tail
    }
}

/// `s` wrapped in an isolate opened by `open`, when `on`; else nothing.
pub open spec fn isolated(on: bool, open: char, s: Seq<char>) -> Seq<char> {
    if on {
        seq![open] + s + seq![PDI]
    } else {
        Seq::empty()
    }
}

/// A line with explicit isolates: the lead and the tail each LTR-isolated, the content in
/// an isolate of the line's own direction, and every code run LTR-isolated inside it. A
/// boxed row is padded exactly as plain mode pads it, so its right border stays straight.
pub open spec fn iso_line(l: LineV, target: usize) -> Seq<char> {
    isolated(l.lead.len() > 0, LRI, l.lead) + isolated(
        l.segments.len() > 0,
        open_for(l.dir),
        pieces(l.segments, false, true),
    ) + iso_tail(l, target)
}

/// The isolated tail of a line, after the padding of a boxed row.
pub open spec fn iso_tail(l: LineV, target: usize) -> Seq<char> {
    if l.tail.len() > 0 {
        (if l.boxed {
            box_pad(l, target, false)
        } else {
            Seq::empty()
        }) + isolated(true, LRI, trim_start(l.tail))
    } else {
        Seq::empty()
    }
}

/// One chunk of a document as copied.
pub open spec fn chunk_text(c: ChunkV, mode: CopyMode, target: usize) -> Seq<char> {
    match c {
        ChunkV::Table(rows) => table_text_of(rows, mode),
        ChunkV::Line(l) => if mode == CopyMode::BidiSafe {
            iso_line(l, target)
        } else {
            plain_line(l, mode == CopyMode::Markdown, target)
        },
    }
}

/// A document as copied in the given mode: its chunks, one per line, with each table
/// rebuilt as a whole.
pub open spec fn render_of(d: DocV, mode: CopyMode) -> Seq<char> {
    let target = box_width(d.lines, mode == CopyMode::Markdown);
    join(chunks_of(d.lines).map_values(|c: ChunkV| chunk_text(c, mode, target)), seq!['\n'])
}

fn box_body_width(doc: &Doc, backtick: bool) -> (r: usize)
    ensures
        r == box_width(doc@.lines, backtick),
{
    let ghost lv = doc@.lines;
    let mut best: usize = 0;
    let mut i: usize = 0;
    while i < doc.lines.len()
        invariant
            i <= doc.lines@.len() == lv.len(),
            lv == doc@.lines,
            best == box_width(lv.take(i as int), backtick),
        decreases doc.lines@.len() - i,
    {
        proof {
            assert(lv.take(i + 1).drop_last() =~= lv.take(i as int));
            assert(lv[i as int] == doc.lines@[i as int]@);
        }
        let line = &doc.lines[i];
        if line.boxed {
            let mut head = chars_of(line.lead.as_str());
            push_pieces(&mut head, &line.segments, backtick, false);
            assert(head@ =~= head_of(lv[i as int], backtick));
            let w = width_of(&head);
            if w > best {
                best = w;
            }
        }
        i += 1;
    }
    assert(lv.take(doc.lines@.len() as int) =~= lv);
    best
}

/// Append the padding of a boxed row.
fn push_box_pad(dst: &mut Vec<char>, line: &Line, target: usize, backtick: bool)
    ensures
        final(dst)@ == old(dst)@ + box_pad(line@, target, backtick),
{
    let mut head = chars_of(line.lead.as_str());
    push_pieces(&mut head, &line.segments, backtick, false);
    assert(head@ =~= head_of(line@, backtick));
    let w = width_of(&head);
    let pad = if target > w { target - w } else { 0 };
    push_repeat(dst, ' ', pad);
    dst.push(' ');
    assert(dst@ =~= old(dst)@ + box_pad(line@, target, backtick));
}

fn plain_line_text(line: &Line, backtick: bool, target: usize) -> (r: Vec<char>)
    ensures
        r@ == plain_line(line@, backtick, target),
{
    let mut out = chars_of(line.lead.as_str());
    push_pieces(&mut out, &line.segments, backtick, false);
    assert(out@ =~= head_of(line@, backtick));
    let tail = chars_of(line.tail.as_str());
    if line.boxed {
        push_box_pad(&mut out, line, target, backtick);
        let t = trimmed_start(&tail);
        push_all(&mut out, &t);
    } else {
        push_all(&mut out, &tail);
    }
    assert(out@ =~= plain_line(line@, backtick, target));
    out
}

/// Append the isolated tail of a line.
fn push_iso_tail(dst: &mut Vec<char>, line: &Line, target: usize)
    ensures
        final(dst)@ == old(dst)@ + iso_tail(line@, target),
{
    let tail = chars_of(line.tail.as_str());
    if tail.len() > 0 {
        // Pad exactly as plain mode does, so a box pasted into Slack or a GitHub comment
        // keeps its right border in a straight line.
        let ghost start = dst@;
        if line.boxed {
            push_box_pad(dst, line, target, false);
        }
        let ghost padded = dst@;
        dst.push(LRI);
        let t = trimmed_start(&tail);
        push_all(dst, &t);
        dst.push(PDI);
        assert(dst@ =~= padded + isolated(true, LRI, trim_start(line@.tail)));
    } else {
        assert(dst@ =~= old(dst)@ + iso_tail(line@, target));
    }
}

fn iso_line_text(line: &Line, target: usize) -> (r: Vec<char>)
    ensures
        r@ == iso_line(line@, target),
{
    let mut out: Vec<char> = Vec::new();
    let lead = chars_of(line.lead.as_str());
    if lead.len() > 0 {
        out.push(LRI);
        push_all(&mut out, &lead);
        out.push(PDI);
    }
    assert(out@ =~= isolated(line@.lead.len() > 0, LRI, line@.lead));
    let ghost a = out@;
    if line.segments.len() > 0 {
        out.push(open_isolate(line.dir));
        push_pieces(&mut out, &line.segments, false, true);
        out.push(PDI);
    }
    assert(out@ =~= a + isolated(line@.segments.len() > 0, open_for(line@.dir), pieces(line@.segments, false, true)));
    push_iso_tail(&mut out, line, target);
    out
}

/// The text of every chunk of a document.
fn chunk_texts(doc: &Doc, mode: CopyMode, target: usize) -> (r: Vec<Vec<char>>)
    ensures
        texts_view(r@) == chunks_of(doc@.lines).map_values(|c: ChunkV| chunk_text(c, mode, target)),
{
    let chunks = doc.chunks();
    let ghost cv = chunks_view(chunks@);
    let mut out: Vec<Vec<char>> = Vec::new();
    let mut i: usize = 0;
    while i < chunks.len()
        invariant
            i <= chunks@.len() == cv.len(),
            cv == chunks_view(chunks@),
            texts_view(out@) =~= cv.take(i as int).map_values(|c: ChunkV| chunk_text(c, mode, target)),
        decreases chunks@.len() - i,
    {
        let text = match &chunks[i] {
            Chunk::Table(rows) => {
                assert(cv[i as int] == ChunkV::Table(rows_view(rows@)));
                table_text(rows, mode)
            },
            Chunk::Line(line) => {
                assert(cv[i as int] == ChunkV::Line(line@));
                if mode == CopyMode::BidiSafe {
                    iso_line_text(line, target)
                } else {
                    plain_line_text(line, mode == CopyMode::Markdown, target)
                }
            },
        };
        let ghost before = out@;
        out.push(text);
        proof {
            assert(texts_view(out@) =~= texts_view(before).push(text@));
            assert(cv.take(i + 1).map_values(|c: ChunkV| chunk_text(c, mode, target)) =~= cv.take(
                i as int,
            ).map_values(|c: ChunkV| chunk_text(c, mode, target)).push(chunk_text(cv[i as int], mode, target)));
        }
        i += 1;
    }
    assert(cv.take(chunks@.len() as int) =~= cv);
    out
}

fn plainish(doc: &Doc, mode: CopyMode) -> (r: Vec<char>)
    requires
        mode != CopyMode::BidiSafe,
    ensures
        r@ == render_of(doc@, mode),
{
    let target = box_body_width(doc, mode == CopyMode::Markdown);
    let texts = chunk_texts(doc, mode, target);
    let nl: Vec<char> = vec!['\n'];
    assert(nl@ =~= seq!['\n']);
    join_chars(&texts, &nl)
}

fn bidi_safe(doc: &Doc) -> (r: Vec<char>)
    ensures
        r@ == render_of(doc@, CopyMode::BidiSafe),
{
    let target = box_body_width(doc, false);
    let texts = chunk_texts(doc, CopyMode::BidiSafe, target);
    let nl: Vec<char> = vec!['\n'];
    assert(nl@ =~= seq!['\n']);
    join_chars(&texts, &nl)
}

/// Serialise a document for the clipboard.
pub fn render(doc: &Doc, mode: CopyMode) -> (r: String)
    ensures
        r@ == render_of(doc@, mode),
{
    let out = match mode {
        CopyMode::Plain => plainish(doc, CopyMode::Plain),
        CopyMode::Markdown => plainish(doc, CopyMode::Markdown),
        CopyMode::BidiSafe => bidi_safe(doc),
    };
    string_of(&out)
}

// ----------------------------------------------------------------------------- laws

/// One of the three isolate controls a bidi-safe copy adds.
pub open spec fn is_isolate(c: char) -> bool {
    c == LRI || c == RLI || c == PDI
}

/// The text with every isolate control taken out: what a reader sees of it.
pub open spec fn strip_isolates(s: Seq<char>) -> Seq<char>
    decreases s.len(),
{
    if s.len() == 0 {
        Seq::empty()
    } else {
        strip_isolates(s.drop_last()) + if is_isolate(s.last()) {
            Seq::empty()
        } else {
            seq![s.last()]
        }
    }
}

/// The text holds no isolate control.
pub open spec fn no_isolates(s: Seq<char>) -> bool {
    forall|k: int| 0 <= k < s.len() ==> !is_isolate(#[trigger] s[k])
}

/// Every segment's text is free of isolate controls.
pub open spec fn segs_clean(segs: Seq<SegmentV>) -> bool {
    forall|j: int| 0 <= j < segs.len() ==> no_isolates(#[trigger] segs[j].text())
}

/// A line that a bidi-safe copy shows exactly as a plain copy does: no isolate control
/// of its own, a boxed row has a right-hand frame, and an open row's tail does not start
/// with whitespace (a bidi-safe copy trims it, a plain copy keeps it).
pub open spec fn line_copies_clean(l: LineV) -> bool {
    &&& no_isolates(l.lead)
    &&& no_isolates(l.tail)
    &&& segs_clean(l.segments)
    &&& l.boxed ==> l.tail.len() > 0
    &&& (!l.boxed && l.tail.len() > 0) ==> !is_ws(l.tail[0])
}

/// The text ends with a character that is not whitespace.
pub open spec fn ends_solid(s: Seq<char>) -> bool {
    s.len() > 0 && !is_ws(s.last())
}

/// A table that a bidi-safe copy shows exactly as a plain copy does: no cell holds an
/// isolate control, and when the table is spaced, the last cell of each row ends in a
/// visible character (a plain copy trims trailing blanks off the row, and the isolate
/// that closes the cell would keep them).
pub open spec fn table_copies_clean(rows: Seq<TableRowV>) -> bool {
    &&& forall|m: int, c: int|
        0 <= m < rows.len() && 0 <= c < rows[m].cells.len() ==> segs_clean(
            #[trigger] rows[m].cells[c].segments,
        )
    &&& (rows.len() > 0 && rows[0].sep is Spaced) ==> forall|m: int|
        0 <= m < rows.len() && rows[m].cells.len() > 0 ==> ends_solid(
            body_of(#[trigger] rows[m].cells.last().segments, false),
        )
}

pub open spec fn chunk_copies_clean(c: ChunkV) -> bool {
    match c {
        ChunkV::Line(l) => line_copies_clean(l),
        ChunkV::Table(rows) => table_copies_clean(rows),
    }
}

proof fn lemma_strip_add(a: Seq<char>, b: Seq<char>)
    ensures
        strip_isolates(a + b) == strip_isolates(a) + strip_isolates(b),
    decreases b.len(),
{
    if b.len() == 0 {
        assert(a + b =~= a);
        assert(strip_isolates(a) + strip_isolates(b) =~= strip_isolates(a));
    } else {
        lemma_strip_add(a, b.drop_last());
        assert((a + b).drop_last() =~= a + b.drop_last());
        assert((a + b).last() == b.last());
    }
}

proof fn lemma_strip_clean(s: Seq<char>)
    requires
        no_isolates(s),
    ensures
        strip_isolates(s) == s,
    decreases s.len(),
{
    if s.len() > 0 {
        lemma_strip_clean(s.drop_last());
        assert(s.drop_last() + seq![s.last()] =~= s);
    }
}

proof fn lemma_strip_one(c: char)
    ensures
        strip_isolates(seq![c]) == if is_isolate(c) {
            Seq::<char>::empty()
        } else {
            seq![c]
        },
{
    let e = seq![c].drop_last();
    assert(e =~= Seq::<char>::empty());
    assert(strip_isolates(e) =~= Seq::<char>::empty());
    assert(seq![c].last() == c);
    assert(Seq::<char>::empty() + seq![c] =~= seq![c]);
    assert(Seq::<char>::empty() + Seq::<char>::empty() =~= Seq::<char>::empty());
    assert(strip_isolates(seq![c]) =~= if is_isolate(c) {
        Seq::<char>::empty()
    } else {
        seq![c]
    });
}

/// A piece of a text without isolate controls has none either.
pub proof fn lemma_clean_subrange(s: Seq<char>, a: int, b: int)
    requires
        no_isolates(s),
        0 <= a <= b <= s.len(),
    ensures
        no_isolates(s.subrange(a, b)),
        no_isolates(s.take(b)),
        no_isolates(s.skip(a)),
{
    assert forall|k: int| 0 <= k < s.subrange(a, b).len() implies !is_isolate(#[trigger] s.subrange(a, b)[k]) by {
        assert(s.subrange(a, b)[k] == s[a + k]);
    }
    assert forall|k: int| 0 <= k < s.take(b).len() implies !is_isolate(#[trigger] s.take(b)[k]) by {
        assert(s.take(b)[k] == s[k]);
    }
    assert forall|k: int| 0 <= k < s.skip(a).len() implies !is_isolate(#[trigger] s.skip(a)[k]) by {
        assert(s.skip(a)[k] == s[a + k]);
    }
}

/// Trimming keeps a text free of isolate controls.
pub proof fn lemma_clean_trim(s: Seq<char>)
    requires
        no_isolates(s),
    ensures
        no_isolates(trim_end(s)),
        no_isolates(trim_start(s)),
        no_isolates(crate::text::trim(s)),
{
    crate::text::lemma_trimmed_end_len(s);
    crate::text::lemma_leading_ws(s);
    lemma_clean_subrange(s, leading_ws(s) as int, s.len() as int);
    lemma_clean_subrange(s, 0, trimmed_end_len(s) as int);
    let t = trim_start(s);
    crate::text::lemma_trimmed_end_len(t);
    lemma_clean_subrange(t, 0, trimmed_end_len(t) as int);
}

pub proof fn lemma_clean_add(a: Seq<char>, b: Seq<char>)
    requires
        no_isolates(a),
        no_isolates(b),
    ensures
        no_isolates(a + b),
{
    assert forall|k: int| 0 <= k < (a + b).len() implies !is_isolate(#[trigger] (a + b)[k]) by {
        if k < a.len() {
            assert((a + b)[k] == a[k]);
        } else {
            assert((a + b)[k] == b[k - a.len()]);
        }
    }
}

proof fn lemma_clean_repeat(c: char, n: nat)
    requires
        !is_isolate(c),
    ensures
        no_isolates(repeat(c, n)),
{
}

/// Elementwise, stripping the first list gives the second.
pub open spec fn strips_to(ps: Seq<Seq<char>>, qs: Seq<Seq<char>>) -> bool {
    ps.len() == qs.len() && forall|k: int| 0 <= k < ps.len() ==> strip_isolates(#[trigger] ps[k]) == qs[k]
}

proof fn lemma_strip_join(ps: Seq<Seq<char>>, qs: Seq<Seq<char>>, sep: Seq<char>)
    requires
        strips_to(ps, qs),
        no_isolates(sep),
    ensures
        strip_isolates(join(ps, sep)) == join(qs, sep),
    decreases ps.len(),
{
    if ps.len() == 1 {
        assert(strip_isolates(ps[0]) == qs[0]);
    } else if ps.len() > 1 {
        assert forall|k: int| 0 <= k < ps.drop_last().len() implies strip_isolates(#[trigger] ps.drop_last()[k]) == qs.drop_last()[k] by {
            assert(ps.drop_last()[k] == ps[k]);
        }
        lemma_strip_join(ps.drop_last(), qs.drop_last(), sep);
        lemma_strip_add(join(ps.drop_last(), sep) + sep, ps.last());
        lemma_strip_add(join(ps.drop_last(), sep), sep);
        lemma_strip_clean(sep);
        assert(strip_isolates(ps.last()) == qs.last());
    }
}

pub proof fn lemma_clean_join(ps: Seq<Seq<char>>, sep: Seq<char>)
    requires
        forall|k: int| 0 <= k < ps.len() ==> no_isolates(#[trigger] ps[k]),
        no_isolates(sep),
    ensures
        no_isolates(join(ps, sep)),
    decreases ps.len(),
{
    if ps.len() == 1 {
        assert(no_isolates(ps[0]));
    } else if ps.len() > 1 {
        assert forall|k: int| 0 <= k < ps.drop_last().len() implies no_isolates(#[trigger] ps.drop_last()[k]) by {
            assert(ps.drop_last()[k] == ps[k]);
        }
        lemma_clean_join(ps.drop_last(), sep);
        lemma_clean_add(join(ps.drop_last(), sep), sep);
        assert(no_isolates(ps.last()));
        lemma_clean_add(join(ps.drop_last(), sep) + sep, ps.last());
    }
}

proof fn lemma_strip_pieces(segs: Seq<SegmentV>, backtick: bool)
    requires
        segs_clean(segs),
    ensures
        strip_isolates(pieces(segs, backtick, true)) == pieces(segs, backtick, false),
    decreases segs.len(),
{
    if segs.len() > 0 {
        let init = segs.drop_last();
        assert forall|j: int| 0 <= j < init.len() implies no_isolates(#[trigger] init[j].text()) by {
            assert(init[j] == segs[j]);
        }
        lemma_strip_pieces(init, backtick);
        let s = segs.last();
        assert(no_isolates(s.text()));
        lemma_strip_add(pieces(init, backtick, true), piece(s, backtick, true));
        match s {
            SegmentV::Text(t) => {
                lemma_strip_clean(t);
            },
            SegmentV::Code(t) => {
                let tk = tick(backtick);
                lemma_strip_clean(tk);
                lemma_strip_clean(t);
                lemma_strip_one(LRI);
                lemma_strip_one(PDI);
                lemma_strip_add(tk, seq![LRI]);
                lemma_strip_add(tk + seq![LRI], t);
                lemma_strip_add(tk + seq![LRI] + t, seq![PDI]);
                lemma_strip_add(tk + seq![LRI] + t + seq![PDI], tk);
                assert(tk + Seq::<char>::empty() =~= tk);
                assert(tk + t + Seq::<char>::empty() =~= tk + t);
                assert(mark(true, LRI) == seq![LRI]);
                assert(mark(true, PDI) == seq![PDI]);
                assert(mark(false, LRI) + t =~= t);
                assert(tk + mark(false, LRI) + t + mark(false, PDI) + tk =~= tk + t + tk);
            },
        }
    }
}

/// An isolated run strips back to the run.
proof fn lemma_strip_isolated(on: bool, open: char, s: Seq<char>, plain: Seq<char>)
    requires
        is_isolate(open),
        strip_isolates(s) == plain,
        !on ==> plain.len() == 0,
    ensures
        strip_isolates(isolated(on, open, s)) == plain,
{
    if on {
        lemma_strip_one(open);
        lemma_strip_one(PDI);
        lemma_strip_add(seq![open], s);
        lemma_strip_add(seq![open] + s, seq![PDI]);
        assert(Seq::<char>::empty() + plain + Seq::<char>::empty() =~= plain);
    } else {
        assert(strip_isolates(Seq::<char>::empty()) =~= plain);
    }
}

/// The tail of a line, as both copies show it once isolates are taken out.
pub open spec fn shown_tail(l: LineV, target: usize) -> Seq<char> {
    if l.boxed {
        box_pad(l, target, false) + trim_start(l.tail)
    } else {
        l.tail
    }
}

proof fn lemma_strip_tail(l: LineV, target: usize)
    requires
        line_copies_clean(l),
    ensures
        strip_isolates(iso_tail(l, target)) == shown_tail(l, target),
{
    let ts = trim_start(l.tail);
    crate::text::lemma_leading_ws(l.tail);
    assert forall|k: int| 0 <= k < ts.len() implies !is_isolate(#[trigger] ts[k]) by {
        assert(ts[k] == l.tail[k + leading_ws(l.tail)]);
    }
    lemma_strip_clean(ts);
    lemma_strip_isolated(true, LRI, ts, ts);
    if l.tail.len() > 0 {
        if l.boxed {
            let pad = box_pad(l, target, false);
            lemma_clean_repeat(' ', sat(target, display_width(head_of(l, false))) + 1);
            lemma_strip_clean(pad);
            lemma_strip_add(pad, isolated(true, LRI, ts));
        } else {
            assert(leading_ws(l.tail) == 0);
            assert(ts =~= l.tail);
            assert(Seq::<char>::empty() + isolated(true, LRI, ts) =~= isolated(true, LRI, ts));
        }
    } else {
        assert(strip_isolates(Seq::<char>::empty()) =~= Seq::<char>::empty());
        assert(l.tail =~= Seq::<char>::empty());
    }
}

proof fn lemma_strip_head(l: LineV)
    requires
        line_copies_clean(l),
    ensures
        strip_isolates(
            isolated(l.lead.len() > 0, LRI, l.lead) + isolated(
                l.segments.len() > 0,
                open_for(l.dir),
                pieces(l.segments, false, true),
            ),
        ) == head_of(l, false),
{
    let body = body_of(l.segments, false);
    lemma_strip_clean(l.lead);
    lemma_strip_isolated(l.lead.len() > 0, LRI, l.lead, l.lead);
    lemma_strip_pieces(l.segments, false);
    if l.segments.len() == 0 {
        assert(body =~= Seq::<char>::empty());
    }
    lemma_strip_isolated(l.segments.len() > 0, open_for(l.dir), pieces(l.segments, false, true), body);
    let a = isolated(l.lead.len() > 0, LRI, l.lead);
    let b = isolated(l.segments.len() > 0, open_for(l.dir), pieces(l.segments, false, true));
    lemma_strip_add(a, b);
}

proof fn lemma_strip_line(l: LineV, target: usize)
    requires
        line_copies_clean(l),
    ensures
        strip_isolates(iso_line(l, target)) == plain_line(l, false, target),
{
    let a = isolated(l.lead.len() > 0, LRI, l.lead);
    let b = isolated(l.segments.len() > 0, open_for(l.dir), pieces(l.segments, false, true));
    lemma_strip_head(l);
    lemma_strip_tail(l, target);
    lemma_strip_add(a + b, iso_tail(l, target));
    assert(plain_line(l, false, target) =~= head_of(l, false) + shown_tail(l, target));
}

proof fn lemma_strip_cells(r: TableRowV, widths: Seq<usize>)
    requires
        forall|c: int| 0 <= c < r.cells.len() ==> segs_clean(#[trigger] r.cells[c].segments),
    ensures
        strips_to(padded_of(r, widths, false, true), padded_of(r, widths, false, false)),
{
    let pi = padded_of(r, widths, false, true);
    let pp = padded_of(r, widths, false, false);
    assert forall|c: int| 0 <= c < pi.len() implies strip_isolates(#[trigger] pi[c]) == pp[c] by {
        if c < r.cells.len() {
            let cell = r.cells[c];
            let pad = repeat(' ', sat(widths[c], cell_width(cell, false)));
            lemma_clean_repeat(' ', sat(widths[c], cell_width(cell, false)));
            lemma_strip_clean(pad);
            assert(segs_clean(cell.segments));
            lemma_strip_pieces(cell.segments, false);
            lemma_strip_isolated(true, open_for(cell.dir), pieces(cell.segments, false, true), pieces(cell.segments, false, false));
            lemma_strip_add(cell_out(cell, false, true), pad);
        } else {
            lemma_clean_repeat(' ', widths[c] as nat);
            lemma_strip_clean(repeat(' ', widths[c] as nat));
        }
    }
}

proof fn lemma_join_append(s: Seq<Seq<char>>, t: Seq<Seq<char>>, sep: Seq<char>)
    requires
        s.len() > 0,
        t.len() > 0,
    ensures
        join(s + t, sep) == join(s, sep) + sep + join(t, sep),
    decreases t.len(),
{
    assert((s + t).drop_last().len() == s.len() + t.len() - 1);
    if t.len() == 1 {
        assert((s + t).drop_last() =~= s);
        assert((s + t).last() == t[0]);
    } else {
        lemma_join_append(s, t.drop_last(), sep);
        assert((s + t).drop_last() =~= s + t.drop_last());
        assert((s + t).last() == t.last());
    }
}

proof fn lemma_ws_join(ps: Seq<Seq<char>>, sep: Seq<char>)
    requires
        forall|k: int| 0 <= k < ps.len() ==> all_ws(#[trigger] ps[k]),
        all_ws(sep),
    ensures
        all_ws(join(ps, sep)),
    decreases ps.len(),
{
    if ps.len() == 1 {
        assert(all_ws(ps[0]));
    } else if ps.len() > 1 {
        assert forall|k: int| 0 <= k < ps.drop_last().len() implies all_ws(#[trigger] ps.drop_last()[k]) by {
            assert(ps.drop_last()[k] == ps[k]);
        }
        lemma_ws_join(ps.drop_last(), sep);
        let a = join(ps.drop_last(), sep);
        assert(all_ws(ps.last()));
        assert forall|i: int| 0 <= i < (a + sep + ps.last()).len() implies is_ws(#[trigger] (a + sep + ps.last())[i]) by {
            if i < a.len() {
                assert((a + sep + ps.last())[i] == a[i]);
            } else if i < a.len() + sep.len() {
                assert((a + sep + ps.last())[i] == sep[i - a.len()]);
            } else {
                assert((a + sep + ps.last())[i] == ps.last()[i - a.len() - sep.len()]);
            }
        }
    }
}

/// The part of a spaced row before its last cell.
pub open spec fn spaced_prefix(r: TableRowV, widths: Seq<usize>, isolate: bool) -> Seq<char> {
    let k = r.cells.len() as int;
    if k <= 1 {
        Seq::empty()
    } else {
        join(padded_of(r, widths, false, isolate).take(k - 1), seq![' ', ' ']) + seq![' ', ' ']
    }
}

/// A spaced row ends with its last cell's text: only blanks follow it.
proof fn lemma_spaced_trim(r: TableRowV, widths: Seq<usize>, isolate: bool)
    requires
        1 <= r.cells.len() <= widths.len(),
        ends_solid(cell_out(r.cells.last(), false, isolate)),
    ensures
        spaced_row(padded_of(r, widths, false, isolate)) == spaced_prefix(r, widths, isolate) + cell_out(r.cells.last(), false, isolate),
{
    let k = r.cells.len() as int;
    let w = widths.len() as int;
    let sep = seq![' ', ' '];
    let cs = padded_of(r, widths, false, isolate);
    let pre = cs.take(k);
    let post = cs.skip(k);
    let out = cell_out(r.cells.last(), false, isolate);
    let pad = repeat(' ', sat(widths[k - 1], cell_width(r.cells[k - 1], false)));
    let p = spaced_prefix(r, widths, isolate) + out;
    assert(pre.last() == out + pad);
    if k > 1 {
        assert(pre.drop_last() =~= cs.take(k - 1));
    }
    assert(join(pre, sep) =~= p + pad);
    assert(all_ws(sep));
    assert(all_ws(pad));
    let q = if k < w {
        pad + sep + join(post, sep)
    } else {
        pad
    };
    if k < w {
        assert(cs =~= pre + post);
        lemma_join_append(pre, post, sep);
        assert forall|i: int| 0 <= i < post.len() implies all_ws(#[trigger] post[i]) by {
            assert(post[i] == padded_cell(r, widths, k + i, false, isolate));
        }
        lemma_ws_join(post, sep);
        assert(join(cs, sep) =~= p + q);
        assert forall|i: int| 0 <= i < q.len() implies is_ws(#[trigger] q[i]) by {
            if i < pad.len() {
                assert(q[i] == pad[i]);
            } else if i < pad.len() + 2 {
                assert(q[i] == sep[i - pad.len()]);
            } else {
                assert(q[i] == join(post, sep)[i - pad.len() - 2]);
            }
        }
    } else {
        assert(cs =~= pre);
        assert(join(cs, sep) =~= p + q);
    }
    let x = join(cs, sep);
    assert forall|i: int| p.len() <= i < x.len() implies is_ws(#[trigger] x[i]) by {
        assert(x[i] == q[i - p.len()]);
    }
    assert(p.last() == out.last());
    lemma_trimmed_end_len_unique(x, p.len() as int);
    assert(x.take(p.len() as int) =~= p);
}

proof fn lemma_max_cells(rows: Seq<TableRowV>)
    ensures
        forall|m: int| 0 <= m < rows.len() ==> (#[trigger] rows[m]).cells.len() <= max_cells(rows),
    decreases rows.len(),
{
    if rows.len() > 0 {
        lemma_max_cells(rows.drop_last());
        assert forall|m: int| 0 <= m < rows.len() implies (#[trigger] rows[m]).cells.len() <= max_cells(rows) by {
            if m < rows.len() - 1 {
                assert(rows[m] == rows.drop_last()[m]);
            }
        }
    }
}

proof fn lemma_strip_spaced(r: TableRowV, widths: Seq<usize>)
    requires
        forall|c: int| 0 <= c < r.cells.len() ==> segs_clean(#[trigger] r.cells[c].segments),
        r.cells.len() <= widths.len(),
        r.cells.len() > 0 ==> ends_solid(body_of(r.cells.last().segments, false)),
    ensures
        strip_isolates(spaced_row(padded_of(r, widths, false, true))) == spaced_row(padded_of(r, widths, false, false)),
{
    let sep = seq![' ', ' '];
    let ci = padded_of(r, widths, false, true);
    let cp = padded_of(r, widths, false, false);
    lemma_strip_cells(r, widths);
    if r.cells.len() == 0 {
        assert(ci =~= cp);
        assert forall|k: int| 0 <= k < cp.len() implies no_isolates(#[trigger] cp[k]) by {
            lemma_clean_repeat(' ', widths[k] as nat);
        }
        lemma_clean_join(cp, sep);
        let x = join(cp, sep);
        crate::text::lemma_trimmed_end_len(x);
        let t = trim_end(x);
        assert forall|i: int| 0 <= i < t.len() implies !is_isolate(#[trigger] t[i]) by {
            assert(t[i] == x[i]);
        }
        lemma_strip_clean(t);
    } else {
        let k = r.cells.len() as int;
        let last = r.cells.last();
        assert(segs_clean(r.cells[k - 1].segments));
        lemma_strip_pieces(last.segments, false);
        let oi = cell_out(last, false, true);
        assert(oi.last() == PDI);
        lemma_spaced_trim(r, widths, true);
        lemma_spaced_trim(r, widths, false);
        lemma_strip_isolated(true, open_for(last.dir), pieces(last.segments, false, true), pieces(last.segments, false, false));
        lemma_strip_add(spaced_prefix(r, widths, true), oi);
        if k > 1 {
            assert forall|j: int| 0 <= j < ci.take(k - 1).len() implies strip_isolates(#[trigger] ci.take(k - 1)[j]) == cp.take(k - 1)[j] by {
                assert(ci.take(k - 1)[j] == ci[j]);
            }
            lemma_strip_join(ci.take(k - 1), cp.take(k - 1), sep);
            lemma_strip_add(join(ci.take(k - 1), sep), sep);
            lemma_strip_clean(sep);
        } else {
            assert(strip_isolates(Seq::<char>::empty()) =~= Seq::<char>::empty());
        }
    }
}

proof fn lemma_strip_framed(r: TableRowV, widths: Seq<usize>, v: char)
    requires
        forall|c: int| 0 <= c < r.cells.len() ==> segs_clean(#[trigger] r.cells[c].segments),
        !is_isolate(v),
    ensures
        strip_isolates(framed_row(padded_of(r, widths, false, true), v)) == framed_row(padded_of(r, widths, false, false), v),
{
    let ci = padded_of(r, widths, false, true);
    let cp = padded_of(r, widths, false, false);
    lemma_strip_cells(r, widths);
    let sep = seq![' ', v, ' '];
    lemma_strip_join(ci, cp, sep);
    let a = seq![v, ' '];
    let b = seq![' ', v];
    lemma_strip_clean(a);
    lemma_strip_clean(b);
    lemma_strip_add(a, join(ci, sep));
    lemma_strip_add(a + join(ci, sep), b);
}

proof fn lemma_clean_rule(widths: Seq<usize>, h: char, e: Ends)
    requires
        !is_isolate(h),
        !is_isolate(e.left),
        !is_isolate(e.cross),
        !is_isolate(e.right),
    ensures
        strip_isolates(rule_of(widths, h, e)) == rule_of(widths, h, e),
        no_isolates(rule_of(widths, h, e)),
{
    let spans = widths.map_values(|w: usize| rule_span(h, w));
    assert forall|k: int| 0 <= k < spans.len() implies no_isolates(#[trigger] spans[k]) by {
        lemma_clean_repeat(h, (widths[k] + 2) as nat);
    }
    lemma_clean_join(spans, seq![e.cross]);
    lemma_clean_add(seq![e.left], join(spans, seq![e.cross]));
    lemma_clean_add(seq![e.left] + join(spans, seq![e.cross]), seq![e.right]);
    lemma_strip_clean(rule_of(widths, h, e));
}

proof fn lemma_clean_bars(widths: Seq<usize>)
    ensures
        strip_isolates(bars_of(widths)) == bars_of(widths),
        no_isolates(bars_of(widths)),
{
    let bars = widths.map_values(|w: usize| repeat('─', w as nat));
    assert forall|k: int| 0 <= k < bars.len() implies no_isolates(#[trigger] bars[k]) by {
        lemma_clean_repeat('─', widths[k] as nat);
    }
    lemma_clean_join(bars, seq![' ', ' ']);
    lemma_strip_clean(bars_of(widths));
}

proof fn lemma_strips_to_add(a: Seq<Seq<char>>, a2: Seq<Seq<char>>, b: Seq<Seq<char>>, b2: Seq<Seq<char>>)
    requires
        strips_to(a, a2),
        strips_to(b, b2),
    ensures
        strips_to(a + b, a2 + b2),
{
    assert forall|k: int| 0 <= k < (a + b).len() implies strip_isolates(#[trigger] (a + b)[k]) == (a2 + b2)[k] by {
        if k < a.len() {
            assert((a + b)[k] == a[k]);
        } else {
            assert((a + b)[k] == b[k - a.len()]);
        }
    }
}

proof fn lemma_strips_to_opt(on: bool, x: Seq<char>)
    requires
        strip_isolates(x) == x,
    ensures
        strips_to(opt_line(on, x), opt_line(on, x)),
{
}

proof fn lemma_strip_table(rows: Seq<TableRowV>)
    requires
        table_copies_clean(rows),
    ensures
        strip_isolates(table_text_of(rows, CopyMode::BidiSafe)) == table_text_of(rows, CopyMode::Plain),
{
    let widths = widths_of(rows, false);
    let nl = seq!['\n'];
    let li = table_lines(rows, CopyMode::BidiSafe);
    let lp = table_lines(rows, CopyMode::Plain);
    if widths.len() == 0 || rows.len() == 0 {
        assert(strip_isolates(Seq::<char>::empty()) =~= Seq::<char>::empty());
    } else {
        lemma_max_cells(rows);
        let first = rows[0];
        let bi = Seq::new(rows.len(), |i: int| row_text(rows[i], widths, CopyMode::BidiSafe, first.sep));
        let bp = Seq::new(rows.len(), |i: int| row_text(rows[i], widths, CopyMode::Plain, first.sep));
        assert forall|i: int| 0 <= i < bi.len() implies strip_isolates(#[trigger] bi[i]) == bp[i] by {
            let r = rows[i];
            assert forall|c: int| 0 <= c < r.cells.len() implies segs_clean(#[trigger] r.cells[c].segments) by {
                assert(segs_clean(rows[i].cells[c].segments));
            }
            assert(r.cells.len() <= widths.len());
            match first.sep {
                Sep::Delimited(d) => {
                    lemma_strip_framed(r, widths, frame_of(d).v);
                },
                Sep::Spaced => {
                    if r.cells.len() > 0 {
                        assert(ends_solid(body_of(rows[i].cells.last().segments, false)));
                    }
                    lemma_strip_spaced(r, widths);
                },
            }
        }
        assert(strips_to(bi, bp));
        assert(strips_to(bi.skip(1), bp.skip(1)));
        assert(strips_to(seq![bi[0]], seq![bp[0]]));
        match first.sep {
            Sep::Delimited(d) => {
                let f = frame_of(d);
                lemma_clean_rule(widths, f.h, f.top);
                lemma_clean_rule(widths, f.h, f.mid);
                lemma_clean_rule(widths, f.h, f.bot);
                let top = opt_line(first.framed, rule_of(widths, f.h, f.top));
                let mid = opt_line(first.head, rule_of(widths, f.h, f.mid));
                let bot = opt_line(first.framed, rule_of(widths, f.h, f.bot));
                lemma_strips_to_opt(first.framed, rule_of(widths, f.h, f.top));
                lemma_strips_to_opt(first.head, rule_of(widths, f.h, f.mid));
                lemma_strips_to_opt(first.framed, rule_of(widths, f.h, f.bot));
                lemma_strips_to_add(top, top, seq![bi[0]], seq![bp[0]]);
                lemma_strips_to_add(top + seq![bi[0]], top + seq![bp[0]], mid, mid);
                lemma_strips_to_add(top + seq![bi[0]] + mid, top + seq![bp[0]] + mid, bi.skip(1), bp.skip(1));
                lemma_strips_to_add(top + seq![bi[0]] + mid + bi.skip(1), top + seq![bp[0]] + mid + bp.skip(1), bot, bot);
            },
            Sep::Spaced => {
                lemma_clean_bars(widths);
                let bars = opt_line(first.head, bars_of(widths));
                lemma_strips_to_opt(first.head, bars_of(widths));
                lemma_strips_to_add(seq![bi[0]], seq![bp[0]], bars, bars);
                lemma_strips_to_add(seq![bi[0]] + bars, seq![bp[0]] + bars, bi.skip(1), bp.skip(1));
            },
        }
        assert(strips_to(li, lp));
        lemma_strip_join(li, lp, nl);
    }
}

/// A bidi-safe copy adds isolate controls and nothing else: with them taken out it reads
/// exactly as the plain copy, for every document whose chunks carry no isolate controls
/// of their own and whose frames and spaced rows end where the two modes agree (see
/// [`line_copies_clean`] and [`table_copies_clean`]).
pub proof fn law_bidi_safe_strips_to_plain(d: DocV)
    requires
        forall|k: int| 0 <= k < chunks_of(d.lines).len() ==> chunk_copies_clean(#[trigger] chunks_of(d.lines)[k]),
    ensures
        strip_isolates(render_of(d, CopyMode::BidiSafe)) == render_of(d, CopyMode::Plain),
{
    let cs = chunks_of(d.lines);
    let target = box_width(d.lines, false);
    let ps = cs.map_values(|c: ChunkV| chunk_text(c, CopyMode::BidiSafe, target));
    let qs = cs.map_values(|c: ChunkV| chunk_text(c, CopyMode::Plain, target));
    assert forall|k: int| 0 <= k < ps.len() implies strip_isolates(#[trigger] ps[k]) == qs[k] by {
        assert(chunk_copies_clean(cs[k]));
        match cs[k] {
            ChunkV::Line(l) => lemma_strip_line(l, target),
            ChunkV::Table(rows) => lemma_strip_table(rows),
        }
    }
    lemma_strip_join(ps, qs, seq!['\n']);
}

/// The stripped copy and the other copy agree line for line once trailing whitespace is
/// trimmed off each line.
pub open spec fn agree_by_line(ps: Seq<Seq<char>>, qs: Seq<Seq<char>>) -> bool {
    ps.len() == qs.len() && forall|k: int|
        0 <= k < ps.len() ==> trim_end(strip_isolates(#[trigger] ps[k])) == trim_end(qs[k])
}

proof fn lemma_agree_from_strips(ps: Seq<Seq<char>>, qs: Seq<Seq<char>>)
    requires
        strips_to(ps, qs),
    ensures
        agree_by_line(ps, qs),
{
    assert forall|k: int| 0 <= k < ps.len() implies trim_end(strip_isolates(#[trigger] ps[k])) == trim_end(qs[k]) by {
        assert(strip_isolates(ps[k]) == qs[k]);
    }
}

proof fn lemma_agree_add(a: Seq<Seq<char>>, a2: Seq<Seq<char>>, b: Seq<Seq<char>>, b2: Seq<Seq<char>>)
    requires
        agree_by_line(a, a2),
        agree_by_line(b, b2),
    ensures
        agree_by_line(a + b, a2 + b2),
{
    assert forall|k: int| 0 <= k < (a + b).len() implies trim_end(strip_isolates(#[trigger] (a + b)[k])) == trim_end(
        (a2 + b2)[k],
    ) by {
        if k < a.len() {
            assert((a + b)[k] == a[k] && (a2 + b2)[k] == a2[k]);
        } else {
            assert((a + b)[k] == b[k - a.len()] && (a2 + b2)[k] == b2[k - a.len()]);
        }
    }
}

proof fn lemma_ws_clean(w: Seq<char>)
    requires
        all_ws(w),
    ensures
        no_isolates(w),
{
    assert forall|k: int| 0 <= k < w.len() implies !is_isolate(#[trigger] w[k]) by {
        assert(is_ws(w[k]));
    }
}

/// A spaced row, stripped of its isolates, is the plain row up to trailing blanks.
proof fn lemma_strip_spaced_loose(r: TableRowV, widths: Seq<usize>)
    requires
        forall|c: int| 0 <= c < r.cells.len() ==> segs_clean(#[trigger] r.cells[c].segments),
    ensures
        trim_end(strip_isolates(spaced_row(padded_of(r, widths, false, true)))) == trim_end(
            spaced_row(padded_of(r, widths, false, false)),
        ),
{
    let sep = seq![' ', ' '];
    let ci = padded_of(r, widths, false, true);
    let cp = padded_of(r, widths, false, false);
    lemma_strip_cells(r, widths);
    lemma_ws_clean(sep);
    lemma_strip_join(ci, cp, sep);
    let ji = join(ci, sep);
    let jp = join(cp, sep);
    crate::text::lemma_trim_end_split(ji);
    let t = trim_end(ji);
    let w = ji.skip(t.len() as int);
    lemma_strip_add(t, w);
    lemma_ws_clean(w);
    lemma_strip_clean(w);
    assert(jp == strip_isolates(t) + w);
    crate::text::lemma_trim_end_ws_tail(strip_isolates(t), w);
    crate::text::lemma_trim_end_twice(jp);
}

/// The cells of a table carry no isolate controls of their own.
pub open spec fn cells_clean(rows: Seq<TableRowV>) -> bool {
    forall|m: int, c: int|
        0 <= m < rows.len() && 0 <= c < rows[m].cells.len() ==> segs_clean(#[trigger] rows[m].cells[c].segments)
}

proof fn lemma_agree_table(rows: Seq<TableRowV>)
    requires
        cells_clean(rows),
    ensures
        agree_by_line(table_lines(rows, CopyMode::BidiSafe), table_lines(rows, CopyMode::Plain)),
{
    let widths = widths_of(rows, false);
    let li = table_lines(rows, CopyMode::BidiSafe);
    let lp = table_lines(rows, CopyMode::Plain);
    if widths.len() == 0 || rows.len() == 0 {
    } else {
        lemma_max_cells(rows);
        let first = rows[0];
        let bi = Seq::new(rows.len(), |i: int| row_text(rows[i], widths, CopyMode::BidiSafe, first.sep));
        let bp = Seq::new(rows.len(), |i: int| row_text(rows[i], widths, CopyMode::Plain, first.sep));
        assert forall|i: int| 0 <= i < bi.len() implies trim_end(strip_isolates(#[trigger] bi[i])) == trim_end(bp[i]) by {
            let r = rows[i];
            assert forall|c: int| 0 <= c < r.cells.len() implies segs_clean(#[trigger] r.cells[c].segments) by {
                assert(segs_clean(rows[i].cells[c].segments));
            }
            match first.sep {
                Sep::Delimited(d) => {
                    lemma_strip_framed(r, widths, frame_of(d).v);
                },
                Sep::Spaced => {
                    lemma_strip_spaced_loose(r, widths);
                },
            }
        }
        assert(agree_by_line(bi, bp));
        assert(agree_by_line(bi.skip(1), bp.skip(1)));
        assert(agree_by_line(seq![bi[0]], seq![bp[0]]));
        match first.sep {
            Sep::Delimited(d) => {
                let f = frame_of(d);
                lemma_clean_rule(widths, f.h, f.top);
                lemma_clean_rule(widths, f.h, f.mid);
                lemma_clean_rule(widths, f.h, f.bot);
                let top = opt_line(first.framed, rule_of(widths, f.h, f.top));
                let mid = opt_line(first.head, rule_of(widths, f.h, f.mid));
                let bot = opt_line(first.framed, rule_of(widths, f.h, f.bot));
                lemma_strips_to_opt(first.framed, rule_of(widths, f.h, f.top));
                lemma_strips_to_opt(first.head, rule_of(widths, f.h, f.mid));
                lemma_strips_to_opt(first.framed, rule_of(widths, f.h, f.bot));
                lemma_agree_from_strips(top, top);
                lemma_agree_from_strips(mid, mid);
                lemma_agree_from_strips(bot, bot);
                lemma_agree_add(top, top, seq![bi[0]], seq![bp[0]]);
                lemma_agree_add(top + seq![bi[0]], top + seq![bp[0]], mid, mid);
                lemma_agree_add(top + seq![bi[0]] + mid, top + seq![bp[0]] + mid, bi.skip(1), bp.skip(1));
                lemma_agree_add(top + seq![bi[0]] + mid + bi.skip(1), top + seq![bp[0]] + mid + bp.skip(1), bot, bot);
            },
            Sep::Spaced => {
                lemma_clean_bars(widths);
                let bars = opt_line(first.head, bars_of(widths));
                lemma_strips_to_opt(first.head, bars_of(widths));
                lemma_agree_from_strips(bars, bars);
                lemma_agree_add(seq![bi[0]], seq![bp[0]], bars, bars);
                lemma_agree_add(seq![bi[0]] + bars, seq![bp[0]] + bars, bi.skip(1), bp.skip(1));
            },
        }
    }
}

/// The lines a chunk is copied as.
pub open spec fn copy_lines(c: ChunkV, mode: CopyMode, target: usize) -> Seq<Seq<char>> {
    match c {
        ChunkV::Table(rows) => table_lines(rows, mode),
        ChunkV::Line(_) => seq![chunk_text(c, mode, target)],
    }
}

/// A chunk whose bidi-safe copy shows what its plain copy shows: no isolate control of its
/// own, and for a line the frame conditions of [`line_copies_clean`].
pub open spec fn chunk_shows_plain(c: ChunkV) -> bool {
    match c {
        ChunkV::Line(l) => line_copies_clean(l),
        ChunkV::Table(rows) => cells_clean(rows),
    }
}

proof fn lemma_render_by_lines(d: DocV, m: CopyMode)
    requires
        m != CopyMode::Markdown,
    ensures
        render_of(d, m) == join(
            chunks_of(d.lines).map_values(|c: ChunkV| join(copy_lines(c, m, box_width(d.lines, false)), seq!['\n'])),
            seq!['\n'],
        ),
{
    let cs = chunks_of(d.lines);
    let t = box_width(d.lines, false);
    assert forall|k: int| 0 <= k < cs.len() implies chunk_text(#[trigger] cs[k], m, t) == join(
        copy_lines(cs[k], m, t),
        seq!['\n'],
    ) by {
        match cs[k] {
            ChunkV::Table(rows) => {},
            ChunkV::Line(l) => {},
        }
    }
    assert(cs.map_values(|c: ChunkV| chunk_text(c, m, t)) =~= cs.map_values(
        |c: ChunkV| join(copy_lines(c, m, t), seq!['\n']),
    ));
}

/// Both copies of the document are its chunks, one after another, each as its lines, all
/// joined by newlines; and each chunk's bidi-safe lines, with the isolate controls taken
/// out, are its plain lines up to the blanks at the end of each line.
pub open spec fn bidi_safe_shows_plain(d: DocV) -> bool {
    let cs = chunks_of(d.lines);
    let t = box_width(d.lines, false);
    &&& render_of(d, CopyMode::Plain) == join(
        cs.map_values(|c: ChunkV| join(copy_lines(c, CopyMode::Plain, t), seq!['\n'])),
        seq!['\n'],
    )
    &&& render_of(d, CopyMode::BidiSafe) == join(
        cs.map_values(|c: ChunkV| join(copy_lines(c, CopyMode::BidiSafe, t), seq!['\n'])),
        seq!['\n'],
    )
    &&& forall|k: int|
        0 <= k < cs.len() ==> agree_by_line(
            copy_lines(#[trigger] cs[k], CopyMode::BidiSafe, t),
            copy_lines(cs[k], CopyMode::Plain, t),
        )
}

/// A bidi-safe copy shows the plain copy's text: both copies are the document's chunks, one
/// after another, each as its lines, all joined by newlines; and a chunk's bidi-safe lines,
/// with the isolate controls taken out, are its plain lines up to the blanks at the end of
/// each line (which a spaced table row keeps in front of its closing isolate).
pub proof fn law_bidi_safe_copy_shows_the_plain_text(d: DocV)
    requires
        forall|k: int| 0 <= k < chunks_of(d.lines).len() ==> chunk_shows_plain(#[trigger] chunks_of(d.lines)[k]),
    ensures
        bidi_safe_shows_plain(d),
{
    let cs = chunks_of(d.lines);
    let t = box_width(d.lines, false);
    lemma_render_by_lines(d, CopyMode::Plain);
    lemma_render_by_lines(d, CopyMode::BidiSafe);
    assert forall|k: int| 0 <= k < cs.len() implies agree_by_line(
        copy_lines(#[trigger] cs[k], CopyMode::BidiSafe, t),
        copy_lines(cs[k], CopyMode::Plain, t),
    ) by {
        assert(chunk_shows_plain(cs[k]));
        match cs[k] {
            ChunkV::Line(l) => {
                lemma_strip_line(l, t);
                lemma_agree_from_strips(seq![iso_line(l, t)], seq![plain_line(l, false, t)]);
            },
            ChunkV::Table(rows) => lemma_agree_table(rows),
        }
    }
}

// ------------------------------------------------------------------ isolate balance

/// How many isolates are open at the end of the text: each `LRI` or `RLI` opens one, each
/// `PDI` closes one.
pub open spec fn depth(s: Seq<char>) -> int
    decreases s.len(),
{
    if s.len() == 0 {
        0
    } else {
        depth(s.drop_last()) + if s.last() == LRI || s.last() == RLI {
            1int
        } else if s.last() == PDI {
            -1int
        } else {
            0int
        }
    }
}

/// Every isolate the text opens it also closes, and it never closes one it did not open:
/// the text cannot leak a direction into whatever it is pasted next to.
pub open spec fn balanced(s: Seq<char>) -> bool {
    depth(s) == 0 && forall|i: int| 0 <= i <= s.len() ==> depth(#[trigger] s.take(i)) >= 0
}

/// No text of the chunk holds an isolate control of its own.
pub open spec fn chunk_texts_clean(c: ChunkV) -> bool {
    match c {
        ChunkV::Line(l) => no_isolates(l.lead) && no_isolates(l.tail) && segs_clean(l.segments),
        ChunkV::Table(rows) => forall|m: int, c: int|
            0 <= m < rows.len() && 0 <= c < rows[m].cells.len() ==> segs_clean(
                #[trigger] rows[m].cells[c].segments,
            ),
    }
}

proof fn lemma_depth_add(a: Seq<char>, b: Seq<char>)
    ensures
        depth(a + b) == depth(a) + depth(b),
    decreases b.len(),
{
    if b.len() == 0 {
        assert(a + b =~= a);
    } else {
        lemma_depth_add(a, b.drop_last());
        assert((a + b).drop_last() =~= a + b.drop_last());
    }
}

proof fn lemma_balanced_add(a: Seq<char>, b: Seq<char>)
    requires
        balanced(a),
        balanced(b),
    ensures
        balanced(a + b),
{
    lemma_depth_add(a, b);
    assert forall|i: int| 0 <= i <= (a + b).len() implies depth(#[trigger] (a + b).take(i)) >= 0 by {
        if i <= a.len() {
            assert((a + b).take(i) =~= a.take(i));
        } else {
            assert((a + b).take(i) =~= a + b.take(i - a.len()));
            assert(depth(b.take(i - a.len())) >= 0);
            lemma_depth_add(a, b.take(i - a.len()));
            assert(a.take(a.len() as int) =~= a);
        }
    }
}

proof fn lemma_clean_depth(s: Seq<char>)
    requires
        no_isolates(s),
    ensures
        depth(s) == 0,
    decreases s.len(),
{
    if s.len() > 0 {
        lemma_clean_depth(s.drop_last());
    }
}

proof fn lemma_clean_balanced(s: Seq<char>)
    requires
        no_isolates(s),
    ensures
        balanced(s),
{
    lemma_clean_depth(s);
    assert forall|i: int| 0 <= i <= s.len() implies depth(#[trigger] s.take(i)) >= 0 by {
        lemma_clean_depth(s.take(i));
    }
}

proof fn lemma_depth_one(c: char)
    ensures
        depth(seq![c]) == if c == LRI || c == RLI {
            1int
        } else if c == PDI {
            -1int
        } else {
            0int
        },
{
    let e = seq![c].drop_last();
    assert(e =~= Seq::<char>::empty());
    assert(depth(e) == 0);
    assert(seq![c].last() == c);
}

proof fn lemma_balanced_isolated(open: char, s: Seq<char>)
    requires
        open == LRI || open == RLI,
        balanced(s),
    ensures
        balanced(seq![open] + s + seq![PDI]),
{
    let x = seq![open] + s + seq![PDI];
    lemma_depth_one(open);
    lemma_depth_one(PDI);
    lemma_depth_add(seq![open], s);
    lemma_depth_add(seq![open] + s, seq![PDI]);
    assert forall|i: int| 0 <= i <= x.len() implies depth(#[trigger] x.take(i)) >= 0 by {
        if i == 0 {
            assert(x.take(0) =~= Seq::<char>::empty());
        } else if i <= s.len() + 1 {
            assert(x.take(i) =~= seq![open] + s.take(i - 1));
            lemma_depth_add(seq![open], s.take(i - 1));
        } else {
            assert(x.take(i) =~= x);
        }
    }
}

proof fn lemma_balanced_join(ps: Seq<Seq<char>>, sep: Seq<char>)
    requires
        forall|k: int| 0 <= k < ps.len() ==> balanced(#[trigger] ps[k]),
        balanced(sep),
    ensures
        balanced(join(ps, sep)),
    decreases ps.len(),
{
    if ps.len() == 0 {
        lemma_clean_balanced(Seq::<char>::empty());
    } else if ps.len() == 1 {
        assert(balanced(ps[0]));
    } else {
        assert forall|k: int| 0 <= k < ps.drop_last().len() implies balanced(#[trigger] ps.drop_last()[k]) by {
            assert(ps.drop_last()[k] == ps[k]);
        }
        lemma_balanced_join(ps.drop_last(), sep);
        lemma_balanced_add(join(ps.drop_last(), sep), sep);
        assert(balanced(ps.last()));
        lemma_balanced_add(join(ps.drop_last(), sep) + sep, ps.last());
    }
}

proof fn lemma_balanced_pieces(segs: Seq<SegmentV>, backtick: bool)
    requires
        segs_clean(segs),
    ensures
        balanced(pieces(segs, backtick, true)),
    decreases segs.len(),
{
    if segs.len() == 0 {
        lemma_clean_balanced(Seq::<char>::empty());
    } else {
        let init = segs.drop_last();
        assert forall|j: int| 0 <= j < init.len() implies no_isolates(#[trigger] init[j].text()) by {
            assert(init[j] == segs[j]);
        }
        lemma_balanced_pieces(init, backtick);
        let s = segs.last();
        assert(no_isolates(s.text()));
        match s {
            SegmentV::Text(t) => {
                lemma_clean_balanced(t);
            },
            SegmentV::Code(t) => {
                let tk = tick(backtick);
                lemma_clean_balanced(t);
                lemma_clean_balanced(tk);
                lemma_balanced_isolated(LRI, t);
                lemma_balanced_add(tk, seq![LRI] + t + seq![PDI]);
                lemma_balanced_add(tk + (seq![LRI] + t + seq![PDI]), tk);
                assert(tk + mark(true, LRI) + t + mark(true, PDI) + tk =~= tk + (seq![LRI] + t + seq![PDI]) + tk);
            },
        }
        lemma_balanced_add(pieces(init, backtick, true), piece(s, backtick, true));
    }
}

proof fn lemma_balanced_opt_isolated(on: bool, open: char, s: Seq<char>)
    requires
        open == LRI || open == RLI,
        balanced(s),
    ensures
        balanced(isolated(on, open, s)),
{
    if on {
        lemma_balanced_isolated(open, s);
    } else {
        lemma_clean_balanced(Seq::<char>::empty());
    }
}

proof fn lemma_balanced_line(l: LineV, target: usize)
    requires
        no_isolates(l.lead),
        no_isolates(l.tail),
        segs_clean(l.segments),
    ensures
        balanced(iso_line(l, target)),
{
    lemma_clean_balanced(l.lead);
    lemma_balanced_opt_isolated(l.lead.len() > 0, LRI, l.lead);
    lemma_balanced_pieces(l.segments, false);
    lemma_balanced_opt_isolated(l.segments.len() > 0, open_for(l.dir), pieces(l.segments, false, true));
    let a = isolated(l.lead.len() > 0, LRI, l.lead);
    let b = isolated(l.segments.len() > 0, open_for(l.dir), pieces(l.segments, false, true));
    lemma_balanced_add(a, b);
    let ts = trim_start(l.tail);
    crate::text::lemma_leading_ws(l.tail);
    assert forall|k: int| 0 <= k < ts.len() implies !is_isolate(#[trigger] ts[k]) by {
        assert(ts[k] == l.tail[k + leading_ws(l.tail)]);
    }
    lemma_clean_balanced(ts);
    lemma_balanced_isolated(LRI, ts);
    let pad = box_pad(l, target, false);
    lemma_clean_repeat(' ', sat(target, display_width(head_of(l, false))) + 1);
    lemma_clean_balanced(pad);
    let e = Seq::<char>::empty();
    lemma_clean_balanced(e);
    if l.tail.len() > 0 {
        if l.boxed {
            lemma_balanced_add(pad, isolated(true, LRI, ts));
        } else {
            lemma_balanced_add(e, isolated(true, LRI, ts));
        }
    }
    lemma_balanced_add(a + b, iso_tail(l, target));
}

proof fn lemma_balanced_cells(r: TableRowV, widths: Seq<usize>)
    requires
        forall|c: int| 0 <= c < r.cells.len() ==> segs_clean(#[trigger] r.cells[c].segments),
    ensures
        forall|c: int| 0 <= c < widths.len() ==> balanced(#[trigger] padded_of(r, widths, false, true)[c]),
{
    assert forall|c: int| 0 <= c < widths.len() implies balanced(#[trigger] padded_of(r, widths, false, true)[c]) by {
        if c < r.cells.len() {
            let cell = r.cells[c];
            let pad = repeat(' ', sat(widths[c], cell_width(cell, false)));
            lemma_clean_repeat(' ', sat(widths[c], cell_width(cell, false)));
            lemma_clean_balanced(pad);
            assert(segs_clean(cell.segments));
            lemma_balanced_pieces(cell.segments, false);
            lemma_balanced_isolated(open_for(cell.dir), pieces(cell.segments, false, true));
            lemma_balanced_add(cell_out(cell, false, true), pad);
        } else {
            lemma_clean_repeat(' ', widths[c] as nat);
            lemma_clean_balanced(repeat(' ', widths[c] as nat));
        }
    }
}

/// A text that ends in whitespace only keeps its balance when the whitespace goes.
proof fn lemma_balanced_trim_end(s: Seq<char>)
    requires
        balanced(s),
    ensures
        balanced(trim_end(s)),
{
    crate::text::lemma_trimmed_end_len(s);
    let n = trimmed_end_len(s) as int;
    let rest = s.skip(n);
    assert forall|k: int| 0 <= k < rest.len() implies !is_isolate(#[trigger] rest[k]) by {
        assert(rest[k] == s[n + k]);
        assert(is_ws(s[n + k]));
    }
    lemma_clean_depth(rest);
    assert(s.take(n) + rest =~= s);
    lemma_depth_add(s.take(n), rest);
    assert forall|i: int| 0 <= i <= s.take(n).len() implies depth(#[trigger] s.take(n).take(i)) >= 0 by {
        assert(s.take(n).take(i) =~= s.take(i));
    }
}

/// Every text of the list is balanced.
pub open spec fn all_balanced(ps: Seq<Seq<char>>) -> bool {
    forall|k: int| 0 <= k < ps.len() ==> balanced(#[trigger] ps[k])
}

proof fn lemma_all_balanced_add(a: Seq<Seq<char>>, b: Seq<Seq<char>>)
    requires
        all_balanced(a),
        all_balanced(b),
    ensures
        all_balanced(a + b),
{
    assert forall|k: int| 0 <= k < (a + b).len() implies balanced(#[trigger] (a + b)[k]) by {
        if k < a.len() {
            assert((a + b)[k] == a[k]);
        } else {
            assert((a + b)[k] == b[k - a.len()]);
        }
    }
}

proof fn lemma_balanced_table(rows: Seq<TableRowV>)
    requires
        forall|m: int, c: int|
            0 <= m < rows.len() && 0 <= c < rows[m].cells.len() ==> segs_clean(#[trigger] rows[m].cells[c].segments),
    ensures
        balanced(table_text_of(rows, CopyMode::BidiSafe)),
{
    let widths = widths_of(rows, false);
    let lines = table_lines(rows, CopyMode::BidiSafe);
    let nl = seq!['\n'];
    lemma_clean_balanced(nl);
    if widths.len() == 0 || rows.len() == 0 {
        lemma_clean_balanced(Seq::<char>::empty());
    } else {
        let first = rows[0];
        let body = Seq::new(rows.len(), |i: int| row_text(rows[i], widths, CopyMode::BidiSafe, first.sep));
        assert forall|i: int| 0 <= i < body.len() implies balanced(#[trigger] body[i]) by {
            let r = rows[i];
            assert forall|c: int| 0 <= c < r.cells.len() implies segs_clean(#[trigger] r.cells[c].segments) by {
                assert(segs_clean(rows[i].cells[c].segments));
            }
            lemma_balanced_cells(r, widths);
            let cells = padded_of(r, widths, false, true);
            match first.sep {
                Sep::Delimited(d) => {
                    let v = frame_of(d).v;
                    let sep = seq![' ', v, ' '];
                    lemma_clean_balanced(sep);
                    lemma_balanced_join(cells, sep);
                    lemma_clean_balanced(seq![v, ' ']);
                    lemma_clean_balanced(seq![' ', v]);
                    lemma_balanced_add(seq![v, ' '], join(cells, sep));
                    lemma_balanced_add(seq![v, ' '] + join(cells, sep), seq![' ', v]);
                },
                Sep::Spaced => {
                    let sep = seq![' ', ' '];
                    lemma_clean_balanced(sep);
                    lemma_balanced_join(cells, sep);
                    lemma_balanced_trim_end(join(cells, sep));
                },
            }
        }
        assert(all_balanced(body.skip(1)));
        assert(all_balanced(seq![body[0]]));
        match first.sep {
            Sep::Delimited(d) => {
                let f = frame_of(d);
                lemma_clean_rule(widths, f.h, f.top);
                lemma_clean_rule(widths, f.h, f.mid);
                lemma_clean_rule(widths, f.h, f.bot);
                lemma_clean_balanced(rule_of(widths, f.h, f.top));
                lemma_clean_balanced(rule_of(widths, f.h, f.mid));
                lemma_clean_balanced(rule_of(widths, f.h, f.bot));
                let top = opt_line(first.framed, rule_of(widths, f.h, f.top));
                let mid = opt_line(first.head, rule_of(widths, f.h, f.mid));
                let bot = opt_line(first.framed, rule_of(widths, f.h, f.bot));
                lemma_all_balanced_add(top, seq![body[0]]);
                lemma_all_balanced_add(top + seq![body[0]], mid);
                lemma_all_balanced_add(top + seq![body[0]] + mid, body.skip(1));
                lemma_all_balanced_add(top + seq![body[0]] + mid + body.skip(1), bot);
            },
            Sep::Spaced => {
                lemma_clean_bars(widths);
                lemma_clean_balanced(bars_of(widths));
                let bars = opt_line(first.head, bars_of(widths));
                lemma_all_balanced_add(seq![body[0]], bars);
                lemma_all_balanced_add(seq![body[0]] + bars, body.skip(1));
            },
        }
        lemma_balanced_join(lines, nl);
    }
}

/// A bidi-safe copy closes every isolate it opens, in order, for each chunk (a line, or a
/// whole table) and for the copy as a whole: pasted anywhere, it cannot leak a direction
/// into the text around it. This holds for every document whose texts carry no isolate
/// controls of their own.
pub proof fn law_bidi_safe_isolates_are_balanced(d: DocV)
    requires
        forall|k: int| 0 <= k < chunks_of(d.lines).len() ==> chunk_texts_clean(#[trigger] chunks_of(d.lines)[k]),
    ensures
        balanced(render_of(d, CopyMode::BidiSafe)),
        forall|k: int|
            0 <= k < chunks_of(d.lines).len() ==> balanced(
                #[trigger] chunk_text(chunks_of(d.lines)[k], CopyMode::BidiSafe, box_width(d.lines, false)),
            ),
{
    let cs = chunks_of(d.lines);
    let target = box_width(d.lines, false);
    let ps = cs.map_values(|c: ChunkV| chunk_text(c, CopyMode::BidiSafe, target));
    assert forall|k: int| 0 <= k < cs.len() implies balanced(#[trigger] chunk_text(cs[k], CopyMode::BidiSafe, target)) by {
        assert(chunk_texts_clean(cs[k]));
        match cs[k] {
            ChunkV::Line(l) => lemma_balanced_line(l, target),
            ChunkV::Table(rows) => lemma_balanced_table(rows),
        }
    }
    assert forall|k: int| 0 <= k < ps.len() implies balanced(#[trigger] ps[k]) by {
        assert(ps[k] == chunk_text(cs[k], CopyMode::BidiSafe, target));
    }
    lemma_clean_balanced(seq!['\n']);
    lemma_balanced_join(ps, seq!['\n']);
}

proof fn lemma_box_width_max(lines: Seq<LineV>, backtick: bool)
    ensures
        forall|k: int|
            0 <= k < lines.len() && (#[trigger] lines[k]).boxed ==> display_width(head_of(lines[k], backtick))
                <= box_width(lines, backtick),
    decreases lines.len(),
{
    if lines.len() > 0 {
        lemma_box_width_max(lines.drop_last(), backtick);
        assert forall|k: int|
            0 <= k < lines.len() && (#[trigger] lines[k]).boxed implies display_width(head_of(lines[k], backtick))
                <= box_width(lines, backtick) by {
            if k < lines.len() - 1 {
                assert(lines[k] == lines.drop_last()[k]);
            }
        }
    }
}

/// A rebuilt box is square: every boxed row is padded so that the measured width of what
/// precedes its right-hand frame, plus the padding, is the width of the widest such row
/// plus the one space before the frame.
pub proof fn law_boxed_rows_pad_to_the_widest(lines: Seq<LineV>, backtick: bool, k: int)
    requires
        0 <= k < lines.len(),
        lines[k].boxed,
    ensures
        display_width(head_of(lines[k], backtick)) + box_pad(lines[k], box_width(lines, backtick), backtick).len()
            == box_width(lines, backtick) + 1,
{
    lemma_box_width_max(lines, backtick);
}

proof fn lemma_col_width_max(rows: Seq<TableRowV>, c: int, backtick: bool)
    ensures
        forall|m: int|
            0 <= m < rows.len() && 0 <= c < (#[trigger] rows[m]).cells.len() ==> cell_width(rows[m].cells[c], backtick)
                <= col_width(rows, c, backtick),
    decreases rows.len(),
{
    if rows.len() > 0 {
        lemma_col_width_max(rows.drop_last(), c, backtick);
        assert forall|m: int|
            0 <= m < rows.len() && 0 <= c < (#[trigger] rows[m]).cells.len() implies cell_width(rows[m].cells[c], backtick)
                <= col_width(rows, c, backtick) by {
            if m < rows.len() - 1 {
                assert(rows[m] == rows.drop_last()[m]);
            }
        }
    }
}

/// A rebuilt table is square: every cell is padded so that its measured width plus the
/// padding is the width of its column; that width is the measured width of the column's
/// widest cell (or zero); a row short of cells is filled out with blanks of the column's
/// width.
pub proof fn law_table_cells_pad_to_their_column(rows: Seq<TableRowV>, backtick: bool, m: int, c: int)
    requires
        0 <= m < rows.len(),
        0 <= c < widths_of(rows, backtick).len(),
    ensures
        c < rows[m].cells.len() ==> cell_width(rows[m].cells[c], backtick) <= widths_of(rows, backtick)[c]
            && cell_width(rows[m].cells[c], backtick) + sat(widths_of(rows, backtick)[c], cell_width(rows[m].cells[c], backtick))
            == widths_of(rows, backtick)[c],
        c >= rows[m].cells.len() ==> padded_cell(rows[m], widths_of(rows, backtick), c, backtick, false).len()
            == widths_of(rows, backtick)[c],
        widths_of(rows, backtick)[c] == 0 || exists|j: int|
            0 <= j < rows.len() && c < rows[j].cells.len() && cell_width(#[trigger] rows[j].cells[c], backtick)
                == widths_of(rows, backtick)[c],
{
    lemma_col_width_max(rows, c, backtick);
    lemma_col_width_reached(rows, c, backtick);
}

proof fn lemma_col_width_reached(rows: Seq<TableRowV>, c: int, backtick: bool)
    ensures
        col_width(rows, c, backtick) == 0 || exists|j: int|
            0 <= j < rows.len() && c < rows[j].cells.len() && 0 <= c && cell_width(rows[j].cells[c], backtick) == col_width(
                rows,
                c,
                backtick,
            ),
    decreases rows.len(),
{
    if rows.len() > 0 {
        lemma_col_width_reached(rows.drop_last(), c, backtick);
        let w = col_width(rows, c, backtick);
        if w != 0 && w == col_width(rows.drop_last(), c, backtick) {
            let j = choose|j: int|
                0 <= j < rows.drop_last().len() && c < rows.drop_last()[j].cells.len() && 0 <= c && cell_width(
                    rows.drop_last()[j].cells[c],
                    backtick,
                ) == col_width(rows.drop_last(), c, backtick);
            assert(rows[j] == rows.drop_last()[j]);
        } else if w != 0 {
            assert(rows[rows.len() - 1] == rows.last());
        }
    }
}


/// The columns slot `c` of a copied row takes inside its frame: a cell takes its text's
/// measured width plus its padding, a missing cell its blanks.
pub open spec fn slot_width(row: TableRowV, widths: Seq<usize>, c: int) -> int {
    if c < row.cells.len() {
        cell_width(row.cells[c], false) + sat(widths[c], cell_width(row.cells[c], false))
    } else {
        repeat(' ', widths[c] as nat).len() as int
    }
}

/// A line of a copied framed table: one of its three rules, or a row in its frame.
pub open spec fn line_of_framed_table(rows: Seq<TableRowV>, f: Frame, line: Seq<char>) -> bool {
    let w = widths_of(rows, false);
    ||| line == rule_of(w, f.h, f.top)
    ||| line == rule_of(w, f.h, f.mid)
    ||| line == rule_of(w, f.h, f.bot)
    ||| exists|i: int| 0 <= i < rows.len() && line == framed_row(#[trigger] padded_of(rows[i], w, false, false), f.v)
}

/// A copied framed table comes back square: it opens with its top rule and closes with its
/// bottom rule (`┌` and `┘` for a table divided by `│`); every line in between is a rule or
/// a row in its frame; a rule gives column `c` exactly `w[c] + 2` rule characters, and a row
/// gives it one space, the cell padded to `w[c]` columns, and one space, so every column
/// edge lands in the same place on every line.
pub proof fn law_copied_framed_table_is_square(rows: Seq<TableRowV>, d: char)
    requires
        rows.len() > 0,
        rows[0].sep == Sep::Delimited(d),
        rows[0].framed,
        widths_of(rows, false).len() > 0,
    ensures
        ({
            let w = widths_of(rows, false);
            let f = frame_of(d);
            let lines = table_lines(rows, CopyMode::Plain);
            &&& lines.len() >= 3
            &&& lines[0] == rule_of(w, f.h, f.top)
            &&& lines.last() == rule_of(w, f.h, f.bot)
            &&& d == '│' ==> lines[0][0] == '┌' && lines.last().last() == '┘'
            &&& forall|k: int| 0 <= k < lines.len() ==> line_of_framed_table(rows, f, #[trigger] lines[k])
            &&& forall|c: int| 0 <= c < w.len() ==> (#[trigger] rule_span(f.h, w[c])).len() == w[c] + 2
            &&& forall|i: int, c: int|
                0 <= i < rows.len() && 0 <= c < w.len() ==> #[trigger] slot_width(rows[i], w, c) == w[c]
        }),
{
    let w = widths_of(rows, false);
    let f = frame_of(d);
    let lines = table_lines(rows, CopyMode::Plain);
    let first = rows[0];
    let body = Seq::new(rows.len(), |i: int| row_text(rows[i], w, CopyMode::Plain, first.sep));
    let rest = body.skip(1);
    let top = opt_line(true, rule_of(w, f.h, f.top));
    let mid = opt_line(first.head, rule_of(w, f.h, f.mid));
    let bot = opt_line(true, rule_of(w, f.h, f.bot));
    assert(lines == top + seq![body[0]] + mid + rest + bot);
    assert(lines[0] == rule_of(w, f.h, f.top));
    assert(lines.last() == rule_of(w, f.h, f.bot));
    assert forall|i: int| 0 <= i < rows.len() implies line_of_framed_table(rows, f, #[trigger] body[i]) by {
        assert(body[i] == framed_row(padded_of(rows[i], w, false, false), f.v));
    }
    assert forall|k: int| 0 <= k < lines.len() implies line_of_framed_table(rows, f, #[trigger] lines[k]) by {
        let n0 = 1 + mid.len();
        if k == 0 {
        } else if k == 1 {
            assert(lines[k] == body[0]);
        } else if k < 1 + n0 {
            assert(lines[k] == mid[0]);
        } else if k < 1 + n0 + rest.len() {
            assert(lines[k] == rest[k - 1 - n0]);
            assert(rest[k - 1 - n0] == body[k - n0]);
        } else {
            assert(lines[k] == bot[0]);
        }
    }
    assert forall|i: int, c: int| 0 <= i < rows.len() && 0 <= c < w.len() implies #[trigger] slot_width(rows[i], w, c)
        == w[c] by {
        law_table_cells_pad_to_their_column(rows, false, i, c);
    }
    if d == '│' {
        assert(rule_of(w, f.h, f.top)[0] == '┌');
        let b = rule_of(w, f.h, f.bot);
        assert(b.last() == '┘');
    }
}

} // verus!
