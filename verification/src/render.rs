//! Render a [`Doc`] to HTML.
//!
//! The HUD builds the same DOM in its own frontend; this exists so the engine can be
//! inspected visually offline, and so tests assert on real markup rather than on a debug
//! format that could drift from what users see.

use vstd::prelude::*;
use crate::model::{
    CellV, Chunk, ChunkV, Dir, Doc, DocV, Line, LineV, Segment, SegmentV, TableRow, TableRowV,
    chunks_of, chunks_view, dir_attr, line_blank, segs_view,
};
use crate::copyback::{rows_view, texts_view};
use crate::text::{chars_of, join, join_chars, push_all, starts, string_of};

verus! {

/// The layout rules the markup relies on: isolation of code runs and gutters, the grid of
/// a table, and the flip of an RTL line's gutter.
pub const LAYOUT_CSS: &'static str = ".rtl-doc { font-family: system-ui, sans-serif; line-height: 1.5; }
.rtl-line { display: flex; align-items: baseline; white-space: pre-wrap; }
.rtl-line--rtl { flex-direction: row-reverse; }
.rtl-line--blank { min-height: 1.5em; }
.rtl-line--code .rtl-content { font-family: ui-monospace, monospace; }
.rtl-gutter { flex: none; font-family: ui-monospace, monospace; white-space: pre; direction: ltr; unicode-bidi: isolate; }
.rtl-gutter--tail { margin-inline-start: auto; }
.rtl-content { flex: 1 1 auto; unicode-bidi: isolate; }
.rtl-code { font-family: ui-monospace, monospace; direction: ltr; unicode-bidi: isolate; }
.rtl-table { display: grid; grid-template-columns: repeat(var(--rtl-cols), auto); margin: 0.25em 0; }
.rtl-table--framed { border: 1px solid currentColor; }
.rtl-row { display: contents; }
.rtl-row--head .rtl-cell { font-weight: 600; }
.rtl-cell { padding: 0 0.5em; unicode-bidi: isolate; }
.rtl-cell--rtl { text-align: right; }
.rtl-cell--ltr { text-align: left; }";

/// Append the characters of a string.
fn push_str(dst: &mut Vec<char>, s: &str)
    ensures
        final(dst)@ == old(dst)@ + s@,
{
    let c = chars_of(s);
    push_all(dst, &c);
}

/// The string holds at least one character.
fn has_text(s: &String) -> (r: bool)
    ensures
        r == (s@.len() > 0),
{
    s.as_str().unicode_len() > 0
}

// ----------------------------------------------------------------------------- escape

/// One character as it stands in HTML text or in a quoted attribute.
pub open spec fn escape_char(c: char) -> Seq<char> {
    if c == '&' {
        "&amp;"@
    } else if c == '<' {
        "&lt;"@
    } else if c == '>' {
        "&gt;"@
    } else if c == '"' {
        "&quot;"@
    } else {
        seq![c]
    }
}

/// Text escaped for HTML.
pub open spec fn escape_of(s: Seq<char>) -> Seq<char>
    decreases s.len(),
{
    if s.len() == 0 {
        Seq::empty()
    } else {
        escape_of(s.drop_last()) + escape_char(s.last())
    }
}

/// The text holds none of the characters that open or close markup or an attribute.
pub open spec fn no_markup(t: Seq<char>) -> bool {
    forall|k: int| 0 <= k < t.len() ==> #[trigger] t[k] != '<' && t[k] != '>' && t[k] != '"'
}

/// Escaped text can neither open a tag nor end an attribute: whatever the input, the
/// escaped form holds no `<`, `>` or `"`.
pub proof fn law_escape_leaves_no_markup(s: Seq<char>)
    ensures
        no_markup(escape_of(s)),
    decreases s.len(),
{
    if s.len() > 0 {
        law_escape_leaves_no_markup(s.drop_last());
        reveal_strlit("&amp;");
        reveal_strlit("&lt;");
        reveal_strlit("&gt;");
        reveal_strlit("&quot;");
        let a = escape_of(s.drop_last());
        let b = escape_char(s.last());
        assert(no_markup(b));
        assert forall|k: int| 0 <= k < (a + b).len() implies #[trigger] (a + b)[k] != '<' && (a + b)[k] != '>' && (a + b)[k] != '"' by {
            if k < a.len() {
                assert((a + b)[k] == a[k]);
            } else {
                assert((a + b)[k] == b[k - a.len()]);
            }
        }
    }
}

// ------------------------------------------------------------------------ tag shape

/// The text at hand opens or closes one of the four tags a fragment is made of.
pub open spec fn opens_tag(s: Seq<char>) -> bool {
    starts(s, "<div "@) || starts(s, "<span "@) || starts(s, "</div>"@) || starts(s, "</span>"@)
}

/// Every `<` in the text opens or closes a `div` or a `span`.
pub open spec fn tags_ok(s: Seq<char>) -> bool {
    forall|k: int| 0 <= k < s.len() && s[k] == '<' ==> opens_tag(#[trigger] s.skip(k))
}

proof fn lemma_starts_extend(a: Seq<char>, b: Seq<char>, p: Seq<char>)
    requires
        starts(a, p),
    ensures
        starts(a + b, p),
{
    assert((a + b).take(p.len() as int) =~= a.take(p.len() as int));
}

proof fn lemma_ok_add(a: Seq<char>, b: Seq<char>)
    requires
        tags_ok(a),
        tags_ok(b),
    ensures
        tags_ok(a + b),
{
    assert forall|k: int| 0 <= k < (a + b).len() && (a + b)[k] == '<' implies opens_tag(#[trigger] (a + b).skip(k)) by {
        if k < a.len() {
            assert((a + b)[k] == a[k]);
            assert((a + b).skip(k) =~= a.skip(k) + b);
            if starts(a.skip(k), "<div "@) {
                lemma_starts_extend(a.skip(k), b, "<div "@);
            } else if starts(a.skip(k), "<span "@) {
                lemma_starts_extend(a.skip(k), b, "<span "@);
            } else if starts(a.skip(k), "</div>"@) {
                lemma_starts_extend(a.skip(k), b, "</div>"@);
            } else {
                lemma_starts_extend(a.skip(k), b, "</span>"@);
            }
        } else {
            assert((a + b)[k] == b[k - a.len()]);
            assert((a + b).skip(k) =~= b.skip(k - a.len()));
        }
    }
}

proof fn lemma_ok_plain(s: Seq<char>)
    requires
        forall|k: int| 0 <= k < s.len() ==> s[k] != '<',
    ensures
        tags_ok(s),
{
}

/// A tag literal: it starts with an opener `p` and holds no other `<`.
proof fn lemma_ok_tag(s: Seq<char>, p: Seq<char>)
    requires
        p == "<div "@ || p == "<span "@ || p == "</div>"@ || p == "</span>"@,
        p.len() <= s.len(),
        forall|i: int| 0 <= i < p.len() ==> s[i] == p[i],
        forall|k: int| 0 < k < s.len() ==> s[k] != '<',
    ensures
        tags_ok(s),
{
    assert(s.take(p.len() as int) =~= p);
    assert forall|k: int| 0 <= k < s.len() && s[k] == '<' implies opens_tag(#[trigger] s.skip(k)) by {
        assert(k == 0);
        assert(s.skip(0) =~= s);
    }
}

proof fn lemma_ok_literals()
    ensures
        tags_ok("<span class=\"rtl-code\" dir=\"ltr\">"@),
        tags_ok("</span>"@),
        tags_ok("</div>"@),
        tags_ok("<div class=\"rtl-cell rtl-cell--"@),
        tags_ok("\" dir=\""@),
        tags_ok("\">"@),
        tags_ok("<div class=\"rtl-row rtl-row--head\">"@),
        tags_ok("<div class=\"rtl-row\">"@),
        tags_ok("rtl-table"@),
        tags_ok(" rtl-table--framed"@),
        tags_ok("<div class=\""@),
        tags_ok("\" style=\"--rtl-cols:"@),
        tags_ok("rtl-line"@),
        tags_ok(" rtl-line--code"@),
        tags_ok(" rtl-line--blank"@),
        tags_ok(" rtl-line--rtl"@),
        tags_ok("<span class=\"rtl-gutter\">"@),
        tags_ok("<span class=\"rtl-content\" dir=\""@),
        tags_ok("<span class=\"rtl-gutter rtl-gutter--tail\">"@),
        tags_ok("<div class=\"rtl-doc\">"@),
        tags_ok(seq!['\n']),
        tags_ok(Seq::<char>::empty()),
{
    reveal_strlit("<div ");
    reveal_strlit("<span ");
    reveal_strlit("</div>");
    reveal_strlit("</span>");
    reveal_strlit("<span class=\"rtl-code\" dir=\"ltr\">");
    lemma_ok_tag("<span class=\"rtl-code\" dir=\"ltr\">"@, "<span "@);
    lemma_ok_tag("</span>"@, "</span>"@);
    lemma_ok_tag("</div>"@, "</div>"@);
    reveal_strlit("<div class=\"rtl-cell rtl-cell--");
    lemma_ok_tag("<div class=\"rtl-cell rtl-cell--"@, "<div "@);
    reveal_strlit("\" dir=\"");
    reveal_strlit("\">");
    reveal_strlit("<div class=\"rtl-row rtl-row--head\">");
    lemma_ok_tag("<div class=\"rtl-row rtl-row--head\">"@, "<div "@);
    reveal_strlit("<div class=\"rtl-row\">");
    lemma_ok_tag("<div class=\"rtl-row\">"@, "<div "@);
    reveal_strlit("rtl-table");
    reveal_strlit(" rtl-table--framed");
    reveal_strlit("<div class=\"");
    lemma_ok_tag("<div class=\""@, "<div "@);
    reveal_strlit("\" style=\"--rtl-cols:");
    reveal_strlit("rtl-line");
    reveal_strlit(" rtl-line--code");
    reveal_strlit(" rtl-line--blank");
    reveal_strlit(" rtl-line--rtl");
    reveal_strlit("<span class=\"rtl-gutter\">");
    lemma_ok_tag("<span class=\"rtl-gutter\">"@, "<span "@);
    reveal_strlit("<span class=\"rtl-content\" dir=\"");
    lemma_ok_tag("<span class=\"rtl-content\" dir=\""@, "<span "@);
    reveal_strlit("<span class=\"rtl-gutter rtl-gutter--tail\">");
    lemma_ok_tag("<span class=\"rtl-gutter rtl-gutter--tail\">"@, "<span "@);
    reveal_strlit("<div class=\"rtl-doc\">");
    lemma_ok_tag("<div class=\"rtl-doc\">"@, "<div "@);
}

fn escape(s: &[char]) -> (r: Vec<char>)
    ensures
        r@ == escape_of(s@),
{
    let mut out: Vec<char> = Vec::new();
    let mut i: usize = 0;
    while i < s.len()
        invariant
            i <= s@.len(),
            out@ == escape_of(s@.take(i as int)),
        decreases s@.len() - i,
    {
        proof {
            assert(s@.take(i + 1).drop_last() =~= s@.take(i as int));
        }
        let c = s[i];
        if c == '&' {
            push_str(&mut out, "&amp;");
        } else if c == '<' {
            push_str(&mut out, "&lt;");
        } else if c == '>' {
            push_str(&mut out, "&gt;");
        } else if c == '"' {
            push_str(&mut out, "&quot;");
        } else {
            out.push(c);
        }
        i += 1;
    }
    assert(s@.take(s@.len() as int) =~= s@);
    out
}

/// Escape a string.
fn escape_str(s: &str) -> (r: Vec<char>)
    ensures
        r@ == escape_of(s@),
{
    let c = chars_of(s);
    escape(&c)
}

// --------------------------------------------------------------------------- segments

/// One segment as HTML: text escaped, a code run in an LTR span of its own.
pub open spec fn segment_html(s: SegmentV) -> Seq<char> {
    match s {
        SegmentV::Text(t) => escape_of(t),
        SegmentV::Code(t) => "<span class=\"rtl-code\" dir=\"ltr\">"@ + escape_of(t) + "</span>"@,
    }
}

/// A run of segments as HTML.
pub open spec fn segments_html_of(segs: Seq<SegmentV>) -> Seq<char>
    decreases segs.len(),
{
    if segs.len() == 0 {
        Seq::empty()
    } else {
        segments_html_of(segs.drop_last()) + segment_html(segs.last())
    }
}

fn push_segments_html(dst: &mut Vec<char>, segments: &Vec<Segment>)
    ensures
        final(dst)@ == old(dst)@ + segments_html_of(segs_view(segments@)),
{
    let ghost sv = segs_view(segments@);
    let mut i: usize = 0;
    while i < segments.len()
        invariant
            i <= segments@.len() == sv.len(),
            sv == segs_view(segments@),
            dst@ == old(dst)@ + segments_html_of(sv.take(i as int)),
        decreases segments@.len() - i,
    {
        proof {
            assert(sv.take(i + 1).drop_last() =~= sv.take(i as int));
            assert(sv[i as int] == segments@[i as int]@);
        }
        let ghost before = dst@;
        match &segments[i] {
            Segment::Text(t) => {
                let e = escape_str(t.as_str());
                push_all(dst, &e);
            },
            Segment::Code(t) => {
                push_str(dst, "<span class=\"rtl-code\" dir=\"ltr\">");
                let e = escape_str(t.as_str());
                push_all(dst, &e);
                push_str(dst, "</span>");
            },
        }
        assert(dst@ =~= before + segment_html(sv[i as int]));
        i += 1;
    }
    assert(sv.take(segments@.len() as int) =~= sv);
}

// ----------------------------------------------------------------------------- number

/// The decimal digit for `d`.
pub open spec fn digit_of(d: nat) -> char {
    if d == 0 {
        '0'
    } else if d == 1 {
        '1'
    } else if d == 2 {
        '2'
    } else if d == 3 {
        '3'
    } else if d == 4 {
        '4'
    } else if d == 5 {
        '5'
    } else if d == 6 {
        '6'
    } else if d == 7 {
        '7'
    } else if d == 8 {
        '8'
    } else {
        '9'
    }
}

/// `n` written in decimal, as `Display` writes an unsigned integer.
pub open spec fn decimal(n: nat) -> Seq<char>
    decreases n,
{
    if n < 10 {
        seq![digit_of(n)]
    } else {
        decimal(n / 10) + seq![digit_of(n % 10)]
    }
}

fn digit_char(d: usize) -> (r: char)
    requires
        d < 10,
    ensures
        r == digit_of(d as nat),
{
    if d == 0 {
        '0'
    } else if d == 1 {
        '1'
    } else if d == 2 {
        '2'
    } else if d == 3 {
        '3'
    } else if d == 4 {
        '4'
    } else if d == 5 {
        '5'
    } else if d == 6 {
        '6'
    } else if d == 7 {
        '7'
    } else if d == 8 {
        '8'
    } else {
        '9'
    }
}

fn decimal_chars(n: usize) -> (r: Vec<char>)
    ensures
        r@ == decimal(n as nat),
    decreases n,
{
    if n < 10 {
        let mut v: Vec<char> = Vec::new();
        v.push(digit_char(n));
        assert(v@ =~= decimal(n as nat));
        v
    } else {
        let mut v = decimal_chars(n / 10);
        v.push(digit_char(n % 10));
        v
    }
}

// ----------------------------------------------------------------------------- tables

/// One cell of a table, aligned to its column's edge and directed by its own letters.
pub open spec fn cell_html(c: CellV) -> Seq<char> {
    "<div class=\"rtl-cell rtl-cell--"@ + dir_attr(c.align) + "\" dir=\""@ + dir_attr(c.dir) + "\">"@
        + segments_html_of(c.segments) + "</div>"@
}

/// The cells of a row, one after another.
pub open spec fn cells_html(cells: Seq<CellV>) -> Seq<char>
    decreases cells.len(),
{
    if cells.len() == 0 {
        Seq::empty()
    } else {
        cells_html(cells.drop_last()) + cell_html(cells.last())
    }
}

/// The opening tag of a row.
pub open spec fn row_open(head: bool) -> Seq<char> {
    if head {
        "<div class=\"rtl-row rtl-row--head\">"@
    } else {
        "<div class=\"rtl-row\">"@
    }
}

/// One row of a table.
pub open spec fn row_html(r: TableRowV) -> Seq<char> {
    row_open(r.head) + cells_html(r.cells) + "</div>"@
}

/// The rows of a table, one after another.
pub open spec fn rows_html(rows: Seq<TableRowV>) -> Seq<char>
    decreases rows.len(),
{
    if rows.len() == 0 {
        Seq::empty()
    } else {
        rows_html(rows.drop_last()) + row_html(rows.last())
    }
}

/// The classes of a table.
pub open spec fn table_classes(framed: bool) -> Seq<char> {
    if framed {
        "rtl-table"@ + " rtl-table--framed"@
    } else {
        "rtl-table"@
    }
}

/// A recovered table, as a grid in the direction of the table, with as many columns as it
/// has. The columns are sized by the browser rather than by the widths the terminal
/// painted: those widths were chosen for a monospace grid, and the HUD is proportional.
pub open spec fn table_html_of(rows: Seq<TableRowV>) -> Seq<char> {
    let first = rows[0];
    "<div class=\""@ + table_classes(first.framed) + "\" dir=\""@ + dir_attr(first.dir)
        + "\" style=\"--rtl-cols:"@ + decimal(first.columns as nat) + "\">"@ + rows_html(rows)
        + "</div>"@
}

fn push_cell_html(dst: &mut Vec<char>, cell: &crate::model::Cell)
    ensures
        final(dst)@ == old(dst)@ + cell_html(cell@),
{
    push_str(dst, "<div class=\"rtl-cell rtl-cell--");
    push_str(dst, cell.align.as_attr());
    push_str(dst, "\" dir=\"");
    push_str(dst, cell.dir.as_attr());
    push_str(dst, "\">");
    push_segments_html(dst, &cell.segments);
    push_str(dst, "</div>");
    assert(final(dst)@ =~= old(dst)@ + cell_html(cell@)) by {
        assert(dst@ =~= old(dst)@ + cell_html(cell@));
    }
}

fn push_row_html(dst: &mut Vec<char>, row: &TableRow)
    ensures
        final(dst)@ == old(dst)@ + row_html(row@),
{
    if row.head {
        push_str(dst, "<div class=\"rtl-row rtl-row--head\">");
    } else {
        push_str(dst, "<div class=\"rtl-row\">");
    }
    let ghost start = dst@;
    let ghost cv = row@.cells;
    let mut i: usize = 0;
    while i < row.cells.len()
        invariant
            i <= row.cells@.len() == cv.len(),
            cv == row@.cells,
            dst@ == start + cells_html(cv.take(i as int)),
        decreases row.cells@.len() - i,
    {
        proof {
            assert(cv.take(i + 1).drop_last() =~= cv.take(i as int));
            assert(cv[i as int] == row.cells@[i as int]@);
        }
        push_cell_html(dst, &row.cells[i]);
        i += 1;
    }
    assert(cv.take(row.cells@.len() as int) =~= cv);
    push_str(dst, "</div>");
    assert(dst@ =~= old(dst)@ + row_html(row@));
}

fn table_html(rows: &Vec<&TableRow>) -> (r: Vec<char>)
    requires
        rows@.len() > 0,
    ensures
        r@ == table_html_of(rows_view(rows@)),
{
    let ghost rv = rows_view(rows@);
    let first = rows[0];
    assert(rv[0] == first@);
    let mut html: Vec<char> = Vec::new();
    push_str(&mut html, "<div class=\"");
    push_str(&mut html, "rtl-table");
    if first.framed {
        push_str(&mut html, " rtl-table--framed");
    }
    push_str(&mut html, "\" dir=\"");
    push_str(&mut html, first.dir.as_attr());
    push_str(&mut html, "\" style=\"--rtl-cols:");
    let n = decimal_chars(first.columns);
    push_all(&mut html, &n);
    push_str(&mut html, "\">");
    let ghost start = html@;
    let mut i: usize = 0;
    while i < rows.len()
        invariant
            i <= rows@.len() == rv.len(),
            rv == rows_view(rows@),
            html@ == start + rows_html(rv.take(i as int)),
        decreases rows@.len() - i,
    {
        proof {
            assert(rv.take(i + 1).drop_last() =~= rv.take(i as int));
            assert(rv[i as int] == rows@[i as int]@);
        }
        push_row_html(&mut html, rows[i]);
        i += 1;
    }
    assert(rv.take(rows@.len() as int) =~= rv);
    push_str(&mut html, "</div>");
    assert(html@ =~= table_html_of(rv));
    html
}

// ------------------------------------------------------------------------------ lines

/// The classes of a line. A frame stays physical; a marker or indent follows the
/// reading direction.
pub open spec fn line_classes(l: LineV) -> Seq<char> {
    "rtl-line"@ + (if l.code {
        " rtl-line--code"@
    } else {
        Seq::empty()
    }) + (if line_blank(l) {
        " rtl-line--blank"@
    } else {
        Seq::empty()
    }) + (if !l.boxed && l.dir == Dir::Rtl && l.lead.len() > 0 {
        " rtl-line--rtl"@
    } else {
        Seq::empty()
    })
}

/// A line as HTML: the lead and the tail in gutters of their own, the content in a span
/// directed by the line.
pub open spec fn line_html_of(l: LineV) -> Seq<char> {
    "<div class=\""@ + line_classes(l) + "\">"@ + (if l.lead.len() > 0 {
        "<span class=\"rtl-gutter\">"@ + escape_of(l.lead) + "</span>"@
    } else {
        Seq::empty()
    }) + "<span class=\"rtl-content\" dir=\""@ + dir_attr(l.dir) + "\">"@ + segments_html_of(
        l.segments,
    ) + "</span>"@ + (if l.tail.len() > 0 {
        "<span class=\"rtl-gutter rtl-gutter--tail\">"@ + escape_of(l.tail) + "</span>"@
    } else {
        Seq::empty()
    }) + "</div>"@
}

fn push_line_classes(dst: &mut Vec<char>, line: &Line)
    ensures
        final(dst)@ == old(dst)@ + line_classes(line@),
{
    push_str(dst, "rtl-line");
    if line.code {
        push_str(dst, " rtl-line--code");
    }
    if line.is_blank() {
        push_str(dst, " rtl-line--blank");
    }
    if !line.boxed && line.dir == Dir::Rtl && has_text(&line.lead) {
        push_str(dst, " rtl-line--rtl");
    }
    assert(dst@ =~= old(dst)@ + line_classes(line@));
}

fn line_html(line: &Line) -> (r: Vec<char>)
    ensures
        r@ == line_html_of(line@),
{
    let mut html: Vec<char> = Vec::new();
    push_str(&mut html, "<div class=\"");
    push_line_classes(&mut html, line);
    push_str(&mut html, "\">");
    let ghost a = html@;
    if has_text(&line.lead) {
        push_str(&mut html, "<span class=\"rtl-gutter\">");
        let e = escape_str(line.lead.as_str());
        push_all(&mut html, &e);
        push_str(&mut html, "</span>");
    }
    let ghost b = html@;
    push_str(&mut html, "<span class=\"rtl-content\" dir=\"");
    push_str(&mut html, line.dir.as_attr());
    push_str(&mut html, "\">");
    push_segments_html(&mut html, &line.segments);
    push_str(&mut html, "</span>");
    let ghost c = html@;
    if has_text(&line.tail) {
        push_str(&mut html, "<span class=\"rtl-gutter rtl-gutter--tail\">");
        let e = escape_str(line.tail.as_str());
        push_all(&mut html, &e);
        push_str(&mut html, "</span>");
    }
    push_str(&mut html, "</div>");
    assert(html@ =~= line_html_of(line@));
    html
}

// -------------------------------------------------------------------------- documents

/// One chunk as HTML.
pub open spec fn chunk_html(c: ChunkV) -> Seq<char> {
    match c {
        ChunkV::Line(l) => line_html_of(l),
        ChunkV::Table(rows) => table_html_of(rows),
    }
}

/// The document body, without any wrapper chrome.
pub open spec fn fragment_of(d: DocV) -> Seq<char> {
    "<div class=\"rtl-doc\">"@ + join(chunks_of(d.lines).map_values(|c: ChunkV| chunk_html(c)), seq!['\n'])
        + "</div>"@
}

/// The document body, without any wrapper chrome.
pub fn fragment(doc: &Doc) -> (r: String)
    ensures
        r@ == fragment_of(doc@),
{
    let chunks = doc.chunks();
    let ghost cv = chunks_view(chunks@);
    proof {
        crate::model::law_chunks_partition_lines(doc@.lines);
    }
    let mut parts: Vec<Vec<char>> = Vec::new();
    let mut i: usize = 0;
    while i < chunks.len()
        invariant
            i <= chunks@.len() == cv.len(),
            cv == chunks_view(chunks@),
            cv == chunks_of(doc@.lines),
            forall|k: int| 0 <= k < cv.len() ==> crate::model::one_table(#[trigger] cv[k]),
            texts_view(parts@) =~= cv.take(i as int).map_values(|c: ChunkV| chunk_html(c)),
        decreases chunks@.len() - i,
    {
        assert(crate::model::one_table(cv[i as int]));
        let part = match &chunks[i] {
            Chunk::Line(line) => {
                assert(cv[i as int] == ChunkV::Line(line@));
                line_html(line)
            },
            Chunk::Table(rows) => {
                assert(cv[i as int] == ChunkV::Table(rows_view(rows@)));
                table_html(rows)
            },
        };
        let ghost before = parts@;
        parts.push(part);
        proof {
            assert(texts_view(parts@) =~= texts_view(before).push(part@));
            assert(cv.take(i + 1).map_values(|c: ChunkV| chunk_html(c)) =~= cv.take(i as int).map_values(
                |c: ChunkV| chunk_html(c),
            ).push(chunk_html(cv[i as int])));
        }
        i += 1;
    }
    assert(cv.take(chunks@.len() as int) =~= cv);
    let nl: Vec<char> = vec!['\n'];
    assert(nl@ =~= seq!['\n']);
    let body = join_chars(&parts, &nl);
    let mut html: Vec<char> = Vec::new();
    push_str(&mut html, "<div class=\"rtl-doc\">");
    push_all(&mut html, &body);
    push_str(&mut html, "</div>");
    assert(html@ =~= fragment_of(doc@));
    string_of(&html)
}

/// A self-contained page for offline inspection.
pub open spec fn standalone_of(d: DocV, title: Seq<char>) -> Seq<char> {
    "<!doctype html>\n<html><head><meta charset=\"utf-8\">\n<title>"@ + escape_of(title)
        + "</title>\n<style>\nbody { margin: 0; padding: 24px; background: #14161a; color: #e6e6e6; }\n"@
        + LAYOUT_CSS@ + "\n</style></head>\n<body>\n"@ + fragment_of(d) + "\n</body></html>\n"@
}

/// A self-contained page for offline inspection.
pub fn standalone(doc: &Doc, title: &str) -> (r: String)
    ensures
        r@ == standalone_of(doc@, title@),
{
    let mut html: Vec<char> = Vec::new();
    push_str(&mut html, "<!doctype html>\n<html><head><meta charset=\"utf-8\">\n<title>");
    let t = escape_str(title);
    push_all(&mut html, &t);
    push_str(
        &mut html,
        "</title>\n<style>\nbody { margin: 0; padding: 24px; background: #14161a; color: #e6e6e6; }\n",
    );
    push_str(&mut html, LAYOUT_CSS);
    push_str(&mut html, "\n</style></head>\n<body>\n");
    let f = fragment(doc);
    push_str(&mut html, f.as_str());
    push_str(&mut html, "\n</body></html>\n");
    assert(html@ =~= standalone_of(doc@, title@));
    string_of(&html)
}


proof fn lemma_ok_escape(s: Seq<char>)
    ensures
        tags_ok(escape_of(s)),
{
    law_escape_leaves_no_markup(s);
}

proof fn lemma_ok_dir(d: Dir)
    ensures
        tags_ok(dir_attr(d)),
{
}

proof fn lemma_ok_decimal(n: nat)
    ensures
        tags_ok(decimal(n)),
    decreases n,
{
    if n >= 10 {
        lemma_ok_decimal(n / 10);
        lemma_ok_add(decimal(n / 10), seq![digit_of(n % 10)]);
    }
}

proof fn lemma_ok_segments(segs: Seq<SegmentV>)
    ensures
        tags_ok(segments_html_of(segs)),
    decreases segs.len(),
{
    lemma_ok_literals();
    if segs.len() > 0 {
        lemma_ok_segments(segs.drop_last());
        match segs.last() {
            SegmentV::Text(t) => lemma_ok_escape(t),
            SegmentV::Code(t) => {
                lemma_ok_escape(t);
                lemma_ok_add("<span class=\"rtl-code\" dir=\"ltr\">"@, escape_of(t));
                lemma_ok_add("<span class=\"rtl-code\" dir=\"ltr\">"@ + escape_of(t), "</span>"@);
            },
        }
        lemma_ok_add(segments_html_of(segs.drop_last()), segment_html(segs.last()));
    }
}

proof fn lemma_ok_cells(cells: Seq<CellV>)
    ensures
        tags_ok(cells_html(cells)),
    decreases cells.len(),
{
    lemma_ok_literals();
    if cells.len() > 0 {
        lemma_ok_cells(cells.drop_last());
        let c = cells.last();
        lemma_ok_dir(c.align);
        lemma_ok_dir(c.dir);
        lemma_ok_segments(c.segments);
        let a = "<div class=\"rtl-cell rtl-cell--"@;
        lemma_ok_add(a, dir_attr(c.align));
        lemma_ok_add(a + dir_attr(c.align), "\" dir=\""@);
        lemma_ok_add(a + dir_attr(c.align) + "\" dir=\""@, dir_attr(c.dir));
        lemma_ok_add(a + dir_attr(c.align) + "\" dir=\""@ + dir_attr(c.dir), "\">"@);
        lemma_ok_add(a + dir_attr(c.align) + "\" dir=\""@ + dir_attr(c.dir) + "\">"@, segments_html_of(c.segments));
        lemma_ok_add(
            a + dir_attr(c.align) + "\" dir=\""@ + dir_attr(c.dir) + "\">"@ + segments_html_of(c.segments),
            "</div>"@,
        );
        lemma_ok_add(cells_html(cells.drop_last()), cell_html(c));
    }
}

proof fn lemma_ok_rows(rows: Seq<TableRowV>)
    ensures
        tags_ok(rows_html(rows)),
    decreases rows.len(),
{
    lemma_ok_literals();
    if rows.len() > 0 {
        lemma_ok_rows(rows.drop_last());
        let r = rows.last();
        lemma_ok_cells(r.cells);
        lemma_ok_add(row_open(r.head), cells_html(r.cells));
        lemma_ok_add(row_open(r.head) + cells_html(r.cells), "</div>"@);
        lemma_ok_add(rows_html(rows.drop_last()), row_html(r));
    }
}

proof fn lemma_ok_table(rows: Seq<TableRowV>)
    ensures
        tags_ok(table_html_of(rows)),
{
    lemma_ok_literals();
    let first = rows[0];
    lemma_ok_add("rtl-table"@, " rtl-table--framed"@);
    lemma_ok_dir(first.dir);
    lemma_ok_decimal(first.columns as nat);
    lemma_ok_rows(rows);
    let a = "<div class=\""@;
    let p1 = a + table_classes(first.framed);
    lemma_ok_add(a, table_classes(first.framed));
    lemma_ok_add(p1, "\" dir=\""@);
    lemma_ok_add(p1 + "\" dir=\""@, dir_attr(first.dir));
    let p2 = p1 + "\" dir=\""@ + dir_attr(first.dir);
    lemma_ok_add(p2, "\" style=\"--rtl-cols:"@);
    lemma_ok_add(p2 + "\" style=\"--rtl-cols:"@, decimal(first.columns as nat));
    let p3 = p2 + "\" style=\"--rtl-cols:"@ + decimal(first.columns as nat);
    lemma_ok_add(p3, "\">"@);
    lemma_ok_add(p3 + "\">"@, rows_html(rows));
    lemma_ok_add(p3 + "\">"@ + rows_html(rows), "</div>"@);
}

proof fn lemma_ok_line(l: LineV)
    ensures
        tags_ok(line_html_of(l)),
{
    lemma_ok_literals();
    let e = Seq::<char>::empty();
    let c1 = if l.code { " rtl-line--code"@ } else { e };
    let c2 = if line_blank(l) { " rtl-line--blank"@ } else { e };
    let c3 = if !l.boxed && l.dir == Dir::Rtl && l.lead.len() > 0 { " rtl-line--rtl"@ } else { e };
    lemma_ok_add("rtl-line"@, c1);
    lemma_ok_add("rtl-line"@ + c1, c2);
    lemma_ok_add("rtl-line"@ + c1 + c2, c3);
    let lead = if l.lead.len() > 0 {
        "<span class=\"rtl-gutter\">"@ + escape_of(l.lead) + "</span>"@
    } else {
        e
    };
    lemma_ok_escape(l.lead);
    lemma_ok_add("<span class=\"rtl-gutter\">"@, escape_of(l.lead));
    lemma_ok_add("<span class=\"rtl-gutter\">"@ + escape_of(l.lead), "</span>"@);
    let tail = if l.tail.len() > 0 {
        "<span class=\"rtl-gutter rtl-gutter--tail\">"@ + escape_of(l.tail) + "</span>"@
    } else {
        e
    };
    lemma_ok_escape(l.tail);
    lemma_ok_add("<span class=\"rtl-gutter rtl-gutter--tail\">"@, escape_of(l.tail));
    lemma_ok_add("<span class=\"rtl-gutter rtl-gutter--tail\">"@ + escape_of(l.tail), "</span>"@);
    lemma_ok_dir(l.dir);
    lemma_ok_segments(l.segments);
    let a = "<div class=\""@ + line_classes(l);
    lemma_ok_add("<div class=\""@, line_classes(l));
    lemma_ok_add(a, "\">"@);
    lemma_ok_add(a + "\">"@, lead);
    let b = a + "\">"@ + lead;
    lemma_ok_add(b, "<span class=\"rtl-content\" dir=\""@);
    lemma_ok_add(b + "<span class=\"rtl-content\" dir=\""@, dir_attr(l.dir));
    let c = b + "<span class=\"rtl-content\" dir=\""@ + dir_attr(l.dir);
    lemma_ok_add(c, "\">"@);
    lemma_ok_add(c + "\">"@, segments_html_of(l.segments));
    let d = c + "\">"@ + segments_html_of(l.segments);
    lemma_ok_add(d, "</span>"@);
    lemma_ok_add(d + "</span>"@, tail);
    lemma_ok_add(d + "</span>"@ + tail, "</div>"@);
}

proof fn lemma_ok_join(ps: Seq<Seq<char>>, sep: Seq<char>)
    requires
        forall|k: int| 0 <= k < ps.len() ==> tags_ok(#[trigger] ps[k]),
        tags_ok(sep),
    ensures
        tags_ok(join(ps, sep)),
    decreases ps.len(),
{
    if ps.len() == 1 {
        assert(tags_ok(ps[0]));
    } else if ps.len() > 1 {
        assert forall|k: int| 0 <= k < ps.drop_last().len() implies tags_ok(#[trigger] ps.drop_last()[k]) by {
            assert(ps.drop_last()[k] == ps[k]);
        }
        lemma_ok_join(ps.drop_last(), sep);
        lemma_ok_add(join(ps.drop_last(), sep), sep);
        assert(tags_ok(ps.last()));
        lemma_ok_add(join(ps.drop_last(), sep) + sep, ps.last());
    }
}

/// A fragment is made of `div` and `span` elements and escaped text only: every `<` in it
/// opens or closes a `div` or a `span`, whatever the document's text holds.
pub proof fn law_fragment_holds_only_its_own_tags(d: DocV)
    ensures
        tags_ok(fragment_of(d)),
{
    lemma_ok_literals();
    crate::model::law_chunks_partition_lines(d.lines);
    let cs = chunks_of(d.lines);
    let ps = cs.map_values(|c: ChunkV| chunk_html(c));
    assert forall|k: int| 0 <= k < ps.len() implies tags_ok(#[trigger] ps[k]) by {
        match cs[k] {
            ChunkV::Line(l) => lemma_ok_line(l),
            ChunkV::Table(rows) => lemma_ok_table(rows),
        }
    }
    lemma_ok_join(ps, seq!['\n']);
    lemma_ok_add("<div class=\"rtl-doc\">"@, join(ps, seq!['\n']));
    lemma_ok_add("<div class=\"rtl-doc\">"@ + join(ps, seq!['\n']), "</div>"@);
}

} // verus!
