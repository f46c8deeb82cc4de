//! Wire types shared between the engine and whatever renders it.
//!
//! Each type has a mathematical view (`@`) in which every `String` is the sequence of its
//! characters; the contracts of the pipeline are stated over these views.

use vstd::prelude::*;
use crate::text::{all_whitespace, all_ws, chars_of};

verus! {

/// Resolved base direction of a single line.
#[derive(Debug, Clone, Copy, PartialEq, Eq, Structural)]
pub enum Dir {
    Ltr,
    Rtl,
}

/// The value of the HTML `dir` attribute for a direction.
pub open spec fn dir_attr(d: Dir) -> Seq<char> {
    match d {
        Dir::Ltr => seq!['l', 't', 'r'],
        Dir::Rtl => seq!['r', 't', 'l'],
    }
}

impl Dir {
    /// Value for the HTML `dir` attribute.
    pub fn as_attr(self) -> (r: &'static str)
        ensures
            r@ == dir_attr(self),
    {
        match self {
            Dir::Ltr => {
                proof {
                    reveal_strlit("ltr");
                }
                "ltr"
            },
            Dir::Rtl => {
                proof {
                    reveal_strlit("rtl");
                }
                "rtl"
            },
        }
    }
}

/// A run of line content. `Code` runs are rendered LTR-isolated in a monospace face;
/// `Text` runs inherit the line's base direction.
#[derive(Debug, Clone, PartialEq, Eq)]
pub enum Segment {
    Text(String),
    Code(String),
}

/// The view of a [`Segment`].
pub enum SegmentV {
    Text(Seq<char>),
    Code(Seq<char>),
}

impl SegmentV {
    pub open spec fn text(self) -> Seq<char> {
        match self {
            SegmentV::Text(t) => t,
            SegmentV::Code(t) => t,
        }
    }

    pub open spec fn is_code(self) -> bool {
        self is Code
    }
}

impl View for Segment {
    type V = SegmentV;

    open spec fn view(&self) -> SegmentV {
        match self {
            Segment::Text(t) => SegmentV::Text(t@),
            Segment::Code(t) => SegmentV::Code(t@),
        }
    }
}

/// The views of a sequence of segments.
pub open spec fn segs_view(v: Seq<Segment>) -> Seq<SegmentV> {
    v.map_values(|s: Segment| s@)
}

/// The text of a run of segments, concatenated.
pub open spec fn segs_text(v: Seq<SegmentV>) -> Seq<char>
    decreases v.len(),
{
    if v.len() == 0 {
        Seq::empty()
    } else {
        segs_text(v.drop_last()) + v.last().text()
    }
}

/// Append a string's characters to a `String`.
pub fn append_str(dst: &mut String, s: &String)
    ensures
        final(dst)@ == old(dst)@ + s@,
{
    dst.append(s.as_str());
}

/// The concatenated text of a run of segments.
pub fn segments_text(segs: &Vec<Segment>) -> (r: String)
    ensures
        r@ == segs_text(segs_view(segs@)),
{
    let ghost sv = segs_view(segs@);
    let mut out = String::new();
    let mut i: usize = 0;
    while i < segs.len()
        invariant
            i <= segs@.len(),
            sv == segs_view(segs@),
            out@ == segs_text(sv.take(i as int)),
        decreases segs@.len() - i,
    {
        proof {
            assert(sv.take(i + 1).drop_last() =~= sv.take(i as int));
        }
        append_str(&mut out, segs[i].text_string());
        i += 1;
    }
    assert(sv.take(segs@.len() as int) =~= sv);
    out
}

impl Segment {
    pub fn text(&self) -> (r: &str)
        ensures
            r@ == self@.text(),
    {
        match self {
            Segment::Text(s) => s.as_str(),
            Segment::Code(s) => s.as_str(),
        }
    }

    /// The segment's text as the `String` it holds.
    pub fn text_string(&self) -> (r: &String)
        ensures
            r@ == self@.text(),
    {
        match self {
            Segment::Text(s) => s,
            Segment::Code(s) => s,
        }
    }

    pub fn is_empty(&self) -> (r: bool)
        ensures
            r == (self@.text().len() == 0),
    {
        self.text().is_empty()
    }
}

/// How a table's columns were divided in the capture, so a copy can put them back the
/// same way rather than imposing one house style on everything.
#[derive(Debug, Clone, Copy, PartialEq, Eq, Structural)]
pub enum Sep {
    /// A vertical rule stood between the cells, e.g. `│ a │ b │`.
    Delimited(char),
    /// The cells were held apart by blank columns.
    Spaced,
}

/// One cell of a table row, with its own direction and the direction of its column.
#[derive(Debug, Clone, PartialEq, Eq)]
pub struct Cell {
    /// The cell's own direction, resolved from its own letters.
    pub dir: Dir,
    /// The direction of the column the cell sits in, which decides its alignment edge.
    pub align: Dir,
    pub segments: Vec<Segment>,
}

pub struct CellV {
    pub dir: Dir,
    pub align: Dir,
    pub segments: Seq<SegmentV>,
}

impl View for Cell {
    type V = CellV;

    open spec fn view(&self) -> CellV {
        CellV { dir: self.dir, align: self.align, segments: segs_view(self.segments@) }
    }
}

impl Cell {
    pub fn text(&self) -> (r: String)
        ensures
            r@ == segs_text(self@.segments),
    {
        segments_text(&self.segments)
    }
}

/// The table membership of a [`Line`]; table-wide facts are repeated on every row.
#[derive(Debug, Clone, PartialEq, Eq)]
pub struct TableRow {
    pub id: u32,
    pub columns: usize,
    /// Reading direction of the table as a whole, which is the order its columns run in.
    pub dir: Dir,
    /// True for the header row above the first rule.
    pub head: bool,
    /// True when the source drew an outer frame around the table.
    pub framed: bool,
    pub sep: Sep,
    pub cells: Vec<Cell>,
}

pub struct TableRowV {
    pub id: u32,
    pub columns: usize,
    pub dir: Dir,
    pub head: bool,
    pub framed: bool,
    pub sep: Sep,
    pub cells: Seq<CellV>,
}

impl View for TableRow {
    type V = TableRowV;

    open spec fn view(&self) -> TableRowV {
        TableRowV {
            id: self.id,
            columns: self.columns,
            dir: self.dir,
            head: self.head,
            framed: self.framed,
            sep: self.sep,
            cells: self.cells@.map_values(|c: Cell| c@),
        }
    }
}

/// One source line, split into a structural gutter and directional content.
#[derive(Debug, Clone, PartialEq, Eq)]
pub struct Line {
    pub lead: String,
    pub tail: String,
    /// True when the line has non-blank structure on both sides, i.e. a boxed row.
    pub boxed: bool,
    /// True when the line sits inside a fenced code block.
    pub code: bool,
    pub dir: Dir,
    pub segments: Vec<Segment>,
    /// Set when the line is a row of a recovered table.
    pub table: Option<TableRow>,
}

pub struct LineV {
    pub lead: Seq<char>,
    pub tail: Seq<char>,
    pub boxed: bool,
    pub code: bool,
    pub dir: Dir,
    pub segments: Seq<SegmentV>,
    pub table: Option<TableRowV>,
}

pub open spec fn opt_row_view(t: Option<TableRow>) -> Option<TableRowV> {
    match t {
        Some(r) => Some(r@),
        None => None,
    }
}

impl View for Line {
    type V = LineV;

    open spec fn view(&self) -> LineV {
        LineV {
            lead: self.lead@,
            tail: self.tail@,
            boxed: self.boxed,
            code: self.code,
            dir: self.dir,
            segments: segs_view(self.segments@),
            table: opt_row_view(self.table),
        }
    }
}

/// Every segment, the lead and the tail hold only whitespace.
pub open spec fn line_blank(l: LineV) -> bool {
    &&& forall|k: int| 0 <= k < l.segments.len() ==> all_ws(#[trigger] l.segments[k].text())
    &&& all_ws(l.lead)
    &&& all_ws(l.tail)
}

impl Line {
    /// The line's content with structure stripped, as plain text.
    pub fn content(&self) -> (r: String)
        ensures
            r@ == segs_text(self@.segments),
    {
        segments_text(&self.segments)
    }

    pub fn is_blank(&self) -> (r: bool)
        ensures
            r == line_blank(self@),
    {
        let mut i: usize = 0;
        while i < self.segments.len()
            invariant
                i <= self.segments@.len(),
                forall|k: int| 0 <= k < i ==> all_ws(#[trigger] self@.segments[k].text()),
            decreases self.segments@.len() - i,
        {
            let t = chars_of(self.segments[i].text());
            assert(self@.segments[i as int] == self.segments@[i as int]@);
            if !all_whitespace(&t) {
                return false;
            }
            i += 1;
        }
        let lead = chars_of(self.lead.as_str());
        let tail = chars_of(self.tail.as_str());
        all_whitespace(&lead) && all_whitespace(&tail)
    }
}

/// A document as the pieces a consumer has to handle as a unit.
#[derive(Debug, Clone, PartialEq, Eq)]
pub enum Chunk<'a> {
    Line(&'a Line),
    Table(Vec<&'a TableRow>),
}

/// Where the captured text came from, so the HUD can be honest about it.
#[derive(Debug, Clone, Copy, PartialEq, Eq, Structural)]
pub enum CaptureSource {
    /// A fresh selection, captured via synthetic copy or primary selection.
    Selection,
    /// The clipboard did not change; showing whatever was already on it.
    ClipboardFallback,
    /// Nothing usable to show.
    Empty,
}

/// A fully analysed document, ready to render.
#[derive(Debug, Clone, PartialEq, Eq)]
pub struct Doc {
    pub lines: Vec<Line>,
    pub source: CaptureSource,
    /// Set when the input was detected as a unified diff; every line stays LTR.
    pub diff_mode: bool,
}

pub struct DocV {
    pub lines: Seq<LineV>,
    pub source: CaptureSource,
    pub diff_mode: bool,
}

pub open spec fn lines_view(v: Seq<Line>) -> Seq<LineV> {
    v.map_values(|l: Line| l@)
}

impl View for Doc {
    type V = DocV;

    open spec fn view(&self) -> DocV {
        DocV { lines: lines_view(self.lines@), source: self.source, diff_mode: self.diff_mode }
    }
}

/// Engine toggles, surfaced in the HUD and persisted in settings.
#[derive(Debug, Clone, Copy, PartialEq, Eq, Structural)]
pub struct Options {
    /// Fold Arabic letterforms onto their Persian equivalents.
    pub normalize_persian: bool,
    /// Rejoin lines the terminal hard-wrapped mid-sentence.
    pub soft_unwrap: bool,
    /// Drop the backticks around an inline code span.
    pub strip_backticks: bool,
    pub tab_width: usize,
}

impl Default for Options {
    fn default() -> (r: Self)
        ensures
            r.normalize_persian,
            r.soft_unwrap,
            r.strip_backticks,
            r.tab_width == 4,
    {
        Self { normalize_persian: true, soft_unwrap: true, strip_backticks: true, tab_width: 4 }
    }
}


/// The view of a [`Chunk`].
pub enum ChunkV {
    Line(LineV),
    Table(Seq<TableRowV>),
}

impl<'a> View for Chunk<'a> {
    type V = ChunkV;

    open spec fn view(&self) -> ChunkV {
        match self {
            Chunk::Line(l) => ChunkV::Line(l@),
            Chunk::Table(rows) => ChunkV::Table(rows@.map_values(|r: &TableRow| r@)),
        }
    }
}

/// The end of the run of table rows with the given id that continues at `end`.
pub open spec fn run_end(lines: Seq<LineV>, id: u32, end: int) -> int
    decreases lines.len() - end,
{
    if 0 <= end < lines.len() && lines[end].table is Some && lines[end].table->0.id == id {
        run_end(lines, id, end + 1)
    } else {
        end
    }
}

/// The rows held by the lines `[a, b)`.
pub open spec fn rows_of(lines: Seq<LineV>, a: int, b: int) -> Seq<TableRowV> {
    lines.subrange(a, b).map_values(|l: LineV| l.table->0)
}

/// The chunks from line `i` on: a line that is not a table row is its own chunk; a table
/// row starts a chunk holding it and every consecutive row with the same id.
pub open spec fn chunks_from(lines: Seq<LineV>, i: int) -> Seq<ChunkV>
    decreases lines.len() - i,
{
    if i < 0 || i >= lines.len() {
        Seq::empty()
    } else {
        match lines[i].table {
            Some(first) => {
                let end = run_end(lines, first.id, i + 1);
                if end <= i || end > lines.len() {
                    Seq::empty()
                } else {
                    seq![ChunkV::Table(rows_of(lines, i, end))] + chunks_from(lines, end)
                }
            },
            None => seq![ChunkV::Line(lines[i])] + chunks_from(lines, i + 1),
        }
    }
}

pub open spec fn chunks_of(lines: Seq<LineV>) -> Seq<ChunkV> {
    chunks_from(lines, 0)
}

pub open spec fn chunks_view<'a>(v: Seq<Chunk<'a>>) -> Seq<ChunkV> {
    v.map_values(|c: Chunk<'a>| c@)
}

proof fn lemma_run_end(lines: Seq<LineV>, id: u32, end: int)
    requires
        0 <= end <= lines.len(),
    ensures
        end <= run_end(lines, id, end) <= lines.len(),
        forall|k: int| end <= k < run_end(lines, id, end) ==> (#[trigger] lines[k]).table is Some && lines[k].table->0.id == id,
        run_end(lines, id, end) < lines.len() ==> !(lines[run_end(lines, id, end)].table is Some && lines[run_end(lines, id, end)].table->0.id == id),
    decreases lines.len() - end,
{
    if end < lines.len() && lines[end].table is Some && lines[end].table->0.id == id {
        lemma_run_end(lines, id, end + 1);
    }
}

/// How many lines a chunk stands for.
pub open spec fn chunk_len(c: ChunkV) -> int {
    match c {
        ChunkV::Line(_) => 1,
        ChunkV::Table(rows) => rows.len() as int,
    }
}

/// How many lines a run of chunks stands for.
pub open spec fn chunks_len(cs: Seq<ChunkV>) -> int
    decreases cs.len(),
{
    if cs.len() == 0 {
        0
    } else {
        chunk_len(cs[0]) + chunks_len(cs.drop_first())
    }
}

/// A table chunk holds at least one row, and all its rows carry one id.
pub open spec fn one_table(c: ChunkV) -> bool {
    match c {
        ChunkV::Line(_) => true,
        ChunkV::Table(rows) => rows.len() > 0 && forall|j: int| 0 <= j < rows.len() ==> (#[trigger] rows[j]).id == rows[0].id,
    }
}

/// The id of a table chunk's rows.
pub open spec fn table_id(c: ChunkV) -> Option<u32> {
    match c {
        ChunkV::Table(rows) => if rows.len() > 0 {
            Some(rows[0].id)
        } else {
            None
        },
        ChunkV::Line(_) => None,
    }
}

/// Two neighbouring chunks are never rows of one table: each table chunk holds its whole
/// run of rows.
pub open spec fn runs_are_whole(cs: Seq<ChunkV>) -> bool {
    forall|k: int|
        0 <= k < cs.len() - 1 && (#[trigger] table_id(cs[k])) is Some && table_id(cs[k + 1]) is Some
            ==> table_id(cs[k]) != table_id(cs[k + 1])
}

proof fn lemma_first_chunk(lines: Seq<LineV>, j: int)
    requires
        0 <= j < lines.len(),
    ensures
        chunks_from(lines, j).len() > 0,
        table_id(chunks_from(lines, j)[0]) == match lines[j].table {
            Some(r) => Some(r.id),
            None => None,
        },
{
    match lines[j].table {
        Some(first) => {
            lemma_run_end(lines, first.id, j + 1);
        },
        None => {},
    }
}

proof fn lemma_chunks_from(lines: Seq<LineV>, i: int)
    requires
        0 <= i <= lines.len(),
    ensures
        chunks_len(chunks_from(lines, i)) == lines.len() - i,
        forall|k: int| 0 <= k < chunks_from(lines, i).len() ==> one_table(#[trigger] chunks_from(lines, i)[k]),
        runs_are_whole(chunks_from(lines, i)),
    decreases lines.len() - i,
{
    if i < lines.len() {
        let cs = chunks_from(lines, i);
        match lines[i].table {
            Some(first) => {
                let end = run_end(lines, first.id, i + 1);
                lemma_run_end(lines, first.id, i + 1);
                lemma_chunks_from(lines, end);
                let rest = chunks_from(lines, end);
                let c = ChunkV::Table(rows_of(lines, i, end));
                assert(cs == seq![c] + rest);
                assert(cs.drop_first() =~= rest);
                let rows = rows_of(lines, i, end);
                assert forall|j: int| 0 <= j < rows.len() implies (#[trigger] rows[j]).id == rows[0].id by {
                    if j > 0 {
                        assert(lines[i + j].table is Some);
                    }
                }
                assert forall|k: int| 0 <= k < cs.len() implies one_table(#[trigger] cs[k]) by {
                    if k > 0 {
                        assert(cs[k] == rest[k - 1]);
                    }
                }
                if end < lines.len() {
                    lemma_first_chunk(lines, end);
                }
                assert forall|k: int|
                    0 <= k < cs.len() - 1 && (#[trigger] table_id(cs[k])) is Some && table_id(cs[k + 1]) is Some
                    implies table_id(cs[k]) != table_id(cs[k + 1]) by {
                    assert(cs[k + 1] == rest[k]);
                    if k > 0 {
                        assert(cs[k] == rest[k - 1]);
                    }
                }
            },
            None => {
                lemma_chunks_from(lines, i + 1);
                let rest = chunks_from(lines, i + 1);
                let c = ChunkV::Line(lines[i]);
                assert(cs == seq![c] + rest);
                assert(cs.drop_first() =~= rest);
                assert forall|k: int| 0 <= k < cs.len() implies one_table(#[trigger] cs[k]) by {
                    if k > 0 {
                        assert(cs[k] == rest[k - 1]);
                    }
                }
                assert forall|k: int|
                    0 <= k < cs.len() - 1 && (#[trigger] table_id(cs[k])) is Some && table_id(cs[k + 1]) is Some
                    implies table_id(cs[k]) != table_id(cs[k + 1]) by {
                    assert(cs[k + 1] == rest[k]);
                    if k > 0 {
                        assert(cs[k] == rest[k - 1]);
                    }
                }
            },
        }
    }
}

/// Walking a document into chunks loses no line and adds none: the chunks stand for
/// exactly as many lines as the document has; every table chunk is a non-empty run of
/// rows that all carry the same table id; and a table chunk holds its whole run, so no
/// two neighbouring chunks are rows of the same table.
pub proof fn law_chunks_partition_lines(lines: Seq<LineV>)
    ensures
        chunks_len(chunks_of(lines)) == lines.len(),
        forall|k: int| 0 <= k < chunks_of(lines).len() ==> one_table(#[trigger] chunks_of(lines)[k]),
        runs_are_whole(chunks_of(lines)),
{
    lemma_chunks_from(lines, 0);
}

/// The chunk stands for the lines from `at` on: a line chunk is the line itself, which is
/// no table row; a table chunk's rows are the table rows of consecutive lines.
pub open spec fn chunk_at(c: ChunkV, lines: Seq<LineV>, at: int) -> bool {
    match c {
        ChunkV::Line(l) => 0 <= at < lines.len() && l == lines[at] && lines[at].table is None,
        ChunkV::Table(rows) => forall|j: int|
            0 <= j < rows.len() ==> 0 <= at + j < lines.len() && lines[at + j].table == Some(#[trigger] rows[j]),
    }
}

proof fn lemma_chunks_at(lines: Seq<LineV>, i: int)
    requires
        0 <= i <= lines.len(),
    ensures
        forall|k: int|
            0 <= k < chunks_from(lines, i).len() ==> chunk_at(
                #[trigger] chunks_from(lines, i)[k],
                lines,
                i + chunks_len(chunks_from(lines, i).take(k)),
            ),
    decreases lines.len() - i,
{
    if i < lines.len() {
        let cs = chunks_from(lines, i);
        let (c, next) = match lines[i].table {
            Some(first) => {
                let end = run_end(lines, first.id, i + 1);
                lemma_run_end(lines, first.id, i + 1);
                (ChunkV::Table(rows_of(lines, i, end)), end)
            },
            None => (ChunkV::Line(lines[i]), i + 1),
        };
        lemma_chunks_at(lines, next);
        let rest = chunks_from(lines, next);
        assert(cs == seq![c] + rest);
        assert(chunk_len(c) == next - i);
        assert forall|k: int| 0 <= k < cs.len() implies chunk_at(#[trigger] cs[k], lines, i + chunks_len(cs.take(k))) by {
            if k == 0 {
                assert(cs.take(0) =~= Seq::<ChunkV>::empty());
                match c {
                    ChunkV::Table(rows) => {
                        assert forall|j: int| 0 <= j < rows.len() implies 0 <= i + j < lines.len() && lines[i + j].table == Some(#[trigger] rows[j]) by {
                            if j > 0 {
                                assert(lines[i + j].table is Some);
                            }
                        }
                    },
                    ChunkV::Line(_) => {},
                }
            } else {
                assert(cs[k] == rest[k - 1]);
                let t = cs.take(k);
                assert(t[0] == c);
                assert(t.drop_first() =~= rest.take(k - 1));
            }
        }
    }
}

/// Chunks follow the lines one for one: the `k`-th chunk begins at the line that the
/// chunks before it stand for, a line chunk is that very line (and no table row), and a
/// table chunk's rows are the table rows of the lines it covers, in order.
pub proof fn law_chunks_follow_the_lines(lines: Seq<LineV>)
    ensures
        forall|k: int|
            0 <= k < chunks_of(lines).len() ==> chunk_at(
                #[trigger] chunks_of(lines)[k],
                lines,
                chunks_len(chunks_of(lines).take(k)),
            ),
{
    lemma_chunks_at(lines, 0);
}

impl Doc {
    /// Walk the document, keeping each table's rows together.
    pub fn chunks(&self) -> (r: Vec<Chunk<'_>>)
        ensures
            chunks_view(r@) == chunks_of(self@.lines),
    {
        let ghost lv = self@.lines;
        let mut out: Vec<Chunk> = Vec::new();
        let mut i: usize = 0;
        let n = self.lines.len();
        while i < n
            invariant
                i <= n == self.lines@.len() == lv.len(),
                lv == self@.lines,
                chunks_view(out@) + chunks_from(lv, i as int) == chunks_of(lv),
            decreases n - i,
        {
            assert(lv[i as int] == self.lines@[i as int]@);
            match &self.lines[i].table {
                Some(first) => {
                    let mut rows: Vec<&TableRow> = Vec::new();
                    rows.push(first);
                    let mut end = i + 1;
                    let mut more = true;
                    while more && end < n
                        invariant
                            i < end <= n == self.lines@.len() == lv.len(),
                            lv == self@.lines,
                            run_end(lv, first.id, (i + 1) as int) == run_end(lv, first.id, end as int),
                            rows@.map_values(|r: &TableRow| r@) == rows_of(lv, i as int, end as int),
                            lv[i as int].table == Some(first@),
                            !more ==> run_end(lv, first.id, end as int) == end,
                        decreases n - end + (if more { 1int } else { 0int }),
                    {
                        assert(lv[end as int] == self.lines@[end as int]@);
                        let same = match &self.lines[end].table {
                            Some(next) => next.id == first.id,
                            None => false,
                        };
                        if same {
                            let next = self.lines[end].table.as_ref().unwrap();
                            let ghost before = rows@;
                            rows.push(next);
                            proof {
                                assert(rows@.map_values(|r: &TableRow| r@) =~= before.map_values(|r: &TableRow| r@).push(next@));
                                assert(rows_of(lv, i as int, end + 1) =~= rows_of(lv, i as int, end as int).push(next@));
                            }
                            end += 1;
                        } else {
                            more = false;
                        }
                    }
                    let ghost before = out@;
                    let c = Chunk::Table(rows);
                    out.push(c);
                    assert(chunks_view(out@) =~= chunks_view(before).push(c@));
                    assert(chunks_view(out@) + chunks_from(lv, end as int) =~= chunks_view(before) + chunks_from(lv, i as int));
                    i = end;
                },
                None => {
                    let ghost before = out@;
                    let c = Chunk::Line(&self.lines[i]);
                    out.push(c);
                    assert(chunks_view(out@) =~= chunks_view(before).push(c@));
                    assert(chunks_view(out@) + chunks_from(lv, i + 1) =~= chunks_view(before) + chunks_from(lv, i as int));
                    i += 1;
                },
            }
        }
        out
    }
}

} // verus!
