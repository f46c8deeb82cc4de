//! RTLens text engine.
//!
//! Takes raw terminal output and produces a [`Doc`]: a per-line structure with the frame
//! separated from the content, a resolved base direction, and inline runs marked for LTR
//! isolation. The pipeline order matters: escape sequences go first, then orthography,
//! then structure, then direction, then tables, then paragraph unwrapping, and inline
//! segmentation last, on final content.
#![allow(unused_imports)]

use vstd::prelude::*;

pub mod bidi;
pub mod copyback;
pub mod model;
pub mod render;
pub mod sanitize;
pub mod shell;
pub mod table;
pub mod text;
pub mod width;

pub use copyback::CopyMode;
pub use model::{CaptureSource, Cell, Chunk, Dir, Doc, Line, Options, Segment, Sep, TableRow};

use bidi::{RawLine, RawLineV, RawRow, RawRowV, raw_lines_view};
use bidi::direction::{Context, doc_dir_of, resolve_of, resolve_chars, document_dir, strings_view};
use bidi::gutter::{Split, SplitV, split_of};
use bidi::segment::{prose_of, prose_only_chars, segment_of, segment_chars};
use model::{CellV, ChunkV, DocV, LineV, SegmentV, TableRowV, chunks_of};
use sanitize::ansi::{clean, clean_of};
use sanitize::normalize::{persian_chars, persian_of};
use sanitize::unwrap::{soft_unwrap, unwrap_of};
use table::{CandV, Candidate, RowV, TableV, detect, detect_of, split_welded_rule_chars, welded_of};
use text::{all_ws, all_whitespace, chars_of, join, lines, lines_of, push_all, split_chars, split_on, starts, starts_with_str, string_of, trim_start, trimmed_start};

verus! {

// ------------------------------------------------------------------ diff and fences

/// A unified diff: some line starts with `"diff --git "`, or there is both a hunk header
/// (`"@@ "`) and a file header (`"+++ "` or `"--- "`).
pub open spec fn diff_of(text: Seq<char>) -> bool {
    let ls = lines_of(text);
    (exists|k: int| 0 <= k < ls.len() && starts(#[trigger] ls[k], "diff --git "@)) || ((exists|k: int|
        0 <= k < ls.len() && starts(#[trigger] ls[k], "@@ "@)) && (exists|k: int|
        0 <= k < ls.len() && (starts(#[trigger] ls[k], "+++ "@) || starts(ls[k], "--- "@))))
}

/// Detect a unified diff. In diff mode every line stays LTR: the `+`/`-`/`@@` column is
/// load-bearing and a re-aligned diff is unreadable even when its prose is Persian.
fn is_diff(text: &[char]) -> (r: bool)
    ensures
        r == diff_of(text@),
{
    let ls = lines(text);
    let mut has_hunk = false;
    let mut has_file = false;
    let mut i: usize = 0;
    let ghost v = lines_of(text@);
    while i < ls.len()
        invariant
            i <= ls@.len() == v.len(),
            v == lines_of(text@),
            forall|k: int| 0 <= k < ls@.len() ==> (#[trigger] ls@[k])@ == v[k],
            forall|k: int| 0 <= k < i ==> !starts(#[trigger] v[k], "diff --git "@),
            has_hunk == exists|k: int| 0 <= k < i && starts(#[trigger] v[k], "@@ "@),
            has_file == exists|k: int| 0 <= k < i && (starts(#[trigger] v[k], "+++ "@) || starts(v[k], "--- "@)),
        decreases ls@.len() - i,
    {
        let line = &ls[i];
        if starts_with_str(line, "diff --git ") {
            return true;
        }
        let h = starts_with_str(line, "@@ ");
        let f = starts_with_str(line, "+++ ") || starts_with_str(line, "--- ");
        has_hunk = has_hunk || h;
        has_file = has_file || f;
        i += 1;
        proof {
            if has_hunk && !h {
                let k = choose|k: int| 0 <= k < i - 1 && starts(#[trigger] v[k], "@@ "@);
            }
        }
    }
    has_hunk && has_file
}

/// A fence delimiter: after leading whitespace, three backticks or three tildes.
pub open spec fn fence_of(content: Seq<char>) -> bool {
    let t = trim_start(content);
    starts(t, "```"@) || starts(t, "~~~"@)
}

fn is_fence(content: &[char]) -> (r: bool)
    ensures
        r == fence_of(content@),
{
    let t = trimmed_start(content);
    starts_with_str(&t, "```") || starts_with_str(&t, "~~~")
}

// ------------------------------------------------------------------ structure

/// Add one physical line to the split lines: `(splits, inside a fence)`.
pub open spec fn add_split(st: (Seq<(SplitV, bool)>, bool), line: Seq<char>) -> (Seq<(SplitV, bool)>, bool) {
    let sp = split_of(line);
    let fence = fence_of(sp.content);
    (st.0.push((sp, st.1 || fence)), if fence { !st.1 } else { st.1 })
}

/// Split every line into frame and content, tracking fenced code blocks, and first undo a
/// rule welded to the end of a header line.
pub open spec fn splits_fold(lines: Seq<Seq<char>>) -> (Seq<(SplitV, bool)>, bool)
    decreases lines.len(),
{
    if lines.len() == 0 {
        (Seq::empty(), false)
    } else {
        let st = splits_fold(lines.drop_last());
        match welded_of(lines.last()) {
            Some((a, b)) => add_split(add_split(st, a), b),
            None => add_split(st, lines.last()),
        }
    }
}

/// `trim_end_matches('\n')`.
pub open spec fn trim_newlines(s: Seq<char>) -> Seq<char>
    decreases s.len(),
{
    if s.len() > 0 && s.last() == '\n' {
        trim_newlines(s.drop_last())
    } else {
        s
    }
}

/// The text the pipeline structures: cleaned, optionally normalised, trailing newlines
/// dropped.
pub open spec fn prepared_of(input: Seq<char>, opts: Options) -> Seq<char> {
    let c1 = clean_of(input, opts.tab_width as int);
    let c2 = if opts.normalize_persian {
        persian_of(c1)
    } else {
        c1
    };
    trim_newlines(c2)
}

/// The prose of every line outside code, which decides the document's direction.
pub open spec fn prose_lines(splits: Seq<(SplitV, bool)>) -> Seq<Seq<char>>
    decreases splits.len(),
{
    if splits.len() == 0 {
        Seq::empty()
    } else if splits.last().1 {
        prose_lines(splits.drop_last())
    } else {
        prose_lines(splits.drop_last()).push(prose_of(splits.last().0.content))
    }
}

pub open spec fn raw_of(sp: SplitV, in_code: bool, diff: bool, doc_dir: Dir) -> RawLineV {
    RawLineV {
        dir: resolve_of(sp.content, Context { in_code, diff_mode: diff, doc_dir }),
        lead: sp.lead,
        content: sp.content,
        tail: sp.tail,
        boxed: sp.boxed,
        in_code,
        row: None,
    }
}

pub open spec fn raws_of(splits: Seq<(SplitV, bool)>, diff: bool, doc_dir: Dir) -> Seq<RawLineV> {
    splits.map_values(|p: (SplitV, bool)| raw_of(p.0, p.1, diff, doc_dir))
}

// ------------------------------------------------------------------ tables

/// The cells of column `c`, from the rows long enough to have one.
pub open spec fn column_of(rows: Seq<RowV>, c: int) -> Seq<Seq<char>>
    decreases rows.len(),
{
    if rows.len() == 0 {
        Seq::empty()
    } else if 0 <= c < rows.last().cells.len() {
        column_of(rows.drop_last(), c).push(rows.last().cells[c])
    } else {
        column_of(rows.drop_last(), c)
    }
}

/// Every cell of every row, row by row.
pub open spec fn every_cell(rows: Seq<RowV>) -> Seq<Seq<char>>
    decreases rows.len(),
{
    if rows.len() == 0 {
        Seq::empty()
    } else {
        every_cell(rows.drop_last()) + rows.last().cells
    }
}

/// The non-empty cells of a row.
pub open spec fn nonempty_of(cells: Seq<Seq<char>>) -> Seq<Seq<char>>
    decreases cells.len(),
{
    if cells.len() == 0 {
        Seq::empty()
    } else if cells.last().len() > 0 {
        nonempty_of(cells.drop_last()).push(cells.last())
    } else {
        nonempty_of(cells.drop_last())
    }
}

/// One logical table row as a pipeline line: its flattened text (non-empty cells, two
/// spaces apart) with its own direction, and the table facts on its `row`.
pub open spec fn table_raw_row(t: TableV, id: int, r: RowV, doc_dir: Dir) -> RawLineV {
    let content = join(nonempty_of(r.cells), seq![' ', ' ']);
    RawLineV {
        dir: resolve_of(content, Context { in_code: false, diff_mode: false, doc_dir }),
        lead: Seq::empty(),
        content,
        tail: Seq::empty(),
        boxed: false,
        in_code: false,
        row: Some(
            RawRowV {
                id: id as u32,
                columns: t.columns as usize,
                dir: doc_dir_of(every_cell(t.rows)),
                head: r.head,
                framed: t.framed,
                sep: t.sep,
                cells: r.cells,
                align: Seq::new(t.columns as nat, |c: int| doc_dir_of(column_of(t.rows, c))),
            },
        ),
    }
}

pub open spec fn table_raws(t: TableV, id: int, doc_dir: Dir) -> Seq<RawLineV> {
    t.rows.map_values(|r: RowV| table_raw_row(t, id, r, doc_dir))
}

/// The painted lines the detector sees: gutter plus content, blank when only whitespace.
pub open spec fn candidates_of(raws: Seq<RawLineV>) -> Seq<CandV> {
    raws.map_values(
        |r: RawLineV|
            CandV { text: r.lead + r.content, blank: all_ws(r.lead + r.content), code: r.in_code },
    )
}

/// Replace each detected table's lines: `(lines so far, next unconsumed index)`.
pub open spec fn tables_fold(raws: Seq<RawLineV>, tables: Seq<TableV>, doc_dir: Dir) -> (Seq<RawLineV>, int)
    decreases tables.len(),
{
    if tables.len() == 0 {
        (Seq::empty(), 0)
    } else {
        let (out, next) = tables_fold(raws, tables.drop_last(), doc_dir);
        let t = tables.last();
        (out + raws.subrange(next, t.start) + table_raws(t, tables.len() - 1, doc_dir), t.end)
    }
}

/// Each detected table's lines replaced by one line per logical row; everything outside
/// a table passes through untouched.
pub open spec fn fold_tables_of(raws: Seq<RawLineV>, doc_dir: Dir) -> Seq<RawLineV> {
    let tables = detect_of(candidates_of(raws));
    if tables.len() == 0 {
        raws
    } else {
        let (out, next) = tables_fold(raws, tables, doc_dir);
        out + raws.subrange(next, raws.len() as int)
    }
}

// ------------------------------------------------------------------ lines

pub open spec fn cell_of(text: Seq<char>, align: Dir, diff: bool, doc_dir: Dir, strip: bool) -> CellV {
    CellV {
        dir: resolve_of(text, Context { in_code: false, diff_mode: diff, doc_dir }),
        align,
        segments: segment_of(text, strip),
    }
}

pub open spec fn row_of(row: RawRowV, diff: bool, doc_dir: Dir, strip: bool) -> TableRowV {
    TableRowV {
        id: row.id,
        columns: row.columns,
        dir: row.dir,
        head: row.head,
        framed: row.framed,
        sep: row.sep,
        cells: Seq::new(
            if row.cells.len() < row.align.len() { row.cells.len() } else { row.align.len() },
            |k: int| cell_of(row.cells[k], row.align[k], diff, doc_dir, strip),
        ),
    }
}

/// A pipeline line made final: empty content has no segments, code and diff lines are one
/// code run, anything else is segmented; a table row's cells each get their own direction
/// and segments.
pub open spec fn line_of(r: RawLineV, diff: bool, doc_dir: Dir, strip: bool) -> LineV {
    LineV {
        lead: r.lead,
        tail: r.tail,
        boxed: r.boxed,
        code: r.in_code,
        dir: r.dir,
        segments: if r.content.len() == 0 {
            Seq::empty()
        } else if r.in_code || diff {
            seq![SegmentV::Code(r.content)]
        } else {
            segment_of(r.content, strip)
        },
        table: match r.row {
            Some(row) => Some(row_of(row, diff, doc_dir, strip)),
            None => None,
        },
    }
}

/// The whole pipeline: clean, normalise, split structure, resolve directions, recover
/// tables, unwrap paragraphs, segment.
pub open spec fn process_of(input: Seq<char>, opts: Options, source: CaptureSource) -> DocV {
    let text = prepared_of(input, opts);
    let diff = diff_of(text);
    let splits = splits_fold(split_on(text, '\n')).0;
    let doc_dir = doc_dir_of(prose_lines(splits));
    let raws = raws_of(splits, diff, doc_dir);
    let raws2 = if !diff {
        fold_tables_of(raws, doc_dir)
    } else {
        raws
    };
    let raws3 = if opts.soft_unwrap && !diff {
        unwrap_of(raws2)
    } else {
        raws2
    };
    DocV {
        lines: raws3.map_values(|r: RawLineV| line_of(r, diff, doc_dir, opts.strip_backticks)),
        source,
        diff_mode: diff,
    }
}


// ------------------------------------------------------------------ executable pipeline

fn painted_of(r: &RawLine) -> (s: String)
    ensures
        s@ == r@.lead + r@.content,
{
    let mut s = r.lead.clone();
    s.append(r.content.as_str());
    s
}

/// The texts of column `c`, from the rows long enough to have one.
fn column_texts(rows: &Vec<table::Row>, c: usize) -> (r: Vec<String>)
    ensures
        strings_view(r@) == column_of(rows@.map_values(|x: table::Row| x@), c as int),
{
    let ghost rv = rows@.map_values(|x: table::Row| x@);
    let mut out: Vec<String> = Vec::new();
    let mut j: usize = 0;
    while j < rows.len()
        invariant
            j <= rows@.len(),
            rv == rows@.map_values(|x: table::Row| x@),
            strings_view(out@) == column_of(rv.take(j as int), c as int),
        decreases rows@.len() - j,
    {
        assert(rv.take(j + 1).drop_last() =~= rv.take(j as int));
        assert(rv[j as int] == rows@[j as int]@);
        if c < rows[j].cells.len() {
            let t = rows[j].cells[c].clone();
            let ghost before = out@;
            out.push(t);
            assert(strings_view(out@) =~= strings_view(before).push(t@));
        }
        j += 1;
    }
    assert(rv.take(rows@.len() as int) =~= rv);
    out
}

fn all_cell_texts(rows: &Vec<table::Row>) -> (r: Vec<String>)
    ensures
        strings_view(r@) == every_cell(rows@.map_values(|x: table::Row| x@)),
{
    let ghost rv = rows@.map_values(|x: table::Row| x@);
    let mut out: Vec<String> = Vec::new();
    let mut j: usize = 0;
    while j < rows.len()
        invariant
            j <= rows@.len(),
            rv == rows@.map_values(|x: table::Row| x@),
            strings_view(out@) == every_cell(rv.take(j as int)),
        decreases rows@.len() - j,
    {
        assert(rv.take(j + 1).drop_last() =~= rv.take(j as int));
        assert(rv[j as int] == rows@[j as int]@);
        let cells = &rows[j].cells;
        let ghost base = strings_view(out@);
        let mut k: usize = 0;
        while k < cells.len()
            invariant
                k <= cells@.len(),
                strings_view(out@) == base + strings_view(cells@).take(k as int),
            decreases cells@.len() - k,
        {
            let t = cells[k].clone();
            let ghost before = out@;
            out.push(t);
            assert(strings_view(out@) =~= strings_view(before).push(t@));
            k += 1;
            assert(strings_view(cells@).take(k as int) =~= strings_view(cells@).take(k - 1).push(cells@[k - 1]@));
        }
        assert(strings_view(cells@).take(cells@.len() as int) =~= strings_view(cells@));
        j += 1;
    }
    assert(rv.take(rows@.len() as int) =~= rv);
    out
}

/// The row's non-empty cells joined two spaces apart.
fn flatten_row(cells: &Vec<String>) -> (r: Vec<char>)
    ensures
        r@ == join(nonempty_of(strings_view(cells@)), seq![' ', ' ']),
{
    let ghost cv = strings_view(cells@);
    let mut pieces: Vec<Vec<char>> = Vec::new();
    let mut k: usize = 0;
    while k < cells.len()
        invariant
            k <= cells@.len(),
            cv == strings_view(cells@),
            pieces@.map_values(|p: Vec<char>| p@) == nonempty_of(cv.take(k as int)),
        decreases cells@.len() - k,
    {
        assert(cv.take(k + 1).drop_last() =~= cv.take(k as int));
        assert(cv[k as int] == cells@[k as int]@);
        let t = chars_of(cells[k].as_str());
        if t.len() > 0 {
            let ghost before = pieces@;
            pieces.push(t);
            assert(pieces@.map_values(|p: Vec<char>| p@) =~= before.map_values(|p: Vec<char>| p@).push(t@));
        }
        k += 1;
    }
    assert(cv.take(cells@.len() as int) =~= cv);
    let sep: Vec<char> = vec![' ', ' '];
    assert(sep@ =~= seq![' ', ' ']);
    text::join_chars(&pieces, &sep)
}

/// The pipeline lines of one detected table.
fn table_rows_raw(t: &table::Table, id: usize, doc_dir: Dir, out: &mut Vec<RawLine>)
    ensures
        raw_lines_view(final(out)@) == raw_lines_view(old(out)@) + table_raws(t@, id as int, doc_dir),
{
    let ghost tv = t@;
    let mut column_dirs: Vec<Dir> = Vec::new();
    let mut c: usize = 0;
    while c < t.columns
        invariant
            c <= t.columns,
            tv == t@,
            column_dirs@ == Seq::new(c as nat, |k: int| doc_dir_of(column_of(tv.rows, k))),
        decreases t.columns - c,
    {
        let column = column_texts(&t.rows, c);
        let d = document_dir(&column);
        column_dirs.push(d);
        c += 1;
        assert(column_dirs@ =~= Seq::new(c as nat, |k: int| doc_dir_of(column_of(tv.rows, k))));
    }
    let every = all_cell_texts(&t.rows);
    let table_dir = document_dir(&every);
    let ghost base = raw_lines_view(out@);
    let mut j: usize = 0;
    while j < t.rows.len()
        invariant
            j <= t.rows@.len(),
            tv == t@,
            column_dirs@ == Seq::new(tv.columns as nat, |k: int| doc_dir_of(column_of(tv.rows, k))),
            table_dir == doc_dir_of(every_cell(tv.rows)),
            raw_lines_view(out@) == base + table_raws(tv, id as int, doc_dir).take(j as int),
        decreases t.rows@.len() - j,
    {
        let row = &t.rows[j];
        assert(tv.rows[j as int] == row@);
        let content = flatten_row(&row.cells);
        let ctx = Context { in_code: false, diff_mode: false, doc_dir };
        let dir = resolve_chars(&content, ctx);
        let raw = RawLine {
            dir,
            lead: String::new(),
            content: string_of(&content),
            tail: String::new(),
            boxed: false,
            in_code: false,
            row: Some(RawRow {
                id: id as u32,
                columns: t.columns,
                dir: table_dir,
                head: row.head,
                framed: t.framed,
                sep: t.sep,
                cells: bidi::clone_strings(&row.cells),
                align: bidi::clone_dirs(&column_dirs),
            }),
        };
        assert(raw@ == table_raw_row(tv, id as int, tv.rows[j as int], doc_dir));
        let ghost before = raw_lines_view(out@);
        out.push(raw);
        assert(raw_lines_view(out@) =~= before.push(raw@));
        j += 1;
        assert(table_raws(tv, id as int, doc_dir).take(j as int) =~= table_raws(tv, id as int, doc_dir).take(j - 1).push(table_raw_row(tv, id as int, tv.rows[j - 1], doc_dir)));
    }
    assert(table_raws(tv, id as int, doc_dir).take(t.rows@.len() as int) =~= table_raws(tv, id as int, doc_dir));
}

fn push_copies(out: &mut Vec<RawLine>, src: &Vec<RawLine>, from: usize, to: usize)
    requires
        from <= to <= src@.len(),
    ensures
        raw_lines_view(final(out)@) == raw_lines_view(old(out)@) + raw_lines_view(src@).subrange(from as int, to as int),
{
    let ghost base = raw_lines_view(out@);
    let mut k = from;
    while k < to
        invariant
            from <= k <= to <= src@.len(),
            raw_lines_view(out@) == base + raw_lines_view(src@).subrange(from as int, k as int),
        decreases to - k,
    {
        let l = src[k].duplicate();
        let ghost before = raw_lines_view(out@);
        out.push(l);
        assert(raw_lines_view(out@) =~= before.push(l@));
        k += 1;
        assert(raw_lines_view(src@).subrange(from as int, k as int) =~= raw_lines_view(src@).subrange(from as int, k - 1).push(src@[k - 1]@));
    }
}

fn candidates_for<'a>(raws: &Vec<RawLine>, painted: &'a Vec<String>) -> (r: Vec<Candidate<'a>>)
    requires
        painted@.len() == raws@.len(),
        forall|m: int| 0 <= m < raws@.len() ==> (#[trigger] painted@[m])@ == raws@[m]@.lead + raws@[m]@.content,
    ensures
        table::cands_view(r@) == candidates_of(raw_lines_view(raws@)),
{
    let ghost rv = raw_lines_view(raws@);
    let mut cands: Vec<Candidate> = Vec::new();
    let mut k: usize = 0;
    while k < raws.len()
        invariant
            k <= raws@.len() == painted@.len(),
            rv == raw_lines_view(raws@),
            forall|m: int| 0 <= m < raws@.len() ==> (#[trigger] painted@[m])@ == raws@[m]@.lead + raws@[m]@.content,
            table::cands_view(cands@) == candidates_of(rv).take(k as int),
        decreases raws@.len() - k,
    {
        let text = painted[k].as_str();
        let tc = chars_of(text);
        let blank = all_whitespace(&tc);
        assert(rv[k as int] == raws@[k as int]@);
        let cand = Candidate { text, blank, code: raws[k].in_code };
        let ghost before = cands@;
        cands.push(cand);
        assert(table::cands_view(cands@) =~= table::cands_view(before).push(cand@));
        k += 1;
        assert(candidates_of(rv).take(k as int) =~= candidates_of(rv).take(k - 1).push(candidates_of(rv)[k - 1]));
    }
    assert(candidates_of(rv).take(raws@.len() as int) =~= candidates_of(rv));
    cands
}

#[verifier::spinoff_prover]
#[verifier::rlimit(80)]
fn replace_tables(raws: &Vec<RawLine>, tables: &Vec<table::Table>, doc_dir: Dir) -> (r: Vec<RawLine>)
    requires
        table::tables_view(tables@) == detect_of(candidates_of(raw_lines_view(raws@))),
        tables@.len() > 0,
    ensures
        raw_lines_view(r@) == fold_tables_of(raw_lines_view(raws@), doc_dir),
{
    let ghost rv = raw_lines_view(raws@);
    let ghost tv = table::tables_view(tables@);
    proof {
        table::law_detected_tables_are_well_formed(candidates_of(rv));
    }
    let mut out: Vec<RawLine> = Vec::new();
    let mut next: usize = 0;
    let mut id: usize = 0;
    while id < tables.len()
        invariant
            id <= tables@.len(),
            tv == table::tables_view(tables@),
            tv == detect_of(candidates_of(rv)),
            rv == raw_lines_view(raws@),
            candidates_of(rv).len() == rv.len(),
            forall|k: int| 0 <= k < tv.len() ==> table::table_wf(#[trigger] tv[k], candidates_of(rv)),
            forall|k: int| 0 <= k < tv.len() - 1 ==> (#[trigger] tv[k]).end <= tv[k + 1].start,
            (raw_lines_view(out@), next as int) == tables_fold(rv, tv.take(id as int), doc_dir),
            id == 0 ==> next == 0,
            id > 0 ==> next == tv[id - 1].end,
            next <= rv.len(),
        decreases tables@.len() - id,
    {
        let found = &tables[id];
        assert(tv[id as int] == found@);
        assert(tv.take(id + 1).drop_last() =~= tv.take(id as int));
        assert(tv.take(id + 1).last() == found@);
        if id > 0 {
            assert(tv[id - 1].end <= tv[id as int].start);
        }
        push_copies(&mut out, raws, next, found.start);
        table_rows_raw(found, id, doc_dir, &mut out);
        next = found.end;
        id += 1;
    }
    assert(tv.take(tables@.len() as int) =~= tv);
    push_copies(&mut out, raws, next, raws.len());
    out
}

/// Replace each detected table's lines with one line per logical row.
fn fold_tables(raws: Vec<RawLine>, doc_dir: Dir) -> (r: Vec<RawLine>)
    ensures
        raw_lines_view(r@) == fold_tables_of(raw_lines_view(raws@), doc_dir),
{
    let mut painted: Vec<String> = Vec::new();
    let mut k: usize = 0;
    while k < raws.len()
        invariant
            k <= raws@.len(),
            painted@.len() == k,
            forall|m: int| 0 <= m < k ==> (#[trigger] painted@[m])@ == raws@[m]@.lead + raws@[m]@.content,
        decreases raws@.len() - k,
    {
        painted.push(painted_of(&raws[k]));
        k += 1;
    }
    let cands = candidates_for(&raws, &painted);
    let tables = detect(&cands);
    if tables.len() == 0 {
        return raws;
    }
    replace_tables(&raws, &tables, doc_dir)
}

fn cell_from(text: &String, align: Dir, diff: bool, doc_dir: Dir, strip: bool) -> (c: Cell)
    ensures
        c@ == cell_of(text@, align, diff, doc_dir, strip),
{
    let t = chars_of(text.as_str());
    let ctx = Context { in_code: false, diff_mode: diff, doc_dir };
    Cell { dir: resolve_chars(&t, ctx), align, segments: segment_chars(&t, strip) }
}

fn row_from(row: &RawRow, diff: bool, doc_dir: Dir, strip: bool) -> (r: TableRow)
    ensures
        r@ == row_of(row@, diff, doc_dir, strip),
{
    let n = if row.cells.len() < row.align.len() {
        row.cells.len()
    } else {
        row.align.len()
    };
    let ghost target = row_of(row@, diff, doc_dir, strip).cells;
    let mut cells: Vec<Cell> = Vec::new();
    let mut k: usize = 0;
    while k < n
        invariant
            k <= n,
            n == target.len(),
            n <= row.cells@.len(),
            n <= row.align@.len(),
            target == row_of(row@, diff, doc_dir, strip).cells,
            cells@.map_values(|c: Cell| c@) == target.take(k as int),
        decreases n - k,
    {
        assert(row@.cells[k as int] == row.cells@[k as int]@);
        let c = cell_from(&row.cells[k], row.align[k], diff, doc_dir, strip);
        let ghost before = cells@;
        cells.push(c);
        assert(cells@.map_values(|c: Cell| c@) =~= before.map_values(|c: Cell| c@).push(c@));
        k += 1;
        assert(target.take(k as int) =~= target.take(k - 1).push(target[k - 1]));
    }
    assert(target.take(n as int) =~= target);
    TableRow {
        id: row.id,
        columns: row.columns,
        dir: row.dir,
        head: row.head,
        framed: row.framed,
        sep: row.sep,
        cells,
    }
}

fn line_from(r: &RawLine, diff: bool, doc_dir: Dir, strip: bool) -> (l: Line)
    ensures
        l@ == line_of(r@, diff, doc_dir, strip),
{
    let content = chars_of(r.content.as_str());
    let segments = if content.len() == 0 {
        Vec::new()
    } else if r.in_code || diff {
        let mut v: Vec<Segment> = Vec::new();
        v.push(Segment::Code(r.content.clone()));
        assert(model::segs_view(v@) =~= seq![SegmentV::Code(r@.content)]);
        v
    } else {
        segment_chars(&content, strip)
    };
    let table = match &r.row {
        Some(row) => Some(row_from(row, diff, doc_dir, strip)),
        None => None,
    };
    let l = Line {
        lead: r.lead.clone(),
        tail: r.tail.clone(),
        boxed: r.boxed,
        code: r.in_code,
        dir: r.dir,
        segments,
        table,
    };
    proof {
        if content@.len() == 0 {
            assert(model::segs_view(l.segments@) =~= Seq::<SegmentV>::empty());
        }
    }
    l
}

fn add_split_exec(splits: &mut Vec<(Split, bool)>, in_fence: &mut bool, line: &[char])
    ensures
        (final(splits)@.map_values(|p: (Split, bool)| (p.0@, p.1)), *final(in_fence)) == add_split(
            (old(splits)@.map_values(|p: (Split, bool)| (p.0@, p.1)), *old(in_fence)),
            line@,
        ),
{
    let sp = bidi::gutter::split_chars(line);
    let content = chars_of(sp.content.as_str());
    let fence = is_fence(&content);
    let in_code = *in_fence || fence;
    if fence {
        *in_fence = !*in_fence;
    }
    let ghost before = splits@.map_values(|p: (Split, bool)| (p.0@, p.1));
    splits.push((sp, in_code));
    assert(splits@.map_values(|p: (Split, bool)| (p.0@, p.1)) =~= before.push((split_of(line@), in_code)));
}

proof fn lemma_trim_newlines(s: Seq<char>)
    ensures
        trim_newlines(s) == s.take(trim_newlines(s).len() as int),
        trim_newlines(s).len() <= s.len(),
    decreases s.len(),
{
    if s.len() > 0 && s.last() == '\n' {
        lemma_trim_newlines(s.drop_last());
        assert(s.drop_last().take(trim_newlines(s).len() as int) =~= s.take(trim_newlines(s).len() as int));
    } else {
        assert(s.take(s.len() as int) =~= s);
    }
}

/// The cleaned, normalised text with its trailing newlines dropped.
fn prepare(input: &str, opts: &Options) -> (r: Vec<char>)
    ensures
        r@ == prepared_of(input@, *opts),
        copyback::no_isolates(r@),
{
    let cleaned = clean(input, opts.tab_width);
    let c1 = chars_of(cleaned.as_str());
    proof {
        sanitize::ansi::law_clean_drops_isolates(input@, opts.tab_width as int);
    }
    let c2 = if opts.normalize_persian {
        persian_chars(&c1)
    } else {
        c1
    };
    let mut n = c2.len();
    assert(c2@.take(c2@.len() as int) =~= c2@);
    while n > 0 && c2[n - 1] == '\n'
        invariant
            n <= c2@.len(),
            trim_newlines(c2@) == trim_newlines(c2@.take(n as int)),
        decreases n,
    {
        assert(c2@.take(n as int).drop_last() =~= c2@.take(n - 1));
        n -= 1;
    }
    proof {
        if n > 0 {
            assert(c2@.take(n as int).last() != '\n');
        }
        assert(trim_newlines(c2@.take(n as int)) == c2@.take(n as int));
    }
    let text = text::slice_chars(&c2, 0, n);
    assert(text@ =~= c2@.take(n as int));
    proof {
        copyback::lemma_clean_subrange(c2@, 0, n as int);
    }
    text
}

spec fn splits_view(v: Seq<(Split, bool)>) -> Seq<(SplitV, bool)> {
    v.map_values(|p: (Split, bool)| (p.0@, p.1))
}

fn split_all(text: &[char]) -> (r: Vec<(Split, bool)>)
    ensures
        splits_view(r@) == splits_fold(split_on(text@, '\n')).0,
{
    let pieces = split_chars(text, '\n');
    let ghost pv = split_on(text@, '\n');
    let mut splits: Vec<(Split, bool)> = Vec::new();
    let mut in_fence = false;
    let mut i: usize = 0;
    while i < pieces.len()
        invariant
            i <= pieces@.len() == pv.len(),
            pv == split_on(text@, '\n'),
            forall|k: int| 0 <= k < pieces@.len() ==> (#[trigger] pieces@[k])@ == pv[k],
            (splits_view(splits@), in_fence) == splits_fold(pv.take(i as int)),
        decreases pieces@.len() - i,
    {
        assert(pv.take(i + 1).drop_last() =~= pv.take(i as int));
        assert(pv.take(i + 1).last() == pieces@[i as int]@);
        match split_welded_rule_chars(&pieces[i]) {
            Some((a, b)) => {
                add_split_exec(&mut splits, &mut in_fence, &a);
                add_split_exec(&mut splits, &mut in_fence, &b);
            },
            None => {
                add_split_exec(&mut splits, &mut in_fence, &pieces[i]);
            },
        }
        i += 1;
    }
    assert(pv.take(pieces@.len() as int) =~= pv);
    splits
}

fn prose_of_splits(splits: &Vec<(Split, bool)>) -> (r: Vec<Vec<char>>)
    ensures
        r@.map_values(|v: Vec<char>| v@) == prose_lines(splits_view(splits@)),
{
    let ghost sv = splits_view(splits@);
    let mut prose: Vec<Vec<char>> = Vec::new();
    let mut i: usize = 0;
    while i < splits.len()
        invariant
            i <= splits@.len(),
            sv == splits_view(splits@),
            prose@.map_values(|v: Vec<char>| v@) == prose_lines(sv.take(i as int)),
        decreases splits@.len() - i,
    {
        assert(sv.take(i + 1).drop_last() =~= sv.take(i as int));
        assert(sv[i as int] == (splits@[i as int].0@, splits@[i as int].1));
        if !splits[i].1 {
            let content = chars_of(splits[i].0.content.as_str());
            let p = prose_only_chars(&content);
            let ghost before = prose@;
            prose.push(p);
            assert(prose@.map_values(|v: Vec<char>| v@) =~= before.map_values(|v: Vec<char>| v@).push(p@));
        }
        i += 1;
    }
    assert(sv.take(splits@.len() as int) =~= sv);
    prose
}

fn raws_from_splits(splits: &Vec<(Split, bool)>, diff: bool, doc_dir: Dir) -> (r: Vec<RawLine>)
    ensures
        raw_lines_view(r@) == raws_of(splits_view(splits@), diff, doc_dir),
{
    let ghost sv = splits_view(splits@);
    let mut raws: Vec<RawLine> = Vec::new();
    let mut i: usize = 0;
    while i < splits.len()
        invariant
            i <= splits@.len(),
            sv == splits_view(splits@),
            raw_lines_view(raws@) == raws_of(sv, diff, doc_dir).take(i as int),
        decreases splits@.len() - i,
    {
        let (sp, in_code) = (&splits[i].0, splits[i].1);
        assert(sv[i as int] == (sp@, in_code));
        let content = chars_of(sp.content.as_str());
        let ctx = Context { in_code, diff_mode: diff, doc_dir };
        let raw = RawLine {
            dir: resolve_chars(&content, ctx),
            lead: sp.lead.clone(),
            content: sp.content.clone(),
            tail: sp.tail.clone(),
            boxed: sp.boxed,
            in_code,
            row: None,
        };
        let ghost before = raw_lines_view(raws@);
        raws.push(raw);
        assert(raw_lines_view(raws@) =~= before.push(raw@));
        i += 1;
        assert(raws_of(sv, diff, doc_dir).take(i as int) =~= raws_of(sv, diff, doc_dir).take(i - 1).push(raw_of(sv[i - 1].0, sv[i - 1].1, diff, doc_dir)));
    }
    assert(raws_of(sv, diff, doc_dir).take(splits@.len() as int) =~= raws_of(sv, diff, doc_dir));
    raws
}

fn finish_lines(raws: &Vec<RawLine>, diff: bool, doc_dir: Dir, strip: bool) -> (r: Vec<Line>)
    ensures
        model::lines_view(r@) == raw_lines_view(raws@).map_values(|x: RawLineV| line_of(x, diff, doc_dir, strip)),
{
    let ghost rv = raw_lines_view(raws@);
    let mut out: Vec<Line> = Vec::new();
    let mut i: usize = 0;
    while i < raws.len()
        invariant
            i <= raws@.len(),
            rv == raw_lines_view(raws@),
            model::lines_view(out@) == rv.take(i as int).map_values(|x: RawLineV| line_of(x, diff, doc_dir, strip)),
        decreases raws@.len() - i,
    {
        assert(rv[i as int] == raws@[i as int]@);
        let l = line_from(&raws[i], diff, doc_dir, strip);
        let ghost before = out@;
        out.push(l);
        assert(model::lines_view(out@) =~= model::lines_view(before).push(l@));
        i += 1;
        assert(rv.take(i as int).map_values(|x: RawLineV| line_of(x, diff, doc_dir, strip)) =~= rv.take(i - 1).map_values(|x: RawLineV| line_of(x, diff, doc_dir, strip)).push(line_of(rv[i - 1], diff, doc_dir, strip)));
    }
    assert(rv.take(raws@.len() as int) =~= rv);
    out
}

/// Run the full pipeline. The document it returns copies bidi-safe as it copies plain:
/// with the isolate controls taken out, line for line, up to trailing blanks.
pub fn process(input: &str, opts: &Options, source: CaptureSource) -> (doc: Doc)
    ensures
        doc@ == process_of(input@, *opts, source),
        copyback::bidi_safe_shows_plain(doc@),
{
    let text = prepare(input, opts);
    let diff = is_diff(&text);
    let splits = split_all(&text);
    let prose = prose_of_splits(&splits);
    let doc_dir = bidi::direction::document_dir_chars(&prose);
    let mut raws = raws_from_splits(&splits, diff, doc_dir);
    if !diff {
        raws = fold_tables(raws, doc_dir);
    }
    if opts.soft_unwrap && !diff {
        raws = soft_unwrap(raws);
    }
    let lines = finish_lines(&raws, diff, doc_dir, opts.strip_backticks);
    proof {
        lemma_processed_chunks_show_plain(input@, *opts, source);
        copyback::law_bidi_safe_copy_shows_the_plain_text(process_of(input@, *opts, source));
    }
    Doc { lines, source, diff_mode: diff }
}


// ------------------------------------------------------------------ laws

/// In diff mode every line stays LTR: the `+`/`-`/`@@` column is load-bearing.
pub proof fn law_diff_mode_pins_everything_ltr(input: Seq<char>, opts: Options, source: CaptureSource)
    ensures
        process_of(input, opts, source).diff_mode ==> forall|k: int|
            0 <= k < process_of(input, opts, source).lines.len() ==> (#[trigger] process_of(input, opts, source).lines[k]).dir
                == Dir::Ltr,
{
    let d = process_of(input, opts, source);
    if d.diff_mode {
        let text = prepared_of(input, opts);
        let splits = splits_fold(split_on(text, '\n')).0;
        let doc_dir = doc_dir_of(prose_lines(splits));
        let raws = raws_of(splits, true, doc_dir);
        assert forall|k: int| 0 <= k < d.lines.len() implies (#[trigger] d.lines[k]).dir == Dir::Ltr by {
            assert(d.lines[k] == line_of(raws[k], true, doc_dir, opts.strip_backticks));
            assert(raws[k] == raw_of(splits[k].0, splits[k].1, true, doc_dir));
        }
    }
}


/// A property of pipeline lines that holds of every line a table fold can produce holds of
/// every line of the fold.
proof fn lemma_tables_fold_q(raws: Seq<RawLineV>, tables: Seq<TableV>, dd: Dir, q: spec_fn(RawLineV) -> bool)
    requires
        forall|m: int| 0 <= m < raws.len() ==> q(#[trigger] raws[m]),
        forall|k: int, j: int|
            0 <= k < tables.len() && 0 <= j < tables[k].rows.len() ==> q(
                #[trigger] table_raw_row(tables[k], k, tables[k].rows[j], dd),
            ),
        forall|k: int| 0 <= k < tables.len() ==> 0 <= (#[trigger] tables[k]).start < tables[k].end <= raws.len(),
        forall|k: int| 0 <= k < tables.len() - 1 ==> (#[trigger] tables[k]).end <= tables[k + 1].start,
    ensures
        forall|i: int| 0 <= i < tables_fold(raws, tables, dd).0.len() ==> q(#[trigger] tables_fold(raws, tables, dd).0[i]),
        tables.len() > 0 ==> tables_fold(raws, tables, dd).1 == tables.last().end,
        tables.len() == 0 ==> tables_fold(raws, tables, dd).1 == 0,
    decreases tables.len(),
{
    if tables.len() > 0 {
        let init = tables.drop_last();
        assert forall|k: int, j: int| 0 <= k < init.len() && 0 <= j < init[k].rows.len() implies q(
            #[trigger] table_raw_row(init[k], k, init[k].rows[j], dd),
        ) by {
            assert(init[k] == tables[k]);
        }
        assert forall|k: int| 0 <= k < init.len() implies 0 <= (#[trigger] init[k]).start < init[k].end <= raws.len() by {
            assert(init[k] == tables[k]);
        }
        assert forall|k: int| 0 <= k < init.len() - 1 implies (#[trigger] init[k]).end <= init[k + 1].start by {
            assert(init[k] == tables[k]);
            assert(init[k + 1] == tables[k + 1]);
        }
        lemma_tables_fold_q(raws, init, dd, q);
        let (out, next) = tables_fold(raws, init, dd);
        let t = tables.last();
        let id = tables.len() - 1;
        assert(t == tables[id]);
        if init.len() > 0 {
            assert(init.last() == tables[id - 1]);
        }
        let mid = raws.subrange(next, t.start);
        let rows = table_raws(t, id, dd);
        assert forall|i: int| 0 <= i < rows.len() implies q(#[trigger] rows[i]) by {
            assert(rows[i] == table_raw_row(tables[id], id, tables[id].rows[i], dd));
        }
        assert forall|i: int| 0 <= i < mid.len() implies q(#[trigger] mid[i]) by {
            assert(mid[i] == raws[next + i]);
        }
        let all = out + mid + rows;
        assert forall|i: int| 0 <= i < all.len() implies q(#[trigger] all[i]) by {
            if i < out.len() {
                assert(all[i] == out[i]);
            } else if i < out.len() + mid.len() {
                assert(all[i] == mid[i - out.len()]);
            } else {
                assert(all[i] == rows[i - out.len() - mid.len()]);
            }
        }
    }
}

proof fn lemma_fold_tables_q(raws: Seq<RawLineV>, dd: Dir, q: spec_fn(RawLineV) -> bool)
    requires
        forall|m: int| 0 <= m < raws.len() ==> q(#[trigger] raws[m]),
        forall|k: int, j: int|
            0 <= k < detect_of(candidates_of(raws)).len() && 0 <= j < detect_of(candidates_of(raws))[k].rows.len() ==> q(
                #[trigger] table_raw_row(detect_of(candidates_of(raws))[k], k, detect_of(candidates_of(raws))[k].rows[j], dd),
            ),
    ensures
        forall|i: int| 0 <= i < fold_tables_of(raws, dd).len() ==> q(#[trigger] fold_tables_of(raws, dd)[i]),
{
    let c = candidates_of(raws);
    let tables = detect_of(c);
    table::law_detected_tables_are_well_formed(c);
    if tables.len() > 0 {
        assert forall|k: int| 0 <= k < tables.len() implies 0 <= (#[trigger] tables[k]).start < tables[k].end <= raws.len() by {
            assert(table::table_wf(tables[k], c));
        }
        lemma_tables_fold_q(raws, tables, dd, q);
        let (out, next) = tables_fold(raws, tables, dd);
        assert(table::table_wf(tables[tables.len() - 1], c));
        let rest = raws.subrange(next, raws.len() as int);
        let all = out + rest;
        assert forall|i: int| 0 <= i < all.len() implies q(#[trigger] all[i]) by {
            if i < out.len() {
                assert(all[i] == out[i]);
            } else {
                assert(all[i] == rest[i - out.len()]);
                assert(rest[i - out.len()] == raws[next + i - out.len()]);
            }
        }
    }
}


/// A line the pipeline must keep LTR: inside code, or anywhere in a diff.
pub open spec fn pinned(r: RawLineV, diff: bool) -> bool {
    r.in_code || diff
}

/// A finished code or diff line: LTR, no table row, and its text as at most one code run.
pub open spec fn code_line_ok(l: LineV, diff: bool) -> bool {
    (l.code || diff) ==> (l.dir == Dir::Ltr && l.table is None && l.segments.len() <= 1 && forall|k: int|
        0 <= k < l.segments.len() ==> (#[trigger] l.segments[k]) is Code)
}

/// The pipeline lines before tables, unwrapping and segmentation, and the document facts
/// they were read with.
pub open spec fn raws_before(input: Seq<char>, opts: Options) -> (Seq<RawLineV>, bool, Dir) {
    let text = prepared_of(input, opts);
    let diff = diff_of(text);
    let splits = splits_fold(split_on(text, '\n')).0;
    let doc_dir = doc_dir_of(prose_lines(splits));
    (raws_of(splits, diff, doc_dir), diff, doc_dir)
}

/// The pipeline lines as they reach segmentation.
pub open spec fn raws_final(input: Seq<char>, opts: Options) -> Seq<RawLineV> {
    let (raws, diff, doc_dir) = raws_before(input, opts);
    let raws2 = if !diff {
        fold_tables_of(raws, doc_dir)
    } else {
        raws
    };
    if opts.soft_unwrap && !diff {
        unwrap_of(raws2)
    } else {
        raws2
    }
}

proof fn lemma_process_lines(input: Seq<char>, opts: Options, source: CaptureSource)
    ensures
        process_of(input, opts, source).lines == raws_final(input, opts).map_values(
            |r: RawLineV| line_of(r, raws_before(input, opts).1, raws_before(input, opts).2, opts.strip_backticks),
        ),
        process_of(input, opts, source).diff_mode == raws_before(input, opts).1,
{
}

/// Code lines and every line of a diff come out LTR, outside any table, with their text as
/// a single code run (or none, when empty).
pub proof fn law_code_lines_are_one_code_run(input: Seq<char>, opts: Options, source: CaptureSource)
    ensures
        forall|k: int|
            0 <= k < process_of(input, opts, source).lines.len() ==> code_line_ok(
                #[trigger] process_of(input, opts, source).lines[k],
                process_of(input, opts, source).diff_mode,
            ),
{
    lemma_process_lines(input, opts, source);
    let (raws, diff, dd) = raws_before(input, opts);
    let text = prepared_of(input, opts);
    let splits = splits_fold(split_on(text, '\n')).0;
    let q = |r: RawLineV| pinned(r, diff) ==> r.dir == Dir::Ltr && r.row is None;
    assert forall|m: int| 0 <= m < raws.len() implies q(#[trigger] raws[m]) by {
        assert(raws[m] == raw_of(splits[m].0, splits[m].1, diff, dd));
        if pinned(raws[m], diff) {
            bidi::direction::law_code_and_diff_force_ltr(
                splits[m].0.content,
                Context { in_code: splits[m].1, diff_mode: diff, doc_dir: dd },
            );
        }
    }
    let raws2 = if !diff { fold_tables_of(raws, dd) } else { raws };
    if !diff {
        lemma_fold_tables_q(raws, dd, q);
    }
    assert forall|i: int| 0 <= i < raws2.len() implies q(#[trigger] raws2[i]) by {}
    let raws3 = raws_final(input, opts);
    assert forall|i: int| 0 <= i < raws3.len() implies q(#[trigger] raws3[i]) by {
        if opts.soft_unwrap && !diff {
            let x = raws3[i];
            if x.in_code {
                assert(raws3.contains(x));
                sanitize::unwrap::lemma_unwrap_untouchable_from_input(raws2, x);
                let m = choose|m: int| 0 <= m < raws2.len() && raws2[m] == x;
                assert(q(raws2[m]));
            }
        }
    }
    let d = process_of(input, opts, source);
    assert forall|k: int| 0 <= k < d.lines.len() implies code_line_ok(#[trigger] d.lines[k], d.diff_mode) by {
        assert(d.lines[k] == line_of(raws3[k], diff, dd, opts.strip_backticks));
        assert(q(raws3[k]));
    }
}


/// A pipeline line that carries a table row: no gutter or frame of its own, outside code,
/// at least two cells under as many alignments, and its content the non-empty cells two
/// spaces apart.
pub open spec fn raw_row_ok(r: RawLineV) -> bool {
    r.row matches Some(row) ==> {
        &&& r.lead.len() == 0
        &&& r.tail.len() == 0
        &&& !r.boxed
        &&& !r.in_code
        &&& row.cells.len() >= 2
        &&& row.align.len() == row.cells.len()
        &&& row.cells.len() as usize == row.columns
        &&& r.content == join(nonempty_of(row.cells), seq![' ', ' '])
    }
}

/// The text of a finished cell.
pub open spec fn cell_text(c: CellV) -> Seq<char> {
    model::segs_text(c.segments)
}

/// A finished table line: no gutter, frame or code, at least two cells, one per column, and
/// its text the non-empty cell texts two spaces apart.
pub open spec fn table_line_ok(l: LineV) -> bool {
    l.table matches Some(t) ==> {
        &&& l.lead.len() == 0
        &&& l.tail.len() == 0
        &&& !l.boxed
        &&& !l.code
        &&& t.cells.len() >= 2
        &&& t.cells.len() as usize == t.columns
        &&& model::segs_text(l.segments) == join(
            nonempty_of(t.cells.map_values(|c: CellV| cell_text(c))),
            seq![' ', ' '],
        )
    }
}

proof fn lemma_row_line(r: RawLineV, dd: Dir)
    requires
        raw_row_ok(r),
    ensures
        table_line_ok(line_of(r, false, dd, false)),
{
    if let Some(row) = r.row {
        let l = line_of(r, false, dd, false);
        let t = row_of(row, false, dd, false);
        assert(l.table == Some(t));
        assert forall|k: int| 0 <= k < t.cells.len() implies #[trigger] cell_text(t.cells[k]) == row.cells[k] by {
            bidi::segment::law_segments_reassemble(row.cells[k]);
        }
        assert(t.cells.map_values(|c: CellV| cell_text(c)) =~= row.cells);
        if r.content.len() == 0 {
            assert(l.segments =~= Seq::<SegmentV>::empty());
        } else {
            bidi::segment::law_segments_reassemble(r.content);
            assert(l.segments == segment_of(r.content, false));
        }
        assert(t.cells.len() == row.cells.len());
        assert(t.columns == row.columns);
        assert(model::segs_text(l.segments) == r.content);
    }
}

/// Every table line of a document that keeps its backticks has no gutter, frame or code, at
/// least two cells, one per column, and reads as its non-empty cells two spaces apart.
pub proof fn law_table_lines_are_their_cells(input: Seq<char>, opts: Options, source: CaptureSource)
    requires
        !opts.strip_backticks,
    ensures
        forall|k: int|
            0 <= k < process_of(input, opts, source).lines.len() ==> table_line_ok(
                #[trigger] process_of(input, opts, source).lines[k],
            ),
{
    lemma_process_lines(input, opts, source);
    let (raws, diff, dd) = raws_before(input, opts);
    let text = prepared_of(input, opts);
    let splits = splits_fold(split_on(text, '\n')).0;
    let q = |r: RawLineV| raw_row_ok(r);
    assert forall|m: int| 0 <= m < raws.len() implies q(#[trigger] raws[m]) by {
        assert(raws[m] == raw_of(splits[m].0, splits[m].1, diff, dd));
    }
    let raws2 = if !diff { fold_tables_of(raws, dd) } else { raws };
    if !diff {
        let c = candidates_of(raws);
        let tables = detect_of(c);
        table::law_detected_tables_are_well_formed(c);
        assert forall|k: int, j: int| 0 <= k < tables.len() && 0 <= j < tables[k].rows.len() implies q(
            #[trigger] table_raw_row(tables[k], k, tables[k].rows[j], dd),
        ) by {
            assert(table::table_wf(tables[k], c));
            assert(tables[k].rows[j].cells.len() == tables[k].columns);
        }
        lemma_fold_tables_q(raws, dd, q);
    }
    assert forall|i: int| 0 <= i < raws2.len() implies q(#[trigger] raws2[i]) by {}
    let raws3 = raws_final(input, opts);
    assert forall|i: int| 0 <= i < raws3.len() implies q(#[trigger] raws3[i]) by {
        if opts.soft_unwrap && !diff {
            let x = raws3[i];
            if x.row is Some {
                assert(raws3.contains(x));
                sanitize::unwrap::lemma_unwrap_untouchable_from_input(raws2, x);
                let m = choose|m: int| 0 <= m < raws2.len() && raws2[m] == x;
                assert(q(raws2[m]));
            }
        }
    }
    let d = process_of(input, opts, source);
    assert forall|k: int| 0 <= k < d.lines.len() implies table_line_ok(#[trigger] d.lines[k]) by {
        assert(d.lines[k] == line_of(raws3[k], diff, dd, opts.strip_backticks));
        assert(q(raws3[k]));
        if diff {
            assert(raws3[k] == raws[k]);
            assert(raws[k] == raw_of(splits[k].0, splits[k].1, diff, dd));
        } else {
            lemma_row_line(raws3[k], dd);
        }
    }
}


/// The table a pipeline line belongs to, or -1 for a line outside every table.
pub open spec fn row_id(x: RawLineV) -> int {
    match x.row {
        Some(r) => r.id as int,
        None => -1,
    }
}

/// The rows of each table stand together, and the tables follow one another in order.
pub open spec fn rows_grouped(s: Seq<RawLineV>) -> bool {
    &&& forall|p: int, q: int, r: int|
        #![trigger s[p], s[q], s[r]]
        0 <= p < q < r < s.len() && row_id(s[p]) >= 0 && row_id(s[p]) == row_id(s[r]) ==> row_id(s[q])
            == row_id(s[p])
    &&& forall|p: int, r: int|
        #![trigger s[p], s[r]]
        0 <= p < r < s.len() && row_id(s[p]) >= 0 && row_id(s[r]) >= 0 ==> row_id(s[p]) <= row_id(s[r])
}

proof fn lemma_grouped_extend(a: Seq<RawLineV>, b: Seq<RawLineV>, c: Seq<RawLineV>, kk: int)
    requires
        rows_grouped(a),
        kk >= 0,
        forall|i: int| 0 <= i < a.len() ==> row_id(#[trigger] a[i]) < kk,
        forall|i: int| 0 <= i < b.len() ==> row_id(#[trigger] b[i]) == -1,
        forall|i: int| 0 <= i < c.len() ==> row_id(#[trigger] c[i]) == kk,
    ensures
        rows_grouped(a + b + c),
        forall|i: int| 0 <= i < (a + b + c).len() ==> row_id(#[trigger] (a + b + c)[i]) <= kk,
{
    let s = a + b + c;
    let la = a.len() as int;
    let lb = b.len() as int;
    assert forall|i: int| 0 <= i < s.len() implies (i < la ==> s[i] == a[i]) && (la <= i < la + lb ==> s[i]
        == b[i - la]) && (la + lb <= i ==> s[i] == c[i - la - lb]) by {}
    assert forall|i: int| 0 <= i < s.len() implies row_id(#[trigger] s[i]) <= kk && (i < la ==> row_id(s[i]) < kk)
        && (la <= i < la + lb ==> row_id(s[i]) == -1) && (la + lb <= i ==> row_id(s[i]) == kk) by {
        if i < la {
            assert(s[i] == a[i]);
        } else if i < la + lb {
            assert(s[i] == b[i - la]);
        } else {
            assert(s[i] == c[i - la - lb]);
        }
    }
    assert forall|p: int, q: int, r: int|
        #![trigger s[p], s[q], s[r]]
        0 <= p < q < r < s.len() && row_id(s[p]) >= 0 && row_id(s[p]) == row_id(s[r]) implies row_id(s[q])
            == row_id(s[p]) by {
        if r < la {
            assert(s[p] == a[p] && s[q] == a[q] && s[r] == a[r]);
            assert(row_id(a[q]) == row_id(a[p]));
        }
    }
    assert forall|p: int, r: int|
        #![trigger s[p], s[r]]
        0 <= p < r < s.len() && row_id(s[p]) >= 0 && row_id(s[r]) >= 0 implies row_id(s[p]) <= row_id(s[r]) by {
        if r < la {
            assert(s[p] == a[p] && s[r] == a[r]);
            assert(row_id(a[p]) <= row_id(a[r]));
        }
    }
}

proof fn lemma_tables_fold_grouped(raws: Seq<RawLineV>, tables: Seq<TableV>, dd: Dir)
    requires
        forall|m: int| 0 <= m < raws.len() ==> (#[trigger] raws[m]).row is None,
        tables.len() <= 0x1_0000_0000,
        forall|k: int| 0 <= k < tables.len() ==> 0 <= (#[trigger] tables[k]).start < tables[k].end <= raws.len(),
        forall|k: int| 0 <= k < tables.len() - 1 ==> (#[trigger] tables[k]).end <= tables[k + 1].start,
    ensures
        rows_grouped(tables_fold(raws, tables, dd).0),
        forall|i: int| 0 <= i < tables_fold(raws, tables, dd).0.len() ==> row_id(#[trigger] tables_fold(raws, tables, dd).0[i]) < tables.len(),
    decreases tables.len(),
{
    if tables.len() > 0 {
        let init = tables.drop_last();
        assert forall|k: int| 0 <= k < init.len() implies 0 <= (#[trigger] init[k]).start < init[k].end <= raws.len() by {
            assert(init[k] == tables[k]);
        }
        assert forall|k: int| 0 <= k < init.len() - 1 implies (#[trigger] init[k]).end <= init[k + 1].start by {
            assert(init[k] == tables[k]);
            assert(init[k + 1] == tables[k + 1]);
        }
        lemma_tables_fold_grouped(raws, init, dd);
        lemma_tables_fold_q(raws, init, dd, |r: RawLineV| true);
        let (out, next) = tables_fold(raws, init, dd);
        let t = tables.last();
        let id = tables.len() - 1;
        assert(t == tables[id]);
        if init.len() > 0 {
            assert(init.last() == tables[id - 1]);
        }
        let mid = raws.subrange(next, t.start);
        let rows = table_raws(t, id, dd);
        assert forall|i: int| 0 <= i < mid.len() implies row_id(#[trigger] mid[i]) == -1 by {
            assert(mid[i] == raws[next + i]);
        }
        assert forall|i: int| 0 <= i < rows.len() implies row_id(#[trigger] rows[i]) == id by {
            assert(rows[i] == table_raw_row(t, id, t.rows[i], dd));
        }
        lemma_grouped_extend(out, mid, rows, id);
    }
}

proof fn lemma_fold_grouped(raws: Seq<RawLineV>, dd: Dir)
    requires
        forall|m: int| 0 <= m < raws.len() ==> (#[trigger] raws[m]).row is None,
        detect_of(candidates_of(raws)).len() <= 0x1_0000_0000,
    ensures
        rows_grouped(fold_tables_of(raws, dd)),
{
    let c = candidates_of(raws);
    let tables = detect_of(c);
    table::law_detected_tables_are_well_formed(c);
    if tables.len() > 0 {
        assert forall|k: int| 0 <= k < tables.len() implies 0 <= (#[trigger] tables[k]).start < tables[k].end <= raws.len() by {
            assert(table::table_wf(tables[k], c));
        }
        lemma_tables_fold_grouped(raws, tables, dd);
        lemma_tables_fold_q(raws, tables, dd, |r: RawLineV| true);
        let (out, next) = tables_fold(raws, tables, dd);
        assert(table::table_wf(tables[tables.len() - 1], c));
        let rest = raws.subrange(next, raws.len() as int);
        assert forall|i: int| 0 <= i < rest.len() implies row_id(#[trigger] rest[i]) == -1 by {
            assert(rest[i] == raws[next + i]);
        }
        lemma_grouped_extend(out, rest, Seq::empty(), tables.len() as int);
        assert(out + rest + Seq::<RawLineV>::empty() =~= fold_tables_of(raws, dd));
    } else {
        assert forall|i: int| 0 <= i < raws.len() implies row_id(#[trigger] raws[i]) == -1 by {}
        lemma_grouped_extend(raws, Seq::empty(), Seq::empty(), 0);
        assert(raws + Seq::<RawLineV>::empty() + Seq::<RawLineV>::empty() =~= raws);
    }
}

proof fn lemma_unwrap_grouped(lines: Seq<RawLineV>)
    requires
        rows_grouped(lines),
    ensures
        rows_grouped(unwrap_of(lines)),
{
    let out = unwrap_of(lines);
    sanitize::unwrap::law_unwrap_keeps_line_order(lines);
    let o = sanitize::unwrap::unwrap_origin(lines, 0);
    assert forall|k: int| 0 <= k < out.len() implies row_id(#[trigger] out[k]) == row_id(lines[o[k]]) by {
        assert(sanitize::unwrap::alike(out[k], lines[o[k]]));
    }
    assert forall|p: int, q: int, r: int|
        #![trigger out[p], out[q], out[r]]
        0 <= p < q < r < out.len() && row_id(out[p]) >= 0 && row_id(out[p]) == row_id(out[r]) implies row_id(out[q])
            == row_id(out[p]) by {
        assert(o[p] < o[q] && o[q] < o[r]);
        assert(row_id(lines[o[q]]) == row_id(lines[o[p]]));
    }
    assert forall|p: int, r: int|
        #![trigger out[p], out[r]]
        0 <= p < r < out.len() && row_id(out[p]) >= 0 && row_id(out[r]) >= 0 implies row_id(out[p]) <= row_id(out[r]) by {
        assert(o[p] < o[r]);
        assert(row_id(lines[o[p]]) <= row_id(lines[o[r]]));
    }
}

/// The number of tables the detector finds in the document.
pub open spec fn table_count(input: Seq<char>, opts: Options) -> int {
    detect_of(candidates_of(raws_before(input, opts).0)).len() as int
}

/// The table a finished line belongs to, or -1 for a line outside every table.
pub open spec fn table_id(l: LineV) -> int {
    match l.table {
        Some(t) => t.id as int,
        None => -1,
    }
}

/// The rows of each table stand together in the document, and the tables follow one
/// another in order: between two lines of one table every line belongs to that table, and
/// a later table line never has a smaller table number. (Table numbers are `u32`, so this
/// is said of documents with at most 2^32 tables.)
pub proof fn law_table_rows_stand_together(input: Seq<char>, opts: Options, source: CaptureSource)
    requires
        table_count(input, opts) <= 0x1_0000_0000,
    ensures
        ({
            let ls = process_of(input, opts, source).lines;
            &&& forall|p: int, q: int, r: int|
                #![trigger ls[p], ls[q], ls[r]]
                0 <= p < q < r < ls.len() && table_id(ls[p]) >= 0 && table_id(ls[p]) == table_id(ls[r])
                    ==> table_id(ls[q]) == table_id(ls[p])
            &&& forall|p: int, r: int|
                #![trigger ls[p], ls[r]]
                0 <= p < r < ls.len() && table_id(ls[p]) >= 0 && table_id(ls[r]) >= 0 ==> table_id(ls[p])
                    <= table_id(ls[r])
        }),
{
    lemma_process_lines(input, opts, source);
    let (raws, diff, dd) = raws_before(input, opts);
    let text = prepared_of(input, opts);
    let splits = splits_fold(split_on(text, '\n')).0;
    assert forall|m: int| 0 <= m < raws.len() implies (#[trigger] raws[m]).row is None by {
        assert(raws[m] == raw_of(splits[m].0, splits[m].1, diff, dd));
    }
    let raws2 = if !diff { fold_tables_of(raws, dd) } else { raws };
    if !diff {
        lemma_fold_grouped(raws, dd);
    } else {
        assert forall|i: int| 0 <= i < raws.len() implies row_id(#[trigger] raws[i]) == -1 by {}
        lemma_grouped_extend(raws, Seq::empty(), Seq::empty(), 0);
        assert(raws + Seq::<RawLineV>::empty() + Seq::<RawLineV>::empty() =~= raws);
    }
    let raws3 = raws_final(input, opts);
    if opts.soft_unwrap && !diff {
        lemma_unwrap_grouped(raws2);
    }
    assert(rows_grouped(raws3));
    let ls = process_of(input, opts, source).lines;
    assert forall|k: int| 0 <= k < ls.len() implies table_id(#[trigger] ls[k]) == row_id(raws3[k]) by {
        assert(ls[k] == line_of(raws3[k], diff, dd, opts.strip_backticks));
    }
    assert forall|p: int, q: int, r: int|
        #![trigger ls[p], ls[q], ls[r]]
        0 <= p < q < r < ls.len() && table_id(ls[p]) >= 0 && table_id(ls[p]) == table_id(ls[r]) implies table_id(ls[q])
            == table_id(ls[p]) by {
        assert(row_id(raws3[q]) == row_id(raws3[p]));
    }
    assert forall|p: int, r: int|
        #![trigger ls[p], ls[r]]
        0 <= p < r < ls.len() && table_id(ls[p]) >= 0 && table_id(ls[r]) >= 0 implies table_id(ls[p]) <= table_id(ls[r]) by {
        assert(row_id(raws3[p]) <= row_id(raws3[r]));
    }
}


/// The table numbers of the table lines, in order.
pub open spec fn row_ids(s: Seq<RawLineV>) -> Seq<int>
    decreases s.len(),
{
    if s.len() == 0 {
        Seq::empty()
    } else if s.last().row is Some {
        row_ids(s.drop_last()).push(row_id(s.last()))
    } else {
        row_ids(s.drop_last())
    }
}

/// The numbers start at 0 and each one repeats the one before or is one more.
pub open spec fn numbered_in_order(ids: Seq<int>) -> bool {
    &&& ids.len() > 0 ==> ids[0] == 0
    &&& forall|k: int| 0 < k < ids.len() ==> #[trigger] ids[k] == ids[k - 1] || ids[k] == ids[k - 1] + 1
}

proof fn lemma_row_ids_add(a: Seq<RawLineV>, b: Seq<RawLineV>)
    ensures
        row_ids(a + b) == row_ids(a) + row_ids(b),
    decreases b.len(),
{
    if b.len() == 0 {
        assert(a + b =~= a);
        assert(row_ids(a) + row_ids(b) =~= row_ids(a));
    } else {
        lemma_row_ids_add(a, b.drop_last());
        assert((a + b).drop_last() =~= a + b.drop_last());
        assert((a + b).last() == b.last());
        assert(row_ids(a + b) =~= row_ids(a) + row_ids(b));
    }
}

proof fn lemma_row_ids_const(s: Seq<RawLineV>, v: int)
    requires
        forall|i: int| 0 <= i < s.len() ==> (#[trigger] s[i]).row is Some && row_id(s[i]) == v,
    ensures
        row_ids(s) == Seq::new(s.len(), |i: int| v),
    decreases s.len(),
{
    if s.len() > 0 {
        assert forall|i: int| 0 <= i < s.drop_last().len() implies (#[trigger] s.drop_last()[i]).row is Some && row_id(
            s.drop_last()[i],
        ) == v by {
            assert(s.drop_last()[i] == s[i]);
        }
        lemma_row_ids_const(s.drop_last(), v);
        assert(s.last() == s[s.len() - 1]);
        assert(row_ids(s) =~= Seq::new(s.len(), |i: int| v));
    }
}

proof fn lemma_row_ids_none(s: Seq<RawLineV>)
    requires
        forall|i: int| 0 <= i < s.len() ==> (#[trigger] s[i]).row is None,
    ensures
        row_ids(s) == Seq::<int>::empty(),
    decreases s.len(),
{
    if s.len() > 0 {
        assert forall|i: int| 0 <= i < s.drop_last().len() implies (#[trigger] s.drop_last()[i]).row is None by {
            assert(s.drop_last()[i] == s[i]);
        }
        lemma_row_ids_none(s.drop_last());
        assert(s.last() == s[s.len() - 1]);
    }
}

proof fn lemma_row_ids_untouched(s: Seq<RawLineV>)
    ensures
        row_ids(sanitize::unwrap::untouched(s)) == row_ids(s),
    decreases s.len(),
{
    if s.len() > 0 {
        lemma_row_ids_untouched(s.drop_last());
        let u = sanitize::unwrap::untouched(s.drop_last());
        if sanitize::unwrap::untouchable(s.last()) {
            assert(u.push(s.last()).drop_last() =~= u);
        }
    }
}

proof fn lemma_numbered_extend(a: Seq<int>, m: int, v: int)
    requires
        numbered_in_order(a),
        m >= 1,
        a.len() == 0 ==> v == 0,
        a.len() > 0 ==> a.last() == v - 1,
    ensures
        numbered_in_order(a + Seq::new(m as nat, |i: int| v)),
        (a + Seq::new(m as nat, |i: int| v)).last() == v,
{
    let s = a + Seq::new(m as nat, |i: int| v);
    assert forall|k: int| 0 < k < s.len() implies #[trigger] s[k] == s[k - 1] || s[k] == s[k - 1] + 1 by {
        if k < a.len() {
            assert(s[k] == a[k] && s[k - 1] == a[k - 1]);
        } else if k == a.len() {
            assert(s[k - 1] == a.last());
        }
    }
}

proof fn lemma_tables_fold_numbered(raws: Seq<RawLineV>, tables: Seq<TableV>, dd: Dir)
    requires
        forall|m: int| 0 <= m < raws.len() ==> (#[trigger] raws[m]).row is None,
        tables.len() <= 0x1_0000_0000,
        forall|k: int| 0 <= k < tables.len() ==> 0 <= (#[trigger] tables[k]).start < tables[k].end <= raws.len(),
        forall|k: int| 0 <= k < tables.len() ==> (#[trigger] tables[k]).rows.len() >= 1,
        forall|k: int| 0 <= k < tables.len() - 1 ==> (#[trigger] tables[k]).end <= tables[k + 1].start,
    ensures
        numbered_in_order(row_ids(tables_fold(raws, tables, dd).0)),
        tables.len() == 0 ==> row_ids(tables_fold(raws, tables, dd).0).len() == 0,
        tables.len() > 0 ==> row_ids(tables_fold(raws, tables, dd).0).len() > 0 && row_ids(
            tables_fold(raws, tables, dd).0,
        ).last() == tables.len() - 1,
    decreases tables.len(),
{
    if tables.len() > 0 {
        let init = tables.drop_last();
        assert forall|k: int| 0 <= k < init.len() implies 0 <= (#[trigger] init[k]).start < init[k].end <= raws.len()
            && init[k].rows.len() >= 1 by {
            assert(init[k] == tables[k]);
        }
        assert forall|k: int| 0 <= k < init.len() - 1 implies (#[trigger] init[k]).end <= init[k + 1].start by {
            assert(init[k] == tables[k]);
            assert(init[k + 1] == tables[k + 1]);
        }
        lemma_tables_fold_numbered(raws, init, dd);
        lemma_tables_fold_q(raws, init, dd, |r: RawLineV| true);
        let (out, next) = tables_fold(raws, init, dd);
        let t = tables.last();
        let id = tables.len() - 1;
        assert(t == tables[id]);
        if init.len() > 0 {
            assert(init.last() == tables[id - 1]);
        }
        let mid = raws.subrange(next, t.start);
        let rows = table_raws(t, id, dd);
        assert forall|i: int| 0 <= i < mid.len() implies (#[trigger] mid[i]).row is None by {
            assert(mid[i] == raws[next + i]);
        }
        assert forall|i: int| 0 <= i < rows.len() implies (#[trigger] rows[i]).row is Some && row_id(rows[i]) == id by {
            assert(rows[i] == table_raw_row(t, id, t.rows[i], dd));
        }
        lemma_row_ids_none(mid);
        lemma_row_ids_const(rows, id);
        lemma_row_ids_add(out, mid);
        lemma_row_ids_add(out + mid, rows);
        assert(row_ids(out + mid) =~= row_ids(out));
        lemma_numbered_extend(row_ids(out), rows.len() as int, id);
    }
}

proof fn lemma_fold_numbered(raws: Seq<RawLineV>, dd: Dir)
    requires
        forall|m: int| 0 <= m < raws.len() ==> (#[trigger] raws[m]).row is None,
        detect_of(candidates_of(raws)).len() <= 0x1_0000_0000,
    ensures
        numbered_in_order(row_ids(fold_tables_of(raws, dd))),
{
    let c = candidates_of(raws);
    let tables = detect_of(c);
    table::law_detected_tables_are_well_formed(c);
    if tables.len() > 0 {
        assert forall|k: int| 0 <= k < tables.len() implies 0 <= (#[trigger] tables[k]).start < tables[k].end <= raws.len()
            && tables[k].rows.len() >= 1 by {
            assert(table::table_wf(tables[k], c));
        }
        lemma_tables_fold_numbered(raws, tables, dd);
        lemma_tables_fold_q(raws, tables, dd, |r: RawLineV| true);
        let (out, next) = tables_fold(raws, tables, dd);
        assert(table::table_wf(tables[tables.len() - 1], c));
        let rest = raws.subrange(next, raws.len() as int);
        assert forall|i: int| 0 <= i < rest.len() implies (#[trigger] rest[i]).row is None by {
            assert(rest[i] == raws[next + i]);
        }
        lemma_row_ids_none(rest);
        lemma_row_ids_add(out, rest);
        assert(row_ids(out) + row_ids(rest) =~= row_ids(out));
    } else {
        lemma_row_ids_none(raws);
    }
}

/// The table lines of a line sequence, by table number.
pub open spec fn table_ids(ls: Seq<LineV>) -> Seq<int>
    decreases ls.len(),
{
    if ls.len() == 0 {
        Seq::empty()
    } else if ls.last().table is Some {
        table_ids(ls.drop_last()).push(table_id(ls.last()))
    } else {
        table_ids(ls.drop_last())
    }
}

proof fn lemma_table_ids_of_lines(raws: Seq<RawLineV>, diff: bool, dd: Dir, strip: bool)
    ensures
        table_ids(raws.map_values(|r: RawLineV| line_of(r, diff, dd, strip))) == row_ids(raws),
    decreases raws.len(),
{
    let ls = raws.map_values(|r: RawLineV| line_of(r, diff, dd, strip));
    if raws.len() > 0 {
        lemma_table_ids_of_lines(raws.drop_last(), diff, dd, strip);
        assert(ls.drop_last() =~= raws.drop_last().map_values(|r: RawLineV| line_of(r, diff, dd, strip)));
        assert(ls.last() == line_of(raws.last(), diff, dd, strip));
    }
}

/// Tables are numbered from 0 in the order they appear: the first table line belongs to
/// table 0, and each table line belongs to the same table as the table line before it or
/// to the next one. (Table numbers are `u32`, so this is said of documents with at most
/// 2^32 tables.)
pub proof fn law_tables_are_numbered_from_zero(input: Seq<char>, opts: Options, source: CaptureSource)
    requires
        table_count(input, opts) <= 0x1_0000_0000,
    ensures
        numbered_in_order(table_ids(process_of(input, opts, source).lines)),
{
    lemma_process_lines(input, opts, source);
    let (raws, diff, dd) = raws_before(input, opts);
    let text = prepared_of(input, opts);
    let splits = splits_fold(split_on(text, '\n')).0;
    assert forall|m: int| 0 <= m < raws.len() implies (#[trigger] raws[m]).row is None by {
        assert(raws[m] == raw_of(splits[m].0, splits[m].1, diff, dd));
    }
    let raws2 = if !diff { fold_tables_of(raws, dd) } else { raws };
    if !diff {
        lemma_fold_numbered(raws, dd);
    } else {
        lemma_row_ids_none(raws);
    }
    let raws3 = raws_final(input, opts);
    if opts.soft_unwrap && !diff {
        sanitize::unwrap::law_unwrap_leaves_untouchable_lines(raws2);
        lemma_row_ids_untouched(raws2);
        lemma_row_ids_untouched(raws3);
    }
    assert(row_ids(raws3) == row_ids(raws2));
    lemma_table_ids_of_lines(raws3, diff, dd, opts.strip_backticks);
}


/// Only a boxed line has a tail, and a boxed line always has one.
pub open spec fn frame_ok(r: RawLineV) -> bool {
    (r.boxed ==> r.tail.len() > 0) && (!r.boxed ==> r.tail.len() == 0)
}

/// Only a boxed split has a tail, and a boxed split always has one.
pub open spec fn split_frame_ok(sp: SplitV) -> bool {
    (sp.boxed ==> sp.tail.len() > 0) && (!sp.boxed ==> sp.tail.len() == 0)
}

proof fn lemma_splits_frames(lines: Seq<Seq<char>>)
    ensures
        forall|k: int| 0 <= k < splits_fold(lines).0.len() ==> split_frame_ok((#[trigger] splits_fold(lines).0[k]).0),
    decreases lines.len(),
{
    if lines.len() > 0 {
        let init = lines.drop_last();
        lemma_splits_frames(init);
        let st = splits_fold(init);
        match welded_of(lines.last()) {
            Some((a, b)) => {
                bidi::gutter::law_boxed_rows_have_both_edges(a);
                bidi::gutter::law_boxed_rows_have_both_edges(b);
                let s1 = add_split(st, a);
                let s2 = add_split(s1, b);
                assert forall|k: int| 0 <= k < s2.0.len() implies split_frame_ok((#[trigger] s2.0[k]).0) by {
                    if k < st.0.len() {
                        assert(s2.0[k] == st.0[k]);
                    } else if k == st.0.len() {
                        assert(s2.0[k].0 == split_of(a));
                    } else {
                        assert(s2.0[k].0 == split_of(b));
                    }
                }
            },
            None => {
                let l = lines.last();
                bidi::gutter::law_boxed_rows_have_both_edges(l);
                let s1 = add_split(st, l);
                assert forall|k: int| 0 <= k < s1.0.len() implies split_frame_ok((#[trigger] s1.0[k]).0) by {
                    if k < st.0.len() {
                        assert(s1.0[k] == st.0[k]);
                    }
                }
            },
        }
    }
}

/// Every line of a processed document has a tail exactly when it is boxed.
pub proof fn law_only_boxed_lines_have_tails(input: Seq<char>, opts: Options, source: CaptureSource)
    ensures
        forall|k: int|
            0 <= k < process_of(input, opts, source).lines.len() ==> (#[trigger] process_of(input, opts, source).lines[k]).boxed
                == (process_of(input, opts, source).lines[k].tail.len() > 0),
{
    lemma_process_lines(input, opts, source);
    let (raws, diff, dd) = raws_before(input, opts);
    let text = prepared_of(input, opts);
    let splits = splits_fold(split_on(text, '\n')).0;
    lemma_splits_frames(split_on(text, '\n'));
    let q = |r: RawLineV| frame_ok(r);
    assert forall|m: int| 0 <= m < raws.len() implies q(#[trigger] raws[m]) by {
        assert(raws[m] == raw_of(splits[m].0, splits[m].1, diff, dd));
        assert(split_frame_ok(splits[m].0));
    }
    let raws2 = if !diff { fold_tables_of(raws, dd) } else { raws };
    if !diff {
        lemma_fold_tables_q(raws, dd, q);
    }
    assert forall|i: int| 0 <= i < raws2.len() implies q(#[trigger] raws2[i]) by {}
    let raws3 = raws_final(input, opts);
    assert forall|i: int| 0 <= i < raws3.len() implies q(#[trigger] raws3[i]) by {
        if opts.soft_unwrap && !diff {
            sanitize::unwrap::law_unwrap_keeps_line_order(raws2);
            let o = sanitize::unwrap::unwrap_origin(raws2, 0);
            assert(sanitize::unwrap::alike(raws3[i], raws2[o[i]]));
            assert(q(raws2[o[i]]));
        }
    }
    let d = process_of(input, opts, source);
    assert forall|k: int| 0 <= k < d.lines.len() implies (#[trigger] d.lines[k]).boxed == (d.lines[k].tail.len() > 0) by {
        assert(d.lines[k] == line_of(raws3[k], diff, dd, opts.strip_backticks));
        assert(q(raws3[k]));
    }
}


// ------------------------------------------------------------------ isolate controls

proof fn lemma_split_on_clean(s: Seq<char>, sep: char)
    requires
        copyback::no_isolates(s),
    ensures
        forall|k: int| 0 <= k < split_on(s, sep).len() ==> copyback::no_isolates(#[trigger] split_on(s, sep)[k]),
    decreases s.len(),
{
    if s.len() > 0 {
        copyback::lemma_clean_subrange(s, 0, s.len() - 1);
        assert(s.take(s.len() - 1) =~= s.drop_last());
        lemma_split_on_clean(s.drop_last(), sep);
        text::lemma_split_on_len(s.drop_last(), sep);
        let prev = split_on(s.drop_last(), sep);
        assert(s[s.len() - 1] == s.last());
        if s.last() != sep {
            copyback::lemma_clean_add(prev.last(), seq![s.last()]);
            assert(prev.last().push(s.last()) =~= prev.last() + seq![s.last()]);
            assert(prev[prev.len() - 1] == prev.last());
        }
        let cur = split_on(s, sep);
        assert forall|k: int| 0 <= k < cur.len() implies copyback::no_isolates(#[trigger] cur[k]) by {
            if s.last() == sep {
                if k < prev.len() {
                    assert(cur[k] == prev[k]);
                } else {
                    assert(cur[k] =~= Seq::<char>::empty());
                }
            } else if k < prev.len() - 1 {
                assert(cur[k] == prev[k]);
            }
        }
    }
}

proof fn lemma_welded_clean(s: Seq<char>, i: int)
    requires
        copyback::no_isolates(s),
    ensures
        table::welded_from(s, i) matches Some((a, b)) ==> copyback::no_isolates(a) && copyback::no_isolates(b),
    decreases s.len() - i,
{
    if 0 <= i < s.len() {
        if s[i] == ' ' {
            let e = table::spaces_end(s, i);
            if e > i && e <= s.len() {
                if e - i >= 8 && e < s.len() && table::rule_of(s.skip(e)) && table::rule_count(s.skip(e)) >= 10 {
                    copyback::lemma_clean_subrange(s, i, e);
                    copyback::lemma_clean_trim(s.take(i));
                } else {
                    lemma_welded_clean(s, e);
                }
            }
        } else {
            lemma_welded_clean(s, i + 1);
        }
    }
}

/// The parts of a split carry no isolate control when its line carries none.
pub open spec fn split_clean(sp: SplitV) -> bool {
    copyback::no_isolates(sp.lead) && copyback::no_isolates(sp.content) && copyback::no_isolates(sp.tail)
}

proof fn lemma_split_of_clean(line: Seq<char>)
    requires
        copyback::no_isolates(line),
    ensures
        split_clean(split_of(line)),
{
    let le = bidi::gutter::lead_end(line);
    let ts = bidi::gutter::tail_start(line);
    bidi::gutter::lemma_split_bounds(line);
    copyback::lemma_clean_subrange(line, 0, le);
    copyback::lemma_clean_subrange(line, le, line.len() as int);
    copyback::lemma_clean_subrange(line, ts, line.len() as int);
    if bidi::gutter::is_boxed(line) {
        copyback::lemma_clean_subrange(line, le, ts);
        copyback::lemma_clean_trim(line.subrange(le, ts));
    } else {
        copyback::lemma_clean_trim(line.skip(le));
    }
}

proof fn lemma_splits_clean(lines: Seq<Seq<char>>)
    requires
        forall|k: int| 0 <= k < lines.len() ==> copyback::no_isolates(#[trigger] lines[k]),
    ensures
        forall|k: int| 0 <= k < splits_fold(lines).0.len() ==> split_clean((#[trigger] splits_fold(lines).0[k]).0),
    decreases lines.len(),
{
    if lines.len() > 0 {
        let init = lines.drop_last();
        assert forall|k: int| 0 <= k < init.len() implies copyback::no_isolates(#[trigger] init[k]) by {
            assert(init[k] == lines[k]);
        }
        lemma_splits_clean(init);
        let st = splits_fold(init);
        let l = lines.last();
        assert(copyback::no_isolates(lines[lines.len() - 1]));
        lemma_welded_clean(l, 0);
        match welded_of(l) {
            Some((a, b)) => {
                lemma_split_of_clean(a);
                lemma_split_of_clean(b);
                let s2 = add_split(add_split(st, a), b);
                assert forall|k: int| 0 <= k < s2.0.len() implies split_clean((#[trigger] s2.0[k]).0) by {
                    if k < st.0.len() {
                        assert(s2.0[k] == st.0[k]);
                    } else if k == st.0.len() {
                        assert(s2.0[k].0 == split_of(a));
                    } else {
                        assert(s2.0[k].0 == split_of(b));
                    }
                }
            },
            None => {
                lemma_split_of_clean(l);
                let s1 = add_split(st, l);
                assert forall|k: int| 0 <= k < s1.0.len() implies split_clean((#[trigger] s1.0[k]).0) by {
                    if k < st.0.len() {
                        assert(s1.0[k] == st.0[k]);
                    }
                }
            },
        }
    }
}


/// A pipeline line without isolate controls in its gutter, content, tail or table cells.
pub open spec fn raw_clean(r: RawLineV) -> bool {
    &&& copyback::no_isolates(r.lead)
    &&& copyback::no_isolates(r.content)
    &&& copyback::no_isolates(r.tail)
    &&& r.row matches Some(row) ==> forall|m: int| 0 <= m < row.cells.len() ==> copyback::no_isolates(#[trigger] row.cells[m])
}

/// A finished line without isolate controls in its gutter, tail, segments or cells.
pub open spec fn line_clean(l: LineV) -> bool {
    &&& copyback::no_isolates(l.lead)
    &&& copyback::no_isolates(l.tail)
    &&& copyback::segs_clean(l.segments)
    &&& l.table matches Some(t) ==> forall|c: int| 0 <= c < t.cells.len() ==> copyback::segs_clean(#[trigger] t.cells[c].segments)
}

proof fn lemma_nonempty_clean(cells: Seq<Seq<char>>)
    requires
        forall|m: int| 0 <= m < cells.len() ==> copyback::no_isolates(#[trigger] cells[m]),
    ensures
        forall|m: int| 0 <= m < nonempty_of(cells).len() ==> copyback::no_isolates(#[trigger] nonempty_of(cells)[m]),
    decreases cells.len(),
{
    if cells.len() > 0 {
        let init = cells.drop_last();
        assert forall|m: int| 0 <= m < init.len() implies copyback::no_isolates(#[trigger] init[m]) by {
            assert(init[m] == cells[m]);
        }
        lemma_nonempty_clean(init);
        assert(copyback::no_isolates(cells[cells.len() - 1]));
        let p = nonempty_of(init);
        if cells.last().len() > 0 {
            assert forall|m: int| 0 <= m < p.push(cells.last()).len() implies copyback::no_isolates(
                #[trigger] p.push(cells.last())[m],
            ) by {
                if m < p.len() {
                    assert(p.push(cells.last())[m] == p[m]);
                }
            }
        }
    }
}

proof fn lemma_line_of_clean(r: RawLineV, diff: bool, dd: Dir, strip: bool)
    requires
        raw_clean(r),
    ensures
        line_clean(line_of(r, diff, dd, strip)),
{
    let l = line_of(r, diff, dd, strip);
    if r.content.len() == 0 {
        assert(l.segments =~= Seq::<SegmentV>::empty());
    } else if r.in_code || diff {
        assert(l.segments == seq![SegmentV::Code(r.content)]);
    } else {
        bidi::segment::lemma_segments_clean(r.content, strip);
    }
    if let Some(row) = r.row {
        let t = row_of(row, diff, dd, strip);
        assert forall|c: int| 0 <= c < t.cells.len() implies copyback::segs_clean(#[trigger] t.cells[c].segments) by {
            assert(copyback::no_isolates(row.cells[c]));
            bidi::segment::lemma_segments_clean(row.cells[c], strip);
        }
    }
}

/// With a prepared text free of isolate controls, every line of the document is free of
/// them too: the pipeline only cuts the text, folds table cells with spaces and welds
/// lines with a space.
proof fn lemma_process_clean(input: Seq<char>, opts: Options, source: CaptureSource)
    requires
        copyback::no_isolates(prepared_of(input, opts)),
    ensures
        forall|k: int|
            0 <= k < process_of(input, opts, source).lines.len() ==> line_clean(
                #[trigger] process_of(input, opts, source).lines[k],
            ),
{
    lemma_process_lines(input, opts, source);
    let (raws, diff, dd) = raws_before(input, opts);
    let text = prepared_of(input, opts);
    let pieces = split_on(text, '\n');
    let splits = splits_fold(pieces).0;
    lemma_split_on_clean(text, '\n');
    lemma_splits_clean(pieces);
    let q = |r: RawLineV| raw_clean(r);
    assert forall|m: int| 0 <= m < raws.len() implies q(#[trigger] raws[m]) by {
        assert(raws[m] == raw_of(splits[m].0, splits[m].1, diff, dd));
        assert(split_clean(splits[m].0));
    }
    let raws2 = if !diff { fold_tables_of(raws, dd) } else { raws };
    if !diff {
        let c = candidates_of(raws);
        assert forall|k: int| 0 <= k < c.len() implies copyback::no_isolates(#[trigger] c[k].text) by {
            assert(q(raws[k]));
            copyback::lemma_clean_add(raws[k].lead, raws[k].content);
        }
        table::lemma_detect_clean(c);
        let tables = detect_of(c);
        assert forall|k: int, j: int| 0 <= k < tables.len() && 0 <= j < tables[k].rows.len() implies q(
            #[trigger] table_raw_row(tables[k], k, tables[k].rows[j], dd),
        ) by {
            assert(table::rows_clean(tables[k].rows));
            let cells = tables[k].rows[j].cells;
            assert forall|m: int| 0 <= m < cells.len() implies copyback::no_isolates(#[trigger] cells[m]) by {
                assert(copyback::no_isolates(tables[k].rows[j].cells[m]));
            }
            lemma_nonempty_clean(cells);
            let two = seq![' ', ' '];
            assert(copyback::no_isolates(two)) by {
                assert forall|i: int| 0 <= i < two.len() implies !copyback::is_isolate(#[trigger] two[i]) by {}
            }
            copyback::lemma_clean_join(nonempty_of(cells), seq![' ', ' ']);
            assert(copyback::no_isolates(Seq::<char>::empty()));
        }
        lemma_fold_tables_q(raws, dd, q);
    }
    assert forall|i: int| 0 <= i < raws2.len() implies q(#[trigger] raws2[i]) by {}
    let raws3 = raws_final(input, opts);
    assert forall|i: int| 0 <= i < raws3.len() implies q(#[trigger] raws3[i]) by {
        if opts.soft_unwrap && !diff {
            sanitize::unwrap::law_unwrap_keeps_line_order(raws2);
            assert(sanitize::unwrap::contents_clean(raws2)) by {
                assert forall|k: int| 0 <= k < raws2.len() implies copyback::no_isolates((#[trigger] raws2[k]).content) by {
                    assert(q(raws2[k]));
                }
            }
            sanitize::unwrap::lemma_unwrap_clean(raws2);
            let o = sanitize::unwrap::unwrap_origin(raws2, 0);
            assert(sanitize::unwrap::alike(raws3[i], raws2[o[i]]));
            assert(q(raws2[o[i]]));
            assert(copyback::no_isolates(raws3[i].content));
        }
    }
    let d = process_of(input, opts, source);
    assert forall|k: int| 0 <= k < d.lines.len() implies line_clean(#[trigger] d.lines[k]) by {
        assert(d.lines[k] == line_of(raws3[k], diff, dd, opts.strip_backticks));
        assert(q(raws3[k]));
        lemma_line_of_clean(raws3[k], diff, dd, opts.strip_backticks);
    }
}


/// With a prepared text free of isolate controls, every chunk of the document is one whose
/// bidi-safe copy shows what its plain copy shows.
proof fn lemma_processed_chunks_show_plain(input: Seq<char>, opts: Options, source: CaptureSource)
    requires
        copyback::no_isolates(prepared_of(input, opts)),
    ensures
        forall|k: int|
            0 <= k < chunks_of(process_of(input, opts, source).lines).len() ==> copyback::chunk_shows_plain(
                #[trigger] chunks_of(process_of(input, opts, source).lines)[k],
            ),
{
    let lines = process_of(input, opts, source).lines;
    lemma_process_clean(input, opts, source);
    law_only_boxed_lines_have_tails(input, opts, source);
    model::law_chunks_follow_the_lines(lines);
    let cs = chunks_of(lines);
    assert forall|k: int| 0 <= k < cs.len() implies copyback::chunk_shows_plain(#[trigger] cs[k]) by {
        let at = model::chunks_len(cs.take(k));
        assert(model::chunk_at(cs[k], lines, at));
        match cs[k] {
            ChunkV::Line(l) => {
                assert(line_clean(lines[at]));
                assert(lines[at].boxed == (lines[at].tail.len() > 0));
            },
            ChunkV::Table(rows) => {
                assert forall|m: int, c: int| 0 <= m < rows.len() && 0 <= c < rows[m].cells.len() implies copyback::segs_clean(
                    #[trigger] rows[m].cells[c].segments,
                ) by {
                    assert(lines[at + m].table == Some(rows[m]));
                    assert(line_clean(lines[at + m]));
                }
            },
        }
    }
}

} // verus!
