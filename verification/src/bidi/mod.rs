//! Direction resolution and line structure.

use vstd::prelude::*;
use crate::model::{Dir, Sep};

pub mod direction;
pub mod gutter;
pub mod segment;

verus! {

/// A line after structural splitting but before inline segmentation.
#[derive(Debug, Clone, PartialEq, Eq)]
pub struct RawLine {
    pub lead: String,
    pub content: String,
    pub tail: String,
    pub boxed: bool,
    pub in_code: bool,
    pub dir: Dir,
    /// One row of a detected table: the cells as text, plus the table-wide facts needed to
    /// rebuild it.
    pub row: Option<RawRow>,
}

/// A table row before its cells have been given directions and segmented.
#[derive(Debug, Clone, PartialEq, Eq)]
pub struct RawRow {
    pub id: u32,
    pub columns: usize,
    pub dir: Dir,
    pub head: bool,
    pub framed: bool,
    pub sep: Sep,
    pub cells: Vec<String>,
    /// Per-column direction, so a column aligns to one edge for its whole height.
    pub align: Vec<Dir>,
}

pub struct RawRowV {
    pub id: u32,
    pub columns: usize,
    pub dir: Dir,
    pub head: bool,
    pub framed: bool,
    pub sep: Sep,
    pub cells: Seq<Seq<char>>,
    pub align: Seq<Dir>,
}

impl View for RawRow {
    type V = RawRowV;

    open spec fn view(&self) -> RawRowV {
        RawRowV {
            id: self.id,
            columns: self.columns,
            dir: self.dir,
            head: self.head,
            framed: self.framed,
            sep: self.sep,
            cells: self.cells@.map_values(|s: String| s@),
            align: self.align@,
        }
    }
}

pub struct RawLineV {
    pub lead: Seq<char>,
    pub content: Seq<char>,
    pub tail: Seq<char>,
    pub boxed: bool,
    pub in_code: bool,
    pub dir: Dir,
    pub row: Option<RawRowV>,
}

pub open spec fn opt_raw_row_view(r: Option<RawRow>) -> Option<RawRowV> {
    match r {
        Some(x) => Some(x@),
        None => None,
    }
}

impl View for RawLine {
    type V = RawLineV;

    open spec fn view(&self) -> RawLineV {
        RawLineV {
            lead: self.lead@,
            content: self.content@,
            tail: self.tail@,
            boxed: self.boxed,
            in_code: self.in_code,
            dir: self.dir,
            row: opt_raw_row_view(self.row),
        }
    }
}

pub open spec fn raw_lines_view(v: Seq<RawLine>) -> Seq<RawLineV> {
    v.map_values(|l: RawLine| l@)
}

/// A copy of a vector of strings.
pub fn clone_strings(v: &Vec<String>) -> (r: Vec<String>)
    ensures
        r@.map_values(|s: String| s@) == v@.map_values(|s: String| s@),
{
    let mut out: Vec<String> = Vec::new();
    let mut i: usize = 0;
    while i < v.len()
        invariant
            i <= v@.len(),
            out@.map_values(|s: String| s@) == v@.map_values(|s: String| s@).take(i as int),
        decreases v@.len() - i,
    {
        let s = v[i].clone();
        let ghost before = out@;
        out.push(s);
        assert(out@.map_values(|s: String| s@) =~= before.map_values(|s: String| s@).push(s@));
        i += 1;
        assert(v@.map_values(|s: String| s@).take(i as int) =~= v@.map_values(|s: String| s@).take(
            i - 1,
        ).push(v@[i - 1]@));
    }
    assert(v@.map_values(|s: String| s@).take(v@.len() as int) =~= v@.map_values(|s: String| s@));
    out
}

/// A copy of a vector of directions.
pub fn clone_dirs(v: &Vec<Dir>) -> (r: Vec<Dir>)
    ensures
        r@ == v@,
{
    let mut out: Vec<Dir> = Vec::new();
    let mut i: usize = 0;
    while i < v.len()
        invariant
            i <= v@.len(),
            out@ == v@.take(i as int),
        decreases v@.len() - i,
    {
        out.push(v[i]);
        i += 1;
        assert(out@ =~= v@.take(i as int));
    }
    assert(v@.take(v@.len() as int) =~= v@);
    out
}

impl RawRow {
    /// A copy with the same view.
    pub fn duplicate(&self) -> (r: RawRow)
        ensures
            r@ == self@,
    {
        RawRow {
            id: self.id,
            columns: self.columns,
            dir: self.dir,
            head: self.head,
            framed: self.framed,
            sep: self.sep,
            cells: clone_strings(&self.cells),
            align: clone_dirs(&self.align),
        }
    }
}

impl RawLine {
    /// A copy with the same view.
    pub fn duplicate(&self) -> (r: RawLine)
        ensures
            r@ == self@,
    {
        RawLine {
            lead: self.lead.clone(),
            content: self.content.clone(),
            tail: self.tail.clone(),
            boxed: self.boxed,
            in_code: self.in_code,
            dir: self.dir,
            row: match &self.row {
                Some(r) => Some(r.duplicate()),
                None => None,
            },
        }
    }
}

} // verus!
