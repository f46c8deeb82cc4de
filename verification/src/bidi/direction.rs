//! Resolve each line's base direction.
//!
//! First-strong (what HTML's `dir="auto"` implements) is wrong for the text RTLens exists
//! to handle: a Persian sentence very often opens with an English technical term. So
//! direction is resolved by *majority of word runs*, not by the first strong character,
//! with code tokens excluded from the count.

use vstd::prelude::*;
use crate::model::Dir;
use crate::text::{chars_of, is_ws, leading_ws, leading_ws_len, starts, starts_with_str};
use crate::bidi::segment::{prose_of, prose_only_chars};

verus! {

/// The `Bidi_Class` that `unicode_bidi::bidi_class` reports for `c`, as the position of the
/// returned `BidiClass` variant in its declaration (`AL` is 0, `L` is 9, `R` is 17).
pub uninterp spec fn bidi_class_code(c: char) -> u8;

/// Calls `unicode_bidi::bidi_class`. `BidiClass` is a field-less enum of 23 variants, so
/// the result is handed back as its discriminant. Claims: the code is the named value,
/// below 23, and a space is whitespace (`WS`, the table's entry for U+0020).
#[verifier::external_body]
fn bidi_class_of(c: char) -> (r: u8)
    ensures
        r == bidi_class_code(c),
        r < 23,
        c == ' ' ==> r == CLASS_WS,
{
    unicode_bidi::bidi_class(c) as u8
}

/// Discriminant of `BidiClass::AL` (Arabic letter).
pub const CLASS_AL: u8 = 0;

/// Discriminant of `BidiClass::L` (left-to-right).
pub const CLASS_L: u8 = 9;

/// Discriminant of `BidiClass::R` (right-to-left).
pub const CLASS_R: u8 = 17;

/// Discriminant of `BidiClass::WS` (whitespace).
pub const CLASS_WS: u8 = 22;

/// The direction a strong character asserts; `None` for weak and neutral characters.
pub open spec fn strong(c: char) -> Option<Dir> {
    let k = bidi_class_code(c);
    if k == CLASS_L {
        Some(Dir::Ltr)
    } else if k == CLASS_R || k == CLASS_AL {
        Some(Dir::Rtl)
    } else {
        None
    }
}

fn strong_dir(c: char) -> (r: Option<Dir>)
    ensures
        r == strong(c),
{
    let k = bidi_class_of(c);
    if k == CLASS_L {
        Some(Dir::Ltr)
    } else if k == CLASS_R || k == CLASS_AL {
        Some(Dir::Rtl)
    } else {
        None
    }
}

/// The direction of the first strong character.
pub open spec fn first_strong_of(s: Seq<char>) -> Option<Dir>
    decreases s.len(),
{
    if s.len() == 0 {
        None
    } else {
        match strong(s[0]) {
            Some(d) => Some(d),
            None => first_strong_of(s.drop_first()),
        }
    }
}

/// First-strong lookup, kept for the places where it is still the right question.
pub fn first_strong(s: &str) -> (r: Option<Dir>)
    ensures
        r == first_strong_of(s@),
{
    let c = chars_of(s);
    let mut i: usize = 0;
    assert(c@.skip(0) =~= c@);
    while i < c.len()
        invariant
            i <= c@.len(),
            c@ == s@,
            first_strong_of(s@) == first_strong_of(c@.skip(i as int)),
        decreases c@.len() - i,
    {
        assert(c@.skip(i as int)[0] == c@[i as int]);
        assert(c@.skip(i as int).drop_first() =~= c@.skip(i + 1));
        if let Some(d) = strong_dir(c[i]) {
            return Some(d);
        }
        i += 1;
    }
    assert(c@.skip(i as int).len() == 0);
    None
}

/// Zero-width non-joiner and joiner, which never split a word run.
pub open spec fn is_joiner(c: char) -> bool {
    c == '\u{200C}' || c == '\u{200D}'
}

/// Run counting as a left fold: `(ltr runs, rtl runs, direction of the current run)`.
pub open spec fn runs_state(s: Seq<char>) -> (nat, nat, Option<Dir>)
    decreases s.len(),
{
    if s.len() == 0 {
        (0, 0, None)
    } else {
        let (l, r, cur) = runs_state(s.drop_last());
        let c = s.last();
        if is_joiner(c) {
            (l, r, cur)
        } else {
            match strong(c) {
                Some(d) => if cur == Some(d) {
                    (l, r, cur)
                } else if d == Dir::Ltr {
                    (l + 1, r, Some(d))
                } else {
                    (l, r + 1, Some(d))
                },
                None => (l, r, None),
            }
        }
    }
}

/// Maximal runs of same-direction strong characters: `(ltr_runs, rtl_runs)`. Joiners are
/// skipped rather than treated as separators; any other non-strong character ends a run.
pub open spec fn runs_of(s: Seq<char>) -> (nat, nat) {
    (runs_state(s).0, runs_state(s).1)
}

proof fn lemma_runs_bound(s: Seq<char>)
    ensures
        runs_state(s).0 + runs_state(s).1 <= s.len(),
    decreases s.len(),
{
    if s.len() > 0 {
        lemma_runs_bound(s.drop_last());
    }
}

pub fn count_runs_chars(s: &[char]) -> (r: (usize, usize))
    ensures
        r.0 == runs_of(s@).0,
        r.1 == runs_of(s@).1,
{
    let mut ltr: usize = 0;
    let mut rtl: usize = 0;
    let mut current: Option<Dir> = None;
    let mut i: usize = 0;
    while i < s.len()
        invariant
            i <= s@.len(),
            (ltr as nat, rtl as nat, current) == runs_state(s@.take(i as int)),
        decreases s@.len() - i,
    {
        proof {
            assert(s@.take(i + 1).drop_last() =~= s@.take(i as int));
            lemma_runs_bound(s@.take(i as int));
        }
        let c = s[i];
        if !(c == '\u{200C}' || c == '\u{200D}') {
            match strong_dir(c) {
                Some(dir) => {
                    if current != Some(dir) {
                        match dir {
                            Dir::Ltr => ltr += 1,
                            Dir::Rtl => rtl += 1,
                        }
                        current = Some(dir);
                    }
                },
                None => current = None,
            }
        }
        i += 1;
    }
    assert(s@.take(s@.len() as int) =~= s@);
    (ltr, rtl)
}

/// Count maximal runs of same-direction strong characters: `(ltr_runs, rtl_runs)`.
pub fn count_runs(s: &str) -> (r: (usize, usize))
    ensures
        r.0 == runs_of(s@).0,
        r.1 == runs_of(s@).1,
{
    let c = chars_of(s);
    count_runs_chars(&c)
}

/// Run totals over several lines.
pub open spec fn total_runs(lines: Seq<Seq<char>>) -> (nat, nat)
    decreases lines.len(),
{
    if lines.len() == 0 {
        (0, 0)
    } else {
        let (l, r) = total_runs(lines.drop_last());
        (l + runs_of(lines.last()).0, r + runs_of(lines.last()).1)
    }
}

/// Direction of a whole capture: RTL when its lines hold more RTL runs than LTR ones.
pub open spec fn doc_dir_of(lines: Seq<Seq<char>>) -> Dir {
    if total_runs(lines).1 > total_runs(lines).0 {
        Dir::Rtl
    } else {
        Dir::Ltr
    }
}

/// The views of a sequence of strings.
pub open spec fn strings_view(v: Seq<String>) -> Seq<Seq<char>> {
    v.map_values(|s: String| s@)
}

/// Direction of a whole capture (given as character vectors).
pub fn document_dir_chars(prose_lines: &Vec<Vec<char>>) -> (r: Dir)
    ensures
        r == doc_dir_of(prose_lines@.map_values(|v: Vec<char>| v@)),
{
    let ghost views = prose_lines@.map_values(|v: Vec<char>| v@);
    let mut ltr: u128 = 0;
    let mut rtl: u128 = 0;
    let mut i: usize = 0;
    while i < prose_lines.len()
        invariant
            i <= prose_lines@.len(),
            views == prose_lines@.map_values(|v: Vec<char>| v@),
            (ltr as nat, rtl as nat) == total_runs(views.take(i as int)),
            ltr <= i * 0xFFFF_FFFF_FFFF_FFFFu128,
            rtl <= i * 0xFFFF_FFFF_FFFF_FFFFu128,
        decreases prose_lines@.len() - i,
    {
        assert(views.take(i + 1).drop_last() =~= views.take(i as int));
        let (l, r) = count_runs_chars(&prose_lines[i]);
        ltr = ltr + l as u128;
        rtl = rtl + r as u128;
        i += 1;
    }
    assert(views.take(prose_lines@.len() as int) =~= views);
    if rtl > ltr {
        Dir::Rtl
    } else {
        Dir::Ltr
    }
}

/// Direction of a whole capture, used to settle lines that cannot decide for themselves.
pub fn document_dir(prose_lines: &[String]) -> (r: Dir)
    ensures
        r == doc_dir_of(strings_view(prose_lines@)),
{
    let mut v: Vec<Vec<char>> = Vec::new();
    let mut i: usize = 0;
    while i < prose_lines.len()
        invariant
            i <= prose_lines@.len(),
            v@.map_values(|x: Vec<char>| x@) == strings_view(prose_lines@).take(i as int),
        decreases prose_lines@.len() - i,
    {
        let c = chars_of(prose_lines[i].as_str());
        let ghost before = v@;
        v.push(c);
        proof {
            assert(v@ == before.push(c));
            assert(v@.map_values(|x: Vec<char>| x@) =~= before.map_values(|x: Vec<char>| x@).push(
                c@,
            ));
            assert(strings_view(prose_lines@).take(i + 1) =~= strings_view(prose_lines@).take(
                i as int,
            ).push(prose_lines@[i as int]@));
        }
        i += 1;
    }
    assert(strings_view(prose_lines@).take(prose_lines@.len() as int) =~= strings_view(
        prose_lines@,
    ));
    document_dir_chars(&v)
}

/// Structural signals that pin a line to LTR regardless of its content.
#[derive(Debug, Clone, Copy, PartialEq, Eq, Structural)]
pub struct Context {
    /// The line sits inside a fenced code block.
    pub in_code: bool,
    /// The whole document was detected as a unified diff.
    pub diff_mode: bool,
    /// Direction of the surrounding capture, used only to break ties.
    pub doc_dir: Dir,
}

impl Default for Context {
    fn default() -> (r: Self)
        ensures
            !r.in_code,
            !r.diff_mode,
            r.doc_dir == Dir::Ltr,
    {
        Self { in_code: false, diff_mode: false, doc_dir: Dir::Ltr }
    }
}

/// A shell prompt line: after leading whitespace, `"$ "`, `"PS "`, `"➜ "` or `"❯"`.
pub open spec fn prompt_like(content: Seq<char>) -> bool {
    let t = content.skip(leading_ws(content) as int);
    starts(t, seq!['$', ' ']) || starts(t, seq!['P', 'S', ' ']) || starts(t, seq!['➜', ' '])
        || starts(t, seq!['❯'])
}

fn looks_like_prompt(content: &[char]) -> (r: bool)
    ensures
        r == prompt_like(content@),
{
    let n = leading_ws_len(content);
    proof {
        crate::text::lemma_leading_ws(content@);
    }
    let t = crate::text::slice_chars(content, n, content.len());
    let p1: Vec<char> = vec!['$', ' '];
    let p2: Vec<char> = vec!['P', 'S', ' '];
    let p3: Vec<char> = vec!['➜', ' '];
    let p4: Vec<char> = vec!['❯'];
    assert(p1@ =~= seq!['$', ' ']);
    assert(p2@ =~= seq!['P', 'S', ' ']);
    assert(p3@ =~= seq!['➜', ' ']);
    assert(p4@ =~= seq!['❯']);
    crate::text::starts_with(&t, &p1) || crate::text::starts_with(&t, &p2)
        || crate::text::starts_with(&t, &p3) || crate::text::starts_with(&t, &p4)
}

/// The direction of one line: LTR in code, in a diff and on a prompt; otherwise by
/// majority of word runs in its prose, LTR with no strong run at all, and the document's
/// direction on a tie.
pub open spec fn resolve_of(content: Seq<char>, ctx: Context) -> Dir {
    if ctx.diff_mode || ctx.in_code || prompt_like(content) {
        Dir::Ltr
    } else {
        let (l, r) = runs_of(prose_of(content));
        if r == 0 {
            Dir::Ltr
        } else if l == 0 {
            Dir::Rtl
        } else if r > l {
            Dir::Rtl
        } else if l > r {
            Dir::Ltr
        } else {
            ctx.doc_dir
        }
    }
}

pub fn resolve_chars(content: &[char], ctx: Context) -> (r: Dir)
    ensures
        r == resolve_of(content@, ctx),
{
    if ctx.diff_mode || ctx.in_code || looks_like_prompt(content) {
        return Dir::Ltr;
    }
    let prose = prose_only_chars(content);
    let (ltr, rtl) = count_runs_chars(&prose);
    if rtl == 0 {
        Dir::Ltr
    } else if ltr == 0 {
        Dir::Rtl
    } else if rtl > ltr {
        Dir::Rtl
    } else if ltr > rtl {
        Dir::Ltr
    } else {
        ctx.doc_dir
    }
}

/// Resolve the direction of one line's content.
pub fn resolve(content: &str, ctx: Context) -> (r: Dir)
    ensures
        r == resolve_of(content@, ctx),
{
    let c = chars_of(content);
    resolve_chars(&c, ctx)
}

/// Code and diff context always force a line to LTR, whatever it says.
pub proof fn law_code_and_diff_force_ltr(content: Seq<char>, ctx: Context)
    requires
        ctx.in_code || ctx.diff_mode,
    ensures
        resolve_of(content, ctx) == Dir::Ltr,
{
}

/// A line with no right-to-left run resolves LTR; a line whose only strong runs are
/// right-to-left resolves RTL unless code, diff or a prompt pins it.
pub proof fn law_one_sided_lines(content: Seq<char>, ctx: Context)
    ensures
        runs_of(prose_of(content)).1 == 0 ==> resolve_of(content, ctx) == Dir::Ltr,
        (runs_of(prose_of(content)).0 == 0 && runs_of(prose_of(content)).1 > 0 && !ctx.in_code
            && !ctx.diff_mode && !prompt_like(content)) ==> resolve_of(content, ctx) == Dir::Rtl,
{
}

/// Only a genuine tie in word runs defers to the document's direction.
pub proof fn law_ties_defer_to_document(content: Seq<char>, a: Context, b: Context)
    requires
        a.in_code == b.in_code,
        a.diff_mode == b.diff_mode,
        resolve_of(content, a) != resolve_of(content, b),
    ensures
        runs_of(prose_of(content)).0 == runs_of(prose_of(content)).1,
        runs_of(prose_of(content)).0 > 0,
        resolve_of(content, a) == a.doc_dir,
        resolve_of(content, b) == b.doc_dir,
{
}

/// Joiners never split a word: inserting a ZWNJ or ZWJ anywhere leaves the run counts as
/// they were.
pub proof fn law_joiner_does_not_split(s: Seq<char>, t: Seq<char>, j: char)
    requires
        is_joiner(j),
    ensures
        runs_of(s + seq![j] + t) == runs_of(s + t),
{
    lemma_runs_state_joiner(s, t, j);
}

proof fn lemma_runs_state_joiner(s: Seq<char>, t: Seq<char>, j: char)
    requires
        is_joiner(j),
    ensures
        runs_state(s + seq![j] + t) == runs_state(s + t),
    decreases t.len(),
{
    if t.len() == 0 {
        assert((s + seq![j] + t).drop_last() =~= s);
        assert(s + t =~= s);
    } else {
        lemma_runs_state_joiner(s, t.drop_last(), j);
        assert((s + seq![j] + t).drop_last() =~= s + seq![j] + t.drop_last());
        assert((s + t).drop_last() =~= s + t.drop_last());
    }
}


proof fn lemma_runs_after_break(p: Seq<char>, b: Seq<char>)
    requires
        runs_state(p).2 is None,
    ensures
        runs_state(p + b) == (
            runs_state(p).0 + runs_state(b).0,
            runs_state(p).1 + runs_state(b).1,
            runs_state(b).2,
        ),
    decreases b.len(),
{
    if b.len() == 0 {
        assert(p + b =~= p);
    } else {
        lemma_runs_after_break(p, b.drop_last());
        assert((p + b).drop_last() =~= p + b.drop_last());
        assert((p + b).last() == b.last());
    }
}

/// Run counts add up over lines joined by a separator that is neither strong nor a
/// joiner (a space, for one): a run never continues across the separator.
pub proof fn law_runs_add_up(a: Seq<char>, sep: char, b: Seq<char>)
    requires
        strong(sep) is None,
        !is_joiner(sep),
    ensures
        runs_of(a + seq![sep] + b) == (runs_of(a).0 + runs_of(b).0, runs_of(a).1 + runs_of(b).1),
{
    let p = a + seq![sep];
    assert(p.drop_last() =~= a);
    assert(p.last() == sep);
    lemma_runs_after_break(p, b);
}

/// Run counts add up over any two texts joined by a space: the bidi tables class a space
/// as whitespace, which is not strong, and it is no joiner, so no run continues across it.
pub fn runs_add_up_over_a_space()
    ensures
        forall|a: Seq<char>, b: Seq<char>|
            #[trigger] runs_of(a + seq![' '] + b) == (runs_of(a).0 + runs_of(b).0, runs_of(a).1 + runs_of(b).1),
{
    let k = bidi_class_of(' ');
    assert(k == CLASS_WS);
    proof {
        assert forall|a: Seq<char>, b: Seq<char>|
            #[trigger] runs_of(a + seq![' '] + b) == (runs_of(a).0 + runs_of(b).0, runs_of(a).1 + runs_of(b).1) by {
            law_runs_add_up(a, ' ', b);
        }
    }
}

/// The text with every joiner taken out.
pub open spec fn without_joiners(s: Seq<char>) -> Seq<char>
    decreases s.len(),
{
    if s.len() == 0 {
        Seq::empty()
    } else if is_joiner(s.last()) {
        without_joiners(s.drop_last())
    } else {
        without_joiners(s.drop_last()).push(s.last())
    }
}

proof fn lemma_runs_state_without_joiners(s: Seq<char>)
    ensures
        runs_state(without_joiners(s)) == runs_state(s),
    decreases s.len(),
{
    if s.len() > 0 {
        lemma_runs_state_without_joiners(s.drop_last());
        if !is_joiner(s.last()) {
            let w = without_joiners(s.drop_last()).push(s.last());
            assert(w.drop_last() =~= without_joiners(s.drop_last()));
        }
    }
}

/// Joiners never count: taking every ZWNJ and ZWJ out of a text leaves its run counts as
/// they were.
pub proof fn law_joiners_do_not_count(s: Seq<char>)
    ensures
        runs_of(without_joiners(s)) == runs_of(s),
{
    lemma_runs_state_without_joiners(s);
}

proof fn lemma_total_runs_add(a: Seq<Seq<char>>, b: Seq<Seq<char>>)
    ensures
        total_runs(a + b) == (total_runs(a).0 + total_runs(b).0, total_runs(a).1 + total_runs(b).1),
    decreases b.len(),
{
    if b.len() == 0 {
        assert(a + b =~= a);
    } else {
        lemma_total_runs_add(a, b.drop_last());
        assert((a + b).drop_last() =~= a + b.drop_last());
        assert((a + b).last() == b.last());
    }
}

/// The order of the lines never matters to the direction of the whole capture: moving a
/// block of lines to the end, or exchanging two neighbouring lines, leaves the run totals
/// and so the document direction as they were.
pub proof fn law_document_dir_ignores_order(a: Seq<Seq<char>>, b: Seq<Seq<char>>, x: Seq<char>, y: Seq<char>)
    ensures
        total_runs(a + b) == total_runs(b + a),
        doc_dir_of(a + b) == doc_dir_of(b + a),
        doc_dir_of(a + seq![x, y] + b) == doc_dir_of(a + seq![y, x] + b),
{
    lemma_total_runs_add(a, b);
    lemma_total_runs_add(b, a);
    lemma_total_runs_add(a, seq![x, y]);
    lemma_total_runs_add(a, seq![y, x]);
    lemma_total_runs_add(a + seq![x, y], b);
    lemma_total_runs_add(a + seq![y, x], b);
    lemma_total_runs_add(seq![x], seq![y]);
    lemma_total_runs_add(seq![y], seq![x]);
    assert(seq![x] + seq![y] =~= seq![x, y]);
    assert(seq![y] + seq![x] =~= seq![y, x]);
    assert(seq![x].drop_last() =~= Seq::<Seq<char>>::empty());
    assert(seq![y].drop_last() =~= Seq::<Seq<char>>::empty());
}


proof fn lemma_total_runs_perm(a: Seq<Seq<char>>, b: Seq<Seq<char>>)
    requires
        a.to_multiset() == b.to_multiset(),
    ensures
        total_runs(a) == total_runs(b),
    decreases a.len(),
{
    broadcast use vstd::seq_lib::group_to_multiset_ensures, vstd::multiset::group_multiset_axioms;

    if a.len() == 0 {
        assert(b.to_multiset().len() == 0);
        assert(b =~= Seq::<Seq<char>>::empty());
    } else {
        let x = a.last();
        let a0 = a.drop_last();
        assert(a0.push(x) =~= a);
        assert(a.to_multiset() =~= a0.to_multiset().insert(x));
        assert(b.to_multiset().count(x) > 0);
        assert(b.contains(x));
        let j = choose|j: int| 0 <= j < b.len() && b[j] == x;
        let b0 = b.remove(j);
        assert(b0.to_multiset() =~= b.to_multiset().remove(x));
        assert(a0.to_multiset() =~= b0.to_multiset());
        lemma_total_runs_perm(a0, b0);
        let l = b.take(j);
        let r = b.skip(j + 1);
        assert(b0 =~= l + r);
        assert(b =~= l + seq![x] + r);
        lemma_total_runs_add(l, r);
        lemma_total_runs_add(l, seq![x]);
        lemma_total_runs_add(l + seq![x], r);
        assert(seq![x].drop_last() =~= Seq::<Seq<char>>::empty());
        assert(seq![x].last() == x);
        assert(total_runs(Seq::<Seq<char>>::empty()) == (0nat, 0nat));
        assert(total_runs(seq![x].drop_last()) == (0nat, 0nat));
        assert(total_runs(seq![x]) == (runs_of(x).0, runs_of(x).1));
        assert(a.drop_last() == a0);
        assert(total_runs(a) == (total_runs(a0).0 + runs_of(x).0, total_runs(a0).1 + runs_of(x).1));
        assert(total_runs(b) == (total_runs(l).0 + runs_of(x).0 + total_runs(r).0, total_runs(l).1 + runs_of(x).1
            + total_runs(r).1));
    }
}

/// The direction of a capture does not depend on the order of its lines: any reordering
/// of the same lines (the same lines, each as often) has the same run totals and so the
/// same document direction.
pub proof fn law_document_dir_ignores_any_order(a: Seq<Seq<char>>, b: Seq<Seq<char>>)
    requires
        a.to_multiset() == b.to_multiset(),
    ensures
        total_runs(a) == total_runs(b),
        doc_dir_of(a) == doc_dir_of(b),
{
    lemma_total_runs_perm(a, b);
}


proof fn lemma_runs_all_rtl(s: Seq<char>)
    requires
        s.len() > 0,
        forall|k: int| 0 <= k < s.len() ==> (#[trigger] bidi_class_code(s[k]) == CLASS_R || bidi_class_code(s[k]) == CLASS_AL) && !is_joiner(s[k]),
    ensures
        runs_state(s) == (0nat, 1nat, Some(Dir::Rtl)),
    decreases s.len(),
{
    let c = s.last();
    assert((bidi_class_code(s[s.len() - 1]) == CLASS_R || bidi_class_code(s[s.len() - 1]) == CLASS_AL) && !is_joiner(s[s.len() - 1]));
    if s.len() > 1 {
        let init = s.drop_last();
        assert forall|k: int| 0 <= k < init.len() implies (#[trigger] bidi_class_code(init[k]) == CLASS_R || bidi_class_code(init[k]) == CLASS_AL) && !is_joiner(init[k]) by {
            assert(init[k] == s[k]);
        }
        lemma_runs_all_rtl(init);
    } else {
        assert(s.drop_last().len() == 0);
        assert(runs_state(s.drop_last()) == (0nat, 0nat, None::<Dir>));
    }
    assert(strong(c) == Some(Dir::Rtl));
}

/// What a character's Bidi_Class makes of it: `L` is strong left-to-right, `R` and `AL`
/// (Hebrew and Arabic letters) are strong right-to-left, every other class is not strong.
/// So a text made only of `R` and `AL` letters (no joiners) is one right-to-left run and no
/// left-to-right run, and a capture of such lines reads right to left.
pub proof fn law_strong_classes(c: char, s: Seq<char>, lines: Seq<Seq<char>>)
    ensures
        bidi_class_code(c) == CLASS_L ==> strong(c) == Some(Dir::Ltr),
        bidi_class_code(c) == CLASS_R || bidi_class_code(c) == CLASS_AL ==> strong(c) == Some(Dir::Rtl),
        bidi_class_code(c) != CLASS_L && bidi_class_code(c) != CLASS_R && bidi_class_code(c) != CLASS_AL
            ==> strong(c) is None,
        s.len() > 0 && (forall|k: int|
            0 <= k < s.len() ==> (#[trigger] bidi_class_code(s[k]) == CLASS_R || bidi_class_code(s[k]) == CLASS_AL) && !is_joiner(s[k]))
            ==> runs_of(s) == (0nat, 1nat),
        lines.len() > 0 && (forall|i: int, k: int|
            0 <= i < lines.len() && 0 <= k < lines[i].len() ==> (#[trigger] bidi_class_code(lines[i][k]) == CLASS_R
                || bidi_class_code(lines[i][k]) == CLASS_AL) && !is_joiner(lines[i][k])) && (forall|i: int|
            0 <= i < lines.len() ==> (#[trigger] lines[i]).len() > 0) ==> doc_dir_of(lines) == Dir::Rtl,
{
    if s.len() > 0 && (forall|k: int|
        0 <= k < s.len() ==> (#[trigger] bidi_class_code(s[k]) == CLASS_R || bidi_class_code(s[k]) == CLASS_AL) && !is_joiner(s[k])) {
        lemma_runs_all_rtl(s);
    }
    if lines.len() > 0 && (forall|i: int, k: int|
        0 <= i < lines.len() && 0 <= k < lines[i].len() ==> (#[trigger] bidi_class_code(lines[i][k]) == CLASS_R
            || bidi_class_code(lines[i][k]) == CLASS_AL) && !is_joiner(lines[i][k])) && (forall|i: int|
        0 <= i < lines.len() ==> (#[trigger] lines[i]).len() > 0) {
        lemma_total_all_rtl(lines);
    }
}

proof fn lemma_total_all_rtl(lines: Seq<Seq<char>>)
    requires
        forall|i: int, k: int|
            0 <= i < lines.len() && 0 <= k < lines[i].len() ==> (#[trigger] bidi_class_code(lines[i][k]) == CLASS_R
                || bidi_class_code(lines[i][k]) == CLASS_AL) && !is_joiner(lines[i][k]),
        forall|i: int| 0 <= i < lines.len() ==> (#[trigger] lines[i]).len() > 0,
    ensures
        total_runs(lines) == (0nat, lines.len()),
    decreases lines.len(),
{
    if lines.len() > 0 {
        let init = lines.drop_last();
        assert forall|i: int, k: int| 0 <= i < init.len() && 0 <= k < init[i].len() implies (#[trigger] bidi_class_code(init[i][k]) == CLASS_R
            || bidi_class_code(init[i][k]) == CLASS_AL) && !is_joiner(init[i][k]) by {
            assert(init[i] == lines[i]);
        }
        assert forall|i: int| 0 <= i < init.len() implies (#[trigger] init[i]).len() > 0 by {
            assert(init[i] == lines[i]);
        }
        lemma_total_all_rtl(init);
        let l = lines.last();
        assert(l == lines[lines.len() - 1]);
        assert forall|k: int| 0 <= k < l.len() implies (#[trigger] bidi_class_code(l[k]) == CLASS_R || bidi_class_code(l[k]) == CLASS_AL) && !is_joiner(l[k]) by {
            assert((bidi_class_code(lines[lines.len() - 1][k]) == CLASS_R || bidi_class_code(lines[lines.len() - 1][k]) == CLASS_AL) && !is_joiner(lines[lines.len() - 1][k]));
        }
        lemma_runs_all_rtl(l);
    }
}

} // verus!
