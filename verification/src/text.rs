//! Character-level helpers shared by every stage of the engine.
//!
//! The engine reasons about text as sequences of `char`s. The predicates here are the
//! Unicode properties std defines on `char` (`is_whitespace`, `is_control`, ...), written
//! out from their definitions, and the `str` operations the pipeline relies on (`trim`,
//! `split`, `lines`, `starts_with`), each with the sequence it returns.

use vstd::prelude::*;
use vstd::std_specs::iter::IteratorSpec;

verus! {

// ---------------------------------------------------------------------- conversions

/// The characters of a string slice, in order.
pub fn chars_of(s: &str) -> (r: Vec<char>)
    ensures
        r@ == s@,
{
    let mut out: Vec<char> = Vec::new();
    for c in it: s.chars()
        invariant
            out@ == it.seq().take(it.index() as int),
    {
        out.push(c);
    }
    out
}

/// `FromIterator<char> for String`: a `String` holding exactly the given characters.
#[verifier::external_body]
pub(crate) fn string_of(v: &[char]) -> (r: String)
    ensures
        r@ == v@,
{
    v.iter().collect()
}

/// A copy of a slice of characters.
pub fn copy_chars(v: &[char]) -> (r: Vec<char>)
    ensures
        r@ == v@,
{
    let mut out: Vec<char> = Vec::new();
    let mut i: usize = 0;
    while i < v.len()
        invariant
            i <= v@.len(),
            out@ == v@.take(i as int),
        decreases v@.len() - i,
    {
        out.push(v[i]);
        i += 1;
        assert(out@ =~= v@.take(i as int));
    }
    assert(v@.take(v@.len() as int) =~= v@);
    out
}

/// Append every character of `src` to `dst`.
pub fn push_all(dst: &mut Vec<char>, src: &[char])
    ensures
        final(dst)@ == old(dst)@ + src@,
{
    let mut i: usize = 0;
    while i < src.len()
        invariant
            i <= src@.len(),
            dst@ == old(dst)@ + src@.take(i as int),
        decreases src@.len() - i,
    {
        dst.push(src[i]);
        i += 1;
        assert(dst@ =~= old(dst)@ + src@.take(i as int));
    }
    assert(src@.take(src@.len() as int) =~= src@);
}

/// The characters `v[from..to]`.
pub fn slice_chars(v: &[char], from: usize, to: usize) -> (r: Vec<char>)
    requires
        from <= to <= v@.len(),
    ensures
        r@ == v@.subrange(from as int, to as int),
{
    let mut out: Vec<char> = Vec::new();
    let mut i: usize = from;
    while i < to
        invariant
            from <= i <= to <= v@.len(),
            out@ == v@.subrange(from as int, i as int),
        decreases to - i,
    {
        out.push(v[i]);
        i += 1;
        assert(out@ =~= v@.subrange(from as int, i as int));
    }
    out
}

/// `n` copies of `c`.
pub open spec fn repeat(c: char, n: nat) -> Seq<char> {
    Seq::new(n, |i: int| c)
}

/// Append `n` copies of `c`.
pub fn push_repeat(dst: &mut Vec<char>, c: char, n: usize)
    ensures
        final(dst)@ == old(dst)@ + repeat(c, n as nat),
{
    let mut i: usize = 0;
    while i < n
        invariant
            i <= n,
            dst@ == old(dst)@ + repeat(c, i as nat),
        decreases n - i,
    {
        dst.push(c);
        i += 1;
        assert(dst@ =~= old(dst)@ + repeat(c, i as nat));
    }
}

// ---------------------------------------------------------------------- char classes

/// Unicode `White_Space`, the property `char::is_whitespace` tests.
pub open spec fn is_ws(c: char) -> bool {
    let u = c as u32;
    (0x09 <= u <= 0x0D) || u == 0x20 || u == 0x85 || u == 0xA0 || u == 0x1680 || (0x2000 <= u
        <= 0x200A) || u == 0x2028 || u == 0x2029 || u == 0x202F || u == 0x205F || u == 0x3000
}

/// `char::is_whitespace`.
pub fn is_whitespace(c: char) -> (r: bool)
    ensures
        r == is_ws(c),
{
    let u = c as u32;
    (0x09 <= u && u <= 0x0D) || u == 0x20 || u == 0x85 || u == 0xA0 || u == 0x1680 || (0x2000 <= u
        && u <= 0x200A) || u == 0x2028 || u == 0x2029 || u == 0x202F || u == 0x205F || u == 0x3000
}

/// General category `Cc`, the property `char::is_control` tests.
pub open spec fn is_cc(c: char) -> bool {
    let u = c as u32;
    u <= 0x1F || (0x7F <= u <= 0x9F)
}

/// `char::is_control`.
pub fn is_control(c: char) -> (r: bool)
    ensures
        r == is_cc(c),
{
    let u = c as u32;
    u <= 0x1F || (0x7F <= u && u <= 0x9F)
}

/// `char::is_ascii_digit`.
pub open spec fn is_digit(c: char) -> bool {
    '0' <= c <= '9'
}

pub fn is_ascii_digit(c: char) -> (r: bool)
    ensures
        r == is_digit(c),
{
    '0' <= c && c <= '9'
}

// ---------------------------------------------------------------------- predicates on text

/// Every character is whitespace (vacuously true of the empty text).
pub open spec fn all_ws(s: Seq<char>) -> bool {
    forall|i: int| 0 <= i < s.len() ==> is_ws(#[trigger] s[i])
}

pub fn all_whitespace(s: &[char]) -> (r: bool)
    ensures
        r == all_ws(s@),
{
    let mut i: usize = 0;
    while i < s.len()
        invariant
            i <= s@.len(),
            forall|k: int| 0 <= k < i ==> is_ws(#[trigger] s@[k]),
        decreases s@.len() - i,
    {
        if !is_whitespace(s[i]) {
            return false;
        }
        i += 1;
    }
    true
}

/// `s` contains the character `c`.
pub fn has_char(s: &[char], c: char) -> (r: bool)
    ensures
        r == s@.contains(c),
{
    let mut i: usize = 0;
    while i < s.len()
        invariant
            i <= s@.len(),
            forall|k: int| 0 <= k < i ==> s@[k] != c,
        decreases s@.len() - i,
    {
        if s[i] == c {
            return true;
        }
        i += 1;
    }
    false
}

/// `s` begins with `p`.
pub open spec fn starts(s: Seq<char>, p: Seq<char>) -> bool {
    p.len() <= s.len() && s.take(p.len() as int) == p
}

/// `s` ends with `p`.
pub open spec fn ends(s: Seq<char>, p: Seq<char>) -> bool {
    p.len() <= s.len() && s.skip(s.len() - p.len()) == p
}

pub fn starts_with(s: &[char], p: &[char]) -> (r: bool)
    ensures
        r == starts(s@, p@),
{
    if p.len() > s.len() {
        return false;
    }
    let mut i: usize = 0;
    while i < p.len()
        invariant
            p@.len() <= s@.len(),
            i <= p@.len(),
            forall|k: int| 0 <= k < i ==> s@[k] == p@[k],
        decreases p@.len() - i,
    {
        if s[i] != p[i] {
            assert(s@.take(p@.len() as int)[i as int] != p@[i as int]);
            return false;
        }
        i += 1;
    }
    assert(s@.take(p@.len() as int) =~= p@);
    true
}

/// `s` begins with the string `p`.
pub fn starts_with_str(s: &[char], p: &str) -> (r: bool)
    ensures
        r == starts(s@, p@),
{
    let pc = chars_of(p);
    starts_with(s, &pc)
}

// ---------------------------------------------------------------------- trimming

/// Length of `s` once trailing whitespace is removed.
pub open spec fn trimmed_end_len(s: Seq<char>) -> nat
    decreases s.len(),
{
    if s.len() == 0 {
        0
    } else if is_ws(s.last()) {
        trimmed_end_len(s.drop_last())
    } else {
        s.len()
    }
}

/// Number of leading whitespace characters.
pub open spec fn leading_ws(s: Seq<char>) -> nat
    decreases s.len(),
{
    if s.len() == 0 {
        0
    } else if is_ws(s[0]) {
        1 + leading_ws(s.drop_first())
    } else {
        0
    }
}

/// `str::trim_end`.
pub open spec fn trim_end(s: Seq<char>) -> Seq<char> {
    s.take(trimmed_end_len(s) as int)
}

/// `str::trim_start`.
pub open spec fn trim_start(s: Seq<char>) -> Seq<char> {
    s.skip(leading_ws(s) as int)
}

/// `str::trim`.
pub open spec fn trim(s: Seq<char>) -> Seq<char> {
    trim_end(trim_start(s))
}

pub proof fn lemma_trimmed_end_len(s: Seq<char>)
    ensures
        trimmed_end_len(s) <= s.len(),
        forall|k: int| trimmed_end_len(s) <= k < s.len() ==> is_ws(#[trigger] s[k]),
        trimmed_end_len(s) > 0 ==> !is_ws(s[trimmed_end_len(s) - 1]),
    decreases s.len(),
{
    if s.len() > 0 && is_ws(s.last()) {
        lemma_trimmed_end_len(s.drop_last());
        assert forall|k: int| trimmed_end_len(s) <= k < s.len() implies is_ws(#[trigger] s[k]) by {
            if k < s.len() - 1 {
                assert(s[k] == s.drop_last()[k]);
            }
        }
    }
}

pub proof fn lemma_leading_ws(s: Seq<char>)
    ensures
        leading_ws(s) <= s.len(),
        forall|k: int| 0 <= k < leading_ws(s) ==> is_ws(#[trigger] s[k]),
        leading_ws(s) < s.len() ==> !is_ws(s[leading_ws(s) as int]),
    decreases s.len(),
{
    if s.len() > 0 && is_ws(s[0]) {
        lemma_leading_ws(s.drop_first());
        assert forall|k: int| 0 <= k < leading_ws(s) implies is_ws(#[trigger] s[k]) by {
            if k > 0 {
                assert(s[k] == s.drop_first()[k - 1]);
            }
        }
    }
}

/// Characterisation: the trimmed-end length is the end of the last non-whitespace char.
pub proof fn lemma_trimmed_end_len_unique(s: Seq<char>, n: int)
    requires
        0 <= n <= s.len(),
        forall|k: int| n <= k < s.len() ==> is_ws(#[trigger] s[k]),
        n > 0 ==> !is_ws(s[n - 1]),
    ensures
        trimmed_end_len(s) == n,
    decreases s.len(),
{
    if s.len() > n {
        assert(is_ws(s[s.len() - 1]));
        lemma_trimmed_end_len_unique(s.drop_last(), n);
    }
}

/// Characterisation: the number of leading whitespace chars.
pub proof fn lemma_leading_ws_unique(s: Seq<char>, n: int)
    requires
        0 <= n <= s.len(),
        forall|k: int| 0 <= k < n ==> is_ws(#[trigger] s[k]),
        n < s.len() ==> !is_ws(s[n]),
    ensures
        leading_ws(s) == n,
    decreases s.len(),
{
    if n > 0 {
        assert(is_ws(s[0]));
        assert forall|k: int| 0 <= k < n - 1 implies is_ws(#[trigger] s.drop_first()[k]) by {
            assert(s.drop_first()[k] == s[k + 1]);
        }
        if n - 1 < s.drop_first().len() {
            assert(s.drop_first()[n - 1] == s[n]);
        }
        lemma_leading_ws_unique(s.drop_first(), n - 1);
    }
}

pub fn trim_end_len(s: &[char]) -> (r: usize)
    ensures
        r == trimmed_end_len(s@),
{
    let mut n = s.len();
    while n > 0 && is_whitespace(s[n - 1])
        invariant
            n <= s@.len(),
            forall|k: int| n <= k < s@.len() ==> is_ws(#[trigger] s@[k]),
        decreases n,
    {
        n -= 1;
    }
    proof {
        lemma_trimmed_end_len_unique(s@, n as int);
    }
    n
}

pub fn leading_ws_len(s: &[char]) -> (r: usize)
    ensures
        r == leading_ws(s@),
{
    let mut n: usize = 0;
    while n < s.len() && is_whitespace(s[n])
        invariant
            n <= s@.len(),
            forall|k: int| 0 <= k < n ==> is_ws(#[trigger] s@[k]),
        decreases s@.len() - n,
    {
        n += 1;
    }
    proof {
        lemma_leading_ws_unique(s@, n as int);
    }
    n
}

pub fn trimmed_end(s: &[char]) -> (r: Vec<char>)
    ensures
        r@ == trim_end(s@),
{
    let n = trim_end_len(s);
    proof {
        lemma_trimmed_end_len(s@);
    }
    slice_chars(s, 0, n)
}

pub fn trimmed_start(s: &[char]) -> (r: Vec<char>)
    ensures
        r@ == trim_start(s@),
{
    let n = leading_ws_len(s);
    proof {
        lemma_leading_ws(s@);
    }
    slice_chars(s, n, s.len())
}

pub fn trimmed(s: &[char]) -> (r: Vec<char>)
    ensures
        r@ == trim(s@),
{
    let t = trimmed_start(s);
    trimmed_end(&t)
}

/// A text is blank when trimming leaves nothing, i.e. it is all whitespace.
pub proof fn lemma_trim_empty_iff_all_ws(s: Seq<char>)
    ensures
        (trim(s).len() == 0) == all_ws(s),
{
    lemma_leading_ws(s);
    let t = trim_start(s);
    lemma_trimmed_end_len(t);
    if all_ws(s) {
        if leading_ws(s) < s.len() {
            assert(is_ws(s[leading_ws(s) as int]));
        }
        assert(t.len() == 0);
    } else {
        let k = choose|k: int| 0 <= k < s.len() && !is_ws(s[k]);
        assert(leading_ws(s) <= k);
        assert(t[k - leading_ws(s)] == s[k]);
        if trimmed_end_len(t) == 0 {
            assert(is_ws(t[k - leading_ws(s)]));
        }
    }
}

// ---------------------------------------------------------------------- splitting

/// `str::split(sep)`: the pieces between occurrences of `sep`, always at least one.
pub open spec fn split_on(s: Seq<char>, sep: char) -> Seq<Seq<char>>
    decreases s.len(),
{
    if s.len() == 0 {
        seq![Seq::<char>::empty()]
    } else {
        let prev = split_on(s.drop_last(), sep);
        if s.last() == sep {
            prev.push(Seq::<char>::empty())
        } else {
            prev.update(prev.len() - 1, prev.last().push(s.last()))
        }
    }
}

pub proof fn lemma_split_on_len(s: Seq<char>, sep: char)
    ensures
        split_on(s, sep).len() >= 1,
    decreases s.len(),
{
    if s.len() > 0 {
        lemma_split_on_len(s.drop_last(), sep);
    }
}

/// Split on a separator, returning each piece as its own vector.
pub fn split_chars(s: &[char], sep: char) -> (r: Vec<Vec<char>>)
    ensures
        r@.len() == split_on(s@, sep).len(),
        forall|k: int| 0 <= k < r@.len() ==> (#[trigger] r@[k])@ == split_on(s@, sep)[k],
{
    let mut out: Vec<Vec<char>> = Vec::new();
    let mut cur: Vec<char> = Vec::new();
    let mut i: usize = 0;
    while i < s.len()
        invariant
            i <= s@.len(),
            out@.len() + 1 == split_on(s@.take(i as int), sep).len(),
            forall|k: int|
                0 <= k < out@.len() ==> (#[trigger] out@[k])@ == split_on(s@.take(i as int), sep)[k],
            cur@ == split_on(s@.take(i as int), sep).last(),
        decreases s@.len() - i,
    {
        proof {
            lemma_split_on_len(s@.take(i as int), sep);
            assert(s@.take(i + 1).drop_last() =~= s@.take(i as int));
        }
        let c = s[i];
        if c == sep {
            let mut piece: Vec<char> = Vec::new();
            std::mem::swap(&mut piece, &mut cur);
            out.push(piece);
        } else {
            cur.push(c);
        }
        i += 1;
    }
    out.push(cur);
    assert(s@.take(s@.len() as int) =~= s@);
    out
}

/// `str::lines`: split on `'\n'`, drop one trailing `'\r'` from each line, and do not
/// report an empty final line after a terminating newline.
pub open spec fn strip_cr(s: Seq<char>) -> Seq<char> {
    if s.len() > 0 && s.last() == '\r' {
        s.drop_last()
    } else {
        s
    }
}

pub open spec fn lines_of(s: Seq<char>) -> Seq<Seq<char>> {
    let pieces = split_on(s, '\n');
    let kept = if s.len() == 0 {
        Seq::<Seq<char>>::empty()
    } else if s.last() == '\n' {
        pieces.drop_last()
    } else {
        pieces
    };
    kept.map_values(|p: Seq<char>| strip_cr(p))
}

pub fn lines(s: &[char]) -> (r: Vec<Vec<char>>)
    ensures
        r@.len() == lines_of(s@).len(),
        forall|k: int| 0 <= k < r@.len() ==> (#[trigger] r@[k])@ == lines_of(s@)[k],
{
    let pieces = split_chars(s, '\n');
    proof {
        lemma_split_on_len(s@, '\n');
    }
    let keep: usize = if s.len() == 0 {
        0
    } else if s[s.len() - 1] == '\n' {
        pieces.len() - 1
    } else {
        pieces.len()
    };
    let mut out: Vec<Vec<char>> = Vec::new();
    let mut i: usize = 0;
    while i < keep
        invariant
            keep <= pieces@.len(),
            pieces@.len() == split_on(s@, '\n').len(),
            forall|k: int| 0 <= k < pieces@.len() ==> (#[trigger] pieces@[k])@ == split_on(s@, '\n')[k],
            keep == lines_of(s@).len(),
            i <= keep,
            out@.len() == i,
            forall|k: int| 0 <= k < i ==> (#[trigger] out@[k])@ == lines_of(s@)[k],
        decreases keep - i,
    {
        let p = &pieces[i];
        let piece = if p.len() > 0 && p[p.len() - 1] == '\r' {
            slice_chars(p, 0, p.len() - 1)
        } else {
            copy_chars(p)
        };
        out.push(piece);
        i += 1;
    }
    out
}

/// Concatenate texts, with `sep` between consecutive ones.
pub open spec fn join(pieces: Seq<Seq<char>>, sep: Seq<char>) -> Seq<char>
    decreases pieces.len(),
{
    if pieces.len() == 0 {
        Seq::empty()
    } else if pieces.len() == 1 {
        pieces[0]
    } else {
        join(pieces.drop_last(), sep) + sep + pieces.last()
    }
}

/// Concatenate texts.
pub open spec fn concat(pieces: Seq<Seq<char>>) -> Seq<char>
    decreases pieces.len(),
{
    if pieces.len() == 0 {
        Seq::empty()
    } else {
        concat(pieces.drop_last()) + pieces.last()
    }
}

pub fn join_chars(pieces: &Vec<Vec<char>>, sep: &[char]) -> (r: Vec<char>)
    ensures
        r@ == join(pieces@.map_values(|p: Vec<char>| p@), sep@),
{
    let ghost views = pieces@.map_values(|p: Vec<char>| p@);
    let mut out: Vec<char> = Vec::new();
    let mut i: usize = 0;
    while i < pieces.len()
        invariant
            i <= pieces@.len(),
            views == pieces@.map_values(|p: Vec<char>| p@),
            out@ == join(views.take(i as int), sep@),
        decreases pieces@.len() - i,
    {
        proof {
            assert(views.take(i + 1).drop_last() =~= views.take(i as int));
        }
        if i > 0 {
            push_all(&mut out, sep);
        }
        push_all(&mut out, &pieces[i]);
        i += 1;
        proof {
            if i == 1 {
                assert(out@ =~= join(views.take(1), sep@));
            }
        }
    }
    assert(views.take(pieces@.len() as int) =~= views);
    out
}


/// The two texts are the same.
pub fn same_chars(a: &[char], b: &[char]) -> (r: bool)
    ensures
        r == (a@ == b@),
{
    if a.len() != b.len() {
        return false;
    }
    let mut i: usize = 0;
    while i < a.len()
        invariant
            i <= a@.len() == b@.len(),
            forall|k: int| 0 <= k < i ==> a@[k] == b@[k],
        decreases a@.len() - i,
    {
        if a[i] != b[i] {
            return false;
        }
        i += 1;
    }
    assert(a@ =~= b@);
    true
}


// ---------------------------------------------------------------------- numbers

/// The value of a run of decimal digits.
pub open spec fn digits_value(d: Seq<char>) -> nat
    decreases d.len(),
{
    if d.len() == 0 {
        0
    } else {
        digits_value(d.drop_last()) * 10 + (d.last() as nat - '0' as nat) as nat
    }
}

/// The digits of an unsigned number as written: past one leading `+`, if any.
pub open spec fn unsigned_digits(s: Seq<char>) -> Seq<char> {
    if s.len() > 0 && s[0] == '+' {
        s.skip(1)
    } else {
        s
    }
}

/// Every character is an ASCII digit.
pub open spec fn all_digits(d: Seq<char>) -> bool {
    forall|k: int| 0 <= k < d.len() ==> is_digit(#[trigger] d[k])
}

/// `str::parse` into an unsigned integer type whose largest value is `max`: an optional
/// `+`, then one or more ASCII digits, naming a value no larger than `max`.
pub open spec fn parse_unsigned(s: Seq<char>, max: nat) -> Option<nat> {
    let d = unsigned_digits(s);
    if d.len() > 0 && all_digits(d) && digits_value(d) <= max {
        Some(digits_value(d))
    } else {
        None
    }
}

proof fn lemma_digits_grow(d: Seq<char>, i: int)
    requires
        0 <= i <= d.len(),
        forall|k: int| 0 <= k < d.len() ==> is_digit(#[trigger] d[k]),
    ensures
        digits_value(d.take(i)) <= digits_value(d),
    decreases d.len() - i,
{
    if i < d.len() {
        lemma_digits_grow(d, i + 1);
        assert(d.take(i + 1).drop_last() =~= d.take(i));
    } else {
        assert(d.take(i) =~= d);
    }
}

/// Parse an unsigned decimal no larger than `max`, as `str::parse` does.
pub fn parse_decimal(s: &[char], max: u64) -> (r: Option<u64>)
    ensures
        r matches Some(v) ==> parse_unsigned(s@, max as nat) == Some(v as nat),
        r is None ==> parse_unsigned(s@, max as nat) is None,
{
    let start: usize = if s.len() > 0 && s[0] == '+' { 1 } else { 0 };
    let ghost d = unsigned_digits(s@);
    assert(d =~= s@.skip(start as int));
    if start >= s.len() {
        return None;
    }
    let mut v: u64 = 0;
    let mut i: usize = start;
    while i < s.len()
        invariant
            start <= i <= s@.len(),
            start < s@.len(),
            d =~= s@.skip(start as int),
            d == unsigned_digits(s@),
            v as nat == digits_value(d.take(i - start)),
            v <= max,
            forall|k: int| 0 <= k < i - start ==> is_digit(#[trigger] d[k]),
        decreases s@.len() - i,
    {
        let c = s[i];
        assert(d[i - start] == c);
        if !is_ascii_digit(c) {
            assert(!is_digit(d[i - start]));
            assert(!all_digits(d));
            assert(parse_unsigned(s@, max as nat) is None);
            return None;
        }
        let dv: u64 = (c as u32 - '0' as u32) as u64;
        assert(d.take(i - start + 1).drop_last() =~= d.take(i - start));
        assert(d.take(i - start + 1).last() == c);
        if dv > max || v > (max - dv) / 10 {
            proof {
                if dv <= max {
                    assert(v * 10 + dv > max) by (nonlinear_arith)
                        requires
                            v > (max - dv) / 10,
                            dv <= max,
                    ;
                }
                assert(digits_value(d.take(i - start + 1)) > max);
                if all_digits(d) {
                    lemma_digits_grow(d, i - start + 1);
                    assert(digits_value(d) > max);
                }
                assert(parse_unsigned(s@, max as nat) is None);
            }
            return None;
        }
        v = v * 10 + dv;
        i += 1;
    }
    assert(d.take(d.len() as int) =~= d);
    Some(v)
}


// ------------------------------------------------------------------ words

/// Length of the run of non-whitespace characters that starts the text.
pub open spec fn word_len(s: Seq<char>) -> nat
    decreases s.len(),
{
    if s.len() == 0 || is_ws(s[0]) {
        0
    } else {
        1 + word_len(s.drop_first())
    }
}

pub proof fn lemma_word_len(s: Seq<char>)
    ensures
        word_len(s) <= s.len(),
        s.len() > 0 && !is_ws(s[0]) ==> word_len(s) >= 1,
    decreases s.len(),
{
    if s.len() > 0 && !is_ws(s[0]) {
        lemma_word_len(s.drop_first());
    }
}

/// The whitespace-separated words of a text, in order (`str::split_whitespace`).
pub open spec fn words(s: Seq<char>) -> Seq<Seq<char>>
    decreases s.len(),
{
    if s.len() == 0 {
        Seq::empty()
    } else if is_ws(s[0]) {
        words(s.drop_first())
    } else {
        proof {
            lemma_word_len(s);
        }
        seq![s.take(word_len(s) as int)] + words(s.skip(word_len(s) as int))
    }
}

proof fn lemma_word_len_add(a: Seq<char>, t: Seq<char>)
    requires
        word_len(a) < a.len() || t.len() == 0 || is_ws(t[0]),
    ensures
        word_len(a + t) == word_len(a),
    decreases a.len(),
{
    if a.len() == 0 {
        assert(a + t =~= t);
    } else {
        assert((a + t)[0] == a[0]);
        if !is_ws(a[0]) {
            assert((a + t).drop_first() =~= a.drop_first() + t);
            lemma_word_len_add(a.drop_first(), t);
        }
    }
}

/// A whitespace character separates: the words on either side stay apart and stay whole.
pub proof fn lemma_words_split(a: Seq<char>, c: char, b: Seq<char>)
    requires
        is_ws(c),
    ensures
        words(a + seq![c] + b) == words(a) + words(b),
    decreases a.len(),
{
    let s = a + seq![c] + b;
    if a.len() == 0 {
        assert(s[0] == c);
        assert(s.drop_first() =~= b);
        assert(words(a) + words(b) =~= words(b));
    } else if is_ws(a[0]) {
        assert(s[0] == a[0]);
        assert(s.drop_first() =~= a.drop_first() + seq![c] + b);
        lemma_words_split(a.drop_first(), c, b);
    } else {
        assert(s[0] == a[0]);
        lemma_word_len(a);
        lemma_word_len_add(a, seq![c] + b);
        assert(s =~= a + (seq![c] + b));
        let n = word_len(a) as int;
        assert(s.take(n) =~= a.take(n));
        assert(s.skip(n) =~= a.skip(n) + seq![c] + b);
        lemma_words_split(a.skip(n), c, b);
        assert(words(a) == seq![a.take(n)] + words(a.skip(n)));
        assert(words(s) =~= words(a) + words(b));
    }
}

proof fn lemma_words_ws_tail(x: Seq<char>, w: Seq<char>)
    requires
        all_ws(w),
    ensures
        words(x + w) == words(x),
    decreases w.len(),
{
    if w.len() > 0 {
        let w0 = w.drop_last();
        assert(all_ws(w0)) by {
            assert forall|i: int| 0 <= i < w0.len() implies is_ws(#[trigger] w0[i]) by {
                assert(w0[i] == w[i]);
            }
        }
        lemma_words_ws_tail(x, w0);
        assert(is_ws(w[w.len() - 1]));
        lemma_words_split(x + w0, w.last(), Seq::empty());
        assert(x + w =~= x + w0 + seq![w.last()] + Seq::<char>::empty());
        assert(words(x + w0) + words(Seq::<char>::empty()) =~= words(x + w0));
    }
}

proof fn lemma_words_ws_head(w: Seq<char>, y: Seq<char>)
    requires
        all_ws(w),
    ensures
        words(w + y) == words(y),
    decreases w.len(),
{
    if w.len() > 0 {
        assert(is_ws(w[0]));
        assert((w + y)[0] == w[0]);
        assert((w + y).drop_first() =~= w.drop_first() + y);
        assert(all_ws(w.drop_first())) by {
            assert forall|i: int| 0 <= i < w.drop_first().len() implies is_ws(#[trigger] w.drop_first()[i]) by {
                assert(w.drop_first()[i] == w[i + 1]);
            }
        }
        lemma_words_ws_head(w.drop_first(), y);
    } else {
        assert(w + y =~= y);
    }
}

/// Trimming whitespace off either end keeps the words.
pub proof fn lemma_words_trim(s: Seq<char>)
    ensures
        words(trim_end(s)) == words(s),
        words(trim_start(s)) == words(s),
{
    lemma_trimmed_end_len(s);
    let m = trimmed_end_len(s) as int;
    let w = s.skip(m);
    assert(all_ws(w)) by {
        assert forall|i: int| 0 <= i < w.len() implies is_ws(#[trigger] w[i]) by {
            assert(w[i] == s[m + i]);
        }
    }
    assert(s =~= s.take(m) + w);
    lemma_words_ws_tail(s.take(m), w);
    lemma_leading_ws(s);
    let n = leading_ws(s) as int;
    let v = s.take(n);
    assert(all_ws(v)) by {
        assert forall|i: int| 0 <= i < v.len() implies is_ws(#[trigger] v[i]) by {
            assert(v[i] == s[i]);
        }
    }
    assert(s =~= v + s.skip(n));
    lemma_words_ws_head(v, s.skip(n));
}


/// Whitespace added at the end is trimmed away again.
pub proof fn lemma_trim_end_ws_tail(a: Seq<char>, w: Seq<char>)
    requires
        all_ws(w),
    ensures
        trim_end(a + w) == trim_end(a),
    decreases w.len(),
{
    if w.len() == 0 {
        assert(a + w =~= a);
    } else {
        let w0 = w.drop_last();
        assert(all_ws(w0)) by {
            assert forall|i: int| 0 <= i < w0.len() implies is_ws(#[trigger] w0[i]) by {
                assert(w0[i] == w[i]);
            }
        }
        lemma_trim_end_ws_tail(a, w0);
        assert((a + w).drop_last() =~= a + w0);
        assert((a + w).last() == w[w.len() - 1]);
        lemma_trimmed_end_len(a + w0);
        lemma_trimmed_end_len(a);
    }
}

/// Trimming the end twice is trimming it once.
pub proof fn lemma_trim_end_twice(s: Seq<char>)
    ensures
        trim_end(trim_end(s)) == trim_end(s),
{
    lemma_trimmed_end_len(s);
    let m = trimmed_end_len(s) as int;
    let w = s.skip(m);
    assert(all_ws(w)) by {
        assert forall|i: int| 0 <= i < w.len() implies is_ws(#[trigger] w[i]) by {
            assert(w[i] == s[m + i]);
        }
    }
    assert(s =~= s.take(m) + w);
    lemma_trim_end_ws_tail(s.take(m), w);
    assert(trim_end(s) == s.take(m));
    assert(trim_end(s.take(m)) == trim_end(s));
}

/// The whitespace trimmed off the end of a text.
pub proof fn lemma_trim_end_split(s: Seq<char>)
    ensures
        s == trim_end(s) + s.skip(trim_end(s).len() as int),
        all_ws(s.skip(trim_end(s).len() as int)),
{
    lemma_trimmed_end_len(s);
    let m = trimmed_end_len(s) as int;
    let w = s.skip(m);
    assert forall|i: int| 0 <= i < w.len() implies is_ws(#[trigger] w[i]) by {
        assert(w[i] == s[m + i]);
    }
    assert(s =~= s.take(m) + w);
}


/// Text with a visible character after some prefix: trimming the end keeps the prefix
/// whole and trims the rest.
pub proof fn lemma_trimmed_end_len_add(p: Seq<char>, q: Seq<char>)
    requires
        !all_ws(q),
    ensures
        trimmed_end_len(p + q) == p.len() + trimmed_end_len(q),
        trimmed_end_len(q) > 0,
{
    lemma_trimmed_end_len(q);
    let n = trimmed_end_len(q) as int;
    let k0 = choose|k: int| 0 <= k < q.len() && !is_ws(#[trigger] q[k]);
    if n == 0 {
        assert(is_ws(q[k0]));
    }
    let s = p + q;
    assert forall|k: int| p.len() + n <= k < s.len() implies is_ws(#[trigger] s[k]) by {
        assert(s[k] == q[k - p.len()]);
    }
    assert(s[p.len() + n - 1] == q[n - 1]);
    lemma_trimmed_end_len_unique(s, p.len() + n);
}

/// A text with a visible character has at least one word.
pub proof fn lemma_words_nonempty(s: Seq<char>)
    requires
        !all_ws(s),
    ensures
        words(s).len() >= 1,
    decreases s.len(),
{
    let k0 = choose|k: int| 0 <= k < s.len() && !is_ws(#[trigger] s[k]);
    if is_ws(s[0]) {
        assert(!all_ws(s.drop_first())) by {
            assert(!is_ws(s.drop_first()[k0 - 1]));
        }
        lemma_words_nonempty(s.drop_first());
    }
}

} // verus!
