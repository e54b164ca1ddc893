//! Character-indexed text: positions ([`TextPos`]), line starts, editing
//! (insertion and range rewriting), typing prefixes and highlight ranges.
//!
//! Every index here counts Unicode scalar values (`char`s), never bytes.

use vstd::prelude::*;

verus! {

/// The characters of a string, in order.
pub fn chars_of(text: &str) -> (v: Vec<char>)
    ensures
        v@ == text@,
{
    let mut v: Vec<char> = Vec::new();
    for c in it: text.chars()
        invariant
            it.seq() == text@,
            v@ == text@.take(it.index() as int),
    {
        v.push(c);
        assert(text@.take(it.index() + 1) == text@.take(it.index() as int).push(c));
    }
    assert(text@.take(text@.len() as int) == text@);
    v
}

/// Appends one character to a string with `String::push`.
#[verifier::external_body]
fn push_char(s: &mut String, c: char)
    ensures
        final(s)@ == old(s)@.push(c),
{
    s.push(c);
}

/// Appends the characters `chars[from..to]` to `out`.
fn push_range(out: &mut String, chars: &Vec<char>, from: usize, to: usize)
    requires
        from <= to <= chars@.len(),
    ensures
        final(out)@ == old(out)@ + chars@.subrange(from as int, to as int),
{
    let mut i = from;
    while i < to
        invariant
            from <= i <= to <= chars@.len(),
            out@ == old(out)@ + chars@.subrange(from as int, i as int),
        decreases to - i,
    {
        push_char(out, chars[i]);
        assert(chars@.subrange(from as int, i + 1) == chars@.subrange(from as int, i as int).push(
            chars@[i as int],
        ));
        i += 1;
    }
}

/// A string made of the characters `chars`.
pub fn string_of(chars: &Vec<char>) -> (s: String)
    ensures
        s@ == chars@,
{
    let mut s = String::new();
    push_range(&mut s, chars, 0, chars.len());
    assert(chars@.subrange(0, chars@.len() as int) == chars@);
    s
}

/// `a` followed by `b`.
pub fn concat(a: &str, b: &str) -> (s: String)
    ensures
        s@ == a@ + b@,
{
    let mut s = a.to_owned();
    let tail = chars_of(b);
    push_range(&mut s, &tail, 0, tail.len());
    assert(tail@.subrange(0, tail@.len() as int) == tail@);
    s
}

/// A position in the text, used as a bound of a half-open character range.
#[derive(Copy, Clone, Debug, PartialEq, Eq, Structural)]
pub enum TextPos {
    /// A character index (0-based), clamped to the text length.
    Char(usize),
    /// The start of line `n` (0-based): the boundary before its first
    /// character. A line past the last one is the end of the text.
    Line(usize),
    /// The end of the text.
    End,
}

impl vstd::std_specs::convert::FromSpecImpl<usize> for TextPos {
    open spec fn obeys_from_spec() -> bool {
        true
    }

    open spec fn from_spec(v: usize) -> TextPos {
        TextPos::Char(v)
    }
}

impl From<usize> for TextPos {
    fn from(i: usize) -> (p: TextPos)
        ensures
            p == TextPos::Char(i),
    {
        TextPos::Char(i)
    }
}

/// The position of the start of line `n` (0-based).
pub fn line(n: usize) -> (p: TextPos)
    ensures
        p == TextPos::Line(n),
{
    TextPos::Line(n)
}

/// The position of the end of the text.
pub fn infinite() -> (p: TextPos)
    ensures
        p == TextPos::End,
{
    TextPos::End
}

/// The number of `'\n'` characters in `s`.
pub open spec fn newline_count(s: Seq<char>) -> nat
    decreases s.len(),
{
    if s.len() == 0 {
        0
    } else {
        newline_count(s.drop_last()) + if s.last() == '\n' {
            1nat
        } else {
            0nat
        }
    }
}

/// The first position `k >= from` before which at least `n` newlines occur;
/// the text length when there is none.
pub open spec fn first_position_after_newlines(s: Seq<char>, n: nat, from: int) -> int
    decreases s.len() - from,
{
    if from >= s.len() {
        s.len() as int
    } else if newline_count(s.take(from)) >= n {
        from
    } else {
        first_position_after_newlines(s, n, from + 1)
    }
}

/// The character index where line `n` (0-based) starts: the position just
/// after the `n`-th newline, or the end of the text when there are fewer.
pub open spec fn line_start_spec(s: Seq<char>, n: nat) -> int {
    first_position_after_newlines(s, n, 0)
}

/// The character index a position stands for in `s`.
pub open spec fn resolve_spec(p: TextPos, s: Seq<char>) -> int {
    match p {
        TextPos::Char(i) => if i < s.len() {
            i as int
        } else {
            s.len() as int
        },
        TextPos::Line(n) => line_start_spec(s, n as nat),
        TextPos::End => s.len() as int,
    }
}

proof fn lemma_newline_count_step(s: Seq<char>, i: int)
    requires
        0 <= i < s.len(),
    ensures
        newline_count(s.take(i + 1)) == newline_count(s.take(i)) + if s[i] == '\n' {
            1nat
        } else {
            0nat
        },
{
    assert(s.take(i + 1).drop_last() == s.take(i));
}

proof fn lemma_first_position_bounds(s: Seq<char>, n: nat, from: int)
    requires
        0 <= from,
    ensures
        from <= s.len() ==> from <= first_position_after_newlines(s, n, from) <= s.len(),
        from > s.len() ==> first_position_after_newlines(s, n, from) == s.len(),
    decreases s.len() - from,
{
    if from < s.len() && newline_count(s.take(from)) < n {
        lemma_first_position_bounds(s, n, from + 1);
    }
}

/// Line starts lie within the text.
pub proof fn lemma_line_start_in_text(s: Seq<char>, n: nat)
    ensures
        0 <= line_start_spec(s, n) <= s.len(),
{
    lemma_first_position_bounds(s, n, 0);
}

/// The character index of the first character of line `line` (0-based): just
/// after the `line`-th `'\n'`; the text length past the last line.
pub fn line_start_char(text: &str, line: usize) -> (k: usize)
    ensures
        k == line_start_spec(text@, line as nat),
{
    let chars = chars_of(text);
    line_start_in(&chars, line)
}

fn line_start_in(chars: &Vec<char>, line: usize) -> (k: usize)
    ensures
        k == line_start_spec(chars@, line as nat),
{
    let ghost s = chars@;
    if line == 0 {
        assert(s.take(0) == Seq::<char>::empty());
        return 0;
    }
    let mut seen: usize = 0;
    let mut i: usize = 0;
    while i < chars.len()
        invariant
            s == chars@,
            0 <= i <= s.len(),
            line > 0,
            seen == newline_count(s.take(i as int)),
            seen < line,
            line_start_spec(s, line as nat) == first_position_after_newlines(s, line as nat, i as int),
        decreases s.len() - i,
    {
        proof {
            lemma_newline_count_step(s, i as int);
        }
        assert(first_position_after_newlines(s, line as nat, i as int) == first_position_after_newlines(
            s,
            line as nat,
            i + 1,
        ));
        if chars[i] == '\n' {
            seen += 1;
            if seen == line {
                assert(first_position_after_newlines(s, line as nat, i + 1) == i + 1);
                return i + 1;
            }
        }
        i += 1;
    }
    chars.len()
}

impl TextPos {
    /// The character index this position stands for in `text`, within
    /// `[0, length]`.
    pub fn resolve(self, text: &str) -> (k: usize)
        ensures
            k == resolve_spec(self, text@),
    {
        let chars = chars_of(text);
        self.resolve_in(&chars)
    }

    fn resolve_in(self, chars: &Vec<char>) -> (k: usize)
        ensures
            k == resolve_spec(self, chars@),
    {
        let count = chars.len();
        match self {
            TextPos::Char(i) => if i < count {
                i
            } else {
                count
            },
            TextPos::Line(n) => {
                let k = line_start_in(chars, n);
                proof {
                    lemma_line_start_in_text(chars@, n as nat);
                }
                k
            },
            TextPos::End => count,
        }
    }
}

/// `text` with `ins` inserted before character `k`.
pub open spec fn insert_spec(text: Seq<char>, k: int, ins: Seq<char>) -> Seq<char> {
    text.take(k) + ins + text.skip(k)
}

/// Inserts `ins` before the character at `char_index` (clamped to the text
/// length), returning a new string.
pub fn insert_at(text: &str, char_index: usize, ins: &str) -> (out: String)
    ensures
        out@ == insert_spec(
            text@,
            if char_index < text@.len() {
                char_index as int
            } else {
                text@.len() as int
            },
            ins@,
        ),
{
    let chars = chars_of(text);
    let extra = chars_of(ins);
    let at = if char_index < chars.len() {
        char_index
    } else {
        chars.len()
    };
    let mut out = String::new();
    push_range(&mut out, &chars, 0, at);
    push_range(&mut out, &extra, 0, extra.len());
    push_range(&mut out, &chars, at, chars.len());
    assert(extra@.subrange(0, extra@.len() as int) == extra@);
    assert(chars@.subrange(0, at as int) == chars@.take(at as int));
    assert(chars@.subrange(at as int, chars@.len() as int) == chars@.skip(at as int));
    out
}

/// The ordered character range `[a, b)` that two positions resolve to.
pub open spec fn ordered_range(from: TextPos, to: TextPos, s: Seq<char>) -> (int, int) {
    let a = resolve_spec(from, s);
    let b = resolve_spec(to, s);
    if a > b {
        (b, a)
    } else {
        (a, b)
    }
}

/// `text` with the characters `[a, b)` replaced by `ins`.
pub open spec fn rewrite_spec(text: Seq<char>, a: int, b: int, ins: Seq<char>) -> Seq<char> {
    text.take(a) + ins + text.skip(b)
}

/// Replaces the half-open character range `[from, to)` with `ins`. The
/// bounds are resolved against `text` and swapped when reversed.
pub fn rewrite_range(text: &str, from: TextPos, to: TextPos, ins: &str) -> (out: String)
    ensures
        out@ == rewrite_spec(
            text@,
            ordered_range(from, to, text@).0,
            ordered_range(from, to, text@).1,
            ins@,
        ),
{
    let chars = chars_of(text);
    let extra = chars_of(ins);
    let mut a = from.resolve_in(&chars);
    let mut b = to.resolve_in(&chars);
    proof {
        lemma_resolve_in_text(from, chars@);
        lemma_resolve_in_text(to, chars@);
    }
    if a > b {
        let t = a;
        a = b;
        b = t;
    }
    let mut out = String::new();
    push_range(&mut out, &chars, 0, a);
    push_range(&mut out, &extra, 0, extra.len());
    push_range(&mut out, &chars, b, chars.len());
    assert(extra@.subrange(0, extra@.len() as int) == extra@);
    assert(chars@.subrange(0, a as int) == chars@.take(a as int));
    assert(chars@.subrange(b as int, chars@.len() as int) == chars@.skip(b as int));
    out
}

/// `k` is the length of the longest common prefix of `a` and `b`.
pub open spec fn is_common_prefix_len(a: Seq<char>, b: Seq<char>, k: int) -> bool {
    &&& 0 <= k <= a.len()
    &&& k <= b.len()
    &&& a.take(k) == b.take(k)
    &&& (k == a.len() || k == b.len() || a[k] != b[k])
}

/// The length of the common prefix of two strings, in characters.
pub fn common_prefix_chars(a: &str, b: &str) -> (k: usize)
    ensures
        is_common_prefix_len(a@, b@, k as int),
{
    let x = chars_of(a);
    let y = chars_of(b);
    let mut k: usize = 0;
    while k < x.len() && k < y.len() && x[k] == y[k]
        invariant
            k <= x@.len(),
            k <= y@.len(),
            x@.take(k as int) == y@.take(k as int),
        decreases x@.len() - k,
    {
        assert(x@.take(k + 1) == x@.take(k as int).push(x@[k as int]));
        assert(y@.take(k + 1) == y@.take(k as int).push(y@[k as int]));
        k += 1;
    }
    k
}

/// The first `count` characters of `text` (all of it when shorter).
pub fn prefix_chars(text: &str, count: usize) -> (out: String)
    ensures
        out@ == text@.take(if count < text@.len() {
            count as int
        } else {
            text@.len() as int
        }),
{
    let chars = chars_of(text);
    let n = if count < chars.len() {
        count
    } else {
        chars.len()
    };
    let mut out = String::new();
    push_range(&mut out, &chars, 0, n);
    assert(chars@.subrange(0, n as int) == chars@.take(n as int));
    out
}

/// Whether index `i` lies in at least one half-open range `[a, b)`.
pub open spec fn in_ranges_spec(i: int, ranges: Seq<(usize, usize)>) -> bool {
    exists|j: int| 0 <= j < ranges.len() && (#[trigger] ranges[j]).0 <= i < ranges[j].1
}

/// Whether the character at index `i` falls into at least one half-open range
/// `[a, b)`.
pub fn in_ranges(i: usize, ranges: &[(usize, usize)]) -> (r: bool)
    ensures
        r == in_ranges_spec(i as int, ranges@),
{
    let mut j: usize = 0;
    while j < ranges.len()
        invariant
            0 <= j <= ranges@.len(),
            forall|t: int| 0 <= t < j ==> !((#[trigger] ranges@[t]).0 <= i < ranges@[t].1),
        decreases ranges@.len() - j,
    {
        let (a, b) = ranges[j];
        if i >= a && i < b {
            return true;
        }
        j += 1;
    }
    false
}

/// Whether the character at index `i` is drawn at full strength: when no
/// range is highlighted at all, or when it lies in one of them. Every other
/// character is dimmed.
pub fn is_highlighted(i: usize, ranges: &[(usize, usize)]) -> (r: bool)
    ensures
        r == (ranges@.len() == 0 || in_ranges_spec(i as int, ranges@)),
{
    ranges.len() == 0 || in_ranges(i, ranges)
}

/// The ordered character ranges that highlight bounds resolve to in `s`.
pub open spec fn resolved_ranges_spec(ranges: Seq<(TextPos, TextPos)>, s: Seq<char>) -> Seq<(usize, usize)> {
    Seq::new(
        ranges.len(),
        |j: int|
            (
                ordered_range(ranges[j].0, ranges[j].1, s).0 as usize,
                ordered_range(ranges[j].0, ranges[j].1, s).1 as usize,
            ),
    )
}

/// Resolves highlight bounds into half-open `[a, b)` character indices of
/// `text`, ordering the bounds of each range.
pub fn resolve_ranges(ranges: &[(TextPos, TextPos)], text: &str) -> (out: Vec<(usize, usize)>)
    ensures
        out@ == resolved_ranges_spec(ranges@, text@),
        forall|j: int|
            0 <= j < out@.len() ==> (#[trigger] out@[j]).0 <= out@[j].1 <= text@.len(),
{
    let chars = chars_of(text);
    let mut out: Vec<(usize, usize)> = Vec::new();
    let mut j: usize = 0;
    while j < ranges.len()
        invariant
            chars@ == text@,
            0 <= j <= ranges@.len(),
            out@.len() == j,
            forall|t: int|
                0 <= t < j ==> #[trigger] out@[t] == resolved_ranges_spec(ranges@, text@)[t],
            forall|t: int| 0 <= t < j ==> (#[trigger] out@[t]).0 <= out@[t].1 <= text@.len(),
        decreases ranges@.len() - j,
    {
        let (from, to) = ranges[j];
        let mut a = from.resolve_in(&chars);
        let mut b = to.resolve_in(&chars);
        if a > b {
            let t = a;
            a = b;
            b = t;
        }
        proof {
            lemma_resolve_in_text(from, text@);
            lemma_resolve_in_text(to, text@);
        }
        out.push((a, b));
        j += 1;
    }
    assert(out@ =~= resolved_ranges_spec(ranges@, text@));
    out
}

/// A position always resolves inside the text.
pub proof fn lemma_resolve_in_text(p: TextPos, s: Seq<char>)
    ensures
        0 <= resolve_spec(p, s) <= s.len(),
{
    match p {
        TextPos::Line(n) => lemma_line_start_in_text(s, n as nat),
        _ => {},
    }
}

/// Reversed bounds rewrite the same range: `rewrite_range(t, p, q, x)` and
/// `rewrite_range(t, q, p, x)` give the same text.
pub proof fn lemma_rewrite_bounds_commute(text: Seq<char>, from: TextPos, to: TextPos, ins: Seq<char>)
    ensures
        ordered_range(from, to, text) == ordered_range(to, from, text),
        rewrite_spec(text, ordered_range(from, to, text).0, ordered_range(from, to, text).1, ins)
            == rewrite_spec(text, ordered_range(to, from, text).0, ordered_range(to, from, text).1, ins),
{
}

/// A rewrite keeps the text before and after the range and puts `ins` in its
/// place: an insertion is the rewrite of an empty range.
pub proof fn lemma_rewrite_keeps_outside(text: Seq<char>, from: TextPos, to: TextPos, ins: Seq<char>)
    ensures
        ({
            let (a, b) = ordered_range(from, to, text);
            let out = rewrite_spec(text, a, b, ins);
            &&& 0 <= a <= b <= text.len()
            &&& out.len() == text.len() - (b - a) + ins.len()
            &&& out.take(a) == text.take(a)
            &&& out.subrange(a, a + ins.len()) == ins
            &&& out.skip(a + ins.len()) == text.skip(b)
        }),
        forall|k: int| 0 <= k <= text.len() ==> #[trigger] insert_spec(text, k, ins) == rewrite_spec(text, k, k, ins),
{
    lemma_resolve_in_text(from, text);
    lemma_resolve_in_text(to, text);
    let (a, b) = ordered_range(from, to, text);
    let out = rewrite_spec(text, a, b, ins);
    assert(out.take(a) =~= text.take(a));
    assert(out.subrange(a, a + ins.len()) =~= ins);
    assert(out.skip(a + ins.len()) =~= text.skip(b));
}

} // verus!
