//! The per-character diff behind the text morph: the longest common substring
//! of two character sequences, and the divide-and-conquer split of `from` →
//! `to` into common anchors and replaced regions.

use vstd::prelude::*;

verus! {

/// The length of the longest common suffix of `a[..i]` and `b[..j]`.
pub open spec fn suffix_len(a: Seq<char>, b: Seq<char>, i: int, j: int) -> nat
    decreases i,
{
    if i <= 0 || j <= 0 || i > a.len() || j > b.len() || a[i - 1] != b[j - 1] {
        0
    } else {
        1 + suffix_len(a, b, i - 1, j - 1)
    }
}

/// The end pair `(p, q)` comes before `(i, j)` in row-major order.
pub open spec fn lex_before(p: int, q: int, i: int, j: int) -> bool {
    p < i || (p == i && q < j)
}

/// Every pair of end positions `1 <= p <= a.len()`, `1 <= q <= b.len()`.
pub open spec fn is_end_pair(a: Seq<char>, b: Seq<char>, p: int, q: int) -> bool {
    1 <= p <= a.len() && 1 <= q <= b.len()
}

/// `r = (start in a, start in b, length)` is the longest common substring of
/// `a` and `b` that ends first in row-major order of its end positions:
/// `(0, 0, 0)` when there are no common characters.
pub open spec fn is_lcs_choice(a: Seq<char>, b: Seq<char>, r: (int, int, int)) -> bool {
    let (sa, sb, len) = r;
    &&& len >= 0
    &&& forall|p: int, q: int| is_end_pair(a, b, p, q) ==> #[trigger] suffix_len(a, b, p, q) <= len
    &&& len == 0 ==> sa == 0 && sb == 0
    &&& len > 0 ==> {
        &&& is_end_pair(a, b, sa + len, sb + len)
        &&& sa >= 0 && sb >= 0
        &&& suffix_len(a, b, sa + len, sb + len) == len
        &&& forall|p: int, q: int|
            is_end_pair(a, b, p, q) && lex_before(p, q, sa + len, sb + len) ==> #[trigger] suffix_len(
                a,
                b,
                p,
                q,
            ) < len
    }
}

/// The longest common substring of `a` and `b` (see [`is_lcs_choice`]).
pub open spec fn lcs_spec(a: Seq<char>, b: Seq<char>) -> (int, int, int) {
    choose|r: (int, int, int)| is_lcs_choice(a, b, r)
}

/// A common suffix of length `k` really is common, and is never longer than
/// either prefix.
pub proof fn lemma_suffix_len_common(a: Seq<char>, b: Seq<char>, i: int, j: int)
    requires
        0 <= i <= a.len(),
        0 <= j <= b.len(),
    ensures
        suffix_len(a, b, i, j) <= i,
        suffix_len(a, b, i, j) <= j,
        a.subrange(i - suffix_len(a, b, i, j), i) == b.subrange(j - suffix_len(a, b, i, j), j),
    decreases i,
{
    if i == 0 || j == 0 || a[i - 1] != b[j - 1] {
    } else {
        lemma_suffix_len_common(a, b, i - 1, j - 1);
        let k = suffix_len(a, b, i - 1, j - 1);
        assert(a.subrange(i - (k + 1), i) == a.subrange(i - 1 - k, i - 1).push(a[i - 1]));
        assert(b.subrange(j - (k + 1), j) == b.subrange(j - 1 - k, j - 1).push(b[j - 1]));
    }
}

/// At most one triple is the longest common substring of two sequences.
pub proof fn lemma_lcs_choice_unique(a: Seq<char>, b: Seq<char>, r: (int, int, int), s: (int, int, int))
    requires
        is_lcs_choice(a, b, r),
        is_lcs_choice(a, b, s),
    ensures
        r == s,
{
    if r.2 > 0 {
        assert(suffix_len(a, b, r.0 + r.2, r.1 + r.2) <= s.2);
    }
    if s.2 > 0 {
        assert(suffix_len(a, b, s.0 + s.2, s.1 + s.2) <= r.2);
    }
    if r.2 > 0 && s.2 > 0 {
        assert(r.2 == s.2);
        let (ri, rj) = (r.0 + r.2, r.1 + r.2);
        let (si, sj) = (s.0 + s.2, s.1 + s.2);
        if lex_before(ri, rj, si, sj) {
            assert(suffix_len(a, b, ri, rj) < s.2);
        } else if lex_before(si, sj, ri, rj) {
            assert(suffix_len(a, b, si, sj) < r.2);
        }
    }
}

/// The triple that a verified search returns is the one [`lcs_spec`] names.
pub proof fn lemma_lcs_spec_is(a: Seq<char>, b: Seq<char>, r: (int, int, int))
    requires
        is_lcs_choice(a, b, r),
    ensures
        lcs_spec(a, b) == r,
{
    lemma_lcs_choice_unique(a, b, lcs_spec(a, b), r);
}

/// The best-so-far state of the row-major scan over end pairs before `(i, j)`.
pub open spec fn scan_state(a: Seq<char>, b: Seq<char>, i: int, j: int, r: (int, int, int)) -> bool {
    let (sa, sb, len) = r;
    &&& len >= 0
    &&& forall|p: int, q: int|
        is_end_pair(a, b, p, q) && lex_before(p, q, i, j) ==> #[trigger] suffix_len(a, b, p, q) <= len
    &&& len == 0 ==> sa == 0 && sb == 0
    &&& len > 0 ==> {
        &&& is_end_pair(a, b, sa + len, sb + len)
        &&& sa >= 0 && sb >= 0
        &&& lex_before(sa + len, sb + len, i, j)
        &&& suffix_len(a, b, sa + len, sb + len) == len
        &&& forall|p: int, q: int|
            is_end_pair(a, b, p, q) && lex_before(p, q, sa + len, sb + len) ==> #[trigger] suffix_len(
                a,
                b,
                p,
                q,
            ) < len
    }
}

/// The longest common substring of `a` and `b`: `(start in a, start in b,
/// length)`, the one whose end comes first in row-major order; `(0, 0, 0)`
/// when there are no common characters. A dynamic program over the two
/// sequences in `O(|a|·|b|)`.
pub fn longest_common_substring(a: &[char], b: &[char]) -> (r: (usize, usize, usize))
    requires
        a@.len() < usize::MAX,
        b@.len() < usize::MAX,
    ensures
        is_lcs_choice(a@, b@, (r.0 as int, r.1 as int, r.2 as int)),
        r.0 + r.2 <= a@.len(),
        r.1 + r.2 <= b@.len(),
{
    let la = a.len();
    let lb = b.len();
    let ghost sa = a@;
    let ghost sb = b@;
    if la == 0 || lb == 0 {
        return (0, 0, 0);
    }
    let mut best_a: usize = 0;
    let mut best_b: usize = 0;
    let mut best: usize = 0;
    let mut prev: Vec<usize> = vec![0usize; lb + 1];
    let mut curr: Vec<usize> = vec![0usize; lb + 1];
    let mut i: usize = 1;
    while i <= la
        invariant
            sa == a@,
            sb == b@,
            la == sa.len(),
            lb == sb.len(),
            lb < usize::MAX,
            la < usize::MAX,
            1 <= i <= la + 1,
            prev@.len() == lb + 1,
            curr@.len() == lb + 1,
            curr@[0] == 0,
            forall|q: int| 0 <= q <= lb ==> #[trigger] prev@[q] == suffix_len(sa, sb, i - 1, q),
            scan_state(sa, sb, i as int, 1, (best_a as int, best_b as int, best as int)),
        decreases la + 1 - i,
    {
        let mut j: usize = 1;
        while j <= lb
            invariant
                sa == a@,
                sb == b@,
                la == sa.len(),
                lb == sb.len(),
                lb < usize::MAX,
                1 <= i <= la,
                1 <= j <= lb + 1,
                prev@.len() == lb + 1,
                curr@.len() == lb + 1,
                curr@[0] == 0,
                forall|q: int| 0 <= q <= lb ==> #[trigger] prev@[q] == suffix_len(sa, sb, i - 1, q),
                forall|q: int| 1 <= q < j ==> #[trigger] curr@[q] == suffix_len(sa, sb, i as int, q),
                scan_state(sa, sb, i as int, j as int, (best_a as int, best_b as int, best as int)),
            decreases lb + 1 - j,
        {
            proof {
                lemma_suffix_len_common(sa, sb, i - 1, j - 1);
            }
            let v: usize = if a[i - 1] == b[j - 1] {
                prev[j - 1] + 1
            } else {
                0
            };
            assert(v == suffix_len(sa, sb, i as int, j as int));
            curr.set(j, v);
            let ghost old_state = (best_a as int, best_b as int, best as int);
            if v > best {
                best = v;
                best_a = i - v;
                best_b = j - v;
            }
            proof {
                let r = (best_a as int, best_b as int, best as int);
                assert forall|p: int, q: int|
                    is_end_pair(sa, sb, p, q) && lex_before(p, q, i as int, j + 1) implies #[trigger] suffix_len(
                    sa,
                    sb,
                    p,
                    q,
                ) <= r.2 by {
                    if lex_before(p, q, i as int, j as int) {
                        assert(suffix_len(sa, sb, p, q) <= old_state.2);
                    } else {
                        assert(p == i && q == j);
                    }
                }
                if r.2 > 0 {
                    assert forall|p: int, q: int|
                        is_end_pair(sa, sb, p, q) && lex_before(p, q, r.0 + r.2, r.1 + r.2) implies #[trigger] suffix_len(
                        sa,
                        sb,
                        p,
                        q,
                    ) < r.2 by {
                        if v > old_state.2 {
                            assert(lex_before(p, q, i as int, j as int));
                            assert(suffix_len(sa, sb, p, q) <= old_state.2);
                        }
                    }
                }
            }
            j += 1;
        }
        proof {
            let r = (best_a as int, best_b as int, best as int);
            assert forall|p: int, q: int|
                is_end_pair(sa, sb, p, q) && lex_before(p, q, i + 1, 1) implies #[trigger] suffix_len(
                sa,
                sb,
                p,
                q,
            ) <= r.2 by {
                assert(lex_before(p, q, i as int, lb + 1));
            }
        }
        std::mem::swap(&mut prev, &mut curr);
        assert forall|q: int| 0 <= q <= lb implies #[trigger] prev@[q] == suffix_len(sa, sb, i as int, q) by {
            if q == 0 {
            }
        }
        assert(curr@[0] == suffix_len(sa, sb, i - 1, 0));
        i += 1;
    }
    proof {
        let r = (best_a as int, best_b as int, best as int);
        assert forall|p: int, q: int| is_end_pair(sa, sb, p, q) implies #[trigger] suffix_len(sa, sb, p, q) <= r.2 by {
            assert(lex_before(p, q, la + 1, 1));
        }
    }
    (best_a, best_b, best)
}

/// A step of the per-character diff `from` → `to`.
#[derive(Copy, Clone, Debug, PartialEq, Eq, Structural)]
pub enum DiffOp {
    /// `len` characters that match in both texts, starting at index `a` in
    /// `from` and `b` in `to`.
    Common { a: usize, b: usize, len: usize },
    /// `alen` characters of `from` (from index `a`) replaced by `blen`
    /// characters of `to` (from index `b`); either length may be zero.
    Replace { a: usize, alen: usize, b: usize, blen: usize },
}

/// The shortest common run that counts as an anchor rather than a chance
/// match of a letter or two.
pub const MIN_COMMON_RUN: usize = 3;

/// The diff of `a` → `b` whose indices are offset by `ai`/`bi`: split around
/// the longest common substring when it is an anchor (at least
/// [`MIN_COMMON_RUN`] long, or all of both sides), diffing the parts to its
/// left and right the same way; otherwise one replacement of everything.
pub open spec fn diff_spec(a: Seq<char>, b: Seq<char>, ai: int, bi: int) -> Seq<DiffOp>
    decreases a.len() + b.len(),
{
    if a.len() == 0 && b.len() == 0 {
        Seq::empty()
    } else {
        let (la, lb, len) = lcs_spec(a, b);
        let whole = len == a.len() && len == b.len();
        if len <= 0 || la < 0 || lb < 0 || la + len > a.len() || lb + len > b.len() || (len
            < MIN_COMMON_RUN && !whole) {
            seq![
                DiffOp::Replace {
                    a: ai as usize,
                    alen: a.len() as usize,
                    b: bi as usize,
                    blen: b.len() as usize,
                },
            ]
        } else {
            diff_spec(a.take(la), b.take(lb), ai, bi) + seq![
                DiffOp::Common { a: (ai + la) as usize, b: (bi + lb) as usize, len: len as usize },
            ] + diff_spec(a.skip(la + len), b.skip(lb + len), ai + la + len, bi + lb + len)
        }
    }
}

/// The characters `v[lo..hi]` as a new vector.
fn sub_vec(v: &[char], lo: usize, hi: usize) -> (out: Vec<char>)
    requires
        lo <= hi <= v@.len(),
    ensures
        out@ == v@.subrange(lo as int, hi as int),
{
    let mut out: Vec<char> = Vec::new();
    let mut i = lo;
    while i < hi
        invariant
            lo <= i <= hi <= v@.len(),
            out@ == v@.subrange(lo as int, i as int),
        decreases hi - i,
    {
        out.push(v[i]);
        assert(v@.subrange(lo as int, i + 1) == v@.subrange(lo as int, i as int).push(v@[i as int]));
        i += 1;
    }
    out
}

/// Appends to `out` the diff `a` → `b` (see [`diff_spec`]); `ai`/`bi` are the
/// offsets of `a`/`b` in the whole texts, added to every index.
pub fn diff_runs(a: &[char], b: &[char], ai: usize, bi: usize, out: &mut Vec<DiffOp>)
    requires
        a@.len() < usize::MAX,
        b@.len() < usize::MAX,
        ai + a@.len() <= usize::MAX,
        bi + b@.len() <= usize::MAX,
    ensures
        final(out)@ == old(out)@ + diff_spec(a@, b@, ai as int, bi as int),
    decreases a@.len() + b@.len(),
{
    if a.len() == 0 && b.len() == 0 {
        assert(old(out)@ + Seq::<DiffOp>::empty() == old(out)@);
        return;
    }
    let (la, lb, len) = longest_common_substring(a, b);
    proof {
        lemma_lcs_spec_is(a@, b@, (la as int, lb as int, len as int));
    }
    let whole = len == a.len() && len == b.len();
    if len == 0 || (len < MIN_COMMON_RUN && !whole) {
        out.push(DiffOp::Replace { a: ai, alen: a.len(), b: bi, blen: b.len() });
        return;
    }
    let left_a = sub_vec(a, 0, la);
    let left_b = sub_vec(b, 0, lb);
    assert(left_a@ == a@.take(la as int));
    assert(left_b@ == b@.take(lb as int));
    diff_runs(left_a.as_slice(), left_b.as_slice(), ai, bi, out);
    out.push(DiffOp::Common { a: ai + la, b: bi + lb, len });
    let right_a = sub_vec(a, la + len, a.len());
    let right_b = sub_vec(b, lb + len, b.len());
    assert(right_a@ == a@.skip(la + len));
    assert(right_b@ == b@.skip(lb + len));
    diff_runs(right_a.as_slice(), right_b.as_slice(), ai + la + len, bi + lb + len, out);
}

// ----- Laws --------------------------------------------------------------

/// The characters of `from` that an operation covers.
pub open spec fn op_from_part(op: DiffOp, from: Seq<char>) -> Seq<char> {
    match op {
        DiffOp::Common { a, len, .. } => from.subrange(a as int, a + len),
        DiffOp::Replace { a, alen, .. } => from.subrange(a as int, a + alen),
    }
}

/// The characters of `to` that an operation covers.
pub open spec fn op_to_part(op: DiffOp, to: Seq<char>) -> Seq<char> {
    match op {
        DiffOp::Common { b, len, .. } => to.subrange(b as int, b + len),
        DiffOp::Replace { b, blen, .. } => to.subrange(b as int, b + blen),
    }
}

/// The `from` parts of the operations, concatenated in order.
pub open spec fn ops_from_text(ops: Seq<DiffOp>, from: Seq<char>) -> Seq<char>
    decreases ops.len(),
{
    if ops.len() == 0 {
        Seq::empty()
    } else {
        ops_from_text(ops.drop_last(), from) + op_from_part(ops.last(), from)
    }
}

/// The `to` parts of the operations, concatenated in order.
pub open spec fn ops_to_text(ops: Seq<DiffOp>, to: Seq<char>) -> Seq<char>
    decreases ops.len(),
{
    if ops.len() == 0 {
        Seq::empty()
    } else {
        ops_to_text(ops.drop_last(), to) + op_to_part(ops.last(), to)
    }
}

/// A common operation really covers equal characters on both sides.
pub open spec fn common_ops_match(ops: Seq<DiffOp>, from: Seq<char>, to: Seq<char>) -> bool {
    forall|k: int|
        0 <= k < ops.len() ==> match #[trigger] ops[k] {
            DiffOp::Common { .. } => op_from_part(ops[k], from) == op_to_part(ops[k], to),
            _ => true,
        }
}

proof fn lemma_ops_text_concat(x: Seq<DiffOp>, y: Seq<DiffOp>, from: Seq<char>, to: Seq<char>)
    ensures
        ops_from_text(x + y, from) == ops_from_text(x, from) + ops_from_text(y, from),
        ops_to_text(x + y, to) == ops_to_text(x, to) + ops_to_text(y, to),
    decreases y.len(),
{
    if y.len() == 0 {
        assert(x + y == x);
    } else {
        lemma_ops_text_concat(x, y.drop_last(), from, to);
        assert((x + y).drop_last() == x + y.drop_last());
        assert((x + y).last() == y.last());
    }
}

proof fn lemma_ops_text_single(op: DiffOp, from: Seq<char>, to: Seq<char>)
    ensures
        ops_from_text(seq![op], from) == op_from_part(op, from),
        ops_to_text(seq![op], to) == op_to_part(op, to),
{
    let s = seq![op];
    assert(s.len() == 1);
    assert(s.drop_last() == Seq::<DiffOp>::empty());
    assert(s.last() == op);
    assert(ops_from_text(Seq::<DiffOp>::empty(), from) == Seq::<char>::empty());
    assert(ops_to_text(Seq::<DiffOp>::empty(), to) == Seq::<char>::empty());
    assert(ops_from_text(s, from) == ops_from_text(s.drop_last(), from) + op_from_part(s.last(), from));
    assert(ops_to_text(s, to) == ops_to_text(s.drop_last(), to) + op_to_part(s.last(), to));
    assert(Seq::<char>::empty() + op_from_part(op, from) == op_from_part(op, from));
    assert(Seq::<char>::empty() + op_to_part(op, to) == op_to_part(op, to));
}

proof fn lemma_suffix_len_self(a: Seq<char>, i: int)
    requires
        0 <= i <= a.len(),
    ensures
        suffix_len(a, a, i, i) == i,
    decreases i,
{
    if i > 0 {
        lemma_suffix_len_self(a, i - 1);
    }
}

/// One step of the row-major scan keeps the best-so-far state.
proof fn lemma_scan_step(a: Seq<char>, b: Seq<char>, i: int, j: int, r: (int, int, int)) -> (r2: (
    int,
    int,
    int,
))
    requires
        1 <= i <= a.len(),
        1 <= j <= b.len(),
        scan_state(a, b, i, j, r),
    ensures
        scan_state(a, b, i, j + 1, r2),
{
    let v = suffix_len(a, b, i, j) as int;
    let r2 = if v > r.2 {
        (i - v, j - v, v)
    } else {
        r
    };
    lemma_suffix_len_common(a, b, i, j);
    assert forall|p: int, q: int|
        is_end_pair(a, b, p, q) && lex_before(p, q, i, j + 1) implies #[trigger] suffix_len(a, b, p, q)
        <= r2.2 by {
        if lex_before(p, q, i, j) {
            assert(suffix_len(a, b, p, q) <= r.2);
        }
    }
    if r2.2 > 0 {
        assert forall|p: int, q: int|
            is_end_pair(a, b, p, q) && lex_before(p, q, r2.0 + r2.2, r2.1 + r2.2) implies #[trigger] suffix_len(
            a,
            b,
            p,
            q,
        ) < r2.2 by {
            if v > r.2 {
                assert(lex_before(p, q, i, j));
                assert(suffix_len(a, b, p, q) <= r.2);
            }
        }
    }
    r2
}

/// The scan over every end pair from `(i, j)` on reaches a final state.
proof fn lemma_scan_completes(a: Seq<char>, b: Seq<char>, i: int, j: int, r: (int, int, int)) -> (r2: (
    int,
    int,
    int,
))
    requires
        a.len() >= 1,
        b.len() >= 1,
        1 <= i <= a.len() + 1,
        1 <= j <= b.len() + 1,
        scan_state(a, b, i, j, r),
    ensures
        scan_state(a, b, a.len() + 1int, 1, r2),
    decreases a.len() + 1 - i, b.len() + 1 - j,
{
    if i == a.len() + 1 {
        if j == 1 {
            r
        } else {
            assert forall|p: int, q: int|
                is_end_pair(a, b, p, q) && lex_before(p, q, i, 1) implies #[trigger] suffix_len(a, b, p, q)
                <= r.2 by {
                assert(lex_before(p, q, i, j));
            }
            r
        }
    } else if j <= b.len() {
        let r1 = lemma_scan_step(a, b, i, j, r);
        lemma_scan_completes(a, b, i, j + 1, r1)
    } else {
        assert forall|p: int, q: int|
            is_end_pair(a, b, p, q) && lex_before(p, q, i + 1, 1) implies #[trigger] suffix_len(a, b, p, q)
            <= r.2 by {
            assert(lex_before(p, q, i, j));
        }
        lemma_scan_completes(a, b, i + 1, 1, r)
    }
}

/// Every pair of sequences has a longest common substring, so [`lcs_spec`]
/// satisfies [`is_lcs_choice`].
pub proof fn lemma_lcs_spec_holds(a: Seq<char>, b: Seq<char>)
    ensures
        is_lcs_choice(a, b, lcs_spec(a, b)),
{
    if a.len() == 0 || b.len() == 0 {
        assert(is_lcs_choice(a, b, (0, 0, 0)));
    } else {
        let r = lemma_scan_completes(a, b, 1, 1, (0, 0, 0));
        assert forall|p: int, q: int| is_end_pair(a, b, p, q) implies #[trigger] suffix_len(a, b, p, q)
            <= r.2 by {
            assert(lex_before(p, q, a.len() + 1int, 1));
        }
        assert(is_lcs_choice(a, b, r));
    }
}

/// The diff of `a` → `b` (offsets `ai`/`bi` into `from`/`to`) partitions both
/// texts: its `from` parts rebuild `a`, its `to` parts rebuild `b`, and every
/// common operation covers equal characters.
#[verifier::rlimit(60)]
#[verifier::spinoff_prover]
pub proof fn lemma_diff_partitions(
    a: Seq<char>,
    b: Seq<char>,
    ai: int,
    bi: int,
    from: Seq<char>,
    to: Seq<char>,
)
    requires
        0 <= ai,
        0 <= bi,
        ai + a.len() <= from.len(),
        bi + b.len() <= to.len(),
        from.len() <= usize::MAX,
        to.len() <= usize::MAX,
        a == from.subrange(ai, ai + a.len()),
        b == to.subrange(bi, bi + b.len()),
    ensures
        ops_from_text(diff_spec(a, b, ai, bi), from) == a,
        ops_to_text(diff_spec(a, b, ai, bi), to) == b,
        common_ops_match(diff_spec(a, b, ai, bi), from, to),
    decreases a.len() + b.len(),
{
    let ops = diff_spec(a, b, ai, bi);
    if a.len() == 0 && b.len() == 0 {
        assert(ops_from_text(ops, from) == a);
        assert(ops_to_text(ops, to) == b);
    } else {
        let (la, lb, len) = lcs_spec(a, b);
        let whole = len == a.len() && len == b.len();
        if len <= 0 || la < 0 || lb < 0 || la + len > a.len() || lb + len > b.len() || (len
            < MIN_COMMON_RUN && !whole) {
            let op = DiffOp::Replace {
                a: ai as usize,
                alen: a.len() as usize,
                b: bi as usize,
                blen: b.len() as usize,
            };
            assert(ops == seq![op]);
            assert(ops.drop_last() == Seq::<DiffOp>::empty());
            assert(op_from_part(op, from) == from.subrange(ai, ai + a.len()));
            assert(op_to_part(op, to) == to.subrange(bi, bi + b.len()));
            lemma_ops_text_single(op, from, to);
            assert(ops_from_text(ops, from) == a);
            assert(ops_to_text(ops, to) == b);
        } else {
            let left = diff_spec(a.take(la), b.take(lb), ai, bi);
            let op = DiffOp::Common { a: (ai + la) as usize, b: (bi + lb) as usize, len: len as usize };
            let right = diff_spec(a.skip(la + len), b.skip(lb + len), ai + la + len, bi + lb + len);
            assert(ops == left + seq![op] + right);
            assert(a.take(la) =~= from.subrange(ai, ai + la));
            assert(b.take(lb) =~= to.subrange(bi, bi + lb));
            assert(a.skip(la + len) =~= from.subrange(ai + la + len, ai + a.len()));
            assert(b.skip(lb + len) =~= to.subrange(bi + lb + len, bi + b.len()));
            assert(op_from_part(op, from) == from.subrange(ai + la, ai + la + len));
            assert(op_to_part(op, to) == to.subrange(bi + lb, bi + lb + len));
            assert(a.subrange(la, la + len) =~= from.subrange(ai + la, ai + la + len));
            assert(b.subrange(lb, lb + len) =~= to.subrange(bi + lb, bi + lb + len));
            lemma_diff_partitions(a.take(la), b.take(lb), ai, bi, from, to);
            lemma_diff_partitions(
                a.skip(la + len),
                b.skip(lb + len),
                ai + la + len,
                bi + lb + len,
                from,
                to,
            );
            lemma_ops_text_concat(left, seq![op], from, to);
            lemma_ops_text_concat(left + seq![op], right, from, to);
            lemma_ops_text_single(op, from, to);
            assert(ops_from_text(seq![op], from) == a.subrange(la, la + len));
            assert(ops_to_text(seq![op], to) == b.subrange(lb, lb + len));
            assert(a == a.take(la) + a.subrange(la, la + len) + a.skip(la + len));
            assert(b == b.take(lb) + b.subrange(lb, lb + len) + b.skip(lb + len));
            lemma_lcs_spec_holds(a, b);
            lemma_suffix_len_common(a, b, la + len, lb + len);
            assert forall|k: int|
                0 <= k < ops.len() implies match #[trigger] ops[k] {
                DiffOp::Common { .. } => op_from_part(ops[k], from) == op_to_part(ops[k], to),
                _ => true,
            } by {
                if k < left.len() {
                    assert(ops[k] == left[k]);
                } else if k == left.len() {
                    assert(ops[k] == op);
                } else {
                    assert(ops[k] == right[k - left.len() - 1]);
                }
            }
        }
    }
}

/// Diffing a text against itself gives a single common run over all of it.
pub proof fn lemma_diff_identical(a: Seq<char>, ai: int, bi: int)
    requires
        a.len() > 0,
    ensures
        diff_spec(a, a, ai, bi) == seq![
            DiffOp::Common { a: ai as usize, b: bi as usize, len: a.len() as usize },
        ],
{
    let n = a.len() as int;
    lemma_suffix_len_self(a, n);
    assert forall|p: int, q: int| is_end_pair(a, a, p, q) implies #[trigger] suffix_len(a, a, p, q) <= n by {
        lemma_suffix_len_common(a, a, p, q);
    }
    assert forall|p: int, q: int|
        is_end_pair(a, a, p, q) && lex_before(p, q, n, n) implies #[trigger] suffix_len(a, a, p, q) < n by {
        lemma_suffix_len_common(a, a, p, q);
    }
    assert(is_lcs_choice(a, a, (0, 0, n)));
    lemma_lcs_spec_is(a, a, (0, 0, n));
    assert(a.take(0).len() == 0);
    assert(a.skip(n).len() == 0);
    assert(diff_spec(a.take(0), a.take(0), ai, bi) == Seq::<DiffOp>::empty());
    assert(diff_spec(a.skip(n), a.skip(n), ai + n, bi + n) == Seq::<DiffOp>::empty());
    assert(diff_spec(a, a, ai, bi) == Seq::<DiffOp>::empty() + seq![
        DiffOp::Common { a: ai as usize, b: bi as usize, len: a.len() as usize },
    ] + Seq::<DiffOp>::empty());
}

/// Texts without a single character in common are one replacement.
pub proof fn lemma_diff_disjoint(a: Seq<char>, b: Seq<char>, ai: int, bi: int)
    requires
        a.len() + b.len() > 0,
        forall|i: int, j: int| 0 <= i < a.len() && 0 <= j < b.len() ==> a[i] != b[j],
    ensures
        diff_spec(a, b, ai, bi) == seq![
            DiffOp::Replace {
                a: ai as usize,
                alen: a.len() as usize,
                b: bi as usize,
                blen: b.len() as usize,
            },
        ],
{
    assert forall|p: int, q: int| is_end_pair(a, b, p, q) implies #[trigger] suffix_len(a, b, p, q) <= 0 by {
        assert(a[p - 1] != b[q - 1]);
    }
    assert(is_lcs_choice(a, b, (0, 0, 0)));
    lemma_lcs_spec_is(a, b, (0, 0, 0));
}

/// Where an operation starts in `from` and how many characters of it it
/// covers.
pub open spec fn op_from_span(op: DiffOp) -> (int, int) {
    match op {
        DiffOp::Common { a, len, .. } => (a as int, len as int),
        DiffOp::Replace { a, alen, .. } => (a as int, alen as int),
    }
}

/// Where an operation starts in `to` and how many characters of it it
/// covers.
pub open spec fn op_to_span(op: DiffOp) -> (int, int) {
    match op {
        DiffOp::Common { b, len, .. } => (b as int, len as int),
        DiffOp::Replace { b, blen, .. } => (b as int, blen as int),
    }
}

/// The operations cover `alen` characters of `from` from index `ai`, and
/// `blen` characters of `to` from index `bi`, one after another: each starts
/// where the one before it ends, the first at `ai`/`bi`.
pub open spec fn tiles(ops: Seq<DiffOp>, ai: int, bi: int, alen: int, blen: int) -> bool
    decreases ops.len(),
{
    if ops.len() == 0 {
        alen == 0 && blen == 0
    } else {
        let (sa, la) = op_from_span(ops.last());
        let (sb, lb) = op_to_span(ops.last());
        &&& la <= alen
        &&& lb <= blen
        &&& sa == ai + alen - la
        &&& sb == bi + blen - lb
        &&& tiles(ops.drop_last(), ai, bi, alen - la, blen - lb)
    }
}

/// Every operation covers at least one character, and no replacement
/// directly follows another.
pub open spec fn well_shaped(ops: Seq<DiffOp>) -> bool {
    &&& forall|k: int|
        0 <= k < ops.len() ==> match #[trigger] ops[k] {
            DiffOp::Common { len, .. } => len > 0,
            DiffOp::Replace { alen, blen, .. } => alen + blen > 0,
        }
    &&& forall|j: int, k: int|
        #![trigger ops[j], ops[k]]
        0 <= j && k == j + 1 && k < ops.len() ==> !(ops[j] is Replace && ops[k] is Replace)
}

proof fn lemma_tiles_concat(
    x: Seq<DiffOp>,
    y: Seq<DiffOp>,
    ai: int,
    bi: int,
    p: int,
    q: int,
    r: int,
    t: int,
)
    requires
        tiles(x, ai, bi, p, q),
        tiles(y, ai + p, bi + q, r, t),
    ensures
        tiles(x + y, ai, bi, p + r, q + t),
    decreases y.len(),
{
    if y.len() == 0 {
        assert(x + y == x);
    } else {
        let (sa, la) = op_from_span(y.last());
        let (sb, lb) = op_to_span(y.last());
        lemma_tiles_concat(x, y.drop_last(), ai, bi, p, q, r - la, t - lb);
        assert((x + y).drop_last() == x + y.drop_last());
        assert((x + y).last() == y.last());
    }
}

proof fn lemma_tiles_single(op: DiffOp, ai: int, bi: int)
    requires
        op_from_span(op).0 == ai,
        op_to_span(op).0 == bi,
        op_from_span(op).1 >= 0,
        op_to_span(op).1 >= 0,
    ensures
        tiles(seq![op], ai, bi, op_from_span(op).1, op_to_span(op).1),
{
    let s = seq![op];
    assert(s.drop_last() == Seq::<DiffOp>::empty());
    assert(s.last() == op);
    assert(tiles(Seq::<DiffOp>::empty(), ai, bi, 0, 0));
}

/// The shape of a diff: its operations cover `a` (from `ai`) and `b` (from
/// `bi`) one after another, in order and without gaps; each covers at least
/// one character; and no two replacements are adjacent.
#[verifier::rlimit(60)]
#[verifier::spinoff_prover]
pub proof fn lemma_diff_shape(a: Seq<char>, b: Seq<char>, ai: int, bi: int)
    requires
        0 <= ai,
        0 <= bi,
        ai + a.len() <= usize::MAX,
        bi + b.len() <= usize::MAX,
    ensures
        tiles(diff_spec(a, b, ai, bi), ai, bi, a.len() as int, b.len() as int),
        well_shaped(diff_spec(a, b, ai, bi)),
    decreases a.len() + b.len(),
{
    let ops = diff_spec(a, b, ai, bi);
    if a.len() == 0 && b.len() == 0 {
    } else {
        let (la, lb, len) = lcs_spec(a, b);
        let whole = len == a.len() && len == b.len();
        if len <= 0 || la < 0 || lb < 0 || la + len > a.len() || lb + len > b.len() || (len
            < MIN_COMMON_RUN && !whole) {
            let op = DiffOp::Replace {
                a: ai as usize,
                alen: a.len() as usize,
                b: bi as usize,
                blen: b.len() as usize,
            };
            assert(ops == seq![op]);
            lemma_tiles_single(op, ai, bi);
        } else {
            let xa = a.take(la);
            let xb = b.take(lb);
            let ya = a.skip(la + len);
            let yb = b.skip(lb + len);
            let left = diff_spec(xa, xb, ai, bi);
            let op = DiffOp::Common { a: (ai + la) as usize, b: (bi + lb) as usize, len: len as usize };
            let right = diff_spec(ya, yb, ai + la + len, bi + lb + len);
            assert(ops == left + seq![op] + right);
            lemma_diff_shape(xa, xb, ai, bi);
            lemma_diff_shape(ya, yb, ai + la + len, bi + lb + len);
            lemma_tiles_single(op, ai + la, bi + lb);
            lemma_tiles_concat(left, seq![op], ai, bi, la, lb, len, len);
            lemma_tiles_concat(
                left + seq![op],
                right,
                ai,
                bi,
                la + len,
                lb + len,
                a.len() - la - len,
                b.len() - lb - len,
            );
            assert forall|k: int| 0 <= k < ops.len() implies match #[trigger] ops[k] {
                DiffOp::Common { len, .. } => len > 0,
                DiffOp::Replace { alen, blen, .. } => alen + blen > 0,
            } by {
                if k < left.len() {
                    assert(ops[k] == left[k]);
                } else if k == left.len() {
                    assert(ops[k] == op);
                } else {
                    assert(ops[k] == right[k - left.len() - 1]);
                }
            }
            assert forall|j: int, k: int|
                #![trigger ops[j], ops[k]]
                0 <= j && k == j + 1 && k < ops.len() implies !(ops[j] is Replace && ops[k] is Replace) by {
                if k < left.len() {
                    assert(ops[j] == left[j]);
                    assert(ops[k] == left[k]);
                } else if k == left.len() {
                    assert(ops[k] == op);
                } else if j == left.len() {
                    assert(ops[j] == op);
                } else {
                    assert(ops[j] == right[j - left.len() - 1]);
                    assert(ops[k] == right[k - left.len() - 1]);
                }
            }
        }
    }
}

/// Equal stretches of length `k` ending at `i` and `j` make a common suffix of
/// at least `k`.
proof fn lemma_suffix_len_at_least(a: Seq<char>, b: Seq<char>, i: int, j: int, k: int)
    requires
        0 <= k <= i <= a.len(),
        k <= j <= b.len(),
        a.subrange(i - k, i) == b.subrange(j - k, j),
    ensures
        suffix_len(a, b, i, j) >= k,
    decreases k,
{
    if k > 0 {
        assert(a[i - 1] == a.subrange(i - k, i)[k - 1]);
        assert(b[j - 1] == b.subrange(j - k, j)[k - 1]);
        assert(a.subrange(i - k, i - 1) == a.subrange(i - k, i).subrange(0, k - 1));
        assert(b.subrange(j - k, j - 1) == b.subrange(j - k, j).subrange(0, k - 1));
        lemma_suffix_len_at_least(a, b, i - 1, j - 1, k - 1);
    }
}

/// A diff's anchors are long: a common operation shorter than
/// [`MIN_COMMON_RUN`] is only ever the whole diff of two equal texts.
pub open spec fn anchors_are_long(ops: Seq<DiffOp>, a: Seq<char>, b: Seq<char>) -> bool {
    forall|k: int|
        0 <= k < ops.len() ==> match #[trigger] ops[k] {
            DiffOp::Common { len, .. } => len < MIN_COMMON_RUN ==> ops.len() == 1 && a == b,
            _ => true,
        }
}

/// Coincidental short matches never become anchors: every common run of the
/// diff of `a` → `b` is at least [`MIN_COMMON_RUN`] characters long, unless the
/// texts are equal and the run is all of them.
#[verifier::rlimit(60)]
#[verifier::spinoff_prover]
pub proof fn lemma_diff_anchors_are_long(a: Seq<char>, b: Seq<char>, ai: int, bi: int)
    requires
        a.len() <= usize::MAX,
        b.len() <= usize::MAX,
    ensures
        anchors_are_long(diff_spec(a, b, ai, bi), a, b),
    decreases a.len() + b.len(),
{
    let ops = diff_spec(a, b, ai, bi);
    if a.len() == 0 && b.len() == 0 {
    } else {
        let (la, lb, len) = lcs_spec(a, b);
        let whole = len == a.len() && len == b.len();
        if len <= 0 || la < 0 || lb < 0 || la + len > a.len() || lb + len > b.len() || (len
            < MIN_COMMON_RUN && !whole) {
        } else {
            let xa = a.take(la);
            let xb = b.take(lb);
            let ya = a.skip(la + len);
            let yb = b.skip(lb + len);
            let left = diff_spec(xa, xb, ai, bi);
            let op = DiffOp::Common { a: (ai + la) as usize, b: (bi + lb) as usize, len: len as usize };
            let right = diff_spec(ya, yb, ai + la + len, bi + lb + len);
            assert(ops == left + seq![op] + right);
            lemma_lcs_spec_holds(a, b);
            lemma_suffix_len_common(a, b, la + len, lb + len);
            lemma_diff_anchors_are_long(xa, xb, ai, bi);
            lemma_diff_anchors_are_long(ya, yb, ai + la + len, bi + lb + len);
            // A short left part equal on both sides would extend the longest
            // common substring to the left.
            if exists|k: int| 0 <= k < left.len() && (#[trigger] left[k] matches DiffOp::Common { len: l, .. }
                && l < MIN_COMMON_RUN) {
                let k = choose|k: int| 0 <= k < left.len() && (#[trigger] left[k] matches DiffOp::Common { len: l, .. }
                    && l < MIN_COMMON_RUN);
                assert(left.len() == 1 && xa == xb);
                assert(xa.len() > 0);
                assert(a.subrange(0, la + len) == xa + a.subrange(la, la + len));
                assert(b.subrange(0, lb + len) == xb + b.subrange(lb, lb + len));
                lemma_suffix_len_at_least(a, b, la + len, lb + len, la + len);
                assert(false);
            }
            // A short right part equal on both sides would extend it to the
            // right.
            if exists|k: int| 0 <= k < right.len() && (#[trigger] right[k] matches DiffOp::Common { len: l, .. }
                && l < MIN_COMMON_RUN) {
                let k = choose|k: int| 0 <= k < right.len() && (#[trigger] right[k] matches DiffOp::Common { len: l, .. }
                    && l < MIN_COMMON_RUN);
                assert(right.len() == 1 && ya == yb);
                assert(ya.len() > 0);
                let m = ya.len() as int;
                assert(a.subrange(la, la + len + m) == a.subrange(la, la + len) + ya);
                assert(b.subrange(lb, lb + len + m) == b.subrange(lb, lb + len) + yb);
                lemma_suffix_len_at_least(a, b, la + len + m, lb + len + m, len + m);
                assert(false);
            }
            if len < MIN_COMMON_RUN {
                assert(la == 0 && lb == 0);
                assert(xa.len() == 0 && xb.len() == 0 && ya.len() == 0 && yb.len() == 0);
                assert(left.len() == 0 && right.len() == 0);
                assert(a == a.subrange(0, len));
                assert(b == b.subrange(0, len));
            }
            assert forall|k: int| 0 <= k < ops.len() implies match #[trigger] ops[k] {
                DiffOp::Common { len, .. } => len < MIN_COMMON_RUN ==> ops.len() == 1 && a == b,
                _ => true,
            } by {
                if k < left.len() {
                    assert(ops[k] == left[k]);
                } else if k == left.len() {
                    assert(ops[k] == op);
                } else {
                    assert(ops[k] == right[k - left.len() - 1]);
                }
            }
        }
    }
}

} // verus!
