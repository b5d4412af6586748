//! The attribution tracker: project a file's character attribution
//! through one edit.
//!
//! The edit script is computed over whole lines and is minimal there:
//! it keeps a longest common subsequence of lines (`lemma_llcs_maximal`
//! and `lemma_canonical_keeps_llcs` below), so an edit script with
//! fewer line insertions and deletions does not exist. Every kept
//! line's characters retain their prior attribution, which realises
//! the tie-break rule: text standing between two separate edits keeps
//! its author. Each replaced run of lines is refined at character
//! granularity (positions are characters, not bytes) by its longest
//! common prefix and suffix, so an edit inside one line credits the
//! editing author with the changed characters only. A script minimal
//! over single characters is deliberately not used: coincidental
//! one-character matches inside rewritten lines would scatter stale
//! authorship into freshly written text.

use vstd::prelude::*;

use crate::attribution::{
    append_span, attr_key, attrs_merged, attrs_wf, key_at, lemma_key_at_of, AttrKey, Attribution,
};
use crate::text::opt_chars_view;

verus! {

pub open spec fn min2(a: int, b: int) -> int {
    if a < b {
        a
    } else {
        b
    }
}

/// Length of the longest common prefix of two character sequences.
pub open spec fn common_prefix_len(a: Seq<char>, b: Seq<char>) -> int
    decreases a.len(),
{
    if a.len() == 0 || b.len() == 0 || a[0] != b[0] {
        0
    } else {
        1 + common_prefix_len(a.drop_first(), b.drop_first())
    }
}

/// Length of the longest common suffix of two character sequences.
pub open spec fn common_suffix_len(a: Seq<char>, b: Seq<char>) -> int
    decreases a.len(),
{
    if a.len() == 0 || b.len() == 0 || a.last() != b.last() {
        0
    } else {
        1 + common_suffix_len(a.drop_last(), b.drop_last())
    }
}

/// The character prefix a replaced region keeps when it is refined:
/// the longest common prefix of the old and the new text.
pub open spec fn keep_prefix_len(a: Seq<char>, b: Seq<char>) -> int {
    common_prefix_len(a, b)
}

/// The character suffix a replaced region keeps when it is refined:
/// the longest common suffix, shortened so that it does not overlap
/// the kept prefix.
pub open spec fn keep_suffix_len(a: Seq<char>, b: Seq<char>) -> int {
    min2(common_suffix_len(a, b), min2(a.len() as int, b.len() as int) - common_prefix_len(a, b))
}

/// Bounds of the kept prefix and suffix: they are non-negative and
/// together never exceed the shorter content.
pub proof fn lemma_keep_bounds(a: Seq<char>, b: Seq<char>)
    ensures
        0 <= keep_prefix_len(a, b),
        keep_prefix_len(a, b) <= min2(a.len() as int, b.len() as int),
        0 <= keep_suffix_len(a, b),
        keep_prefix_len(a, b) + keep_suffix_len(a, b) <= min2(a.len() as int, b.len() as int),
{
    lemma_common_prefix_bounds(a, b);
    lemma_common_suffix_bounds(a, b);
}

proof fn lemma_common_prefix_bounds(a: Seq<char>, b: Seq<char>)
    ensures
        0 <= common_prefix_len(a, b) <= min2(a.len() as int, b.len() as int),
    decreases a.len(),
{
    if !(a.len() == 0 || b.len() == 0 || a[0] != b[0]) {
        lemma_common_prefix_bounds(a.drop_first(), b.drop_first());
    }
}

proof fn lemma_common_suffix_bounds(a: Seq<char>, b: Seq<char>)
    ensures
        0 <= common_suffix_len(a, b) <= min2(a.len() as int, b.len() as int),
    decreases a.len(),
{
    if !(a.len() == 0 || b.len() == 0 || a.last() != b.last()) {
        lemma_common_suffix_bounds(a.drop_last(), b.drop_last());
    }
}

proof fn lemma_common_prefix_characterize(a: Seq<char>, b: Seq<char>, p: int)
    requires
        0 <= p <= min2(a.len() as int, b.len() as int),
        forall|j: int| 0 <= j < p ==> a[j] == b[j],
        p == min2(a.len() as int, b.len() as int) || a[p] != b[p],
    ensures
        common_prefix_len(a, b) == p,
    decreases p,
{
    if p == 0 {
    } else {
        assert(a[0] == b[0]);
        let a2 = a.drop_first();
        let b2 = b.drop_first();
        assert forall|j: int| 0 <= j < p - 1 implies a2[j] == b2[j] by {
            assert(a[j + 1] == b[j + 1]);
        }
        if p - 1 < min2(a2.len() as int, b2.len() as int) {
            assert(a2[p - 1] == a[p] && b2[p - 1] == b[p]);
        }
        lemma_common_prefix_characterize(a2, b2, p - 1);
    }
}

/// The `j`-th character counted from the end of `a`.
pub open spec fn from_end(a: Seq<char>, j: int) -> char {
    a[a.len() - 1 - j]
}

proof fn lemma_common_suffix_characterize(a: Seq<char>, b: Seq<char>, s: int)
    requires
        0 <= s <= min2(a.len() as int, b.len() as int),
        forall|j: int| 0 <= j < s ==> from_end(a, j) == from_end(b, j),
        s == min2(a.len() as int, b.len() as int) || from_end(a, s) != from_end(b, s),
    ensures
        common_suffix_len(a, b) == s,
    decreases s,
{
    if s == 0 {
    } else {
        assert(from_end(a, 0) == from_end(b, 0));
        assert(a.last() == b.last());
        let a2 = a.drop_last();
        let b2 = b.drop_last();
        assert forall|j: int| 0 <= j < s - 1 implies from_end(a2, j) == from_end(b2, j) by {
            assert(from_end(a, j + 1) == from_end(b, j + 1));
        }
        if s - 1 < min2(a2.len() as int, b2.len() as int) {
            assert(from_end(a2, s - 1) == from_end(a, s));
            assert(from_end(b2, s - 1) == from_end(b, s));
        }
        lemma_common_suffix_characterize(a2, b2, s - 1);
    }
}

/// Longest common prefix of the two character vectors.
pub(crate) fn compute_prefix_len(a: &Vec<char>, b: &Vec<char>) -> (p: usize)
    ensures
        p as int == common_prefix_len(a@, b@),
        p <= a.len() && p <= b.len(),
{
    let n: usize = if a.len() < b.len() {
        a.len()
    } else {
        b.len()
    };
    let mut i: usize = 0;
    while i < n && a[i] == b[i]
        invariant
            0 <= i <= n,
            n as int == min2(a@.len() as int, b@.len() as int),
            forall|j: int| 0 <= j < i ==> a@[j] == b@[j],
        decreases n - i,
    {
        i += 1;
    }
    proof {
        lemma_common_prefix_characterize(a@, b@, i as int);
    }
    i
}

/// Longest common suffix of the two character vectors.
pub(crate) fn compute_suffix_len(a: &Vec<char>, b: &Vec<char>) -> (s: usize)
    ensures
        s as int == common_suffix_len(a@, b@),
        s <= a.len() && s <= b.len(),
{
    let n: usize = if a.len() < b.len() {
        a.len()
    } else {
        b.len()
    };
    let mut i: usize = 0;
    while i < n && a[a.len() - 1 - i] == b[b.len() - 1 - i]
        invariant
            0 <= i <= n,
            n as int == min2(a@.len() as int, b@.len() as int),
            forall|j: int| 0 <= j < i ==> from_end(a@, j) == from_end(b@, j),
        decreases n - i,
    {
        proof {
            assert(from_end(a@, i as int) == from_end(b@, i as int));
        }
        i += 1;
    }
    proof {
        if i < n {
            assert(from_end(a@, i as int) != from_end(b@, i as int));
        }
    }
    proof {
        lemma_common_suffix_characterize(a@, b@, i as int);
    }
    i
}

/// The number of lines of `s`.
pub open spec fn fl_count(s: Seq<char>) -> int {
    crate::lines::line_count(s)
}

/// The first character of line `t`, terminator included in the line.
pub open spec fn fl_start(s: Seq<char>, t: int) -> int {
    crate::lines::line_spans(s)[t].0
}

/// One past the last character of line `t`, terminator included.
pub open spec fn fl_end(s: Seq<char>, t: int) -> int {
    if t + 1 < fl_count(s) {
        crate::lines::line_spans(s)[t + 1].0
    } else {
        s.len() as int
    }
}

/// The first character of line `t`, or the content length past the
/// last line.
pub open spec fn fl_start_x(s: Seq<char>, t: int) -> int {
    if t < fl_count(s) {
        fl_start(s, t)
    } else {
        s.len() as int
    }
}

/// Line `t` of `s`, terminator included.
pub open spec fn fl_at(s: Seq<char>, t: int) -> Seq<char> {
    s.subrange(fl_start(s, t), fl_end(s, t))
}

/// Whole lines partition the content, in order.
pub proof fn lemma_fl_partition(s: Seq<char>, t: int)
    requires
        0 <= t < fl_count(s),
    ensures
        0 <= fl_start(s, t) < fl_end(s, t) <= s.len(),
        t == 0 ==> fl_start(s, t) == 0,
        fl_end(s, t) == fl_start_x(s, t + 1),
{
    crate::lines::lemma_line_spans_in_range(s, t);
    crate::lines::lemma_line_spans_structure(s, t);
    if t + 1 < fl_count(s) {
        crate::lines::lemma_line_spans_in_range(s, t + 1);
    }
}

/// Line starts never decrease.
pub proof fn lemma_fl_start_x_mono(s: Seq<char>, i: int, j: int)
    requires
        0 <= i <= j <= fl_count(s),
    ensures
        0 <= fl_start_x(s, i) <= fl_start_x(s, j) <= s.len(),
        i < j ==> fl_start_x(s, i) < fl_start_x(s, j),
    decreases j - i,
{
    if i < fl_count(s) {
        lemma_fl_partition(s, i);
    }
    if i < j {
        lemma_fl_start_x_mono(s, i + 1, j);
    }
}

pub open spec fn max2(a: int, b: int) -> int {
    if a >= b {
        a
    } else {
        b
    }
}

/// The length of a longest common subsequence of the lines of `a`
/// from line `i` and the lines of `b` from line `j`.
pub open spec fn llcs(a: Seq<char>, b: Seq<char>, i: int, j: int) -> int
    decreases fl_count(a) - i + fl_count(b) - j when 0 <= i <= fl_count(a) && 0 <= j <= fl_count(b)
{
    if i >= fl_count(a) || j >= fl_count(b) {
        0
    } else {
        let skip = max2(llcs(a, b, i + 1, j), llcs(a, b, i, j + 1));
        if fl_at(a, i) == fl_at(b, j) {
            max2(1 + llcs(a, b, i + 1, j + 1), skip)
        } else {
            skip
        }
    }
}

pub proof fn lemma_llcs_bounds(a: Seq<char>, b: Seq<char>, i: int, j: int)
    requires
        0 <= i <= fl_count(a),
        0 <= j <= fl_count(b),
    ensures
        0 <= llcs(a, b, i, j) <= fl_count(a) - i,
        llcs(a, b, i, j) <= fl_count(b) - j,
    decreases fl_count(a) - i + fl_count(b) - j,
{
    if i < fl_count(a) && j < fl_count(b) {
        lemma_llcs_bounds(a, b, i + 1, j);
        lemma_llcs_bounds(a, b, i, j + 1);
        lemma_llcs_bounds(a, b, i + 1, j + 1);
    }
}

/// A common subsequence of lines: pairs of equal lines, strictly
/// ascending on both sides.
pub open spec fn common_lines_witness(a: Seq<char>, b: Seq<char>, w: Seq<(int, int)>) -> bool {
    &&& forall|k: int|
        0 <= k < w.len() ==> 0 <= (#[trigger] w[k]).0 < fl_count(a) && 0 <= w[k].1 < fl_count(b)
            && fl_at(a, w[k].0) == fl_at(b, w[k].1)
    &&& forall|k: int, k2: int| #![trigger w[k], w[k2]]
        0 <= k && k2 == k + 1 && k2 < w.len() ==> w[k].0 < w[k2].0 && w[k].1 < w[k2].1
}

/// No common subsequence of lines is longer than `llcs`: the line
/// alignment the edit script keeps is maximal, so the script's
/// insertion and deletion count is minimal.
pub proof fn lemma_llcs_maximal(a: Seq<char>, b: Seq<char>, w: Seq<(int, int)>)
    requires
        common_lines_witness(a, b, w),
    ensures
        w.len() <= llcs(a, b, 0, 0),
{
    lemma_llcs_maximal_at(a, b, w, 0, 0);
}

proof fn lemma_llcs_maximal_at(a: Seq<char>, b: Seq<char>, w: Seq<(int, int)>, i: int, j: int)
    requires
        common_lines_witness(a, b, w),
        0 <= i <= fl_count(a),
        0 <= j <= fl_count(b),
        w.len() > 0 ==> i <= w[0].0 && j <= w[0].1,
    ensures
        w.len() <= llcs(a, b, i, j),
    decreases fl_count(a) - i + fl_count(b) - j,
{
    if w.len() == 0 {
        lemma_llcs_bounds(a, b, i, j);
    } else {
        let x = w[0].0;
        let y = w[0].1;
        if x == i && y == j {
            let w2 = w.drop_first();
            assert forall|k: int|
                0 <= k < w2.len() implies 0 <= (#[trigger] w2[k]).0 < fl_count(a) && 0 <= w2[k].1
                < fl_count(b) && fl_at(a, w2[k].0) == fl_at(b, w2[k].1) by {
                assert(w[k + 1] == w2[k]);
            }
            assert forall|k: int, k2: int| #![trigger w2[k], w2[k2]]
                0 <= k && k2 == k + 1 && k2 < w2.len() implies w2[k].0 < w2[k2].0 && w2[k].1
                < w2[k2].1 by {
                assert(w[k + 1] == w2[k] && w[k2 + 1] == w2[k2]);
            }
            if w2.len() > 0 {
                assert(w[0].0 < w[1].0 && w[0].1 < w[1].1);
            }
            lemma_llcs_maximal_at(a, b, w2, i + 1, j + 1);
            assert(llcs(a, b, i, j) >= 1 + llcs(a, b, i + 1, j + 1));
        } else if x > i {
            lemma_llcs_maximal_at(a, b, w, i + 1, j);
            assert(llcs(a, b, i, j) >= llcs(a, b, i + 1, j));
        } else {
            assert(y > j);
            lemma_llcs_maximal_at(a, b, w, i, j + 1);
            assert(llcs(a, b, i, j) >= llcs(a, b, i, j + 1));
        }
    }
}

/// The canonical script keeps the pair of lines at `(i, j)`.
pub open spec fn keep_here(a: Seq<char>, b: Seq<char>, i: int, j: int) -> bool {
    i < fl_count(a) && j < fl_count(b) && fl_at(a, i) == fl_at(b, j) && 1 + llcs(a, b, i + 1, j + 1)
        == llcs(a, b, i, j)
}

/// The canonical script deletes line `i` of the old content.
pub open spec fn del_here(a: Seq<char>, b: Seq<char>, i: int, j: int) -> bool {
    !keep_here(a, b, i, j) && i < fl_count(a) && (j >= fl_count(b) || llcs(a, b, i + 1, j) == llcs(
        a,
        b,
        i,
        j,
    ))
}

/// The number of line pairs the canonical script keeps from `(i, j)`.
pub open spec fn canonical_keeps(a: Seq<char>, b: Seq<char>, i: int, j: int) -> int
    decreases fl_count(a) - i + fl_count(b) - j when 0 <= i <= fl_count(a) && 0 <= j <= fl_count(b)
{
    if i >= fl_count(a) && j >= fl_count(b) {
        0
    } else if keep_here(a, b, i, j) {
        1 + canonical_keeps(a, b, i + 1, j + 1)
    } else if del_here(a, b, i, j) {
        canonical_keeps(a, b, i + 1, j)
    } else {
        canonical_keeps(a, b, i, j + 1)
    }
}

/// The canonical script keeps exactly a longest common subsequence of
/// lines.
pub proof fn lemma_canonical_keeps_llcs(a: Seq<char>, b: Seq<char>, i: int, j: int)
    requires
        0 <= i <= fl_count(a),
        0 <= j <= fl_count(b),
    ensures
        canonical_keeps(a, b, i, j) == llcs(a, b, i, j),
    decreases fl_count(a) - i + fl_count(b) - j,
{
    if i >= fl_count(a) && j >= fl_count(b) {
    } else if keep_here(a, b, i, j) {
        lemma_canonical_keeps_llcs(a, b, i + 1, j + 1);
    } else if del_here(a, b, i, j) {
        lemma_canonical_keeps_llcs(a, b, i + 1, j);
    } else {
        lemma_canonical_keeps_llcs(a, b, i, j + 1);
        if i >= fl_count(a) {
            assert(llcs(a, b, i, j) == 0 && llcs(a, b, i, j + 1) == 0);
        } else {
            assert(j < fl_count(b));
            assert(llcs(a, b, i, j) == llcs(a, b, i, j + 1));
        }
    }
}

/// The first keep of the canonical script at or after `(i, j)`, or the
/// end of both contents: everything before it forms one replaced run.
pub open spec fn run_end(a: Seq<char>, b: Seq<char>, i: int, j: int) -> (int, int)
    decreases fl_count(a) - i + fl_count(b) - j when 0 <= i <= fl_count(a) && 0 <= j <= fl_count(b)
{
    if keep_here(a, b, i, j) || (i >= fl_count(a) && j >= fl_count(b)) {
        (i, j)
    } else if del_here(a, b, i, j) {
        run_end(a, b, i + 1, j)
    } else {
        run_end(a, b, i, j + 1)
    }
}

pub proof fn lemma_run_end_bounds(a: Seq<char>, b: Seq<char>, i: int, j: int)
    requires
        0 <= i <= fl_count(a),
        0 <= j <= fl_count(b),
    ensures
        i <= run_end(a, b, i, j).0 <= fl_count(a),
        j <= run_end(a, b, i, j).1 <= fl_count(b),
        keep_here(a, b, run_end(a, b, i, j).0, run_end(a, b, i, j).1) || (run_end(a, b, i, j).0
            >= fl_count(a) && run_end(a, b, i, j).1 >= fl_count(b)),
        !(keep_here(a, b, i, j) || (i >= fl_count(a) && j >= fl_count(b))) ==> run_end(
            a,
            b,
            i,
            j,
        ).0 + run_end(a, b, i, j).1 > i + j,
    decreases fl_count(a) - i + fl_count(b) - j,
{
    if keep_here(a, b, i, j) || (i >= fl_count(a) && j >= fl_count(b)) {
    } else if del_here(a, b, i, j) {
        lemma_run_end_bounds(a, b, i + 1, j);
    } else {
        lemma_run_end_bounds(a, b, i, j + 1);
    }
}

/// The character sources of a replaced run: the longest common prefix
/// and suffix of the run's characters keep their old positions, the
/// middle is freshly written.
pub open spec fn run_srcs(
    a: Seq<char>,
    b: Seq<char>,
    prev_lo: int,
    prev_hi: int,
    next_lo: int,
    next_hi: int,
) -> Seq<Option<int>> {
    let pa = a.subrange(prev_lo, prev_hi);
    let nb = b.subrange(next_lo, next_hi);
    let p = keep_prefix_len(pa, nb);
    let sfx = keep_suffix_len(pa, nb);
    Seq::new(
        (next_hi - next_lo) as nat,
        |d: int|
            if d < p {
                Some(prev_lo + d)
            } else if d < next_hi - next_lo - sfx {
                None
            } else {
                Some(prev_hi - (next_hi - next_lo - d))
            },
    )
}

/// For every character of the new content from line `j` on: the old
/// position it keeps its attribution from, or none when the edit wrote
/// it.
pub open spec fn srcs_from(a: Seq<char>, b: Seq<char>, i: int, j: int) -> Seq<Option<int>>
    decreases fl_count(a) - i + fl_count(b) - j
        when 0 <= i <= fl_count(a) && 0 <= j <= fl_count(b) via srcs_from_decreases
{
    if i >= fl_count(a) && j >= fl_count(b) {
        Seq::empty()
    } else if keep_here(a, b, i, j) {
        Seq::new(
            (fl_end(b, j) - fl_start(b, j)) as nat,
            |d: int| Some(fl_start(a, i) + d),
        ) + srcs_from(a, b, i + 1, j + 1)
    } else {
        let e = run_end(a, b, i, j);
        run_srcs(
            a,
            b,
            fl_start_x(a, i),
            fl_start_x(a, e.0),
            fl_start_x(b, j),
            fl_start_x(b, e.1),
        ) + srcs_from(a, b, e.0, e.1)
    }
}

#[via_fn]
proof fn srcs_from_decreases(a: Seq<char>, b: Seq<char>, i: int, j: int) {
    if 0 <= i <= fl_count(a) && 0 <= j <= fl_count(b) {
        if keep_here(a, b, i, j) {
            lemma_fl_partition(b, j);
        } else if !(i >= fl_count(a) && j >= fl_count(b)) {
            lemma_run_end_bounds(a, b, i, j);
        }
    }
}

/// The character sources of the whole edit from the old to the new
/// content.
pub open spec fn src_seq(a: Seq<char>, b: Seq<char>) -> Seq<Option<int>> {
    srcs_from(a, b, 0, 0)
}

/// Shape of the source list: one entry per new character, every kept
/// source inside the old content.
pub proof fn lemma_srcs_from_ok(a: Seq<char>, b: Seq<char>, i: int, j: int)
    requires
        0 <= i <= fl_count(a),
        0 <= j <= fl_count(b),
    ensures
        srcs_from(a, b, i, j).len() == b.len() - fl_start_x(b, j),
        forall|d: int|
            0 <= d < srcs_from(a, b, i, j).len() && (#[trigger] srcs_from(a, b, i, j)[d]) is Some
                ==> 0 <= srcs_from(a, b, i, j)[d]->0 < a.len(),
    decreases fl_count(a) - i + fl_count(b) - j,
{
    lemma_fl_start_x_mono(b, j, fl_count(b));
    if i >= fl_count(a) && j >= fl_count(b) {
    } else if keep_here(a, b, i, j) {
        lemma_fl_partition(a, i);
        lemma_fl_partition(b, j);
        lemma_srcs_from_ok(a, b, i + 1, j + 1);
        assert(fl_at(a, i).len() == fl_at(b, j).len());
        let ghost ll = fl_end(b, j) - fl_start(b, j);
        let rest = srcs_from(a, b, i + 1, j + 1);
        assert forall|d: int|
            0 <= d < srcs_from(a, b, i, j).len() && (#[trigger] srcs_from(a, b, i, j)[d]) is Some
            implies 0 <= srcs_from(a, b, i, j)[d]->0 < a.len() by {
            if d < ll {
                assert(srcs_from(a, b, i, j)[d] == Some(fl_start(a, i) + d));
            } else {
                assert(srcs_from(a, b, i, j)[d] == rest[d - ll]);
            }
        }
    } else {
        let e = run_end(a, b, i, j);
        lemma_run_end_bounds(a, b, i, j);
        lemma_srcs_from_ok(a, b, e.0, e.1);
        lemma_fl_start_x_mono(a, i, e.0);
        lemma_fl_start_x_mono(a, e.0, fl_count(a));
        lemma_fl_start_x_mono(b, j, e.1);
        lemma_fl_start_x_mono(b, e.1, fl_count(b));
        let pa = a.subrange(fl_start_x(a, i), fl_start_x(a, e.0));
        let nb = b.subrange(fl_start_x(b, j), fl_start_x(b, e.1));
        lemma_keep_bounds(pa, nb);
        let plo = fl_start_x(a, i);
        let phi = fl_start_x(a, e.0);
        let nlo = fl_start_x(b, j);
        let nhi = fl_start_x(b, e.1);
        assert(0 <= plo <= phi <= a.len());
        assert(0 <= nlo <= nhi <= b.len());
        assert(pa.len() == phi - plo);
        assert(nb.len() == nhi - nlo);
        let rm = run_srcs(a, b, plo, phi, nlo, nhi);
        let rest = srcs_from(a, b, e.0, e.1);
        assert(rm.len() == nhi - nlo);
        assert(srcs_from(a, b, i, j) == rm + rest);
        assert forall|d: int|
            0 <= d < srcs_from(a, b, i, j).len() && (#[trigger] srcs_from(a, b, i, j)[d]) is Some
            implies 0 <= srcs_from(a, b, i, j)[d]->0 < a.len() by {
            if d < rm.len() {
                assert(srcs_from(a, b, i, j)[d] == rm[d]);
                assert(rm[d] == (if d < keep_prefix_len(pa, nb) {
                    Some(plo + d)
                } else if d < nhi - nlo - keep_suffix_len(pa, nb) {
                    None::<int>
                } else {
                    Some(phi - (nhi - nlo - d))
                }));
                assert(pa.len() == phi - plo && nb.len() == nhi - nlo);
            } else {
                assert(srcs_from(a, b, i, j)[d] == rest[d - rm.len()]);
            }
        }
    }
}

/// The source list has one entry per character of the new content.
pub proof fn lemma_src_seq_len(a: Seq<char>, b: Seq<char>)
    ensures
        src_seq(a, b).len() == b.len(),
{
    if fl_count(b) > 0 {
        lemma_fl_partition(b, 0);
    } else {
        assert(crate::lines::line_spans_from(b, 0).len() == 0);
        assert(b.len() == 0);
    }
    lemma_srcs_from_ok(a, b, 0, 0);
}

/// The whole-line bounds of line `t`, from scanned spans.
fn fl_bounds(content: &Vec<char>, spans: &Vec<crate::lines::LineSpan>, t: usize) -> (r: (
    usize,
    usize,
))
    requires
        crate::lines::spans_view(spans@) == crate::lines::line_spans(content@),
        t < spans@.len(),
    ensures
        r.0 as int == fl_start(content@, t as int),
        r.1 as int == fl_end(content@, t as int),
        r.0 < r.1 <= content@.len(),
{
    proof {
        lemma_fl_partition(content@, t as int);
    }
    let hi = if t < spans.len() - 1 {
        spans[t + 1].start
    } else {
        content.len()
    };
    (spans[t].start, hi)
}

/// The start of line `t`, or the content length past the last line.
fn fl_sx(content: &Vec<char>, spans: &Vec<crate::lines::LineSpan>, t: usize) -> (r: usize)
    requires
        crate::lines::spans_view(spans@) == crate::lines::line_spans(content@),
        t <= spans@.len(),
    ensures
        r as int == fl_start_x(content@, t as int),
        r <= content@.len(),
{
    proof {
        if (t as int) < spans@.len() {
            lemma_fl_partition(content@, t as int);
        }
    }
    if t < spans.len() {
        spans[t].start
    } else {
        content.len()
    }
}

/// Whether line `t` of `a` equals line `u` of `b`, terminators
/// included.
fn lines_eq_at(
    a: &Vec<char>,
    spans_a: &Vec<crate::lines::LineSpan>,
    t: usize,
    b: &Vec<char>,
    spans_b: &Vec<crate::lines::LineSpan>,
    u: usize,
) -> (r: bool)
    requires
        crate::lines::spans_view(spans_a@) == crate::lines::line_spans(a@),
        crate::lines::spans_view(spans_b@) == crate::lines::line_spans(b@),
        t < spans_a@.len(),
        u < spans_b@.len(),
    ensures
        r == (fl_at(a@, t as int) == fl_at(b@, u as int)),
{
    let (alo, ahi) = fl_bounds(a, spans_a, t);
    let (blo, bhi) = fl_bounds(b, spans_b, u);
    let la = crate::text::sub_chars(a, alo, ahi);
    let lb = crate::text::sub_chars(b, blo, bhi);
    crate::text::chars_eq(&la, &lb)
}

/// A filled table of line-subsequence lengths, stored with both axes
/// reversed.
pub open spec fn tab_ok(tab: Seq<Vec<usize>>, a: Seq<char>, b: Seq<char>) -> bool {
    &&& tab.len() == fl_count(a)
    &&& forall|x: int| 0 <= x < tab.len() ==> (#[trigger] tab[x])@.len() == fl_count(b)
    &&& forall|x: int, y: int| #![trigger tab[x]@[y]]
        0 <= x < tab.len() && 0 <= y < fl_count(b) ==> tab[x]@[y] as int == llcs(
            a,
            b,
            fl_count(a) - 1 - x,
            fl_count(b) - 1 - y,
        )
}

/// Reads a line-subsequence length from the table, zero past either
/// end.
fn cell(tab: &Vec<Vec<usize>>, a_cnt: usize, b_cnt: usize, i: usize, j: usize, a: Ghost<
    Seq<char>,
>, b: Ghost<Seq<char>>) -> (r: usize)
    requires
        tab_ok(tab@, a@, b@),
        a_cnt as int == fl_count(a@),
        b_cnt as int == fl_count(b@),
        i <= a_cnt,
        j <= b_cnt,
    ensures
        r as int == llcs(a@, b@, i as int, j as int),
{
    if i >= a_cnt || j >= b_cnt {
        0
    } else {
        tab[a_cnt - 1 - i][b_cnt - 1 - j]
    }
}

/// Builds the table of line-subsequence lengths.
fn build_llcs(
    a: &Vec<char>,
    spans_a: &Vec<crate::lines::LineSpan>,
    b: &Vec<char>,
    spans_b: &Vec<crate::lines::LineSpan>,
) -> (tab: Vec<Vec<usize>>)
    requires
        crate::lines::spans_view(spans_a@) == crate::lines::line_spans(a@),
        crate::lines::spans_view(spans_b@) == crate::lines::line_spans(b@),
    ensures
        tab_ok(tab@, a@, b@),
{
    let n = spans_a.len();
    let m = spans_b.len();
    let mut tab: Vec<Vec<usize>> = Vec::new();
    let mut x: usize = 0;
    while x < n
        invariant
            0 <= x <= n,
            n == fl_count(a@),
            m == fl_count(b@),
            crate::lines::spans_view(spans_a@) == crate::lines::line_spans(a@),
            crate::lines::spans_view(spans_b@) == crate::lines::line_spans(b@),
            tab@.len() == x,
            forall|x2: int| 0 <= x2 < x ==> (#[trigger] tab@[x2])@.len() == m,
            forall|x2: int, y2: int| #![trigger tab@[x2]@[y2]]
                0 <= x2 < x && 0 <= y2 < m ==> tab@[x2]@[y2] as int == llcs(
                    a@,
                    b@,
                    n - 1 - x2,
                    m - 1 - y2,
                ),
        decreases n - x,
    {
        let i = n - 1 - x;
        let mut row: Vec<usize> = Vec::new();
        let mut y: usize = 0;
        while y < m
            invariant
                0 <= y <= m,
                x < n,
                i == n - 1 - x,
                n == fl_count(a@),
                m == fl_count(b@),
                crate::lines::spans_view(spans_a@) == crate::lines::line_spans(a@),
                crate::lines::spans_view(spans_b@) == crate::lines::line_spans(b@),
                tab@.len() == x,
                forall|x2: int| 0 <= x2 < x ==> (#[trigger] tab@[x2])@.len() == m,
                forall|x2: int, y2: int| #![trigger tab@[x2]@[y2]]
                    0 <= x2 < x && 0 <= y2 < m ==> tab@[x2]@[y2] as int == llcs(
                        a@,
                        b@,
                        n - 1 - x2,
                        m - 1 - y2,
                    ),
                row@.len() == y,
                forall|y2: int| 0 <= y2 < y ==> row@[y2] as int == llcs(a@, b@, i as int, m - 1 - y2),
            decreases m - y,
        {
            let j = m - 1 - y;
            // The value below this cell: line i + 1 of the old content.
            let down: usize = if i + 1 >= n {
                0
            } else {
                tab[x - 1][y]
            };
            // The value right of this cell: line j + 1 of the new one.
            let right: usize = if j + 1 >= m {
                0
            } else {
                row[y - 1]
            };
            proof {
                assert(down as int == llcs(a@, b@, i + 1, j as int));
                assert(right as int == llcs(a@, b@, i as int, j + 1));
                lemma_llcs_bounds(a@, b@, i + 1, j + 1);
            }
            let skip = if down >= right {
                down
            } else {
                right
            };
            let val = if lines_eq_at(a, spans_a, i, b, spans_b, j) {
                let diag: usize = if i + 1 >= n || j + 1 >= m {
                    0
                } else {
                    tab[x - 1][y - 1]
                };
                proof {
                    assert(diag as int == llcs(a@, b@, i + 1, j + 1));
                }
                if 1 + diag >= skip {
                    1 + diag
                } else {
                    skip
                }
            } else {
                skip
            };
            proof {
                assert(val as int == llcs(a@, b@, i as int, j as int));
            }
            row.push(val);
            y += 1;
        }
        tab.push(row);
        x += 1;
    }
    tab
}

/// Appends the keys of the old positions `[src_lo, src_hi)`, shifted
/// to start at `dst_lo`.
#[verifier::rlimit(100)]
#[verifier::spinoff_prover]
fn append_window(
    out: &mut Vec<Attribution>,
    prev_attr: &Vec<Attribution>,
    prev_len: usize,
    src_lo: usize,
    src_hi: usize,
    dst_lo: usize,
)
    requires
        attrs_wf(prev_attr@, prev_len as int),
        attrs_merged(prev_attr@),
        src_lo <= src_hi <= prev_len,
        dst_lo + (src_hi - src_lo) <= usize::MAX,
        attrs_wf(old(out)@, dst_lo as int),
        attrs_merged(old(out)@),
    ensures
        attrs_wf(final(out)@, dst_lo + (src_hi - src_lo)),
        attrs_merged(final(out)@),
        forall|pos: int|
            0 <= pos < dst_lo ==> key_at(final(out)@, pos) == key_at(old(out)@, pos),
        forall|pos: int|
            dst_lo <= pos < dst_lo + (src_hi - src_lo) ==> key_at(final(out)@, pos) == key_at(
                prev_attr@,
                pos - dst_lo + src_lo,
            ),
{
    if src_hi <= src_lo {
        return ;
    }
    let mut covered: usize = dst_lo;
    let mut k: usize = 0;
    while k < prev_attr.len()
        invariant
            0 <= k <= prev_attr@.len(),
            src_lo < src_hi <= prev_len,
            dst_lo + (src_hi - src_lo) <= usize::MAX,
            attrs_wf(prev_attr@, prev_len as int),
            attrs_merged(prev_attr@),
            covered as int == if k == 0 || prev_attr@[k - 1].end <= src_lo {
                dst_lo as int
            } else if prev_attr@[k - 1].end >= src_hi {
                dst_lo + (src_hi - src_lo)
            } else {
                prev_attr@[k - 1].end - src_lo + dst_lo
            },
            attrs_wf(out@, covered as int),
            attrs_merged(out@),
            forall|pos: int|
                0 <= pos < dst_lo ==> key_at(out@, pos) == key_at(old(out)@, pos),
            forall|pos: int|
                dst_lo <= pos < covered ==> key_at(out@, pos) == key_at(
                    prev_attr@,
                    pos - dst_lo + src_lo,
                ),
        decreases prev_attr@.len() - k,
    {
        if prev_attr[k].end > src_lo && prev_attr[k].start < src_hi {
            let a_start = prev_attr[k].start;
            let a_end = prev_attr[k].end;
            let st = if a_start < src_lo {
                src_lo
            } else {
                a_start
            };
            let en = if a_end > src_hi {
                src_hi
            } else {
                a_end
            };
            proof {
                if k > 0 {
                    assert(prev_attr@[k - 1].end == prev_attr@[k as int].start);
                }
                assert(prev_attr@[k as int].start < prev_attr@[k as int].end);
                assert(st < en);
            }
            let st_new = st - src_lo + dst_lo;
            let en_new = en - src_lo + dst_lo;
            proof {
                assert(st_new == covered);
            }
            append_span(
                out,
                st_new,
                en_new,
                &prev_attr[k].author,
                &prev_attr[k].prompt,
                prev_attr[k].inherited,
            );
            proof {
                assert forall|q: int| st <= q < en implies key_at(prev_attr@, q) == attr_key(
                    prev_attr@[k as int],
                ) by {
                    lemma_key_at_of(prev_attr@, prev_len as int, k as int, q);
                }
            }
            covered = en_new;
        }
        k += 1;
    }
    proof {
        if prev_attr@.len() == 0 {
            assert(src_hi == src_lo);
        } else {
            assert(prev_attr@[prev_attr@.len() - 1].end == prev_len);
            if prev_attr@[prev_attr@.len() - 1].end <= src_lo {
                assert(src_hi == src_lo);
            }
        }
        assert(covered as int == dst_lo + (src_hi - src_lo));
    }
}

/// The key a new position carries: the old position's key when the
/// edit kept it, the editing author's key when the edit wrote it.
pub open spec fn target_key(
    prev: Seq<char>,
    next: Seq<char>,
    prev_attr: Seq<Attribution>,
    fresh: AttrKey,
    pos: int,
) -> AttrKey {
    match src_seq(prev, next)[pos] {
        Some(q) => key_at(prev_attr, q),
        None => fresh,
    }
}

/// One kept line of the canonical edit: its characters' sources, and
/// how the remaining sources continue.
proof fn lemma_keep_step(a: Seq<char>, b: Seq<char>, i: int, j: int)
    requires
        0 <= i <= fl_count(a),
        0 <= j <= fl_count(b),
        keep_here(a, b, i, j),
        srcs_from(a, b, i, j) == src_seq(a, b).subrange(fl_start_x(b, j), b.len() as int),
    ensures
        fl_start_x(b, j) == fl_start(b, j),
        fl_start_x(b, j + 1) == fl_end(b, j),
        fl_end(b, j) - fl_start(b, j) == fl_end(a, i) - fl_start(a, i),
        forall|pos: int|
            fl_start(b, j) <= pos < fl_end(b, j) ==> #[trigger] src_seq(a, b)[pos] == Some(
                fl_start(a, i) + (pos - fl_start(b, j)),
            ),
        srcs_from(a, b, i + 1, j + 1) == src_seq(a, b).subrange(fl_end(b, j), b.len() as int),
{
    lemma_fl_partition(a, i);
    lemma_fl_partition(b, j);
    lemma_srcs_from_ok(a, b, i, j);
    lemma_srcs_from_ok(a, b, i + 1, j + 1);
    lemma_src_seq_len(a, b);
    assert(fl_at(a, i).len() == fl_at(b, j).len());
    let blo = fl_start(b, j);
    let bhi = fl_end(b, j);
    let rest = srcs_from(a, b, i + 1, j + 1);
    assert(srcs_from(a, b, i, j).len() == (bhi - blo) + rest.len());
    assert forall|pos: int| blo <= pos < bhi implies #[trigger] src_seq(a, b)[pos] == Some(
        fl_start(a, i) + (pos - blo),
    ) by {
        assert(src_seq(a, b)[pos] == src_seq(a, b).subrange(blo, b.len() as int)[pos - blo]);
        assert(srcs_from(a, b, i, j)[pos - blo] == Some(fl_start(a, i) + (pos - blo)));
    }
    assert(rest =~= src_seq(a, b).subrange(bhi, b.len() as int)) by {
        assert forall|d: int| 0 <= d < rest.len() implies rest[d] == src_seq(a, b).subrange(
            bhi,
            b.len() as int,
        )[d] by {
            assert(srcs_from(a, b, i, j)[(bhi - blo) + d] == rest[d]);
            assert(srcs_from(a, b, i, j)[(bhi - blo) + d] == src_seq(a, b).subrange(
                blo,
                b.len() as int,
            )[(bhi - blo) + d]);
        }
    }
}

/// One replaced run of the canonical edit: its characters' sources,
/// and how the remaining sources continue.
proof fn lemma_run_step(a: Seq<char>, b: Seq<char>, i: int, j: int, di: int, dj: int)
    requires
        0 <= i <= fl_count(a),
        0 <= j <= fl_count(b),
        !keep_here(a, b, i, j),
        !(i >= fl_count(a) && j >= fl_count(b)),
        (di, dj) == run_end(a, b, i, j),
        srcs_from(a, b, i, j) == src_seq(a, b).subrange(fl_start_x(b, j), b.len() as int),
    ensures
        i <= di <= fl_count(a),
        j <= dj <= fl_count(b),
        di + dj > i + j,
        fl_start_x(a, i) <= fl_start_x(a, di) <= a.len(),
        fl_start_x(b, j) <= fl_start_x(b, dj) <= b.len(),
        forall|pos: int|
            fl_start_x(b, j) <= pos < fl_start_x(b, dj) ==> #[trigger] src_seq(a, b)[pos]
                == run_srcs(
                a,
                b,
                fl_start_x(a, i),
                fl_start_x(a, di),
                fl_start_x(b, j),
                fl_start_x(b, dj),
            )[pos - fl_start_x(b, j)],
        srcs_from(a, b, di, dj) == src_seq(a, b).subrange(fl_start_x(b, dj), b.len() as int),
{
    lemma_run_end_bounds(a, b, i, j);
    lemma_fl_start_x_mono(a, i, di);
    lemma_fl_start_x_mono(a, di, fl_count(a));
    lemma_fl_start_x_mono(b, j, dj);
    lemma_fl_start_x_mono(b, dj, fl_count(b));
    lemma_srcs_from_ok(a, b, i, j);
    lemma_srcs_from_ok(a, b, di, dj);
    lemma_src_seq_len(a, b);
    let nb_lo = fl_start_x(b, j);
    let nb_hi = fl_start_x(b, dj);
    assert(di == run_end(a, b, i, j).0);
    assert(dj == run_end(a, b, i, j).1);
    let rm = run_srcs(a, b, fl_start_x(a, i), fl_start_x(a, di), nb_lo, nb_hi);
    let rest = srcs_from(a, b, di, dj);
    assert(rm.len() == nb_hi - nb_lo);
    assert(srcs_from(a, b, i, j) == rm + rest);
    assert forall|pos: int| nb_lo <= pos < nb_hi implies #[trigger] src_seq(a, b)[pos] == rm[pos
        - nb_lo] by {
        assert(src_seq(a, b)[pos] == src_seq(a, b).subrange(nb_lo, b.len() as int)[pos - nb_lo]);
        assert(src_seq(a, b).subrange(nb_lo, b.len() as int)[pos - nb_lo] == rm[pos - nb_lo]);
    }
    assert(rest =~= src_seq(a, b).subrange(nb_hi, b.len() as int)) by {
        assert forall|d: int| 0 <= d < rest.len() implies rest[d] == src_seq(a, b).subrange(
            nb_hi,
            b.len() as int,
        )[d] by {
            assert(rest[d] == (rm + rest)[(nb_hi - nb_lo) + d]);
            assert((rm + rest)[(nb_hi - nb_lo) + d] == src_seq(a, b).subrange(
                nb_lo,
                b.len() as int,
            )[(nb_hi - nb_lo) + d]);
        }
    }
}

/// Projects `prev_attr`, a well-formed attribution of `prev`, through
/// the canonical edit from `prev` to `next`, crediting freshly written
/// characters to `author` (with `prompt`).
///
/// The result is the canonical attribution of `next`: a position kept
/// by the edit carries the key of the old position it came from, a
/// written position carries the editing author's key.
#[verifier::rlimit(100)]
#[verifier::spinoff_prover]
pub fn diff_attribute(
    prev: &Vec<char>,
    next: &Vec<char>,
    prev_attr: &Vec<Attribution>,
    author: &Vec<char>,
    prompt: &Option<Vec<char>>,
) -> (r: Vec<Attribution>)
    requires
        attrs_wf(prev_attr@, prev@.len() as int),
        attrs_merged(prev_attr@),
    ensures
        attrs_wf(r@, next@.len() as int),
        attrs_merged(r@),
        forall|pos: int|
            0 <= pos < next@.len() ==> key_at(r@, pos) == target_key(
                prev@,
                next@,
                prev_attr@,
                (AttrKey { author: author@, prompt: opt_chars_view(*prompt), inherited: false }),
                pos,
            ),
{
    let ghost fresh = AttrKey { author: author@, prompt: opt_chars_view(*prompt), inherited: false };
    let spans_a = crate::lines::scan_line_spans(prev);
    let spans_b = crate::lines::scan_line_spans(next);
    let n = spans_a.len();
    let m = spans_b.len();
    let tab = build_llcs(prev, &spans_a, next, &spans_b);
    let mut out: Vec<Attribution> = Vec::new();
    let mut i: usize = 0;
    let mut j: usize = 0;
    proof {
        assert(fl_start_x(next@, 0) == 0) by {
            if fl_count(next@) > 0 {
                lemma_fl_partition(next@, 0);
            }
        }
        assert(src_seq(prev@, next@).subrange(0, next@.len() as int) =~= src_seq(prev@, next@))
            by {
            lemma_srcs_from_ok(prev@, next@, 0, 0);
        }
    }
    while i < n || j < m
        invariant
            0 <= i <= n,
            0 <= j <= m,
            n == fl_count(prev@),
            m == fl_count(next@),
            crate::lines::spans_view(spans_a@) == crate::lines::line_spans(prev@),
            crate::lines::spans_view(spans_b@) == crate::lines::line_spans(next@),
            tab_ok(tab@, prev@, next@),
            attrs_wf(prev_attr@, prev@.len() as int),
            attrs_merged(prev_attr@),
            fresh == (AttrKey {
                author: author@,
                prompt: opt_chars_view(*prompt),
                inherited: false,
            }),
            attrs_wf(out@, fl_start_x(next@, j as int)),
            attrs_merged(out@),
            forall|pos: int|
                0 <= pos < fl_start_x(next@, j as int) ==> key_at(out@, pos) == target_key(
                    prev@,
                    next@,
                    prev_attr@,
                    fresh,
                    pos,
                ),
            srcs_from(prev@, next@, i as int, j as int) == src_seq(prev@, next@).subrange(
                fl_start_x(next@, j as int),
                next@.len() as int,
            ),
        decreases n - i + m - j,
    {
        let keep_now: bool;
        if i < n && j < m && lines_eq_at(prev, &spans_a, i, next, &spans_b, j) {
            let diag = cell(&tab, n, m, i + 1, j + 1, Ghost(prev@), Ghost(next@));
            let here = cell(&tab, n, m, i, j, Ghost(prev@), Ghost(next@));
            proof {
                lemma_llcs_bounds(prev@, next@, i + 1, j + 1);
            }
            keep_now = 1 + diag == here;
        } else {
            keep_now = false;
        }
        proof {
            assert(keep_now == keep_here(prev@, next@, i as int, j as int));
        }
        if keep_now {
            proof {
                lemma_keep_step(prev@, next@, i as int, j as int);
            }
            let (alo, ahi) = fl_bounds(prev, &spans_a, i);
            let (blo, bhi) = fl_bounds(next, &spans_b, j);
            append_window(&mut out, prev_attr, prev.len(), alo, ahi, blo);
            proof {
                assert forall|pos: int| blo <= pos < bhi implies key_at(out@, pos) == target_key(
                    prev@,
                    next@,
                    prev_attr@,
                    fresh,
                    pos,
                ) by {
                    assert(src_seq(prev@, next@)[pos] == Some(alo + (pos - blo)));
                }
            }
            i += 1;
            j += 1;
        } else {
            // Gather the replaced run: advance to the next kept pair.
            let ri = i;
            let rj = j;
            loop
                invariant
                    ri <= i <= n,
                    rj <= j <= m,
                    n == fl_count(prev@),
                    m == fl_count(next@),
                    crate::lines::spans_view(spans_a@) == crate::lines::line_spans(prev@),
                    crate::lines::spans_view(spans_b@) == crate::lines::line_spans(next@),
                    tab_ok(tab@, prev@, next@),
                    run_end(prev@, next@, ri as int, rj as int) == run_end(
                        prev@,
                        next@,
                        i as int,
                        j as int,
                    ),
                ensures
                    ri <= i <= n,
                    rj <= j <= m,
                    run_end(prev@, next@, ri as int, rj as int) == (i as int, j as int),
                decreases n - i + m - j,
            {
                let keep2: bool;
                if i < n && j < m && lines_eq_at(prev, &spans_a, i, next, &spans_b, j) {
                    let diag = cell(&tab, n, m, i + 1, j + 1, Ghost(prev@), Ghost(next@));
                    let here = cell(&tab, n, m, i, j, Ghost(prev@), Ghost(next@));
                    proof {
                        lemma_llcs_bounds(prev@, next@, i + 1, j + 1);
                    }
                    keep2 = 1 + diag == here;
                } else {
                    keep2 = false;
                }
                proof {
                    assert(keep2 == keep_here(prev@, next@, i as int, j as int));
                }
                if keep2 || (i >= n && j >= m) {
                    break;
                }
                let del2 = i < n && (j >= m || cell(&tab, n, m, i + 1, j, Ghost(prev@), Ghost(next@))
                    == cell(&tab, n, m, i, j, Ghost(prev@), Ghost(next@)));
                proof {
                    assert((!keep2 && del2) == del_here(prev@, next@, i as int, j as int));
                }
                if del2 {
                    i += 1;
                } else {
                    j += 1;
                }
            }
            proof {
                lemma_run_step(prev@, next@, ri as int, rj as int, i as int, j as int);
            }
            let pa_lo = fl_sx(prev, &spans_a, ri);
            let pa_hi = fl_sx(prev, &spans_a, i);
            let nb_lo = fl_sx(next, &spans_b, rj);
            let nb_hi = fl_sx(next, &spans_b, j);
            let pa = crate::text::sub_chars(prev, pa_lo, pa_hi);
            let nb = crate::text::sub_chars(next, nb_lo, nb_hi);
            let pl = compute_prefix_len(&pa, &nb);
            let s_raw = compute_suffix_len(&pa, &nb);
            let cap: usize = if pa.len() < nb.len() {
                pa.len() - pl
            } else {
                nb.len() - pl
            };
            let sfx: usize = if s_raw < cap {
                s_raw
            } else {
                cap
            };
            proof {
                assert(sfx as int == keep_suffix_len(pa@, nb@));
                lemma_keep_bounds(pa@, nb@);
            }
            let ghost run_map = run_srcs(
                prev@,
                next@,
                pa_lo as int,
                pa_hi as int,
                nb_lo as int,
                nb_hi as int,
            );
            if pl > 0 {
                append_window(&mut out, prev_attr, prev.len(), pa_lo, pa_lo + pl, nb_lo);
            }
            if nb_lo + pl < nb_hi - sfx {
                append_span(&mut out, nb_lo + pl, nb_hi - sfx, author, prompt, false);
            }
            if sfx > 0 {
                append_window(&mut out, prev_attr, prev.len(), pa_hi - sfx, pa_hi, nb_hi - sfx);
            }
            proof {
                assert forall|pos: int| nb_lo <= pos < nb_hi implies key_at(out@, pos)
                    == target_key(prev@, next@, prev_attr@, fresh, pos) by {
                    let d = pos - nb_lo;
                    assert(src_seq(prev@, next@)[pos] == run_map[d]);
                    assert(run_map[d] == (if d < keep_prefix_len(pa@, nb@) {
                        Some((pa_lo + d) as int)
                    } else if d < nb_hi - nb_lo - keep_suffix_len(pa@, nb@) {
                        None::<int>
                    } else {
                        Some(pa_hi - (nb_hi - nb_lo - d))
                    }));
                }
            }
        }
    }
    proof {
        assert(fl_start_x(next@, j as int) == next@.len());
    }
    out
}

} // verus!
