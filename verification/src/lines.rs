//! Line-boundary scanning.
//!
//! Lines are found by scanning the actual content for `\n` and `\r\n`
//! terminators (a lone `\r` is ordinary content); a trailing terminator
//! does not open a further empty line. Each line has two character
//! spans: its content span, which excludes the terminator, and its
//! authorship span, which falls back to the terminator characters when
//! the content span is empty, so that an empty line can still be
//! credited to whoever wrote its terminator.

use vstd::prelude::*;

verus! {

/// A terminator (`\n` or `\r\n`) starts at position `j`.
pub open spec fn line_term_at(s: Seq<char>, j: int) -> bool {
    s[j] == '\n' || (s[j] == '\r' && j + 1 < s.len() && s[j + 1] == '\n')
}

/// The start of the line following a terminator that starts at `e` (or
/// the content length when `e` is at the end).
pub open spec fn next_line_start(s: Seq<char>, e: int) -> int {
    if e >= s.len() {
        s.len() as int
    } else if s[e] == '\n' {
        e + 1
    } else {
        e + 2
    }
}

/// The end of the content span of the line starting at `i`: the first
/// terminator at or after `i`, or the end of the content.
pub open spec fn line_end_from(s: Seq<char>, i: int) -> int
    decreases s.len() - i when 0 <= i <= s.len()
{
    if i >= s.len() {
        s.len() as int
    } else if line_term_at(s, i) {
        i
    } else {
        line_end_from(s, i + 1)
    }
}

pub proof fn lemma_line_end_from_bounds(s: Seq<char>, i: int)
    requires
        0 <= i <= s.len(),
    ensures
        i <= line_end_from(s, i) <= s.len(),
        line_end_from(s, i) == s.len() || line_term_at(s, line_end_from(s, i)),
        next_line_start(s, line_end_from(s, i)) <= s.len(),
        i < s.len() ==> next_line_start(s, line_end_from(s, i)) > i,
    decreases s.len() - i,
{
    if i < s.len() && !line_term_at(s, i) {
        lemma_line_end_from_bounds(s, i + 1);
    }
    let e = line_end_from(s, i);
    if e < s.len() && s[e] != '\n' {
        assert(line_term_at(s, e));
        assert(e + 1 < s.len());
    }
}

/// The content spans of all lines of `s`, starting from position `i`.
pub open spec fn line_spans_from(s: Seq<char>, i: int) -> Seq<(int, int)>
    decreases s.len() - i when 0 <= i <= s.len() via line_spans_from_decreases
{
    if i >= s.len() {
        Seq::empty()
    } else {
        seq![(i, line_end_from(s, i))] + line_spans_from(
            s,
            next_line_start(s, line_end_from(s, i)),
        )
    }
}

#[via_fn]
proof fn line_spans_from_decreases(s: Seq<char>, i: int) {
    if 0 <= i < s.len() {
        lemma_line_end_from_bounds(s, i);
    }
}

/// The content spans of all lines of `s`.
pub open spec fn line_spans(s: Seq<char>) -> Seq<(int, int)> {
    line_spans_from(s, 0)
}

/// The number of lines of `s`.
pub open spec fn line_count(s: Seq<char>) -> int {
    line_spans(s).len() as int
}

/// The authorship span of the line with content span `(st, en)`: the
/// content span itself, or the terminator characters when it is empty.
pub open spec fn auth_span_of(s: Seq<char>, st: int, en: int) -> (int, int) {
    if st < en {
        (st, en)
    } else {
        (en, next_line_start(s, en))
    }
}

/// The authorship span of line `i` of `s`.
pub open spec fn line_auth_span(s: Seq<char>, i: int) -> (int, int) {
    auth_span_of(s, line_spans(s)[i].0, line_spans(s)[i].1)
}

proof fn lemma_line_end_characterize(s: Seq<char>, i: int, j: int)
    requires
        0 <= i <= j <= s.len(),
        forall|m: int| i <= m < j ==> !line_term_at(s, m),
        j == s.len() || line_term_at(s, j),
    ensures
        line_end_from(s, i) == j,
    decreases j - i,
{
    if i < j {
        assert(!line_term_at(s, i));
        lemma_line_end_characterize(s, i + 1, j);
    }
}

/// A line's content span, as character indexes.
#[derive(Clone, Copy, PartialEq, Eq, Debug)]
pub struct LineSpan {
    pub start: usize,
    pub end: usize,
}

/// The sequence of content spans a span vector stands for.
pub open spec fn spans_view(spans: Seq<LineSpan>) -> Seq<(int, int)> {
    spans.map_values(|ls: LineSpan| (ls.start as int, ls.end as int))
}

/// Scans `content` for its line content spans.
pub fn scan_line_spans(content: &Vec<char>) -> (spans: Vec<LineSpan>)
    ensures
        spans_view(spans@) == line_spans(content@),
{
    let n = content.len();
    let mut spans: Vec<LineSpan> = Vec::new();
    let mut i: usize = 0;
    while i < n
        invariant
            0 <= i <= n,
            n == content@.len(),
            line_spans(content@) =~= spans_view(spans@) + line_spans_from(content@, i as int),
        decreases n - i,
    {
        let start = i;
        let mut j: usize = i;
        while j < n && !(content[j] == '\n' || (content[j] == '\r' && j + 1 < n && content[j + 1]
            == '\n'))
            invariant
                start <= j <= n,
                n == content@.len(),
                forall|m: int| start <= m < j ==> !line_term_at(content@, m),
            decreases n - j,
        {
            proof {
                assert(!line_term_at(content@, j as int));
            }
            j += 1;
        }
        proof {
            lemma_line_end_characterize(content@, start as int, j as int);
            assert(line_end_from(content@, start as int) == j as int);
        }
        spans.push(LineSpan { start, end: j });
        let next: usize = if j >= n {
            n
        } else if content[j] == '\n' {
            j + 1
        } else {
            j + 2
        };
        proof {
            assert(next as int == next_line_start(content@, j as int));
            assert(next <= n) by {
                if (j as int) < n && content@[j as int] != '\n' {
                    assert(line_term_at(content@, j as int));
                    assert(j + 1 < n);
                }
            }
            assert(next > i);
            assert(line_spans_from(content@, start as int) =~= seq![
                (start as int, j as int),
            ] + line_spans_from(content@, next as int));
            assert(spans_view(spans@) =~= spans_view(spans@.drop_last()) + seq![
                (start as int, j as int),
            ]);
        }
        i = next;
    }
    proof {
        assert(line_spans_from(content@, i as int) =~= Seq::<(int, int)>::empty());
        assert(spans_view(spans@) =~= line_spans(content@));
    }
    spans
}

/// The authorship span of line `i`, computed from scanned spans.
pub fn auth_span(content: &Vec<char>, spans: &Vec<LineSpan>, i: usize) -> (r: (usize, usize))
    requires
        spans_view(spans@) == line_spans(content@),
        i < spans@.len(),
    ensures
        (r.0 as int, r.1 as int) == line_auth_span(content@, i as int),
        r.0 <= r.1 <= content@.len(),
{
    let st = spans[i].start;
    let en = spans[i].end;
    proof {
        lemma_line_spans_in_range(content@, i as int);
        assert(line_spans(content@)[i as int] == (st as int, en as int));
    }
    if st < en {
        (st, en)
    } else {
        let hi: usize;
        if en >= content.len() {
            hi = content.len();
        } else if content[en] == '\n' {
            hi = en + 1;
        } else {
            proof {
                lemma_line_term_after_span(content@, i as int);
            }
            hi = en + 2;
        }
        proof {
            assert(hi as int == next_line_start(content@, en as int));
            assert(hi <= content@.len()) by {
                if (en as int) < content@.len() && content@[en as int] != '\n' {
                    assert(line_term_at(content@, en as int));
                }
            }
        }
        (en, hi)
    }
}

/// Every line span lies within the content, in order.
pub proof fn lemma_line_spans_in_range(s: Seq<char>, i: int)
    requires
        0 <= i < line_spans(s).len(),
    ensures
        0 <= line_spans(s)[i].0 <= line_spans(s)[i].1 <= s.len(),
        line_spans(s)[i].0 < s.len(),
{
    lemma_line_spans_from_in_range(s, 0, i);
}

/// Each line's content span ends at a terminator or at the end of the
/// content.
pub proof fn lemma_line_term_after_span(s: Seq<char>, i: int)
    requires
        0 <= i < line_spans(s).len(),
    ensures
        line_spans(s)[i].1 == s.len() || line_term_at(s, line_spans(s)[i].1),
{
    lemma_line_spans_from_term(s, 0, i);
}

proof fn lemma_line_spans_from_term(s: Seq<char>, start: int, i: int)
    requires
        0 <= start <= s.len(),
        0 <= i < line_spans_from(s, start).len(),
    ensures
        line_spans_from(s, start)[i].1 == s.len() || line_term_at(
            s,
            line_spans_from(s, start)[i].1,
        ),
    decreases s.len() - start,
{
    if start < s.len() {
        lemma_line_end_from_bounds(s, start);
        let e = line_end_from(s, start);
        let ns = next_line_start(s, e);
        if i == 0 {
        } else {
            lemma_line_spans_from_term(s, ns, i - 1);
        }
    }
}

proof fn lemma_line_spans_from_in_range(s: Seq<char>, start: int, i: int)
    requires
        0 <= start <= s.len(),
        0 <= i < line_spans_from(s, start).len(),
    ensures
        start <= line_spans_from(s, start)[i].0 <= line_spans_from(s, start)[i].1 <= s.len(),
        line_spans_from(s, start)[i].0 < s.len(),
    decreases s.len() - start,
{
    if start < s.len() {
        lemma_line_end_from_bounds(s, start);
        let e = line_end_from(s, start);
        let ns = next_line_start(s, e);
        if i == 0 {
        } else {
            lemma_line_spans_from_in_range(s, ns, i - 1);
        }
    }
}

/// Consecutive line spans meet at the next line start; the first line
/// starts at the very beginning.
pub proof fn lemma_line_spans_structure(s: Seq<char>, t: int)
    requires
        0 <= t < line_spans(s).len(),
    ensures
        t == 0 ==> line_spans(s)[t].0 == 0,
        t + 1 < line_spans(s).len() ==> line_spans(s)[t + 1].0 == next_line_start(
            s,
            line_spans(s)[t].1,
        ),
        t + 1 < line_spans(s).len() ==> line_spans(s)[t].1 < line_spans(s)[t + 1].0,
        t + 1 == line_spans(s).len() ==> next_line_start(s, line_spans(s)[t].1) == s.len(),
{
    lemma_line_spans_from_structure(s, 0, t);
}

proof fn lemma_line_spans_from_structure(s: Seq<char>, start: int, t: int)
    requires
        0 <= start <= s.len(),
        0 <= t < line_spans_from(s, start).len(),
    ensures
        t == 0 ==> line_spans_from(s, start)[t].0 == start,
        t + 1 < line_spans_from(s, start).len() ==> line_spans_from(s, start)[t + 1].0
            == next_line_start(s, line_spans_from(s, start)[t].1),
        t + 1 < line_spans_from(s, start).len() ==> line_spans_from(s, start)[t].1
            < line_spans_from(s, start)[t + 1].0,
        t + 1 == line_spans_from(s, start).len() ==> next_line_start(
            s,
            line_spans_from(s, start)[t].1,
        ) == s.len(),
    decreases s.len() - start,
{
    if start < s.len() {
        lemma_line_end_from_bounds(s, start);
        let e = line_end_from(s, start);
        let ns = next_line_start(s, e);
        if t == 0 {
            if line_spans_from(s, start).len() > 1 {
                lemma_line_spans_from_structure(s, ns, 0);
                assert(line_spans_from(s, start)[1] == line_spans_from(s, ns)[0]);
            } else {
                assert(line_spans_from(s, ns).len() == 0);
                assert(ns == s.len());
            }
        } else {
            lemma_line_spans_from_structure(s, ns, t - 1);
        }
    }
}

} // verus!
