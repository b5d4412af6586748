//! Per-commit attestations: for each touched file, who wrote which
//! lines.
//!
//! An attestation entry groups the lines freshly written by one
//! `(author, prompt)` pair into the minimal sorted list of line
//! ranges. A line counts as modified by the pending change set when
//! its authorship span holds at least one freshly written character;
//! lines merely inherited from the base commit are not attested again.

use vstd::prelude::*;

use crate::attribution::Attribution;
use crate::lines::{auth_span, line_auth_span, line_count, scan_line_spans, spans_view};
use crate::text::{chars_eq, copy_chars, copy_opt_chars, opt_chars_eq, opt_chars_view};
use crate::working_log::PromptRecord;

verus! {

/// A run of attested lines, 1-based and inclusive.
#[derive(Clone, Copy, Debug, PartialEq, Eq, Structural)]
pub enum LineRange {
    Single(u32),
    Inclusive(u32, u32),
}

pub open spec fn range_lo(r: LineRange) -> int {
    match r {
        LineRange::Single(n) => n as int,
        LineRange::Inclusive(a, _) => a as int,
    }
}

pub open spec fn range_hi(r: LineRange) -> int {
    match r {
        LineRange::Single(n) => n as int,
        LineRange::Inclusive(_, b) => b as int,
    }
}

/// Line `n` lies in range `r`.
pub open spec fn in_range(r: LineRange, n: int) -> bool {
    range_lo(r) <= n <= range_hi(r)
}

/// Line `n` lies in some range of `rs`.
pub open spec fn in_ranges(rs: Seq<LineRange>, n: int) -> bool {
    exists|i: int| 0 <= i < rs.len() && in_range(#[trigger] rs[i], n)
}

/// The minimal sorted form: ranges are proper, ascending, and
/// separated by gaps, so no shorter list covers the same lines.
pub open spec fn ranges_canonical(rs: Seq<LineRange>) -> bool {
    &&& forall|i: int|
        0 <= i < rs.len() ==> range_lo(#[trigger] rs[i]) <= range_hi(rs[i]) && (rs[i] is Inclusive
            ==> range_lo(rs[i]) < range_hi(rs[i]))
    &&& forall|i: int, j: int| #![trigger rs[i], rs[j]]
        0 <= i && j == i + 1 && j < rs.len() ==> range_hi(rs[i]) + 1 < range_lo(rs[j])
}

/// Line `n` occurs among the first `upto` entries of `lines`.
pub open spec fn listed(lines: Seq<u32>, upto: int, n: u32) -> bool {
    exists|w: int| 0 <= w < upto && lines[w] == n
}

/// Turns a strictly increasing line list into its minimal sorted range
/// list.
pub fn compress_lines(lines: &Vec<u32>) -> (rs: Vec<LineRange>)
    requires
        forall|i: int, j: int| #![trigger lines@[i], lines@[j]]
            0 <= i && j == i + 1 && j < lines@.len() ==> lines@[i] < lines@[j],
    ensures
        ranges_canonical(rs@),
        forall|n: u32| #[trigger] in_ranges(rs@, n as int) <==> listed(lines@, lines@.len() as int, n),
{
    let mut rs: Vec<LineRange> = Vec::new();
    if lines.len() == 0 {
        proof {
            assert forall|n: u32| !in_ranges(rs@, n as int) && !listed(
                lines@,
                lines@.len() as int,
                n,
            ) by {
                assert(rs@.len() == 0 && lines@.len() == 0);
            }
        }
        return rs;
    }
    let mut cur_lo: u32 = lines[0];
    let mut cur_hi: u32 = lines[0];
    let mut j: usize = 1;
    proof {
        assert(listed(lines@, 1, lines@[0]));
    }
    while j < lines.len()
        invariant
            1 <= j <= lines@.len(),
            lines@.len() > 0,
            forall|i2: int, j2: int| #![trigger lines@[i2], lines@[j2]]
                0 <= i2 && j2 == i2 + 1 && j2 < lines@.len() ==> lines@[i2] < lines@[j2],
            cur_lo <= cur_hi,
            cur_hi == lines@[j - 1],
            ranges_canonical(rs@),
            forall|i2: int| 0 <= i2 < rs.len() ==> range_hi(#[trigger] rs@[i2]) + 1 < cur_lo,
            forall|n: u32|
                (#[trigger] in_ranges(rs@, n as int) || cur_lo <= n <= cur_hi) <==> listed(
                    lines@,
                    j as int,
                    n,
                ),
        decreases lines@.len() - j,
    {
        proof {
            assert(lines@[j - 1] < lines@[j as int]);
        }
        if lines[j] == cur_hi + 1 {
            let ghost old_hi = cur_hi;
            proof {
                assert forall|n: u32|
                    (#[trigger] in_ranges(rs@, n as int) || cur_lo <= n <= old_hi + 1) implies
                    listed(lines@, j + 1, n) by {
                    if n as int == old_hi + 1 {
                        assert(lines@[j as int] == n);
                        assert(listed(lines@, j + 1, n));
                    } else {
                        assert(in_ranges(rs@, n as int) || cur_lo <= n <= cur_hi);
                        assert(listed(lines@, j as int, n));
                        let w = choose|w: int| 0 <= w < j && lines@[w] == n;
                        assert(listed(lines@, j + 1, n));
                    }
                }
                assert forall|n: u32| listed(lines@, j + 1, n) implies (#[trigger] in_ranges(
                    rs@,
                    n as int,
                ) || cur_lo <= n <= old_hi + 1) by {
                    let w = choose|w: int| 0 <= w < j + 1 && lines@[w] == n;
                    if w < j {
                        assert(listed(lines@, j as int, n));
                    }
                }
            }
            cur_hi = cur_hi + 1;
        } else {
            let r = if cur_lo == cur_hi {
                LineRange::Single(cur_lo)
            } else {
                LineRange::Inclusive(cur_lo, cur_hi)
            };
            let nxt = lines[j];
            let ghost new_rs = rs@.push(r);
            proof {
                assert(range_lo(r) == cur_lo && range_hi(r) == cur_hi);
                assert(ranges_canonical(new_rs)) by {
                    assert forall|i2: int, j2: int| #![trigger new_rs[i2], new_rs[j2]]
                        0 <= i2 && j2 == i2 + 1 && j2 < new_rs.len() implies range_hi(new_rs[i2])
                        + 1 < range_lo(new_rs[j2]) by {
                        if j2 < rs@.len() {
                            assert(new_rs[i2] == rs@[i2] && new_rs[j2] == rs@[j2]);
                        } else {
                            assert(new_rs[j2] == r);
                            assert(range_hi(rs@[i2]) + 1 < cur_lo);
                        }
                    }
                    assert forall|i2: int| 0 <= i2 < new_rs.len() implies range_lo(
                        #[trigger] new_rs[i2],
                    ) <= range_hi(new_rs[i2]) && (new_rs[i2] is Inclusive ==> range_lo(new_rs[i2])
                        < range_hi(new_rs[i2])) by {
                        if i2 < rs@.len() {
                            assert(new_rs[i2] == rs@[i2]);
                        } else {
                            assert(new_rs[i2] == r);
                        }
                    }
                }
                assert forall|i2: int| 0 <= i2 < new_rs.len() implies range_hi(
                    #[trigger] new_rs[i2],
                ) + 1 < nxt by {
                    if i2 < rs@.len() {
                        assert(new_rs[i2] == rs@[i2]);
                        assert(range_hi(rs@[i2]) + 1 < cur_lo);
                    } else {
                        assert(new_rs[i2] == r);
                    }
                }
                assert forall|n: u32|
                    (#[trigger] in_ranges(new_rs, n as int) || nxt <= n <= nxt) implies listed(
                    lines@,
                    j + 1,
                    n,
                ) by {
                    if n == nxt {
                        assert(lines@[j as int] == n);
                        assert(listed(lines@, j + 1, n));
                    } else {
                        let wi = choose|wi: int| 0 <= wi < new_rs.len() && in_range(
                            #[trigger] new_rs[wi],
                            n as int,
                        );
                        if wi < rs@.len() {
                            assert(new_rs[wi] == rs@[wi]);
                            assert(in_ranges(rs@, n as int));
                        } else {
                            assert(new_rs[wi] == r);
                            assert(cur_lo <= n <= cur_hi);
                        }
                        assert(in_ranges(rs@, n as int) || cur_lo <= n <= cur_hi);
                        assert(listed(lines@, j as int, n));
                        let w = choose|w: int| 0 <= w < j && lines@[w] == n;
                        assert(listed(lines@, j + 1, n));
                    }
                }
                assert forall|n: u32| listed(lines@, j + 1, n) implies (#[trigger] in_ranges(
                    new_rs,
                    n as int,
                ) || nxt <= n <= nxt) by {
                    let w = choose|w: int| 0 <= w < j + 1 && lines@[w] == n;
                    if w < j {
                        assert(listed(lines@, j as int, n));
                        assert(in_ranges(rs@, n as int) || cur_lo <= n <= cur_hi);
                        if cur_lo <= n <= cur_hi {
                            assert(in_range(new_rs[new_rs.len() - 1], n as int));
                        } else {
                            let wi = choose|wi: int| 0 <= wi < rs@.len() && in_range(
                                #[trigger] rs@[wi],
                                n as int,
                            );
                            assert(in_range(new_rs[wi], n as int));
                        }
                    } else {
                        assert(lines@[j as int] == n);
                    }
                }
            }
            rs.push(r);
            cur_lo = nxt;
            cur_hi = nxt;
            proof {
                assert(rs@ =~= new_rs);
            }
        }
        j += 1;
    }
    let r = if cur_lo == cur_hi {
        LineRange::Single(cur_lo)
    } else {
        LineRange::Inclusive(cur_lo, cur_hi)
    };
    let ghost new_rs = rs@.push(r);
    proof {
        assert(range_lo(r) == cur_lo && range_hi(r) == cur_hi);
        assert(ranges_canonical(new_rs)) by {
            assert forall|i2: int, j2: int| #![trigger new_rs[i2], new_rs[j2]]
                0 <= i2 && j2 == i2 + 1 && j2 < new_rs.len() implies range_hi(new_rs[i2]) + 1
                < range_lo(new_rs[j2]) by {
                if j2 < rs@.len() {
                    assert(new_rs[i2] == rs@[i2] && new_rs[j2] == rs@[j2]);
                } else {
                    assert(new_rs[j2] == r);
                    assert(range_hi(rs@[i2]) + 1 < cur_lo);
                }
            }
            assert forall|i2: int| 0 <= i2 < new_rs.len() implies range_lo(
                #[trigger] new_rs[i2],
            ) <= range_hi(new_rs[i2]) && (new_rs[i2] is Inclusive ==> range_lo(new_rs[i2])
                < range_hi(new_rs[i2])) by {
                if i2 < rs@.len() {
                    assert(new_rs[i2] == rs@[i2]);
                } else {
                    assert(new_rs[i2] == r);
                }
            }
        }
        assert forall|n: u32| #[trigger] in_ranges(new_rs, n as int) implies listed(
            lines@,
            lines@.len() as int,
            n,
        ) by {
            let wi = choose|wi: int| 0 <= wi < new_rs.len() && in_range(
                #[trigger] new_rs[wi],
                n as int,
            );
            if wi < rs@.len() {
                assert(new_rs[wi] == rs@[wi]);
                assert(in_ranges(rs@, n as int));
            } else {
                assert(new_rs[wi] == r);
                assert(cur_lo <= n <= cur_hi);
            }
            assert(in_ranges(rs@, n as int) || cur_lo <= n <= cur_hi);
            assert(listed(lines@, j as int, n));
            assert(j == lines@.len());
        }
        assert forall|n: u32| listed(lines@, lines@.len() as int, n) implies in_ranges(
            new_rs,
            n as int,
        ) by {
            assert(j == lines@.len());
            assert(listed(lines@, j as int, n));
            assert(in_ranges(rs@, n as int) || cur_lo <= n <= cur_hi);
            if cur_lo <= n <= cur_hi {
                assert(in_range(new_rs[new_rs.len() - 1], n as int));
            } else {
                let wi = choose|wi: int| 0 <= wi < rs@.len() && in_range(
                    #[trigger] rs@[wi],
                    n as int,
                );
                assert(in_range(new_rs[wi], n as int));
            }
        }
    }
    rs.push(r);
    proof {
        assert(rs@ =~= new_rs);
    }
    rs
}

/// One attestation entry: the lines freshly written by one author
/// under one prompt.
pub struct AttestationEntry {
    pub author_id: Vec<char>,
    pub hash: Option<Vec<char>>,
    pub line_ranges: Vec<LineRange>,
}

/// The attestation of one file in one commit.
pub struct FileAttestation {
    pub file_path: Vec<char>,
    pub entries: Vec<AttestationEntry>,
}

/// The per-commit authorship record: one attestation per touched file,
/// and the prompt records referenced by their hashes.
pub struct AuthorshipLog {
    pub attestations: Vec<FileAttestation>,
    pub prompts: Vec<PromptRecord>,
}

/// Attribution interval `a` carries the fresh key `k`.
pub open spec fn attr_has_key(a: Attribution, k: (Seq<char>, Option<Seq<char>>)) -> bool {
    !a.inherited && a.author@ == k.0 && opt_chars_view(a.prompt) == k.1
}

/// The distinct keys of freshly written intervals, in order of first
/// appearance.
pub open spec fn fresh_keys(attrs: Seq<Attribution>) -> Seq<(Seq<char>, Option<Seq<char>>)>
    decreases attrs.len(),
{
    if attrs.len() == 0 {
        Seq::empty()
    } else {
        let rest = fresh_keys(attrs.drop_last());
        if attrs.last().inherited {
            rest
        } else {
            let k = (attrs.last().author@, opt_chars_view(attrs.last().prompt));
            if rest.contains(k) {
                rest
            } else {
                rest.push(k)
            }
        }
    }
}

/// A fresh interval with key `k` touches line `i`'s authorship span.
pub open spec fn line_has_fresh_key(
    s: Seq<char>,
    attrs: Seq<Attribution>,
    i: int,
    k: (Seq<char>, Option<Seq<char>>),
) -> bool {
    exists|m: int|
        0 <= m < attrs.len() && attr_has_key(#[trigger] attrs[m], k) && crate::stats::overlaps(
            attrs[m],
            line_auth_span(s, i).0,
            line_auth_span(s, i).1,
        )
}

/// Some fresh interval touches line `i`'s authorship span: the line
/// was modified by the pending change set.
pub open spec fn line_modified(s: Seq<char>, attrs: Seq<Attribution>, i: int) -> bool {
    exists|m: int|
        0 <= m < attrs.len() && !(#[trigger] attrs[m]).inherited && crate::stats::overlaps(
            attrs[m],
            line_auth_span(s, i).0,
            line_auth_span(s, i).1,
        )
}

/// The contract of a finalized file attestation, relating it to the
/// content and attribution it was built from.
pub open spec fn attestation_matches(
    att: FileAttestation,
    path: Seq<char>,
    s: Seq<char>,
    attrs: Seq<Attribution>,
) -> bool {
    &&& att.file_path@ == path
    &&& att.entries@.len() == fresh_keys(attrs).len()
    &&& forall|e: int|
        0 <= e < att.entries@.len() ==> (#[trigger] att.entries@[e]).author_id@ == fresh_keys(
            attrs,
        )[e].0 && opt_chars_view(att.entries@[e].hash) == fresh_keys(attrs)[e].1
            && ranges_canonical(att.entries@[e].line_ranges@)
    &&& forall|e: int, n: u32|
        0 <= e < att.entries@.len() ==> (#[trigger] in_ranges(
            (#[trigger] att.entries@[e]).line_ranges@,
            n as int,
        ) <==> (1 <= n <= line_count(s) && line_has_fresh_key(s, attrs, n - 1, fresh_keys(attrs)[e])))
}

/// Builds the attestation of one file: the lines freshly written by
/// each `(author, prompt)` pair, compressed into canonical ranges.
pub fn finalize_file(
    path: &Vec<char>,
    content: &Vec<char>,
    attrs: &Vec<Attribution>,
) -> (att: FileAttestation)
    requires
        line_count(content@) <= u32::MAX,
    ensures
        attestation_matches(att, path@, content@, attrs@),
{
    // Distinct keys of fresh intervals, in order of first appearance.
    let mut keys: Vec<(Vec<char>, Option<Vec<char>>)> = Vec::new();
    let mut i: usize = 0;
    while i < attrs.len()
        invariant
            0 <= i <= attrs@.len(),
            keys@.len() == fresh_keys(attrs@.subrange(0, i as int)).len(),
            forall|e: int|
                0 <= e < keys@.len() ==> (#[trigger] keys@[e]).0@ == fresh_keys(
                    attrs@.subrange(0, i as int),
                )[e].0 && opt_chars_view(keys@[e].1) == fresh_keys(attrs@.subrange(0, i as int))[e].1,
        decreases attrs@.len() - i,
    {
        let ghost pre = attrs@.subrange(0, i as int);
        let ghost post = attrs@.subrange(0, i + 1);
        proof {
            assert(post.drop_last() =~= pre);
            assert(post.last() == attrs@[i as int]);
        }
        if !attrs[i].inherited {
            let ghost k = (attrs@[i as int].author@, opt_chars_view(attrs@[i as int].prompt));
            let mut found = false;
            let mut e: usize = 0;
            while e < keys.len()
                invariant
                    0 <= e <= keys@.len(),
                    i < attrs@.len(),
                    found == exists|w: int|
                        0 <= w < e && (#[trigger] keys@[w]).0@ == k.0 && opt_chars_view(keys@[w].1)
                            == k.1,
                    k == (attrs@[i as int].author@, opt_chars_view(attrs@[i as int].prompt)),
                decreases keys@.len() - e,
            {
                if chars_eq(&keys[e].0, &attrs[i].author) && opt_chars_eq(
                    &keys[e].1,
                    &attrs[i].prompt,
                ) {
                    found = true;
                }
                e += 1;
            }
            proof {
                if found {
                    let w = choose|w: int|
                        0 <= w < keys@.len() && (#[trigger] keys@[w]).0@ == k.0 && opt_chars_view(
                            keys@[w].1,
                        ) == k.1;
                    assert(fresh_keys(pre)[w] == k);
                    assert(fresh_keys(pre).contains(k));
                } else {
                    if fresh_keys(pre).contains(k) {
                        let w = choose|w: int|
                            0 <= w < fresh_keys(pre).len() && fresh_keys(pre)[w] == k;
                        assert(keys@[w].0@ == k.0 && opt_chars_view(keys@[w].1) == k.1);
                        assert(false);
                    }
                }
            }
            if !found {
                keys.push((copy_chars(&attrs[i].author), copy_opt_chars(&attrs[i].prompt)));
            }
        }
        i += 1;
    }
    proof {
        assert(attrs@.subrange(0, attrs@.len() as int) =~= attrs@);
    }

    let spans = scan_line_spans(content);
    proof {
        assert(spans@.len() == line_count(content@));
    }
    let mut entries: Vec<AttestationEntry> = Vec::new();
    let mut e: usize = 0;
    while e < keys.len()
        invariant
            0 <= e <= keys@.len(),
            spans@.len() == line_count(content@),
            spans@.len() <= u32::MAX,
            spans_view(spans@) == crate::lines::line_spans(content@),
            keys@.len() == fresh_keys(attrs@).len(),
            forall|e2: int|
                0 <= e2 < keys@.len() ==> (#[trigger] keys@[e2]).0@ == fresh_keys(attrs@)[e2].0
                    && opt_chars_view(keys@[e2].1) == fresh_keys(attrs@)[e2].1,
            entries@.len() == e,
            forall|e2: int|
                0 <= e2 < e ==> (#[trigger] entries@[e2]).author_id@ == fresh_keys(attrs@)[e2].0
                    && opt_chars_view(entries@[e2].hash) == fresh_keys(attrs@)[e2].1
                    && ranges_canonical(entries@[e2].line_ranges@),
            forall|e2: int, n: u32|
                0 <= e2 < e ==> (#[trigger] in_ranges(
                    (#[trigger] entries@[e2]).line_ranges@,
                    n as int,
                ) <==> (1 <= n <= line_count(content@) && line_has_fresh_key(
                    content@,
                    attrs@,
                    n - 1,
                    fresh_keys(attrs@)[e2],
                ))),
        decreases keys@.len() - e,
    {
        let ghost k = fresh_keys(attrs@)[e as int];
        let mut lines_list: Vec<u32> = Vec::new();
        let mut i2: usize = 0;
        while i2 < spans.len()
            invariant
                0 <= i2 <= spans@.len(),
                spans@.len() <= u32::MAX,
                spans@.len() == line_count(content@),
                spans_view(spans@) == crate::lines::line_spans(content@),
                e < keys@.len(),
                keys@[e as int].0@ == k.0 && opt_chars_view(keys@[e as int].1) == k.1,
                forall|w: int, w2: int| #![trigger lines_list@[w], lines_list@[w2]]
                    0 <= w && w2 == w + 1 && w2 < lines_list@.len() ==> lines_list@[w]
                        < lines_list@[w2],
                lines_list@.len() > 0 ==> lines_list@[lines_list@.len() - 1] <= i2,
                forall|n: u32|
                    #[trigger] listed(lines_list@, lines_list@.len() as int, n) <==> (1 <= n <= i2
                        && line_has_fresh_key(content@, attrs@, n - 1, k)),
            decreases spans@.len() - i2,
        {
            let (lo, hi) = auth_span(content, &spans, i2);
            let mut hit = false;
            let mut m: usize = 0;
            while m < attrs.len()
                invariant
                    0 <= m <= attrs@.len(),
                    e < keys@.len(),
                    keys@[e as int].0@ == k.0 && opt_chars_view(keys@[e as int].1) == k.1,
                    (lo as int, hi as int) == line_auth_span(content@, i2 as int),
                    hit == exists|w: int|
                        0 <= w < m && attr_has_key(#[trigger] attrs@[w], k) && crate::stats::overlaps(
                            attrs@[w],
                            lo as int,
                            hi as int,
                        ),
                decreases attrs@.len() - m,
            {
                if !attrs[m].inherited && attrs[m].start < hi && attrs[m].end > lo && chars_eq(
                    &attrs[m].author,
                    &keys[e].0,
                ) && opt_chars_eq(&attrs[m].prompt, &keys[e].1) {
                    hit = true;
                }
                m += 1;
            }
            proof {
                assert(hit == line_has_fresh_key(content@, attrs@, i2 as int, k));
            }
            if hit {
                let ghost old_list = lines_list@;
                lines_list.push((i2 as u32) + 1);
                proof {
                    assert forall|n: u32|
                        #[trigger] listed(lines_list@, lines_list@.len() as int, n) implies (1 <= n
                        <= i2 + 1 && line_has_fresh_key(content@, attrs@, n - 1, k)) by {
                        let w = choose|w: int|
                            0 <= w < lines_list@.len() && lines_list@[w] == n;
                        if w < old_list.len() {
                            assert(listed(old_list, old_list.len() as int, n));
                        }
                    }
                    assert forall|n: u32|
                        (1 <= n <= i2 + 1 && line_has_fresh_key(content@, attrs@, n - 1, k))
                        implies #[trigger] listed(lines_list@, lines_list@.len() as int, n) by {
                        if n <= i2 {
                            assert(listed(old_list, old_list.len() as int, n));
                            let w = choose|w: int| 0 <= w < old_list.len() && old_list[w] == n;
                            assert(lines_list@[w] == n);
                        } else {
                            assert(lines_list@[lines_list@.len() - 1] == n);
                        }
                    }
                }
            } else {
                proof {
                    assert forall|n: u32|
                        #[trigger] listed(lines_list@, lines_list@.len() as int, n) implies (1 <= n
                        <= i2 + 1 && line_has_fresh_key(content@, attrs@, n - 1, k)) by {}
                    assert forall|n: u32|
                        (1 <= n <= i2 + 1 && line_has_fresh_key(content@, attrs@, n - 1, k))
                        implies #[trigger] listed(lines_list@, lines_list@.len() as int, n) by {
                        assert(n as int != i2 + 1);
                    }
                }
            }
            i2 += 1;
        }
        let ranges = compress_lines(&lines_list);
        let entry = AttestationEntry {
            author_id: copy_chars(&keys[e].0),
            hash: copy_opt_chars(&keys[e].1),
            line_ranges: ranges,
        };
        entries.push(entry);
        proof {
            assert forall|n: u32| #[trigger] in_ranges(
                entries@[e as int].line_ranges@,
                n as int,
            ) <==> (1 <= n <= line_count(content@) && line_has_fresh_key(
                content@,
                attrs@,
                n - 1,
                fresh_keys(attrs@)[e as int],
            )) by {
                assert(in_ranges(entries@[e as int].line_ranges@, n as int) == listed(
                    lines_list@,
                    lines_list@.len() as int,
                    n,
                ));
            }
        }
        e += 1;
    }
    FileAttestation { file_path: copy_chars(path), entries }
}

/// A fresh interval's key appears among the fresh keys.
proof fn lemma_fresh_key_contains(attrs: Seq<Attribution>, m: int)
    requires
        0 <= m < attrs.len(),
        !attrs[m].inherited,
    ensures
        fresh_keys(attrs).contains((attrs[m].author@, opt_chars_view(attrs[m].prompt))),
    decreases attrs.len(),
{
    let k = (attrs[m].author@, opt_chars_view(attrs[m].prompt));
    let rest = fresh_keys(attrs.drop_last());
    if m == attrs.len() - 1 {
        assert(attrs.last() == attrs[m]);
        if rest.contains(k) {
        } else {
            assert(fresh_keys(attrs) == rest.push(k));
            assert(fresh_keys(attrs)[rest.len() as int] == k);
        }
    } else {
        assert(attrs.drop_last()[m] == attrs[m]);
        lemma_fresh_key_contains(attrs.drop_last(), m);
        let w = choose|w: int| 0 <= w < rest.len() && rest[w] == k;
        if attrs.last().inherited {
        } else {
            let k2 = (attrs.last().author@, opt_chars_view(attrs.last().prompt));
            if rest.contains(k2) {
            } else {
                assert(fresh_keys(attrs)[w] == k);
            }
        }
    }
}

/// The fresh keys are pairwise distinct.
pub proof fn lemma_fresh_keys_distinct(attrs: Seq<Attribution>, e1: int, e2: int)
    requires
        0 <= e1 < e2 < fresh_keys(attrs).len(),
    ensures
        fresh_keys(attrs)[e1] != fresh_keys(attrs)[e2],
    decreases attrs.len(),
{
    if attrs.len() > 0 {
        let rest = fresh_keys(attrs.drop_last());
        if fresh_keys(attrs) == rest {
            lemma_fresh_keys_distinct(attrs.drop_last(), e1, e2);
        } else {
            let k = (attrs.last().author@, opt_chars_view(attrs.last().prompt));
            assert(fresh_keys(attrs) == rest.push(k));
            if e2 < rest.len() {
                lemma_fresh_keys_distinct(attrs.drop_last(), e1, e2);
            } else {
                assert(fresh_keys(attrs)[e2] == k);
                assert(!rest.contains(k));
                assert(fresh_keys(attrs)[e1] == rest[e1]);
                if rest[e1] == k {
                    assert(rest.contains(k));
                }
            }
        }
    }
}

/// Line `n` is covered by some entry of the attestation.
pub open spec fn attested_line(att: FileAttestation, n: int) -> bool {
    exists|e: int|
        0 <= e < att.entries@.len() && in_ranges((#[trigger] att.entries@[e]).line_ranges@, n)
}

/// Coverage: the union of an attestation's line ranges is exactly the
/// set of lines modified by the pending change set.
pub proof fn lemma_attestation_coverage(
    att: FileAttestation,
    path: Seq<char>,
    s: Seq<char>,
    attrs: Seq<Attribution>,
)
    requires
        attestation_matches(att, path, s, attrs),
    ensures
        forall|n: u32|
            #[trigger] attested_line(att, n as int) <==> (1 <= n <= line_count(s) && line_modified(
                s,
                attrs,
                (n - 1) as int,
            )),
{
    assert forall|n: u32|
        #[trigger] attested_line(att, n as int) implies (1 <= n <= line_count(s) && line_modified(
        s,
        attrs,
        (n - 1) as int,
    )) by {
        let e = choose|e: int|
            0 <= e < att.entries@.len() && in_ranges(
                (#[trigger] att.entries@[e]).line_ranges@,
                n as int,
            );
        assert(in_ranges(att.entries@[e].line_ranges@, n as int));
        assert(line_has_fresh_key(s, attrs, n - 1, fresh_keys(attrs)[e]));
        let m = choose|m: int|
            0 <= m < attrs.len() && attr_has_key(#[trigger] attrs[m], fresh_keys(attrs)[e])
                && crate::stats::overlaps(
                attrs[m],
                line_auth_span(s, (n - 1) as int).0,
                line_auth_span(s, (n - 1) as int).1,
            );
        assert(!attrs[m].inherited);
        assert(line_modified(s, attrs, (n - 1) as int));
    }
    assert forall|n: u32|
        (1 <= n <= line_count(s) && line_modified(s, attrs, (n - 1) as int)) implies
        #[trigger] attested_line(att, n as int) by {
        let m = choose|m: int|
            0 <= m < attrs.len() && !(#[trigger] attrs[m]).inherited && crate::stats::overlaps(
                attrs[m],
                line_auth_span(s, (n - 1) as int).0,
                line_auth_span(s, (n - 1) as int).1,
            );
        let k = (attrs[m].author@, opt_chars_view(attrs[m].prompt));
        lemma_fresh_key_contains(attrs, m);
        let e = choose|e: int| 0 <= e < fresh_keys(attrs).len() && fresh_keys(attrs)[e] == k;
        assert(attr_has_key(attrs[m], fresh_keys(attrs)[e]));
        assert(line_has_fresh_key(s, attrs, n - 1, fresh_keys(attrs)[e]));
        assert(in_ranges(att.entries@[e].line_ranges@, n as int));
        assert(attested_line(att, n as int));
    }
}

/// Disjointness: two entries of one attestation never share an
/// `(author, prompt)` pair, so ranges of equal pairs are trivially
/// disjoint; and within one entry the canonical ranges are disjoint by
/// construction.
pub proof fn lemma_attestation_disjoint(
    att: FileAttestation,
    path: Seq<char>,
    s: Seq<char>,
    attrs: Seq<Attribution>,
    e1: int,
    e2: int,
)
    requires
        attestation_matches(att, path, s, attrs),
        0 <= e1 < e2 < att.entries@.len(),
    ensures
        att.entries@[e1].author_id@ != att.entries@[e2].author_id@ || opt_chars_view(
            att.entries@[e1].hash,
        ) != opt_chars_view(att.entries@[e2].hash),
{
    lemma_fresh_keys_distinct(attrs, e1, e2);
}

} // verus!
