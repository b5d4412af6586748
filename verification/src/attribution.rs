//! Character-level authorship attribution.
//!
//! A file's content is a sequence of characters; its attribution is an
//! ordered list of half-open character intervals `[start, end)`, each
//! carrying the identity of the author that wrote those characters, the
//! hash of the AI prompt that produced them (if any), and whether the
//! interval was inherited from the base commit rather than written by a
//! checkpoint of the pending change set.
//!
//! The invariant maintained everywhere: the intervals are non-empty,
//! contiguous, start at 0 and end at the content length (no gaps, no
//! overlaps), and no two adjacent intervals carry the same key.

use vstd::prelude::*;

use crate::text::{chars_eq, copy_chars, copy_opt_chars, opt_chars_eq, opt_chars_view};

verus! {

/// One attributed character interval `[start, end)`.
pub struct Attribution {
    pub start: usize,
    pub end: usize,
    /// Author identity: the literal `human`, or `tool:session_id` for an
    /// AI session.
    pub author: Vec<char>,
    /// Hash of the AI prompt whose edits produced these characters.
    pub prompt: Option<Vec<char>>,
    /// True when the interval was carried over from the base commit's
    /// attribution rather than written by the pending change set.
    pub inherited: bool,
}

/// The identity part of an interval: everything but the span.
pub ghost struct AttrKey {
    pub author: Seq<char>,
    pub prompt: Option<Seq<char>>,
    pub inherited: bool,
}

pub open spec fn attr_key(a: Attribution) -> AttrKey {
    AttrKey { author: a.author@, prompt: opt_chars_view(a.prompt), inherited: a.inherited }
}

/// Well-formed attribution list for content of length `len`: non-empty
/// contiguous intervals that cover exactly `[0, len)`.
pub open spec fn attrs_wf(attrs: Seq<Attribution>, len: int) -> bool {
    &&& forall|i: int| 0 <= i < attrs.len() ==> (#[trigger] attrs[i]).start < attrs[i].end
    &&& forall|i: int, j: int| #![trigger attrs[i], attrs[j]]
        0 <= i && j == i + 1 && j < attrs.len() ==> attrs[i].end == attrs[j].start
    &&& (attrs.len() == 0 ==> len == 0)
    &&& (attrs.len() > 0 ==> attrs[0].start == 0 && attrs[attrs.len() - 1].end == len)
}

/// No two adjacent intervals carry the same key.
pub open spec fn attrs_merged(attrs: Seq<Attribution>) -> bool {
    forall|i: int, j: int| #![trigger attrs[i], attrs[j]]
        0 <= i && j == i + 1 && j < attrs.len() ==> attr_key(attrs[i]) != attr_key(attrs[j])
}

/// Some interval of `attrs` contains position `pos`.
pub open spec fn has_owner(attrs: Seq<Attribution>, pos: int) -> bool {
    exists|i: int| 0 <= i < attrs.len() && (#[trigger] attrs[i]).start <= pos < attrs[i].end
}

/// The index of the interval containing `pos`; meaningful under
/// `attrs_wf`, where it is unique.
pub open spec fn owner_idx(attrs: Seq<Attribution>, pos: int) -> int {
    choose|i: int| 0 <= i < attrs.len() && (#[trigger] attrs[i]).start <= pos < attrs[i].end
}

/// The key owning position `pos`.
pub open spec fn key_at(attrs: Seq<Attribution>, pos: int) -> AttrKey {
    attr_key(attrs[owner_idx(attrs, pos)])
}

/// Under well-formedness the intervals appear in strictly increasing
/// order: an earlier interval ends no later than a later one starts.
pub proof fn lemma_attrs_ordered(attrs: Seq<Attribution>, len: int, i: int, j: int)
    requires
        attrs_wf(attrs, len),
        0 <= i < j < attrs.len(),
    ensures
        attrs[i].end <= attrs[j].start,
    decreases j - i,
{
    if j == i + 1 {
    } else {
        lemma_attrs_ordered(attrs, len, i, j - 1);
    }
}

/// The interval containing a position is unique.
pub proof fn lemma_owner_unique(attrs: Seq<Attribution>, len: int, pos: int, i: int, j: int)
    requires
        attrs_wf(attrs, len),
        0 <= i < attrs.len(),
        0 <= j < attrs.len(),
        attrs[i].start <= pos < attrs[i].end,
        attrs[j].start <= pos < attrs[j].end,
    ensures
        i == j,
{
    if i < j {
        lemma_attrs_ordered(attrs, len, i, j);
    } else if j < i {
        lemma_attrs_ordered(attrs, len, j, i);
    }
}

proof fn lemma_coverage_up_to(attrs: Seq<Attribution>, len: int, k: int)
    requires
        attrs_wf(attrs, len),
        0 <= k < attrs.len(),
    ensures
        forall|pos: int| 0 <= pos < attrs[k].end ==> has_owner(attrs, pos),
    decreases k,
{
    if k == 0 {
        assert forall|pos: int| 0 <= pos < attrs[0].end implies has_owner(attrs, pos) by {
            assert(attrs[0].start <= pos < attrs[0].end);
        }
    } else {
        lemma_coverage_up_to(attrs, len, k - 1);
        assert forall|pos: int| 0 <= pos < attrs[k].end implies has_owner(attrs, pos) by {
            if pos < attrs[k - 1].end {
            } else {
                assert(attrs[k].start == attrs[k - 1].end);
                assert(attrs[k].start <= pos < attrs[k].end);
            }
        }
    }
}

/// Attribution completeness: a well-formed attribution covers every
/// position of `[0, len)` — no gaps — and each position has exactly one
/// owning interval — no overlaps.
pub proof fn lemma_attrs_cover(attrs: Seq<Attribution>, len: int)
    requires
        attrs_wf(attrs, len),
    ensures
        forall|pos: int| 0 <= pos < len ==> has_owner(attrs, pos),
        forall|pos: int| #![trigger owner_idx(attrs, pos)]
            0 <= pos < len ==> 0 <= owner_idx(attrs, pos) < attrs.len() && attrs[owner_idx(
                attrs,
                pos,
            )].start <= pos < attrs[owner_idx(attrs, pos)].end,
{
    if attrs.len() > 0 {
        lemma_coverage_up_to(attrs, len, attrs.len() - 1);
    }
    assert forall|pos: int| #![trigger owner_idx(attrs, pos)]
        0 <= pos < len implies 0 <= owner_idx(attrs, pos) < attrs.len() && attrs[owner_idx(
        attrs,
        pos,
    )].start <= pos < attrs[owner_idx(attrs, pos)].end by {
        assert(has_owner(attrs, pos));
    }
}

/// The owning key of an existing position is unchanged when a further
/// interval is appended after the covered range.
pub proof fn lemma_key_at_append(attrs: Seq<Attribution>, len: int, a: Attribution, pos: int)
    requires
        attrs_wf(attrs, len),
        a.start == len,
        a.start < a.end,
        0 <= pos < len,
    ensures
        attrs_wf(attrs.push(a), a.end as int),
        has_owner(attrs.push(a), pos),
        key_at(attrs.push(a), pos) == key_at(attrs, pos),
{
    let pushed = attrs.push(a);
    assert(attrs_wf(pushed, a.end as int));
    lemma_attrs_cover(attrs, len);
    let i = owner_idx(attrs, pos);
    assert(pushed[i].start <= pos < pushed[i].end);
    assert(has_owner(pushed, pos));
    let j = owner_idx(pushed, pos);
    assert(0 <= j < pushed.len() && pushed[j].start <= pos < pushed[j].end);
    lemma_owner_unique(pushed, a.end as int, pos, i, j);
}

/// A position inside a newly appended interval is owned by it.
pub proof fn lemma_key_at_appended_span(attrs: Seq<Attribution>, len: int, a: Attribution, pos: int)
    requires
        attrs_wf(attrs, len),
        a.start == len,
        a.start < a.end,
        a.start <= pos < a.end,
    ensures
        attrs_wf(attrs.push(a), a.end as int),
        has_owner(attrs.push(a), pos),
        key_at(attrs.push(a), pos) == attr_key(a),
{
    let pushed = attrs.push(a);
    assert(pushed[attrs.len() as int].start <= pos < pushed[attrs.len() as int].end);
    assert(has_owner(pushed, pos));
    let j = owner_idx(pushed, pos);
    lemma_owner_unique(pushed, a.end as int, pos, attrs.len() as int, j);
}

/// Extending the final interval keeps every earlier owner and gives the
/// extension to the final interval's key.
pub proof fn lemma_key_at_extend_last(attrs: Seq<Attribution>, len: int, new_end: int, pos: int)
    requires
        attrs_wf(attrs, len),
        attrs.len() > 0,
        len < new_end <= usize::MAX,
        0 <= pos < new_end,
    ensures
        ({
            let k = attrs.len() - 1;
            let ext = Attribution {
                end: new_end as usize,
                ..attrs[k]
            };
            let updated = attrs.update(k, ext);
            &&& attrs_wf(updated, new_end)
            &&& has_owner(updated, pos)
            &&& (pos < attrs[k].start ==> key_at(updated, pos) == key_at(attrs, pos))
            &&& (attrs[k].start <= pos ==> key_at(updated, pos) == attr_key(attrs[k]))
        }),
{
    let k = attrs.len() - 1;
    let ext = Attribution { end: new_end as usize, ..attrs[k] };
    let updated = attrs.update(k, ext);
    assert(attrs_wf(updated, new_end));
    if pos < attrs[k].start {
        lemma_attrs_cover(attrs, len);
        let i = owner_idx(attrs, pos);
        assert(attrs[i].start <= pos < attrs[i].end);
        assert(i != k);
        assert(updated[i].start <= pos < updated[i].end);
        assert(has_owner(updated, pos));
        let j = owner_idx(updated, pos);
        lemma_owner_unique(updated, new_end, pos, i, j);
        assert(attr_key(updated[i]) == attr_key(attrs[i]));
        assert(key_at(attrs, pos) == attr_key(attrs[i]));
    } else {
        assert(updated[k as int].start <= pos < updated[k as int].end);
        assert(has_owner(updated, pos));
        let j = owner_idx(updated, pos);
        lemma_owner_unique(updated, new_end, pos, k as int, j);
        assert(attr_key(updated[k as int]) == attr_key(attrs[k as int]));
    }
}

/// A position inside interval `k` is owned by interval `k`.
pub proof fn lemma_key_at_of(attrs: Seq<Attribution>, len: int, k: int, pos: int)
    requires
        attrs_wf(attrs, len),
        0 <= k < attrs.len(),
        attrs[k].start <= pos < attrs[k].end,
    ensures
        has_owner(attrs, pos),
        key_at(attrs, pos) == attr_key(attrs[k]),
{
    assert(has_owner(attrs, pos));
    let j = owner_idx(attrs, pos);
    lemma_owner_unique(attrs, len, pos, k, j);
}

/// Appends the attributed span `[start, end)` to a list already covering
/// `[0, start)`, merging it into the final interval when the keys agree.
pub fn append_span(
    out: &mut Vec<Attribution>,
    start: usize,
    end: usize,
    author: &Vec<char>,
    prompt: &Option<Vec<char>>,
    inherited: bool,
)
    requires
        attrs_wf(old(out)@, start as int),
        attrs_merged(old(out)@),
        start < end,
    ensures
        attrs_wf(final(out)@, end as int),
        attrs_merged(final(out)@),
        forall|pos: int|
            0 <= pos < start ==> key_at(final(out)@, pos) == key_at(old(out)@, pos),
        forall|pos: int|
            start <= pos < end ==> key_at(final(out)@, pos) == (AttrKey {
                author: author@,
                prompt: opt_chars_view(*prompt),
                inherited,
            }),
{
    let ghost key = AttrKey { author: author@, prompt: opt_chars_view(*prompt), inherited };
    let mut same_as_last = false;
    if out.len() > 0 {
        let last = &out[out.len() - 1];
        same_as_last = chars_eq(&last.author, author) && opt_chars_eq(&last.prompt, prompt)
            && last.inherited == inherited;
    }
    if same_as_last {
        let k = out.len() - 1;
        let ghost before = out@;
        let mut last = out.pop().unwrap();
        last.end = end;
        out.push(last);
        proof {
            assert(out@ =~= before.update(k as int, Attribution { end, ..before[k as int] }));
            assert(attr_key(before[k as int]) == key);
            assert forall|pos: int| 0 <= pos < start implies key_at(out@, pos) == key_at(
                before,
                pos,
            ) by {
                lemma_key_at_extend_last(before, start as int, end as int, pos);
                if before[k as int].start <= pos {
                    lemma_attrs_cover(before, start as int);
                    let j = owner_idx(before, pos);
                    lemma_owner_unique(before, start as int, pos, j, k as int);
                }
            }
            assert forall|pos: int| start <= pos < end implies key_at(out@, pos) == key by {
                lemma_key_at_extend_last(before, start as int, end as int, pos);
            }
            assert(attrs_merged(out@));
        }
    } else {
        let a = Attribution {
            start,
            end,
            author: copy_chars(author),
            prompt: copy_opt_chars(prompt),
            inherited,
        };
        let ghost before = out@;
        proof {
            assert(attr_key(a) == key);
            if before.len() > 0 {
                assert(attr_key(before[before.len() - 1]) != key);
            }
        }
        out.push(a);
        proof {
            assert forall|pos: int| 0 <= pos < start implies key_at(out@, pos) == key_at(
                before,
                pos,
            ) by {
                lemma_key_at_append(before, start as int, a, pos);
            }
            assert forall|pos: int| start <= pos < end implies key_at(out@, pos) == key by {
                lemma_key_at_appended_span(before, start as int, a, pos);
            }
            assert(attrs_merged(out@));
        }
    }
}

} // verus!
