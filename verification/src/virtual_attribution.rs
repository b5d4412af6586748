//! The virtual-attribution engine: fold a file's checkpoint chain into
//! its character attribution.
//!
//! The model of one fold step is a map from character position to
//! attribution key; `replay_key_map` folds a checkpoint sequence over
//! such a map. Replaying a concatenation equals replaying in two
//! stages (`lemma_replay_append`), which is what makes an amend agree
//! with a direct commit from the same starting state.

use vstd::prelude::*;

use crate::attribution::{attr_key, attrs_merged, attrs_wf, key_at, AttrKey, Attribution};
use crate::diff::{diff_attribute, src_seq, target_key};
use crate::stats::{human_author, human_id};
use crate::text::{copy_chars, opt_chars_view};
use crate::working_log::{cp_eq, opt_agent_view, Checkpoint, CheckpointKind};

verus! {

/// The author identity a checkpoint's edits are credited to: `human`
/// for human edits, `tool:session_id` for an AI session (and `human`
/// for an AI checkpoint that lost its session record).
pub open spec fn checkpoint_author(c: Checkpoint) -> Seq<char> {
    if c.kind == CheckpointKind::AiAgent {
        match opt_agent_view(c.agent) {
            Some(t) => t.0 + seq![':'] + t.1,
            None => human_id(),
        }
    } else {
        human_id()
    }
}

/// The attribution key of a checkpoint's fresh characters.
pub open spec fn checkpoint_key(c: Checkpoint) -> AttrKey {
    AttrKey {
        author: checkpoint_author(c),
        prompt: opt_chars_view(c.prompt_hash),
        inherited: false,
    }
}

/// The position-to-key map of an attribution list covering `[0, len)`.
pub open spec fn attrs_key_map(attrs: Seq<Attribution>, len: int) -> Map<int, AttrKey> {
    Map::new(|pos: int| 0 <= pos < len, |pos: int| key_at(attrs, pos))
}

/// One fold step: a position the edit kept takes the key of the old
/// position it came from, a position the edit wrote takes the editing
/// key.
pub open spec fn step_key_map(
    m: Map<int, AttrKey>,
    prev: Seq<char>,
    next: Seq<char>,
    key: AttrKey,
) -> Map<int, AttrKey> {
    Map::new(
        |pos: int| 0 <= pos < next.len(),
        |pos: int|
            match src_seq(prev, next)[pos] {
                Some(q) => m[q],
                None => key,
            },
    )
}

/// Folds a checkpoint sequence over a position-to-key map.
pub open spec fn replay_key_map(m: Map<int, AttrKey>, cps: Seq<Checkpoint>) -> Map<int, AttrKey>
    decreases cps.len(),
{
    if cps.len() == 0 {
        m
    } else {
        replay_key_map(
            step_key_map(m, cps[0].before_content@, cps[0].after_content@, checkpoint_key(cps[0])),
            cps.drop_first(),
        )
    }
}

/// Replaying a concatenated checkpoint sequence equals replaying its
/// parts in order. In particular, committing a change set and then
/// amending with further checkpoints attributes characters exactly as
/// committing the whole sequence at once would.
pub proof fn lemma_replay_append(m: Map<int, AttrKey>, l1: Seq<Checkpoint>, l2: Seq<Checkpoint>)
    ensures
        replay_key_map(m, l1 + l2) == replay_key_map(replay_key_map(m, l1), l2),
    decreases l1.len(),
{
    if l1.len() == 0 {
        assert(l1 + l2 =~= l2);
    } else {
        let stepped = step_key_map(
            m,
            l1[0].before_content@,
            l1[0].after_content@,
            checkpoint_key(l1[0]),
        );
        assert((l1 + l2)[0] == l1[0]);
        assert((l1 + l2).drop_first() =~= l1.drop_first() + l2);
        lemma_replay_append(stepped, l1.drop_first(), l2);
    }
}

/// Replay observes checkpoints only through their recorded contents,
/// kinds, sessions and prompts.
pub proof fn lemma_replay_congruent(m: Map<int, AttrKey>, l1: Seq<Checkpoint>, l2: Seq<Checkpoint>)
    requires
        l1.len() == l2.len(),
        forall|i: int| 0 <= i < l1.len() ==> cp_eq(#[trigger] l1[i], l2[i]),
    ensures
        replay_key_map(m, l1) == replay_key_map(m, l2),
    decreases l1.len(),
{
    if l1.len() > 0 {
        assert(cp_eq(l1[0], l2[0]));
        assert(checkpoint_key(l1[0]) == checkpoint_key(l2[0]));
        let stepped = step_key_map(
            m,
            l1[0].before_content@,
            l1[0].after_content@,
            checkpoint_key(l1[0]),
        );
        assert forall|i: int| 0 <= i < l1.drop_first().len() implies cp_eq(
            #[trigger] l1.drop_first()[i],
            l2.drop_first()[i],
        ) by {
            assert(cp_eq(l1[i + 1], l2[i + 1]));
        }
        lemma_replay_congruent(stepped, l1.drop_first(), l2.drop_first());
    }
}

/// The pointwise guarantees of one projection step assemble into the
/// step map.
proof fn lemma_step_matches(
    prev_attr: Seq<Attribution>,
    next_attr: Seq<Attribution>,
    prev_s: Seq<char>,
    next_s: Seq<char>,
    key: AttrKey,
)
    requires
        attrs_wf(prev_attr, prev_s.len() as int),
        attrs_wf(next_attr, next_s.len() as int),
        forall|pos: int|
            0 <= pos < next_s.len() ==> key_at(next_attr, pos) == target_key(
                prev_s,
                next_s,
                prev_attr,
                key,
                pos,
            ),
    ensures
        attrs_key_map(next_attr, next_s.len() as int) == step_key_map(
            attrs_key_map(prev_attr, prev_s.len() as int),
            prev_s,
            next_s,
            key,
        ),
{
    crate::diff::lemma_src_seq_len(prev_s, next_s);
    let before_map = attrs_key_map(prev_attr, prev_s.len() as int);
    let after_map = attrs_key_map(next_attr, next_s.len() as int);
    let stepped = step_key_map(before_map, prev_s, next_s, key);
    assert forall|pos: int| 0 <= pos < next_s.len() implies after_map[pos] == stepped[pos] by {
        crate::diff::lemma_srcs_from_ok(prev_s, next_s, 0, 0);
        assert(key_at(next_attr, pos) == target_key(prev_s, next_s, prev_attr, key, pos));
        match src_seq(prev_s, next_s)[pos] {
            Some(q) => {
                assert(src_seq(prev_s, next_s)[pos] is Some);
                assert(0 <= q < prev_s.len());
            },
            None => {},
        }
    }
    assert(after_map =~= stepped);
}

/// Unfolds the replay of one further checkpoint.
proof fn lemma_replay_snoc(m: Map<int, AttrKey>, cps: Seq<Checkpoint>, from: int, k: int)
    requires
        0 <= from <= k < cps.len(),
    ensures
        replay_key_map(m, cps.subrange(from, k + 1)) == step_key_map(
            replay_key_map(m, cps.subrange(from, k)),
            cps[k].before_content@,
            cps[k].after_content@,
            checkpoint_key(cps[k]),
        ),
{
    let pre = cps.subrange(from, k);
    let post = cps.subrange(from, k + 1);
    let one = seq![cps[k]];
    assert(post =~= pre + one);
    lemma_replay_append(m, pre, one);
    let mid = replay_key_map(m, pre);
    let stepped = step_key_map(
        mid,
        cps[k].before_content@,
        cps[k].after_content@,
        checkpoint_key(cps[k]),
    );
    assert(one[0] == cps[k]);
    assert(one.drop_first() =~= Seq::<Checkpoint>::empty());
    assert(replay_key_map(stepped, one.drop_first()) == stepped);
    assert(replay_key_map(mid, one) == stepped);
}

/// The author identity a checkpoint's edits are credited to.
pub fn author_of_checkpoint(c: &Checkpoint) -> (r: Vec<char>)
    ensures
        r@ == checkpoint_author(*c),
{
    match (&c.kind, &c.agent) {
        (CheckpointKind::AiAgent, Some(agent)) => {
            let mut r = copy_chars(&agent.tool);
            r.push(':');
            let mut i: usize = 0;
            while i < agent.id.len()
                invariant
                    0 <= i <= agent.id@.len(),
                    r@ == agent.tool@ + seq![':'] + agent.id@.subrange(0, i as int),
                decreases agent.id@.len() - i,
            {
                r.push(agent.id[i]);
                i += 1;
                proof {
                    assert(r@ =~= agent.tool@ + seq![':'] + agent.id@.subrange(0, i as int));
                }
            }
            proof {
                assert(agent.id@.subrange(0, agent.id@.len() as int) =~= agent.id@);
                assert(r@ =~= agent.tool@ + seq![':'] + agent.id@);
            }
            r
        },
        _ => human_author(),
    }
}

/// The attribution of content no checkpoint has touched: one human,
/// inherited interval over the whole content.
pub fn seed_attribution(content: &Vec<char>) -> (r: Vec<Attribution>)
    ensures
        attrs_wf(r@, content@.len() as int),
        attrs_merged(r@),
        forall|pos: int|
            0 <= pos < content@.len() ==> key_at(r@, pos) == (AttrKey {
                author: human_id(),
                prompt: None,
                inherited: true,
            }),
{
    let mut r: Vec<Attribution> = Vec::new();
    if content.len() > 0 {
        let human = human_author();
        crate::attribution::append_span(&mut r, 0, content.len(), &human, &None, true);
    }
    r
}

/// Re-marks a whole attribution as inherited: the keys keep their
/// authors and prompts, and nothing counts as freshly written any
/// more. This turns a commit's final attribution into the seed of the
/// next change set.
pub fn mark_inherited(attrs: &Vec<Attribution>, len: usize) -> (r: Vec<Attribution>)
    requires
        attrs_wf(attrs@, len as int),
        attrs_merged(attrs@),
    ensures
        attrs_wf(r@, len as int),
        attrs_merged(r@),
        forall|pos: int|
            0 <= pos < len ==> key_at(r@, pos) == (AttrKey {
                author: key_at(attrs@, pos).author,
                prompt: key_at(attrs@, pos).prompt,
                inherited: true,
            }),
{
    let mut out: Vec<Attribution> = Vec::new();
    let mut covered: usize = 0;
    let mut k: usize = 0;
    while k < attrs.len()
        invariant
            0 <= k <= attrs@.len(),
            attrs_wf(attrs@, len as int),
            attrs_merged(attrs@),
            covered as int == if k == 0 {
                0
            } else {
                attrs@[k - 1].end as int
            },
            attrs_wf(out@, covered as int),
            attrs_merged(out@),
            forall|pos: int|
                0 <= pos < covered ==> key_at(out@, pos) == (AttrKey {
                    author: key_at(attrs@, pos).author,
                    prompt: key_at(attrs@, pos).prompt,
                    inherited: true,
                }),
        decreases attrs@.len() - k,
    {
        let st = attrs[k].start;
        let en = attrs[k].end;
        proof {
            if k > 0 {
                assert(attrs@[k - 1].end == attrs@[k as int].start);
            }
            assert(st == covered);
            assert(st < en);
        }
        crate::attribution::append_span(
            &mut out,
            st,
            en,
            &attrs[k].author,
            &attrs[k].prompt,
            true,
        );
        proof {
            assert forall|pos: int| st <= pos < en implies key_at(attrs@, pos) == attr_key(
                attrs@[k as int],
            ) by {
                crate::attribution::lemma_key_at_of(attrs@, len as int, k as int, pos);
            }
        }
        covered = en;
        k += 1;
    }
    proof {
        if k == 0 {
            assert(attrs@.len() == 0);
            assert(covered == len);
        } else {
            assert(attrs@[k - 1].end == len);
        }
    }
    out
}

/// Replays the checkpoints `cps[from..]` over a seed attribution of
/// the first one's `before_content`, producing the attribution of the
/// last one's `after_content`.
pub fn replay_file(
    seed: Vec<Attribution>,
    cps: &Vec<Checkpoint>,
    from: usize,
) -> (r: Vec<Attribution>)
    requires
        from <= cps@.len(),
        attrs_wf(
            seed@,
            if from < cps@.len() {
                cps@[from as int].before_content@.len() as int
            } else {
                0
            },
        ),
        attrs_merged(seed@),
        forall|i: int, j: int| #![trigger cps@[i], cps@[j]]
            from <= i && j == i + 1 && j < cps@.len() ==> cps@[i].after_content@
                == cps@[j].before_content@,
    ensures
        attrs_wf(
            r@,
            if from < cps@.len() {
                cps@[cps@.len() - 1].after_content@.len() as int
            } else {
                0
            },
        ),
        attrs_merged(r@),
        from < cps@.len() ==> attrs_key_map(r@, cps@[cps@.len() - 1].after_content@.len() as int)
            == replay_key_map(
            attrs_key_map(seed@, cps@[from as int].before_content@.len() as int),
            cps@.subrange(from as int, cps@.len() as int),
        ),
        from == cps@.len() ==> r@ == seed@,
{
    let ghost init_len: int = if from < cps@.len() {
        cps@[from as int].before_content@.len() as int
    } else {
        0
    };
    let ghost m0 = attrs_key_map(seed@, init_len);
    let ghost mut cur_len: int = init_len;
    let mut cur = seed;
    let mut k = from;
    proof {
        assert(cps@.subrange(from as int, from as int) =~= Seq::<Checkpoint>::empty());
    }
    while k < cps.len()
        invariant
            from <= k <= cps@.len(),
            cur_len == if k < cps@.len() {
                cps@[k as int].before_content@.len() as int
            } else if from < cps@.len() {
                cps@[cps@.len() - 1].after_content@.len() as int
            } else {
                0
            },
            attrs_wf(cur@, cur_len),
            attrs_merged(cur@),
            forall|i: int, j: int| #![trigger cps@[i], cps@[j]]
                from <= i && j == i + 1 && j < cps@.len() ==> cps@[i].after_content@
                    == cps@[j].before_content@,
            attrs_key_map(cur@, cur_len) == replay_key_map(
                m0,
                cps@.subrange(from as int, k as int),
            ),
            from == k ==> cur@ == seed@,
        decreases cps@.len() - k,
    {
        let author = author_of_checkpoint(&cps[k]);
        let next = diff_attribute(
            &cps[k].before_content,
            &cps[k].after_content,
            &cur,
            &author,
            &cps[k].prompt_hash,
        );
        proof {
            let prev_s = cps@[k as int].before_content@;
            let next_s = cps@[k as int].after_content@;
            let key = checkpoint_key(cps@[k as int]);
            lemma_step_matches(cur@, next@, prev_s, next_s, key);
            lemma_replay_snoc(m0, cps@, from as int, k as int);
            cur_len = next_s.len() as int;
        }
        cur = next;
        k += 1;
    }
    proof {
        assert(cps@.subrange(from as int, cps@.len() as int) =~= cps@.subrange(
            from as int,
            cps@.len() as int,
        ));
    }
    cur
}

} // verus!
