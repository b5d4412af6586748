//! The checkpoint command: snapshot every candidate file into the
//! working log and report advisory line-diff counts.

use vstd::prelude::*;

use crate::diff::{compute_prefix_len, compute_suffix_len, keep_prefix_len, keep_suffix_len, min2};
use crate::error::GitAiError;
use crate::lines::{line_count, scan_line_spans};
use crate::text::sub_chars;
use crate::working_log::{
    cps_for, create_effect, has_ai_checkpoint, AgentId, Checkpoint, CheckpointKind, WorkingLog,
    working_log_wf,
};

verus! {

/// One candidate file of a checkpoint request: its path, its content
/// at the session start and its content now.
pub struct FileSnapshot {
    pub path: Vec<char>,
    pub base_content: Vec<char>,
    pub current_content: Vec<char>,
}

/// The content an edit for this candidate is measured against: the
/// most recent checkpoint's `after_content`, or the session-start
/// content when the file has no checkpoint.
pub open spec fn snapshot_prev(cps: Seq<Checkpoint>, f: FileSnapshot) -> Seq<char> {
    let prior = cps_for(cps, f.path@);
    if prior.len() > 0 {
        prior.last().after_content@
    } else {
        f.base_content@
    }
}

/// The replaced region of the old content.
pub open spec fn mid_removed(prev: Seq<char>, next: Seq<char>) -> Seq<char> {
    prev.subrange(keep_prefix_len(prev, next), prev.len() - keep_suffix_len(prev, next))
}

/// The replacing region of the new content.
pub open spec fn mid_added(prev: Seq<char>, next: Seq<char>) -> Seq<char> {
    next.subrange(keep_prefix_len(prev, next), next.len() - keep_suffix_len(prev, next))
}

/// Advisory count of added lines of one edit: the lines of the
/// replacing region beyond those matched by replaced ones.
pub open spec fn advisory_added(prev: Seq<char>, next: Seq<char>) -> int {
    let aa = line_count(mid_added(prev, next));
    let ra = line_count(mid_removed(prev, next));
    aa - min2(aa, ra)
}

/// Advisory count of removed lines of one edit.
pub open spec fn advisory_removed(prev: Seq<char>, next: Seq<char>) -> int {
    let aa = line_count(mid_added(prev, next));
    let ra = line_count(mid_removed(prev, next));
    ra - min2(aa, ra)
}

/// Advisory count of modified lines of one edit.
pub open spec fn advisory_modified(prev: Seq<char>, next: Seq<char>) -> int {
    min2(line_count(mid_added(prev, next)), line_count(mid_removed(prev, next)))
}

/// Advisory added lines summed over the first `n` candidates.
pub open spec fn sum_added(cps: Seq<Checkpoint>, cands: Seq<FileSnapshot>, n: int) -> int
    decreases n,
{
    if n <= 0 {
        0
    } else {
        sum_added(cps, cands, n - 1) + advisory_added(
            snapshot_prev(cps, cands[n - 1]),
            cands[n - 1].current_content@,
        )
    }
}

/// Advisory removed lines summed over the first `n` candidates.
pub open spec fn sum_removed(cps: Seq<Checkpoint>, cands: Seq<FileSnapshot>, n: int) -> int
    decreases n,
{
    if n <= 0 {
        0
    } else {
        sum_removed(cps, cands, n - 1) + advisory_removed(
            snapshot_prev(cps, cands[n - 1]),
            cands[n - 1].current_content@,
        )
    }
}

/// Advisory modified lines summed over the first `n` candidates.
pub open spec fn sum_modified(cps: Seq<Checkpoint>, cands: Seq<FileSnapshot>, n: int) -> int
    decreases n,
{
    if n <= 0 {
        0
    } else {
        sum_modified(cps, cands, n - 1) + advisory_modified(
            snapshot_prev(cps, cands[n - 1]),
            cands[n - 1].current_content@,
        )
    }
}

/// Candidate paths are pairwise distinct.
pub open spec fn distinct_paths(cands: Seq<FileSnapshot>) -> bool {
    forall|i: int, j: int| #![trigger cands[i], cands[j]]
        0 <= i < j < cands.len() ==> cands[i].path@ != cands[j].path@
}

/// The whole-log effect of one checkpoint run: each candidate's chain
/// is transformed per the checkpoint-store rules, every other file's
/// chain is untouched.
pub open spec fn run_effect(
    pre: Seq<Checkpoint>,
    post: Seq<Checkpoint>,
    cands: Seq<FileSnapshot>,
    kind: CheckpointKind,
    agent_v: Option<(Seq<char>, Seq<char>, Seq<char>)>,
    prompt_v: Option<Seq<char>>,
    skip_if_no_ai: bool,
) -> bool {
    &&& forall|j: int|
        0 <= j < cands.len() ==> create_effect(
            cps_for(pre, (#[trigger] cands[j]).path@),
            cps_for(post, cands[j].path@),
            cands[j].path@,
            kind,
            agent_v,
            prompt_v,
            cands[j].base_content@,
            cands[j].current_content@,
            skip_if_no_ai,
            has_ai_checkpoint(pre),
        )
    &&& forall|p: Seq<char>|
        (forall|j: int| 0 <= j < cands.len() ==> (#[trigger] cands[j]).path@ != p)
            ==> #[trigger] cps_for(post, p) == cps_for(pre, p)
}

proof fn lemma_advisory_nonneg(prev: Seq<char>, next: Seq<char>)
    ensures
        advisory_added(prev, next) >= 0,
        advisory_removed(prev, next) >= 0,
        advisory_modified(prev, next) >= 0,
{
}

proof fn lemma_sums_prefix(cps: Seq<Checkpoint>, cands: Seq<FileSnapshot>, n: int)
    requires
        0 <= n <= cands.len(),
    ensures
        sum_added(cps, cands, n) <= sum_added(cps, cands, cands.len() as int),
        sum_removed(cps, cands, n) <= sum_removed(cps, cands, cands.len() as int),
        sum_modified(cps, cands, n) <= sum_modified(cps, cands, cands.len() as int),
    decreases cands.len() - n,
{
    if n < cands.len() {
        lemma_sums_prefix(cps, cands, n + 1);
        lemma_advisory_nonneg(snapshot_prev(cps, cands[n]), cands[n].current_content@);
    }
}

/// Snapshots every candidate into the working log — the checkpoint
/// command's core. Returns the advisory counts of (added, removed,
/// modified) lines aggregated across the candidates; nothing consumes
/// them.
pub fn run(
    log: &mut WorkingLog,
    kind: CheckpointKind,
    agent: &Option<AgentId>,
    prompt_hash: &Option<Vec<char>>,
    candidates: &Vec<FileSnapshot>,
    skip_if_no_ai: bool,
) -> (counts: (usize, usize, usize))
    requires
        working_log_wf(*old(log)),
        kind != CheckpointKind::Initial,
        distinct_paths(candidates@),
        old(log).next_seq + 2 * candidates@.len() <= u64::MAX,
        sum_added(old(log).checkpoints@, candidates@, candidates@.len() as int) <= usize::MAX,
        sum_removed(old(log).checkpoints@, candidates@, candidates@.len() as int) <= usize::MAX,
        sum_modified(old(log).checkpoints@, candidates@, candidates@.len() as int) <= usize::MAX,
    ensures
        working_log_wf(*final(log)),
        final(log).prompts@ == old(log).prompts@,
        run_effect(
            old(log).checkpoints@,
            final(log).checkpoints@,
            candidates@,
            kind,
            crate::working_log::opt_agent_view(*agent),
            crate::text::opt_chars_view(*prompt_hash),
            skip_if_no_ai,
        ),
        counts.0 as int == sum_added(old(log).checkpoints@, candidates@, candidates@.len() as int),
        counts.1 as int == sum_removed(
            old(log).checkpoints@,
            candidates@,
            candidates@.len() as int,
        ),
        counts.2 as int == sum_modified(
            old(log).checkpoints@,
            candidates@,
            candidates@.len() as int,
        ),
{
    let ghost orig = old(log).checkpoints@;
    let mut added: usize = 0;
    let mut removed: usize = 0;
    let mut modified: usize = 0;
    let mut i: usize = 0;
    while i < candidates.len()
        invariant
            0 <= i <= candidates@.len(),
            working_log_wf(*log),
            distinct_paths(candidates@),
            kind != CheckpointKind::Initial,
            log.prompts@ == old(log).prompts@,
            orig == old(log).checkpoints@,
            log.next_seq <= old(log).next_seq + 2 * (i as int),
            old(log).next_seq + 2 * candidates@.len() <= u64::MAX,
            sum_added(orig, candidates@, candidates@.len() as int) <= usize::MAX,
            sum_removed(orig, candidates@, candidates@.len() as int) <= usize::MAX,
            sum_modified(orig, candidates@, candidates@.len() as int) <= usize::MAX,
            added as int == sum_added(orig, candidates@, i as int),
            removed as int == sum_removed(orig, candidates@, i as int),
            modified as int == sum_modified(orig, candidates@, i as int),
            kind == CheckpointKind::Human ==> has_ai_checkpoint(log.checkpoints@)
                == has_ai_checkpoint(orig),
            forall|j: int|
                0 <= j < i ==> create_effect(
                    cps_for(orig, (#[trigger] candidates@[j]).path@),
                    cps_for(log.checkpoints@, candidates@[j].path@),
                    candidates@[j].path@,
                    kind,
                    crate::working_log::opt_agent_view(*agent),
                    crate::text::opt_chars_view(*prompt_hash),
                    candidates@[j].base_content@,
                    candidates@[j].current_content@,
                    skip_if_no_ai,
                    has_ai_checkpoint(orig),
                ),
            forall|p: Seq<char>|
                (forall|j: int| 0 <= j < i ==> (#[trigger] candidates@[j]).path@ != p)
                    ==> #[trigger] cps_for(log.checkpoints@, p) == cps_for(orig, p),
        decreases candidates@.len() - i,
    {
        let cand = &candidates[i];
        proof {
            assert(cps_for(log.checkpoints@, candidates@[i as int].path@) == cps_for(
                orig,
                candidates@[i as int].path@,
            ));
        }
        // Advisory diff counts for this candidate, measured against the
        // most recent checkpoint (or the session-start content).
        let chain = log.iter_for_file(&cand.path);
        let prev: Vec<char> = if chain.len() > 0 {
            crate::text::copy_chars(&chain[chain.len() - 1].after_content)
        } else {
            crate::text::copy_chars(&cand.base_content)
        };
        proof {
            assert(prev@ == snapshot_prev(orig, candidates@[i as int]));
        }
        let p = compute_prefix_len(&prev, &cand.current_content);
        let s_raw = compute_suffix_len(&prev, &cand.current_content);
        let cap: usize = if prev.len() < cand.current_content.len() {
            prev.len() - p
        } else {
            cand.current_content.len() - p
        };
        let s: usize = if s_raw < cap {
            s_raw
        } else {
            cap
        };
        proof {
            assert(s as int == keep_suffix_len(prev@, cand.current_content@));
        }
        let mid_prev = sub_chars(&prev, p, prev.len() - s);
        let mid_next = sub_chars(&cand.current_content, p, cand.current_content.len() - s);
        let ra = scan_line_spans(&mid_prev).len();
        let aa = scan_line_spans(&mid_next).len();
        proof {
            assert(ra as int == line_count(mid_removed(prev@, cand.current_content@)));
            assert(aa as int == line_count(mid_added(prev@, cand.current_content@)));
            lemma_sums_prefix(orig, candidates@, i + 1);
        }
        let m = if ra < aa {
            ra
        } else {
            aa
        };
        added += aa - m;
        removed += ra - m;
        modified += m;

        let ghost before = log.checkpoints@;
        log.create_checkpoint(
            &cand.path,
            kind,
            agent,
            prompt_hash,
            &cand.base_content,
            &cand.current_content,
            skip_if_no_ai,
        );
        proof {
            // The effect against the run's starting state: the chain
            // was untouched until now, and for a non-human kind the
            // skip test ignores the AI flag.
            if kind != CheckpointKind::Human {
                assert(create_effect(
                    cps_for(orig, candidates@[i as int].path@),
                    cps_for(log.checkpoints@, candidates@[i as int].path@),
                    candidates@[i as int].path@,
                    kind,
                    crate::working_log::opt_agent_view(*agent),
                    crate::text::opt_chars_view(*prompt_hash),
                    candidates@[i as int].base_content@,
                    candidates@[i as int].current_content@,
                    skip_if_no_ai,
                    has_ai_checkpoint(orig),
                ));
            }
            assert forall|p2: Seq<char>|
                (forall|j: int| 0 <= j < i + 1 ==> (#[trigger] candidates@[j]).path@ != p2)
                    implies #[trigger] cps_for(log.checkpoints@, p2) == cps_for(orig, p2) by {
                assert(candidates@[i as int].path@ != p2);
                assert(cps_for(before, p2) == cps_for(orig, p2));
            }
            assert forall|j: int| 0 <= j < i + 1 implies create_effect(
                cps_for(orig, (#[trigger] candidates@[j]).path@),
                cps_for(log.checkpoints@, candidates@[j].path@),
                candidates@[j].path@,
                kind,
                crate::working_log::opt_agent_view(*agent),
                crate::text::opt_chars_view(*prompt_hash),
                candidates@[j].base_content@,
                candidates@[j].current_content@,
                skip_if_no_ai,
                has_ai_checkpoint(orig),
            ) by {
                if j < i {
                    assert(candidates@[j].path@ != candidates@[i as int].path@);
                    assert(cps_for(log.checkpoints@, candidates@[j].path@) == cps_for(
                        before,
                        candidates@[j].path@,
                    ));
                }
            }
        }
        i += 1;
    }
    (added, removed, modified)
}

/// The pre-commit step: snapshot the pending human edits of every
/// candidate file, unless the repository is bare. The skip rule is in
/// force, so a repository no AI session ever touched stays clean.
pub fn pre_commit(
    log: &mut WorkingLog,
    candidates: &Vec<FileSnapshot>,
    bare: bool,
) -> (r: Result<(), GitAiError>)
    requires
        working_log_wf(*old(log)),
        distinct_paths(candidates@),
        old(log).next_seq + 2 * candidates@.len() <= u64::MAX,
        sum_added(old(log).checkpoints@, candidates@, candidates@.len() as int) <= usize::MAX,
        sum_removed(old(log).checkpoints@, candidates@, candidates@.len() as int) <= usize::MAX,
        sum_modified(old(log).checkpoints@, candidates@, candidates@.len() as int) <= usize::MAX,
    ensures
        working_log_wf(*final(log)),
        bare <==> r is Err,
        r is Err ==> r == Result::<(), GitAiError>::Err(GitAiError::BareRepository)
            && final(log).checkpoints@ == old(log).checkpoints@ && final(log).prompts@ == old(
            log,
        ).prompts@,
        r is Ok ==> final(log).prompts@ == old(log).prompts@ && run_effect(
            old(log).checkpoints@,
            final(log).checkpoints@,
            candidates@,
            CheckpointKind::Human,
            None,
            None,
            true,
        ),
{
    if bare {
        return Err(GitAiError::BareRepository);
    }
    let agent: Option<AgentId> = None;
    let prompt: Option<Vec<char>> = None;
    let _ = run(log, CheckpointKind::Human, &agent, &prompt, candidates, true);
    Ok(())
}

} // verus!
