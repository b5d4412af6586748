//! The rewrite log and its transforms: the append-only record of
//! history-mutating operations, and the rules that carry authorship
//! across amend, cherry-pick and stash.

use vstd::prelude::*;

use crate::authorship_log::{
    attested_line, in_range, in_ranges, compress_lines, listed, ranges_canonical, AttestationEntry,
    FileAttestation, LineRange,
};
use crate::error::GitAiError;
use crate::lines::{line_count, line_spans, scan_line_spans, spans_view};
use crate::stats::{human_author, human_id};
use crate::text::{copy_chars, copy_opt_chars, opt_chars_view};
use crate::working_log::{
    cps_for, file_chain_ok, seq_nos_increasing, Checkpoint, PromptRecord, WorkingLog,
    working_log_wf,
};

verus! {

/// One history-mutating operation, with the commit ids involved.
pub enum RewriteLogEvent {
    Commit { parent: Option<Vec<char>>, new: Vec<char> },
    CommitAmend { old: Vec<char>, new: Vec<char> },
    Merge { old_head: Vec<char>, new_head: Vec<char>, merged_parents: Vec<Vec<char>> },
    RebaseStep { old: Vec<char>, new: Vec<char> },
    CherryPick { old: Vec<char>, new: Vec<char> },
    Reset { old_head: Vec<char>, new_head: Vec<char> },
    StashCreate { stash_id: Vec<char> },
    StashPop { stash_id: Vec<char> },
    Squash { base: Vec<char>, olds: Vec<Vec<char>>, new: Vec<char> },
}

/// Whether an event's transform went through or fell back to partial
/// attribution.
#[derive(Clone, Copy, Debug, PartialEq, Eq, Structural)]
pub enum EventStatus {
    Applied,
    Degraded,
}

/// The append-only stream of rewrite events.
pub struct RewriteLog {
    pub events: Vec<(RewriteLogEvent, EventStatus)>,
}

impl RewriteLog {
    /// An empty event stream.
    pub fn new() -> (r: RewriteLog)
        ensures
            r.events@.len() == 0,
    {
        RewriteLog { events: Vec::new() }
    }

    /// Appends one event; nothing already recorded changes.
    pub fn append(&mut self, event: RewriteLogEvent, status: EventStatus)
        ensures
            final(self).events@.len() == old(self).events@.len() + 1,
            forall|i: int|
                0 <= i < old(self).events@.len() ==> #[trigger] final(self).events@[i] == old(
                    self,
                ).events@[i],
            final(self).events@.last().1 == status,
            final(self).events@.last().0 == event,
    {
        self.events.push((event, status));
    }
}

/// What the post-commit step does, decided from plain observations.
pub enum CommitPostAction {
    /// Nothing: a dry run, a failed commit, a failed pre-hook, or an
    /// empty repository.
    Skip,
    /// Record an amend of `old` into `new` and finalize under `new`.
    RecordAmend { old: Vec<char>, new: Vec<char> },
    /// Record an ordinary commit of `new` (with its parent, if any)
    /// and finalize under `new`.
    RecordCommit { parent: Option<Vec<char>>, new: Vec<char> },
}

/// Decides the post-commit step exactly as the hook contract asks: a
/// dry run, a failed command, a failed pre-hook or a still-empty
/// repository does nothing; `--amend` with a known prior head records
/// an amend; anything else records a commit.
pub fn commit_post_decision(
    dry_run: bool,
    exit_ok: bool,
    pre_result: Option<bool>,
    has_amend: bool,
    original_commit: Option<Vec<char>>,
    new_sha: Option<Vec<char>>,
) -> (r: CommitPostAction)
    ensures
        r == (if dry_run || !exit_ok || pre_result == Some(false) || new_sha is None {
            CommitPostAction::Skip
        } else if has_amend && original_commit is Some {
            CommitPostAction::RecordAmend { old: original_commit->0, new: new_sha->0 }
        } else {
            CommitPostAction::RecordCommit { parent: original_commit, new: new_sha->0 }
        }),
{
    if dry_run || !exit_ok {
        return CommitPostAction::Skip;
    }
    if let Some(false) = pre_result {
        return CommitPostAction::Skip;
    }
    let new = match new_sha {
        Some(n) => n,
        None => {
            return CommitPostAction::Skip;
        },
    };
    if has_amend {
        match original_commit {
            Some(old) => CommitPostAction::RecordAmend { old, new },
            None => CommitPostAction::RecordCommit { parent: None, new },
        }
    } else {
        CommitPostAction::RecordCommit { parent: original_commit, new }
    }
}

/// How the pre-commit hook ends. A hook never alters the wrapped
/// command: in every outcome the command still runs and keeps its own
/// exit code.
#[derive(Clone, Copy, Debug, PartialEq, Eq, Structural)]
pub enum PreHookOutcome {
    /// The checkpoint was taken; the post-hook may proceed.
    Proceed,
    /// A dry run: both hooks are no-ops.
    SkipDryRun,
    /// A bare repository is silently skipped.
    SkipBare,
    /// The checkpoint failed: the failure is recorded as degraded and
    /// logged, the post-hook must not consume the working log, and the
    /// wrapped command proceeds untouched.
    Degraded,
}

/// Decides the pre-commit hook's outcome from the dry-run test and the
/// checkpoint result. No outcome stops the wrapped command; a failed
/// or missing checkpoint only degrades this commit's bookkeeping.
pub fn commit_pre_outcome(dry_run: bool, pre: &Option<Result<(), GitAiError>>) -> (r:
    PreHookOutcome)
    ensures
        r == (if dry_run {
            PreHookOutcome::SkipDryRun
        } else {
            match pre {
                Some(Ok(_)) => PreHookOutcome::Proceed,
                Some(Err(GitAiError::BareRepository)) => PreHookOutcome::SkipBare,
                Some(Err(_)) => PreHookOutcome::Degraded,
                None => PreHookOutcome::Degraded,
            }
        }),
{
    if dry_run {
        return PreHookOutcome::SkipDryRun;
    }
    match pre {
        Some(Ok(_)) => PreHookOutcome::Proceed,
        Some(Err(GitAiError::BareRepository)) => PreHookOutcome::SkipBare,
        Some(Err(_)) => PreHookOutcome::Degraded,
        None => PreHookOutcome::Degraded,
    }
}

/// Whether line `n` lies in some range of the vector.
pub fn ranges_contain(rs: &Vec<LineRange>, n: u32) -> (r: bool)
    ensures
        r == in_ranges(rs@, n as int),
{
    let mut i: usize = 0;
    while i < rs.len()
        invariant
            0 <= i <= rs@.len(),
            forall|j: int| 0 <= j < i ==> !in_range(#[trigger] rs@[j], n as int),
        decreases rs@.len() - i,
    {
        let hit = match rs[i] {
            LineRange::Single(m) => m == n,
            LineRange::Inclusive(a, b) => a <= n && n <= b,
        };
        if hit {
            proof {
                assert(in_range(rs@[i as int], n as int));
            }
            return true;
        }
        i += 1;
    }
    false
}

/// Whether some entry of the attestation covers line `n`.
pub fn attestation_covers(att: &FileAttestation, n: u32) -> (r: bool)
    ensures
        r == attested_line(*att, n as int),
{
    let mut e: usize = 0;
    while e < att.entries.len()
        invariant
            0 <= e <= att.entries@.len(),
            forall|j: int|
                0 <= j < e ==> !in_ranges((#[trigger] att.entries@[j]).line_ranges@, n as int),
        decreases att.entries@.len() - e,
    {
        if ranges_contain(&att.entries[e].line_ranges, n) {
            proof {
                assert(attested_line(*att, n as int));
            }
            return true;
        }
        e += 1;
    }
    false
}

/// The text of line `n` (1-based): its content span, terminator
/// excluded.
pub open spec fn line_text(s: Seq<char>, n: int) -> Seq<char> {
    s.subrange(line_spans(s)[n - 1].0, line_spans(s)[n - 1].1)
}

/// Line `n` survives the move onto the new tree unchanged: it exists
/// in both contents and its text is the same.
pub open spec fn preserved_line(old_s: Seq<char>, new_s: Seq<char>, n: int) -> bool {
    1 <= n <= line_count(old_s) && n <= line_count(new_s) && line_text(old_s, n) == line_text(
        new_s,
        n,
    )
}

/// Whether line `n` is unchanged between the two scanned contents.
fn line_preserved(
    old_content: &Vec<char>,
    old_spans: &Vec<crate::lines::LineSpan>,
    new_content: &Vec<char>,
    new_spans: &Vec<crate::lines::LineSpan>,
    n: usize,
) -> (r: bool)
    requires
        spans_view(old_spans@) == line_spans(old_content@),
        spans_view(new_spans@) == line_spans(new_content@),
        1 <= n,
    ensures
        r == preserved_line(old_content@, new_content@, n as int),
{
    if n > old_spans.len() || n > new_spans.len() {
        return false;
    }
    proof {
        crate::lines::lemma_line_spans_in_range(old_content@, n - 1);
        crate::lines::lemma_line_spans_in_range(new_content@, n - 1);
        assert(line_spans(old_content@)[n - 1] == (
            old_spans@[n - 1].start as int,
            old_spans@[n - 1].end as int,
        ));
        assert(line_spans(new_content@)[n - 1] == (
            new_spans@[n - 1].start as int,
            new_spans@[n - 1].end as int,
        ));
    }
    let a = crate::text::sub_chars(old_content, old_spans[n - 1].start, old_spans[n - 1].end);
    let b = crate::text::sub_chars(new_content, new_spans[n - 1].start, new_spans[n - 1].end);
    crate::text::chars_eq(&a, &b)
}

/// Projects an attestation through a cherry-pick or rebase step onto
/// the new tree: each entry keeps the lines whose text survives
/// unchanged at the same position; attested lines that changed are
/// credited to the local user as conflict resolutions, in one final
/// entry.
pub fn cherry_pick_file(
    old_att: &FileAttestation,
    old_content: &Vec<char>,
    new_content: &Vec<char>,
) -> (r: FileAttestation)
    requires
        line_count(new_content@) <= u32::MAX,
    ensures
        r.file_path@ == old_att.file_path@,
        r.entries@.len() == old_att.entries@.len() + 1,
        forall|e: int|
            0 <= e < old_att.entries@.len() ==> (#[trigger] r.entries@[e]).author_id@
                == old_att.entries@[e].author_id@ && opt_chars_view(r.entries@[e].hash)
                == opt_chars_view(old_att.entries@[e].hash) && ranges_canonical(
                r.entries@[e].line_ranges@,
            ),
        forall|e: int, n: u32|
            0 <= e < old_att.entries@.len() ==> (#[trigger] in_ranges(
                (#[trigger] r.entries@[e]).line_ranges@,
                n as int,
            ) <==> (in_ranges(old_att.entries@[e].line_ranges@, n as int) && preserved_line(
                old_content@,
                new_content@,
                n as int,
            ))),
        r.entries@.last().author_id@ == human_id(),
        r.entries@.last().hash is None,
        ranges_canonical(r.entries@.last().line_ranges@),
        forall|n: u32|
            #[trigger] in_ranges(r.entries@.last().line_ranges@, n as int) <==> (1 <= n
                <= line_count(new_content@) && attested_line(*old_att, n as int) && !preserved_line(
                old_content@,
                new_content@,
                n as int,
            )),
{
    let old_spans = scan_line_spans(old_content);
    let new_spans = scan_line_spans(new_content);
    let mut entries: Vec<AttestationEntry> = Vec::new();
    let mut e: usize = 0;
    while e < old_att.entries.len()
        invariant
            0 <= e <= old_att.entries@.len(),
            spans_view(old_spans@) == line_spans(old_content@),
            spans_view(new_spans@) == line_spans(new_content@),
            new_spans@.len() == line_count(new_content@),
            new_spans@.len() <= u32::MAX,
            entries@.len() == e,
            forall|e2: int|
                0 <= e2 < e ==> (#[trigger] entries@[e2]).author_id@
                    == old_att.entries@[e2].author_id@ && opt_chars_view(entries@[e2].hash)
                    == opt_chars_view(old_att.entries@[e2].hash) && ranges_canonical(
                    entries@[e2].line_ranges@,
                ),
            forall|e2: int, n: u32|
                0 <= e2 < e ==> (#[trigger] in_ranges(
                    (#[trigger] entries@[e2]).line_ranges@,
                    n as int,
                ) <==> (in_ranges(old_att.entries@[e2].line_ranges@, n as int) && preserved_line(
                    old_content@,
                    new_content@,
                    n as int,
                ))),
        decreases old_att.entries@.len() - e,
    {
        let mut lines_list: Vec<u32> = Vec::new();
        let mut i: usize = 0;
        while i < new_spans.len()
            invariant
                0 <= i <= new_spans@.len(),
                e < old_att.entries@.len(),
                spans_view(old_spans@) == line_spans(old_content@),
                spans_view(new_spans@) == line_spans(new_content@),
                new_spans@.len() == line_count(new_content@),
                new_spans@.len() <= u32::MAX,
                forall|w: int, w2: int| #![trigger lines_list@[w], lines_list@[w2]]
                    0 <= w && w2 == w + 1 && w2 < lines_list@.len() ==> lines_list@[w]
                        < lines_list@[w2],
                lines_list@.len() > 0 ==> lines_list@[lines_list@.len() - 1] <= i,
                forall|n: u32|
                    #[trigger] listed(lines_list@, lines_list@.len() as int, n) <==> (1 <= n <= i
                        && in_ranges(old_att.entries@[e as int].line_ranges@, n as int)
                        && preserved_line(old_content@, new_content@, n as int)),
            decreases new_spans@.len() - i,
        {
            let n = i + 1;
            let keep = ranges_contain(&old_att.entries[e].line_ranges, n as u32) && line_preserved(
                old_content,
                &old_spans,
                new_content,
                &new_spans,
                n,
            );
            let ghost old_list = lines_list@;
            if keep {
                lines_list.push(n as u32);
            }
            proof {
                assert forall|n2: u32|
                    #[trigger] listed(lines_list@, lines_list@.len() as int, n2) implies (1 <= n2
                    <= i + 1 && in_ranges(old_att.entries@[e as int].line_ranges@, n2 as int)
                    && preserved_line(old_content@, new_content@, n2 as int)) by {
                    let w = choose|w: int| 0 <= w < lines_list@.len() && lines_list@[w] == n2;
                    if w < old_list.len() {
                        assert(listed(old_list, old_list.len() as int, n2));
                    } else {
                        assert(keep && n2 == n);
                    }
                }
                assert forall|n2: u32|
                    (1 <= n2 <= i + 1 && in_ranges(
                        old_att.entries@[e as int].line_ranges@,
                        n2 as int,
                    ) && preserved_line(old_content@, new_content@, n2 as int)) implies
                    #[trigger] listed(lines_list@, lines_list@.len() as int, n2) by {
                    if n2 <= i {
                        assert(listed(old_list, old_list.len() as int, n2));
                        let w = choose|w: int| 0 <= w < old_list.len() && old_list[w] == n2;
                        assert(lines_list@[w] == n2);
                    } else {
                        assert(keep);
                        assert(lines_list@[lines_list@.len() - 1] == n2);
                    }
                }
            }
            i += 1;
        }
        let ranges = compress_lines(&lines_list);
        entries.push(
            AttestationEntry {
                author_id: copy_chars(&old_att.entries[e].author_id),
                hash: copy_opt_chars(&old_att.entries[e].hash),
                line_ranges: ranges,
            },
        );
        proof {
            assert forall|n: u32| #[trigger] in_ranges(
                entries@[e as int].line_ranges@,
                n as int,
            ) <==> (in_ranges(old_att.entries@[e as int].line_ranges@, n as int) && preserved_line(
                old_content@,
                new_content@,
                n as int,
            )) by {
                assert(in_ranges(entries@[e as int].line_ranges@, n as int) == listed(
                    lines_list@,
                    lines_list@.len() as int,
                    n,
                ));
                if in_ranges(old_att.entries@[e as int].line_ranges@, n as int) && preserved_line(
                    old_content@,
                    new_content@,
                    n as int,
                ) {
                    assert(1 <= n <= line_count(new_content@));
                }
            }
        }
        e += 1;
    }
    // Conflict resolutions: attested lines whose text did not survive.
    let mut human_lines: Vec<u32> = Vec::new();
    let mut i: usize = 0;
    while i < new_spans.len()
        invariant
            0 <= i <= new_spans@.len(),
            spans_view(old_spans@) == line_spans(old_content@),
            spans_view(new_spans@) == line_spans(new_content@),
            new_spans@.len() == line_count(new_content@),
            new_spans@.len() <= u32::MAX,
            forall|w: int, w2: int| #![trigger human_lines@[w], human_lines@[w2]]
                0 <= w && w2 == w + 1 && w2 < human_lines@.len() ==> human_lines@[w]
                    < human_lines@[w2],
            human_lines@.len() > 0 ==> human_lines@[human_lines@.len() - 1] <= i,
            forall|n: u32|
                #[trigger] listed(human_lines@, human_lines@.len() as int, n) <==> (1 <= n <= i
                    && attested_line(*old_att, n as int) && !preserved_line(
                    old_content@,
                    new_content@,
                    n as int,
                )),
        decreases new_spans@.len() - i,
    {
        let n = i + 1;
        let keep = attestation_covers(old_att, n as u32) && !line_preserved(
            old_content,
            &old_spans,
            new_content,
            &new_spans,
            n,
        );
        let ghost old_list = human_lines@;
        if keep {
            human_lines.push(n as u32);
        }
        proof {
            assert forall|n2: u32|
                #[trigger] listed(human_lines@, human_lines@.len() as int, n2) implies (1 <= n2 <= i
                + 1 && attested_line(*old_att, n2 as int) && !preserved_line(
                old_content@,
                new_content@,
                n2 as int,
            )) by {
                let w = choose|w: int| 0 <= w < human_lines@.len() && human_lines@[w] == n2;
                if w < old_list.len() {
                    assert(listed(old_list, old_list.len() as int, n2));
                } else {
                    assert(keep && n2 == n);
                }
            }
            assert forall|n2: u32|
                (1 <= n2 <= i + 1 && attested_line(*old_att, n2 as int) && !preserved_line(
                    old_content@,
                    new_content@,
                    n2 as int,
                )) implies #[trigger] listed(human_lines@, human_lines@.len() as int, n2) by {
                if n2 <= i {
                    assert(listed(old_list, old_list.len() as int, n2));
                    let w = choose|w: int| 0 <= w < old_list.len() && old_list[w] == n2;
                    assert(human_lines@[w] == n2);
                } else {
                    assert(keep);
                    assert(human_lines@[human_lines@.len() - 1] == n2);
                }
            }
        }
        i += 1;
    }
    let human_ranges = compress_lines(&human_lines);
    entries.push(
        AttestationEntry { author_id: human_author(), hash: None, line_ranges: human_ranges },
    );
    proof {
        assert forall|n: u32| #[trigger] in_ranges(
            entries@.last().line_ranges@,
            n as int,
        ) <==> (1 <= n <= line_count(new_content@) && attested_line(*old_att, n as int)
            && !preserved_line(old_content@, new_content@, n as int)) by {
            assert(in_ranges(entries@.last().line_ranges@, n as int) == listed(
                human_lines@,
                human_lines@.len() as int,
                n,
            ));
        }
    }
    FileAttestation { file_path: copy_chars(&old_att.file_path), entries }
}

/// The squashed commit that owns line `n`: the latest of the squashed
/// attestations covering it (none when no attestation covers it).
pub open spec fn squash_winner(atts: Seq<FileAttestation>, n: int) -> int
    decreases atts.len(),
{
    if atts.len() == 0 {
        -1
    } else if attested_line(atts.last(), n) {
        atts.len() - 1
    } else {
        squash_winner(atts.drop_last(), n)
    }
}

/// The index where the entries of attestation `a` start in the
/// squashed output.
pub open spec fn entry_offset(atts: Seq<FileAttestation>, a: int) -> int
    decreases a,
{
    if a <= 0 {
        0
    } else {
        entry_offset(atts, a - 1) + atts[a - 1].entries@.len()
    }
}

/// Which squashed attestation covers line `n` last, if any.
fn squash_winner_at(atts: &Vec<FileAttestation>, n: u32) -> (r: Option<usize>)
    ensures
        match r {
            Some(a) => a as int == squash_winner(atts@, n as int),
            None => squash_winner(atts@, n as int) == -1,
        },
{
    let mut a = atts.len();
    proof {
        assert(atts@.subrange(0, atts@.len() as int) =~= atts@);
    }
    while a > 0
        invariant
            0 <= a <= atts@.len(),
            squash_winner(atts@, n as int) == squash_winner(atts@.subrange(0, a as int), n as int),
        decreases a,
    {
        a = a - 1;
        let ghost pre = atts@.subrange(0, a + 1);
        proof {
            assert(pre.last() == atts@[a as int]);
            assert(pre.drop_last() =~= atts@.subrange(0, a as int));
        }
        if attestation_covers(&atts[a], n) {
            return Some(a);
        }
    }
    proof {
        assert(atts@.subrange(0, 0) =~= Seq::<FileAttestation>::empty());
    }
    None
}

/// One squashed output entry stands for entry `e` of attestation `a`,
/// at its flat position, keeping exactly the lines that commit `a`
/// touched last.
pub open spec fn squash_entry_ok(
    atts: Seq<FileAttestation>,
    entry: AttestationEntry,
    j: int,
    max_line: u32,
) -> bool {
    exists|a: int, e: int| #![trigger atts[a].entries@[e]]
        0 <= a < atts.len() && 0 <= e < atts[a].entries@.len() && j == entry_offset(atts, a) + e
            && entry.author_id@ == atts[a].entries@[e].author_id@ && opt_chars_view(entry.hash)
            == opt_chars_view(atts[a].entries@[e].hash) && ranges_canonical(entry.line_ranges@)
            && (forall|n: u32|
            #[trigger] in_ranges(entry.line_ranges@, n as int) <==> (in_ranges(
                atts[a].entries@[e].line_ranges@,
                n as int,
            ) && squash_winner(atts, n as int) == a && 1 <= n <= max_line))
}

/// Merges the attestations of squashed commits, oldest first, onto a
/// final tree of `max_line` lines: the output holds one entry per
/// entry of each squashed attestation, in order, and each keeps
/// exactly the lines its own commit touched last, so later commits
/// override earlier ones where their ranges overlap.
pub fn squash_attestations(atts: &Vec<FileAttestation>, max_line: u32) -> (r: Vec<
    AttestationEntry,
>)
    requires
        max_line < u32::MAX,
    ensures
        r@.len() == entry_offset(atts@, atts@.len() as int),
        forall|j: int| 0 <= j < r@.len() ==> squash_entry_ok(atts@, #[trigger] r@[j], j, max_line),
{
    let mut out: Vec<AttestationEntry> = Vec::new();
    let mut a: usize = 0;
    while a < atts.len()
        invariant
            max_line < u32::MAX,
            0 <= a <= atts@.len(),
            out@.len() == entry_offset(atts@, a as int),
            forall|j: int|
                0 <= j < out@.len() ==> squash_entry_ok(atts@, #[trigger] out@[j], j, max_line),
        decreases atts@.len() - a,
    {
        let mut e: usize = 0;
        while e < atts[a].entries.len()
            invariant
                max_line < u32::MAX,
                0 <= a < atts@.len(),
                0 <= e <= atts@[a as int].entries@.len(),
                out@.len() == entry_offset(atts@, a as int) + e,
                forall|j: int|
                    0 <= j < out@.len() ==> squash_entry_ok(atts@, #[trigger] out@[j], j, max_line),
            decreases atts@[a as int].entries@.len() - e,
        {
            let mut lines_list: Vec<u32> = Vec::new();
            let mut n: u32 = 1;
            while n <= max_line
                invariant
                    max_line < u32::MAX,
                    1 <= n <= max_line as int + 1,
                    0 <= a < atts@.len(),
                    e < atts@[a as int].entries@.len(),
                    forall|w: int, w2: int| #![trigger lines_list@[w], lines_list@[w2]]
                        0 <= w && w2 == w + 1 && w2 < lines_list@.len() ==> lines_list@[w]
                            < lines_list@[w2],
                    lines_list@.len() > 0 ==> lines_list@[lines_list@.len() - 1] < n,
                    forall|n2: u32|
                        #[trigger] listed(lines_list@, lines_list@.len() as int, n2) <==> (1 <= n2
                            < n && in_ranges(
                            atts@[a as int].entries@[e as int].line_ranges@,
                            n2 as int,
                        ) && squash_winner(atts@, n2 as int) == a && n2 <= max_line),
                decreases max_line as int + 1 - n,
            {
                let keep = ranges_contain(&atts[a].entries[e].line_ranges, n) && match
                    squash_winner_at(atts, n) {
                    Some(w) => w == a,
                    None => false,
                };
                let ghost old_list = lines_list@;
                if keep {
                    lines_list.push(n);
                }
                proof {
                    assert forall|n2: u32|
                        #[trigger] listed(lines_list@, lines_list@.len() as int, n2) implies (1
                        <= n2 < n + 1 && in_ranges(
                        atts@[a as int].entries@[e as int].line_ranges@,
                        n2 as int,
                    ) && squash_winner(atts@, n2 as int) == a && n2 <= max_line) by {
                        let w = choose|w: int|
                            0 <= w < lines_list@.len() && lines_list@[w] == n2;
                        if w < old_list.len() {
                            assert(listed(old_list, old_list.len() as int, n2));
                        } else {
                            assert(keep && n2 == n);
                        }
                    }
                    assert forall|n2: u32|
                        (1 <= n2 < n + 1 && in_ranges(
                            atts@[a as int].entries@[e as int].line_ranges@,
                            n2 as int,
                        ) && squash_winner(atts@, n2 as int) == a && n2 <= max_line) implies
                        #[trigger] listed(lines_list@, lines_list@.len() as int, n2) by {
                        if n2 < n {
                            assert(listed(old_list, old_list.len() as int, n2));
                            let w = choose|w: int| 0 <= w < old_list.len() && old_list[w] == n2;
                            assert(lines_list@[w] == n2);
                        } else {
                            assert(keep);
                            assert(lines_list@[lines_list@.len() - 1] == n2);
                        }
                    }
                }
                n = n + 1;
            }
            let ranges = compress_lines(&lines_list);
            let entry = AttestationEntry {
                author_id: copy_chars(&atts[a].entries[e].author_id),
                hash: copy_opt_chars(&atts[a].entries[e].hash),
                line_ranges: ranges,
            };
            let ghost before = out@;
            out.push(entry);
            proof {
                let j = before.len() as int;
                assert(out@[j] == entry);
                assert forall|n2: u32| #[trigger] in_ranges(
                    out@[j].line_ranges@,
                    n2 as int,
                ) <==> (in_ranges(
                    atts@[a as int].entries@[e as int].line_ranges@,
                    n2 as int,
                ) && squash_winner(atts@, n2 as int) == a && 1 <= n2 <= max_line) by {
                    assert(in_ranges(out@[j].line_ranges@, n2 as int) == listed(
                        lines_list@,
                        lines_list@.len() as int,
                        n2,
                    ));
                }
                assert(squash_entry_ok(atts@, out@[j], j, max_line));
                assert forall|j2: int| 0 <= j2 < out@.len() implies squash_entry_ok(
                    atts@,
                    #[trigger] out@[j2],
                    j2,
                    max_line,
                ) by {
                    if j2 < before.len() {
                        assert(out@[j2] == before[j2]);
                    }
                }
            }
            e += 1;
        }
        a += 1;
    }
    out
}

/// A stashed working log, keyed by stash id elsewhere.
pub struct StashRecord {
    pub checkpoints: Vec<Checkpoint>,
    pub prompts: Vec<PromptRecord>,
    pub next_seq: u64,
}

/// The stashed contents satisfy the working-log invariant.
pub open spec fn stash_record_wf(r: StashRecord) -> bool {
    &&& forall|p: Seq<char>| file_chain_ok(#[trigger] cps_for(r.checkpoints@, p))
    &&& seq_nos_increasing(r.checkpoints@)
    &&& forall|i: int|
        0 <= i < r.checkpoints@.len() ==> (#[trigger] r.checkpoints@[i]).sequence_no < r.next_seq
}

/// Stash creation: snapshot the working log into a side record and
/// clear it.
pub fn stash_create(log: &mut WorkingLog) -> (r: StashRecord)
    requires
        working_log_wf(*old(log)),
    ensures
        working_log_wf(*final(log)),
        final(log).checkpoints@.len() == 0,
        final(log).prompts@.len() == 0,
        stash_record_wf(r),
        r.checkpoints@ == old(log).checkpoints@,
        r.prompts@ == old(log).prompts@,
        r.next_seq == old(log).next_seq,
{
    let mut checkpoints: Vec<Checkpoint> = Vec::new();
    let mut prompts: Vec<PromptRecord> = Vec::new();
    core::mem::swap(&mut checkpoints, &mut log.checkpoints);
    core::mem::swap(&mut prompts, &mut log.prompts);
    let next_seq = log.next_seq;
    log.next_seq = 0;
    proof {
        assert forall|p: Seq<char>| file_chain_ok(#[trigger] cps_for(log.checkpoints@, p)) by {
            assert(cps_for(log.checkpoints@, p) =~= Seq::<Checkpoint>::empty());
        }
    }
    StashRecord { checkpoints, prompts, next_seq }
}

/// Stash pop: restore a snapshot into an empty working log.
pub fn stash_pop(log: &mut WorkingLog, rec: StashRecord)
    requires
        old(log).checkpoints@.len() == 0,
        stash_record_wf(rec),
    ensures
        working_log_wf(*final(log)),
        final(log).checkpoints@ == rec.checkpoints@,
        final(log).prompts@ == rec.prompts@,
{
    log.checkpoints = rec.checkpoints;
    log.prompts = rec.prompts;
    log.next_seq = rec.next_seq;
}

} // verus!
