//! Checkpoints and the working log: the pending, uncommitted record of
//! what happened since the last commit.
//!
//! Checkpoints for one file form a contiguous chain — each one's
//! `before_content` is its predecessor's `after_content`, the first is
//! an `Initial` snapshot of the session-start content — and sequence
//! numbers grow strictly. `working_log_wf` states this invariant;
//! every operation preserves it.

use vstd::prelude::*;

use crate::text::{chars_eq, copy_chars, copy_opt_chars, opt_chars_view};

verus! {

/// The author class of one checkpoint.
#[derive(Clone, Copy, Debug, PartialEq, Eq, Structural)]
pub enum CheckpointKind {
    /// First snapshot of a file in a working session.
    Initial,
    /// Edits since the previous checkpoint, made by the local user.
    Human,
    /// Edits since the previous checkpoint, made by a named AI session.
    AiAgent,
}

/// The identity of one AI session.
pub struct AgentId {
    pub tool: Vec<char>,
    pub id: Vec<char>,
    pub model: Vec<char>,
}

/// The view of an optional agent identity.
pub open spec fn opt_agent_view(a: Option<AgentId>) -> Option<(Seq<char>, Seq<char>, Seq<char>)> {
    match a {
        Some(g) => Some((g.tool@, g.id@, g.model@)),
        None => None,
    }
}

/// An owned copy of an optional agent identity.
pub fn copy_opt_agent(a: &Option<AgentId>) -> (r: Option<AgentId>)
    ensures
        opt_agent_view(r) == opt_agent_view(*a),
{
    match a {
        Some(g) => Some(
            AgentId { tool: copy_chars(&g.tool), id: copy_chars(&g.id), model: copy_chars(&g.model) },
        ),
        None => None,
    }
}

/// One prompt record, stored once per distinct hash.
pub struct PromptRecord {
    pub hash: Vec<char>,
    pub tool: Vec<char>,
    pub model: Vec<char>,
    pub transcript_fragment: Vec<char>,
}

/// One observed file snapshot with the author class that produced the
/// change since the previous snapshot.
pub struct Checkpoint {
    pub file_path: Vec<char>,
    pub kind: CheckpointKind,
    pub agent: Option<AgentId>,
    pub prompt_hash: Option<Vec<char>>,
    pub before_content: Vec<char>,
    pub after_content: Vec<char>,
    pub sequence_no: u64,
}

/// Two checkpoints agree in everything the log's model observes.
pub open spec fn cp_eq(a: Checkpoint, b: Checkpoint) -> bool {
    &&& a.file_path@ == b.file_path@
    &&& a.kind == b.kind
    &&& opt_agent_view(a.agent) == opt_agent_view(b.agent)
    &&& opt_chars_view(a.prompt_hash) == opt_chars_view(b.prompt_hash)
    &&& a.before_content@ == b.before_content@
    &&& a.after_content@ == b.after_content@
    &&& a.sequence_no == b.sequence_no
}

/// An owned copy of a checkpoint.
pub fn copy_checkpoint(c: &Checkpoint) -> (r: Checkpoint)
    ensures
        cp_eq(r, *c),
{
    Checkpoint {
        file_path: copy_chars(&c.file_path),
        kind: c.kind,
        agent: copy_opt_agent(&c.agent),
        prompt_hash: copy_opt_chars(&c.prompt_hash),
        before_content: copy_chars(&c.before_content),
        after_content: copy_chars(&c.after_content),
        sequence_no: c.sequence_no,
    }
}

/// The checkpoints of `cps` whose file path is `path`, in order.
pub open spec fn cps_for(cps: Seq<Checkpoint>, path: Seq<char>) -> Seq<Checkpoint>
    decreases cps.len(),
{
    if cps.len() == 0 {
        Seq::empty()
    } else {
        cps_for(cps.drop_last(), path) + if cps.last().file_path@ == path {
            seq![cps.last()]
        } else {
            Seq::empty()
        }
    }
}

/// One file's checkpoints form a contiguous chain: the first is an
/// `Initial` snapshot starting from empty, later ones are edits whose
/// `before_content` equals the predecessor's `after_content`.
pub open spec fn file_chain_ok(cps: Seq<Checkpoint>) -> bool {
    &&& (cps.len() > 0 ==> cps[0].kind == CheckpointKind::Initial && cps[0].before_content@.len()
        == 0)
    &&& forall|i: int| 1 <= i < cps.len() ==> (#[trigger] cps[i]).kind != CheckpointKind::Initial
    &&& forall|i: int, j: int| #![trigger cps[i], cps[j]]
        0 <= i && j == i + 1 && j < cps.len() ==> cps[i].after_content@ == cps[j].before_content@
}

/// Sequence numbers grow strictly along the log.
pub open spec fn seq_nos_increasing(cps: Seq<Checkpoint>) -> bool {
    forall|i: int, j: int| #![trigger cps[i], cps[j]]
        0 <= i && j == i + 1 && j < cps.len() ==> cps[i].sequence_no < cps[j].sequence_no
}

/// The append-only record of the pending change set.
pub struct WorkingLog {
    pub checkpoints: Vec<Checkpoint>,
    pub prompts: Vec<PromptRecord>,
    pub next_seq: u64,
}

/// The working-log invariant: per-file chains are intact and sequence
/// numbers are strict and below `next_seq`.
pub open spec fn working_log_wf(l: WorkingLog) -> bool {
    &&& forall|p: Seq<char>| file_chain_ok(#[trigger] cps_for(l.checkpoints@, p))
    &&& seq_nos_increasing(l.checkpoints@)
    &&& forall|i: int|
        0 <= i < l.checkpoints@.len() ==> (#[trigger] l.checkpoints@[i]).sequence_no < l.next_seq
}

/// Some checkpoint of the log was made by an AI session.
pub open spec fn has_ai_checkpoint(cps: Seq<Checkpoint>) -> bool {
    exists|i: int| 0 <= i < cps.len() && (#[trigger] cps[i]).kind == CheckpointKind::AiAgent
}

/// The per-file effect of one checkpoint-creation request on the
/// file's chain: either the request is skipped — the content is
/// unchanged, the edit is human, the caller asked to skip and no AI
/// session has touched the repository — or the chain grows by the new
/// snapshot, preceded by an `Initial` snapshot of the session-start
/// content when the file had none.
pub open spec fn create_effect(
    prior: Seq<Checkpoint>,
    post: Seq<Checkpoint>,
    path: Seq<char>,
    kind: CheckpointKind,
    agent_v: Option<(Seq<char>, Seq<char>, Seq<char>)>,
    prompt_v: Option<Seq<char>>,
    base: Seq<char>,
    current: Seq<char>,
    skip_if_no_ai: bool,
    had_ai: bool,
) -> bool {
    let prev_after = if prior.len() > 0 {
        prior.last().after_content@
    } else {
        base
    };
    let skip = current == prev_after && kind == CheckpointKind::Human && skip_if_no_ai && !had_ai;
    if skip {
        post == prior
    } else {
        let fresh: int = if prior.len() == 0 {
            1
        } else {
            0
        };
        &&& post.len() == prior.len() + fresh + 1
        &&& forall|i: int| 0 <= i < prior.len() ==> post[i] == prior[i]
        &&& (prior.len() == 0 ==> post[0].file_path@ == path && post[0].kind
            == CheckpointKind::Initial && post[0].before_content@.len() == 0
            && post[0].after_content@ == base)
        &&& post.last().file_path@ == path
        &&& post.last().kind == kind
        &&& opt_agent_view(post.last().agent) == agent_v
        &&& opt_chars_view(post.last().prompt_hash) == prompt_v
        &&& post.last().before_content@ == prev_after
        &&& post.last().after_content@ == current
    }
}

/// Whether the request is skipped, over the same observations.
pub open spec fn create_skips(
    prior: Seq<Checkpoint>,
    kind: CheckpointKind,
    base: Seq<char>,
    current: Seq<char>,
    skip_if_no_ai: bool,
    had_ai: bool,
) -> bool {
    let prev_after = if prior.len() > 0 {
        prior.last().after_content@
    } else {
        base
    };
    current == prev_after && kind == CheckpointKind::Human && skip_if_no_ai && !had_ai
}

proof fn lemma_cps_for_push(cps: Seq<Checkpoint>, c: Checkpoint, p: Seq<char>)
    ensures
        cps_for(cps.push(c), p) == if c.file_path@ == p {
            cps_for(cps, p).push(c)
        } else {
            cps_for(cps, p)
        },
{
    assert(cps.push(c).drop_last() =~= cps);
    assert(cps.push(c).last() == c);
    if c.file_path@ == p {
        assert(cps_for(cps.push(c), p) =~= cps_for(cps, p).push(c));
    } else {
        assert(cps_for(cps.push(c), p) =~= cps_for(cps, p));
    }
}

proof fn lemma_has_ai_push(cps: Seq<Checkpoint>, c: Checkpoint)
    ensures
        has_ai_checkpoint(cps.push(c)) == (has_ai_checkpoint(cps) || c.kind
            == CheckpointKind::AiAgent),
{
    let p = cps.push(c);
    if has_ai_checkpoint(cps) {
        let w = choose|i: int| 0 <= i < cps.len() && (#[trigger] cps[i]).kind
            == CheckpointKind::AiAgent;
        assert(p[w].kind == CheckpointKind::AiAgent);
        assert(has_ai_checkpoint(p));
    }
    if c.kind == CheckpointKind::AiAgent {
        assert(p[cps.len() as int].kind == CheckpointKind::AiAgent);
        assert(has_ai_checkpoint(p));
    }
    if has_ai_checkpoint(p) && c.kind != CheckpointKind::AiAgent {
        let w = choose|i: int| 0 <= i < p.len() && (#[trigger] p[i]).kind
            == CheckpointKind::AiAgent;
        assert(w < cps.len());
        assert(cps[w].kind == CheckpointKind::AiAgent);
        assert(has_ai_checkpoint(cps));
    }
}

proof fn lemma_chain_ok_push(ch: Seq<Checkpoint>, c: Checkpoint)
    requires
        file_chain_ok(ch),
        (c.kind == CheckpointKind::Initial && ch.len() == 0 && c.before_content@.len() == 0) || (
        c.kind != CheckpointKind::Initial && ch.len() > 0 && ch.last().after_content@
            == c.before_content@),
    ensures
        file_chain_ok(ch.push(c)),
{
    let ch2 = ch.push(c);
    if ch.len() == 0 {
        assert(ch2[0] == c);
        assert(file_chain_ok(ch2));
    } else {
        assert(ch2[0] == ch[0]);
        assert forall|i: int| 1 <= i < ch2.len() implies (#[trigger] ch2[i]).kind
            != CheckpointKind::Initial by {
            if i < ch.len() {
                assert(ch2[i] == ch[i]);
            } else {
                assert(ch2[i] == c);
            }
        }
        assert forall|i: int, j: int| #![trigger ch2[i], ch2[j]]
            0 <= i && j == i + 1 && j < ch2.len() implies ch2[i].after_content@
            == ch2[j].before_content@ by {
            if j < ch.len() {
                assert(ch2[i] == ch[i] && ch2[j] == ch[j]);
            } else {
                assert(ch2[i] == ch[ch.len() - 1] && ch2[j] == c);
            }
        }
    }
}

proof fn lemma_cps_append_keeps_wf(l: WorkingLog, c: Checkpoint, p: Seq<char>)
    requires
        working_log_wf(l),
        c.sequence_no == l.next_seq,
        l.next_seq < u64::MAX,
        c.file_path@ == p,
        (c.kind == CheckpointKind::Initial && cps_for(l.checkpoints@, p).len() == 0
            && c.before_content@.len() == 0) || (c.kind != CheckpointKind::Initial && cps_for(
            l.checkpoints@,
            p,
        ).len() > 0 && cps_for(l.checkpoints@, p).last().after_content@ == c.before_content@),
    ensures
        forall|q: Seq<char>| file_chain_ok(#[trigger] cps_for(l.checkpoints@.push(c), q)),
        seq_nos_increasing(l.checkpoints@.push(c)),
        forall|i: int|
            0 <= i < l.checkpoints@.len() + 1 ==> (#[trigger] l.checkpoints@.push(c)[i]).sequence_no
                < l.next_seq + 1,
{
    let pushed = l.checkpoints@.push(c);
    assert forall|q: Seq<char>| file_chain_ok(#[trigger] cps_for(pushed, q)) by {
        lemma_cps_for_push(l.checkpoints@, c, q);
        if q == p {
            lemma_chain_ok_push(cps_for(l.checkpoints@, p), c);
        } else {
            assert(file_chain_ok(cps_for(l.checkpoints@, q)));
        }
    }
    assert forall|i: int, j: int| #![trigger pushed[i], pushed[j]]
        0 <= i && j == i + 1 && j < pushed.len() implies pushed[i].sequence_no
        < pushed[j].sequence_no by {
        if j < l.checkpoints@.len() {
            assert(pushed[i] == l.checkpoints@[i] && pushed[j] == l.checkpoints@[j]);
        } else {
            assert(pushed[i] == l.checkpoints@[i] && pushed[j] == c);
            assert(l.checkpoints@[i].sequence_no < l.next_seq);
        }
    }
    assert forall|i: int| 0 <= i < pushed.len() implies (#[trigger] pushed[i]).sequence_no
        < l.next_seq + 1 by {
        if i < l.checkpoints@.len() {
            assert(pushed[i] == l.checkpoints@[i]);
        } else {
            assert(pushed[i] == c);
        }
    }
}

impl WorkingLog {
    /// An empty working log.
    pub fn new() -> (r: WorkingLog)
        ensures
            working_log_wf(r),
            r.checkpoints@.len() == 0,
            r.prompts@.len() == 0,
    {
        let r = WorkingLog { checkpoints: Vec::new(), prompts: Vec::new(), next_seq: 0 };
        proof {
            assert forall|p: Seq<char>| file_chain_ok(#[trigger] cps_for(r.checkpoints@, p)) by {
                assert(cps_for(r.checkpoints@, p) =~= Seq::<Checkpoint>::empty());
            }
        }
        r
    }

    /// Erases every entry.
    pub fn reset(&mut self)
        ensures
            working_log_wf(*final(self)),
            final(self).checkpoints@.len() == 0,
            final(self).prompts@.len() == 0,
    {
        self.checkpoints = Vec::new();
        self.prompts = Vec::new();
        self.next_seq = 0;
        proof {
            assert forall|p: Seq<char>| file_chain_ok(#[trigger] cps_for(self.checkpoints@, p)) by {
                assert(cps_for(self.checkpoints@, p) =~= Seq::<Checkpoint>::empty());
            }
        }
    }

    /// The ordered checkpoints recorded for one file.
    pub fn iter_for_file(&self, path: &Vec<char>) -> (r: Vec<Checkpoint>)
        ensures
            r@.len() == cps_for(self.checkpoints@, path@).len(),
            forall|i: int|
                0 <= i < r@.len() ==> cp_eq(
                    #[trigger] r@[i],
                    cps_for(self.checkpoints@, path@)[i],
                ),
    {
        let mut r: Vec<Checkpoint> = Vec::new();
        let mut i: usize = 0;
        while i < self.checkpoints.len()
            invariant
                0 <= i <= self.checkpoints@.len(),
                r@.len() == cps_for(self.checkpoints@.subrange(0, i as int), path@).len(),
                forall|j: int|
                    0 <= j < r@.len() ==> cp_eq(
                        #[trigger] r@[j],
                        cps_for(self.checkpoints@.subrange(0, i as int), path@)[j],
                    ),
            decreases self.checkpoints@.len() - i,
        {
            let ghost pre = self.checkpoints@.subrange(0, i as int);
            let ghost post = self.checkpoints@.subrange(0, i + 1);
            proof {
                assert(post =~= pre.push(self.checkpoints@[i as int]));
                lemma_cps_for_push(pre, self.checkpoints@[i as int], path@);
            }
            if chars_eq(&self.checkpoints[i].file_path, path) {
                let c = copy_checkpoint(&self.checkpoints[i]);
                r.push(c);
            }
            i += 1;
        }
        proof {
            assert(self.checkpoints@.subrange(0, self.checkpoints@.len() as int)
                =~= self.checkpoints@);
        }
        r
    }

    /// Records one file snapshot, per the checkpoint-store rules: the
    /// file's chain gains the new snapshot — preceded by an `Initial`
    /// snapshot of the session-start content when the file had none —
    /// unless the request is skipped because nothing changed, the edit
    /// is human, `skip_if_no_ai` is set and no AI session has touched
    /// the repository.
    pub fn create_checkpoint(
        &mut self,
        path: &Vec<char>,
        kind: CheckpointKind,
        agent: &Option<AgentId>,
        prompt_hash: &Option<Vec<char>>,
        base_content: &Vec<char>,
        current_content: &Vec<char>,
        skip_if_no_ai: bool,
    ) -> (wrote: bool)
        requires
            working_log_wf(*old(self)),
            kind != CheckpointKind::Initial,
            old(self).next_seq + 2 <= u64::MAX,
        ensures
            working_log_wf(*final(self)),
            final(self).prompts@ == old(self).prompts@,
            final(self).next_seq >= old(self).next_seq,
            final(self).next_seq <= old(self).next_seq + 2,
            create_effect(
                cps_for(old(self).checkpoints@, path@),
                cps_for(final(self).checkpoints@, path@),
                path@,
                kind,
                opt_agent_view(*agent),
                opt_chars_view(*prompt_hash),
                base_content@,
                current_content@,
                skip_if_no_ai,
                has_ai_checkpoint(old(self).checkpoints@),
            ),
            wrote == !create_skips(
                cps_for(old(self).checkpoints@, path@),
                kind,
                base_content@,
                current_content@,
                skip_if_no_ai,
                has_ai_checkpoint(old(self).checkpoints@),
            ),
            forall|p: Seq<char>|
                p != path@ ==> #[trigger] cps_for(final(self).checkpoints@, p) == cps_for(
                    old(self).checkpoints@,
                    p,
                ),
            kind == CheckpointKind::Human ==> has_ai_checkpoint(final(self).checkpoints@)
                == has_ai_checkpoint(old(self).checkpoints@),
            forall|i: int|
                0 <= i < old(self).checkpoints@.len() ==> #[trigger] final(self).checkpoints@[i]
                    == old(self).checkpoints@[i],
            final(self).checkpoints@.len() >= old(self).checkpoints@.len(),
    {
        let ghost orig = self.checkpoints@;
        // Find the most recent checkpoint of this file, and whether any
        // AI checkpoint exists.
        let mut last_idx: usize = 0;
        let mut have_last = false;
        let mut has_ai = false;
        let mut i: usize = 0;
        while i < self.checkpoints.len()
            invariant
                0 <= i <= self.checkpoints@.len(),
                self.checkpoints@ == orig,
                has_ai == has_ai_checkpoint(orig.subrange(0, i as int)),
                !have_last ==> cps_for(orig.subrange(0, i as int), path@).len() == 0,
                have_last ==> last_idx < i && orig[last_idx as int].file_path@ == path@
                    && cps_for(orig.subrange(0, i as int), path@).len() > 0 && cps_for(
                    orig.subrange(0, i as int),
                    path@,
                ).last() == orig[last_idx as int],
            decreases self.checkpoints@.len() - i,
        {
            let ghost pre = orig.subrange(0, i as int);
            let ghost post = orig.subrange(0, i + 1);
            proof {
                assert(post =~= pre.push(orig[i as int]));
                lemma_cps_for_push(pre, orig[i as int], path@);
                lemma_has_ai_push(pre, orig[i as int]);
            }
            if chars_eq(&self.checkpoints[i].file_path, path) {
                last_idx = i;
                have_last = true;
            }
            if self.checkpoints[i].kind == CheckpointKind::AiAgent {
                has_ai = true;
            }
            i += 1;
        }
        proof {
            assert(orig.subrange(0, orig.len() as int) =~= orig);
        }
        let ghost prior = cps_for(orig, path@);
        let prev_after: Vec<char> = if have_last {
            copy_chars(&self.checkpoints[last_idx].after_content)
        } else {
            copy_chars(base_content)
        };
        let unchanged = chars_eq(current_content, &prev_after);
        if unchanged && kind == CheckpointKind::Human && skip_if_no_ai && !has_ai {
            return false;
        }

        if !have_last {
            let c0 = Checkpoint {
                file_path: copy_chars(path),
                kind: CheckpointKind::Initial,
                agent: None,
                prompt_hash: None,
                before_content: Vec::new(),
                after_content: copy_chars(base_content),
                sequence_no: self.next_seq,
            };
            proof {
                lemma_cps_append_keeps_wf(*self, c0, path@);
            }
            self.checkpoints.push(c0);
            self.next_seq = self.next_seq + 1;
        }
        let ghost mid = self.checkpoints@;
        let c = Checkpoint {
            file_path: copy_chars(path),
            kind,
            agent: copy_opt_agent(agent),
            prompt_hash: copy_opt_chars(prompt_hash),
            before_content: prev_after,
            after_content: copy_chars(current_content),
            sequence_no: self.next_seq,
        };
        proof {
            lemma_cps_append_keeps_wf(*self, c, path@);
            if !have_last {
                assert(cps_for(mid, path@) =~= prior.push(mid.last())) by {
                    lemma_cps_for_push(orig, mid.last(), path@);
                    assert(mid =~= orig.push(mid.last()));
                }
            }
        }
        self.checkpoints.push(c);
        self.next_seq = self.next_seq + 1;
        proof {
            assert(self.checkpoints@ =~= mid.push(c));
            lemma_cps_for_push(mid, c, path@);
            assert forall|p: Seq<char>|
                p != path@ implies #[trigger] cps_for(self.checkpoints@, p) == cps_for(
                orig,
                p,
            ) by {
                lemma_cps_for_push(mid, c, p);
                if !have_last {
                    assert(mid =~= orig.push(mid.last()));
                    lemma_cps_for_push(orig, mid.last(), p);
                }
            }
            assert forall|i: int| 0 <= i < orig.len() implies #[trigger] self.checkpoints@[i]
                == orig[i] by {}
            if kind == CheckpointKind::Human {
                lemma_has_ai_push(mid, c);
                if !have_last {
                    lemma_has_ai_push(orig, mid.last());
                }
            }
        }
        true
    }

    /// Stores a prompt record; a hash already present stays as it was
    /// first recorded, since stored prompt records are immutable.
    pub fn append_prompt_record(&mut self, rec: PromptRecord)
        ensures
            working_log_wf(*old(self)) ==> working_log_wf(*final(self)),
            final(self).checkpoints@ == old(self).checkpoints@,
            final(self).next_seq == old(self).next_seq,
            (exists|k: int|
                0 <= k < old(self).prompts@.len() && (#[trigger] old(self).prompts@[k]).hash@
                    == rec.hash@) ==> final(self).prompts@ == old(self).prompts@,
            (forall|k: int|
                0 <= k < old(self).prompts@.len() ==> (#[trigger] old(self).prompts@[k]).hash@
                    != rec.hash@) ==> final(self).prompts@ == old(self).prompts@.push(rec),
    {
        let mut k: usize = 0;
        let mut found = false;
        while k < self.prompts.len()
            invariant
                0 <= k <= self.prompts@.len(),
                found == exists|w: int|
                    0 <= w < k && (#[trigger] self.prompts@[w]).hash@ == rec.hash@,
            decreases self.prompts@.len() - k,
        {
            if chars_eq(&self.prompts[k].hash, &rec.hash) {
                found = true;
            }
            k += 1;
        }
        if !found {
            self.prompts.push(rec);
        }
    }
}

} // verus!
