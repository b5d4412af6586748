//! Turning a working log into a commit's authorship record: virtualize
//! every touched file, attest its freshly written lines, collect the
//! referenced prompts, and clear the log — the `Initial` snapshots
//! included.

use vstd::prelude::*;

use crate::attribution::{attrs_merged, attrs_wf, AttrKey, Attribution};
use crate::authorship_log::{
    attestation_matches, finalize_file, AuthorshipLog, FileAttestation,
};
use crate::lines::line_count;
use crate::stats::human_id;
use crate::text::{chars_eq, copy_chars, opt_chars_view};
use crate::virtual_attribution::{
    attrs_key_map, lemma_replay_congruent, replay_file, replay_key_map, seed_attribution,
};
use crate::working_log::{
    cp_eq, cps_for, PromptRecord, WorkingLog, working_log_wf,
};

verus! {

/// The distinct file paths of a checkpoint sequence, in order of first
/// appearance.
pub open spec fn distinct_paths_of(cps: Seq<crate::working_log::Checkpoint>) -> Seq<Seq<char>>
    decreases cps.len(),
{
    if cps.len() == 0 {
        Seq::empty()
    } else {
        let rest = distinct_paths_of(cps.drop_last());
        if rest.contains(cps.last().file_path@) {
            rest
        } else {
            rest.push(cps.last().file_path@)
        }
    }
}

/// The distinct file paths touched by the working log, in order of
/// first appearance.
pub fn touched_paths(log: &WorkingLog) -> (r: Vec<Vec<char>>)
    ensures
        r@.len() == distinct_paths_of(log.checkpoints@).len(),
        forall|i: int|
            0 <= i < r@.len() ==> (#[trigger] r@[i])@ == distinct_paths_of(log.checkpoints@)[i],
{
    let mut r: Vec<Vec<char>> = Vec::new();
    let mut i: usize = 0;
    while i < log.checkpoints.len()
        invariant
            0 <= i <= log.checkpoints@.len(),
            r@.len() == distinct_paths_of(log.checkpoints@.subrange(0, i as int)).len(),
            forall|j: int|
                0 <= j < r@.len() ==> (#[trigger] r@[j])@ == distinct_paths_of(
                    log.checkpoints@.subrange(0, i as int),
                )[j],
        decreases log.checkpoints@.len() - i,
    {
        let ghost pre = log.checkpoints@.subrange(0, i as int);
        let ghost post = log.checkpoints@.subrange(0, i + 1);
        proof {
            assert(post.drop_last() =~= pre);
            assert(post.last() == log.checkpoints@[i as int]);
        }
        let ghost p = log.checkpoints@[i as int].file_path@;
        let mut found = false;
        let mut j: usize = 0;
        while j < r.len()
            invariant
                0 <= j <= r@.len(),
                i < log.checkpoints@.len(),
                p == log.checkpoints@[i as int].file_path@,
                found == exists|w: int| 0 <= w < j && (#[trigger] r@[w])@ == p,
            decreases r@.len() - j,
        {
            if chars_eq(&r[j], &log.checkpoints[i].file_path) {
                found = true;
            }
            j += 1;
        }
        proof {
            if found {
                let w = choose|w: int| 0 <= w < r@.len() && (#[trigger] r@[w])@ == p;
                assert(distinct_paths_of(pre)[w] == p);
                assert(distinct_paths_of(pre).contains(p));
            } else {
                if distinct_paths_of(pre).contains(p) {
                    let w = choose|w: int|
                        0 <= w < distinct_paths_of(pre).len() && distinct_paths_of(pre)[w] == p;
                    assert(r@[w]@ == p);
                    assert(false);
                }
            }
        }
        if !found {
            r.push(copy_chars(&log.checkpoints[i].file_path));
        }
        i += 1;
    }
    proof {
        assert(log.checkpoints@.subrange(0, log.checkpoints@.len() as int) =~= log.checkpoints@);
    }
    r
}

/// The seed of a file no earlier commit attested: every character of
/// the session-start content counts as inherited human text.
pub open spec fn inherited_human_map(len: int) -> Map<int, AttrKey> {
    Map::new(
        |pos: int| 0 <= pos < len,
        |pos: int| AttrKey { author: human_id(), prompt: None, inherited: true },
    )
}

/// Virtualizes one file of the working log: replays its checkpoint
/// chain from the `Initial` snapshot into the file's final content and
/// character attribution.
pub fn virtualize_log_file(log: &WorkingLog, path: &Vec<char>) -> (r: Option<
    (Vec<char>, Vec<Attribution>),
>)
    requires
        working_log_wf(*log),
    ensures
        match r {
            None => cps_for(log.checkpoints@, path@).len() == 0,
            Some((content, attrs)) => {
                let chain = cps_for(log.checkpoints@, path@);
                &&& chain.len() > 0
                &&& content@ == chain.last().after_content@
                &&& attrs_wf(attrs@, content@.len() as int)
                &&& attrs_merged(attrs@)
                &&& attrs_key_map(attrs@, content@.len() as int) == replay_key_map(
                    inherited_human_map(chain[0].after_content@.len() as int),
                    chain.subrange(1, chain.len() as int),
                )
            },
        },
{
    let chain = log.iter_for_file(path);
    if chain.len() == 0 {
        return None;
    }
    let ghost orig_chain = cps_for(log.checkpoints@, path@);
    proof {
        assert(file_chain_ok_of(orig_chain));
        assert(cp_eq(chain@[0], orig_chain[0]));
    }
    let seed = seed_attribution(&chain[0].after_content);
    proof {
        assert(attrs_key_map(seed@, chain@[0].after_content@.len() as int) =~= inherited_human_map(
            chain@[0].after_content@.len() as int,
        ));
        // The copies are linked exactly like the stored chain.
        assert forall|i: int, j: int| #![trigger chain@[i], chain@[j]]
            1 <= i && j == i + 1 && j < chain@.len() implies chain@[i].after_content@
            == chain@[j].before_content@ by {
            assert(cp_eq(chain@[i], orig_chain[i]));
            assert(cp_eq(chain@[j], orig_chain[j]));
        }
        if chain@.len() > 1 {
            assert(cp_eq(chain@[1], orig_chain[1]));
            assert(orig_chain[0].after_content@ == orig_chain[1].before_content@);
        }
    }
    if chain.len() == 1 {
        let content = copy_chars(&chain[0].after_content);
        proof {
            assert(orig_chain.subrange(1, 1) =~= Seq::<crate::working_log::Checkpoint>::empty());
            assert(cp_eq(chain@[0], orig_chain[0]));
        }
        return Some((content, seed));
    }
    let attrs = replay_file(seed, &chain, 1);
    let content = copy_chars(&chain[chain.len() - 1].after_content);
    proof {
        let m0 = inherited_human_map(chain@[0].after_content@.len() as int);
        lemma_replay_congruent(
            m0,
            chain@.subrange(1, chain@.len() as int),
            orig_chain.subrange(1, orig_chain.len() as int),
        );
        assert forall|i: int|
            0 <= i < chain@.subrange(1, chain@.len() as int).len() implies cp_eq(
            #[trigger] chain@.subrange(1, chain@.len() as int)[i],
            orig_chain.subrange(1, orig_chain.len() as int)[i],
        ) by {
            assert(cp_eq(chain@[i + 1], orig_chain[i + 1]));
        }
        lemma_replay_congruent(
            m0,
            chain@.subrange(1, chain@.len() as int),
            orig_chain.subrange(1, orig_chain.len() as int),
        );
        assert(cp_eq(chain@[chain@.len() - 1], orig_chain[orig_chain.len() - 1]));
    }
    Some((content, attrs))
}

/// The per-file chain of the log's view satisfies the chain shape.
pub open spec fn file_chain_ok_of(chain: Seq<crate::working_log::Checkpoint>) -> bool {
    crate::working_log::file_chain_ok(chain)
}

/// The content and character attribution of one file touched by the
/// pending change set.
pub struct FileVirtualization {
    pub path: Vec<char>,
    pub content: Vec<char>,
    pub attributions: Vec<Attribution>,
}

/// A prompt hash is referenced by some checkpoint of the log.
pub open spec fn prompt_referenced(
    cps: Seq<crate::working_log::Checkpoint>,
    h: Seq<char>,
) -> bool {
    exists|i: int|
        0 <= i < cps.len() && opt_chars_view((#[trigger] cps[i]).prompt_hash) == Some(h)
}

/// `rec` repeats a stored prompt record that some checkpoint
/// references.
pub open spec fn prompt_kept(
    prompts: Seq<PromptRecord>,
    cps: Seq<crate::working_log::Checkpoint>,
    rec: PromptRecord,
) -> bool {
    exists|k2: int|
        0 <= k2 < prompts.len() && rec.hash@ == (#[trigger] prompts[k2]).hash@ && rec.tool@
            == prompts[k2].tool@ && rec.model@ == prompts[k2].model@ && rec.transcript_fragment@
            == prompts[k2].transcript_fragment@ && prompt_referenced(cps, prompts[k2].hash@)
}

/// The kept prompt list holds a record with hash `h`.
pub open spec fn prompt_hash_kept(kept: Seq<PromptRecord>, h: Seq<char>) -> bool {
    exists|w: int| 0 <= w < kept.len() && (#[trigger] kept[w]).hash@ == h
}

/// Finalizes the pending change set: virtualizes every touched file,
/// attests its freshly written lines, keeps the prompt records the
/// checkpoints reference, and erases the working log — the `Initial`
/// snapshots included. The caller stores the record under the new
/// commit id.
pub fn finalize_commit(log: &mut WorkingLog) -> (r: (AuthorshipLog, Vec<FileVirtualization>))
    requires
        working_log_wf(*old(log)),
        forall|p: Seq<char>|
            #[trigger] cps_for(old(log).checkpoints@, p).len() > 0 ==> line_count(
                cps_for(old(log).checkpoints@, p).last().after_content@,
            ) <= u32::MAX,
    ensures
        working_log_wf(*final(log)),
        final(log).checkpoints@.len() == 0,
        final(log).prompts@.len() == 0,
        ({
            let paths = distinct_paths_of(old(log).checkpoints@);
            &&& r.0.attestations@.len() == paths.len()
            &&& r.1@.len() == paths.len()
            &&& forall|j: int|
                0 <= j < paths.len() ==> {
                    let chain = cps_for(old(log).checkpoints@, paths[j]);
                    &&& (#[trigger] r.1@[j]).path@ == paths[j]
                    &&& chain.len() > 0
                    &&& r.1@[j].content@ == chain.last().after_content@
                    &&& attrs_wf(r.1@[j].attributions@, r.1@[j].content@.len() as int)
                    &&& attrs_merged(r.1@[j].attributions@)
                    &&& attrs_key_map(r.1@[j].attributions@, r.1@[j].content@.len() as int)
                        == replay_key_map(
                        inherited_human_map(chain[0].after_content@.len() as int),
                        chain.subrange(1, chain.len() as int),
                    )
                    &&& attestation_matches(
                        r.0.attestations@[j],
                        paths[j],
                        r.1@[j].content@,
                        r.1@[j].attributions@,
                    )
                }
            &&& forall|k: int|
                0 <= k < r.0.prompts@.len() ==> prompt_kept(
                    old(log).prompts@,
                    old(log).checkpoints@,
                    #[trigger] r.0.prompts@[k],
                )
            &&& forall|k2: int|
                0 <= k2 < old(log).prompts@.len() && prompt_referenced(
                    old(log).checkpoints@,
                    (#[trigger] old(log).prompts@[k2]).hash@,
                ) ==> prompt_hash_kept(r.0.prompts@, old(log).prompts@[k2].hash@)
        }),
{
    let paths = touched_paths(log);
    let ghost paths_model = distinct_paths_of(log.checkpoints@);
    let mut attestations: Vec<FileAttestation> = Vec::new();
    let mut virtualizations: Vec<FileVirtualization> = Vec::new();
    let mut j: usize = 0;
    while j < paths.len()
        invariant
            0 <= j <= paths@.len(),
            working_log_wf(*log),
            log.checkpoints@ == old(log).checkpoints@,
            log.prompts@ == old(log).prompts@,
            paths_model == distinct_paths_of(log.checkpoints@),
            paths@.len() == paths_model.len(),
            forall|w: int| 0 <= w < paths@.len() ==> (#[trigger] paths@[w])@ == paths_model[w],
            forall|p: Seq<char>|
                #[trigger] cps_for(log.checkpoints@, p).len() > 0 ==> line_count(
                    cps_for(log.checkpoints@, p).last().after_content@,
                ) <= u32::MAX,
            attestations@.len() == j,
            virtualizations@.len() == j,
            forall|w: int|
                0 <= w < j ==> {
                    let chain = cps_for(log.checkpoints@, paths_model[w]);
                    &&& (#[trigger] virtualizations@[w]).path@ == paths_model[w]
                    &&& chain.len() > 0
                    &&& virtualizations@[w].content@ == chain.last().after_content@
                    &&& attrs_wf(
                        virtualizations@[w].attributions@,
                        virtualizations@[w].content@.len() as int,
                    )
                    &&& attrs_merged(virtualizations@[w].attributions@)
                    &&& attrs_key_map(
                        virtualizations@[w].attributions@,
                        virtualizations@[w].content@.len() as int,
                    ) == replay_key_map(
                        inherited_human_map(chain[0].after_content@.len() as int),
                        chain.subrange(1, chain.len() as int),
                    )
                    &&& attestation_matches(
                        attestations@[w],
                        paths_model[w],
                        virtualizations@[w].content@,
                        virtualizations@[w].attributions@,
                    )
                },
        decreases paths@.len() - j,
    {
        proof {
            lemma_distinct_path_touched(log.checkpoints@, j as int);
        }
        let viz = virtualize_log_file(log, &paths[j]);
        let (content, attrs) = match viz {
            Some(v) => v,
            None => {
                // A touched path always has a chain.
                proof {
                    assert(false);
                }
                (Vec::new(), Vec::new())
            },
        };
        let att = finalize_file(&paths[j], &content, &attrs);
        attestations.push(att);
        virtualizations.push(
            FileVirtualization { path: copy_chars(&paths[j]), content, attributions: attrs },
        );
        j += 1;
    }
    // Keep the prompt records the checkpoints reference.
    let mut prompts: Vec<PromptRecord> = Vec::new();
    let mut k: usize = 0;
    while k < log.prompts.len()
        invariant
            0 <= k <= log.prompts@.len(),
            log.checkpoints@ == old(log).checkpoints@,
            log.prompts@ == old(log).prompts@,
            forall|w: int|
                0 <= w < prompts@.len() ==> prompt_kept(
                    old(log).prompts@,
                    old(log).checkpoints@,
                    #[trigger] prompts@[w],
                ),
            forall|k2: int|
                0 <= k2 < k && prompt_referenced(
                    old(log).checkpoints@,
                    (#[trigger] old(log).prompts@[k2]).hash@,
                ) ==> prompt_hash_kept(prompts@, old(log).prompts@[k2].hash@),
        decreases log.prompts@.len() - k,
    {
        let mut referenced = false;
        let mut m: usize = 0;
        while m < log.checkpoints.len()
            invariant
                0 <= m <= log.checkpoints@.len(),
                k < log.prompts@.len(),
                log.checkpoints@ == old(log).checkpoints@,
                log.prompts@ == old(log).prompts@,
                referenced == exists|i2: int|
                    0 <= i2 < m && opt_chars_view(
                        (#[trigger] old(log).checkpoints@[i2]).prompt_hash,
                    ) == Some(old(log).prompts@[k as int].hash@),
            decreases log.checkpoints@.len() - m,
        {
            if let Some(h) = &log.checkpoints[m].prompt_hash {
                if chars_eq(h, &log.prompts[k].hash) {
                    referenced = true;
                }
            }
            m += 1;
        }
        proof {
            assert(referenced == prompt_referenced(
                old(log).checkpoints@,
                old(log).prompts@[k as int].hash@,
            ));
        }
        let ghost before_prompts = prompts@;
        if referenced {
            prompts.push(
                PromptRecord {
                    hash: copy_chars(&log.prompts[k].hash),
                    tool: copy_chars(&log.prompts[k].tool),
                    model: copy_chars(&log.prompts[k].model),
                    transcript_fragment: copy_chars(&log.prompts[k].transcript_fragment),
                },
            );
            proof {
                assert(prompt_kept(
                    old(log).prompts@,
                    old(log).checkpoints@,
                    prompts@[prompts@.len() - 1],
                ));
            }
        }
        proof {
            assert forall|k2: int|
                0 <= k2 < k + 1 && prompt_referenced(
                    old(log).checkpoints@,
                    (#[trigger] old(log).prompts@[k2]).hash@,
                ) implies prompt_hash_kept(prompts@, old(log).prompts@[k2].hash@) by {
                if k2 == k {
                    assert(referenced);
                    assert(prompts@[prompts@.len() - 1].hash@ == old(log).prompts@[k2].hash@);
                } else {
                    assert(prompt_hash_kept(before_prompts, old(log).prompts@[k2].hash@));
                    let w = choose|w: int|
                        0 <= w < before_prompts.len() && (#[trigger] before_prompts[w]).hash@
                            == old(log).prompts@[k2].hash@;
                    assert(prompts@[w].hash@ == old(log).prompts@[k2].hash@);
                }
            }
        }
        k += 1;
    }
    log.reset();
    (AuthorshipLog { attestations, prompts }, virtualizations)
}

/// Each distinct path indeed has checkpoints.
proof fn lemma_distinct_path_touched(cps: Seq<crate::working_log::Checkpoint>, j: int)
    requires
        0 <= j < distinct_paths_of(cps).len(),
    ensures
        cps_for(cps, distinct_paths_of(cps)[j]).len() > 0,
    decreases cps.len(),
{
    if cps.len() > 0 {
        let rest = distinct_paths_of(cps.drop_last());
        assert(cps_for(cps, distinct_paths_of(cps)[j]).len() >= 0);
        if rest.contains(cps.last().file_path@) {
            lemma_distinct_path_touched(cps.drop_last(), j);
            if cps.last().file_path@ == distinct_paths_of(cps)[j] {
            } else {
                assert(cps_for(cps, distinct_paths_of(cps)[j]) == cps_for(
                    cps.drop_last(),
                    distinct_paths_of(cps)[j],
                ));
            }
        } else {
            if j < rest.len() {
                lemma_distinct_path_touched(cps.drop_last(), j);
                if cps.last().file_path@ == distinct_paths_of(cps)[j] {
                } else {
                    assert(cps_for(cps, distinct_paths_of(cps)[j]) == cps_for(
                        cps.drop_last(),
                        distinct_paths_of(cps)[j],
                    ));
                }
            } else {
                assert(distinct_paths_of(cps)[j] == cps.last().file_path@);
                assert(cps_for(cps, cps.last().file_path@).len() > 0);
            }
        }
    }
}

} // verus!
