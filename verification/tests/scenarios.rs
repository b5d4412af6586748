use git_ai::authorship_log::LineRange;
use git_ai::commit::finalize_commit;
use git_ai::rewrite::{
    cherry_pick_file, commit_post_decision, CommitPostAction, EventStatus, RewriteLog,
    RewriteLogEvent,
};
use git_ai::stats::calculate_file_stats;
use git_ai::virtual_attribution::{mark_inherited, replay_file};
use git_ai::working_log::{AgentId, CheckpointKind, WorkingLog};

fn chars(s: &str) -> Vec<char> {
    s.chars().collect()
}

fn text(v: &[char]) -> String {
    v.iter().collect()
}

fn agent(session: &str) -> AgentId {
    AgentId { tool: chars("mock_ai"), id: chars(session), model: chars("unknown") }
}

fn seven_lines() -> String {
    [
        "def print_name(name: str) -> None:",
        "    \"\"\"Print the given name.\"\"\"",
        "    if name == 'foobar':",
        "        print('name not allowed!')",
        "    print(f\"Hello, {name}!\")",
        "",
        "print_name(\"Michael\")",
    ]
    .join("\n")
        + "\n"
}

#[test]
fn all_ai_initial_commit() {
    let mut log = WorkingLog::new();
    let content = chars(&seven_lines());
    log.create_checkpoint(
        &chars("foo.py"),
        CheckpointKind::AiAgent,
        &Some(agent("s1")),
        &Some(chars("H1")),
        &chars(""),
        &content,
        false,
    );
    log.append_prompt_record(git_ai::working_log::PromptRecord {
        hash: chars("H1"),
        tool: chars("mock_ai"),
        model: chars("unknown"),
        transcript_fragment: chars("make the greeting script"),
    });
    let (alog, _viz) = finalize_commit(&mut log);
    assert_eq!(alog.prompts.len(), 1);
    assert_eq!(text(&alog.prompts[0].hash), "H1");
    assert_eq!(alog.attestations.len(), 1);
    let att = &alog.attestations[0];
    assert_eq!(text(&att.file_path), "foo.py");
    assert_eq!(att.entries.len(), 1);
    assert_eq!(text(&att.entries[0].author_id), "mock_ai:s1");
    assert_eq!(att.entries[0].hash.as_ref().map(|h| text(h)), Some("H1".to_string()));
    assert_eq!(att.entries[0].line_ranges, vec![LineRange::Inclusive(1, 7)]);
}

#[test]
fn human_override_of_one_line() {
    // The AI creates the file, then a human checkpoint replaces line 5,
    // and one commit covers both.
    let mut log = WorkingLog::new();
    let content1 = chars(&seven_lines());
    log.create_checkpoint(
        &chars("foo.py"),
        CheckpointKind::AiAgent,
        &Some(agent("s1")),
        &Some(chars("H1")),
        &chars(""),
        &content1,
        false,
    );
    let content2 = chars(&seven_lines().replace("    print(f\"Hello, {name}!\")", "#human override"));
    log.create_checkpoint(
        &chars("foo.py"),
        CheckpointKind::Human,
        &None,
        &None,
        &chars(""),
        &content2,
        false,
    );
    let (alog, _viz) = finalize_commit(&mut log);
    let att = &alog.attestations[0];
    assert_eq!(att.entries.len(), 2);
    let ai = att.entries.iter().find(|e| text(&e.author_id) == "mock_ai:s1").unwrap();
    let human = att.entries.iter().find(|e| text(&e.author_id) == "human").unwrap();
    assert_eq!(ai.line_ranges, vec![LineRange::Inclusive(1, 4), LineRange::Inclusive(6, 7)]);
    assert_eq!(human.line_ranges, vec![LineRange::Single(5)]);
}

#[test]
fn insert_then_edit_across_sessions() {
    // Commit the all-AI file; then, in a later session, an AI edit with
    // a new prompt touches line 5 and a human inserts a line before it.
    let mut log = WorkingLog::new();
    let content1 = chars(&seven_lines());
    log.create_checkpoint(
        &chars("foo.py"),
        CheckpointKind::AiAgent,
        &Some(agent("s1")),
        &Some(chars("H1")),
        &chars(""),
        &content1,
        false,
    );
    let (_alog1, _viz1) = finalize_commit(&mut log);

    let edited = seven_lines().replace(
        "    print(f\"Hello, {name}!\")",
        "    print(f\"Hello, {name.upper()}!\")",
    );
    let content2 = chars(&edited);
    log.create_checkpoint(
        &chars("foo.py"),
        CheckpointKind::AiAgent,
        &Some(agent("s2")),
        &Some(chars("H2")),
        &content1,
        &content2,
        false,
    );
    let inserted = edited.replace(
        "    print(f\"Hello, {name.upper()}!\")",
        "    name = name.upper()\n    print(f\"Hello, {name.upper()}!\")",
    );
    let content3 = chars(&inserted);
    log.create_checkpoint(
        &chars("foo.py"),
        CheckpointKind::Human,
        &None,
        &None,
        &content1,
        &content3,
        false,
    );
    let (alog2, _viz2) = finalize_commit(&mut log);
    let att = &alog2.attestations[0];
    // The edit on the resulting line 6 is credited to the new prompt,
    // the inserted line 5 to the human.
    let ai = att.entries.iter().find(|e| text(&e.author_id) == "mock_ai:s2").unwrap();
    assert_eq!(ai.hash.as_ref().map(|h| text(h)), Some("H2".to_string()));
    assert_eq!(ai.line_ranges, vec![LineRange::Single(6)]);
    let human = att.entries.iter().find(|e| text(&e.author_id) == "human").unwrap();
    assert_eq!(human.line_ranges, vec![LineRange::Single(5)]);
    assert!(att.entries.iter().all(|e| e.hash.as_ref().map(|h| text(h)) != Some("H1".to_string())));
}

#[test]
fn amend_round_trip() {
    // Committing, then amending with no tree change, attests exactly
    // the same lines; the rewrite log records the amend.
    let mut log = WorkingLog::new();
    let content1 = chars(&seven_lines());
    log.create_checkpoint(
        &chars("foo.py"),
        CheckpointKind::AiAgent,
        &Some(agent("s1")),
        &Some(chars("H1")),
        &chars(""),
        &content1,
        false,
    );
    let (alog, viz) = finalize_commit(&mut log);
    let old = &alog.attestations[0];

    // The amend's working log holds no further checkpoints, so the
    // starting attribution vector is attested again unchanged.
    let amended = git_ai::authorship_log::finalize_file(
        &viz[0].path,
        &viz[0].content,
        &viz[0].attributions,
    );
    assert_eq!(amended.entries.len(), old.entries.len());
    for (a, b) in amended.entries.iter().zip(old.entries.iter()) {
        assert_eq!(text(&a.author_id), text(&b.author_id));
        assert_eq!(a.hash.as_ref().map(|h| text(h)), b.hash.as_ref().map(|h| text(h)));
        assert_eq!(a.line_ranges, b.line_ranges);
    }

    let mut rl = RewriteLog::new();
    let action = commit_post_decision(
        false,
        true,
        Some(true),
        true,
        Some(chars("oldsha")),
        Some(chars("newsha")),
    );
    match action {
        CommitPostAction::RecordAmend { old, new } => {
            rl.append(RewriteLogEvent::CommitAmend { old, new }, EventStatus::Applied);
        }
        _ => panic!("expected an amend record"),
    }
    assert_eq!(rl.events.len(), 1);
    match &rl.events[0].0 {
        RewriteLogEvent::CommitAmend { old, new } => {
            assert_eq!(text(old), "oldsha");
            assert_eq!(text(new), "newsha");
        }
        _ => panic!("expected an amend event"),
    }
}

#[test]
fn cherry_pick_preserves_attribution() {
    // Build the two-entry state, then move it onto an identical tree
    // and onto a tree with one conflict-resolved line.
    let mut log = WorkingLog::new();
    let content1 = chars(&seven_lines());
    log.create_checkpoint(
        &chars("foo.py"),
        CheckpointKind::AiAgent,
        &Some(agent("s1")),
        &Some(chars("H1")),
        &chars(""),
        &content1,
        false,
    );
    let content2 = chars(&seven_lines().replace("    print(f\"Hello, {name}!\")", "#human override"));
    log.create_checkpoint(
        &chars("foo.py"),
        CheckpointKind::Human,
        &None,
        &None,
        &chars(""),
        &content2,
        false,
    );
    let (alog, viz) = finalize_commit(&mut log);
    let old_att = &alog.attestations[0];

    // Identical tree: every attested line keeps its author.
    let same = cherry_pick_file(old_att, &viz[0].content, &viz[0].content);
    let ai = &same.entries[0];
    assert_eq!(ai.line_ranges, old_att.entries[0].line_ranges);
    let human_new = &same.entries[same.entries.len() - 1];
    assert_eq!(text(&human_new.author_id), "human");
    assert!(human_new.line_ranges.is_empty());

    // A conflict on line 2: that line is credited to the local user.
    let conflicted = chars(
        &text(&viz[0].content).replace("    \"\"\"Print the given name.\"\"\"", "# resolved"),
    );
    let moved = cherry_pick_file(old_att, &viz[0].content, &conflicted);
    let resolver = &moved.entries[moved.entries.len() - 1];
    assert_eq!(resolver.line_ranges, vec![LineRange::Single(2)]);
}

#[test]
fn stats_partitioning() {
    // The committed state has six AI lines and one human line; an
    // uncommitted human edit augments line 3, making it mixed.
    let mut log = WorkingLog::new();
    let content1 = chars(&seven_lines());
    log.create_checkpoint(
        &chars("foo.py"),
        CheckpointKind::AiAgent,
        &Some(agent("s1")),
        &Some(chars("H1")),
        &chars(""),
        &content1,
        false,
    );
    let content2 = chars(&seven_lines().replace("    print(f\"Hello, {name}!\")", "#human override"));
    log.create_checkpoint(
        &chars("foo.py"),
        CheckpointKind::Human,
        &None,
        &None,
        &chars(""),
        &content2,
        false,
    );
    let (_alog, viz) = finalize_commit(&mut log);

    // The uncommitted human edit, replayed over the inherited state.
    let seed = mark_inherited(&viz[0].attributions, viz[0].content.len());
    let content3 = chars(&text(&viz[0].content).replace(
        "    if name == 'foobar':",
        "    if name == 'foobar':  # guard",
    ));
    log.create_checkpoint(
        &chars("foo.py"),
        CheckpointKind::Human,
        &None,
        &None,
        &viz[0].content,
        &content3,
        false,
    );
    let chain = log.iter_for_file(&chars("foo.py"));
    let attrs = replay_file(seed, &chain, 1);
    let fs = calculate_file_stats(&content3, &attrs);
    assert_eq!(fs.mixed_lines, 1);
    assert_eq!(fs.pure_human_lines, 1);
    assert_eq!(fs.pure_ai_lines, 5);
    assert_eq!(fs.total_lines, 7);
}
