use git_ai::authorship_log::LineRange;
use git_ai::commit::finalize_commit;
use git_ai::working_log::{AgentId, CheckpointKind, PromptRecord, WorkingLog};

fn chars(s: &str) -> Vec<char> {
    s.chars().collect()
}

fn text(v: &[char]) -> String {
    v.iter().collect()
}

#[test]
fn test_change_across_commits() {
    let mut log = WorkingLog::new();
    let lines1 = [
        "def print_name(name: str) -> None:",
        "    \"\"\"Print the given name.\"\"\"",
        "    if name == 'foobar':",
        "        print('name not allowed!')",
        "    print(f\"Hello, {name}!\")",
        "",
        "print_name(\"Michael\")",
    ];
    let content1: Vec<char> = chars(&(lines1.join("\n") + "\n"));
    println!("file: {}", lines1.join("\n"));

    let agent1 = AgentId {
        tool: chars("mock_ai"),
        id: chars("thread-one"),
        model: chars("unknown"),
    };
    log.create_checkpoint(
        &chars("foo.py"),
        CheckpointKind::AiAgent,
        &Some(agent1),
        &Some(chars("prompt-one")),
        &chars(""),
        &content1,
        false,
    );
    log.append_prompt_record(PromptRecord {
        hash: chars("prompt-one"),
        tool: chars("mock_ai"),
        model: chars("unknown"),
        transcript_fragment: chars("Initial all AI"),
    });
    let (commit1, _viz1) = finalize_commit(&mut log);
    let initial_ai_entry = &commit1.attestations.first().unwrap().entries[0];
    println!("initial_ai_entry: {:?}", initial_ai_entry.line_ranges);
    let initial_hash = initial_ai_entry.hash.as_ref().map(|h| text(h));

    // A new AI prompt replaces line 5, then a human inserts a line
    // before it.
    let mut lines2: Vec<String> = lines1.iter().map(|l| l.to_string()).collect();
    lines2[4] = "    print(f\"Hello, {name.upper()}!\")".to_string();
    let content2: Vec<char> = chars(&(lines2.join("\n") + "\n"));
    println!("file: {}", lines2.join("\n"));
    let agent2 = AgentId {
        tool: chars("mock_ai"),
        id: chars("thread-two"),
        model: chars("unknown"),
    };
    log.create_checkpoint(
        &chars("foo.py"),
        CheckpointKind::AiAgent,
        &Some(agent2),
        &Some(chars("prompt-two")),
        &content1,
        &content2,
        false,
    );
    lines2.insert(4, "    name = name.upper()".to_string());
    let content3: Vec<char> = chars(&(lines2.join("\n") + "\n"));
    println!("file: {}", lines2.join("\n"));
    log.create_checkpoint(
        &chars("foo.py"),
        CheckpointKind::Human,
        &None,
        &None,
        &content1,
        &content3,
        false,
    );
    log.append_prompt_record(PromptRecord {
        hash: chars("prompt-two"),
        tool: chars("mock_ai"),
        model: chars("unknown"),
        transcript_fragment: chars("add more AI"),
    });

    let (commit2, _viz2) = finalize_commit(&mut log);
    let file_attestation = commit2.attestations.first().unwrap();
    println!("file_attestation: {:?}", file_attestation.entries.len());
    // The human-inserted line and the newly prompted edit are each
    // attested under their own author.
    assert_eq!(file_attestation.entries.len(), 2);
    let second_ai_prompt_hash = text(&commit2.prompts[0].hash);
    println!("second_ai_prompt_hash: {}", second_ai_prompt_hash);
    assert_ne!(Some(second_ai_prompt_hash.clone()), initial_hash);
    let second_ai_entry = file_attestation
        .entries
        .iter()
        .find(|e| text(&e.author_id) == "mock_ai:thread-two")
        .unwrap();
    println!("second_ai_entry: {:?}", second_ai_entry.line_ranges);
    assert_eq!(second_ai_entry.line_ranges, vec![LineRange::Single(6)]);
    assert_ne!(
        second_ai_entry.hash.as_ref().map(|h| text(h)),
        initial_hash
    );
}
