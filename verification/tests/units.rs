use git_ai::checkpoint::{pre_commit, run, FileSnapshot};
use git_ai::cli::{
    classify_invocation, exit_outcome, extract_author_from_args, get_commit_default_author,
    has_command_flag, hook_for_command, is_dry_run, parse_checkpoint_args, parse_stats_args,
    repository_allowed, suppress_output, AuthorSources, ExitOutcome, HookInputArg, HookKind,
    InvocationFlow, StatsArgsError,
};
use git_ai::authorship_log::{AttestationEntry, FileAttestation};
use git_ai::codec::{decode_authorship_log, encode_authorship_log};
use git_ai::commit::finalize_commit;
use git_ai::error::GitAiError;
use git_ai::authorship_log::{compress_lines, LineRange};
use git_ai::lines::scan_line_spans;
use git_ai::rewrite::{
    commit_post_decision, commit_pre_outcome, ranges_contain, stash_create, stash_pop,
    CommitPostAction, PreHookOutcome,
};
use git_ai::stats::{
    calculate_file_stats, calculate_working_stats, glob_match, should_ignore_file, FileStats,
    WorkingFile, WorkingStats,
};
use git_ai::working_log::{AgentId, CheckpointKind, WorkingLog};

fn chars(s: &str) -> Vec<char> {
    s.chars().collect()
}

fn text(v: &[char]) -> String {
    v.iter().collect()
}

#[test]
fn glob_matching() {
    assert!(glob_match(&chars("target"), &chars("target")));
    assert!(!glob_match(&chars("target2"), &chars("target")));
    assert!(glob_match(&chars("notes.txt"), &chars("*.txt")));
    assert!(!glob_match(&chars("notes.rs"), &chars("*.txt")));
    assert!(glob_match(&chars("build/main.o"), &chars("build/*")));
    assert!(glob_match(&chars("a-mid-b"), &chars("*mid*")));
    assert!(!glob_match(&chars("a-mxd-b"), &chars("*mid*")));
    assert!(glob_match(&chars("src/lib.rs"), &chars("src/*.rs")));
    assert!(!glob_match(&chars("src/lib.rs.bak"), &chars("src/*.rs")));
    assert!(glob_match(&chars("anything"), &chars("*")));
    assert!(!glob_match(&chars("abc"), &chars("a*b*c")));
}

#[test]
fn ignore_patterns() {
    let patterns = vec![chars("*.lock"), chars("vendor")];
    assert!(should_ignore_file(&chars("Cargo.lock"), &patterns));
    assert!(should_ignore_file(&chars("third_party/vendor/x.rs"), &patterns));
    assert!(!should_ignore_file(&chars("src/main.rs"), &patterns));
    assert!(!should_ignore_file(&chars("src/main.rs"), &Vec::new()));
}

#[test]
fn author_extraction() {
    let args = vec![chars("-m"), chars("msg"), chars("--author=A <a@x>")];
    assert_eq!(extract_author_from_args(&args).map(|v| text(&v)), Some("A <a@x>".to_string()));
    let args2 = vec![chars("--author"), chars("B <b@x>")];
    assert_eq!(extract_author_from_args(&args2).map(|v| text(&v)), Some("B <b@x>".to_string()));
    let args3 = vec![chars("-m"), chars("msg")];
    assert!(extract_author_from_args(&args3).is_none());
    let args4 = vec![chars("--author")];
    assert!(extract_author_from_args(&args4).is_none());
}

#[test]
fn author_precedence() {
    let mut s = AuthorSources {
        author_arg: None,
        env_name: Some(chars("Env Name")),
        config_name: Some(chars("Cfg Name")),
        env_email: None,
        config_email: Some(chars("cfg@x")),
        email_env: None,
    };
    assert_eq!(text(&get_commit_default_author(&s)), "Env Name <cfg@x>");
    s.env_name = None;
    assert_eq!(text(&get_commit_default_author(&s)), "Cfg Name <cfg@x>");
    s.config_name = None;
    s.config_email = None;
    s.email_env = Some(chars("me@example.com"));
    assert_eq!(text(&get_commit_default_author(&s)), "me <me@example.com>");
    s.email_env = None;
    assert_eq!(text(&get_commit_default_author(&s)), "unknown");
    s.author_arg = Some(chars("  Override <o@x> "));
    assert_eq!(text(&get_commit_default_author(&s)), "Override <o@x>");
    // A blank override falls through to the normal precedence.
    s.author_arg = Some(chars("   "));
    assert_eq!(text(&get_commit_default_author(&s)), "unknown");
    s.author_arg = Some(chars(""));
    s.email_env = Some(chars("me @example.com"));
    // The name drawn from the address is trimmed too.
    assert_eq!(text(&get_commit_default_author(&s)), "me <me @example.com>");
}

#[test]
fn wrapper_exit_mirrors_child() {
    assert_eq!(exit_outcome(Some(15), Some(0)), ExitOutcome::Raise(15));
    assert_eq!(exit_outcome(None, Some(3)), ExitOutcome::Code(3));
    assert_eq!(exit_outcome(None, None), ExitOutcome::Code(1));
}

#[test]
fn flags_and_flows() {
    let args = vec![chars("--dry-run"), chars("-m"), chars("x")];
    assert!(is_dry_run(&args));
    assert!(!is_dry_run(&vec![chars("-m"), chars("x")]));
    assert!(suppress_output(&vec![chars("--quiet")]));
    assert!(suppress_output(&vec![chars("-q")]));
    assert!(!suppress_output(&vec![chars("-v")]));
    assert!(has_command_flag(&args, &chars("--dry-run")));

    assert_eq!(
        classify_invocation(true, false, false, true, true),
        InvocationFlow::ProxyCompletion
    );
    assert_eq!(classify_invocation(false, true, false, false, true), InvocationFlow::CloneHooked);
    assert_eq!(classify_invocation(false, false, false, true, true), InvocationFlow::Hooked);
    assert_eq!(classify_invocation(false, false, true, true, true), InvocationFlow::Plain);
    assert_eq!(classify_invocation(false, false, false, true, false), InvocationFlow::Plain);

    assert_eq!(hook_for_command(&chars("commit"), false), HookKind::Commit);
    assert_eq!(hook_for_command(&chars("cherry-pick"), false), HookKind::CherryPick);
    assert_eq!(hook_for_command(&chars("pull"), false), HookKind::FetchPull);
    assert_eq!(hook_for_command(&chars("stash"), true), HookKind::Stash);
    assert_eq!(hook_for_command(&chars("stash"), false), HookKind::Other);
    assert_eq!(hook_for_command(&chars("status"), true), HookKind::Other);
}

#[test]
fn repository_allow_and_exclude() {
    let url = chars("https://example.org/team/widget");
    let empty: Vec<Vec<char>> = Vec::new();
    assert!(repository_allowed(&url, &empty, &empty));
    let allow = vec![chars("https://example.org/team/*")];
    assert!(repository_allowed(&url, &allow, &empty));
    let other_allow = vec![chars("https://example.org/infra/*")];
    assert!(!repository_allowed(&url, &other_allow, &empty));
    // An exclusion wins over a matching allow pattern.
    let exclude = vec![chars("*widget")];
    assert!(!repository_allowed(&url, &allow, &exclude));
}

#[test]
fn commit_hook_decisions() {
    assert!(matches!(
        commit_post_decision(true, true, Some(true), false, None, Some(chars("n"))),
        CommitPostAction::Skip
    ));
    assert!(matches!(
        commit_post_decision(false, false, Some(true), false, None, Some(chars("n"))),
        CommitPostAction::Skip
    ));
    assert!(matches!(
        commit_post_decision(false, true, Some(false), false, None, Some(chars("n"))),
        CommitPostAction::Skip
    ));
    assert!(matches!(
        commit_post_decision(false, true, Some(true), false, None, None),
        CommitPostAction::Skip
    ));
    match commit_post_decision(false, true, None, false, Some(chars("o")), Some(chars("n"))) {
        CommitPostAction::RecordCommit { parent, new } => {
            assert_eq!(parent.map(|p| text(&p)), Some("o".to_string()));
            assert_eq!(text(&new), "n");
        }
        _ => panic!("expected a commit record"),
    }

    assert_eq!(commit_pre_outcome(true, &None), PreHookOutcome::SkipDryRun);
    assert_eq!(commit_pre_outcome(false, &Some(Ok(()))), PreHookOutcome::Proceed);
    assert_eq!(
        commit_pre_outcome(false, &Some(Err(GitAiError::BareRepository))),
        PreHookOutcome::SkipBare
    );
    // A failed checkpoint degrades this commit's bookkeeping; the
    // wrapped command still runs with its own exit code.
    assert_eq!(
        commit_pre_outcome(false, &Some(Err(GitAiError::Locked))),
        PreHookOutcome::Degraded
    );
    assert_eq!(commit_pre_outcome(false, &None), PreHookOutcome::Degraded);
}

#[test]
fn error_messages() {
    assert_eq!(
        GitAiError::BareRepository.message(),
        "Cannot run checkpoint on bare repositories"
    );
    assert_eq!(GitAiError::Generic(chars("boom")).message(), "boom");
}

#[test]
fn pre_commit_skips_clean_repositories() {
    // No AI checkpoint exists and nothing changed: the human snapshot
    // is skipped, so a repository without AI activity stays clean.
    let mut log = WorkingLog::new();
    let candidates = vec![FileSnapshot {
        path: chars("a.rs"),
        base_content: chars("fn a() {}\n"),
        current_content: chars("fn a() {}\n"),
    }];
    let r = pre_commit(&mut log, &candidates, false);
    assert!(r.is_ok());
    assert_eq!(log.checkpoints.len(), 0);

    // A changed file is snapshotted, with its session-start snapshot.
    let candidates2 = vec![FileSnapshot {
        path: chars("a.rs"),
        base_content: chars("fn a() {}\n"),
        current_content: chars("fn a() { body() }\n"),
    }];
    let r2 = pre_commit(&mut log, &candidates2, false);
    assert!(r2.is_ok());
    assert_eq!(log.checkpoints.len(), 2);
    assert_eq!(log.checkpoints[0].kind, CheckpointKind::Initial);
    assert_eq!(log.checkpoints[1].kind, CheckpointKind::Human);

    // A bare repository is reported as such.
    let r3 = pre_commit(&mut log, &candidates2, true);
    assert!(matches!(r3, Err(GitAiError::BareRepository)));
}

#[test]
fn checkpoint_run_counts_lines() {
    let mut log = WorkingLog::new();
    let agent = Some(AgentId {
        tool: chars("mock_ai"),
        id: chars("s"),
        model: chars("m"),
    });
    let candidates = vec![FileSnapshot {
        path: chars("a.rs"),
        base_content: chars("one\ntwo\n"),
        current_content: chars("one\ntwo\nthree\nfour\n"),
    }];
    let (added, removed, modified) = run(
        &mut log,
        CheckpointKind::AiAgent,
        &agent,
        &Some(chars("H")),
        &candidates,
        false,
    );
    assert_eq!((added, removed, modified), (2, 0, 0));
    assert_eq!(log.checkpoints.len(), 2);
}

#[test]
fn stash_round_trip() {
    let mut log = WorkingLog::new();
    log.create_checkpoint(
        &chars("a.rs"),
        CheckpointKind::Human,
        &None,
        &None,
        &chars("x\n"),
        &chars("x\ny\n"),
        false,
    );
    let n = log.checkpoints.len();
    let rec = stash_create(&mut log);
    assert_eq!(log.checkpoints.len(), 0);
    stash_pop(&mut log, rec);
    assert_eq!(log.checkpoints.len(), n);
}

#[test]
fn range_compression() {
    let rs = compress_lines(&vec![1, 2, 3, 5, 7, 8]);
    assert_eq!(
        rs,
        vec![LineRange::Inclusive(1, 3), LineRange::Single(5), LineRange::Inclusive(7, 8)]
    );
    assert!(ranges_contain(&rs, 2));
    assert!(ranges_contain(&rs, 8));
    assert!(!ranges_contain(&rs, 4));
    assert!(!ranges_contain(&rs, 6));
    assert!(compress_lines(&Vec::new()).is_empty());
}

#[test]
fn line_scanning_edges() {
    let spans = scan_line_spans(&chars("a\r\nb\rc\n\nd"));
    // Lines: "a", "b\rc" (a lone carriage return is content), "", "d".
    let as_pairs: Vec<(usize, usize)> = spans.iter().map(|s| (s.start, s.end)).collect();
    assert_eq!(as_pairs, vec![(0, 1), (3, 6), (7, 7), (8, 9)]);
    assert!(scan_line_spans(&Vec::new()).is_empty());
}

#[test]
fn file_stats_classification() {
    // One AI line, one human line, one mixed line.
    let mut log = WorkingLog::new();
    log.create_checkpoint(
        &chars("f"),
        CheckpointKind::AiAgent,
        &Some(AgentId { tool: chars("t"), id: chars("s"), model: chars("m") }),
        &Some(chars("H")),
        &chars(""),
        &chars("aaaa\nbbbb\n"),
        false,
    );
    log.create_checkpoint(
        &chars("f"),
        CheckpointKind::Human,
        &None,
        &None,
        &chars(""),
        &chars("aaaa\nbbXXbb\nhuman\n"),
        false,
    );
    let (_alog, viz) = finalize_commit(&mut log);
    let fs = calculate_file_stats(&viz[0].content, &viz[0].attributions);
    assert_eq!(fs.pure_ai_lines, 1);
    assert_eq!(fs.mixed_lines, 1);
    assert_eq!(fs.pure_human_lines, 1);
    assert_eq!(fs.total_lines, 3);
}

#[test]
fn working_stats_aggregation() {
    let mut log = WorkingLog::new();
    log.create_checkpoint(
        &chars("kept.rs"),
        CheckpointKind::AiAgent,
        &Some(AgentId { tool: chars("t"), id: chars("s"), model: chars("m") }),
        &Some(chars("H")),
        &chars(""),
        &chars("one\ntwo\n"),
        false,
    );
    let (_alog, mut viz) = finalize_commit(&mut log);
    let f = viz.remove(0);
    let files = vec![
        WorkingFile { path: f.path, content: f.content, attributions: f.attributions },
        WorkingFile {
            path: chars("skipped.lock"),
            content: chars("x\n"),
            attributions: Vec::new(),
        },
        WorkingFile { path: chars("empty.rs"), content: Vec::new(), attributions: Vec::new() },
    ];
    let stats = calculate_working_stats(&files, &vec![chars("*.lock")]);
    assert_eq!(stats.files_changed, 1);
    assert_eq!(stats.pure_ai_lines, 2);
    assert_eq!(stats.total_lines, 2);
    assert_eq!(stats.by_file.len(), 1);
    assert_eq!(text(&stats.by_file[0].0), "kept.rs");

    let d = WorkingStats::default();
    assert_eq!(d.files_changed, 0);
    assert_eq!(d.total_lines, 0);
    assert!(d.by_file.is_empty());

    let single = FileStats {
        pure_human_lines: 1,
        mixed_lines: 0,
        pure_ai_lines: 2,
        total_lines: 3,
    };
    assert_eq!(single.total_lines, 3);
}

#[test]
fn stats_argument_grammar() {
    let ok = parse_stats_args(&vec![
        chars("--json"),
        chars("--ignore"),
        chars("a.rs"),
        chars("b.rs"),
        chars("abcdef0..012345a"),
    ])
    .unwrap();
    assert!(ok.json);
    assert_eq!(ok.ignore_patterns.len(), 2);
    assert_eq!(text(&ok.ignore_patterns[1]), "b.rs");
    let (a, b) = ok.range.unwrap();
    assert_eq!(text(&a), "abcdef0");
    assert_eq!(text(&b), "012345a");
    assert!(ok.commit.is_none());

    // Pattern collection stops at a commit-length argument only while
    // none was collected yet.
    assert!(matches!(
        parse_stats_args(&vec![chars("--ignore"), chars("abcdef012")]),
        Err(StatsArgsError::MissingIgnorePattern)
    ));
    let ok2 = parse_stats_args(&vec![chars("abcdef012"), chars("--ignore"), chars("*.rs")])
        .unwrap();
    assert_eq!(ok2.ignore_patterns.len(), 1);
    assert_eq!(ok2.commit.as_ref().map(|c| text(c)), Some("abcdef012".to_string()));

    assert!(matches!(
        parse_stats_args(&vec![chars("--ignore")]),
        Err(StatsArgsError::MissingIgnorePattern)
    ));
    assert!(matches!(
        parse_stats_args(&vec![chars("a..b..c")]),
        Err(StatsArgsError::InvalidRange)
    ));
    assert!(matches!(
        parse_stats_args(&vec![chars("one"), chars("two")]),
        Err(StatsArgsError::UnknownArgument(_))
    ));
}

#[test]
fn checkpoint_argument_grammar() {
    let ok = parse_checkpoint_args(&vec![
        chars("mock_ai"),
        chars("--show-working-log"),
        chars("--hook-input"),
        chars("{\"x\":1}"),
    ])
    .unwrap();
    assert!(ok.show_working_log);
    assert!(!ok.reset);
    match &ok.hook_input {
        HookInputArg::Value(v) => assert_eq!(text(v), "{\"x\":1}"),
        _ => panic!("expected an inline payload"),
    }
    let stdin = parse_checkpoint_args(&vec![chars("--hook-input"), chars("stdin")]).unwrap();
    assert!(matches!(stdin.hook_input, HookInputArg::Stdin));
    assert!(parse_checkpoint_args(&vec![chars("--hook-input")]).is_none());
    assert!(parse_checkpoint_args(&vec![chars("--hook-input"), chars("   ")]).is_none());
    let reset = parse_checkpoint_args(&vec![chars("--reset")]).unwrap();
    assert!(reset.reset);
}

#[test]
fn separated_edits_keep_the_middle() {
    // Two edits in one checkpoint, apart from each other: the
    // untouched text between them keeps its author.
    let mut log = WorkingLog::new();
    log.create_checkpoint(
        &chars("f"),
        CheckpointKind::AiAgent,
        &Some(AgentId { tool: chars("t"), id: chars("s"), model: chars("m") }),
        &Some(chars("H")),
        &chars(""),
        &chars("alpha\nmiddle\nomega\n"),
        false,
    );
    log.create_checkpoint(
        &chars("f"),
        CheckpointKind::Human,
        &None,
        &None,
        &chars(""),
        &chars("ALPHA\nmiddle\nOMEGA\n"),
        false,
    );
    let (alog, viz) = finalize_commit(&mut log);
    let att = &alog.attestations[0];
    assert_eq!(att.entries.len(), 2);
    let ai = att.entries.iter().find(|e| text(&e.author_id) == "t:s").unwrap();
    let human = att.entries.iter().find(|e| text(&e.author_id) == "human").unwrap();
    assert_eq!(ai.line_ranges, vec![LineRange::Single(2)]);
    assert_eq!(
        human.line_ranges,
        vec![LineRange::Single(1), LineRange::Single(3)]
    );
    // The middle line's characters still belong to the AI session.
    let fs = calculate_file_stats(&viz[0].content, &viz[0].attributions);
    assert_eq!(fs.pure_human_lines, 2);
    assert_eq!(fs.pure_ai_lines, 1);
    assert_eq!(fs.mixed_lines, 0);
}

#[test]
fn squash_overrides_in_order() {
    // The older commit attests lines 1-4 for one author, the newer
    // commit attests lines 3-5 for another: the newer one wins where
    // they overlap.
    let older = FileAttestation {
        file_path: chars("f"),
        entries: vec![AttestationEntry {
            author_id: chars("mock_ai:s1"),
            hash: Some(chars("H1")),
            line_ranges: vec![LineRange::Inclusive(1, 4)],
        }],
    };
    let newer = FileAttestation {
        file_path: chars("f"),
        entries: vec![AttestationEntry {
            author_id: chars("human"),
            hash: None,
            line_ranges: vec![LineRange::Inclusive(3, 5)],
        }],
    };
    let merged = git_ai::rewrite::squash_attestations(&vec![older, newer], 10);
    assert_eq!(merged.len(), 2);
    assert_eq!(text(&merged[0].author_id), "mock_ai:s1");
    assert_eq!(merged[0].line_ranges, vec![LineRange::Inclusive(1, 2)]);
    assert_eq!(text(&merged[1].author_id), "human");
    assert_eq!(merged[1].line_ranges, vec![LineRange::Inclusive(3, 5)]);
}

#[test]
fn attestation_codec_round_trip() {
    let mut log = WorkingLog::new();
    log.create_checkpoint(
        &chars("path with spaces:and colons.rs"),
        CheckpointKind::AiAgent,
        &Some(AgentId { tool: chars("t"), id: chars("1:2:3"), model: chars("m") }),
        &Some(chars("9:9")),
        &chars(""),
        &chars("alpha\nbeta\n"),
        false,
    );
    log.append_prompt_record(git_ai::working_log::PromptRecord {
        hash: chars("9:9"),
        tool: chars("t"),
        model: chars("m"),
        transcript_fragment: chars("12:34 digits inside"),
    });
    let (alog, _viz) = finalize_commit(&mut log);
    let encoded = encode_authorship_log(&alog);
    let decoded = decode_authorship_log(&encoded).expect("canonical form parses");
    assert_eq!(decoded.attestations.len(), alog.attestations.len());
    let a = &decoded.attestations[0];
    let b = &alog.attestations[0];
    assert_eq!(text(&a.file_path), text(&b.file_path));
    assert_eq!(a.entries.len(), b.entries.len());
    assert_eq!(text(&a.entries[0].author_id), text(&b.entries[0].author_id));
    assert_eq!(
        a.entries[0].hash.as_ref().map(|h| text(h)),
        b.entries[0].hash.as_ref().map(|h| text(h))
    );
    assert_eq!(a.entries[0].line_ranges, b.entries[0].line_ranges);
    assert_eq!(decoded.prompts.len(), 1);
    assert_eq!(text(&decoded.prompts[0].transcript_fragment), "12:34 digits inside");

    // A truncated form is refused.
    let mut cut = encoded.clone();
    cut.pop();
    assert!(decode_authorship_log(&cut).is_none());
}
