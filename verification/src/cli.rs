//! Decision logic of the wrapper: argument scanning, author
//! resolution, hook dispatch and exit-code preservation. The
//! surrounding process work — spawning the wrapped executable,
//! reading the environment, forwarding signals — stays outside; these
//! functions take plain values and return decisions.

use vstd::prelude::*;

use crate::text::{chars_eq, chars_starts_with, contains_sub, copy_chars, starts_with, sub_at, sub_chars};

verus! {

/// The first `--author=<spec>` or `--author <spec>` among `args`, if
/// any: the argument index it was found at, or none.
pub open spec fn author_arg_at(args: Seq<Vec<char>>, i: int) -> bool {
    starts_with(args[i]@, "--author="@) || (args[i]@ == "--author"@ && i + 1 < args.len())
}

/// Extracts the author override from commit arguments: the value of
/// the first `--author=<spec>` or `--author <spec>`.
pub fn extract_author_from_args(args: &Vec<Vec<char>>) -> (r: Option<Vec<char>>)
    ensures
        match r {
            Some(v) => exists|i: int|
                {
                    &&& 0 <= i < args@.len()
                    &&& #[trigger] author_arg_at(args@, i)
                    &&& forall|j: int| 0 <= j < i ==> !(#[trigger] author_arg_at(args@, j))
                    &&& if starts_with(args@[i]@, "--author="@) {
                        v@ == args@[i]@.subrange(9, args@[i]@.len() as int)
                    } else {
                        v@ == args@[i + 1]@
                    }
                },
            None => forall|i: int| 0 <= i < args@.len() ==> !(#[trigger] author_arg_at(args@, i)),
        },
{
    let marker: Vec<char> = vec!['-', '-', 'a', 'u', 't', 'h', 'o', 'r', '='];
    let flag: Vec<char> = vec!['-', '-', 'a', 'u', 't', 'h', 'o', 'r'];
    proof {
        reveal_strlit("--author=");
        reveal_strlit("--author");
        assert(marker@ =~= "--author="@);
        assert(flag@ =~= "--author"@);
    }
    let mut i: usize = 0;
    while i < args.len()
        invariant
            0 <= i <= args@.len(),
            marker@ == "--author="@,
            marker@.len() == 9,
            flag@ == "--author"@,
            forall|j: int| 0 <= j < i ==> !(#[trigger] author_arg_at(args@, j)),
        decreases args@.len() - i,
    {
        if chars_starts_with(&args[i], &marker) {
            let v = sub_chars(&args[i], 9, args[i].len());
            proof {
                assert(author_arg_at(args@, i as int));
            }
            return Some(v);
        }
        if chars_eq(&args[i], &flag) && i + 1 < args.len() {
            let v = copy_chars(&args[i + 1]);
            proof {
                assert(author_arg_at(args@, i as int));
            }
            return Some(v);
        }
        proof {
            assert(!author_arg_at(args@, i as int));
        }
        i += 1;
    }
    None
}

/// `args` holds `flag` as an argument of its own.
pub open spec fn has_flag(args: Seq<Vec<char>>, flag: Seq<char>) -> bool {
    exists|i: int| 0 <= i < args.len() && (#[trigger] args[i])@ == flag
}

/// Whether `args` holds `flag` as an argument of its own.
pub fn has_command_flag(args: &Vec<Vec<char>>, flag: &Vec<char>) -> (r: bool)
    ensures
        r == has_flag(args@, flag@),
{
    let mut i: usize = 0;
    while i < args.len()
        invariant
            0 <= i <= args@.len(),
            forall|j: int| 0 <= j < i ==> (#[trigger] args@[j])@ != flag@,
        decreases args@.len() - i,
    {
        if chars_eq(&args[i], flag) {
            return true;
        }
        i += 1;
    }
    false
}

/// The invocation is a dry run.
pub open spec fn dry_run_spec(args: Seq<Vec<char>>) -> bool {
    has_flag(args, "--dry-run"@)
}

/// Whether the invocation is a dry run; both hooks are then no-ops.
pub fn is_dry_run(args: &Vec<Vec<char>>) -> (r: bool)
    ensures
        r == dry_run_spec(args@),
{
    let flag: Vec<char> = vec!['-', '-', 'd', 'r', 'y', '-', 'r', 'u', 'n'];
    proof {
        reveal_strlit("--dry-run");
        assert(flag@ =~= "--dry-run"@);
    }
    has_command_flag(args, &flag)
}

/// The post-commit output should stay silent.
pub open spec fn suppress_output_spec(args: Seq<Vec<char>>) -> bool {
    has_flag(args, "--porcelain"@) || has_flag(args, "--quiet"@) || has_flag(args, "-q"@)
        || has_flag(args, "--no-status"@)
}

/// Whether the post-commit output should stay silent.
pub fn suppress_output(args: &Vec<Vec<char>>) -> (r: bool)
    ensures
        r == suppress_output_spec(args@),
{
    let porcelain: Vec<char> = vec!['-', '-', 'p', 'o', 'r', 'c', 'e', 'l', 'a', 'i', 'n'];
    let quiet: Vec<char> = vec!['-', '-', 'q', 'u', 'i', 'e', 't'];
    let q: Vec<char> = vec!['-', 'q'];
    let no_status: Vec<char> = vec!['-', '-', 'n', 'o', '-', 's', 't', 'a', 't', 'u', 's'];
    proof {
        reveal_strlit("--porcelain");
        reveal_strlit("--quiet");
        reveal_strlit("-q");
        reveal_strlit("--no-status");
        assert(porcelain@ =~= "--porcelain"@);
        assert(quiet@ =~= "--quiet"@);
        assert(q@ =~= "-q"@);
        assert(no_status@ =~= "--no-status"@);
    }
    has_command_flag(args, &porcelain) || has_command_flag(args, &quiet) || has_command_flag(
        args,
        &q,
    ) || has_command_flag(args, &no_status)
}

/// An author name and address, resolved and trimmed by the caller;
/// empty values are passed as none.
pub struct AuthorSources {
    /// A resolved `--author` override.
    pub author_arg: Option<Vec<char>>,
    /// The author-name environment override.
    pub env_name: Option<Vec<char>>,
    /// The configured user name.
    pub config_name: Option<Vec<char>>,
    /// The author-address environment override.
    pub env_email: Option<Vec<char>>,
    /// The configured user address.
    pub config_email: Option<Vec<char>>,
    /// The plain address environment fallback.
    pub email_env: Option<Vec<char>>,
}

/// The resolved name: environment override, then configuration, then
/// the part of the fallback address before `@`, trimmed of blanks.
pub open spec fn resolved_name(s: AuthorSources) -> Option<Seq<char>> {
    if s.env_name is Some {
        Some(s.env_name->0@)
    } else if s.config_name is Some {
        Some(s.config_name->0@)
    } else if s.email_env is Some && 0 < first_at(s.email_env->0@) < s.email_env->0@.len()
        && crate::text::trim_spec(
        s.email_env->0@.subrange(0, first_at(s.email_env->0@)),
    ).len() > 0 {
        Some(crate::text::trim_spec(s.email_env->0@.subrange(0, first_at(s.email_env->0@))))
    } else {
        None
    }
}

/// The resolved address: environment override, then configuration,
/// then the fallback address.
pub open spec fn resolved_email(s: AuthorSources) -> Option<Seq<char>> {
    if s.env_email is Some {
        Some(s.env_email->0@)
    } else if s.config_email is Some {
        Some(s.config_email->0@)
    } else if s.email_env is Some {
        Some(s.email_env->0@)
    } else {
        None
    }
}

/// The position of the first `@` in `s` (`s.len()` if none).
pub open spec fn first_at(s: Seq<char>) -> int {
    crate::stats::first_idx(s, '@')
}

/// A source value, if present, is nonempty with non-blank ends.
pub open spec fn trimmed_nonempty(o: Option<Vec<char>>) -> bool {
    match o {
        Some(v) => v@.len() > 0 && !crate::text::blank_char(v@[0]) && !crate::text::blank_char(
            v@.last(),
        ),
        None => true,
    }
}

/// The commit author string: an explicit override wins once trimmed of
/// blanks, unless nothing remains of it; otherwise `name <email>`, a
/// bare name, a bare address, or the literal `unknown`.
pub open spec fn commit_author_spec(s: AuthorSources) -> Seq<char> {
    if s.author_arg is Some && crate::text::trim_spec(s.author_arg->0@).len() > 0 {
        crate::text::trim_spec(s.author_arg->0@)
    } else {
        match (resolved_name(s), resolved_email(s)) {
            (Some(n), Some(e)) => n + seq![' ', '<'] + e + seq!['>'],
            (Some(n), None) => n,
            (None, Some(e)) => e,
            (None, None) => "unknown"@,
        }
    }
}

/// Resolves the commit author from its sources, by the documented
/// precedence. The result is never empty and never begins or ends
/// with a blank character.
pub fn get_commit_default_author(sources: &AuthorSources) -> (r: Vec<char>)
    requires
        trimmed_nonempty(sources.env_name),
        trimmed_nonempty(sources.config_name),
        trimmed_nonempty(sources.env_email),
        trimmed_nonempty(sources.config_email),
        trimmed_nonempty(sources.email_env),
    ensures
        r@ == commit_author_spec(*sources),
        r@.len() > 0,
        !crate::text::blank_char(r@[0]),
        !crate::text::blank_char(r@.last()),
{
    if let Some(a) = &sources.author_arg {
        let t = crate::text::trim_blanks(a);
        if t.len() > 0 {
            proof {
                crate::text::lemma_trim_shape(a@);
            }
            return t;
        }
    }
    let name: Option<Vec<char>> = if let Some(n) = &sources.env_name {
        Some(copy_chars(n))
    } else if let Some(n) = &sources.config_name {
        Some(copy_chars(n))
    } else if let Some(em) = &sources.email_env {
        let at = crate::stats::find_first(em, '@');
        if 0 < at && at < em.len() {
            let part = crate::text::trim_blanks(&sub_chars(em, 0, at));
            proof {
                crate::text::lemma_trim_shape(em@.subrange(0, at as int));
            }
            if part.len() > 0 {
                Some(part)
            } else {
                None
            }
        } else {
            None
        }
    } else {
        None
    };
    let email: Option<Vec<char>> = if let Some(e) = &sources.env_email {
        Some(copy_chars(e))
    } else if let Some(e) = &sources.config_email {
        Some(copy_chars(e))
    } else if let Some(e) = &sources.email_env {
        Some(copy_chars(e))
    } else {
        None
    };
    match (name, email) {
        (Some(n), Some(e)) => {
            let mut r = n;
            r.push(' ');
            r.push('<');
            let mut i: usize = 0;
            while i < e.len()
                invariant
                    0 <= i <= e@.len(),
                    r@ == resolved_name(*sources)->0 + seq![' ', '<'] + e@.subrange(0, i as int),
                    e@ == resolved_email(*sources)->0,
                decreases e@.len() - i,
            {
                r.push(e[i]);
                i += 1;
                proof {
                    assert(r@ =~= resolved_name(*sources)->0 + seq![' ', '<'] + e@.subrange(
                        0,
                        i as int,
                    ));
                }
            }
            r.push('>');
            proof {
                assert(e@.subrange(0, e@.len() as int) =~= e@);
                assert(r@ =~= resolved_name(*sources)->0 + seq![' ', '<'] + resolved_email(
                    *sources,
                )->0 + seq!['>']);
                assert(r@[0] == resolved_name(*sources)->0[0]);
                assert(r@.last() == '>');
            }
            r
        },
        (Some(n), None) => n,
        (None, Some(e)) => e,
        (None, None) => {
            let unknown: Vec<char> = vec!['u', 'n', 'k', 'n', 'o', 'w', 'n'];
            proof {
                reveal_strlit("unknown");
                assert(unknown@ =~= "unknown"@);
                assert(unknown@[0] == 'u');
                assert(unknown@.last() == 'n');
            }
            unknown
        },
    }
}

/// How the wrapper must end, mirroring the wrapped process: re-raise
/// the same signal, or exit with the same code (1 when neither is
/// known).
#[derive(Clone, Copy, Debug, PartialEq, Eq, Structural)]
pub enum ExitOutcome {
    Raise(i32),
    Code(i32),
}

/// Exit fidelity: the wrapper's termination equals the wrapped
/// process's, including death by signal.
pub fn exit_outcome(signal: Option<i32>, code: Option<i32>) -> (r: ExitOutcome)
    ensures
        match signal {
            Some(s) => r == ExitOutcome::Raise(s),
            None => match code {
                Some(c) => r == ExitOutcome::Code(c),
                None => r == ExitOutcome::Code(1),
            },
        },
{
    match signal {
        Some(s) => ExitOutcome::Raise(s),
        None => match code {
            Some(c) => ExitOutcome::Code(c),
            None => ExitOutcome::Code(1),
        },
    }
}

/// Some pattern of the list matches the repository, as a glob or a
/// literal fragment.
pub open spec fn repo_matched(url: Seq<char>, patterns: Seq<Vec<char>>) -> bool {
    exists|k: int|
        0 <= k < patterns.len() && (crate::stats::glob_match_spec(url, (#[trigger] patterns[k])@)
            || contains_sub(url, patterns[k]@))
}

/// Whether the configuration lets the wrapper act in this repository:
/// an exclusion pattern wins; otherwise an empty allow list admits
/// every repository, and a non-empty one only those it matches.
pub fn repository_allowed(
    url: &Vec<char>,
    allow: &Vec<Vec<char>>,
    exclude: &Vec<Vec<char>>,
) -> (r: bool)
    ensures
        r == (!repo_matched(url@, exclude@) && (allow@.len() == 0 || repo_matched(url@, allow@))),
{
    if repo_list_matches(url, exclude) {
        return false;
    }
    if allow.len() == 0 {
        return true;
    }
    repo_list_matches(url, allow)
}

/// Whether some pattern of the list matches the repository.
fn repo_list_matches(url: &Vec<char>, patterns: &Vec<Vec<char>>) -> (r: bool)
    ensures
        r == repo_matched(url@, patterns@),
{
    let mut k: usize = 0;
    while k < patterns.len()
        invariant
            0 <= k <= patterns@.len(),
            forall|j: int|
                0 <= j < k ==> !(crate::stats::glob_match_spec(
                    url@,
                    (#[trigger] patterns@[j])@,
                ) || contains_sub(url@, patterns@[j]@)),
        decreases patterns@.len() - k,
    {
        if crate::stats::glob_match(url, &patterns[k]) || crate::text::chars_contains_sub(
            url,
            &patterns[k],
        ) {
            return true;
        }
        k += 1;
    }
    false
}

/// The flow an invocation takes through the wrapper.
#[derive(Clone, Copy, Debug, PartialEq, Eq, Structural)]
pub enum InvocationFlow {
    /// Shell-completion context: proxy with no further behaviour.
    ProxyCompletion,
    /// A hooked clone: run the command, then the post-clone step.
    CloneHooked,
    /// Pre-hook, command, post-hook.
    Hooked,
    /// Plain proxy: help requests, no repository, or a repository the
    /// configuration excludes.
    Plain,
}

/// Which flow an invocation takes: completion bypasses everything;
/// clone is hooked after the fact; other commands are hooked only with
/// a repository at hand, no help request, and the configuration's
/// consent.
pub fn classify_invocation(
    completion_context: bool,
    is_clone: bool,
    is_help: bool,
    has_repo: bool,
    allowed: bool,
) -> (r: InvocationFlow)
    ensures
        r == if completion_context {
            InvocationFlow::ProxyCompletion
        } else if is_clone && !is_help && allowed {
            InvocationFlow::CloneHooked
        } else if !is_help && has_repo && allowed {
            InvocationFlow::Hooked
        } else {
            InvocationFlow::Plain
        },
{
    if completion_context {
        InvocationFlow::ProxyCompletion
    } else if is_clone && !is_help && allowed {
        InvocationFlow::CloneHooked
    } else if !is_help && has_repo && allowed {
        InvocationFlow::Hooked
    } else {
        InvocationFlow::Plain
    }
}

/// The hook family a sub-command dispatches to.
#[derive(Clone, Copy, Debug, PartialEq, Eq, Structural)]
pub enum HookKind {
    Commit,
    Rebase,
    Reset,
    CherryPick,
    Push,
    FetchPull,
    Merge,
    Stash,
    Other,
}

/// Which hook family a sub-command name selects; `stash` only when the
/// stash feature is on, `merge` only after the command (it has no
/// pre-hook).
pub fn hook_for_command(command: &Vec<char>, stash_enabled: bool) -> (r: HookKind)
    ensures
        r == hook_kind_spec(command@, stash_enabled),
{
    let commit: Vec<char> = vec!['c', 'o', 'm', 'm', 'i', 't'];
    let rebase: Vec<char> = vec!['r', 'e', 'b', 'a', 's', 'e'];
    let reset: Vec<char> = vec!['r', 'e', 's', 'e', 't'];
    let cherry: Vec<char> = vec![
        'c',
        'h',
        'e',
        'r',
        'r',
        'y',
        '-',
        'p',
        'i',
        'c',
        'k',
    ];
    let push: Vec<char> = vec!['p', 'u', 's', 'h'];
    let fetch: Vec<char> = vec!['f', 'e', 't', 'c', 'h'];
    let pull: Vec<char> = vec!['p', 'u', 'l', 'l'];
    let merge: Vec<char> = vec!['m', 'e', 'r', 'g', 'e'];
    let stash: Vec<char> = vec!['s', 't', 'a', 's', 'h'];
    proof {
        reveal_strlit("commit");
        reveal_strlit("rebase");
        reveal_strlit("reset");
        reveal_strlit("cherry-pick");
        reveal_strlit("push");
        reveal_strlit("fetch");
        reveal_strlit("pull");
        reveal_strlit("merge");
        reveal_strlit("stash");
        assert(commit@ =~= "commit"@);
        assert(rebase@ =~= "rebase"@);
        assert(reset@ =~= "reset"@);
        assert(cherry@ =~= "cherry-pick"@);
        assert(push@ =~= "push"@);
        assert(fetch@ =~= "fetch"@);
        assert(pull@ =~= "pull"@);
        assert(merge@ =~= "merge"@);
        assert(stash@ =~= "stash"@);
    }
    if chars_eq(command, &commit) {
        HookKind::Commit
    } else if chars_eq(command, &rebase) {
        HookKind::Rebase
    } else if chars_eq(command, &reset) {
        HookKind::Reset
    } else if chars_eq(command, &cherry) {
        HookKind::CherryPick
    } else if chars_eq(command, &push) {
        HookKind::Push
    } else if chars_eq(command, &fetch) || chars_eq(command, &pull) {
        HookKind::FetchPull
    } else if chars_eq(command, &merge) {
        HookKind::Merge
    } else if chars_eq(command, &stash) && stash_enabled {
        HookKind::Stash
    } else {
        HookKind::Other
    }
}

/// The parsed statistics invocation: output form, ignore patterns,
/// and the commit or range asked about (a range wins when both were
/// given).
pub struct StatsArgs {
    pub json: bool,
    pub ignore_patterns: Vec<Vec<char>>,
    pub commit: Option<Vec<char>>,
    pub range: Option<(Vec<char>, Vec<char>)>,
}

/// How a statistics invocation fails to parse.
#[derive(Clone, Debug, PartialEq, Eq)]
pub enum StatsArgsError {
    /// `--ignore` came with no pattern.
    MissingIgnorePattern,
    /// A range argument holds more than one `..`.
    InvalidRange,
    /// A further argument after the commit was already named.
    UnknownArgument(Vec<char>),
}

/// The model of a parsed statistics invocation.
pub ghost struct StatsArgsModel {
    pub json: bool,
    pub ignore: Seq<Seq<char>>,
    pub commit: Option<Seq<char>>,
    pub range: Option<(Seq<char>, Seq<char>)>,
}

/// The model of a failed parse.
pub ghost enum StatsErrModel {
    MissingIgnorePattern,
    InvalidRange,
    UnknownArgument(Seq<char>),
}

/// The index of the first occurrence of `p` in `t` (`t.len()` if
/// none).
pub open spec fn first_sub_idx(t: Seq<char>, p: Seq<char>) -> int
    decreases t.len(),
{
    if p.len() > t.len() {
        t.len() as int
    } else if sub_at(t, p, 0) {
        0
    } else if t.len() == 0 {
        0
    } else {
        1 + first_sub_idx(t.drop_first(), p)
    }
}

/// Collects `--ignore` patterns from `i` on: until a `--` flag, a
/// range-looking argument, or — before any commit or pattern was seen
/// — anything long enough to be a commit id.
pub open spec fn collect_ignore(
    args: Seq<Seq<char>>,
    i: int,
    acc: StatsArgsModel,
    found: bool,
) -> (StatsArgsModel, int, bool)
    decreases args.len() - i when 0 <= i <= args.len()
{
    if i >= args.len() {
        (acc, i, found)
    } else {
        let arg = args[i];
        if starts_with(arg, "--"@) || contains_sub(arg, ".."@) || (acc.commit is None && !found
            && arg.len() >= 7) {
            (acc, i, found)
        } else {
            collect_ignore(
                args,
                i + 1,
                StatsArgsModel { ignore: acc.ignore.push(arg), ..acc },
                true,
            )
        }
    }
}

/// The statistics argument grammar, one argument at a time.
pub open spec fn stats_parse(args: Seq<Seq<char>>, i: int, acc: StatsArgsModel) -> Result<
    StatsArgsModel,
    StatsErrModel,
>
    decreases args.len() - i when 0 <= i <= args.len() via stats_parse_decreases
{
    if i >= args.len() {
        Ok(acc)
    } else {
        let arg = args[i];
        if arg == "--json"@ {
            stats_parse(args, i + 1, StatsArgsModel { json: true, ..acc })
        } else if arg == "--ignore"@ {
            let r = collect_ignore(args, i + 1, acc, false);
            if !r.2 {
                Err(StatsErrModel::MissingIgnorePattern)
            } else if r.1 <= i {
                Err(StatsErrModel::MissingIgnorePattern)
            } else {
                stats_parse(args, r.1, r.0)
            }
        } else if acc.commit is None {
            if contains_sub(arg, ".."@) {
                let k = first_sub_idx(arg, ".."@);
                let tail = arg.subrange(k + 2, arg.len() as int);
                if contains_sub(tail, ".."@) {
                    Err(StatsErrModel::InvalidRange)
                } else {
                    stats_parse(
                        args,
                        i + 1,
                        StatsArgsModel { range: Some((arg.subrange(0, k), tail)), ..acc },
                    )
                }
            } else {
                stats_parse(args, i + 1, StatsArgsModel { commit: Some(arg), ..acc })
            }
        } else {
            Err(StatsErrModel::UnknownArgument(arg))
        }
    }
}

#[via_fn]
proof fn stats_parse_decreases(args: Seq<Seq<char>>, i: int, acc: StatsArgsModel) {
    if 0 <= i < args.len() {
        lemma_collect_ignore_bounds(args, i + 1, acc, false);
    }
}

pub proof fn lemma_collect_ignore_bounds(
    args: Seq<Seq<char>>,
    i: int,
    acc: StatsArgsModel,
    found: bool,
)
    requires
        0 <= i <= args.len(),
    ensures
        i <= collect_ignore(args, i, acc, found).1 <= args.len(),
    decreases args.len() - i,
{
    if i < args.len() {
        let arg = args[i];
        if !(starts_with(arg, "--"@) || contains_sub(arg, ".."@) || (acc.commit is None && !found
            && arg.len() >= 7)) {
            lemma_collect_ignore_bounds(
                args,
                i + 1,
                StatsArgsModel { ignore: acc.ignore.push(arg), ..acc },
                true,
            );
        }
    }
}

/// The parse state a set of collected values stands for.
pub open spec fn stats_state_model(
    json: bool,
    ignore: Seq<Vec<char>>,
    commit: Option<Vec<char>>,
    range: Option<(Vec<char>, Vec<char>)>,
) -> StatsArgsModel {
    StatsArgsModel {
        json,
        ignore: ignore.map_values(|p: Vec<char>| p@),
        commit: match commit {
            Some(c) => Some(c@),
            None => None,
        },
        range: match range {
            Some(ab) => Some((ab.0@, ab.1@)),
            None => None,
        },
    }
}

/// The model a parsed result stands for.
pub open spec fn stats_args_model(r: StatsArgs) -> StatsArgsModel {
    stats_state_model(r.json, r.ignore_patterns@, r.commit, r.range)
}

/// The model a parse error stands for.
pub open spec fn stats_err_model(e: StatsArgsError) -> StatsErrModel {
    match e {
        StatsArgsError::MissingIgnorePattern => StatsErrModel::MissingIgnorePattern,
        StatsArgsError::InvalidRange => StatsErrModel::InvalidRange,
        StatsArgsError::UnknownArgument(a) => StatsErrModel::UnknownArgument(a@),
    }
}

/// The empty parse state.
pub open spec fn stats_args_init() -> StatsArgsModel {
    StatsArgsModel { json: false, ignore: Seq::empty(), commit: None, range: None }
}

proof fn lemma_first_sub_idx_characterize(t: Seq<char>, p: Seq<char>, k: int)
    requires
        0 <= k,
        k + p.len() <= t.len(),
        forall|j: int| 0 <= j < k ==> !sub_at(t, p, j),
        sub_at(t, p, k),
    ensures
        first_sub_idx(t, p) == k,
    decreases k,
{
    if k == 0 {
    } else {
        assert(!sub_at(t, p, 0));
        let t2 = t.drop_first();
        assert forall|j: int| 0 <= j < k - 1 implies !sub_at(t2, p, j) by {
            assert(t2.subrange(j, j + p.len()) =~= t.subrange(j + 1, j + 1 + p.len()));
            assert(!sub_at(t, p, j + 1));
        }
        assert(t2.subrange(k - 1, k - 1 + p.len()) =~= t.subrange(k, k + p.len()));
        assert(sub_at(t2, p, k - 1));
        lemma_first_sub_idx_characterize(t2, p, k - 1);
    }
}

/// The offset of the first occurrence of `p` in `t`, which must occur.
fn find_first_sub(t: &Vec<char>, p: &Vec<char>) -> (k: usize)
    requires
        contains_sub(t@, p@),
    ensures
        k as int == first_sub_idx(t@, p@),
        k + p@.len() <= t@.len(),
        sub_at(t@, p@, k as int),
{
    proof {
        let w = choose|w: int| 0 <= w <= t@.len() - p@.len() && #[trigger] sub_at(t@, p@, w);
        assert(p@.len() <= t@.len());
    }
    let mut k: usize = 0;
    while k <= t.len() - p.len() && !crate::text::matches_at(t, p, k)
        invariant
            0 <= k,
            contains_sub(t@, p@),
            p@.len() <= t@.len(),
            k <= t@.len() - p@.len() + 1,
            forall|j: int| 0 <= j < k ==> !sub_at(t@, p@, j),
        decreases t@.len() - p@.len() + 1 - k,
    {
        proof {
            assert(!sub_at(t@, p@, k as int));
        }
        k += 1;
    }
    proof {
        if k > t@.len() - p@.len() {
            let w = choose|w: int| 0 <= w <= t@.len() - p@.len() && #[trigger] sub_at(t@, p@, w);
            assert(false);
        }
        assert(sub_at(t@, p@, k as int));
        lemma_first_sub_idx_characterize(t@, p@, k as int);
    }
    k
}

/// Parses a statistics invocation: `--json`, `--ignore` with its
/// patterns, and one commit or `commit1..commit2` range.
pub fn parse_stats_args(args: &Vec<Vec<char>>) -> (r: Result<StatsArgs, StatsArgsError>)
    ensures
        match r {
            Ok(sa) => stats_parse(args@.map_values(|p: Vec<char>| p@), 0, stats_args_init())
                == Ok::<StatsArgsModel, StatsErrModel>(stats_args_model(sa)),
            Err(e) => stats_parse(args@.map_values(|p: Vec<char>| p@), 0, stats_args_init())
                == Err::<StatsArgsModel, StatsErrModel>(stats_err_model(e)),
        },
{
    let ghost m = args@.map_values(|p: Vec<char>| p@);
    let dashdash: Vec<char> = vec!['-', '-'];
    let dotdot: Vec<char> = vec!['.', '.'];
    let json_flag: Vec<char> = vec!['-', '-', 'j', 's', 'o', 'n'];
    let ignore_flag: Vec<char> = vec!['-', '-', 'i', 'g', 'n', 'o', 'r', 'e'];
    proof {
        reveal_strlit("--");
        reveal_strlit("..");
        reveal_strlit("--json");
        reveal_strlit("--ignore");
        assert(dashdash@ =~= "--"@);
        assert(dotdot@ =~= ".."@);
        assert(json_flag@ =~= "--json"@);
        assert(ignore_flag@ =~= "--ignore"@);
    }
    let mut json = false;
    let mut ignore_patterns: Vec<Vec<char>> = Vec::new();
    let mut commit: Option<Vec<char>> = None;
    let mut range: Option<(Vec<char>, Vec<char>)> = None;
    let mut i: usize = 0;
    proof {
        assert(stats_state_model(false, ignore_patterns@, commit, range) =~= stats_args_init())
            by {
            assert(ignore_patterns@.map_values(|p: Vec<char>| p@) =~= Seq::<Seq<char>>::empty());
        }
    }
    while i < args.len()
        invariant
            0 <= i <= args@.len(),
            m == args@.map_values(|p: Vec<char>| p@),
            dashdash@ == "--"@,
            dotdot@ == ".."@,
            dotdot@.len() == 2,
            json_flag@ == "--json"@,
            ignore_flag@ == "--ignore"@,
            stats_parse(m, 0, stats_args_init()) == stats_parse(
                m,
                i as int,
                stats_state_model(json, ignore_patterns@, commit, range),
            ),
        decreases args@.len() - i,
    {
        let ghost cur = stats_state_model(json, ignore_patterns@, commit, range);
        proof {
            assert(m[i as int] == args@[i as int]@);
        }
        if chars_eq(&args[i], &json_flag) {
            json = true;
            i += 1;
            proof {
                assert(stats_state_model(true, ignore_patterns@, commit, range)
                    =~= (StatsArgsModel { json: true, ..cur }));
            }
        } else if chars_eq(&args[i], &ignore_flag) {
            let ghost i0: int = i as int;
            i += 1;
            let mut found = false;
            loop
                invariant
                    i0 + 1 <= i as int <= args@.len(),
                    m == args@.map_values(|p: Vec<char>| p@),
                    dashdash@ == "--"@,
                    dotdot@ == ".."@,
                    found ==> i as int > i0 + 1,
                    collect_ignore(m, i0 + 1, cur, false) == collect_ignore(
                        m,
                        i as int,
                        stats_state_model(json, ignore_patterns@, commit, range),
                        found,
                    ),
                ensures
                    i0 + 1 <= i as int <= args@.len(),
                    found ==> i as int > i0 + 1,
                    collect_ignore(m, i0 + 1, cur, false) == (
                        stats_state_model(json, ignore_patterns@, commit, range),
                        i as int,
                        found,
                    ),
                decreases args@.len() - i,
            {
                if i >= args.len() {
                    break;
                }
                proof {
                    assert(m[i as int] == args@[i as int]@);
                }
                if chars_starts_with(&args[i], &dashdash) || crate::text::chars_contains_sub(
                    &args[i],
                    &dotdot,
                ) || (commit.is_none() && !found && args[i].len() >= 7) {
                    break;
                }
                let ghost before = stats_state_model(json, ignore_patterns@, commit, range);
                ignore_patterns.push(copy_chars(&args[i]));
                found = true;
                i += 1;
                proof {
                    assert(stats_state_model(json, ignore_patterns@, commit, range)
                        =~= (StatsArgsModel {
                        ignore: before.ignore.push(m[i - 1]),
                        ..before
                    })) by {
                        assert(ignore_patterns@.map_values(|p: Vec<char>| p@)
                            =~= before.ignore.push(m[i - 1]));
                    }
                }
            }
            proof {
                assert(collect_ignore(
                    m,
                    i as int,
                    stats_state_model(json, ignore_patterns@, commit, range),
                    found,
                ) == (stats_state_model(json, ignore_patterns@, commit, range), i as int, found));
            }
            if !found {
                return Err(StatsArgsError::MissingIgnorePattern);
            }
        } else if commit.is_none() {
            if crate::text::chars_contains_sub(&args[i], &dotdot) {
                let k = find_first_sub(&args[i], &dotdot);
                proof {
                    assert(k + 2 <= args@[i as int].len());
                }
                let a = sub_chars(&args[i], 0, k);
                let b = sub_chars(&args[i], k + 2, args[i].len());
                if crate::text::chars_contains_sub(&b, &dotdot) {
                    return Err(StatsArgsError::InvalidRange);
                }
                range = Some((a, b));
                i += 1;
                proof {
                    assert(stats_state_model(json, ignore_patterns@, commit, range)
                        =~= (StatsArgsModel {
                        range: Some(
                            (
                                m[i - 1].subrange(0, first_sub_idx(m[i - 1], ".."@)),
                                m[i - 1].subrange(
                                    first_sub_idx(m[i - 1], ".."@) + 2,
                                    m[i - 1].len() as int,
                                ),
                            ),
                        ),
                        ..cur
                    }));
                }
            } else {
                commit = Some(copy_chars(&args[i]));
                i += 1;
                proof {
                    assert(stats_state_model(json, ignore_patterns@, commit, range)
                        =~= (StatsArgsModel { commit: Some(m[i - 1]), ..cur }));
                }
            }
        } else {
            let e = StatsArgsError::UnknownArgument(copy_chars(&args[i]));
            proof {
                assert(stats_parse(m, i as int, cur) == Err::<StatsArgsModel, StatsErrModel>(
                    StatsErrModel::UnknownArgument(m[i as int]),
                ));
            }
            return Err(e);
        }
    }
    Ok(StatsArgs { json, ignore_patterns, commit, range })
}

/// How a checkpoint invocation supplies its hook payload.
#[derive(Clone, Debug, PartialEq, Eq)]
pub enum HookInputArg {
    /// No `--hook-input` was given.
    Absent,
    /// The payload is to be read from standard input.
    Stdin,
    /// The payload came inline.
    Value(Vec<char>),
}

/// The parsed checkpoint invocation.
pub struct CheckpointArgs {
    pub show_working_log: bool,
    pub reset: bool,
    pub hook_input: HookInputArg,
}

/// The model of a parsed checkpoint invocation.
pub ghost struct CheckpointArgsModel {
    pub show_working_log: bool,
    pub reset: bool,
    pub hook_input: Option<Option<Seq<char>>>,
}

/// Every character of `s` is blank.
pub open spec fn all_blank(s: Seq<char>) -> bool {
    forall|j: int| 0 <= j < s.len() ==> (#[trigger] s[j]) == ' ' || s[j] == '\t' || s[j] == '\n'
        || s[j] == '\r'
}

/// The checkpoint argument grammar: `--show-working-log`, `--reset`,
/// and `--hook-input` with a value — `stdin` (modelled as an inner
/// none) or an inline payload, which must not be blank. Anything else
/// is a pathspec or preset name and passes through.
pub open spec fn checkpoint_parse(
    args: Seq<Seq<char>>,
    i: int,
    acc: CheckpointArgsModel,
) -> Option<CheckpointArgsModel>
    decreases args.len() - i when 0 <= i <= args.len()
{
    if i >= args.len() {
        Some(acc)
    } else {
        let arg = args[i];
        if arg == "--show-working-log"@ {
            checkpoint_parse(args, i + 1, CheckpointArgsModel { show_working_log: true, ..acc })
        } else if arg == "--reset"@ {
            checkpoint_parse(args, i + 1, CheckpointArgsModel { reset: true, ..acc })
        } else if arg == "--hook-input"@ {
            if i + 1 >= args.len() {
                None
            } else if args[i + 1] == "stdin"@ {
                checkpoint_parse(args, i + 2, CheckpointArgsModel { hook_input: Some(None), ..acc })
            } else if all_blank(args[i + 1]) {
                None
            } else {
                checkpoint_parse(
                    args,
                    i + 2,
                    CheckpointArgsModel { hook_input: Some(Some(args[i + 1])), ..acc },
                )
            }
        } else {
            checkpoint_parse(args, i + 1, acc)
        }
    }
}

/// The parse state a set of collected values stands for.
pub open spec fn checkpoint_state_model(
    show_working_log: bool,
    reset: bool,
    hook_input: HookInputArg,
) -> CheckpointArgsModel {
    CheckpointArgsModel {
        show_working_log,
        reset,
        hook_input: match hook_input {
            HookInputArg::Absent => None,
            HookInputArg::Stdin => Some(None),
            HookInputArg::Value(v) => Some(Some(v@)),
        },
    }
}

/// The model a parsed checkpoint invocation stands for.
pub open spec fn checkpoint_args_model(r: CheckpointArgs) -> CheckpointArgsModel {
    checkpoint_state_model(r.show_working_log, r.reset, r.hook_input)
}

/// The empty checkpoint parse state.
pub open spec fn checkpoint_args_init() -> CheckpointArgsModel {
    CheckpointArgsModel { show_working_log: false, reset: false, hook_input: None }
}

/// Whether every character of `v` is blank.
fn chars_all_blank(v: &Vec<char>) -> (r: bool)
    ensures
        r == all_blank(v@),
{
    let mut j: usize = 0;
    while j < v.len()
        invariant
            0 <= j <= v@.len(),
            forall|w: int|
                0 <= w < j ==> (#[trigger] v@[w]) == ' ' || v@[w] == '\t' || v@[w] == '\n'
                    || v@[w] == '\r',
        decreases v@.len() - j,
    {
        let c = v[j];
        if !(c == ' ' || c == '\t' || c == '\n' || c == '\r') {
            return false;
        }
        j += 1;
    }
    true
}

/// Parses a checkpoint invocation; none when `--hook-input` lacks a
/// usable value.
pub fn parse_checkpoint_args(args: &Vec<Vec<char>>) -> (r: Option<CheckpointArgs>)
    ensures
        match r {
            Some(ca) => checkpoint_parse(
                args@.map_values(|p: Vec<char>| p@),
                0,
                checkpoint_args_init(),
            ) == Some(checkpoint_args_model(ca)),
            None => checkpoint_parse(
                args@.map_values(|p: Vec<char>| p@),
                0,
                checkpoint_args_init(),
            ) is None,
        },
{
    let ghost m = args@.map_values(|p: Vec<char>| p@);
    let show_flag: Vec<char> = vec![
        '-', '-', 's', 'h', 'o', 'w', '-', 'w', 'o', 'r', 'k', 'i', 'n', 'g', '-', 'l', 'o', 'g',
    ];
    let reset_flag: Vec<char> = vec!['-', '-', 'r', 'e', 's', 'e', 't'];
    let hook_flag: Vec<char> = vec!['-', '-', 'h', 'o', 'o', 'k', '-', 'i', 'n', 'p', 'u', 't'];
    let stdin_word: Vec<char> = vec!['s', 't', 'd', 'i', 'n'];
    proof {
        reveal_strlit("--show-working-log");
        reveal_strlit("--reset");
        reveal_strlit("--hook-input");
        reveal_strlit("stdin");
        assert(show_flag@ =~= "--show-working-log"@);
        assert(reset_flag@ =~= "--reset"@);
        assert(hook_flag@ =~= "--hook-input"@);
        assert(stdin_word@ =~= "stdin"@);
    }
    let mut show_working_log = false;
    let mut reset = false;
    let mut hook_input = HookInputArg::Absent;
    let mut i: usize = 0;
    while i < args.len()
        invariant
            0 <= i <= args@.len(),
            m == args@.map_values(|p: Vec<char>| p@),
            show_flag@ == "--show-working-log"@,
            reset_flag@ == "--reset"@,
            hook_flag@ == "--hook-input"@,
            stdin_word@ == "stdin"@,
            checkpoint_parse(m, 0, checkpoint_args_init()) == checkpoint_parse(
                m,
                i as int,
                checkpoint_state_model(show_working_log, reset, hook_input),
            ),
        decreases args@.len() - i,
    {
        let ghost cur = checkpoint_state_model(show_working_log, reset, hook_input);
        proof {
            assert(m[i as int] == args@[i as int]@);
        }
        if chars_eq(&args[i], &show_flag) {
            show_working_log = true;
            i += 1;
        } else if chars_eq(&args[i], &reset_flag) {
            reset = true;
            i += 1;
        } else if chars_eq(&args[i], &hook_flag) {
            if i + 1 >= args.len() {
                return None;
            }
            proof {
                assert(m[i + 1] == args@[i + 1]@);
            }
            if chars_eq(&args[i + 1], &stdin_word) {
                hook_input = HookInputArg::Stdin;
                i += 2;
            } else if chars_all_blank(&args[i + 1]) {
                return None;
            } else {
                hook_input = HookInputArg::Value(copy_chars(&args[i + 1]));
                i += 2;
            }
        } else {
            i += 1;
        }
    }
    Some(CheckpointArgs { show_working_log, reset, hook_input })
}

/// The hook family a sub-command name selects.
pub open spec fn hook_kind_spec(command: Seq<char>, stash_enabled: bool) -> HookKind {
    if command == "commit"@ {
        HookKind::Commit
    } else if command == "rebase"@ {
        HookKind::Rebase
    } else if command == "reset"@ {
        HookKind::Reset
    } else if command == "cherry-pick"@ {
        HookKind::CherryPick
    } else if command == "push"@ {
        HookKind::Push
    } else if command == "fetch"@ || command == "pull"@ {
        HookKind::FetchPull
    } else if command == "merge"@ {
        HookKind::Merge
    } else if command == "stash"@ && stash_enabled {
        HookKind::Stash
    } else {
        HookKind::Other
    }
}

} // verus!
