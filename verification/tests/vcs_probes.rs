use std::path::PathBuf;

use git_multi_glance::repo::{Repo, RepoKind};
use git_multi_glance::vcs::{
    compare, git, jj, local_status, local_step, remote_status, remote_step, status_or_error,
    Invocation, LocalStatus, Outcome, RemoteState, Step,
};

fn ok(stdout: &str) -> Outcome {
    Outcome::Completed { success: true, stdout: stdout.to_string(), stderr: String::new() }
}

fn failed(stderr: &str) -> Outcome {
    Outcome::Completed { success: false, stdout: String::new(), stderr: stderr.to_string() }
}

fn argv(inv: &Invocation) -> Vec<String> {
    let mut v = vec![inv.program.clone()];
    v.extend(inv.args.iter().cloned());
    v
}

fn repo(kind: RepoKind) -> Repo {
    Repo { name: "r".to_string(), path: PathBuf::from("r"), kind }
}

fn run_remote(kind: RepoKind, outcomes: Vec<Outcome>) -> (Vec<Vec<String>>, RemoteState) {
    let (mut probe, first) = remote_status(&repo(kind));
    let mut commands = vec![argv(&first)];
    for outcome in outcomes {
        let (next, step) = remote_step(probe, &outcome);
        probe = next;
        match step {
            Step::Run(inv) => commands.push(argv(&inv)),
            Step::Finished(state) => return (commands, state),
        }
    }
    panic!("remote check did not finish");
}

fn run_local(kind: RepoKind, outcomes: Vec<Outcome>) -> (Vec<Vec<String>>, Result<LocalStatus, String>) {
    let (mut probe, first) = local_status(&repo(kind));
    let mut commands = vec![argv(&first)];
    for outcome in outcomes {
        let (next, step) = local_step(probe, &outcome);
        probe = next;
        match step {
            Step::Run(inv) => commands.push(argv(&inv)),
            Step::Finished(r) => return (commands, r),
        }
    }
    panic!("local check did not finish");
}

fn words(s: &str) -> Vec<String> {
    s.split(' ').map(|w| w.to_string()).collect()
}

#[test]
fn compare_classifies_counts() {
    assert!(matches!(compare(0, 0), RemoteState::UpToDate));
    assert!(matches!(compare(3, 0), RemoteState::Ahead(3)));
    assert!(matches!(compare(0, 4), RemoteState::Behind(4)));
    assert!(matches!(compare(1, 2), RemoteState::Diverged(1, 2)));
}

#[test]
fn git_local_status_from_porcelain() {
    let (cmds, r) = run_local(RepoKind::Git, vec![ok("# branch.head dev\n1 .M x\n")]);
    assert_eq!(cmds, vec![words("git status --porcelain=v2 --branch")]);
    let l = r.unwrap();
    assert_eq!(l.branch, "dev");
    assert!(l.dirty);
}

#[test]
fn git_local_status_errors() {
    let (_, r) = run_local(RepoKind::Git, vec![Outcome::FailedToStart]);
    assert_eq!(r.unwrap_err(), "failed to run git status");
    let (_, r) = run_local(RepoKind::Git, vec![failed("not a repo")]);
    assert_eq!(r.unwrap_err(), "git status failed: not a repo");
    let shown = status_or_error(Err("git status failed: x".to_string()));
    assert_eq!(shown.branch, "error: git status failed: x");
    assert!(!shown.dirty);
}

#[test]
fn git_remote_without_upstream_does_not_fetch() {
    let (cmds, state) = run_remote(RepoKind::Git, vec![ok("# branch.head main\n")]);
    assert_eq!(cmds.len(), 1);
    assert!(matches!(state, RemoteState::NoUpstream));
}

#[test]
fn git_remote_fetches_then_compares() {
    let status = "# branch.head main\n# branch.upstream origin/main\n# branch.ab +0 -2\n";
    let (cmds, state) = run_remote(RepoKind::Git, vec![ok(status), ok(""), ok(status)]);
    assert_eq!(
        cmds,
        vec![
            words("git status --porcelain=v2 --branch"),
            words("git fetch --quiet"),
            words("git status --porcelain=v2 --branch"),
        ]
    );
    assert!(matches!(state, RemoteState::Behind(2)));
}

#[test]
fn git_remote_fetch_failure_is_trimmed_error() {
    let status = "# branch.upstream origin/main\n";
    let (_, state) = run_remote(RepoKind::Git, vec![ok(status), failed("  fatal: offline \n")]);
    match state {
        RemoteState::Error(e) => assert_eq!(e, "fatal: offline"),
        _ => panic!("expected an error"),
    }
    let (_, state) = run_remote(RepoKind::Git, vec![ok(status), Outcome::FailedToStart]);
    match state {
        RemoteState::Error(e) => assert_eq!(e, "failed to run git fetch"),
        _ => panic!("expected an error"),
    }
}

#[test]
fn jj_local_status_uses_parent_bookmark_of_empty_commit() {
    let (cmds, r) = run_local(
        RepoKind::Jj,
        vec![ok("\ntrue\n"), ok("trunk\n"), ok("Working copy changes:\nM a.txt\n")],
    );
    assert_eq!(cmds[0], vec!["jj", "log", "-r", "@", "--no-graph", "-T", "bookmarks ++ \"\\n\" ++ empty"]);
    assert_eq!(cmds[1], vec!["jj", "log", "-r", "@-", "--no-graph", "-T", "bookmarks"]);
    assert_eq!(cmds[2], vec!["jj", "status"]);
    let l = r.unwrap();
    assert_eq!(l.branch, "trunk");
    assert!(l.dirty);
}

#[test]
fn jj_local_status_errors() {
    let (_, r) = run_local(RepoKind::Jj, vec![failed("boom")]);
    assert_eq!(r.unwrap_err(), "jj log failed: boom");
    let (_, r) = run_local(RepoKind::Jj, vec![ok("main\nfalse\n"), Outcome::FailedToStart]);
    assert_eq!(r.unwrap_err(), "failed to run jj status");
    let (_, r) = run_local(RepoKind::Jj, vec![ok("main\nfalse\n"), failed("e")]);
    assert_eq!(r.unwrap_err(), "jj status failed: e");
}

#[test]
fn jj_remote_counts_both_directions() {
    let (cmds, state) = run_remote(
        RepoKind::Jj,
        vec![
            ok("main*\nfalse\n"),
            ok("The working copy has no changes.\n"),
            ok("main: abc\n  @origin: abc\n"),
            ok(""),
            ok("c1\nc2\n"),
            ok("c3\n"),
        ],
    );
    assert_eq!(cmds[2], vec!["jj", "bookmark", "list", "main", "--all-remotes"]);
    assert_eq!(cmds[3], vec!["jj", "git", "fetch"]);
    assert_eq!(cmds[4], vec!["jj", "log", "--no-graph", "-T", "commit_id ++ \"\\n\"", "-r", "main@origin..main"]);
    assert_eq!(cmds[5], vec!["jj", "log", "--no-graph", "-T", "commit_id ++ \"\\n\"", "-r", "main..main@origin"]);
    assert!(matches!(state, RemoteState::Diverged(2, 1)));
}

#[test]
fn jj_remote_without_origin_is_no_upstream() {
    let (cmds, state) = run_remote(
        RepoKind::Jj,
        vec![ok("main\nfalse\n"), ok(""), ok("main: abc\n")],
    );
    assert_eq!(cmds.len(), 3);
    assert!(matches!(state, RemoteState::NoUpstream));
    let (_, state) = run_remote(
        RepoKind::Jj,
        vec![ok("main\nfalse\n"), ok(""), ok("main@origin (not created yet)\n")],
    );
    assert!(matches!(state, RemoteState::NoUpstream));
}

#[test]
fn jj_remote_without_bookmark_is_no_upstream() {
    let (cmds, state) = run_remote(RepoKind::Jj, vec![ok("\nfalse\n"), ok("")]);
    assert_eq!(cmds.len(), 2);
    assert!(matches!(state, RemoteState::NoUpstream));
}

#[test]
fn jj_remote_local_error_is_reported() {
    let (_, state) = run_remote(RepoKind::Jj, vec![Outcome::FailedToStart]);
    match state {
        RemoteState::Error(e) => assert_eq!(e, "failed to run jj log"),
        _ => panic!("expected an error"),
    }
}

#[test]
fn jj_log_output_passes_stdout() {
    assert_eq!(jj::log_output(&ok("x")).unwrap(), "x");
    assert_eq!(git::status_invocation().program, "git");
}
