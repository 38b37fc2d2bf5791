use std::path::PathBuf;

use git_multi_glance::render::{column_widths, RemoteLabel, Renderer};
use git_multi_glance::repo::{Repo, RepoKind};
use git_multi_glance::vcs::{LocalStatus, RemoteState};

fn repo(name: &str, kind: RepoKind) -> Repo {
    Repo { name: name.to_string(), path: PathBuf::from(name), kind }
}

fn local(branch: &str, dirty: bool) -> LocalStatus {
    LocalStatus { branch: branch.to_string(), dirty }
}

#[test]
fn prints_aligned_row_while_checking() {
    let mut r = Renderer::new(8, 6);
    let line = r.print_row(&repo("proj", RepoKind::Git), &local("main", false), true);
    assert_eq!(
        line,
        "\x1b[36mproj    \x1b[39m \x1b[2mgit\x1b[0m main   \x1b[32mclean  \x1b[39m \x1b[2mchecking...\x1b[0m"
    );
}

#[test]
fn prints_skipped_and_dirty_jj_row() {
    let mut r = Renderer::new(2, 2);
    let line = r.print_row(&repo("longer", RepoKind::Jj), &local("feature", true), false);
    assert_eq!(
        line,
        "\x1b[36mlonger\x1b[39m \x1b[2mjj \x1b[0m feature \x1b[31mdirty  \x1b[39m \x1b[2mskipped\x1b[0m"
    );
}

fn remote_column(state: &RemoteState) -> String {
    let r = Renderer::new(0, 0);
    let line = r.format_line(&repo("a", RepoKind::Git), &local("b", false), RemoteLabel::Resolved(state));
    let prefix = "\x1b[36ma\x1b[39m \x1b[2mgit\x1b[0m b \x1b[32mclean  \x1b[39m ";
    assert!(line.starts_with(prefix));
    line[prefix.len()..].to_string()
}

#[test]
fn remote_states_are_labelled() {
    assert_eq!(remote_column(&RemoteState::NoUpstream), "\x1b[2mno upstream\x1b[0m");
    assert_eq!(remote_column(&RemoteState::UpToDate), "\x1b[32mup to date\x1b[39m");
    assert_eq!(remote_column(&RemoteState::Ahead(2)), "\x1b[33m\u{2191}2\x1b[39m");
    assert_eq!(remote_column(&RemoteState::Behind(10)), "\x1b[33m\u{2193}10\x1b[39m");
    assert_eq!(remote_column(&RemoteState::Diverged(12, 3)), "\x1b[31m\u{2191}12 \u{2193}3\x1b[39m");
    assert_eq!(
        remote_column(&RemoteState::Error("boom".to_string())),
        "\x1b[31merror: boom\x1b[39m"
    );
    assert_eq!(remote_column(&RemoteState::Ahead(4294967295)), "\x1b[33m\u{2191}4294967295\x1b[39m");
    assert_eq!(remote_column(&RemoteState::Behind(0)), "\x1b[33m\u{2193}0\x1b[39m");
}

#[test]
fn update_moves_up_rewrites_and_returns() {
    let mut r = Renderer::new(1, 1);
    for _ in 0..3 {
        r.print_row(&repo("a", RepoKind::Git), &local("b", false), true);
    }
    let line = r.format_line(
        &repo("a", RepoKind::Git),
        &local("b", false),
        RemoteLabel::Resolved(&RemoteState::UpToDate),
    );
    let out = r.update_row(1, &repo("a", RepoKind::Git), &local("b", false), &RemoteState::UpToDate);
    assert_eq!(out, format!("\x1b[2A\r\x1b[2K{line}\n\x1b[1B"));
    let last = r.update_row(2, &repo("a", RepoKind::Git), &local("b", false), &RemoteState::UpToDate);
    assert_eq!(last, format!("\x1b[1A\r\x1b[2K{line}\n"));
    let first = r.update_row(0, &repo("a", RepoKind::Git), &local("b", false), &RemoteState::UpToDate);
    assert_eq!(first, format!("\x1b[3A\r\x1b[2K{line}\n\x1b[2B"));
}

#[test]
fn padding_counts_characters() {
    let mut r = Renderer::new(3, 0);
    let line = r.print_row(&repo("\u{e9}", RepoKind::Git), &local("", false), false);
    assert!(line.starts_with("\x1b[36m\u{e9}  \x1b[39m "));
}

#[test]
fn widths_are_longest_byte_lengths() {
    let repos = vec![repo("ab", RepoKind::Git), repo("\u{e9}\u{e9}", RepoKind::Jj), repo("c", RepoKind::Git)];
    let locals = vec![local("main", false), local("x", true)];
    assert_eq!(column_widths(&repos, &locals), (4, 4));
    assert_eq!(column_widths(&Vec::new(), &Vec::new()), (0, 0));
}

fn strip_styles(s: &str) -> String {
    let mut out = String::new();
    let mut chars = s.chars();
    while let Some(c) = chars.next() {
        if c == '\x1b' {
            for d in chars.by_ref() {
                if d.is_ascii_alphabetic() {
                    break;
                }
            }
        } else {
            out.push(c);
        }
    }
    out
}

#[test]
fn columns_align_across_rows() {
    let mut r = Renderer::new(6, 7);
    let a = strip_styles(&r.print_row(&repo("ab", RepoKind::Git), &local("main", true), true));
    let b = strip_styles(&r.print_row(&repo("longer", RepoKind::Jj), &local("feature", false), false));
    for (row, kind, branch, dirty, label) in [
        (&a, "git", "main   ", "dirty  ", "checking..."),
        (&b, "jj ", "feature", "clean  ", "skipped"),
    ] {
        let chars: Vec<char> = row.chars().collect();
        let at = |from: usize, len: usize| chars[from..from + len].iter().collect::<String>();
        assert_eq!(at(7, 3), kind);
        assert_eq!(at(11, 7), branch);
        assert_eq!(at(19, 7), dirty);
        assert_eq!(chars[27..].iter().collect::<String>(), label);
    }
}
