use std::path::PathBuf;

use git_multi_glance::repo::{discover_repos, DirEntryInfo, RepoKind};

fn entry(name: &str, is_dir: bool, has_jj_dir: bool, has_git: bool) -> DirEntryInfo {
    DirEntryInfo {
        name: name.to_string(),
        sort_key: name.as_bytes().to_vec(),
        path: PathBuf::from("/scan").join(name),
        is_dir,
        has_jj_dir,
        has_git,
    }
}

#[test]
fn lists_repositories_sorted_by_name() {
    let repos = discover_repos(vec![
        entry("zeta", true, false, true),
        entry("alpha", true, false, true),
        entry("notes.txt", false, false, true),
        entry("plain", true, false, false),
        entry("Beta", true, true, false),
    ]);
    let names: Vec<&str> = repos.iter().map(|r| r.name.as_str()).collect();
    assert_eq!(names, vec!["Beta", "alpha", "zeta"]);
    assert_eq!(repos[0].kind, RepoKind::Jj);
    assert_eq!(repos[1].kind, RepoKind::Git);
    assert_eq!(repos[2].path, PathBuf::from("/scan/zeta"));
}

#[test]
fn jj_marker_takes_priority_over_git() {
    let repos = discover_repos(vec![entry("both", true, true, true)]);
    assert_eq!(repos.len(), 1);
    assert_eq!(repos[0].kind, RepoKind::Jj);
}

#[test]
fn prefix_sorts_first_and_ties_keep_order() {
    let mut first = entry("same", true, false, true);
    first.name = "first".to_string();
    let mut second = entry("same", true, false, true);
    second.name = "second".to_string();
    let repos = discover_repos(vec![
        entry("abc", true, false, true),
        first,
        entry("ab", true, false, true),
        second,
    ]);
    let names: Vec<&str> = repos.iter().map(|r| r.name.as_str()).collect();
    assert_eq!(names, vec!["ab", "abc", "first", "second"]);
}

#[test]
fn nothing_to_list() {
    assert!(discover_repos(Vec::new()).is_empty());
    assert!(discover_repos(vec![entry("file", false, true, true)]).is_empty());
}

#[test]
fn adding_a_non_repository_changes_nothing() {
    let base = || vec![entry("b", true, false, true), entry("a", true, true, false)];
    let before = discover_repos(base());
    let mut more = base();
    more.insert(1, entry("aa", true, false, false));
    more.push(entry("0file", false, true, true));
    let after = discover_repos(more);
    assert_eq!(before.len(), after.len());
    for (x, y) in before.iter().zip(&after) {
        assert_eq!(x.name, y.name);
        assert_eq!(x.path, y.path);
        assert_eq!(x.kind, y.kind);
    }
}
