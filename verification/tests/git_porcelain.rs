use git_multi_glance::vcs::git::parse_porcelain;

#[test]
fn parses_clean_branch_with_upstream() {
    let output = "\
# branch.oid abc123
# branch.head main
# branch.upstream origin/main
# branch.ab +0 -0
";
    let parsed = parse_porcelain(output);
    assert_eq!(parsed.head, "main");
    assert!(parsed.has_upstream);
    assert_eq!(parsed.ahead, 0);
    assert_eq!(parsed.behind, 0);
    assert!(!parsed.dirty);
}

#[test]
fn parses_dirty_ahead_behind() {
    let output = "\
# branch.oid abc123
# branch.head feature
# branch.upstream origin/feature
# branch.ab +2 -3
1 .M N... 100644 100644 100644 abc123 def456 src/main.rs
";
    let parsed = parse_porcelain(output);
    assert_eq!(parsed.head, "feature");
    assert!(parsed.has_upstream);
    assert_eq!(parsed.ahead, 2);
    assert_eq!(parsed.behind, 3);
    assert!(parsed.dirty);
}

#[test]
fn parses_no_upstream() {
    let output = "\
# branch.oid abc123
# branch.head local-only
";
    let parsed = parse_porcelain(output);
    assert_eq!(parsed.head, "local-only");
    assert!(!parsed.has_upstream);
    assert_eq!(parsed.ahead, 0);
    assert_eq!(parsed.behind, 0);
    assert!(!parsed.dirty);
}

#[test]
fn parses_detached_head_default() {
    let parsed = parse_porcelain("");
    assert_eq!(parsed.head, "HEAD");
    assert!(!parsed.has_upstream);
    assert!(!parsed.dirty);
}

#[test]
fn last_head_line_wins() {
    let parsed = parse_porcelain("# branch.head one\n# branch.head two\n");
    assert_eq!(parsed.head, "two");
}

#[test]
fn crlf_line_endings_are_stripped() {
    let parsed = parse_porcelain("# branch.head main\r\n# branch.ab +1 -0\r\n");
    assert_eq!(parsed.head, "main");
    assert_eq!(parsed.ahead, 1);
    assert!(!parsed.dirty);
}

#[test]
fn unreadable_counts_become_zero() {
    let parsed = parse_porcelain("# branch.ab +x -99999999999\n");
    assert_eq!(parsed.ahead, 0);
    assert_eq!(parsed.behind, 0);
}

#[test]
fn plus_sign_inside_count_is_accepted() {
    // `u32::from_str` takes one leading '+', so "++4" reads as 4.
    let parsed = parse_porcelain("# branch.ab ++4 --2\n");
    assert_eq!(parsed.ahead, 4);
    assert_eq!(parsed.behind, 0);
}

#[test]
fn untracked_entry_is_dirty() {
    let parsed = parse_porcelain("# branch.head main\n? new_file.txt");
    assert!(parsed.dirty);
    assert_eq!(parsed.head, "main");
}

#[test]
fn blank_line_counts_as_change() {
    let parsed = parse_porcelain("# branch.head main\n\n");
    assert!(parsed.dirty);
}

#[test]
fn count_words_split_on_any_whitespace() {
    let parsed = parse_porcelain("# branch.ab\t+7\u{3000}-8\n");
    // The prefix needs a plain space after `ab`, so this line is not a counts line.
    assert_eq!(parsed.ahead, 0);
    let parsed = parse_porcelain("# branch.ab +7\u{3000}-8\n");
    assert_eq!(parsed.ahead, 7);
    assert_eq!(parsed.behind, 8);
}
