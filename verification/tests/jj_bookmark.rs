use git_multi_glance::vcs::jj::{
    bookmark_name_no_marks, count_commits, current_bookmark, parent_bookmark, BookmarkLookup,
};

#[test]
fn strips_trailing_asterisk() {
    assert_eq!(bookmark_name_no_marks("main*"), Some("main"));
}

#[test]
fn passes_through_plain_bookmark() {
    assert_eq!(bookmark_name_no_marks("main"), Some("main"));
}

#[test]
fn no_bookmark_placeholder_is_none() {
    assert_eq!(bookmark_name_no_marks("(no bookmark)"), None);
}

#[test]
fn empty_string_is_none() {
    assert_eq!(bookmark_name_no_marks(""), None);
}

#[test]
fn strips_every_trailing_asterisk() {
    assert_eq!(bookmark_name_no_marks("feat**"), Some("feat"));
    assert_eq!(bookmark_name_no_marks("***"), None);
    assert_eq!(bookmark_name_no_marks("(no bookmark)*"), None);
    assert_eq!(bookmark_name_no_marks("a*b"), Some("a*b"));
}

#[test]
fn bookmark_name_is_idempotent() {
    let once = bookmark_name_no_marks("topic*").unwrap();
    assert_eq!(bookmark_name_no_marks(once), Some(once));
}

fn found(l: BookmarkLookup) -> Option<String> {
    match l {
        BookmarkLookup::Found(b) => Some(b),
        BookmarkLookup::AskParent => None,
    }
}

#[test]
fn head_bookmark_wins() {
    assert_eq!(found(current_bookmark("main*\nfalse\n")), Some("main*".to_string()));
    assert_eq!(found(current_bookmark("  main  \ntrue\n")), Some("main".to_string()));
}

#[test]
fn empty_head_without_bookmark_asks_parent() {
    assert!(matches!(current_bookmark("\ntrue\n"), BookmarkLookup::AskParent));
    assert!(matches!(current_bookmark("   \n true \n"), BookmarkLookup::AskParent));
}

#[test]
fn nonempty_head_without_bookmark_has_none() {
    assert_eq!(found(current_bookmark("\nfalse\n")), Some("(no bookmark)".to_string()));
    assert_eq!(found(current_bookmark("")), Some("(no bookmark)".to_string()));
}

#[test]
fn parent_bookmark_is_trimmed_or_placeholder() {
    assert_eq!(parent_bookmark(" dev \n"), "dev");
    assert_eq!(parent_bookmark("\n"), "(no bookmark)");
}

#[test]
fn counts_nonblank_lines() {
    assert_eq!(count_commits("abc\ndef\n\n  \nghi"), 3);
    assert_eq!(count_commits(""), 0);
}
