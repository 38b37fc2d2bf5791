//! jj: which bookmark a working copy is on, whether it has changes, and how the
//! bookmark stands against `origin`.

use vstd::prelude::*;
use crate::vcs::{
    compare, compare_counts, invocation, Invocation, LocalStatus,
    LocalStatusView, Outcome, OutcomeView, RemoteState, RemoteStateView, Step, StepView,
    local_step_view,
};
use crate::text::{
    chars_of, concatenated, contains, has_substring, line_spans, lines, matches_at, string_of, trim,
    trim_end_char, trim_span, trimmed, is_whitespace, strip_cr, trim_start, trim_end,
    lemma_lines_concat, lemma_lines_one_terminated, lemma_trim_start_at, joined_lines,
    lemma_joined_lines,
};

verus! {

/// The placeholder shown for a working copy with no bookmark.
pub open spec fn no_bookmark() -> Seq<char> {
    "(no bookmark)"@
}

/// A bookmark name without the `*` marks that jj appends to it; none for an empty
/// name or the no-bookmark placeholder.
pub open spec fn bookmark_name(branch: Seq<char>) -> Option<Seq<char>> {
    let name = trim_end_char(branch, '*');
    if name.len() == 0 || name == no_bookmark() {
        None
    } else {
        Some(name)
    }
}

/// Removing the marks once is enough: a bookmark name has no trailing `*`, and reading
/// it again gives it back unchanged.
pub proof fn lemma_bookmark_name_idempotent(branch: Seq<char>)
    ensures
        bookmark_name(branch) matches Some(name) ==> name.last() != '*' && bookmark_name(name)
            == Some(name),
{
    if let Some(name) = bookmark_name(branch) {
        lemma_trim_end_char_no_mark(branch, '*');
        assert(trim_end_char(name, '*') == name);
    }
}

proof fn lemma_trim_end_char_no_mark(s: Seq<char>, c: char)
    ensures
        trim_end_char(s, c).len() > 0 ==> trim_end_char(s, c).last() != c,
    decreases s.len(),
{
    if s.len() > 0 && s.last() == c {
        lemma_trim_end_char_no_mark(s.drop_last(), c);
    }
}

proof fn lemma_trim_end_char_at(s: Seq<char>, c: char, k: int)
    requires
        0 <= k <= s.len(),
        forall|j: int| k <= j < s.len() ==> #[trigger] s[j] == c,
        k > 0 ==> s[k - 1] != c,
    ensures
        trim_end_char(s, c) == s.take(k),
    decreases s.len() - k,
{
    if k == s.len() {
        assert(s.take(k) == s);
    } else {
        lemma_trim_end_char_at(s.drop_last(), c, k);
        assert(s.drop_last().take(k) == s.take(k));
    }
}

/// The bookmark name in `branch` with trailing `*` marks removed, or `None` when that
/// leaves nothing or the `(no bookmark)` placeholder.
pub fn bookmark_name_no_marks(branch: &str) -> (r: Option<&str>)
    ensures
        match r {
            Some(name) => bookmark_name(branch@) == Some(name@),
            None => bookmark_name(branch@) is None,
        },
{
    let v = chars_of(branch);
    let mut e: usize = v.len();
    while e > 0 && v[e - 1] == '*'
        invariant
            e <= v.len(),
            forall|j: int| e <= j < v.len() ==> #[trigger] v@[j] == '*',
        decreases e,
    {
        e = e - 1;
    }
    proof {
        lemma_trim_end_char_at(v@, '*', e as int);
    }
    let placeholder = chars_of("(no bookmark)");
    assert(v@.subrange(0, e as int) == v@.take(e as int));
    if e == 0 || (e == placeholder.len() && matches_at(&v, 0, e, &placeholder)) {
        return None;
    }
    assert(v@.take(e as int) != no_bookmark()) by {
        if v@.take(e as int) == no_bookmark() {
            assert(v@.subrange(0, e as int) == placeholder@);
        }
    }
    Some(branch.substring_char(0, e))
}


/// `jj log -r <revset> --no-graph -T <template>`.
pub open spec fn log_command(revset: Seq<char>, template: Seq<char>) -> (
    Seq<char>,
    Seq<Seq<char>>,
) {
    ("jj"@, seq!["log"@, "-r"@, revset, "--no-graph"@, "-T"@, template])
}

/// The log of the working-copy commit: its bookmarks, then whether it is empty.
pub open spec fn head_log_command() -> (Seq<char>, Seq<Seq<char>>) {
    log_command("@"@, "bookmarks ++ \"\\n\" ++ empty"@)
}

/// The log of the working-copy commit's parent: its bookmarks.
pub open spec fn parent_log_command() -> (Seq<char>, Seq<Seq<char>>) {
    log_command("@-"@, "bookmarks"@)
}

/// `jj status`.
pub open spec fn status_command() -> (Seq<char>, Seq<Seq<char>>) {
    ("jj"@, seq!["status"@])
}

/// `jj bookmark list <bookmark> --all-remotes`.
pub open spec fn list_command(bookmark: Seq<char>) -> (Seq<char>, Seq<Seq<char>>) {
    ("jj"@, seq!["bookmark"@, "list"@, bookmark, "--all-remotes"@])
}

/// `jj git fetch`.
pub open spec fn fetch_command() -> (Seq<char>, Seq<Seq<char>>) {
    ("jj"@, seq!["git"@, "fetch"@])
}

/// The commits of `revset`, one commit id per line.
pub open spec fn count_command(revset: Seq<char>) -> (Seq<char>, Seq<Seq<char>>) {
    ("jj"@, seq!["log"@, "--no-graph"@, "-T"@, "commit_id ++ \"\\n\""@, "-r"@, revset])
}

/// Commits on `bookmark` that its `origin` counterpart does not have.
pub open spec fn ahead_revset(bookmark: Seq<char>) -> Seq<char> {
    bookmark + "@origin.."@ + bookmark
}

/// Commits on the `origin` counterpart of `bookmark` that it does not have.
pub open spec fn behind_revset(bookmark: Seq<char>) -> Seq<char> {
    bookmark + ".."@ + bookmark + "@origin"@
}

pub fn head_log_invocation() -> (inv: Invocation)
    ensures
        inv@ == head_log_command(),
{
    let inv = invocation("jj", &["log", "-r", "@", "--no-graph", "-T", "bookmarks ++ \"\\n\" ++ empty"]);
    assert(inv@.1 =~= head_log_command().1);
    inv
}

pub fn parent_log_invocation() -> (inv: Invocation)
    ensures
        inv@ == parent_log_command(),
{
    let inv = invocation("jj", &["log", "-r", "@-", "--no-graph", "-T", "bookmarks"]);
    assert(inv@.1 =~= parent_log_command().1);
    inv
}

pub fn status_invocation() -> (inv: Invocation)
    ensures
        inv@ == status_command(),
{
    let inv = invocation("jj", &["status"]);
    assert(inv@.1 =~= status_command().1);
    inv
}

pub fn fetch_invocation() -> (inv: Invocation)
    ensures
        inv@ == fetch_command(),
{
    let inv = invocation("jj", &["git", "fetch"]);
    assert(inv@.1 =~= fetch_command().1);
    inv
}

pub fn list_invocation(bookmark: &str) -> (inv: Invocation)
    ensures
        inv@ == list_command(bookmark@),
{
    let mut inv = invocation("jj", &["bookmark", "list"]);
    let ghost a0 = inv.args@;
    let b = String::from_str(bookmark);
    let r = String::from_str("--all-remotes");
    inv.args.push(b);
    inv.args.push(r);
    assert(inv.args@ == a0.push(b).push(r));
    assert(inv@.1 =~= a0.map_values(|a: String| a@).push(b@).push(r@));
    assert(inv@.1 =~= list_command(bookmark@).1);
    inv
}

pub fn count_invocation(revset: String) -> (inv: Invocation)
    ensures
        inv@ == count_command(revset@),
{
    let mut inv = invocation("jj", &["log", "--no-graph", "-T", "commit_id ++ \"\\n\"", "-r"]);
    let ghost a0 = inv.args@;
    let ghost rv = revset@;
    inv.args.push(revset);
    assert(inv@.1 =~= a0.map_values(|a: String| a@).push(rv));
    assert(inv@.1 =~= count_command(rv).1);
    inv
}

/// The standard output of a `jj log` run, or the message of why there is none.
pub open spec fn log_result(outcome: OutcomeView) -> Result<Seq<char>, Seq<char>> {
    match outcome {
        OutcomeView::FailedToStart => Err("failed to run jj log"@),
        OutcomeView::Completed { success, stdout, stderr } => {
            if !success {
                Err("jj log failed: "@ + stderr)
            } else {
                Ok(stdout)
            }
        },
    }
}

/// The standard output of a `jj log` run that succeeded; an error message for one that
/// could not start or failed.
pub fn log_output(outcome: &Outcome) -> (r: Result<String, String>)
    ensures
        match r {
            Ok(out) => log_result(outcome@) == Ok::<Seq<char>, Seq<char>>(out@),
            Err(e) => log_result(outcome@) == Err::<Seq<char>, Seq<char>>(e@),
        },
{
    match outcome {
        Outcome::FailedToStart => Err(String::from_str("failed to run jj log")),
        Outcome::Completed { success, stdout, stderr } => {
            if !*success {
                Err(concatenated("jj log failed: ", stderr.as_str()))
            } else {
                Ok(stdout.clone())
            }
        },
    }
}

/// Line `i` of `ls`, or the empty line when there are fewer lines.
pub open spec fn line_or_empty(ls: Seq<Seq<char>>, i: int) -> Seq<char> {
    if 0 <= i < ls.len() {
        ls[i]
    } else {
        seq![]
    }
}

/// What the log of the working-copy commit says of the current bookmark.
pub enum BookmarkLookup {
    /// The bookmark (or the no-bookmark placeholder) is known.
    Found(String),
    /// The working-copy commit is empty and has no bookmark: its parent's bookmarks decide.
    AskParent,
}

pub enum BookmarkLookupView {
    Found(Seq<char>),
    AskParent,
}

impl View for BookmarkLookup {
    type V = BookmarkLookupView;

    open spec fn view(&self) -> BookmarkLookupView {
        match self {
            BookmarkLookup::Found(b) => BookmarkLookupView::Found(b@),
            BookmarkLookup::AskParent => BookmarkLookupView::AskParent,
        }
    }
}

/// The first line of `head_log` holds the bookmarks of `@`, the second whether `@` is
/// empty (`true`). Bookmarks of `@` win; an empty `@` without bookmarks defers to its
/// parent (the commit the user thinks of as being on); otherwise there is no bookmark.
pub open spec fn head_lookup(head_log: Seq<char>) -> BookmarkLookupView {
    let ls = lines(head_log);
    let bookmarks = trim(line_or_empty(ls, 0));
    let empty = trim(line_or_empty(ls, 1)) == "true"@;
    if bookmarks.len() > 0 {
        BookmarkLookupView::Found(bookmarks)
    } else if empty {
        BookmarkLookupView::AskParent
    } else {
        BookmarkLookupView::Found(no_bookmark())
    }
}

/// Bookmark of the working-copy commit, read from the output of `head_log_command()`.
pub fn current_bookmark(head_log: &str) -> (r: BookmarkLookup)
    ensures
        r@ == head_lookup(head_log@),
{
    let v = chars_of(head_log);
    let spans = line_spans(&v);
    let ghost ls = lines(v@);
    let (a0, b0) = if spans.len() > 0 {
        spans[0]
    } else {
        (0, 0)
    };
    let (a1, b1) = if spans.len() > 1 {
        spans[1]
    } else {
        (0, 0)
    };
    assert(v@.subrange(a0 as int, b0 as int) == line_or_empty(ls, 0));
    assert(v@.subrange(a1 as int, b1 as int) == line_or_empty(ls, 1));
    let (ba, bb) = trim_span(&v, a0, b0);
    if ba < bb {
        return BookmarkLookup::Found(string_of(&v, ba, bb));
    }
    let (ea, eb) = trim_span(&v, a1, b1);
    let t = chars_of("true");
    let empty = eb - ea == t.len() && matches_at(&v, ea, eb, &t);
    assert(v@.subrange(ea as int, eb as int) == "true"@ <==> empty) by {
        if v@.subrange(ea as int, eb as int) == "true"@ {
            assert(v@.subrange(ea as int, eb as int).len() == t@.len());
        }
    }
    if empty {
        BookmarkLookup::AskParent
    } else {
        BookmarkLookup::Found(String::from_str("(no bookmark)"))
    }
}

/// The bookmark of the parent, from the output of `parent_log_command()`.
pub open spec fn parent_lookup(parent_log: Seq<char>) -> Seq<char> {
    if trim(parent_log).len() > 0 {
        trim(parent_log)
    } else {
        no_bookmark()
    }
}

/// Bookmark of the parent commit, read from the output of `parent_log_command()`.
pub fn parent_bookmark(parent_log: &str) -> (r: String)
    ensures
        r@ == parent_lookup(parent_log@),
{
    let t = trimmed(parent_log);
    if t.as_str().unicode_len() > 0 {
        t
    } else {
        String::from_str("(no bookmark)")
    }
}

/// How many of `ls` are not blank.
pub open spec fn nonblank_count(ls: Seq<Seq<char>>) -> nat
    decreases ls.len(),
{
    if ls.len() == 0 {
        0
    } else if trim(ls.last()).len() > 0 {
        nonblank_count(ls.drop_last()) + 1
    } else {
        nonblank_count(ls.drop_last())
    }
}

proof fn lemma_nonblank_count_bound(ls: Seq<Seq<char>>)
    ensures
        nonblank_count(ls) <= ls.len(),
    decreases ls.len(),
{
    if ls.len() > 0 {
        lemma_nonblank_count_bound(ls.drop_last());
    }
}

/// The number of commits listed by `count_command(..)`: its nonblank lines, as a `u32`
/// (the count taken modulo 2^32).
pub fn count_commits(log: &str) -> (n: u32)
    ensures
        n == nonblank_count(lines(log@)) as u32,
{
    let v = chars_of(log);
    let spans = line_spans(&v);
    let ghost ls = lines(v@);
    let mut count: usize = 0;
    let mut i: usize = 0;
    while i < spans.len()
        invariant
            i <= spans.len() == ls.len(),
            forall|k: int|
                0 <= k < spans.len() ==> {
                    &&& (#[trigger] spans[k]).0 <= spans[k].1 <= v.len()
                    &&& v@.subrange(spans[k].0 as int, spans[k].1 as int) == ls[k]
                },
            count == nonblank_count(ls.take(i as int)),
            count <= i,
        decreases spans.len() - i,
    {
        let (a, b) = spans[i];
        let (ta, tb) = trim_span(&v, a, b);
        proof {
            assert(ls.take(i + 1).drop_last() == ls.take(i as int));
            assert(ls.take(i + 1).last() == ls[i as int]);
            lemma_nonblank_count_bound(ls.take(i as int));
        }
        if ta < tb {
            count = count + 1;
        }
        i = i + 1;
    }
    assert(ls.take(ls.len() as int) == ls);
    assert(v@ == log@);
    count as u32
}


/// The marker line that `jj status` prints when the working copy has changes.
pub open spec fn changes_marker() -> Seq<char> {
    "Working copy changes:"@
}

/// Which command's outcome a local check of a jj repository waits for.
pub enum LocalPhase {
    HeadLog,
    ParentLog,
    Status { branch: String },
    Done,
}

pub enum LocalPhaseView {
    HeadLog,
    ParentLog,
    Status { branch: Seq<char> },
    Done,
}

impl View for LocalPhase {
    type V = LocalPhaseView;

    open spec fn view(&self) -> LocalPhaseView {
        match self {
            LocalPhase::HeadLog => LocalPhaseView::HeadLog,
            LocalPhase::ParentLog => LocalPhaseView::ParentLog,
            LocalPhase::Status { branch } => LocalPhaseView::Status { branch: branch@ },
            LocalPhase::Done => LocalPhaseView::Done,
        }
    }
}

/// A local check: the bookmark from the log of `@` (and, where that defers, of `@-`),
/// then `jj status` for whether the working copy has changes. A log or status run that
/// cannot start or fails ends the check with its message.
pub open spec fn local_next(at: LocalPhaseView, outcome: OutcomeView) -> (
    LocalPhaseView,
    StepView<Result<LocalStatusView, Seq<char>>>,
) {
    match at {
        LocalPhaseView::HeadLog => match log_result(outcome) {
            Err(e) => (LocalPhaseView::Done, StepView::Finished(Err(e))),
            Ok(out) => match head_lookup(out) {
                BookmarkLookupView::Found(b) => (
                    LocalPhaseView::Status { branch: b },
                    StepView::Run(status_command()),
                ),
                BookmarkLookupView::AskParent => (
                    LocalPhaseView::ParentLog,
                    StepView::Run(parent_log_command()),
                ),
            },
        },
        LocalPhaseView::ParentLog => match log_result(outcome) {
            Err(e) => (LocalPhaseView::Done, StepView::Finished(Err(e))),
            Ok(out) => (
                LocalPhaseView::Status { branch: parent_lookup(out) },
                StepView::Run(status_command()),
            ),
        },
        LocalPhaseView::Status { branch } => match outcome {
            OutcomeView::FailedToStart => (
                LocalPhaseView::Done,
                StepView::Finished(Err("failed to run jj status"@)),
            ),
            OutcomeView::Completed { success, stdout, stderr } => {
                if !success {
                    (LocalPhaseView::Done, StepView::Finished(Err("jj status failed: "@ + stderr)))
                } else {
                    (
                        LocalPhaseView::Done,
                        StepView::Finished(
                            Ok(
                                LocalStatusView {
                                    branch,
                                    dirty: contains(stdout, changes_marker()),
                                },
                            ),
                        ),
                    )
                }
            },
        },
        LocalPhaseView::Done => (LocalPhaseView::Done, StepView::Finished(Err(seq![]))),
    }
}

/// The first command of a local check.
pub fn local_status() -> (r: (LocalPhase, Invocation))
    ensures
        r.0@ == LocalPhaseView::HeadLog,
        r.1@ == head_log_command(),
{
    (LocalPhase::HeadLog, head_log_invocation())
}

/// The next step of a local check, given the outcome of the command it waited for.
pub fn local_step(at: LocalPhase, outcome: &Outcome) -> (r: (
    LocalPhase,
    Step<Result<LocalStatus, String>>,
))
    requires
        at@ != LocalPhaseView::Done,
    ensures
        (r.0@, local_step_view(r.1)) == local_next(at@, outcome@),
{
    match at {
        LocalPhase::HeadLog => match log_output(outcome) {
            Err(e) => (LocalPhase::Done, Step::Finished(Err(e))),
            Ok(out) => match current_bookmark(out.as_str()) {
                BookmarkLookup::Found(b) => (
                    LocalPhase::Status { branch: b },
                    Step::Run(status_invocation()),
                ),
                BookmarkLookup::AskParent => (LocalPhase::ParentLog, Step::Run(parent_log_invocation())),
            },
        },
        LocalPhase::ParentLog => match log_output(outcome) {
            Err(e) => (LocalPhase::Done, Step::Finished(Err(e))),
            Ok(out) => (
                LocalPhase::Status { branch: parent_bookmark(out.as_str()) },
                Step::Run(status_invocation()),
            ),
        },
        LocalPhase::Status { branch } => match outcome {
            Outcome::FailedToStart => (
                LocalPhase::Done,
                Step::Finished(Err(String::from_str("failed to run jj status"))),
            ),
            Outcome::Completed { success, stdout, stderr } => {
                if !*success {
                    (
                        LocalPhase::Done,
                        Step::Finished(Err(concatenated("jj status failed: ", stderr.as_str()))),
                    )
                } else {
                    let v = chars_of(stdout.as_str());
                    let marker = chars_of("Working copy changes:");
                    let dirty = has_substring(&v, 0, v.len(), &marker);
                    assert(v@.subrange(0, v.len() as int) == v@);
                    (LocalPhase::Done, Step::Finished(Ok(LocalStatus { branch, dirty })))
                }
            },
        },
        LocalPhase::Done => (LocalPhase::Done, Step::Finished(Err(String::new()))),
    }
}

/// Which command's outcome a remote check of a jj repository waits for.
pub enum RemotePhase {
    Local(LocalPhase),
    List { bookmark: String },
    Fetch { bookmark: String },
    Ahead { bookmark: String },
    Behind { bookmark: String, ahead: u32 },
    Done,
}

pub enum RemotePhaseView {
    Local(LocalPhaseView),
    List { bookmark: Seq<char> },
    Fetch { bookmark: Seq<char> },
    Ahead { bookmark: Seq<char> },
    Behind { bookmark: Seq<char>, ahead: u32 },
    Done,
}

impl View for RemotePhase {
    type V = RemotePhaseView;

    open spec fn view(&self) -> RemotePhaseView {
        match self {
            RemotePhase::Local(l) => RemotePhaseView::Local(l@),
            RemotePhase::List { bookmark } => RemotePhaseView::List { bookmark: bookmark@ },
            RemotePhase::Fetch { bookmark } => RemotePhaseView::Fetch { bookmark: bookmark@ },
            RemotePhase::Ahead { bookmark } => RemotePhaseView::Ahead { bookmark: bookmark@ },
            RemotePhase::Behind { bookmark, ahead } => RemotePhaseView::Behind {
                bookmark: bookmark@,
                ahead: *ahead,
            },
            RemotePhase::Done => RemotePhaseView::Done,
        }
    }
}

/// A remote check still has a command to wait for.
pub open spec fn remote_live(at: RemotePhaseView) -> bool {
    match at {
        RemotePhaseView::Local(l) => l != LocalPhaseView::Done,
        RemotePhaseView::Done => false,
        _ => true,
    }
}

/// A remote check: first the local check (whose error ends it); a working copy without
/// a bookmark has no upstream; neither has a bookmark that `jj bookmark list` shows
/// without an `@origin` counterpart, or as not created yet there. Otherwise `jj git
/// fetch`, then the commits only on the bookmark and only on `<bookmark>@origin` decide.
pub open spec fn remote_next(at: RemotePhaseView, outcome: OutcomeView) -> (
    RemotePhaseView,
    StepView<RemoteStateView>,
) {
    match at {
        RemotePhaseView::Local(l) => {
            let (l2, step) = local_next(l, outcome);
            match step {
                StepView::Run(c) => (RemotePhaseView::Local(l2), StepView::Run(c)),
                StepView::Finished(Err(e)) => (
                    RemotePhaseView::Done,
                    StepView::Finished(RemoteStateView::Error(e)),
                ),
                StepView::Finished(Ok(local)) => match bookmark_name(local.branch) {
                    None => (RemotePhaseView::Done, StepView::Finished(RemoteStateView::NoUpstream)),
                    Some(b) => (
                        RemotePhaseView::List { bookmark: b },
                        StepView::Run(list_command(b)),
                    ),
                },
            }
        },
        RemotePhaseView::List { bookmark } => match outcome {
            OutcomeView::FailedToStart => (
                RemotePhaseView::Done,
                StepView::Finished(RemoteStateView::Error("failed to run jj bookmark list"@)),
            ),
            OutcomeView::Completed { stdout, .. } => {
                if !contains(stdout, "@origin"@) || contains(stdout, "(not created yet)"@) {
                    (RemotePhaseView::Done, StepView::Finished(RemoteStateView::NoUpstream))
                } else {
                    (RemotePhaseView::Fetch { bookmark }, StepView::Run(fetch_command()))
                }
            },
        },
        RemotePhaseView::Fetch { bookmark } => match outcome {
            OutcomeView::FailedToStart => (
                RemotePhaseView::Done,
                StepView::Finished(RemoteStateView::Error("failed to run jj git fetch"@)),
            ),
            OutcomeView::Completed { success, stderr, .. } => {
                if !success {
                    (RemotePhaseView::Done, StepView::Finished(RemoteStateView::Error(trim(stderr))))
                } else {
                    (
                        RemotePhaseView::Ahead { bookmark },
                        StepView::Run(count_command(ahead_revset(bookmark))),
                    )
                }
            },
        },
        RemotePhaseView::Ahead { bookmark } => match log_result(outcome) {
            Err(e) => (RemotePhaseView::Done, StepView::Finished(RemoteStateView::Error(e))),
            Ok(out) => (
                RemotePhaseView::Behind { bookmark, ahead: nonblank_count(lines(out)) as u32 },
                StepView::Run(count_command(behind_revset(bookmark))),
            ),
        },
        RemotePhaseView::Behind { bookmark, ahead } => match log_result(outcome) {
            Err(e) => (RemotePhaseView::Done, StepView::Finished(RemoteStateView::Error(e))),
            Ok(out) => (
                RemotePhaseView::Done,
                StepView::Finished(compare_counts(ahead, nonblank_count(lines(out)) as u32)),
            ),
        },
        RemotePhaseView::Done => (RemotePhaseView::Done, StepView::Finished(RemoteStateView::NoUpstream)),
    }
}

/// The first command of a remote check.
pub fn remote_status() -> (r: (RemotePhase, Invocation))
    ensures
        r.0@ == RemotePhaseView::Local(LocalPhaseView::HeadLog),
        r.1@ == head_log_command(),
{
    let (l, inv) = local_status();
    (RemotePhase::Local(l), inv)
}

/// The next step of a remote check, given the outcome of the command it waited for.
pub fn remote_step(at: RemotePhase, outcome: &Outcome) -> (r: (RemotePhase, Step<RemoteState>))
    requires
        remote_live(at@),
    ensures
        (r.0@, r.1@) == remote_next(at@, outcome@),
{
    match at {
        RemotePhase::Local(l) => {
            let (l2, step) = local_step(l, outcome);
            match step {
                Step::Run(c) => (RemotePhase::Local(l2), Step::Run(c)),
                Step::Finished(Err(e)) => (RemotePhase::Done, Step::Finished(RemoteState::Error(e))),
                Step::Finished(Ok(local)) => match bookmark_name_no_marks(local.branch.as_str()) {
                    None => (RemotePhase::Done, Step::Finished(RemoteState::NoUpstream)),
                    Some(b) => (
                        RemotePhase::List { bookmark: String::from_str(b) },
                        Step::Run(list_invocation(b)),
                    ),
                },
            }
        },
        RemotePhase::List { bookmark } => match outcome {
            Outcome::FailedToStart => (
                RemotePhase::Done,
                Step::Finished(RemoteState::Error(String::from_str("failed to run jj bookmark list"))),
            ),
            Outcome::Completed { stdout, .. } => {
                let v = chars_of(stdout.as_str());
                let origin = chars_of("@origin");
                let not_created = chars_of("(not created yet)");
                assert(v@.subrange(0, v.len() as int) == v@);
                if !has_substring(&v, 0, v.len(), &origin) || has_substring(
                    &v,
                    0,
                    v.len(),
                    &not_created,
                ) {
                    (RemotePhase::Done, Step::Finished(RemoteState::NoUpstream))
                } else {
                    (RemotePhase::Fetch { bookmark }, Step::Run(fetch_invocation()))
                }
            },
        },
        RemotePhase::Fetch { bookmark } => match outcome {
            Outcome::FailedToStart => (
                RemotePhase::Done,
                Step::Finished(RemoteState::Error(String::from_str("failed to run jj git fetch"))),
            ),
            Outcome::Completed { success, stderr, .. } => {
                if !*success {
                    (RemotePhase::Done, Step::Finished(RemoteState::Error(trimmed(stderr.as_str()))))
                } else {
                    let mut revset = concatenated(bookmark.as_str(), "@origin..");
                    revset.append(bookmark.as_str());
                    (RemotePhase::Ahead { bookmark }, Step::Run(count_invocation(revset)))
                }
            },
        },
        RemotePhase::Ahead { bookmark } => match log_output(outcome) {
            Err(e) => (RemotePhase::Done, Step::Finished(RemoteState::Error(e))),
            Ok(out) => {
                let ahead = count_commits(out.as_str());
                let mut revset = concatenated(bookmark.as_str(), "..");
                revset.append(bookmark.as_str());
                revset.append("@origin");
                (RemotePhase::Behind { bookmark, ahead }, Step::Run(count_invocation(revset)))
            },
        },
        RemotePhase::Behind { bookmark, ahead } => match log_output(outcome) {
            Err(e) => (RemotePhase::Done, Step::Finished(RemoteState::Error(e))),
            Ok(out) => {
                let behind = count_commits(out.as_str());
                (RemotePhase::Done, Step::Finished(compare(ahead, behind)))
            },
        },
        RemotePhase::Done => (RemotePhase::Done, Step::Finished(RemoteState::NoUpstream)),
    }
}


/// How many commands a local check may still wait for.
pub open spec fn local_rank(at: LocalPhaseView) -> nat {
    match at {
        LocalPhaseView::HeadLog => 3,
        LocalPhaseView::ParentLog => 2,
        LocalPhaseView::Status { .. } => 1,
        LocalPhaseView::Done => 0,
    }
}

/// How many commands a remote check may still wait for.
pub open spec fn remote_rank(at: RemotePhaseView) -> nat {
    match at {
        RemotePhaseView::Local(l) => 4 + local_rank(l),
        RemotePhaseView::List { .. } => 4,
        RemotePhaseView::Fetch { .. } => 3,
        RemotePhaseView::Ahead { .. } => 2,
        RemotePhaseView::Behind { .. } => 1,
        RemotePhaseView::Done => 0,
    }
}

/// Every local check ends: each step finishes it, or asks for another command with
/// fewer to go.
pub proof fn lemma_local_check_ends(at: LocalPhaseView, outcome: OutcomeView)
    requires
        at != LocalPhaseView::Done,
    ensures
        ({
            let (at2, step) = local_next(at, outcome);
            match step {
                StepView::Run(_) => at2 != LocalPhaseView::Done && local_rank(at2) < local_rank(at),
                StepView::Finished(_) => at2 == LocalPhaseView::Done,
            }
        }),
{
}

/// Every remote check ends: each step finishes it, or asks for another command with
/// fewer to go.
pub proof fn lemma_remote_check_ends(at: RemotePhaseView, outcome: OutcomeView)
    requires
        remote_live(at),
    ensures
        ({
            let (at2, step) = remote_next(at, outcome);
            match step {
                StepView::Run(_) => remote_live(at2) && remote_rank(at2) < remote_rank(at),
                StepView::Finished(_) => !remote_live(at2),
            }
        }),
{
    if let RemotePhaseView::Local(l) = at {
        lemma_local_check_ends(l, outcome);
    }
}

/// Only a bookmark with an `origin` counterpart is fetched: the fetch comes right after
/// the bookmark listing, and only when that listing shows `@origin` and does not say the
/// bookmark is not created yet.
pub proof fn lemma_fetch_needs_origin(at: RemotePhaseView, outcome: OutcomeView)
    requires
        remote_live(at),
        remote_next(at, outcome).1 == StepView::<RemoteStateView>::Run(fetch_command()),
    ensures
        at is List,
        outcome matches OutcomeView::Completed { stdout, .. } && contains(stdout, "@origin"@)
            && !contains(stdout, "(not created yet)"@),
{
    reveal_strlit("jj");
    reveal_strlit("log");
    reveal_strlit("status");
    reveal_strlit("bookmark");
    reveal_strlit("git");
    assert("git"@[0] == 'g' && "log"@[0] == 'l' && "status"@[0] == 's' && "bookmark"@[0] == 'b');
    match at {
        RemotePhaseView::Local(l) => {
            let (l2, step) = local_next(l, outcome);
            match step {
                StepView::Run(c) => {
                    assert(c.1[0][0] != fetch_command().1[0][0]);
                },
                StepView::Finished(Err(e)) => {},
                StepView::Finished(Ok(local)) => {
                    if let Some(b) = bookmark_name(local.branch) {
                        assert(list_command(b).1[0][0] != fetch_command().1[0][0]);
                    }
                },
            }
        },
        RemotePhaseView::Fetch { bookmark } => {
            assert(count_command(ahead_revset(bookmark)).1[0][0] != fetch_command().1[0][0]);
        },
        RemotePhaseView::Ahead { bookmark } => {
            assert(count_command(behind_revset(bookmark)).1[0][0] != fetch_command().1[0][0]);
        },
        _ => {},
    }
}

/// A bookmark that the listing shows with an `@origin` counterpart is fetched: output
/// holding `@origin` anywhere (as in `@origin: ...`, or `@origin (ahead by 1 commits): ...`
/// when the two differ) and not saying `(not created yet)` leads straight to `jj git
/// fetch`; any other listing ends the check with no upstream.
pub proof fn lemma_listed_origin_is_fetched(
    bookmark: Seq<char>,
    pre: Seq<char>,
    post: Seq<char>,
    success: bool,
    stdout: Seq<char>,
    stderr: Seq<char>,
)
    ensures
        !contains(pre + "@origin"@ + post, "(not created yet)"@) ==> remote_next(
            RemotePhaseView::List { bookmark },
            (OutcomeView::Completed { success, stdout: pre + "@origin"@ + post, stderr }),
        ) == (
            RemotePhaseView::Fetch { bookmark },
            StepView::<RemoteStateView>::Run(("jj"@, seq!["git"@, "fetch"@])),
        ),
        !contains(stdout, "@origin"@) || contains(stdout, "(not created yet)"@) ==> remote_next(
            RemotePhaseView::List { bookmark },
            (OutcomeView::Completed { success, stdout, stderr }),
        ) == (RemotePhaseView::Done, StepView::Finished(RemoteStateView::NoUpstream)),
{
    let listing = pre + "@origin"@ + post;
    let k = pre.len() as int;
    assert(listing.subrange(k, k + "@origin"@.len()) == "@origin"@);
    assert(contains(listing, "@origin"@));
}

/// A `jj status` that succeeds makes the working copy dirty exactly when its output
/// holds the marker `Working copy changes:` somewhere; other lines that speak of the
/// working copy (`The working copy has no changes.`, `Working copy  (@) : ...`) leave it
/// clean. The bookmark found before is kept.
pub proof fn lemma_status_dirty_iff_marker(branch: Seq<char>, stdout: Seq<char>, stderr: Seq<char>)
    ensures
        local_next(
            LocalPhaseView::Status { branch },
            (OutcomeView::Completed { success: true, stdout, stderr }),
        ) == (
            LocalPhaseView::Done,
            StepView::<Result<LocalStatusView, Seq<char>>>::Finished(
                Ok(
                    (LocalStatusView {
                        branch,
                        dirty: contains(stdout, "Working copy changes:"@),
                    }),
                ),
            ),
        ),
{
}

/// A `jj git fetch` that fails ends the check with its trimmed error output and runs
/// nothing more; commits are only counted after a fetch that succeeded, first those of
/// `<bookmark>@origin..<bookmark>`.
pub proof fn lemma_counting_needs_fetch(
    bookmark: Seq<char>,
    stdout: Seq<char>,
    stderr: Seq<char>,
    at: RemotePhaseView,
    outcome: OutcomeView,
)
    requires
        remote_live(at),
    ensures
        remote_next(
            RemotePhaseView::Fetch { bookmark },
            (OutcomeView::Completed { success: false, stdout, stderr }),
        ) == (RemotePhaseView::Done, StepView::Finished(RemoteStateView::Error(trim(stderr)))),
        remote_next(at, outcome).0 is Ahead ==> {
            &&& at is Fetch
            &&& outcome == (OutcomeView::Completed {
                success: true,
                stdout: outcome->stdout,
                stderr: outcome->stderr,
            })
            &&& remote_next(at, outcome) == (
                RemotePhaseView::Ahead { bookmark: at->Fetch_bookmark },
                StepView::<RemoteStateView>::Run(
                    count_command(at->Fetch_bookmark + "@origin.."@ + at->Fetch_bookmark),
                ),
            )
        },
{
}

/// A nonempty run of characters none of which is whitespace (a bookmark list or a
/// commit id as jj prints them).
pub open spec fn is_word(w: Seq<char>) -> bool {
    w.len() > 0 && forall|j: int| 0 <= j < w.len() ==> !is_whitespace(#[trigger] w[j])
}

proof fn lemma_word_line(w: Seq<char>)
    requires
        is_word(w),
    ensures
        trim(w) == w,
{
    assert(!is_whitespace(w[0]));
    assert(!is_whitespace(w[w.len() - 1]));
    assert(trim_start(w) == w);
    assert(trim_end(w) == w);
}

/// The `*` marks that jj puts after a bookmark it has changed locally are dropped, however
/// many: a working copy on `<name>***` lists `<name>` against its remotes. Marks alone,
/// or the `(no bookmark)` placeholder (marked or not), name no bookmark, and the check
/// ends there with no upstream.
pub proof fn lemma_marks_dropped(name: Seq<char>, k: nat, stdout: Seq<char>, stderr: Seq<char>)
    requires
        name.len() > 0,
        name.last() != '*',
        name != "(no bookmark)"@,
    ensures
        bookmark_name(name + Seq::new(k, |_i: int| '*')) == Some(name),
        bookmark_name(Seq::new(k, |_i: int| '*')) is None,
        bookmark_name("(no bookmark)"@ + Seq::new(k, |_i: int| '*')) is None,
        remote_next(
            RemotePhaseView::Local(
                LocalPhaseView::Status { branch: name + Seq::new(k, |_i: int| '*') },
            ),
            (OutcomeView::Completed { success: true, stdout, stderr }),
        ) == (
            RemotePhaseView::List { bookmark: name },
            StepView::<RemoteStateView>::Run(("jj"@, seq!["bookmark"@, "list"@, name, "--all-remotes"@])),
        ),
        remote_next(
            RemotePhaseView::Local(LocalPhaseView::Status { branch: "(no bookmark)"@ }),
            (OutcomeView::Completed { success: true, stdout, stderr }),
        ) == (RemotePhaseView::Done, StepView::Finished(RemoteStateView::NoUpstream)),
{
    reveal_strlit("(no bookmark)");
    let stars = Seq::new(k, |_i: int| '*');
    let s = name + stars;
    lemma_trim_end_char_at(s, '*', name.len() as int);
    assert(s.take(name.len() as int) == name);
    lemma_trim_end_char_at(stars, '*', 0);
    assert(stars.take(0) == Seq::<char>::empty());
    let p = "(no bookmark)"@ + stars;
    lemma_trim_end_char_at(p, '*', 13);
    assert(p.take(13) == "(no bookmark)"@);
    lemma_trim_end_char_at("(no bookmark)"@, '*', 13);
    assert("(no bookmark)"@.take(13) == "(no bookmark)"@);
}

/// Bookmarks on the first line of the log of `@` are the bookmark, whatever the second
/// line says; with none there, the check asks for the parent's bookmarks exactly when the
/// second line reads `true` (an empty `@`), and is on no bookmark otherwise.
pub proof fn lemma_head_log_decides(bookmarks: Seq<char>, e: Seq<char>, stderr: Seq<char>)
    requires
        bookmarks.len() > 0,
        !is_whitespace(bookmarks[0]),
        !is_whitespace(bookmarks.last()),
        forall|j: int| 0 <= j < bookmarks.len() ==> bookmarks[j] != '\n',
        forall|j: int| 0 <= j < e.len() ==> e[j] != '\n',
        e.len() == 0 || e.last() != '\r',
    ensures
        local_next(
            LocalPhaseView::HeadLog,
            (OutcomeView::Completed { success: true, stdout: bookmarks + "\n"@ + e + "\n"@, stderr }),
        ) == (
            LocalPhaseView::Status { branch: bookmarks },
            StepView::<Result<LocalStatusView, Seq<char>>>::Run(status_command()),
        ),
        local_next(
            LocalPhaseView::HeadLog,
            (OutcomeView::Completed { success: true, stdout: "\n"@ + e + "\n"@, stderr }),
        ) == (if trim(e) == "true"@ {
            (
                LocalPhaseView::ParentLog,
                StepView::<Result<LocalStatusView, Seq<char>>>::Run(parent_log_command()),
            )
        } else {
            (
                LocalPhaseView::Status { branch: "(no bookmark)"@ },
                StepView::<Result<LocalStatusView, Seq<char>>>::Run(status_command()),
            )
        }),
{
    reveal_strlit("\n");
    let b = bookmarks;
    let qb = b + "\n"@;
    let qe = e + "\n"@;
    assert(!is_whitespace(b[0]));
    assert(!is_whitespace(b[b.len() - 1]));
    assert(trim_start(b) == b);
    assert(trim_end(b) == b);
    assert forall|j: int| 0 <= j < qb.len() - 1 implies qb[j] != '\n' by {
        assert(qb[j] == b[j]);
    }
    lemma_lines_one_terminated(qb);
    assert(qb.drop_last() == b);
    assert forall|j: int| 0 <= j < qe.len() - 1 implies qe[j] != '\n' by {
        assert(qe[j] == e[j]);
    }
    lemma_lines_one_terminated(qe);
    assert(qe.drop_last() == e);
    assert(strip_cr(e) == e);
    lemma_lines_concat(qb, qe);
    assert(b + "\n"@ + e + "\n"@ == qb + qe);
    assert(lines(qb + qe) == seq![b, e]);
    let nl = "\n"@;
    assert(nl.len() == 1 && nl[0] == '\n');
    lemma_lines_one_terminated(nl);
    assert(nl.drop_last() == Seq::<char>::empty());
    assert(strip_cr(Seq::<char>::empty()) == Seq::<char>::empty());
    lemma_lines_concat(nl, qe);
    assert("\n"@ + e + "\n"@ == nl + qe);
    assert(lines(nl + qe) == seq![Seq::<char>::empty(), e]);
    assert(trim_start(Seq::<char>::empty()) == Seq::<char>::empty());
}

/// The parent's bookmarks, as the log of `@-` prints them, are the bookmark; a log with
/// nothing but whitespace means no bookmark.
pub proof fn lemma_parent_log_decides(bookmarks: Seq<char>, blank: Seq<char>, stderr: Seq<char>)
    requires
        bookmarks.len() > 0,
        !is_whitespace(bookmarks[0]),
        !is_whitespace(bookmarks.last()),
        forall|j: int| 0 <= j < blank.len() ==> is_whitespace(#[trigger] blank[j]),
    ensures
        local_next(
            LocalPhaseView::ParentLog,
            (OutcomeView::Completed { success: true, stdout: bookmarks + "\n"@, stderr }),
        ) == (
            LocalPhaseView::Status { branch: bookmarks },
            StepView::<Result<LocalStatusView, Seq<char>>>::Run(status_command()),
        ),
        local_next(
            LocalPhaseView::ParentLog,
            (OutcomeView::Completed { success: true, stdout: blank, stderr }),
        ) == (
            LocalPhaseView::Status { branch: "(no bookmark)"@ },
            StepView::<Result<LocalStatusView, Seq<char>>>::Run(status_command()),
        ),
{
    reveal_strlit("\n");
    let b = bookmarks;
    let q = b + "\n"@;
    assert(q[0] == b[0]);
    assert(trim_start(q) == q);
    assert(q.last() == '\n');
    assert(q.drop_last() == b);
    assert(trim_end(q) == trim_end(b));
    assert(trim_end(b) == b);
    lemma_trim_start_at(blank, blank.len() as int);
    assert(blank.skip(blank.len() as int) == Seq::<char>::empty());
}

proof fn lemma_words_nonblank(ids: Seq<Seq<char>>)
    requires
        forall|i: int| 0 <= i < ids.len() ==> is_word(#[trigger] ids[i]),
    ensures
        nonblank_count(ids) == ids.len(),
    decreases ids.len(),
{
    if ids.len() > 0 {
        let rest = ids.drop_last();
        assert forall|i: int| 0 <= i < rest.len() implies is_word(#[trigger] rest[i]) by {
            assert(rest[i] == ids[i]);
        }
        lemma_words_nonblank(rest);
        let w = ids[ids.len() - 1];
        lemma_word_line(w);
    }
}

/// Each commit id that the count command prints (one per line) counts once: a log of
/// `n` ids makes `n` the ahead count, then asks for `<bookmark>..<bookmark>@origin`;
/// there, `n` ids make `n` the behind count, which with the ahead count decides the state.
pub proof fn lemma_commits_are_counted(
    bookmark: Seq<char>,
    ahead: u32,
    ids: Seq<Seq<char>>,
    stderr: Seq<char>,
)
    requires
        forall|i: int| 0 <= i < ids.len() ==> is_word(#[trigger] ids[i]),
        ids.len() <= u32::MAX,
    ensures
        remote_next(
            RemotePhaseView::Ahead { bookmark },
            (OutcomeView::Completed { success: true, stdout: joined_lines(ids), stderr }),
        ) == (
            RemotePhaseView::Behind { bookmark, ahead: ids.len() as u32 },
            StepView::<RemoteStateView>::Run(
                count_command(bookmark + ".."@ + bookmark + "@origin"@),
            ),
        ),
        remote_next(
            RemotePhaseView::Behind { bookmark, ahead },
            (OutcomeView::Completed { success: true, stdout: joined_lines(ids), stderr }),
        ) == (
            RemotePhaseView::Done,
            StepView::Finished(compare_counts(ahead, ids.len() as u32)),
        ),
{
    lemma_joined_lines(ids);
    lemma_words_nonblank(ids);
}

} // verus!
