//! git: reading `git status --porcelain=v2 --branch`.

use vstd::prelude::*;
use crate::vcs::{
    compare, compare_counts, invocation, local_result_view, Invocation, LocalStatus,
    LocalStatusView, Outcome, OutcomeView, RemoteState, RemoteStateView, Step, StepView,
};
use crate::text::{
    chars_of, has_prefix, line_spans, lines, parse_u32_or_zero, parse_u32_span, starts_with,
    string_of, trim, trimmed, concatenated, word_spans, words, strip_cr, decimal,
    lemma_lines_concat, lemma_lines_one_terminated, lemma_decimal_reads_back, lemma_two_words,
    is_digit, is_whitespace, is_line, joined_lines, lemma_joined_lines,
};

verus! {

/// What `git status --porcelain=v2 --branch` says of the current branch.
pub struct PorcelainBranch {
    pub head: String,
    pub has_upstream: bool,
    pub ahead: u32,
    pub behind: u32,
    pub dirty: bool,
}

/// `PorcelainBranch` with the branch name as a character sequence.
pub struct PorcelainView {
    pub head: Seq<char>,
    pub has_upstream: bool,
    pub ahead: u32,
    pub behind: u32,
    pub dirty: bool,
}

impl View for PorcelainBranch {
    type V = PorcelainView;

    open spec fn view(&self) -> PorcelainView {
        PorcelainView {
            head: self.head@,
            has_upstream: self.has_upstream,
            ahead: self.ahead,
            behind: self.behind,
            dirty: self.dirty,
        }
    }
}

pub open spec fn head_prefix() -> Seq<char> {
    "# branch.head "@
}

pub open spec fn upstream_prefix() -> Seq<char> {
    "# branch.upstream "@
}

pub open spec fn ab_prefix() -> Seq<char> {
    "# branch.ab "@
}

/// The branch named by the last `# branch.head` line, `HEAD` when there is none.
pub open spec fn head_of(ls: Seq<Seq<char>>) -> Seq<char>
    decreases ls.len(),
{
    if ls.len() == 0 {
        "HEAD"@
    } else if starts_with(ls.last(), head_prefix()) {
        ls.last().skip(head_prefix().len() as int)
    } else {
        head_of(ls.drop_last())
    }
}

/// Some line is a `# branch.upstream` line.
pub open spec fn names_upstream(ls: Seq<Seq<char>>) -> bool {
    exists|i: int| 0 <= i < ls.len() && starts_with(#[trigger] ls[i], upstream_prefix())
}

/// Some line is not a header line (does not begin with `#`): a changed or untracked entry.
pub open spec fn lists_change(ls: Seq<Seq<char>>) -> bool {
    exists|i: int| 0 <= i < ls.len() && !starts_with(#[trigger] ls[i], "#"@)
}

/// The words of all `# branch.ab` lines, in order.
pub open spec fn ab_words(ls: Seq<Seq<char>>) -> Seq<Seq<char>>
    decreases ls.len(),
{
    if ls.len() == 0 {
        seq![]
    } else if starts_with(ls.last(), ab_prefix()) {
        ab_words(ls.drop_last()) + words(ls.last().skip(ab_prefix().len() as int))
    } else {
        ab_words(ls.drop_last())
    }
}

/// The count of the last word that begins with `sign` (the number after it, 0 where it
/// does not read as a `u32`), 0 when no word does.
pub open spec fn last_count(ws: Seq<Seq<char>>, sign: char) -> u32
    decreases ws.len(),
{
    if ws.len() == 0 {
        0
    } else if ws.last().len() > 0 && ws.last()[0] == sign {
        parse_u32_or_zero(ws.last().drop_first())
    } else {
        last_count(ws.drop_last(), sign)
    }
}

/// What `git status --porcelain=v2 --branch` output says, read line by line.
pub open spec fn porcelain(output: Seq<char>) -> PorcelainView {
    let ls = lines(output);
    PorcelainView {
        head: head_of(ls),
        has_upstream: names_upstream(ls),
        ahead: last_count(ab_words(ls), '+'),
        behind: last_count(ab_words(ls), '-'),
        dirty: lists_change(ls),
    }
}


proof fn lemma_prefix_char(l: Seq<char>, p: Seq<char>, k: int)
    requires
        starts_with(l, p),
        0 <= k < p.len(),
    ensures
        l[k] == p[k],
{
    assert(l.take(p.len() as int)[k] == l[k]);
}

/// The header prefixes tell one another apart, and each begins with `#`.
proof fn lemma_header_prefixes(l: Seq<char>)
    ensures
        starts_with(l, head_prefix()) ==> !starts_with(l, upstream_prefix()) && !starts_with(
            l,
            ab_prefix(),
        ) && starts_with(l, "#"@),
        starts_with(l, upstream_prefix()) ==> !starts_with(l, ab_prefix()) && starts_with(l, "#"@),
        starts_with(l, ab_prefix()) ==> starts_with(l, "#"@),
{
    reveal_strlit("# branch.head ");
    reveal_strlit("# branch.upstream ");
    reveal_strlit("# branch.ab ");
    reveal_strlit("#");
    if starts_with(l, head_prefix()) {
        lemma_prefix_char(l, head_prefix(), 9);
        lemma_prefix_char(l, head_prefix(), 0);
        assert(l.take(1) =~= "#"@);
    }
    if starts_with(l, upstream_prefix()) {
        lemma_prefix_char(l, upstream_prefix(), 9);
        lemma_prefix_char(l, upstream_prefix(), 0);
        assert(l.take(1) =~= "#"@);
    }
    if starts_with(l, ab_prefix()) {
        lemma_prefix_char(l, ab_prefix(), 9);
        lemma_prefix_char(l, ab_prefix(), 0);
        assert(l.take(1) =~= "#"@);
    }
    if starts_with(l, upstream_prefix()) && starts_with(l, ab_prefix()) {
        lemma_prefix_char(l, ab_prefix(), 9);
    }
}

/// Reads the output of `git status --porcelain=v2 --branch`: the branch from the last
/// `# branch.head` line (`HEAD` when there is none), whether a `# branch.upstream` line
/// is present, the `+ahead -behind` counts from `# branch.ab` lines (0 where a count does
/// not read as a number), and whether any entry line (one not beginning with `#`) lists
/// a change.
pub fn parse_porcelain(output: &str) -> (p: PorcelainBranch)
    ensures
        p@ == porcelain(output@),
{
    let v = chars_of(output);
    let spans = line_spans(&v);
    let head_p = chars_of("# branch.head ");
    let up_p = chars_of("# branch.upstream ");
    let ab_p = chars_of("# branch.ab ");
    let hash = chars_of("#");
    let ghost ls = lines(v@);

    let mut head = String::from_str("HEAD");
    let mut has_upstream = false;
    let mut ahead: u32 = 0;
    let mut behind: u32 = 0;
    let mut dirty = false;

    let mut i: usize = 0;
    assert(ls.take(0) =~= Seq::<Seq<char>>::empty());
    while i < spans.len()
        invariant
            v@ == output@,
            ls == lines(v@),
            head_p@ == head_prefix(),
            up_p@ == upstream_prefix(),
            ab_p@ == ab_prefix(),
            hash@ == "#"@,
            i <= spans.len() == ls.len(),
            forall|k: int|
                0 <= k < spans.len() ==> {
                    &&& (#[trigger] spans[k]).0 <= spans[k].1 <= v.len()
                    &&& v@.subrange(spans[k].0 as int, spans[k].1 as int) == ls[k]
                },
            head@ == head_of(ls.take(i as int)),
            has_upstream == names_upstream(ls.take(i as int)),
            ahead == last_count(ab_words(ls.take(i as int)), '+'),
            behind == last_count(ab_words(ls.take(i as int)), '-'),
            dirty == lists_change(ls.take(i as int)),
        decreases spans.len() - i,
    {
        let (a, b) = spans[i];
        let ghost line = ls[i as int];
        let ghost pre = ls.take(i as int);
        let ghost next = ls.take(i + 1);
        proof {
            assert(next.drop_last() == pre);
            assert(next.last() == line);
            assert(line == v@.subrange(a as int, b as int));
            lemma_header_prefixes(line);
            assert forall|k: int| 0 <= k < i implies #[trigger] next[k] == pre[k] by {}
            assert(next[i as int] == line);
        }
        if has_prefix(&v, a, b, &head_p) {
            head = string_of(&v, a + head_p.len(), b);
            assert(line.skip(head_p.len() as int) == v@.subrange(a + head_p.len(), b as int));
        } else if has_prefix(&v, a, b, &up_p) {
            has_upstream = true;
        } else if has_prefix(&v, a, b, &ab_p) {
            let start: usize = a + ab_p.len();
            let ws = word_spans(&v, start, b);
            let ghost rest = v@.subrange(start as int, b as int);
            assert(rest == line.skip(ab_p.len() as int));
            let ghost base = ab_words(pre);
            let mut j: usize = 0;
            assert(words(rest).take(0) =~= Seq::<Seq<char>>::empty());
            assert(base + words(rest).take(0) =~= base);
            while j < ws.len()
                invariant
                    j <= ws.len() == words(rest).len(),
                    rest == v@.subrange(start as int, b as int),
                    forall|k: int|
                        0 <= k < ws.len() ==> {
                            &&& (#[trigger] ws[k]).0 <= ws[k].1 <= v.len()
                            &&& v@.subrange(ws[k].0 as int, ws[k].1 as int) == words(rest)[k]
                        },
                    ahead == last_count(base + words(rest).take(j as int), '+'),
                    behind == last_count(base + words(rest).take(j as int), '-'),
                decreases ws.len() - j,
            {
                let (c, d) = ws[j];
                let ghost w = words(rest)[j as int];
                proof {
                    let all = base + words(rest).take(j + 1);
                    assert(all.drop_last() == base + words(rest).take(j as int));
                    assert(all.last() == w);
                    assert(w == v@.subrange(c as int, d as int));
                    assert(d > c ==> w.drop_first() == v@.subrange(c + 1, d as int));
                }
                if d > c && v[c] == '+' {
                    ahead = match parse_u32_span(&v, c + 1, d) {
                        Some(n) => n,
                        None => 0,
                    };
                } else if d > c && v[c] == '-' {
                    behind = match parse_u32_span(&v, c + 1, d) {
                        Some(n) => n,
                        None => 0,
                    };
                }
                j = j + 1;
            }
            assert(words(rest).take(ws.len() as int) == words(rest));
        } else if !has_prefix(&v, a, b, &hash) {
            dirty = true;
        }
        i = i + 1;
    }
    assert(ls.take(ls.len() as int) == ls);
    PorcelainBranch { head, has_upstream, ahead, behind, dirty }
}


/// The branch is the whole rest of the last `# branch.head ` line, slashes and all:
/// whatever came before that line, output ending in `# branch.head <n>` and a line break
/// reads as branch `n` (for `n` without a line break, and not ending in a carriage return,
/// which a line break after it would absorb).
pub proof fn lemma_head_is_rest_of_line(before: Seq<char>, n: Seq<char>)
    requires
        before.len() == 0 || before.last() == '\n',
        forall|j: int| 0 <= j < n.len() ==> n[j] != '\n',
        n.len() == 0 || n.last() != '\r',
    ensures
        porcelain(before + "# branch.head "@ + n + "\n"@).head == n,
{
    reveal_strlit("# branch.head ");
    reveal_strlit("\n");
    let line = "# branch.head "@ + n;
    let q = line + "\n"@;
    assert(before + "# branch.head "@ + n + "\n"@ == before + q);
    assert forall|j: int| 0 <= j < q.len() - 1 implies q[j] != '\n' by {
        if j >= 14 {
            assert(q[j] == n[j - 14]);
        }
    }
    lemma_lines_one_terminated(q);
    assert(q.drop_last() == line);
    assert(strip_cr(line) == line);
    lemma_lines_concat(before, q);
    let ls = lines(before + q);
    assert(ls == lines(before) + seq![line]);
    assert(ls.last() == line);
    assert(line.take(14) == head_prefix());
    assert(line.skip(14) == n);
}

/// A `# branch.ab +<a> -<b>` line gives the ahead count `a` and the behind count `b`;
/// as the last line of the output, it decides them whatever came before.
pub proof fn lemma_ab_line_counts(before: Seq<char>, a: u32, b: u32)
    requires
        before.len() == 0 || before.last() == '\n',
    ensures
        porcelain(before + "# branch.ab +"@ + decimal(a as nat) + " -"@ + decimal(b as nat) + "\n"@).ahead == a,
        porcelain(before + "# branch.ab +"@ + decimal(a as nat) + " -"@ + decimal(b as nat) + "\n"@).behind == b,
{
    reveal_strlit("# branch.ab +");
    reveal_strlit("# branch.ab ");
    reveal_strlit(" -");
    reveal_strlit("\n");
    lemma_decimal_reads_back(a as nat);
    lemma_decimal_reads_back(b as nat);
    let da = decimal(a as nat);
    let db = decimal(b as nat);
    let w1 = seq!['+'] + da;
    let w2 = seq!['-'] + db;
    let line = "# branch.ab +"@ + da + " -"@ + db;
    let q = line + "\n"@;
    let stdout = before + "# branch.ab +"@ + da + " -"@ + db + "\n"@;
    assert(stdout == before + q);
    assert(line == "# branch.ab "@ + (w1 + seq![' '] + w2));
    assert forall|j: int| 0 <= j < q.len() - 1 implies q[j] != '\n' by {
        if 13 <= j < 13 + da.len() {
            assert(q[j] == da[j - 13]);
            assert(is_digit(da[j - 13]));
        } else if 15 + da.len() <= j < q.len() - 1 {
            assert(q[j] == db[j - 15 - da.len()]);
            assert(is_digit(db[j - 15 - da.len()]));
        }
    }
    lemma_lines_one_terminated(q);
    assert(q.drop_last() == line);
    assert(line.last() == db.last());
    assert(is_digit(db[db.len() - 1]));
    assert(strip_cr(line) == line);
    lemma_lines_concat(before, q);
    let ls = lines(stdout);
    assert(ls == lines(before) + seq![line]);
    assert(ls.drop_last() == lines(before));
    assert(line.take(12) == ab_prefix());
    assert(line.skip(12) == w1 + seq![' '] + w2);
    assert forall|i: int| 0 <= i < w1.len() implies !is_whitespace(#[trigger] w1[i]) by {
        if i > 0 {
            assert(w1[i] == da[i - 1]);
            assert(is_digit(da[i - 1]));
        }
    }
    assert forall|i: int| 0 <= i < w2.len() implies !is_whitespace(#[trigger] w2[i]) by {
        if i > 0 {
            assert(w2[i] == db[i - 1]);
            assert(is_digit(db[i - 1]));
        }
    }
    lemma_two_words(w1, w2);
    let base = ab_words(lines(before));
    let ws = ab_words(ls);
    assert(ws == base + seq![w1, w2]);
    assert(ws.last() == w2);
    assert(ws.drop_last() == base + seq![w1]);
    assert((base + seq![w1]).last() == w1);
    assert(w1.drop_first() == da);
    assert(w2.drop_first() == db);
    assert(w2[0] != '+');
    assert(last_count(ws, '+') == last_count(base + seq![w1], '+'));
    assert(last_count(base + seq![w1], '+') == a);
}

/// Read line by line: the working copy is dirty exactly when some line does not begin
/// with `#` (an entry for a changed or untracked file; an empty line counts too), and
/// the branch has an upstream exactly when some line begins with `# branch.upstream `.
/// Without one, the remote check ends right after the first status with no upstream;
/// with one, it fetches.
pub proof fn lemma_porcelain_lines(ls: Seq<Seq<char>>, success: bool, stderr: Seq<char>)
    requires
        forall|i: int| 0 <= i < ls.len() ==> is_line(#[trigger] ls[i]),
    ensures
        porcelain(joined_lines(ls)).dirty <==> exists|i: int|
            0 <= i < ls.len() && ((#[trigger] ls[i]).len() == 0 || ls[i][0] != '#'),
        porcelain(joined_lines(ls)).has_upstream <==> exists|i: int|
            0 <= i < ls.len() && starts_with(#[trigger] ls[i], "# branch.upstream "@),
        remote_next(
            RemotePhase::StatusBefore,
            (OutcomeView::Completed { success, stdout: joined_lines(ls), stderr }),
        ) == (if exists|i: int|
            0 <= i < ls.len() && starts_with(#[trigger] ls[i], "# branch.upstream "@) {
            (RemotePhase::Fetch, StepView::Run(fetch_command()))
        } else {
            (RemotePhase::Done, StepView::Finished(RemoteStateView::NoUpstream))
        }),
{
    reveal_strlit("#");
    lemma_joined_lines(ls);
    assert forall|i: int| 0 <= i < ls.len() implies (starts_with(ls[i], "#"@) <==> (
    ls[i].len() > 0 && #[trigger] ls[i][0] == '#')) by {
        if ls[i].len() > 0 && ls[i][0] == '#' {
            assert(ls[i].take(1) == "#"@);
        }
        if starts_with(ls[i], "#"@) {
            assert(ls[i].take(1)[0] == ls[i][0]);
        }
    }
    if lists_change(ls) {
        let i = choose|i: int| 0 <= i < ls.len() && !starts_with(#[trigger] ls[i], "#"@);
        assert(ls[i].len() == 0 || ls[i][0] != '#');
    }
    if exists|i: int| 0 <= i < ls.len() && ((#[trigger] ls[i]).len() == 0 || ls[i][0] != '#') {
        let i = choose|i: int| 0 <= i < ls.len() && ((#[trigger] ls[i]).len() == 0 || ls[i][0] != '#');
        assert(!starts_with(ls[i], "#"@));
    }
}

/// `git status --porcelain=v2 --branch`.
pub open spec fn status_command() -> (Seq<char>, Seq<Seq<char>>) {
    ("git"@, seq!["status"@, "--porcelain=v2"@, "--branch"@])
}

/// `git fetch --quiet`.
pub open spec fn fetch_command() -> (Seq<char>, Seq<Seq<char>>) {
    ("git"@, seq!["fetch"@, "--quiet"@])
}

pub fn status_invocation() -> (inv: Invocation)
    ensures
        inv@ == status_command(),
{
    let inv = invocation("git", &["status", "--porcelain=v2", "--branch"]);
    assert(inv@.1 =~= status_command().1);
    inv
}

pub fn fetch_invocation() -> (inv: Invocation)
    ensures
        inv@ == fetch_command(),
{
    let inv = invocation("git", &["fetch", "--quiet"]);
    assert(inv@.1 =~= fetch_command().1);
    inv
}

/// The local status that a run of `status_command()` shows.
pub open spec fn local_from(outcome: OutcomeView) -> Result<LocalStatusView, Seq<char>> {
    match outcome {
        OutcomeView::FailedToStart => Err("failed to run git status"@),
        OutcomeView::Completed { success, stdout, stderr } => {
            if !success {
                Err("git status failed: "@ + stderr)
            } else {
                Ok(LocalStatusView { branch: porcelain(stdout).head, dirty: porcelain(stdout).dirty })
            }
        },
    }
}

/// Branch and dirty state from a run of `status_invocation()`; a run that could not
/// start, or that failed, gives the message that says so.
pub fn local_status(outcome: &Outcome) -> (r: Result<LocalStatus, String>)
    ensures
        local_result_view(r) == local_from(outcome@),
{
    match outcome {
        Outcome::FailedToStart => Err(String::from_str("failed to run git status")),
        Outcome::Completed { success, stdout, stderr } => {
            if !*success {
                Err(concatenated("git status failed: ", stderr.as_str()))
            } else {
                let parsed = parse_porcelain(stdout.as_str());
                Ok(LocalStatus { branch: parsed.head, dirty: parsed.dirty })
            }
        },
    }
}

/// Which command's outcome a remote check of a git repository waits for.
#[derive(PartialEq, Eq, Structural, Clone, Copy, Debug)]
pub enum RemotePhase {
    StatusBefore,
    Fetch,
    StatusAfter,
    Done,
}

/// A remote check: the status before fetching tells whether there is an upstream at all
/// (without one, nothing is fetched); then `git fetch`, then the status after it, whose
/// ahead/behind counts decide. A command that cannot start, or a failed fetch, ends the
/// check with an error.
pub open spec fn remote_next(at: RemotePhase, outcome: OutcomeView) -> (
    RemotePhase,
    StepView<RemoteStateView>,
) {
    match at {
        RemotePhase::StatusBefore => match outcome {
            OutcomeView::FailedToStart => (
                RemotePhase::Done,
                StepView::Finished(RemoteStateView::Error("failed to run git status"@)),
            ),
            OutcomeView::Completed { stdout, .. } => {
                if !porcelain(stdout).has_upstream {
                    (RemotePhase::Done, StepView::Finished(RemoteStateView::NoUpstream))
                } else {
                    (RemotePhase::Fetch, StepView::Run(fetch_command()))
                }
            },
        },
        RemotePhase::Fetch => match outcome {
            OutcomeView::FailedToStart => (
                RemotePhase::Done,
                StepView::Finished(RemoteStateView::Error("failed to run git fetch"@)),
            ),
            OutcomeView::Completed { success, stderr, .. } => {
                if !success {
                    (RemotePhase::Done, StepView::Finished(RemoteStateView::Error(trim(stderr))))
                } else {
                    (RemotePhase::StatusAfter, StepView::Run(status_command()))
                }
            },
        },
        RemotePhase::StatusAfter => match outcome {
            OutcomeView::FailedToStart => (
                RemotePhase::Done,
                StepView::Finished(RemoteStateView::Error("failed to run git status"@)),
            ),
            OutcomeView::Completed { stdout, .. } => (
                RemotePhase::Done,
                StepView::Finished(
                    compare_counts(porcelain(stdout).ahead, porcelain(stdout).behind),
                ),
            ),
        },
        RemotePhase::Done => (RemotePhase::Done, StepView::Finished(RemoteStateView::NoUpstream)),
    }
}

/// The first command of a remote check.
pub fn remote_status() -> (r: (RemotePhase, Invocation))
    ensures
        r.0 == RemotePhase::StatusBefore,
        r.1@ == status_command(),
{
    (RemotePhase::StatusBefore, status_invocation())
}

/// The next step of a remote check, given the outcome of the command it waited for.
pub fn remote_step(at: RemotePhase, outcome: &Outcome) -> (r: (RemotePhase, Step<RemoteState>))
    requires
        at != RemotePhase::Done,
    ensures
        (r.0, r.1@) == remote_next(at, outcome@),
{
    match at {
        RemotePhase::StatusBefore => match outcome {
            Outcome::FailedToStart => (
                RemotePhase::Done,
                Step::Finished(RemoteState::Error(String::from_str("failed to run git status"))),
            ),
            Outcome::Completed { stdout, .. } => {
                let before = parse_porcelain(stdout.as_str());
                if !before.has_upstream {
                    (RemotePhase::Done, Step::Finished(RemoteState::NoUpstream))
                } else {
                    (RemotePhase::Fetch, Step::Run(fetch_invocation()))
                }
            },
        },
        RemotePhase::Fetch => match outcome {
            Outcome::FailedToStart => (
                RemotePhase::Done,
                Step::Finished(RemoteState::Error(String::from_str("failed to run git fetch"))),
            ),
            Outcome::Completed { success, stderr, .. } => {
                if !*success {
                    (
                        RemotePhase::Done,
                        Step::Finished(RemoteState::Error(trimmed(stderr.as_str()))),
                    )
                } else {
                    (RemotePhase::StatusAfter, Step::Run(status_invocation()))
                }
            },
        },
        _ => match outcome {
            Outcome::FailedToStart => (
                RemotePhase::Done,
                Step::Finished(RemoteState::Error(String::from_str("failed to run git status"))),
            ),
            Outcome::Completed { stdout, .. } => {
                let after = parse_porcelain(stdout.as_str());
                (RemotePhase::Done, Step::Finished(compare(after.ahead, after.behind)))
            },
        },
    }
}


/// How many commands a remote check may still wait for.
pub open spec fn remote_rank(at: RemotePhase) -> nat {
    match at {
        RemotePhase::StatusBefore => 3,
        RemotePhase::Fetch => 2,
        RemotePhase::StatusAfter => 1,
        RemotePhase::Done => 0,
    }
}

/// Every remote check ends: each step finishes it, or asks for another command with
/// fewer to go.
pub proof fn lemma_remote_check_ends(at: RemotePhase, outcome: OutcomeView)
    requires
        at != RemotePhase::Done,
    ensures
        ({
            let (at2, step) = remote_next(at, outcome);
            match step {
                StepView::Run(_) => at2 != RemotePhase::Done && remote_rank(at2) < remote_rank(at),
                StepView::Finished(_) => at2 == RemotePhase::Done,
            }
        }),
{
}

/// A branch without an upstream is never fetched: the check ends with `NoUpstream`
/// right after the first status; and whenever the check goes on to fetch, the first
/// status named an upstream.
pub proof fn lemma_fetch_needs_upstream(outcome: OutcomeView)
    ensures
        outcome matches OutcomeView::Completed { stdout, .. } && !porcelain(stdout).has_upstream
            ==> remote_next(RemotePhase::StatusBefore, outcome) == (
            RemotePhase::Done,
            StepView::<RemoteStateView>::Finished(RemoteStateView::NoUpstream),
        ),
        remote_next(RemotePhase::StatusBefore, outcome).1 is Run ==> (outcome matches OutcomeView::Completed { stdout, .. }
            && porcelain(stdout).has_upstream && remote_next(RemotePhase::StatusBefore, outcome).1
            == StepView::<RemoteStateView>::Run(fetch_command())),
{
}

/// After the fetch, the check ends with the state of the `+a -b` counts that the second
/// status shows in its last `# branch.ab` line: up to date for `+0 -0`, ahead by `a` for
/// `+a -0`, behind by `b` for `+0 -b`, diverged otherwise.
pub proof fn lemma_counts_after_fetch_decide(
    before: Seq<char>,
    a: u32,
    b: u32,
    success: bool,
    stderr: Seq<char>,
)
    requires
        before.len() == 0 || before.last() == '\n',
    ensures
        remote_next(
            RemotePhase::StatusAfter,
            (OutcomeView::Completed {
                success,
                stdout: before + "# branch.ab +"@ + decimal(a as nat) + " -"@ + decimal(b as nat)
                    + "\n"@,
                stderr,
            }),
        ) == (RemotePhase::Done, StepView::Finished(compare_counts(a, b))),
        compare_counts(a, b) == (if a == 0 && b == 0 {
            RemoteStateView::UpToDate
        } else if b == 0 {
            RemoteStateView::Ahead(a)
        } else if a == 0 {
            RemoteStateView::Behind(b)
        } else {
            RemoteStateView::Diverged(a, b)
        }),
{
    lemma_ab_line_counts(before, a, b);
}

/// A fetch that fails ends the check with its trimmed error output, and no status is
/// read after it; the second status is only asked for after a fetch that succeeded.
pub proof fn lemma_failed_fetch_ends(
    stdout: Seq<char>,
    stderr: Seq<char>,
    at: RemotePhase,
    outcome: OutcomeView,
)
    requires
        at != RemotePhase::Done,
    ensures
        remote_next(
            RemotePhase::Fetch,
            (OutcomeView::Completed { success: false, stdout, stderr }),
        ) == (RemotePhase::Done, StepView::Finished(RemoteStateView::Error(trim(stderr)))),
        remote_next(at, outcome).0 == RemotePhase::StatusAfter ==> at == RemotePhase::Fetch
            && outcome == (OutcomeView::Completed {
            success: true,
            stdout: outcome->stdout,
            stderr: outcome->stderr,
        }),
{
}

} // verus!
