//! What the library knows of a repository's state, and the commands that find it out.

pub mod git;
pub mod jj;

use vstd::prelude::*;
use crate::repo::{Repo, RepoKind};
use crate::text::concatenated;

verus! {

/// Branch (or bookmark) and working-copy state of a repository.
#[derive(Debug, Clone)]
pub struct LocalStatus {
    pub branch: String,
    pub dirty: bool,
}

/// How a branch stands against its remote counterpart.
#[derive(Debug, Clone)]
pub enum RemoteState {
    NoUpstream,
    UpToDate,
    Ahead(u32),
    Behind(u32),
    Diverged(u32, u32),
    Error(String),
}

/// `RemoteState` with its message as a character sequence.
pub enum RemoteStateView {
    NoUpstream,
    UpToDate,
    Ahead(u32),
    Behind(u32),
    Diverged(u32, u32),
    Error(Seq<char>),
}

impl View for RemoteState {
    type V = RemoteStateView;

    open spec fn view(&self) -> RemoteStateView {
        match self {
            RemoteState::NoUpstream => RemoteStateView::NoUpstream,
            RemoteState::UpToDate => RemoteStateView::UpToDate,
            RemoteState::Ahead(a) => RemoteStateView::Ahead(*a),
            RemoteState::Behind(b) => RemoteStateView::Behind(*b),
            RemoteState::Diverged(a, b) => RemoteStateView::Diverged(*a, *b),
            RemoteState::Error(e) => RemoteStateView::Error(e@),
        }
    }
}

/// The state for `ahead` commits only on this side and `behind` commits only on the remote.
pub open spec fn compare_counts(ahead: u32, behind: u32) -> RemoteStateView {
    if ahead == 0 && behind == 0 {
        RemoteStateView::UpToDate
    } else if behind == 0 {
        RemoteStateView::Ahead(ahead)
    } else if ahead == 0 {
        RemoteStateView::Behind(behind)
    } else {
        RemoteStateView::Diverged(ahead, behind)
    }
}

/// The ahead/behind counts a state shows, where it shows them (0 for a side not shown).
pub open spec fn shown_counts(r: RemoteStateView) -> Option<(u32, u32)> {
    match r {
        RemoteStateView::UpToDate => Some((0, 0)),
        RemoteStateView::Ahead(a) => Some((a, 0)),
        RemoteStateView::Behind(b) => Some((0, b)),
        RemoteStateView::Diverged(a, b) => Some((a, b)),
        _ => None,
    }
}

/// The state of a compared branch shows exactly the counts it was compared by, and is
/// up to date just when both are 0.
pub proof fn lemma_compare_shows_counts(ahead: u32, behind: u32)
    ensures
        shown_counts(compare_counts(ahead, behind)) == Some((ahead, behind)),
        compare_counts(ahead, behind) == RemoteStateView::UpToDate <==> ahead == 0 && behind == 0,
{
}

/// Classifies a branch by the commits that only it has and that only its remote has.
pub fn compare(ahead: u32, behind: u32) -> (r: RemoteState)
    ensures
        r@ == compare_counts(ahead, behind),
{
    if ahead == 0 && behind == 0 {
        RemoteState::UpToDate
    } else if behind == 0 {
        RemoteState::Ahead(ahead)
    } else if ahead == 0 {
        RemoteState::Behind(behind)
    } else {
        RemoteState::Diverged(ahead, behind)
    }
}


/// `LocalStatus` with the branch as a character sequence.
pub struct LocalStatusView {
    pub branch: Seq<char>,
    pub dirty: bool,
}

impl View for LocalStatus {
    type V = LocalStatusView;

    open spec fn view(&self) -> LocalStatusView {
        LocalStatusView { branch: self.branch@, dirty: self.dirty }
    }
}

/// A local status, or the message of what went wrong while finding it.
pub open spec fn local_result_view(r: Result<LocalStatus, String>) -> Result<LocalStatusView, Seq<char>> {
    match r {
        Ok(l) => Ok(l@),
        Err(e) => Err(e@),
    }
}

/// A command to run in the repository's directory: a program and its arguments.
pub struct Invocation {
    pub program: String,
    pub args: Vec<String>,
}

impl View for Invocation {
    type V = (Seq<char>, Seq<Seq<char>>);

    open spec fn view(&self) -> (Seq<char>, Seq<Seq<char>>) {
        (self.program@, self.args@.map_values(|a: String| a@))
    }
}

/// What running an `Invocation` gave: its exit status and its output (decoded as
/// UTF-8, invalid sequences replaced), or that it could not be started at all.
pub enum Outcome {
    Completed { success: bool, stdout: String, stderr: String },
    FailedToStart,
}

pub enum OutcomeView {
    Completed { success: bool, stdout: Seq<char>, stderr: Seq<char> },
    FailedToStart,
}

impl View for Outcome {
    type V = OutcomeView;

    open spec fn view(&self) -> OutcomeView {
        match self {
            Outcome::Completed { success, stdout, stderr } => OutcomeView::Completed {
                success: *success,
                stdout: stdout@,
                stderr: stderr@,
            },
            Outcome::FailedToStart => OutcomeView::FailedToStart,
        }
    }
}

/// The next thing a probe needs: a command run, or nothing more, with its finding.
pub enum Step<T> {
    Run(Invocation),
    Finished(T),
}

pub enum StepView<T> {
    Run((Seq<char>, Seq<Seq<char>>)),
    Finished(T),
}

impl<T: View> View for Step<T> {
    type V = StepView<T::V>;

    open spec fn view(&self) -> StepView<T::V> {
        match self {
            Step::Run(inv) => StepView::Run(inv@),
            Step::Finished(t) => StepView::Finished(t@),
        }
    }
}

/// A local probe's step, its finding taken as a `local_result_view`.
pub open spec fn local_step_view(s: Step<Result<LocalStatus, String>>) -> StepView<
    Result<LocalStatusView, Seq<char>>,
> {
    match s {
        Step::Run(inv) => StepView::Run(inv@),
        Step::Finished(r) => StepView::Finished(local_result_view(r)),
    }
}

/// Builds an invocation from literal words.
pub fn invocation(program: &str, args: &[&str]) -> (inv: Invocation)
    ensures
        inv@ == (program@, args@.map_values(|a: &str| a@)),
{
    let mut v: Vec<String> = Vec::new();
    let mut i: usize = 0;
    while i < args.len()
        invariant
            i <= args.len(),
            v@.map_values(|a: String| a@) == args@.take(i as int).map_values(|a: &str| a@),
        decreases args.len() - i,
    {
        v.push(String::from_str(args[i]));
        assert(args@.take(i + 1).map_values(|a: &str| a@) =~= args@.take(i as int).map_values(
            |a: &str| a@,
        ).push(args@[i as int]@));
        assert(v@.map_values(|a: String| a@) =~= args@.take(i as int).map_values(|a: &str| a@).push(
            args@[i as int]@,
        ));
        i = i + 1;
    }
    assert(args@.take(args.len() as int) == args@);
    Invocation { program: String::from_str(program), args: v }
}


/// The status shown for a repository whose local status could not be found: the
/// message, prefixed with `error: `, in place of the branch, and clean.
pub open spec fn status_or_error_view(r: Result<LocalStatusView, Seq<char>>) -> LocalStatusView {
    match r {
        Ok(l) => l,
        Err(e) => LocalStatusView { branch: "error: "@ + e, dirty: false },
    }
}

/// The local status, or one that shows the error in place of the branch.
pub fn status_or_error(r: Result<LocalStatus, String>) -> (l: LocalStatus)
    ensures
        l@ == status_or_error_view(local_result_view(r)),
{
    match r {
        Ok(l) => l,
        Err(e) => LocalStatus { branch: concatenated("error: ", e.as_str()), dirty: false },
    }
}

/// Where a local check of a repository stands.
pub enum LocalProbe {
    Git,
    Jj(jj::LocalPhase),
    Done,
}

pub enum LocalProbeView {
    Git,
    Jj(jj::LocalPhaseView),
    Done,
}

impl View for LocalProbe {
    type V = LocalProbeView;

    open spec fn view(&self) -> LocalProbeView {
        match self {
            LocalProbe::Git => LocalProbeView::Git,
            LocalProbe::Jj(p) => LocalProbeView::Jj(p@),
            LocalProbe::Done => LocalProbeView::Done,
        }
    }
}

/// A local check still waits for a command.
pub open spec fn local_live(p: LocalProbeView) -> bool {
    match p {
        LocalProbeView::Git => true,
        LocalProbeView::Jj(l) => l != jj::LocalPhaseView::Done,
        LocalProbeView::Done => false,
    }
}

/// A git repository's local status comes from one `git status`; a jj repository's from
/// the jj local check.
pub open spec fn local_next(p: LocalProbeView, outcome: OutcomeView) -> (
    LocalProbeView,
    StepView<Result<LocalStatusView, Seq<char>>>,
) {
    match p {
        LocalProbeView::Git => (LocalProbeView::Done, StepView::Finished(git::local_from(outcome))),
        LocalProbeView::Jj(l) => {
            let (l2, step) = jj::local_next(l, outcome);
            (LocalProbeView::Jj(l2), step)
        },
        LocalProbeView::Done => (LocalProbeView::Done, StepView::Finished(Err(seq![]))),
    }
}

/// The command that starts the local check of `repo`.
pub open spec fn local_start(kind: RepoKind) -> (LocalProbeView, (Seq<char>, Seq<Seq<char>>)) {
    match kind {
        RepoKind::Git => (LocalProbeView::Git, git::status_command()),
        RepoKind::Jj => (LocalProbeView::Jj(jj::LocalPhaseView::HeadLog), jj::head_log_command()),
    }
}

/// Starts the local check of `repo`: where it stands and the first command to run.
pub fn local_status(repo: &Repo) -> (r: (LocalProbe, Invocation))
    ensures
        (r.0@, r.1@) == local_start(repo.kind),
{
    match repo.kind {
        RepoKind::Git => (LocalProbe::Git, git::status_invocation()),
        RepoKind::Jj => {
            let (l, inv) = jj::local_status();
            (LocalProbe::Jj(l), inv)
        },
    }
}

/// The next step of a local check, given the outcome of the command it waited for.
pub fn local_step(p: LocalProbe, outcome: &Outcome) -> (r: (
    LocalProbe,
    Step<Result<LocalStatus, String>>,
))
    requires
        local_live(p@),
    ensures
        (r.0@, local_step_view(r.1)) == local_next(p@, outcome@),
{
    match p {
        LocalProbe::Git => (LocalProbe::Done, Step::Finished(git::local_status(outcome))),
        LocalProbe::Jj(l) => {
            let (l2, step) = jj::local_step(l, outcome);
            (LocalProbe::Jj(l2), step)
        },
        LocalProbe::Done => (LocalProbe::Done, Step::Finished(Err(String::new()))),
    }
}

/// Where a remote check of a repository stands.
pub enum RemoteProbe {
    Git(git::RemotePhase),
    Jj(jj::RemotePhase),
}

pub enum RemoteProbeView {
    Git(git::RemotePhase),
    Jj(jj::RemotePhaseView),
}

impl View for RemoteProbe {
    type V = RemoteProbeView;

    open spec fn view(&self) -> RemoteProbeView {
        match self {
            RemoteProbe::Git(p) => RemoteProbeView::Git(*p),
            RemoteProbe::Jj(p) => RemoteProbeView::Jj(p@),
        }
    }
}

/// A remote check still waits for a command.
pub open spec fn remote_live(p: RemoteProbeView) -> bool {
    match p {
        RemoteProbeView::Git(g) => g != git::RemotePhase::Done,
        RemoteProbeView::Jj(j) => jj::remote_live(j),
    }
}

pub open spec fn remote_next(p: RemoteProbeView, outcome: OutcomeView) -> (
    RemoteProbeView,
    StepView<RemoteStateView>,
) {
    match p {
        RemoteProbeView::Git(g) => {
            let (g2, step) = git::remote_next(g, outcome);
            (RemoteProbeView::Git(g2), step)
        },
        RemoteProbeView::Jj(j) => {
            let (j2, step) = jj::remote_next(j, outcome);
            (RemoteProbeView::Jj(j2), step)
        },
    }
}

/// The command that starts the remote check of a repository of `kind`.
pub open spec fn remote_start(kind: RepoKind) -> (RemoteProbeView, (Seq<char>, Seq<Seq<char>>)) {
    match kind {
        RepoKind::Git => (RemoteProbeView::Git(git::RemotePhase::StatusBefore), git::status_command()),
        RepoKind::Jj => (
            RemoteProbeView::Jj(jj::RemotePhaseView::Local(jj::LocalPhaseView::HeadLog)),
            jj::head_log_command(),
        ),
    }
}

/// Starts the remote check of `repo`: where it stands and the first command to run.
pub fn remote_status(repo: &Repo) -> (r: (RemoteProbe, Invocation))
    ensures
        (r.0@, r.1@) == remote_start(repo.kind),
{
    match repo.kind {
        RepoKind::Git => {
            let (g, inv) = git::remote_status();
            (RemoteProbe::Git(g), inv)
        },
        RepoKind::Jj => {
            let (j, inv) = jj::remote_status();
            (RemoteProbe::Jj(j), inv)
        },
    }
}

/// The next step of a remote check, given the outcome of the command it waited for.
pub fn remote_step(p: RemoteProbe, outcome: &Outcome) -> (r: (RemoteProbe, Step<RemoteState>))
    requires
        remote_live(p@),
    ensures
        (r.0@, r.1@) == remote_next(p@, outcome@),
{
    match p {
        RemoteProbe::Git(g) => {
            let (g2, step) = git::remote_step(g, outcome);
            (RemoteProbe::Git(g2), step)
        },
        RemoteProbe::Jj(j) => {
            let (j2, step) = jj::remote_step(j, outcome);
            (RemoteProbe::Jj(j2), step)
        },
    }
}


/// How many commands a local check may still wait for.
pub open spec fn local_rank(p: LocalProbeView) -> nat {
    match p {
        LocalProbeView::Git => 1,
        LocalProbeView::Jj(l) => jj::local_rank(l),
        LocalProbeView::Done => 0,
    }
}

/// How many commands a remote check may still wait for.
pub open spec fn remote_rank(p: RemoteProbeView) -> nat {
    match p {
        RemoteProbeView::Git(g) => git::remote_rank(g),
        RemoteProbeView::Jj(j) => jj::remote_rank(j),
    }
}

/// Every local check ends: each step either finishes it or asks for another command
/// and leaves it waiting, with fewer commands to go.
pub proof fn lemma_local_check_ends(p: LocalProbeView, outcome: OutcomeView)
    requires
        local_live(p),
    ensures
        ({
            let (p2, step) = local_next(p, outcome);
            match step {
                StepView::Run(_) => local_live(p2) && local_rank(p2) < local_rank(p),
                StepView::Finished(_) => !local_live(p2),
            }
        }),
{
    if let LocalProbeView::Jj(l) = p {
        jj::lemma_local_check_ends(l, outcome);
    }
}

/// Every remote check ends: each step either finishes it or asks for another command
/// and leaves it waiting, with fewer commands to go.
pub proof fn lemma_remote_check_ends(p: RemoteProbeView, outcome: OutcomeView)
    requires
        remote_live(p),
    ensures
        ({
            let (p2, step) = remote_next(p, outcome);
            match step {
                StepView::Run(_) => remote_live(p2) && remote_rank(p2) < remote_rank(p),
                StepView::Finished(_) => !remote_live(p2),
            }
        }),
{
    match p {
        RemoteProbeView::Git(g) => git::lemma_remote_check_ends(g, outcome),
        RemoteProbeView::Jj(j) => jj::lemma_remote_check_ends(j, outcome),
    }
}

} // verus!
