//! Status rows: printed once with the local status, then rewritten in place when the
//! remote state comes in.

use owo_colors::OwoColorize;
use vstd::prelude::*;
use crate::repo::{Repo, RepoKind};
use vstd::utf8::encode_utf8;
use crate::text::{decimal, pad_right, push_char, push_decimal, push_padded};
use crate::vcs::{LocalStatus, RemoteState, RemoteStateView};
use crate::terminal::{
    at_row, esc, inert, lemma_concat_inert, lemma_decimal_inert, lemma_run_concat,
    lemma_run_decimal, lemma_run_inert, lemma_run_no_esc, lemma_shown_independent, no_esc, run,
    strip_ansi, Mode, Screen,
};

verus! {

/// `text` between the codes that set the foreground color `code` and reset it.
pub open spec fn fg(code: Seq<char>, text: Seq<char>) -> Seq<char> {
    seq![esc(), '['] + code + seq!['m'] + text + seq![esc(), '[', '3', '9', 'm']
}

/// `text` between the codes that make it dim and reset all attributes.
pub open spec fn dim(text: Seq<char>) -> Seq<char> {
    seq![esc(), '[', '2', 'm'] + text + seq![esc(), '[', '0', 'm']
}

pub open spec fn red() -> Seq<char> {
    seq!['3', '1']
}

pub open spec fn green() -> Seq<char> {
    seq!['3', '2']
}

pub open spec fn yellow() -> Seq<char> {
    seq!['3', '3']
}

pub open spec fn cyan() -> Seq<char> {
    seq!['3', '6']
}

/// `OwoColorize::red` from owo-colors, displayed: owo-colors writes the code for a red
/// foreground (`ESC[31m`), the text, then the code for the default foreground (`ESC[39m`).
#[verifier::external_body]
fn paint_red(text: &str) -> (r: String)
    ensures
        r@ == fg(red(), text@),
{
    text.red().to_string()
}

/// `OwoColorize::green` from owo-colors, displayed: `ESC[32m`, the text, `ESC[39m`.
#[verifier::external_body]
fn paint_green(text: &str) -> (r: String)
    ensures
        r@ == fg(green(), text@),
{
    text.green().to_string()
}

/// `OwoColorize::yellow` from owo-colors, displayed: `ESC[33m`, the text, `ESC[39m`.
#[verifier::external_body]
fn paint_yellow(text: &str) -> (r: String)
    ensures
        r@ == fg(yellow(), text@),
{
    text.yellow().to_string()
}

/// `OwoColorize::cyan` from owo-colors, displayed: `ESC[36m`, the text, `ESC[39m`.
#[verifier::external_body]
fn paint_cyan(text: &str) -> (r: String)
    ensures
        r@ == fg(cyan(), text@),
{
    text.cyan().to_string()
}

/// `OwoColorize::dimmed` from owo-colors, displayed: owo-colors writes the dim code
/// (`ESC[2m`), the text, then the code that resets all attributes (`ESC[0m`).
#[verifier::external_body]
fn paint_dimmed(text: &str) -> (r: String)
    ensures
        r@ == dim(text@),
{
    text.dimmed().to_string()
}

/// What the remote column of a row shows.
pub enum RemoteLabel<'a> {
    /// A remote check is under way.
    Checking,
    /// No remote check will run.
    Skipped,
    Resolved(&'a RemoteState),
}

pub enum RemoteLabelView {
    Checking,
    Skipped,
    Resolved(RemoteStateView),
}

impl<'a> View for RemoteLabel<'a> {
    type V = RemoteLabelView;

    open spec fn view(&self) -> RemoteLabelView {
        match self {
            RemoteLabel::Checking => RemoteLabelView::Checking,
            RemoteLabel::Skipped => RemoteLabelView::Skipped,
            RemoteLabel::Resolved(r) => RemoteLabelView::Resolved(r@),
        }
    }
}

pub open spec fn up_arrow() -> char {
    '\u{2191}'
}

pub open spec fn down_arrow() -> char {
    '\u{2193}'
}

/// The remote column: pending and unknown states dim, up to date green, ahead or behind
/// yellow, diverged and errors red.
pub open spec fn remote_text(label: RemoteLabelView) -> Seq<char> {
    match label {
        RemoteLabelView::Checking => dim("checking..."@),
        RemoteLabelView::Skipped => dim("skipped"@),
        RemoteLabelView::Resolved(RemoteStateView::NoUpstream) => dim("no upstream"@),
        RemoteLabelView::Resolved(RemoteStateView::UpToDate) => fg(green(), "up to date"@),
        RemoteLabelView::Resolved(RemoteStateView::Ahead(n)) => fg(
            yellow(),
            seq![up_arrow()] + decimal(n as nat),
        ),
        RemoteLabelView::Resolved(RemoteStateView::Behind(n)) => fg(
            yellow(),
            seq![down_arrow()] + decimal(n as nat),
        ),
        RemoteLabelView::Resolved(RemoteStateView::Diverged(a, b)) => fg(
            red(),
            seq![up_arrow()] + decimal(a as nat) + seq![' ', down_arrow()] + decimal(b as nat),
        ),
        RemoteLabelView::Resolved(RemoteStateView::Error(e)) => fg(red(), "error: "@ + e),
    }
}

/// The kind column, three characters wide.
pub open spec fn kind_text(kind: RepoKind) -> Seq<char> {
    match kind {
        RepoKind::Git => "git"@,
        RepoKind::Jj => "jj "@,
    }
}

/// The dirty column: `dirty` red or `clean` green, padded to seven characters.
pub open spec fn dirty_text(dirty: bool) -> Seq<char> {
    if dirty {
        fg(red(), pad_right("dirty"@, 7))
    } else {
        fg(green(), pad_right("clean"@, 7))
    }
}

/// A status row: name (cyan, padded), kind (dim), branch (padded), dirty state and
/// remote state, separated by single spaces.
pub open spec fn line_text(
    name_width: nat,
    branch_width: nat,
    name: Seq<char>,
    kind: RepoKind,
    branch: Seq<char>,
    dirty: bool,
    label: RemoteLabelView,
) -> Seq<char> {
    fg(cyan(), pad_right(name, name_width)) + seq![' '] + dim(kind_text(kind)) + seq![' ']
        + pad_right(branch, branch_width) + seq![' '] + dirty_text(dirty) + seq![' '] + remote_text(
        label,
    )
}

/// `t` padded to `width` characters, as a new string.
fn padded(t: &str, width: usize) -> (r: String)
    ensures
        r@ == pad_right(t@, width as nat),
{
    let mut r = String::new();
    push_padded(&mut r, t, width);
    r
}

fn remote_string(label: RemoteLabel) -> (r: String)
    ensures
        r@ == remote_text(label@),
{
    match label {
        RemoteLabel::Checking => paint_dimmed("checking..."),
        RemoteLabel::Skipped => paint_dimmed("skipped"),
        RemoteLabel::Resolved(state) => match state {
            RemoteState::NoUpstream => paint_dimmed("no upstream"),
            RemoteState::UpToDate => paint_green("up to date"),
            RemoteState::Ahead(n) => {
                let mut s = String::new();
                push_char(&mut s, '\u{2191}');
                push_decimal(&mut s, *n as u64);
                paint_yellow(s.as_str())
            },
            RemoteState::Behind(n) => {
                let mut s = String::new();
                push_char(&mut s, '\u{2193}');
                push_decimal(&mut s, *n as u64);
                paint_yellow(s.as_str())
            },
            RemoteState::Diverged(a, b) => {
                let mut s = String::new();
                push_char(&mut s, '\u{2191}');
                push_decimal(&mut s, *a as u64);
                push_char(&mut s, ' ');
                push_char(&mut s, '\u{2193}');
                push_decimal(&mut s, *b as u64);
                paint_red(s.as_str())
            },
            RemoteState::Error(e) => {
                let mut s = String::from_str("error: ");
                s.append(e.as_str());
                paint_red(s.as_str())
            },
        },
    }
}

/// Writes status rows one below the other, keeping the name and branch columns aligned.
pub struct Renderer {
    total_rows: usize,
    name_width: usize,
    branch_width: usize,
}

impl Renderer {
    /// Rows printed so far.
    pub closed spec fn rows(&self) -> nat {
        self.total_rows as nat
    }

    pub closed spec fn name_column(&self) -> nat {
        self.name_width as nat
    }

    pub closed spec fn branch_column(&self) -> nat {
        self.branch_width as nat
    }

    /// `name_width`/`branch_width` should be the longest repository name / branch name
    /// that will be printed, so columns align without knowing the rows in advance.
    pub fn new(name_width: usize, branch_width: usize) -> (r: Self)
        ensures
            r.rows() == 0,
            r.name_column() == name_width,
            r.branch_column() == branch_width,
    {
        Self { total_rows: 0, name_width, branch_width }
    }

    /// The row for `repo` with `local` status and `remote` in the remote column.
    pub fn format_line(&self, repo: &Repo, local: &LocalStatus, remote: RemoteLabel) -> (r: String)
        ensures
            r@ == line_text(
                self.name_column(),
                self.branch_column(),
                repo.name@,
                repo.kind,
                local.branch@,
                local.dirty,
                remote@,
            ),
    {
        let kind = match repo.kind {
            RepoKind::Git => "git",
            RepoKind::Jj => "jj ",
        };
        let dirty_padded = padded(
            if local.dirty {
                "dirty"
            } else {
                "clean"
            },
            7,
        );
        let dirty = if local.dirty {
            paint_red(dirty_padded.as_str())
        } else {
            paint_green(dirty_padded.as_str())
        };
        let remote_str = remote_string(remote);
        let name_padded = padded(repo.name.as_str(), self.name_width);
        let branch_padded = padded(local.branch.as_str(), self.branch_width);

        let mut line = paint_cyan(name_padded.as_str());
        push_char(&mut line, ' ');
        line.append(paint_dimmed(kind).as_str());
        push_char(&mut line, ' ');
        line.append(branch_padded.as_str());
        push_char(&mut line, ' ');
        line.append(dirty.as_str());
        push_char(&mut line, ' ');
        line.append(remote_str.as_str());
        line
    }

    /// The next row, to be printed on a line of its own. Pass `checking = false` when
    /// no remote check will ever run.
    pub fn print_row(&mut self, repo: &Repo, local: &LocalStatus, checking: bool) -> (r: String)
        requires
            old(self).rows() < usize::MAX,
        ensures
            final(self).rows() == old(self).rows() + 1,
            final(self).name_column() == old(self).name_column(),
            final(self).branch_column() == old(self).branch_column(),
            r@ == line_text(
                old(self).name_column(),
                old(self).branch_column(),
                repo.name@,
                repo.kind,
                local.branch@,
                local.dirty,
                if checking {
                    RemoteLabelView::Checking
                } else {
                    RemoteLabelView::Skipped
                },
            ),
    {
        let remote = if checking {
            RemoteLabel::Checking
        } else {
            RemoteLabel::Skipped
        };
        let line = self.format_line(repo, local, remote);
        self.total_rows = self.total_rows + 1;
        line
    }

    /// Rewrites row `index` in place with the resolved remote state: the text to write
    /// moves the cursor up to the row, clears it, writes the row and a newline, then
    /// moves back down to the line below the last row.
    pub fn update_row(&self, index: usize, repo: &Repo, local: &LocalStatus, remote: &RemoteState) -> (r: String)
        requires
            index <= self.rows(),
        ensures
            r@ == rewrite_text(
                (self.rows() - index) as nat,
                line_text(
                    self.name_column(),
                    self.branch_column(),
                    repo.name@,
                    repo.kind,
                    local.branch@,
                    local.dirty,
                    RemoteLabelView::Resolved(remote@),
                ),
            ),
    {
        let up: usize = self.total_rows - index;
        let line = self.format_line(repo, local, RemoteLabel::Resolved(remote));
        let mut out = String::new();
        push_char(&mut out, '\u{1b}');
        push_char(&mut out, '[');
        push_decimal(&mut out, up as u64);
        push_char(&mut out, 'A');
        push_char(&mut out, '\r');
        push_char(&mut out, '\u{1b}');
        push_char(&mut out, '[');
        push_char(&mut out, '2');
        push_char(&mut out, 'K');
        out.append(line.as_str());
        push_char(&mut out, '\n');
        if up > 1 {
            push_char(&mut out, '\u{1b}');
            push_char(&mut out, '[');
            push_decimal(&mut out, (up - 1) as u64);
            push_char(&mut out, 'B');
        }
        assert(out@ =~= rewrite_text(up as nat, line@));
        out
    }
}

/// Moves the cursor `n` lines up.
pub open spec fn cursor_up(n: nat) -> Seq<char> {
    seq![esc(), '['] + decimal(n) + seq!['A']
}

/// Moves the cursor `n` lines down.
pub open spec fn cursor_down(n: nat) -> Seq<char> {
    seq![esc(), '['] + decimal(n) + seq!['B']
}

/// Replaces the row `up` lines above the cursor with `line`, the cursor ending where
/// it was: up to the row, to its start, clear it, the row, a newline, then down the
/// `up - 1` lines that are left.
pub open spec fn rewrite_text(up: nat, line: Seq<char>) -> Seq<char> {
    cursor_up(up) + seq!['\r', esc(), '[', '2', 'K'] + line + seq!['\n'] + if up > 1 {
        cursor_down((up - 1) as nat)
    } else {
        seq![]
    }
}


/// The length of `s` in bytes, as `str::len` reports it.
pub open spec fn str_len(s: Seq<char>) -> nat {
    (encode_utf8(s).len() as usize) as nat
}

/// The largest `str_len` of `ss`, 0 for none.
pub open spec fn max_str_len(ss: Seq<Seq<char>>) -> nat
    decreases ss.len(),
{
    if ss.len() == 0 {
        0
    } else if max_str_len(ss.drop_last()) >= str_len(ss.last()) {
        max_str_len(ss.drop_last())
    } else {
        str_len(ss.last())
    }
}

pub open spec fn repo_names(repos: Seq<Repo>) -> Seq<Seq<char>> {
    repos.map_values(|r: Repo| r.name@)
}

pub open spec fn branches(locals: Seq<LocalStatus>) -> Seq<Seq<char>> {
    locals.map_values(|l: LocalStatus| l.branch@)
}

/// The name and branch column widths for `repos` and their `locals`: the longest name
/// and the longest branch, in bytes.
pub fn column_widths(repos: &Vec<Repo>, locals: &Vec<LocalStatus>) -> (r: (usize, usize))
    ensures
        r.0 as nat == max_str_len(repo_names(repos@)),
        r.1 as nat == max_str_len(branches(locals@)),
{
    let mut name_width: usize = 0;
    let mut i: usize = 0;
    while i < repos.len()
        invariant
            i <= repos.len(),
            name_width as nat == max_str_len(repo_names(repos@).take(i as int)),
        decreases repos.len() - i,
    {
        let n = repos[i].name.as_str().len();
        proof {
            let t = repo_names(repos@).take(i + 1);
            assert(t.drop_last() == repo_names(repos@).take(i as int));
            assert(t.last() == repos@[i as int].name@);
        }
        if n > name_width {
            name_width = n;
        }
        i = i + 1;
    }
    assert(repo_names(repos@).take(repos.len() as int) == repo_names(repos@));
    let mut branch_width: usize = 0;
    let mut j: usize = 0;
    while j < locals.len()
        invariant
            j <= locals.len(),
            branch_width as nat == max_str_len(branches(locals@).take(j as int)),
        decreases locals.len() - j,
    {
        let n = locals[j].branch.as_str().len();
        proof {
            let t = branches(locals@).take(j + 1);
            assert(t.drop_last() == branches(locals@).take(j as int));
            assert(t.last() == locals@[j as int].branch@);
        }
        if n > branch_width {
            branch_width = n;
        }
        j = j + 1;
    }
    assert(branches(locals@).take(locals.len() as int) == branches(locals@));
    (name_width, branch_width)
}

proof fn lemma_encode_len(s: Seq<char>)
    ensures
        encode_utf8(s).len() >= s.len(),
    decreases s.len(),
{
    if s.len() > 0 {
        lemma_encode_len(s.drop_first());
    }
}

proof fn lemma_max_str_len_bounds(ss: Seq<Seq<char>>, i: int)
    requires
        0 <= i < ss.len(),
    ensures
        str_len(ss[i]) <= max_str_len(ss),
    decreases ss.len(),
{
    if i < ss.len() - 1 {
        lemma_max_str_len_bounds(ss.drop_last(), i);
        assert(ss.drop_last()[i] == ss[i]);
    }
}

/// Columns align: padded to the width `column_widths` gives, every text of the column
/// is exactly that many characters long, since no text has more characters than bytes.
pub proof fn lemma_column_aligns(ss: Seq<Seq<char>>, i: int)
    requires
        0 <= i < ss.len(),
        forall|j: int| 0 <= j < ss.len() ==> encode_utf8(#[trigger] ss[j]).len() <= usize::MAX,
    ensures
        pad_right(ss[i], max_str_len(ss)).len() == max_str_len(ss),
{
    lemma_encode_len(ss[i]);
    lemma_max_str_len_bounds(ss, i);
}


// ---------------------------------------------------------------------------
// What a terminal makes of the rows.
// ---------------------------------------------------------------------------

/// The remote column without its styling.
pub open spec fn plain_label(label: RemoteLabelView) -> Seq<char> {
    match label {
        RemoteLabelView::Checking => "checking..."@,
        RemoteLabelView::Skipped => "skipped"@,
        RemoteLabelView::Resolved(RemoteStateView::NoUpstream) => "no upstream"@,
        RemoteLabelView::Resolved(RemoteStateView::UpToDate) => "up to date"@,
        RemoteLabelView::Resolved(RemoteStateView::Ahead(n)) => seq![up_arrow()] + decimal(n as nat),
        RemoteLabelView::Resolved(RemoteStateView::Behind(n)) => seq![down_arrow()] + decimal(
            n as nat,
        ),
        RemoteLabelView::Resolved(RemoteStateView::Diverged(a, b)) => seq![up_arrow()] + decimal(
            a as nat,
        ) + seq![' ', down_arrow()] + decimal(b as nat),
        RemoteLabelView::Resolved(RemoteStateView::Error(e)) => "error: "@ + e,
    }
}

/// The label's own text (an error message) writes only characters.
pub open spec fn label_inert(label: RemoteLabelView) -> bool {
    match label {
        RemoteLabelView::Resolved(RemoteStateView::Error(e)) => inert(e),
        _ => true,
    }
}

/// The dirty column's word.
pub open spec fn dirty_word(dirty: bool) -> Seq<char> {
    if dirty {
        "dirty"@
    } else {
        "clean"@
    }
}

/// A status row as the terminal shows it, styling left out.
pub open spec fn plain_line(
    name_width: nat,
    branch_width: nat,
    name: Seq<char>,
    kind: RepoKind,
    branch: Seq<char>,
    dirty: bool,
    label: RemoteLabelView,
) -> Seq<char> {
    pad_right(name, name_width) + seq![' '] + kind_text(kind) + seq![' '] + pad_right(
        branch,
        branch_width,
    ) + seq![' '] + pad_right(dirty_word(dirty), 7) + seq![' '] + plain_label(label)
}

proof fn lemma_literals()
    ensures
        "git"@ == seq!['g', 'i', 't'],
        "jj "@ == seq!['j', 'j', ' '],
        "dirty"@ == seq!['d', 'i', 'r', 't', 'y'],
        "clean"@ == seq!['c', 'l', 'e', 'a', 'n'],
        inert("checking..."@),
        inert("skipped"@),
        inert("no upstream"@),
        inert("up to date"@),
        inert("error: "@),
        inert(seq![' ']),
        inert(seq![up_arrow()]),
        inert(seq![' ', down_arrow()]),
        inert(seq![down_arrow()]),
{
    reveal_strlit("git");
    reveal_strlit("jj ");
    reveal_strlit("dirty");
    reveal_strlit("clean");
    reveal_strlit("checking...");
    reveal_strlit("skipped");
    reveal_strlit("no upstream");
    reveal_strlit("up to date");
    reveal_strlit("error: ");
}

proof fn lemma_pad_inert(s: Seq<char>, w: nat)
    requires
        inert(s),
    ensures
        inert(pad_right(s, w)),
{
    if s.len() < w {
        let sp = Seq::new((w - s.len()) as nat, |_i: int| ' ');
        assert(inert(sp)) by {
            assert forall|i: int| 0 <= i < sp.len() implies #[trigger] sp[i] != esc()
                && !crate::terminal::is_line_feed(sp[i]) by {}
        }
        lemma_concat_inert(s, sp);
    }
}

proof fn lemma_label_inert(label: RemoteLabelView)
    requires
        label_inert(label),
    ensures
        inert(plain_label(label)),
{
    lemma_literals();
    match label {
        RemoteLabelView::Resolved(RemoteStateView::Ahead(n)) => {
            lemma_decimal_inert(n as nat);
            lemma_concat_inert(seq![up_arrow()], decimal(n as nat));
        },
        RemoteLabelView::Resolved(RemoteStateView::Behind(n)) => {
            lemma_decimal_inert(n as nat);
            lemma_concat_inert(seq![down_arrow()], decimal(n as nat));
        },
        RemoteLabelView::Resolved(RemoteStateView::Diverged(a, b)) => {
            lemma_decimal_inert(a as nat);
            lemma_decimal_inert(b as nat);
            lemma_concat_inert(seq![up_arrow()], decimal(a as nat));
            lemma_concat_inert(seq![up_arrow()] + decimal(a as nat), seq![' ', down_arrow()]);
            lemma_concat_inert(
                seq![up_arrow()] + decimal(a as nat) + seq![' ', down_arrow()],
                decimal(b as nat),
            );
        },
        RemoteLabelView::Resolved(RemoteStateView::Error(e)) => {
            lemma_concat_inert("error: "@, e);
        },
        _ => {},
    }
}

/// The codes that start a style and end it move nothing and show nothing.
proof fn lemma_run_style(open: Seq<char>, text: Seq<char>, close: Seq<char>, t: Screen)
    requires
        t.mode == Mode::Ground,
        inert(text),
        open.len() == 5 || open.len() == 4,
        open[0] == esc(),
        open[1] == '[',
        open.len() == 5 ==> crate::text::is_digit(open[2]) && crate::text::is_digit(open[3])
            && open[4] == 'm',
        open.len() == 4 ==> crate::text::is_digit(open[2]) && open[3] == 'm',
        close.len() == 5 || close.len() == 4,
        close[0] == esc(),
        close[1] == '[',
        close.len() == 5 ==> crate::text::is_digit(close[2]) && crate::text::is_digit(close[3])
            && close[4] == 'm',
        close.len() == 4 ==> crate::text::is_digit(close[2]) && close[3] == 'm',
    ensures
        run(open + text + close, t) == run(text, t),
{
    lemma_run_concat(open + text, close, t);
    lemma_run_concat(open, text, t);
    reveal_with_fuel(run, 6);
    assert(run(open, t) == t);
    lemma_run_inert(text, t);
    let t2 = run(text, t);
    assert(run(close, t2) == t2);
}

proof fn lemma_run_fg(code: Seq<char>, text: Seq<char>, t: Screen)
    requires
        t.mode == Mode::Ground,
        inert(text),
        code.len() == 2,
        crate::text::is_digit(code[0]) && crate::text::is_digit(code[1]),
    ensures
        run(fg(code, text), t) == run(text, t),
{
    let open = seq![esc(), '['] + code + seq!['m'];
    let close = seq![esc(), '[', '3', '9', 'm'];
    assert(fg(code, text) == open + text + close);
    lemma_run_style(open, text, close, t);
}

proof fn lemma_run_dim(text: Seq<char>, t: Screen)
    requires
        t.mode == Mode::Ground,
        inert(text),
    ensures
        run(dim(text), t) == run(text, t),
{
    lemma_run_style(seq![esc(), '[', '2', 'm'], text, seq![esc(), '[', '0', 'm'], t);
}

proof fn lemma_extend(l: Seq<char>, q: Seq<char>, p: Seq<char>, r: Seq<char>, t: Screen)
    requires
        run(l, t) == run(q, t),
        run(p, run(q, t)) == run(r, run(q, t)),
    ensures
        run(l + p, t) == run(q + r, t),
{
    lemma_run_concat(l, p, t);
    lemma_run_concat(q, r, t);
}

proof fn lemma_run_label(label: RemoteLabelView, t: Screen)
    requires
        t.mode == Mode::Ground,
        label_inert(label),
    ensures
        run(remote_text(label), t) == run(plain_label(label), t),
{
    lemma_label_inert(label);
    match label {
        RemoteLabelView::Checking | RemoteLabelView::Skipped | RemoteLabelView::Resolved(
            RemoteStateView::NoUpstream,
        ) => lemma_run_dim(plain_label(label), t),
        RemoteLabelView::Resolved(RemoteStateView::UpToDate) => lemma_run_fg(
            green(),
            plain_label(label),
            t,
        ),
        RemoteLabelView::Resolved(RemoteStateView::Ahead(_)) => lemma_run_fg(
            yellow(),
            plain_label(label),
            t,
        ),
        RemoteLabelView::Resolved(RemoteStateView::Behind(_)) => lemma_run_fg(
            yellow(),
            plain_label(label),
            t,
        ),
        _ => lemma_run_fg(red(), plain_label(label), t),
    }
}

/// A row, styled, does to the terminal what its plain text does: it is shown without
/// its styling, written on the cursor's row, and moves nothing.
pub proof fn lemma_line_is_plain(
    name_width: nat,
    branch_width: nat,
    name: Seq<char>,
    kind: RepoKind,
    branch: Seq<char>,
    dirty: bool,
    label: RemoteLabelView,
    t: Screen,
)
    requires
        t.mode == Mode::Ground,
        inert(name),
        inert(branch),
        label_inert(label),
    ensures
        run(line_text(name_width, branch_width, name, kind, branch, dirty, label), t) == (Screen {
            written: t.written.insert(t.row),
            shown: t.shown + plain_line(name_width, branch_width, name, kind, branch, dirty, label),
            ..t
        }),
{
    lemma_literals();
    lemma_label_inert(label);
    let sp = seq![' '];
    let q1 = pad_right(name, name_width);
    let q3 = kind_text(kind);
    let q5 = pad_right(branch, branch_width);
    let q7 = pad_right(dirty_word(dirty), 7);
    let q9 = plain_label(label);
    lemma_pad_inert(name, name_width);
    lemma_pad_inert(branch, branch_width);
    lemma_pad_inert(dirty_word(dirty), 7);
    assert(inert(q3));
    let p1 = fg(cyan(), q1);
    let p3 = dim(q3);
    let p7 = dirty_text(dirty);
    let p9 = remote_text(label);
    // Build the row piece by piece, each styled piece acting as its plain text.
    lemma_run_fg(cyan(), q1, t);
    let c1 = q1;
    lemma_concat_inert(c1, sp);
    let c2 = c1 + sp;
    lemma_run_inert(c1, t);
    lemma_extend(p1, c1, sp, sp, t);
    lemma_run_inert(c2, t);
    lemma_run_dim(q3, run(c2, t));
    lemma_extend(p1 + sp, c2, p3, q3, t);
    lemma_concat_inert(c2, q3);
    let c3 = c2 + q3;
    lemma_concat_inert(c3, sp);
    let c4 = c3 + sp;
    lemma_run_inert(c3, t);
    lemma_extend(p1 + sp + p3, c3, sp, sp, t);
    lemma_concat_inert(c4, q5);
    let c5 = c4 + q5;
    lemma_run_inert(c4, t);
    lemma_extend(p1 + sp + p3 + sp, c4, q5, q5, t);
    lemma_concat_inert(c5, sp);
    let c6 = c5 + sp;
    lemma_run_inert(c5, t);
    lemma_extend(p1 + sp + p3 + sp + q5, c5, sp, sp, t);
    lemma_run_inert(c6, t);
    if dirty {
        lemma_run_fg(red(), q7, run(c6, t));
    } else {
        lemma_run_fg(green(), q7, run(c6, t));
    }
    lemma_extend(p1 + sp + p3 + sp + q5 + sp, c6, p7, q7, t);
    lemma_concat_inert(c6, q7);
    let c7 = c6 + q7;
    lemma_concat_inert(c7, sp);
    let c8 = c7 + sp;
    lemma_run_inert(c7, t);
    lemma_extend(p1 + sp + p3 + sp + q5 + sp + p7, c7, sp, sp, t);
    lemma_run_inert(c8, t);
    lemma_run_label(label, run(c8, t));
    lemma_extend(p1 + sp + p3 + sp + q5 + sp + p7 + sp, c8, p9, q9, t);
    lemma_concat_inert(c8, q9);
    let c9 = c8 + q9;
    lemma_run_inert(c9, t);
    assert(c9[q1.len() as int] == ' ');
    assert(crate::terminal::writes(c9));
    assert(c9 == plain_line(name_width, branch_width, name, kind, branch, dirty, label));
    assert(line_text(name_width, branch_width, name, kind, branch, dirty, label) == p1 + sp + p3
        + sp + q5 + sp + p7 + sp + p9);
}


/// The name, kind, branch and dirty columns of a row, each followed by a space.
pub open spec fn row_prefix(
    name_width: nat,
    branch_width: nat,
    name: Seq<char>,
    kind: RepoKind,
    branch: Seq<char>,
    dirty: bool,
) -> Seq<char> {
    fg(cyan(), pad_right(name, name_width)) + seq![' '] + dim(kind_text(kind)) + seq![' ']
        + pad_right(branch, branch_width) + seq![' '] + dirty_text(dirty) + seq![' ']
}

/// `row_prefix` without its styling.
pub open spec fn plain_prefix(
    name_width: nat,
    branch_width: nat,
    name: Seq<char>,
    kind: RepoKind,
    branch: Seq<char>,
    dirty: bool,
) -> Seq<char> {
    pad_right(name, name_width) + seq![' '] + kind_text(kind) + seq![' '] + pad_right(
        branch,
        branch_width,
    ) + seq![' '] + pad_right(dirty_word(dirty), 7) + seq![' ']
}

/// The label's own text (an error message) holds no `ESC`.
pub open spec fn label_no_esc(label: RemoteLabelView) -> bool {
    match label {
        RemoteLabelView::Resolved(RemoteStateView::Error(e)) => no_esc(e),
        _ => true,
    }
}

proof fn lemma_inert_no_esc(s: Seq<char>)
    requires
        inert(s),
    ensures
        no_esc(s),
{
    assert forall|i: int| 0 <= i < s.len() implies #[trigger] s[i] != esc() by {
        assert(s[i] != esc() && !crate::terminal::is_line_feed(s[i]));
    }
}

proof fn lemma_concat_no_esc(a: Seq<char>, b: Seq<char>)
    requires
        no_esc(a),
        no_esc(b),
    ensures
        no_esc(a + b),
{
    assert forall|i: int| 0 <= i < (a + b).len() implies #[trigger] (a + b)[i] != esc() by {
        if i < a.len() {
            assert((a + b)[i] == a[i]);
        } else {
            assert((a + b)[i] == b[i - a.len()]);
        }
    }
}

proof fn lemma_pad_no_esc(s: Seq<char>, w: nat)
    requires
        no_esc(s),
    ensures
        no_esc(pad_right(s, w)),
{
    if s.len() < w {
        let sp = Seq::new((w - s.len()) as nat, |_i: int| ' ');
        assert(no_esc(sp));
        lemma_concat_no_esc(s, sp);
    }
}

/// A styled piece whose text holds no `ESC` shows just its text.
proof fn lemma_style_shown(open: Seq<char>, text: Seq<char>, close: Seq<char>, t: Screen)
    requires
        t.mode == Mode::Ground,
        no_esc(text),
        open.len() == 5 || open.len() == 4,
        open[0] == esc(),
        open[1] == '[',
        open.len() == 5 ==> crate::text::is_digit(open[2]) && crate::text::is_digit(open[3])
            && open[4] == 'm',
        open.len() == 4 ==> crate::text::is_digit(open[2]) && open[3] == 'm',
        close.len() == 5 || close.len() == 4,
        close[0] == esc(),
        close[1] == '[',
        close.len() == 5 ==> crate::text::is_digit(close[2]) && crate::text::is_digit(close[3])
            && close[4] == 'm',
        close.len() == 4 ==> crate::text::is_digit(close[2]) && close[3] == 'm',
    ensures
        run(open + text + close, t).mode == Mode::Ground,
        run(open + text + close, t).shown == t.shown + text,
{
    lemma_run_concat(open + text, close, t);
    lemma_run_concat(open, text, t);
    reveal_with_fuel(run, 6);
    assert(run(open, t) == t);
    lemma_run_no_esc(text, t);
    let t2 = run(text, t);
    assert(run(close, t2) == t2);
}

proof fn lemma_fg_shown(code: Seq<char>, text: Seq<char>, t: Screen)
    requires
        t.mode == Mode::Ground,
        no_esc(text),
        code.len() == 2,
        crate::text::is_digit(code[0]) && crate::text::is_digit(code[1]),
    ensures
        run(fg(code, text), t).mode == Mode::Ground,
        run(fg(code, text), t).shown == t.shown + text,
{
    let open = seq![esc(), '['] + code + seq!['m'];
    let close = seq![esc(), '[', '3', '9', 'm'];
    assert(fg(code, text) == open + text + close);
    lemma_style_shown(open, text, close, t);
}

/// Appending a piece that shows `q` to text that showed `c`.
proof fn lemma_shown_step(l: Seq<char>, p: Seq<char>, c: Seq<char>, q: Seq<char>, t: Screen)
    requires
        run(l, t).mode == Mode::Ground,
        run(l, t).shown == t.shown + c,
        run(p, run(l, t)).mode == Mode::Ground,
        run(p, run(l, t)).shown == run(l, t).shown + q,
    ensures
        run(l + p, t).mode == Mode::Ground,
        run(l + p, t).shown == t.shown + (c + q),
{
    lemma_run_concat(l, p, t);
    assert(t.shown + c + q == t.shown + (c + q));
}

proof fn lemma_space_shown(t: Screen)
    requires
        t.mode == Mode::Ground,
    ensures
        run(seq![' '], t).mode == Mode::Ground,
        run(seq![' '], t).shown == t.shown + seq![' '],
{
    lemma_run_no_esc(seq![' '], t);
}

/// The first four columns of a row show their plain text, whatever else the terminal
/// has read, as long as the name and branch hold no `ESC`.
pub proof fn lemma_prefix_shown(
    nw: nat,
    bw: nat,
    name: Seq<char>,
    kind: RepoKind,
    branch: Seq<char>,
    dirty: bool,
    t: Screen,
)
    requires
        t.mode == Mode::Ground,
        no_esc(name),
        no_esc(branch),
    ensures
        run(row_prefix(nw, bw, name, kind, branch, dirty), t).mode == Mode::Ground,
        run(row_prefix(nw, bw, name, kind, branch, dirty), t).shown == t.shown + plain_prefix(
            nw,
            bw,
            name,
            kind,
            branch,
            dirty,
        ),
{
    lemma_literals();
    let sp = seq![' '];
    let q1 = pad_right(name, nw);
    let q3 = kind_text(kind);
    let q5 = pad_right(branch, bw);
    let q7 = pad_right(dirty_word(dirty), 7);
    lemma_pad_no_esc(name, nw);
    lemma_pad_no_esc(branch, bw);
    lemma_pad_inert(dirty_word(dirty), 7);
    lemma_inert_no_esc(q7);
    lemma_inert_no_esc(q3);
    let p1 = fg(cyan(), q1);
    let p3 = dim(q3);
    let p7 = dirty_text(dirty);
    lemma_fg_shown(cyan(), q1, t);
    assert(t.shown + q1 == t.shown + q1);
    let l1 = p1;
    let c1 = q1;
    lemma_space_shown(run(l1, t));
    lemma_shown_step(l1, sp, c1, sp, t);
    let l2 = l1 + sp;
    let c2 = c1 + sp;
    lemma_style_shown(seq![esc(), '[', '2', 'm'], q3, seq![esc(), '[', '0', 'm'], run(l2, t));
    assert(p3 == seq![esc(), '[', '2', 'm'] + q3 + seq![esc(), '[', '0', 'm']);
    lemma_shown_step(l2, p3, c2, q3, t);
    let l3 = l2 + p3;
    let c3 = c2 + q3;
    lemma_space_shown(run(l3, t));
    lemma_shown_step(l3, sp, c3, sp, t);
    let l4 = l3 + sp;
    let c4 = c3 + sp;
    lemma_run_no_esc(q5, run(l4, t));
    lemma_shown_step(l4, q5, c4, q5, t);
    let l5 = l4 + q5;
    let c5 = c4 + q5;
    lemma_space_shown(run(l5, t));
    lemma_shown_step(l5, sp, c5, sp, t);
    let l6 = l5 + sp;
    let c6 = c5 + sp;
    if dirty {
        lemma_fg_shown(red(), q7, run(l6, t));
    } else {
        lemma_fg_shown(green(), q7, run(l6, t));
    }
    lemma_shown_step(l6, p7, c6, q7, t);
    let l7 = l6 + p7;
    let c7 = c6 + q7;
    lemma_space_shown(run(l7, t));
    lemma_shown_step(l7, sp, c7, sp, t);
    assert(l7 + sp == row_prefix(nw, bw, name, kind, branch, dirty));
    assert(c7 + sp == plain_prefix(nw, bw, name, kind, branch, dirty));
}

/// A label whose own text holds no `ESC` shows as its plain text.
pub proof fn lemma_label_shown(label: RemoteLabelView)
    requires
        label_no_esc(label),
    ensures
        strip_ansi(remote_text(label)) == plain_label(label),
{
    let t = crate::terminal::at_row(0);
    let q = plain_label(label);
    lemma_literals();
    match label {
        RemoteLabelView::Resolved(RemoteStateView::Error(e)) => {
            lemma_inert_no_esc("error: "@);
            lemma_concat_no_esc("error: "@, e);
        },
        _ => {
            lemma_label_inert(label);
            lemma_inert_no_esc(q);
        },
    }
    match label {
        RemoteLabelView::Checking | RemoteLabelView::Skipped | RemoteLabelView::Resolved(
            RemoteStateView::NoUpstream,
        ) => {
            lemma_style_shown(seq![esc(), '[', '2', 'm'], q, seq![esc(), '[', '0', 'm'], t);
            assert(remote_text(label) == seq![esc(), '[', '2', 'm'] + q + seq![esc(), '[', '0', 'm']);
        },
        RemoteLabelView::Resolved(RemoteStateView::UpToDate) => lemma_fg_shown(green(), q, t),
        RemoteLabelView::Resolved(RemoteStateView::Ahead(_)) => lemma_fg_shown(yellow(), q, t),
        RemoteLabelView::Resolved(RemoteStateView::Behind(_)) => lemma_fg_shown(yellow(), q, t),
        _ => lemma_fg_shown(red(), q, t),
    }
    assert(t.shown + q == q);
}

/// Columns align: as the terminal shows a row (styling left out), when the name and
/// branch are no longer than their column widths `nw` and `bw`, the name fills columns
/// `0..nw`, the kind starts at column `nw + 1`, the branch at `nw + 5`, the dirty field
/// at `nw + bw + 6` and the remote label at `nw + bw + 14`, single spaces between them,
/// whatever the names, branches, kinds and labels; a label whose text holds no `ESC`
/// shows as its plain text there. (A name or branch holding `ESC` is left out: it could
/// start a control sequence that hides what follows.)
pub proof fn lemma_row_columns(
    nw: nat,
    bw: nat,
    name: Seq<char>,
    kind: RepoKind,
    branch: Seq<char>,
    dirty: bool,
    label: RemoteLabelView,
)
    requires
        name.len() <= nw,
        branch.len() <= bw,
        no_esc(name),
        no_esc(branch),
    ensures
        ({
            let s = strip_ansi(line_text(nw, bw, name, kind, branch, dirty, label));
            let n = nw as int;
            let b = bw as int;
            &&& s.len() >= n + b + 14
            &&& s.subrange(0, n) == pad_right(name, nw)
            &&& s[n] == ' '
            &&& s.subrange(n + 1, n + 4) == kind_text(kind)
            &&& s[n + 4] == ' '
            &&& s.subrange(n + 5, n + 5 + b) == pad_right(branch, bw)
            &&& s[n + b + 5] == ' '
            &&& s.subrange(n + b + 6, n + b + 13) == pad_right(dirty_word(dirty), 7)
            &&& s[n + b + 13] == ' '
            &&& s.skip(n + b + 14) == strip_ansi(remote_text(label))
            &&& label_no_esc(label) ==> s == plain_line(nw, bw, name, kind, branch, dirty, label)
                && s.skip(n + b + 14) == plain_label(label)
        }),
{
    lemma_literals();
    let t0 = crate::terminal::at_row(0);
    let pre = row_prefix(nw, bw, name, kind, branch, dirty);
    let plain = plain_prefix(nw, bw, name, kind, branch, dirty);
    let p9 = remote_text(label);
    lemma_prefix_shown(nw, bw, name, kind, branch, dirty, t0);
    let t1 = run(pre, t0);
    assert(t0.shown + plain == plain);
    assert(line_text(nw, bw, name, kind, branch, dirty, label) == pre + p9);
    lemma_run_concat(pre, p9, t0);
    lemma_shown_independent(p9, t1, t0);
    assert(t0.shown.skip(0) == t0.shown);
    assert(run(p9, t0).shown.skip(0) == run(p9, t0).shown);
    let s = strip_ansi(line_text(nw, bw, name, kind, branch, dirty, label));
    assert(s == run(p9, t1).shown);
    let n = nw as int;
    let b = bw as int;
    let q1 = pad_right(name, nw);
    let q3 = kind_text(kind);
    let q5 = pad_right(branch, bw);
    let q7 = pad_right(dirty_word(dirty), 7);
    assert(q1.len() == nw);
    assert(q3.len() == 3);
    assert(q5.len() == bw);
    assert(q7.len() == 7);
    assert(plain.len() == n + b + 14);
    assert(s.take(n + b + 14) == plain);
    assert(s.subrange(0, n) =~= q1) by {
        assert forall|i: int| 0 <= i < n implies s[i] == q1[i] by {
            assert(s.take(n + b + 14)[i] == s[i]);
        }
    }
    assert(s.subrange(n + 1, n + 4) =~= q3) by {
        assert forall|i: int| 0 <= i < 3 implies s[n + 1 + i] == q3[i] by {
            assert(s.take(n + b + 14)[n + 1 + i] == s[n + 1 + i]);
        }
    }
    assert(s.subrange(n + 5, n + 5 + b) =~= q5) by {
        assert forall|i: int| 0 <= i < b implies s[n + 5 + i] == q5[i] by {
            assert(s.take(n + b + 14)[n + 5 + i] == s[n + 5 + i]);
        }
    }
    assert(s.subrange(n + b + 6, n + b + 13) =~= q7) by {
        assert forall|i: int| 0 <= i < 7 implies s[n + b + 6 + i] == q7[i] by {
            assert(s.take(n + b + 14)[n + b + 6 + i] == s[n + b + 6 + i]);
        }
    }
    assert(s[n] == ' ') by {
        assert(s.take(n + b + 14)[n] == s[n]);
    }
    assert(s[n + 4] == ' ') by {
        assert(s.take(n + b + 14)[n + 4] == s[n + 4]);
    }
    assert(s[n + b + 5] == ' ') by {
        assert(s.take(n + b + 14)[n + b + 5] == s[n + b + 5]);
    }
    assert(s[n + b + 13] == ' ') by {
        assert(s.take(n + b + 14)[n + b + 13] == s[n + b + 13]);
    }
    if label_no_esc(label) {
        lemma_label_shown(label);
        assert(s =~= plain + plain_label(label)) by {
            assert(s == s.take(n + b + 14) + s.skip(n + b + 14));
        }
        assert(plain + plain_label(label) == plain_line(nw, bw, name, kind, branch, dirty, label));
    }
}

/// A row rewrite leaves the terminal as it found it but for that row: starting with the
/// cursor on the line below `rows` printed rows (rows `0..rows`), rewriting row `index`
/// moves up `rows - index` lines and back down as many (the newline and the move down),
/// so the cursor ends on the row it started on; exactly one row, `index`, is cleared,
/// and it is the only row anything is written on. (Text holding `ESC` or a line feed is
/// left out, as it could start a control sequence or move the cursor to another line.)
pub proof fn lemma_rewrite_touches_one_row(
    rows: nat,
    index: nat,
    nw: nat,
    bw: nat,
    name: Seq<char>,
    kind: RepoKind,
    branch: Seq<char>,
    dirty: bool,
    label: RemoteLabelView,
)
    requires
        index < rows,
        inert(name),
        inert(branch),
        label_inert(label),
    ensures
        ({
            let t = run(
                rewrite_text(
                    (rows - index) as nat,
                    line_text(nw, bw, name, kind, branch, dirty, label),
                ),
                at_row(rows as int),
            );
            &&& t.mode == Mode::Ground
            &&& t.row == rows
            &&& t.cleared == set![index as int]
            &&& t.written == set![index as int]
        }),
{
    lemma_rewrite_effect(rows, index, nw, bw, name, kind, branch, dirty, label, at_row(rows as int));
    assert(Set::<int>::empty().insert(index as int) =~= set![index as int]);
}

/// A row rewrite, read with the cursor on row `rows`, clears and writes row `index` and
/// leaves the cursor where it was.
pub proof fn lemma_rewrite_effect(
    rows: nat,
    index: nat,
    nw: nat,
    bw: nat,
    name: Seq<char>,
    kind: RepoKind,
    branch: Seq<char>,
    dirty: bool,
    label: RemoteLabelView,
    t0: Screen,
)
    requires
        index < rows,
        t0.mode == Mode::Ground,
        t0.row == rows,
        inert(name),
        inert(branch),
        label_inert(label),
    ensures
        ({
            let t = run(
                rewrite_text(
                    (rows - index) as nat,
                    line_text(nw, bw, name, kind, branch, dirty, label),
                ),
                t0,
            );
            &&& t.mode == Mode::Ground
            &&& t.row == rows
            &&& t.cleared == t0.cleared.insert(index as int)
            &&& t.written == t0.written.insert(index as int)
        }),
{
    let up = (rows - index) as nat;
    let line = line_text(nw, bw, name, kind, branch, dirty, label);
    let cu = cursor_up(up);
    let clr = seq!['\r', esc(), '[', '2', 'K'];
    let nl = seq!['\n'];
    lemma_run_cursor_up(up, t0);
    let t3 = run(cu, t0);
    lemma_run_clear(t3);
    let t4 = run(clr, t3);
    lemma_line_is_plain(nw, bw, name, kind, branch, dirty, label, t4);
    let t5 = run(line, t4);
    assert(t5.written =~= t0.written.insert(index as int));
    lemma_run_newline(t5);
    let t6 = run(nl, t5);
    lemma_run_concat(cu, clr, t0);
    lemma_run_concat(cu + clr, line, t0);
    lemma_run_concat(cu + clr + line, nl, t0);
    if up > 1 {
        let down = (up - 1) as nat;
        let cd = cursor_down(down);
        lemma_run_cursor_down(down, t6);
        lemma_run_concat(cu + clr + line + nl, cd, t0);
        assert(rewrite_text(up, line) == cu + clr + line + nl + cd);
    } else {
        assert(rewrite_text(up, line) == cu + clr + line + nl + Seq::<char>::empty());
        assert(cu + clr + line + nl + Seq::<char>::empty() == cu + clr + line + nl);
    }
}

proof fn lemma_run_cursor_up(n: nat, t: Screen)
    requires
        t.mode == Mode::Ground,
        n > 0,
    ensures
        run(cursor_up(n), t) == (Screen { row: t.row - n, ..t }),
{
    let pre = seq![esc(), '['];
    reveal_with_fuel(run, 3);
    let t1 = run(pre, t);
    assert(t1 == Screen { mode: Mode::Csi(0), ..t });
    lemma_run_decimal(n, t1);
    lemma_run_concat(pre, decimal(n), t);
    lemma_run_concat(pre + decimal(n), seq!['A'], t);
}

proof fn lemma_run_cursor_down(n: nat, t: Screen)
    requires
        t.mode == Mode::Ground,
        n > 0,
    ensures
        run(cursor_down(n), t) == (Screen { row: t.row + n, ..t }),
{
    let pre = seq![esc(), '['];
    reveal_with_fuel(run, 3);
    let t1 = run(pre, t);
    assert(t1 == Screen { mode: Mode::Csi(0), ..t });
    lemma_run_decimal(n, t1);
    lemma_run_concat(pre, decimal(n), t);
    lemma_run_concat(pre + decimal(n), seq!['B'], t);
}

proof fn lemma_run_clear(t: Screen)
    requires
        t.mode == Mode::Ground,
    ensures
        run(seq!['\r', esc(), '[', '2', 'K'], t) == (Screen {
            cleared: t.cleared.insert(t.row),
            shown: t.shown.push('\r'),
            ..t
        }),
{
    reveal_with_fuel(run, 6);
}

proof fn lemma_run_newline(t: Screen)
    requires
        t.mode == Mode::Ground,
    ensures
        run(seq!['\n'], t) == (Screen { row: t.row + 1, shown: t.shown.push('\n'), ..t }),
{
    reveal_with_fuel(run, 2);
}


/// One call on a renderer, as the terminal receives its text: a printed row (written
/// with a line break after it) or a rewritten one.
pub enum RowCall {
    Print { name: Seq<char>, kind: RepoKind, branch: Seq<char>, dirty: bool, checking: bool },
    Update {
        index: nat,
        name: Seq<char>,
        kind: RepoKind,
        branch: Seq<char>,
        dirty: bool,
        state: RemoteStateView,
    },
}

/// How many rows `calls` print.
pub open spec fn printed(calls: Seq<RowCall>) -> nat
    decreases calls.len(),
{
    if calls.len() == 0 {
        0
    } else {
        printed(calls.drop_last()) + if calls.last() is Print {
            1nat
        } else {
            0nat
        }
    }
}

/// The text of one call, made after `rows` rows were printed: `print_row`'s row and a
/// line break, or `update_row`'s rewrite.
pub open spec fn call_text(nw: nat, bw: nat, rows: nat, c: RowCall) -> Seq<char> {
    match c {
        RowCall::Print { name, kind, branch, dirty, checking } => line_text(
            nw,
            bw,
            name,
            kind,
            branch,
            dirty,
            if checking {
                RemoteLabelView::Checking
            } else {
                RemoteLabelView::Skipped
            },
        ) + seq!['\n'],
        RowCall::Update { index, name, kind, branch, dirty, state } => rewrite_text(
            (rows - index) as nat,
            line_text(nw, bw, name, kind, branch, dirty, RemoteLabelView::Resolved(state)),
        ),
    }
}

/// All the text that `calls` write, in order.
pub open spec fn session_text(nw: nat, bw: nat, calls: Seq<RowCall>) -> Seq<char>
    decreases calls.len(),
{
    if calls.len() == 0 {
        seq![]
    } else {
        session_text(nw, bw, calls.drop_last()) + call_text(
            nw,
            bw,
            printed(calls.drop_last()),
            calls.last(),
        )
    }
}

/// A call the renderer accepts (a rewrite names a printed row), with texts that neither
/// start control sequences nor break lines.
pub open spec fn call_ok(rows: nat, c: RowCall) -> bool {
    match c {
        RowCall::Print { name, branch, .. } => inert(name) && inert(branch),
        RowCall::Update { index, name, branch, state, .. } => index < rows && inert(name)
            && inert(branch) && label_inert(RemoteLabelView::Resolved(state)),
    }
}

pub open spec fn calls_ok(calls: Seq<RowCall>) -> bool
    decreases calls.len(),
{
    calls.len() == 0 || (calls_ok(calls.drop_last()) && call_ok(
        printed(calls.drop_last()),
        calls.last(),
    ))
}

/// The rows printed so far: `0..k`.
pub open spec fn row_set(k: nat) -> Set<int> {
    Set::new(|i: int| 0 <= i < k)
}

/// Rows stay in place: starting on an empty line, after any sequence of `print_row`
/// and `update_row` calls that printed `k` rows, the cursor is on row `k`, just below the
/// last row, so row `i` lies `k - i` lines above it; each print wrote its row `i` on the
/// `i`-th line, the rows written on are exactly `0..k`, and rewrites cleared only rows
/// among them. (`print_row` adds one to the renderer's count and `update_row` leaves it,
/// so the count is `k`.)
pub proof fn lemma_rows_stay_in_place(nw: nat, bw: nat, calls: Seq<RowCall>)
    requires
        calls_ok(calls),
    ensures
        ({
            let t = run(session_text(nw, bw, calls), at_row(0));
            &&& t.mode == Mode::Ground
            &&& t.row == printed(calls)
            &&& t.written == row_set(printed(calls))
            &&& t.cleared.subset_of(row_set(printed(calls)))
        }),
    decreases calls.len(),
{
    if calls.len() == 0 {
        assert(row_set(0) =~= Set::<int>::empty());
    } else {
        let prev = calls.drop_last();
        let k = printed(prev);
        lemma_rows_stay_in_place(nw, bw, prev);
        let t0 = run(session_text(nw, bw, prev), at_row(0));
        let text = call_text(nw, bw, k, calls.last());
        lemma_run_concat(session_text(nw, bw, prev), text, at_row(0));
        match calls.last() {
            RowCall::Print { name, kind, branch, dirty, checking } => {
                let label = if checking {
                    RemoteLabelView::Checking
                } else {
                    RemoteLabelView::Skipped
                };
                let line = line_text(nw, bw, name, kind, branch, dirty, label);
                lemma_line_is_plain(nw, bw, name, kind, branch, dirty, label, t0);
                lemma_run_newline(run(line, t0));
                lemma_run_concat(line, seq!['\n'], t0);
                assert(row_set(k).insert(k as int) =~= row_set(k + 1));
                assert(row_set(k).subset_of(row_set(k + 1)));
            },
            RowCall::Update { index, name, kind, branch, dirty, state } => {
                lemma_rewrite_effect(
                    k,
                    index,
                    nw,
                    bw,
                    name,
                    kind,
                    branch,
                    dirty,
                    RemoteLabelView::Resolved(state),
                    t0,
                );
                assert(row_set(k).insert(index as int) =~= row_set(k));
            },
        }
    }
}

} // verus!
