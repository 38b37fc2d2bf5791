//! A model of how a terminal reads written text: which characters it shows, which row
//! the cursor is on, which rows get characters written on them and which are cleared.
//! It reads the control sequences that status rows use: `ESC [ n A` (up), `ESC [ n B`
//! (down), `ESC [ 2 K` (clear the row), and `ESC [ ... m` (styles, which move nothing).

use vstd::prelude::*;
use crate::text::{decimal, digit_char, digit_value, is_digit};

verus! {

pub open spec fn esc() -> char {
    '\u{1b}'
}

/// Where the terminal is in reading a control sequence.
pub enum Mode {
    /// Plain text.
    Ground,
    /// Just after `ESC`.
    Escape,
    /// Inside `ESC [`, with the number read so far.
    Csi(nat),
}

/// What the terminal has done with the text read so far.
pub struct Screen {
    pub mode: Mode,
    /// The cursor's row; rows are numbered downwards.
    pub row: int,
    /// Rows erased by `ESC [ 2 K`.
    pub cleared: Set<int>,
    /// Rows that got a character written on them.
    pub written: Set<int>,
    /// The characters shown, in order, control sequences left out.
    pub shown: Seq<char>,
}

/// Characters that move the cursor to the next line.
pub open spec fn is_line_feed(c: char) -> bool {
    c == '\n' || c == '\u{b}' || c == '\u{c}'
}

/// The terminal reads one character.
pub open spec fn feed(t: Screen, c: char) -> Screen {
    match t.mode {
        Mode::Ground => {
            if c == esc() {
                Screen { mode: Mode::Escape, ..t }
            } else if is_line_feed(c) {
                Screen { row: t.row + 1, shown: t.shown.push(c), ..t }
            } else if c == '\r' {
                Screen { shown: t.shown.push(c), ..t }
            } else {
                Screen { written: t.written.insert(t.row), shown: t.shown.push(c), ..t }
            }
        },
        Mode::Escape => {
            if c == '[' {
                Screen { mode: Mode::Csi(0), ..t }
            } else {
                Screen { mode: Mode::Ground, ..t }
            }
        },
        Mode::Csi(n) => {
            if is_digit(c) {
                Screen { mode: Mode::Csi(n * 10 + digit_value(c)), ..t }
            } else if c == ';' {
                Screen { mode: Mode::Csi(0), ..t }
            } else {
                let m: int = if n == 0 {
                    1
                } else {
                    n as int
                };
                if c == 'A' {
                    Screen { mode: Mode::Ground, row: t.row - m, ..t }
                } else if c == 'B' {
                    Screen { mode: Mode::Ground, row: t.row + m, ..t }
                } else if c == 'K' && n == 2 {
                    Screen { mode: Mode::Ground, cleared: t.cleared.insert(t.row), ..t }
                } else {
                    Screen { mode: Mode::Ground, ..t }
                }
            }
        },
    }
}

/// The terminal reads `s`.
pub open spec fn run(s: Seq<char>, t: Screen) -> Screen
    decreases s.len(),
{
    if s.len() == 0 {
        t
    } else {
        run(s.drop_first(), feed(t, s[0]))
    }
}

/// A terminal reading plain text with the cursor on `row`, nothing done yet.
pub open spec fn at_row(row: int) -> Screen {
    Screen { mode: Mode::Ground, row, cleared: Set::empty(), written: Set::empty(), shown: seq![] }
}

/// `s` with its control sequences left out.
pub open spec fn strip_ansi(s: Seq<char>) -> Seq<char> {
    run(s, at_row(0)).shown
}

/// Text that moves the cursor to no other line and starts no control sequence: no
/// `ESC`, no line feed.
pub open spec fn inert(s: Seq<char>) -> bool {
    forall|i: int|
        0 <= i < s.len() ==> #[trigger] s[i] != esc() && !is_line_feed(s[i])
}

pub proof fn lemma_run_concat(a: Seq<char>, b: Seq<char>, t: Screen)
    ensures
        run(a + b, t) == run(b, run(a, t)),
    decreases a.len(),
{
    if a.len() == 0 {
        assert(a + b == b);
    } else {
        assert((a + b).drop_first() == a.drop_first() + b);
        assert((a + b)[0] == a[0]);
        lemma_run_concat(a.drop_first(), b, feed(t, a[0]));
    }
}

/// Some character of `s` is not a carriage return: reading it writes on the row.
pub open spec fn writes(s: Seq<char>) -> bool {
    exists|i: int| 0 <= i < s.len() && s[i] != '\r'
}

/// Plain text is shown as it is, written on the cursor's row (unless it is only carriage
/// returns); nothing else changes.
pub proof fn lemma_run_inert(s: Seq<char>, t: Screen)
    requires
        t.mode == Mode::Ground,
        inert(s),
    ensures
        run(s, t) == (Screen {
            shown: t.shown + s,
            written: if writes(s) {
                t.written.insert(t.row)
            } else {
                t.written
            },
            ..t
        }),
    decreases s.len(),
{
    if s.len() == 0 {
        assert(t.shown + s == t.shown);
    } else {
        let t1 = feed(t, s[0]);
        let r = s.drop_first();
        assert(inert(r)) by {
            assert forall|i: int| 0 <= i < r.len() implies #[trigger] r[i] != esc()
                && !is_line_feed(r[i]) by {
                assert(r[i] == s[i + 1]);
            }
        }
        assert(s[0] != esc() && !is_line_feed(s[0]));
        lemma_run_inert(r, t1);
        assert(t1.shown + r == t.shown + s);
        if s[0] == '\r' {
            assert(writes(s) == writes(r)) by {
                if writes(s) {
                    let i = choose|i: int| 0 <= i < s.len() && s[i] != '\r';
                    assert(r[i - 1] == s[i]);
                }
                if writes(r) {
                    let i = choose|i: int| 0 <= i < r.len() && r[i] != '\r';
                    assert(s[i + 1] == r[i]);
                }
            }
        } else {
            assert(writes(s));
            assert(t1.written.insert(t1.row) =~= t.written.insert(t.row));
        }
    }
}

/// Text without `ESC`, whatever else it holds.
pub open spec fn no_esc(s: Seq<char>) -> bool {
    forall|i: int| 0 <= i < s.len() ==> #[trigger] s[i] != esc()
}

/// Text without `ESC` is shown as it is and leaves the terminal reading plain text.
pub proof fn lemma_run_no_esc(s: Seq<char>, t: Screen)
    requires
        t.mode == Mode::Ground,
        no_esc(s),
    ensures
        run(s, t).mode == Mode::Ground,
        run(s, t).shown == t.shown + s,
    decreases s.len(),
{
    if s.len() == 0 {
        assert(t.shown + s == t.shown);
    } else {
        let r = s.drop_first();
        assert(no_esc(r)) by {
            assert forall|i: int| 0 <= i < r.len() implies #[trigger] r[i] != esc() by {
                assert(r[i] == s[i + 1]);
            }
        }
        assert(s[0] != esc());
        lemma_run_no_esc(r, feed(t, s[0]));
        assert(feed(t, s[0]).shown + r == t.shown + s);
    }
}

/// What the terminal shows of `s` depends only on where it is in reading a control
/// sequence: from any state it adds `strip_from(s, t.mode)` to what it showed.
pub proof fn lemma_shown_independent(s: Seq<char>, t1: Screen, t2: Screen)
    requires
        t1.mode == t2.mode,
    ensures
        run(s, t1).mode == run(s, t2).mode,
        run(s, t1).shown.len() >= t1.shown.len(),
        run(s, t1).shown.take(t1.shown.len() as int) == t1.shown,
        run(s, t1).shown.skip(t1.shown.len() as int) == run(s, t2).shown.skip(
            t2.shown.len() as int,
        ),
    decreases s.len(),
{
    if s.len() == 0 {
        assert(t1.shown.take(t1.shown.len() as int) == t1.shown);
        assert(t1.shown.skip(t1.shown.len() as int) =~= t2.shown.skip(t2.shown.len() as int));
    } else {
        let f1 = feed(t1, s[0]);
        let f2 = feed(t2, s[0]);
        lemma_shown_independent(s.drop_first(), f1, f2);
        let u1 = run(s.drop_first(), f1);
        let u2 = run(s.drop_first(), f2);
        assert(f1.shown == t1.shown || f1.shown == t1.shown.push(s[0]));
        assert(f1.shown == t1.shown <==> f2.shown == t2.shown);
        assert(u1.shown.take(t1.shown.len() as int) =~= t1.shown) by {
            assert(u1.shown.take(f1.shown.len() as int) == f1.shown);
            assert forall|i: int| 0 <= i < t1.shown.len() implies u1.shown[i] == t1.shown[i] by {
                assert(u1.shown.take(f1.shown.len() as int)[i] == u1.shown[i]);
                assert(f1.shown[i] == t1.shown[i]);
            }
        }
        if f1.shown == t1.shown {
        } else {
            assert(u1.shown.skip(t1.shown.len() as int) =~= seq![s[0]] + u1.shown.skip(
                f1.shown.len() as int,
            )) by {
                assert(u1.shown.take(f1.shown.len() as int) == f1.shown);
                assert(u1.shown[t1.shown.len() as int] == u1.shown.take(
                    f1.shown.len() as int,
                )[t1.shown.len() as int]);
            }
            assert(u2.shown.skip(t2.shown.len() as int) =~= seq![s[0]] + u2.shown.skip(
                f2.shown.len() as int,
            )) by {
                lemma_shown_independent(s.drop_first(), f2, f1);
                assert(u2.shown.take(f2.shown.len() as int) == f2.shown);
                assert(u2.shown[t2.shown.len() as int] == u2.shown.take(
                    f2.shown.len() as int,
                )[t2.shown.len() as int]);
            }
        }
    }
}

proof fn lemma_digit_char(d: nat)
    requires
        d < 10,
    ensures
        is_digit(digit_char(d)),
        digit_value(digit_char(d)) == d,
{
}

/// Reading the decimal digits of `n` after `ESC [` gives the number `n`.
pub proof fn lemma_run_decimal(n: nat, t: Screen)
    requires
        t.mode == Mode::Csi(0),
    ensures
        run(decimal(n), t) == (Screen { mode: Mode::Csi(n), ..t }),
    decreases n,
{
    if n < 10 {
        lemma_digit_char(n);
        reveal_with_fuel(run, 2);
    } else {
        let d = decimal(n / 10);
        let c = digit_char(n % 10);
        lemma_run_decimal(n / 10, t);
        lemma_run_concat(d, seq![c], t);
        assert(decimal(n) == d + seq![c]);
        lemma_digit_char(n % 10);
        reveal_with_fuel(run, 2);
        assert((n / 10) * 10 + n % 10 == n) by (nonlinear_arith);
    }
}

/// The decimal digits of a number are plain text.
pub proof fn lemma_decimal_inert(n: nat)
    ensures
        inert(decimal(n)),
        decimal(n).len() > 0,
    decreases n,
{
    if n < 10 {
        lemma_digit_char(n);
    } else {
        lemma_decimal_inert(n / 10);
        lemma_digit_char(n % 10);
        assert forall|i: int| 0 <= i < decimal(n).len() implies #[trigger] decimal(n)[i] != esc()
            && !is_line_feed(decimal(n)[i]) by {
            if i < decimal(n / 10).len() {
                assert(decimal(n)[i] == decimal(n / 10)[i]);
            }
        }
    }
}

pub proof fn lemma_concat_inert(a: Seq<char>, b: Seq<char>)
    requires
        inert(a),
        inert(b),
    ensures
        inert(a + b),
{
    assert forall|i: int| 0 <= i < (a + b).len() implies #[trigger] (a + b)[i] != esc()
        && !is_line_feed((a + b)[i]) by {
        if i < a.len() {
            assert((a + b)[i] == a[i]);
        } else {
            assert((a + b)[i] == b[i - a.len()]);
        }
    }
}

} // verus!
