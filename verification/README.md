# git_multi_glance

A small CLI that scans the immediate subdirectories of a path and prints, for each git
or jj repository, its branch (or bookmark), whether the working copy is dirty, and how
the branch stands against its remote. Local status prints at once; remote checks run
concurrently and each row is rewritten in place when its result arrives.

## Layout

- `src/` — the library, verified with Verus:
  - `text.rs`: character-level text handling with specifications of what std does
    (`lines`, `trim`, `split_whitespace`, `u32::from_str`, decimal formatting,
    `{:<width$}` padding).
  - `repo.rs`: which directory entries are repositories and in what order they are
    listed.
  - `vcs/git.rs`: reading `git status --porcelain=v2 --branch`; the git local and remote
    checks.
  - `vcs/jj.rs`: bookmark lookup, status and ahead/behind counting for jj.
  - `vcs/mod.rs`: shared types and the checks as state machines: each step takes the
    outcome of the last command and gives the next command to run or the finding.
  - `render.rs`: the status rows, their colors and the in-place rewrite, with laws on
    how a terminal shows them (column positions, the rewrite touching one row only,
    rows staying in place across prints and rewrites).
  - `terminal.rs`: a model of how a terminal reads text and the control sequences the
    rows use.
  - `cli.rs`: the command-line options.
- `app/main.rs` — the program: argument parsing, reading the directory, running the
  commands the checks ask for (blocking for local checks, on tokio for remote ones)
  and writing the rows.
- `tests/` — tests of the library.
