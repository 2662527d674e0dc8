# cxline

A status line for the Codex CLI: the model, token usage, turns, cost, elapsed
time, working directory, git branch and approval policy of a session, shown in
a tmux status bar or a terminal title. The library is written in Verus: its
functions carry contracts that Verus proves, except for a few small wrappers
around outside crates (`String::push`, the `colored` crate's colors,
`dirs::home_dir`, and the `toml` parser), whose contracts are taken on trust
and say only what those crates' sources show.

## Layout

- `src/` — the verified library.
  - `text.rs` — strings as character sequences, decimal numbers, trimming, joining.
  - `binary64.rs` — IEEE 754 binary64 arithmetic done exactly with integers:
    rounding to 53 bits, division, multiplication, comparison, rounding to
    integers, and decoding a bit pattern. The token and cost modules compute
    with it, so their numbers are those that `f64` arithmetic gives.
  - `fixed.rs` — binary64 numbers written with a fixed number of decimals.
  - `style.rs` — ANSI colors, the escape-sequence scanner behind `strip_ansi`,
    `visible_len` and `truncate_ansi`, and progress bars.
  - `theme.rs`, `config.rs` — themes, and the configuration: the file's text
    parsed by the `toml` crate, read into settings, and command-line arguments.
  - `json.rs`, `parser.rs` — JSON values, session-log records and the session
    state they build up.
  - `modules/` — the status-line segments; `formatter.rs` joins them.
  - `setup.rs`, `watch.rs` — the blocks that `cxline setup` writes into shell
    and tmux files, and the replaying of a session log.
- `app/` — the command-line program around the library: arguments, files,
  stdin, the terminal, git, file watching, and the JSON parsing of the status
  input and of log records into the library's types.
- `tests/` — tests of the library, among them comparisons of the token and
  cost numbers with the machine's own `f64` arithmetic and formatting.

The public proof functions named `law_*` state properties of the library as
a whole: for instance that the status line never exceeds the terminal width,
that applying a log event twice is applying it once, that the turn count is
the number of distinct turns, that a second setup run leaves the tmux and
shell files as the first left them (for a program path without a newline and
files without carriage returns), and that a
token bar has exactly as many cells as its width.

The binary64 arithmetic is proved against its own model of rounding; that
this model is what the machine's `f64` does is checked by tests, not proved.
