# statusline

A terminal status line for a coding-assistant session: the shortened working
directory, the git branch and changed lines, the model, the cost or extra
usage, and a second row of usage bars and savings counters.

- `src/` is the library, verified with Verus. Every public function states in
  its contract exactly what it returns.
  - `binary64` models IEEE 754 binary64 rounding on integers (`n as f64`,
    division, multiplication, comparison, `{:.1}` and `round()`). The compact
    number formats are proved against this model; that the model matches
    Rust's own float formatting is checked by `tests/binary64_agreement.rs`
    and the context-cell test in `tests/rendering.rs`, not proved.
  - `compact`, `cells`, `duration`: number, usage and time formatting.
  - `text`: decimal digits, visible width of ANSI-colored text, padding, trimming.
  - `path`: fish-style path shortening.
  - `git`, `session`: reading git's answers and session transcripts.
  - `statusline`: reading the session JSON, and the whole line from the
    values gathered for it.
- `app/` gathers the rest (stdin, git, `HOME`, the local usage service, the
  transcript file) and renders the float-valued parts.
- `tests/` runs the library, among others against Rust's own float formatting.
