# meiksh

The word-expansion, pattern-matching, arithmetic and line-editing core of a
POSIX shell, written in Verus: functions state in their `requires`/`ensures`
what they compute, and Verus proves the code against it. Where a result comes
from the shell that runs the library (a variable's value, a command's output,
a directory listing), the contract ties it to the answer the shell gave; some
word shapes (arithmetic that names variables, for one) are stated in part.

## Layout

- `src/` — the verified library.
  - `chars`, `bytes` — byte classes, integer text in both directions.
  - `scan` — scanners for the pieces of a word: quotes, `${...}`, backquotes,
    `$'...'` escapes, assignment values split at colons.
  - `segments` — an expanded word as quoted/unquoted segments; field splitting,
    pattern rendering and `#`/`%` pattern removal.
  - `glob` — shell pattern matching with bracket expressions.
  - `params` — where a parameter's value comes from and what each `${name<op>word}`
    operator does with it.
  - `arith` — `$((...))`: a recursive-descent evaluator whose result is stated by
    `arith_eval`, an evaluation semantics over the expression text.
  - `expand` — word expansion over the shell's state, reached through the
    `Context` trait that the shell implements. Where a result depends on the
    shell's parameters, contracts speak of the answers the shell gives
    (`call_ensures` of the trait's queries), so they tie the result to what
    was asked and answered.
  - `pathname` — pathname expansion, one path component at a time.
  - `hash` — the hasher used for the shell's own tables.
  - `vi`, `vi_model` — the vi line editor as a state machine; `vi_model` states
    what every input byte does to the editor's state and which actions it asks for.
  - `prompt` — prompt, history, mail and `fc` helpers.
  - `session` — what the interactive loop decides: job notices, the prompt to
    show, blank lines, history text, and the `$ENV` file read at start-up.
- `tests/` — tests run against the compiled library.
- `app/` — the terminal, file-system and process side: raw mode, reading bytes,
  running the editor's actions, globbing through the C library, a `Context` over
  the process environment.

Laws of the library (what holds across calls or for all inputs) are public proof
functions named `law_*`.
