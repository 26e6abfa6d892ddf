# graphol

Graphol is a small graph-oriented, message-passing language. This crate holds
its verified core, written in Verus:

- `src/ast.rs` — the syntax tree of a program.
- `src/text.rs` — character-level helpers (lines as `str::lines` splits them,
  Unicode whitespace, trimming, decimal digits).
- `src/directive.rs` — the lexical rules of `include "path"` lines.
- `src/source_loader.rs` — the include resolver, a state machine that expands
  `include` directives; it asks its caller to resolve and read files and
  never touches the file system itself. Nested includes resolve against the
  including file's directory, a file is expanded once, and cycles are
  reported.
- `src/codegen.rs` — renders a program as the Rust source of a standalone
  executable.
- `src/cli.rs` — the command-line rules and the source of a generated runner.
- `src/artifacts.rs` — which build of the runtime library a compiled program
  links against.
- `src/runtime/` — the object heap (nodes that take a strategy from their
  first value, texts, booleans, numbers, lists and the list commands,
  blocks), scopes with parent lookup and built-in names, expression
  evaluation and the cooperative scheduler of threads and frames. A block
  passes the values it receives to its inbox, `async` marks it to run on a
  thread of its own, and `run` runs its body in a new scope where `inbox`
  names its inbox: on a new thread, or, for a synchronous block, on the
  current thread once the expression that sent `run` has been evaluated,
  to its end before any other thread takes a turn (a pending `break` or
  `continue` drops its frames; a failing step stops it and goes no
  further). The built-in `echo` and `stdout` share one
  output-mode cell of the engine.

What this runtime does not do: `echo` writes nothing, `input` reads
nothing, `stdout` and `if` take their values without effect, numbers keep
the literal that wrote them and do no arithmetic, and the comparison and
boolean operators compute nothing. Those behaviours, and the parser that
turns Graphol text into a `Program`, are not part of this code base, so the
`graphol` command in `app/` stops with an error where it would parse a
program.

Each public function states its result in its `ensures` clause over the
spec functions of its module; the `law_*` proof functions state properties
that relate several calls (a pushed value is the one popped next, a name
bound in a scope is found there, a file is read at most once, a program runs
its expressions in order, ...).

`app/main.rs` is the `graphol` command: argument handling, file and console
I/O, and the `rustc` invocation that builds an executable.

`tests/` exercises the library on concrete values; the include resolver is
driven there by an in-memory file system.
