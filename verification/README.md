# confparse

A verified parser for nginx-style configuration files. A configuration is a
sequence of directives; a directive is a name, arguments (bare, or quoted
with `"` or `'` and backslash escapes), and either `;` or a `{ ... }` block
of nested directives. `#` starts a comment that runs to the end of the line.

Parsing yields a `ConfigAst`: an arena (`la_arena`) of directives, each
allocated after its children and linked to the block that lists it, and the
indices of the top-level directives. A syntax error reports the character
where parsing stopped and the contexts it stopped in (kept in `winnow`'s
`ContextError`), and reads as a message and a diagnostic.

Layout:

- `src/parser/grammar.rs` — the grammar, stated over the UTF-8 bytes of the
  source: what parses, into which directives, and which error a failure raises.
- `src/parser/mod.rs` — the parser, proved to follow the grammar exactly.
- `src/parser/forest.rs` — what it yields is a well-formed forest, with its
  spans inside the source.
- `src/parser/written.rs` — a configuration written from its parts parses into
  one directive per directive written.
- `src/ast.rs` — the syntax tree, its well-formedness, and parent linking.
- `src/error/` — syntax errors, their messages and diagnostics.
- `src/arena.rs`, `src/error/context.rs` — the calls into `la_arena` and
  `winnow`, with the contracts they are trusted to meet.
- `src/text.rs` — UTF-8 facts: where a `str` may be cut.
- `app/main.rs` — a command-line front end that draws diagnostics with
  `codespan-reporting`.
