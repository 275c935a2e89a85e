# witchcraft

The verified core of Witchcraft, a language whose inference sites are typed:
an output type compiles to a grammar that constrains generation token by
token.

- `src/` — the library, verified with Verus: lexer, parser, type checker,
  grammar compilation and its renderings (GBNF, JSON Schema), the mock
  decoder and engine, the falsification harness, manifest parsing and
  load-time resolution, lowering to the backend IR, the interpreter's
  environment, and the compiled runtime's grammar format, output sink,
  engine bridge and governed-memory registry.
- `tests/` — behavioural tests of the library.
- `app/` — the `witch` command line: `check` (static checks only), `run`
  (the interpreter, with `--seed` and `--manifest`; network engines are not
  linked in this build) and `lower` (the backend IR, with `--weaken`).
