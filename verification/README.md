# zorilla

A linter for pytest test smells (conditional logic in tests, sleeps, missing
assertions, assertion roulette, mystery guests, patch stacks, empty tests),
written in Verus: the rules, the suppression comments, configuration,
file selection, the changed-lines filter and every report format's text are
executable functions whose results are stated in `ensures` clauses and proved.

Layout:

- `src/` — the verified library.
  - `tree.rs` parses Python with tree-sitter and copies the tree into a plain
    arena (`SyntaxTree`); `ast.rs` states and computes the tree queries the
    rules share.
  - `rules.rs` and `rules/` hold the rule catalogue and the eight rules; each
    rule's `check` is specified by the findings it emits per test function.
  - `suppress.rs` (`# zorilla: ignore[...]`, `ignore-file`), `config.rs`
    (defaults, the `[tool.zorilla]` tables, the upward search),
    `discovery.rs` (include/exclude globs, de-duplication),
    `changed_lines.rs` (the `--changed-lines` manifest), `lint.rs` (one file
    end to end, the manifest filter). `manifest_laws.rs` and `guide_laws.rs`
    prove properties of the manifest and of the commands the guides show.
  - `report.rs`, `overview.rs`, `stats.rs`, `guide.rs`, `cli.rs` produce the
    text the command prints; `records.rs` the records its JSON and SARIF
    renderings are made of.
- `app/` — the command line: argument parsing, reading files, walking
  directories, running files in parallel, JSON and SARIF serialisation.
- `tests/` — tests of the library.
