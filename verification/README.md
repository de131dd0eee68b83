# swt — Sweet, a code health analyzer

Sweet measures source files — lines, imports, nesting depth and repeated
windows of lines — and judges them against configurable limits. A file
whose violations are all warnings, or that has none, is *sweet*; any
error-level violation makes it *bitter*.

## Layout

- `src/` is the library, written in Verus: each public function carries a
  contract, and Verus proves every body, private helpers included, free of
  overflow and panics and, where there is a contract, against it.
  - `text` — the text model (lines, words, trimming, decimals) and helpers.
  - `config` — limits, severities, per-language overrides, their merging
    and the cascade of `.swtrc` files (the nearest wins).
  - `languages` — the registry of supported languages and their rules.
  - `analyzer` — the single-pass scanner, depth, imports, functions,
    comment stripping, `@sweetignore`/`@swt-disable` handling, repetition
    detection, per-file analysis and the project-wide decisions (`engine`).
  - `diagnostics`, `quick_fix` — what an editor is shown and offered.
  - `update` — which release, asset and binary a self-update picks.
  - `stdlib` — the few calls into std whose contracts are taken as given.
- `app/` is the program around it: command line, file walking, parallel
  runs, reading the `.swtrc` files, terminal and JSON output, the language server and
  the self-update downloads.
- `tests/` exercises the library on concrete inputs.
