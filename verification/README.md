# riv_checker

The static checker behind `riv`, typed data rivers for Python, written in
Verus: the library's behaviour is stated in `requires`/`ensures` contracts
and proved.

A river is a YAML file listing steps: Python scripts or other rivers. The
checker expands a river into its ordered Python steps, scans each step's
`riv_in`/`riv_out` calls, and reports `unannotated-io`,
`consume-before-produce`, `schema-mismatch`, `cycle`, `missing-step`,
`invalid-pipeline` and `invalid-syntax` diagnostics, deduplicated and
sorted, rendered rustc-style, one per line, as GitHub workflow commands or
as JSON records.

## Layout

- `src/` — the verified library.
  - `rules.rs`, `diagnostic.rs` — rules, levels, the strictness ratchet,
    diagnostics and the context that collects them.
  - `facts.rs` — what the checker knows of the disk. Checking is a function
    of the rivers and these facts; a fact it lacks comes back as a `Query`,
    which the caller answers before checking again.
  - `paths.rs`, `text.rs`, `order.rs` — lexical paths, text primitives,
    and the orders diagnostics and rivers are sorted by.
  - `pipeline.rs` — river documents, discovery, recursive expansion.
  - `python.rs` — from a step's import, class and call events to its IO
    calls.
  - `checks/` — the three artifact checks and `check_root`.
  - `render.rs` — positions and the output formats.
  - `cli.rs` — the command line's decisions: river arguments, messages,
    step invocation, and the run itself (refuse, start the next step,
    stop at the first failure) as a function from outcome to action.
  - `lib.rs` — checking several rivers, deduplication, counts.
- `app/` — the `riv` program: arguments (clap), the disk, YAML and Python
  parsing (serde_yaml, ruff), JSON serialization, running Python.
- `tests/` — checks of small rivers end to end, and the library's laws on
  concrete values.
