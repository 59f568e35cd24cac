# oovra

Composition and comparison of agentic system prompts built from
Markdown + TOML "prompt elements", as a verified library.

- `src/` — the library, verified with Verus. Each module states its
  behaviour in `requires`/`ensures` over sequences of characters:
  - `text`, `paths` — character-sequence and path-text utilities;
  - `header`, `raw_header`, `toml_doc`, `element` — the file format:
    framing, header schema, validation, serialization;
  - `library` — loading a set of files, lookups, the recipe graph;
  - `render`, `decompose`, `diff` — the compose, decompose and compare
    operators, with their laws (decomposing a composed body gives back
    its inputs; body levels escalate; recipes compare equal exactly when
    they are identical);
  - `round_trip` — reading back what was written: serialized elements,
    composed compounds, migrated files and rendered prose, on the
    condition that `toml` reads back the table it wrote;
  - `create`, `migrate`, `cli` — labeling files, schema migration, and
    the decisions behind the command line;
  - `canvas`, `comparison`, `editor` — the working states of the
    interactive tools.
- `app/` — the `oovra` command-line program: arguments, the filesystem,
  terminal output and JSON.
- `tests/` — the test suite, run against the compiled library.
