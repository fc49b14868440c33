# newerr

Error-catalogue management: a project's errors and categories, the
identifiers of new errors, and the rendering of the catalogue through text
templates. The library under `src/` is verified with Verus; `app/` is the
command line around it (files, TOML, argument parsing).

- `src/model.rs` — the data model and the names of severities and properties
- `src/numeric.rs` — decimal and hexadecimal numbers, read and written
- `src/idgen.rs` — identifier generation (counters, random, UUID, patterns)
- `src/pattern.rs` — fixed-length identifier patterns (a subset of regular expressions)
- `src/project.rs` — new errors, new categories, modifications
- `src/template.rs` — rendering a template over the catalogue
- `src/text.rs` — character-level text operations
