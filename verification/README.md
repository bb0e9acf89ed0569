# moon_workspace_core

Verified workspace logic for a monorepo build tool, written in Verus.

- `src/glob_or_path.rs` — the glob-or-path shape of project configuration:
  turning a value into a `file://` or `glob://` URI and parsing it back.
  A `Uri` is split at the first `://` into a scheme and the rest, and the rest
  at its first `?` into a path and a query, which is kept as text. A bare
  glob's `?` is escaped as `__QM__` so that it is not read as a query, and
  restored when the glob is parsed.
- `src/text.rs` — finding and replacing text, separator standardization and
  the glob-likeness test that the parsing rests on.
- `src/build_data.rs` — project and task build data, targets, and the
  resolution of aliases and former ids.
- `src/dep_graph.rs` — the dependency graph as specification: direct and
  transitive dependencies, with the laws they obey.
- `src/tasks_querent.rs` — the precomputation of every project's transitive
  dependencies, and the queries the task builder makes.
- `src/fx.rs` — the `rustc_hash` maps and sets the logic keeps its data in,
  with what their methods do stated over what each collection holds.
- `app/` — serde, schematic and miette glue that Verus does not see.
