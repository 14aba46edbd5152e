# duflow-core

duflow keeps a system's flows (states, actions, API calls, events, checks, permissions
and the variables they read and write) as KDL files under `flows/`. The library reads
them into a graph, lints the graph, answers queries (paths, briefs, prerequisites,
search), compares two graphs, exports them, and plans edits to the files.

The library in `src/` is written in Verus: each public function states its result in its
`ensures`, and Verus proves it.

- `parse`, `graph`: reading the files and building the graph (`Graph::from_sources`).
- `lint`, `lint_node`, `lint_defs`, `lint_src`, `summary`, `select`: the lint rules.
- `query`, `brief`, `prereq`, `diff`, `export`: the queries.
- `ws`, `edit`: reading the KDL documents and planning edits on them.
- `hook`, `changes`, `cli`, `ui`: the decisions behind the editor hooks and the CLI.
- `text`, `model`, `strset`, `table`, `expr`: the shared text, model, set and table code.

`app/` is the command-line program: file and git access, the HTTP server, JSON output,
and carrying edit plans out on the KDL documents. `tests/` runs the library on examples.
