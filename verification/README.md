# codescratch

A local structure graph of a repo (or a named group of repos) that an agent
reads before grepping identifiers: symbols, call and heritage edges with an
honest `reason` and `conf`, routes, communities and processes, behind a
three-axis trust banner (freshness × coverage × resolve).

## Layout

- `src/` — the library, verified with Verus: extraction facts from syntax
  trees (TS/JS and Python), module and call resolution, framework route
  plugins, heuristic dispatch edges, the graph rows of an index, the
  dirty-gate, blast radius, call-path spine, communities and processes,
  change reports from a diff, the trust axes and their group merge, search
  and explore texts, the group registry, the watch debounce, the lock rules
  and the setup paths. Each public function states its result in `ensures`;
  the laws of the library are public proof functions (`lemma_*`).
- `tests/` — tests of the library on concrete values.
- `app/` — the program around it: the command line, the SQLite store, git,
  the file walk, the file watcher, the JSON registry, and the floating-point
  embedding scores.

Calls into tree-sitter, blake3 and `char`'s Unicode classes go through small
trusted wrappers whose contracts say what the library relies on. What
tree-sitter's parser gives for a text is named (`parsed`); extraction is
stated over the plain tree copied from that parse, node by node.
