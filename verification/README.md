# fossilsense

The query core of a best-effort code index for C-family (and Go) workspaces,
written and proved in Verus. The index knows names, paths and comments, not
types: every answer carries how sure it is.

- `text`, `signatures`, `comments`, `current_file_overlay`, `local_completion`,
  `cursor_binding`: what the text around a cursor says.
- `callables`, `definitions`, `documentation`, `hover`, `resolver`: ranking of
  candidates by scope tier, match quality and nearness.
- `name_segment`, `segment_index`, `postings`, `prefix_paths`, `name_table`,
  `name_updates`: the segmented name table and its indexes.
- `name_search`, `name_recall`, `recall_sources`, `priority`, `recall_index`,
  `name_coloring`: searching it, within a budget where one is given.
- `search_laws`, `table_laws`, `recall_laws`, `quota_laws`, `signature_laws`,
  `text_laws`, `callables::laws`: what holds of every search, table, recall,
  signature, position and candidate. Laws about a single module stand in that
  module.
- `source_excerpt`, `project_context`, `progress`, `leases`, `lsp_kinds`,
  `memory`: the rules around files, projects, status and memory.

`src/` is verified; every public function states what it returns. `app/` is
ordinary Rust around it: walking directories, reading files, serializing, and
the editor protocol. `tests/` run the library against concrete values.

What is trusted and not proved: `String::push`, `Arc::clone`,
`String::from_utf8`, `blake3::hash`, `Vec::capacity` and `HashMap::capacity`,
each behind one declaration with its contract.
