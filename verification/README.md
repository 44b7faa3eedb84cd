# jsonviewer

A JSON viewer and formatter whose core is written and proved in Verus:
an order-preserving JSON parser with line and column errors, pretty and
compact printing, string literal wrapping and unwrapping, a reader and
writer for Python dictionary literals, the document model behind the
viewer (tree, expansion, property grid, search and navigation), and the
decisions of its window (key presses, edits, transforms, layout).

## Layout

- `src/text.rs` — character classes, decimal and hexadecimal text, trimming.
- `src/json/` — the value model (`value.rs`), printing (`format.rs`), the
  grammar the parser follows (`grammar.rs`), the parser (`parser.rs`),
  stringified payloads (`stringified.rs`), and what printing and parsing
  promise together (`laws.rs`, `laws_pretty.rs`), and that every parsed
  value is well formed, so those promises hold of every parsed document
  (`laws_parsed.rs`).
- `src/python/` — reading Python literals, and that what is written as
  Python reads back (`laws.rs`).
- `src/model/` — the node tree and its rows (`tree.rs`), the document and
  its operations (`document.rs`), filling a tree a slice at a time
  (`fill.rs`), and laws about expansion and search (`laws.rs`).
- `src/settings.rs` — preferences, their ranges, zoom, the settings form.
- `src/viewer.rs`, `src/layout.rs`, `src/util.rs`, `src/input.rs` — what
  the window decides (keys and their routing by focus, the idle reread,
  double-clicks) and where it puts its controls.
- `app/` — a command-line front end and the settings file.
- `tests/` — tests on concrete values.
