# rat_widgets

State and logic of a set of terminal widgets, verified with Verus: a
spinner, data tables, an expandable tree, text selection, org-mode tags and
properties, a streaming output buffer with search, an org outline index
(headings, folding, TODO cycling, structural edits), a spreadsheet model
(cell addresses, navigation, edit buffer, formulas and their dependencies,
org pipe tables), a scrolling tiled window strip with its layout, and the
Typst export of a terminal cell grid.

Layout:

- `src/` — the verified library. Each module states its data model with
  spec functions and views, gives every public function a contract over
  that model, and proves the laws that relate operations (inverse moves,
  kept invariants, what a written table reads back as).
- `tests/` — tests run against the compiled library.
- `app/` — ratatui widgets, backends and the floating-point parts (layout
  proportions, spreadsheet values), which call into the library.
