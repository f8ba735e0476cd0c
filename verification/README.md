# game_core

The verified core of a small game engine and its editor, written in Verus.
The functions under `src/` are proved against their contracts, except a
few small wrappers marked `#[verifier::external_body]` whose contracts are
trusted: each makes one call into std or itertools (`sort_by_key`,
`sort_by` with the verified listing order,
`Itertools::sorted_by_key`, `String::insert_str`, `String::remove`,
`String::drain` and `str::to_lowercase`). `app/` holds the glue that cannot be verified
(floating point geometry, files, ECS types).

Modules of the library:

- `bvh`, `bvh_build`, `morton` – the byte layout of bounding volume
  hierarchy nodes, reading them back, ordering leaves along the Morton
  curve and packing them eight to a node.
- `dock`, `windows` – the editor's docking tree, the table of window
  slots, tabs, drawing order by layer, and the numbering used when the
  layout is saved.
- `text_cursor`, `text_edit` – a UTF-8 text cursor and the key handling of
  a focused text input (word jumps, selection, deletion, typing).
- `console` – log records, their one-line form and the filtered view of
  the newest matching lines.
- `render`, `storage`, `upload`, `gizmos` – frames in flight, storage
  buffer bookkeeping, mesh merging, the planning of staging uploads and
  the batching of gizmos.
- `ui`, `editor` – element ids, the font atlas layout, text directions,
  resize edges, drag and drop.
- `widgets`, `mesh` – collapsed sections and dropdown choices of the
  window widgets, and the index buffers of UI quads.
- `browser`, `listing`, `asset_io` – the asset browser's back and forward
  history, its shortened names and listing order, and the length-prefixed
  arrays of asset files.

`app/` also holds the window manager, the window builder and its widgets,
which lay out and draw in floating point and call the library for their
decisions.

Laws that span several calls are public proof functions next to the code
they are about (for example `dock::lemma_dock_at_then_undock`,
`bvh::lemma_build_then_iterate`, `text_edit::lemma_type_then_backspace`,
`upload::lemma_upload_chunks_tile`).
