# but-rebase

The reference-aware commit graph behind a rebase editor, verified with Verus.

Commits live in an arena of nodes with ordered parent arrays; every parent entry carries a
stable id. References carry no parent entries at all: each stands at a position — the node it
is on, the reference directly beneath it, and its group's carry (which incoming parent entries
descend through it). Nothing is ever deleted: commits and references tombstone in place, so
every index the store hands out stays valid.

Layout:

- `src/commits.rs` — the commit arena and its model.
- `src/store.rs` — the reference table and positions, composed with the arena into
  `EditorStore`; laws about deletion, revival, renaming and id rewrites.
- `src/positions.rs` — reads over positions: resolution through tombstones, entering entries,
  groups, ranks, and the layout's well-formedness checks.
- `src/reach.rs` — reachability along parent entries and the visit sets walks use.
- `src/traverse.rs` — walks, rev-sets, ahead/behind counts, and the editor's direct and
  position-aware views of the graph, with their laws.
- `src/editor.rs` — the editor, whose store is always well formed.
- `app/` — conversions to and from `gix` ids and names, and readable errors.
