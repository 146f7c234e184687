# rustdirstat

A disk-usage analyser with a cushion treemap view. Its logic is a Verus
library whose functions carry `requires`/`ensures` contracts proved by Verus;
the program around it (command line, file-system walk, window, image output)
is ordinary Rust.

## Layout

- `src/` — the verified library:
  - `tree.rs` — the scanned tree (a petgraph `StableGraph`) seen as a map of
    nodes, the trusted wrappers of its operations, the forest invariant,
    ancestors, paths and expansion;
  - `tree_edit.rs` — taking subtrees away in post-order and shrinking the
    ancestors of a removed entry;
  - `graft.rs` — copying a rescanned subtree into the tree and moving the
    sizes of the ancestors by the change;
  - `totals.rs` — adding up the sizes and entry counts of the directories
    after a scan, so that every directory's size is the sum of its entries'
    sizes;
  - `sizes.rs` — that both edits keep every directory's size the sum of its
    entries' sizes;
  - `tree_panel.rs`, `tiles.rs`, `extension_index.rs`, `order.rs` — the rows
    of the tree panel, the children that get treemap tiles, tile colours, and
    the per-extension statistics;
  - `palette.rs`, `cushion.rs`, `highlight.rs` — the integer colour
    arithmetic of the palette and of cushion shading, and the selection
    border;
  - `inode_filter.rs`, `walk.rs`, `throttle.rs`, `units.rs` — hard-link
    filtering, walk settings, the progress throttle and size units.
- `tests/` — tests of the library on concrete trees and values.
- `app/` — `main`, the scan with jwalk, the floating-point layout and
  shading, file operations and the egui window.
