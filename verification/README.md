# swayward layout core

The verified core of swayward's i3/sway-style window layout: the container
tree and the rules that act on it, the workspace naming and ordering rules,
and the decisions taken when windows are placed, moved between outputs, or
dragged with the pointer. Every function in `src/` is checked by Verus against
its `requires`/`ensures` contract.

## Layout

- `src/tiling_tree/` — the container tree: an arena of splits and leaves with
  a focus history, pending sizing modes and title formats. Its invariant
  (`wf`) is required and re-established by every operation. Submodules hold
  insertion and removal (`edit`, `remove`), focus (`focus`, `history`),
  directional moves and the root wrap (`directional`, `relocate`), nesting
  (`nest`), swaps (`swap`), detaching and attaching subtrees (`transfer`),
  fullscreen and visibility, the depth-first orders (`order`, `leaf_order`),
  the IPC skeleton (`ipc`), and the laws that span several operations (`laws`).
- `src/elements.rs` — sizing modes and render layers.
- `src/workspace_names.rs`, `src/titles.rs`, `src/sway_order.rs`,
  `src/workspaces.rs` — workspace names and numbers, title formats, sway's
  workspace order and relative workspace selection.
- `src/placement.rs`, `src/activation.rs` — where a new window goes, what a
  move to another output does, and which workspace `workspace …` selects.
- `src/interactive_move.rs` — the states of a pointer-driven window move and
  the placement of a dropped window.
- `src/layout_model.rs` — outputs and workspaces as plain values, with the
  layout's invariants, their check, workspace activation and creation.
- `app/lib.rs` — the floating-point pointer bookkeeping around the
  interactive move.
- `tests/` — scenario tests.

## What is outside the library

The compositor's per-output and per-workspace machinery (the `Layout` and
`Monitor` types), geometry, rendering, animations and the wiring to Smithay
are not part of this crate. They compute with floating-point rectangles and
Smithay objects, which Verus does not reason about, and they rely on modules
(workspaces, tiles, floating space, title bars, commands) that are not part of
this source tree. Where those parts take a decision that can be stated over
plain values, the decision lives here and they call it:

- window placement on outputs and workspaces: `placement::resolve_add_window_target`;
- moving a workspace or window to another output: `placement::plan_move_to_output`;
- `workspace` activation, `back_and_forth` and `number`/`name` matching:
  `activation`, `workspaces`, `sway_order`;
- the interactive move: `interactive_move::interactive_move_update`,
  `interactive_move_end` and `plan_drop`;
- the sway IPC tree without geometry: `TilingTree::ipc_skeleton`;
- the layout's invariants over outputs and workspaces: `layout_model`.

Rectangles, percentages of splits, and title bar geometry are not modelled.
