//! Verified layout core of the swayward compositor: the i3-style container
//! tree, its focus and movement rules, and the workspace naming rules.
use vstd::prelude::*;

pub mod elements;
pub mod workspace_names;
pub mod titles;
pub mod workspaces;
pub mod sway_order;
pub mod tiling_tree;
pub mod tree_exchange;
pub mod placement;
pub mod activation;
pub mod interactive_move;
pub mod layout_model;

verus! {
} // verus!
