//! The i3-style container tree of one workspace.
//!
//! Nodes live in an arena indexed by their id. A split node holds an ordered
//! list of children and a layout; a leaf holds the id of a window. The tree
//! keeps a focused node and a most-recent-first focus history.
use vstd::prelude::*;

mod lemmas;
mod query;
mod focus;
mod fullscreen;
mod order;
mod edit;
mod remove;
mod movement;
mod history;
mod swap;
mod relocate;
mod nest;
mod directional;
mod decorations;
mod laws;
mod visibility;
mod leaf_order;
mod formats;
mod ipc;
mod ancestry;
mod direction_laws;
pub(crate) mod transfer;
pub(crate) mod replace;

pub use laws::{law_remove_undoes_add, law_reindex_back_restores, law_swap_twice_restores, law_well_formed_tree};
pub use relocate::law_move_order_is_determined;

pub use focus::layouts_parallel;
pub use leaf_order::blocks_swapped;
pub use transfer::{DetachedEntry, DetachedSubtree};
pub use ipc::{IpcEntry, first_occurrences};

verus! {

/// Identifier of a node of the tree.
#[derive(Clone, Copy, PartialEq, Eq, Structural, Debug, Hash)]
pub struct NodeId(pub u64);

/// Layout of a split container.
#[derive(Clone, Copy, PartialEq, Eq, Structural, Debug)]
pub enum Layout {
    SplitH,
    SplitV,
    Tabbed,
    Stacked,
}

/// What a node is: a split with a layout, or a leaf holding a window id.
#[derive(Clone, Copy, PartialEq, Eq, Structural, Debug)]
pub enum NodeKind {
    Split(Layout),
    Leaf(u64),
}

/// Fullscreen mode of a node.
#[derive(Clone, Copy, PartialEq, Eq, Structural, Debug)]
pub enum FullscreenMode {
    Workspace,
    Global,
}

/// Sizing state requested for a node that is not yet reflected by its window.
#[derive(Clone, Copy, PartialEq, Eq, Structural, Debug)]
pub struct PendingMode {
    pub fullscreen: Option<FullscreenMode>,
    pub maximized: bool,
}

pub open spec fn normal_mode() -> PendingMode {
    PendingMode { fullscreen: None, maximized: false }
}

/// Where a new leaf is inserted.
#[derive(Clone, Copy, PartialEq, Eq, Structural, Debug)]
pub enum InsertTarget {
    Focused,
    Node(NodeId),
}

/// Kind of a node as reported over IPC.
#[derive(Clone, Copy, PartialEq, Eq, Structural, Debug)]
pub enum IpcNodeKind {
    Split,
    Leaf,
}

/// A direction of focus or movement.
#[derive(Clone, Copy, PartialEq, Eq, Structural, Debug)]
pub enum Direction {
    Left,
    Right,
    Up,
    Down,
}

/// How a title bar is drawn.
#[derive(Clone, Copy, Debug, PartialEq, Eq, Structural)]
pub enum TitlebarState {
    Focused,
    FocusedInactive,
    FocusedTabTitle,
    Unfocused,
    Urgent,
}

/// A node as seen from outside the tree.
#[derive(Debug)]
pub enum TreeNode {
    Split { layout: Layout, children: Vec<NodeId> },
    Leaf { window: u64 },
}

/// Side state per node slot is cleared with the node; splits are never maximized.
pub closed spec fn modes_ok(
    arena: Arena,
    modes: Seq<PendingMode>,
    previous_layouts: Seq<Option<Layout>>,
) -> bool {
    &&& modes.len() == arena.live@.len()
    &&& previous_layouts.len() == arena.live@.len()
    &&& forall|id: NodeId|
        #![trigger modes[id.0 as int]]
        id.0 < arena.live@.len() ==> {
            &&& (!arena.is_live(id) ==> modes[id.0 as int] == normal_mode()
                && previous_layouts[id.0 as int] is None)
            &&& (arena.is_live(id) && arena.kind_of(id) is Split ==> !modes[id.0 as int].maximized)
        }
}

/// The focus is live and set exactly when the tree holds a window; the focus
/// history holds live nodes, each once.
pub closed spec fn focus_ok(arena: Arena, focus: Option<NodeId>, history: Seq<NodeId>) -> bool {
    &&& (focus matches Some(f) ==> arena.is_live(f))
    &&& (focus is Some <==> arena.has_leaf())
    &&& history.no_duplicates()
    &&& forall|i: int| 0 <= i < history.len() ==> #[trigger] arena.is_live(history[i])
}

/// Layouts along the same axis: horizontal splits and tabs, or vertical splits and stacks.
pub open spec fn parallel(first: Layout, second: Layout) -> bool {
    ((first == Layout::SplitH || first == Layout::Tabbed) && (second == Layout::SplitH || second
        == Layout::Tabbed)) || ((first == Layout::SplitV || first == Layout::Stacked) && (second
        == Layout::SplitV || second == Layout::Stacked))
}

/// The split layout that runs along a direction.
pub open spec fn axis_layout(dir: Direction) -> Layout {
    match dir {
        Direction::Left | Direction::Right => Layout::SplitH,
        Direction::Up | Direction::Down => Layout::SplitV,
    }
}

/// Left and up go towards the start of a split.
pub open spec fn is_backwards(dir: Direction) -> bool {
    dir == Direction::Left || dir == Direction::Up
}

/// SplitH or SplitV (not tabbed or stacked).
pub open spec fn is_plain_split(layout: Layout) -> bool {
    layout == Layout::SplitH || layout == Layout::SplitV
}

/// Number of `true` entries.
pub open spec fn count_true(s: Seq<bool>) -> nat
    decreases s.len(),
{
    if s.len() == 0 {
        0
    } else {
        count_true(s.drop_last()) + if s.last() {
            1nat
        } else {
            0nat
        }
    }
}

/// The first entry at or after `k` of `h` that is a live leaf below `id`.
pub closed spec fn history_leaf(arena: Arena, h: Seq<NodeId>, id: NodeId, k: int) -> Option<NodeId>
    decreases h.len() - k,
{
    if k < 0 || k >= h.len() {
        None
    } else if arena.is_leaf(h[k]) && arena.is_desc(h[k], id) {
        Some(h[k])
    } else {
        history_leaf(arena, h, id, k + 1)
    }
}

/// The first of the children of `p`, from index `i` on, whose subtree holds `x`.
pub closed spec fn child_containing(arena: Arena, p: NodeId, x: NodeId, i: int) -> Option<NodeId>
    decreases arena.children_of(p).len() - i,
{
    if i < 0 || i >= arena.children_of(p).len() {
        None
    } else if arena.is_desc(x, arena.children_of(p)[i]) {
        Some(arena.children_of(p)[i])
    } else {
        child_containing(arena, p, x, i + 1)
    }
}

/// The child of `p` holding the earliest entry, from `k` on, of the focus history `h`.
pub closed spec fn history_child(arena: Arena, h: Seq<NodeId>, p: NodeId, k: int) -> Option<NodeId>
    decreases h.len() - k,
{
    if k < 0 || k >= h.len() {
        None
    } else {
        match child_containing(arena, p, h[k], 0) {
            Some(c) => Some(c),
            None => history_child(arena, h, p, k + 1),
        }
    }
}

/// The nodes of a tree: an arena indexed by node id.
pub struct Arena {
    pub(crate) live: Vec<bool>,
    pub(crate) parents: Vec<Option<NodeId>>,
    pub(crate) kinds: Vec<NodeKind>,
    pub(crate) children: Vec<Vec<NodeId>>,
    pub(crate) root: NodeId,
    pub(crate) depth: Ghost<Seq<nat>>,
    pub(crate) max_depth: Ghost<nat>,
}

/// The container tree of one workspace.
pub struct TilingTree {
    pub(crate) arena: Arena,
    pub(crate) modes: Vec<PendingMode>,
    pub(crate) previous_layouts: Vec<Option<Layout>>,
    pub(crate) focus: Option<NodeId>,
    pub(crate) focus_history: Vec<NodeId>,
    /// Title formats set on splits, oldest first; the latest entry for a
    /// node is its format, `None` meaning the plain title.
    pub(crate) title_formats: Vec<(NodeId, Option<String>)>,
}

impl Arena {
    pub closed spec fn slot_count(self) -> nat {
        self.live@.len()
    }

    pub closed spec fn is_live(self, id: NodeId) -> bool {
        id.0 < self.live@.len() && self.live@[id.0 as int]
    }

    pub closed spec fn parent_of(self, id: NodeId) -> Option<NodeId> {
        self.parents@[id.0 as int]
    }

    pub closed spec fn kind_of(self, id: NodeId) -> NodeKind {
        self.kinds@[id.0 as int]
    }

    pub closed spec fn children_of(self, id: NodeId) -> Seq<NodeId> {
        self.children@[id.0 as int]@
    }

    pub closed spec fn depth_of(self, id: NodeId) -> nat {
        self.depth@[id.0 as int]
    }

    pub open spec fn is_leaf(self, id: NodeId) -> bool {
        self.is_live(id) && self.kind_of(id) is Leaf
    }

    pub open spec fn has_leaf(self) -> bool {
        exists|id: NodeId| #[trigger] self.is_leaf(id)
    }

    pub closed spec fn wf_shape(self) -> bool {
        &&& self.live@.len() <= usize::MAX
        &&& self.parents@.len() == self.live@.len()
        &&& self.kinds@.len() == self.live@.len()
        &&& self.children@.len() == self.live@.len()
        &&& self.depth@.len() == self.live@.len()
    }

    pub closed spec fn wf_root(self) -> bool {
        &&& self.is_live(self.root)
        &&& self.parent_of(self.root) is None
        &&& self.kind_of(self.root) is Split
    }

    /// Every live node but the root hangs below a live split that lists it,
    /// one level deeper than that split.
    pub closed spec fn wf_parents(self) -> bool {
        forall|id: NodeId|
            #![trigger self.parent_of(id)]
            self.is_live(id) && id != self.root ==> {
                &&& self.parent_of(id) is Some
                &&& self.is_live(self.parent_of(id)->0)
                &&& self.kind_of(self.parent_of(id)->0) is Split
                &&& self.children_of(self.parent_of(id)->0).contains(id)
                &&& self.depth_of(self.parent_of(id)->0) < self.depth_of(id)
            }
    }

    /// Every child listed by a live node is live and names that node as parent.
    pub closed spec fn wf_children(self) -> bool {
        &&& forall|p: NodeId, i: int|
            #![trigger self.children_of(p)[i]]
            self.is_live(p) && 0 <= i < self.children_of(p).len() ==> {
                &&& self.is_live(self.children_of(p)[i])
                &&& self.parent_of(self.children_of(p)[i]) == Some(p)
            }
        &&& forall|p: NodeId|
            #![trigger self.children_of(p)]
            self.is_live(p) ==> {
                &&& self.children_of(p).no_duplicates()
                &&& (self.kind_of(p) is Leaf ==> self.children_of(p).len() == 0)
            }
    }

    pub closed spec fn wf_depth(self) -> bool {
        forall|id: NodeId| #[trigger] self.is_live(id) ==> self.depth_of(id) <= self.max_depth@
    }

    /// The structure of a tree rooted at a live split, except that splits may be empty.
    pub closed spec fn wf_core(self) -> bool {
        &&& self.wf_shape()
        &&& self.wf_root()
        &&& self.wf_parents()
        &&& self.wf_children()
        &&& self.wf_depth()
    }

    /// Every live split other than the root and `e` has a child.
    pub closed spec fn nonempty_except(self, e: Option<NodeId>) -> bool {
        forall|p: NodeId|
            #![trigger self.children_of(p)]
            self.is_live(p) && self.kind_of(p) is Split && p != self.root && Some(p) != e
                ==> self.children_of(p).len() > 0
    }

    /// One tree rooted at a live split, where only the split `e` may be empty.
    pub closed spec fn wf_except(self, e: Option<NodeId>) -> bool {
        &&& self.wf_core()
        &&& self.nonempty_except(e)
    }

    /// One tree rooted at a live split.
    pub closed spec fn wf(self) -> bool {
        self.wf_except(None)
    }

    pub closed spec fn height_measure(self, id: NodeId) -> nat {
        if self.depth_of(id) <= self.max_depth@ {
            (self.max_depth@ - self.depth_of(id)) as nat
        } else {
            0
        }
    }

    pub closed spec fn descends(self, p: NodeId, c: NodeId) -> bool {
        self.depth_of(p) < self.depth_of(c) && self.depth_of(c) <= self.max_depth@
    }

    pub closed spec fn leaves_in(self, id: NodeId) -> Seq<NodeId>
        decreases self.height_measure(id), 1nat, 0nat,
    {
        if !self.is_live(id) {
            Seq::empty()
        } else {
            match self.kind_of(id) {
                NodeKind::Leaf(_) => seq![id],
                NodeKind::Split(_) => self.leaves_of_list(id, self.children_of(id)),
            }
        }
    }

    pub closed spec fn leaves_of_list(self, p: NodeId, kids: Seq<NodeId>) -> Seq<NodeId>
        decreases self.height_measure(p), 0nat, kids.len(),
    {
        if kids.len() == 0 {
            Seq::empty()
        } else {
            let c = kids[0];
            let first = if self.descends(p, c) {
                self.leaves_in(c)
            } else {
                Seq::empty()
            };
            first + self.leaves_of_list(p, kids.drop_first())
        }
    }

    /// All nodes below `id`, in depth-first pre-order.
    pub closed spec fn preorder(self, id: NodeId) -> Seq<NodeId>
        decreases self.height_measure(id), 1nat, 0nat,
    {
        if !self.is_live(id) {
            Seq::empty()
        } else {
            seq![id] + self.preorder_of_list(id, self.children_of(id))
        }
    }

    /// The pre-orders below each of `kids` (children of `p`), concatenated.
    pub closed spec fn preorder_of_list(self, p: NodeId, kids: Seq<NodeId>) -> Seq<NodeId>
        decreases self.height_measure(p), 0nat, kids.len(),
    {
        if kids.len() == 0 {
            Seq::empty()
        } else {
            let c = kids[0];
            let first = if self.descends(p, c) {
                self.preorder(c)
            } else {
                Seq::empty()
            };
            first + self.preorder_of_list(p, kids.drop_first())
        }
    }

    /// A split with a single split child that sway would merge into its parent:
    /// both are plain splits across each other, and the child runs along the
    /// parent's axis.
    pub closed spec fn squashable(self, id: NodeId) -> bool {
        &&& self.is_live(id)
        &&& id != self.root
        &&& self.parent_of(id) is Some
        &&& self.kind_of(self.parent_of(id)->0) is Split
        &&& self.kind_of(id) is Split
        &&& self.children_of(id).len() == 1
        &&& self.kind_of(self.children_of(id)[0]) is Split
        &&& is_plain_split(self.kind_of(id)->Split_0)
        &&& is_plain_split(self.kind_of(self.children_of(id)[0])->Split_0)
        &&& !parallel(self.kind_of(id)->Split_0, self.kind_of(self.children_of(id)[0])->Split_0)
        &&& parallel(
            self.kind_of(self.parent_of(id)->0)->Split_0,
            self.kind_of(self.children_of(id)[0])->Split_0,
        )
    }

    pub closed spec fn is_desc(self, x: NodeId, a: NodeId) -> bool
        decreases self.depth_of(x),
    {
        if x == a {
            true
        } else if self.is_live(x) && self.parent_of(x) is Some && self.depth_of(
            self.parent_of(x)->0,
        ) < self.depth_of(x) {
            self.is_desc(self.parent_of(x)->0, a)
        } else {
            false
        }
    }
}

impl TilingTree {
    // ----- the model -----

    pub closed spec fn slot_count(self) -> nat {
        self.arena.slot_count()
    }

    pub closed spec fn is_live(self, id: NodeId) -> bool {
        self.arena.is_live(id)
    }

    pub closed spec fn parent_of(self, id: NodeId) -> Option<NodeId> {
        self.arena.parent_of(id)
    }

    pub closed spec fn kind_of(self, id: NodeId) -> NodeKind {
        self.arena.kind_of(id)
    }

    pub closed spec fn children_of(self, id: NodeId) -> Seq<NodeId> {
        self.arena.children_of(id)
    }

    pub closed spec fn depth_of(self, id: NodeId) -> nat {
        self.arena.depth_of(id)
    }

    pub closed spec fn mode_of(self, id: NodeId) -> PendingMode {
        self.modes@[id.0 as int]
    }

    pub closed spec fn previous_layout_of(self, id: NodeId) -> Option<Layout> {
        self.previous_layouts@[id.0 as int]
    }

    pub closed spec fn root_id(self) -> NodeId {
        self.arena.root
    }

    pub closed spec fn focus_id(self) -> Option<NodeId> {
        self.focus
    }

    pub closed spec fn history(self) -> Seq<NodeId> {
        self.focus_history@
    }

    pub open spec fn is_split_node(self, id: NodeId) -> bool {
        self.is_live(id) && self.kind_of(id) is Split
    }

    pub closed spec fn is_leaf_node(self, id: NodeId) -> bool {
        self.arena.is_leaf(id)
    }

    pub open spec fn window_of(self, id: NodeId) -> u64 {
        self.kind_of(id)->Leaf_0
    }

    pub open spec fn layout_of(self, id: NodeId) -> Layout {
        self.kind_of(id)->Split_0
    }

    /// Some live node is a leaf.
    pub closed spec fn has_leaf(self) -> bool {
        self.arena.has_leaf()
    }

    /// `x` lies in the subtree of `a` (`a` itself included).
    pub closed spec fn is_desc(self, x: NodeId, a: NodeId) -> bool {
        self.arena.is_desc(x, a)
    }

    /// The leaves below `id`, in depth-first order.
    pub closed spec fn leaves_in(self, id: NodeId) -> Seq<NodeId> {
        self.arena.leaves_in(id)
    }

    /// The leaves of the tree in depth-first order: the order of its windows.
    #[verifier::opaque]
    pub closed spec fn leaf_order(self) -> Seq<NodeId> {
        self.arena.leaves_in(self.arena.root)
    }

    pub(crate) proof fn lemma_leaf_order(self)
        ensures
            self.leaf_order() == self.arena.leaves_in(self.arena.root),
    {
        reveal(TilingTree::leaf_order);
    }

    /// The order holds exactly the leaves of the tree.
    pub(crate) proof fn lemma_leaf_order_leaves(self)
        requires
            self.structure_ok(),
        ensures
            forall|x: NodeId| #[trigger] self.leaf_order().contains(x) <==> self.is_leaf_node(x),
    {
        self.lemma_leaf_order();
        self.arena.lemma_leaves_in(self.arena.root);
        assert forall|x: NodeId| #[trigger] self.leaf_order().contains(x) <==> self.is_leaf_node(x) by {
            if self.is_leaf_node(x) {
                self.arena.lemma_desc_root(x);
            }
        }
    }

    /// The leaves below each of `kids` (children of `p`), concatenated.
    pub closed spec fn leaves_of_list(self, p: NodeId, kids: Seq<NodeId>) -> Seq<NodeId> {
        self.arena.leaves_of_list(p, kids)
    }

    /// How far below `id` the tree can still reach.
    pub closed spec fn height_measure(self, id: NodeId) -> nat {
        self.arena.height_measure(id)
    }

    /// `c` is a child entry of `p` that the depth order lets a walk descend into.
    pub closed spec fn descends(self, p: NodeId, c: NodeId) -> bool {
        self.arena.descends(p, c)
    }

    /// The title format set on node `id`, if any.
    pub open spec fn title_format_of(self, id: NodeId) -> Option<Seq<char>> {
        formats::format_in(self.title_log(), id)
    }

    /// The title formats set so far, oldest first; a later entry for a node
    /// overrides an earlier one.
    pub closed spec fn title_log(self) -> Seq<(NodeId, Option<String>)> {
        self.title_formats@
    }

    /// All nodes below `id`, in depth-first pre-order.
    pub closed spec fn preorder(self, id: NodeId) -> Seq<NodeId> {
        self.arena.preorder(id)
    }

    /// `id` is a split that compaction merges into its parent.
    pub closed spec fn squashable(self, id: NodeId) -> bool {
        self.arena.squashable(id)
    }

    /// Two trees with the same nodes (side state and focus aside).
    pub closed spec fn same_nodes(self, other: Self) -> bool {
        self.arena == other.arena
    }

    /// Two trees with the same nodes, side state and title formats (focus aside).
    pub closed spec fn same_tree(self, other: Self) -> bool {
        &&& self.same_layout(other)
        &&& self.title_formats@ == other.title_formats@
    }

    /// Two trees with the same nodes, modes and remembered layouts (focus and
    /// title formats aside).
    pub closed spec fn same_layout(self, other: Self) -> bool {
        &&& self.arena == other.arena
        &&& self.modes == other.modes
        &&& self.previous_layouts == other.previous_layouts
    }

    /// The first entry at or after `k` of the focus history that is a leaf below `id`.
    pub closed spec fn history_leaf_from(self, id: NodeId, k: int) -> Option<NodeId> {
        history_leaf(self.arena, self.focus_history@, id, k)
    }

    /// The child of split `p` that holds the most recently focused node, or
    /// else its first child.
    pub closed spec fn focused_child_spec(self, p: NodeId) -> Option<NodeId> {
        if !self.is_split_node(p) {
            None
        } else {
            match history_child(self.arena, self.focus_history@, p, 0) {
                Some(c) => Some(c),
                None => if self.children_of(p).len() > 0 {
                    Some(self.children_of(p)[0])
                } else {
                    None
                },
            }
        }
    }

    /// The node that focus in direction `dir` moves into, walking up from `cur`.
    ///
    /// At each ancestor split along the direction's axis, a neighbouring
    /// sibling in that direction is the target. Failing that, the sibling at the
    /// far end becomes the wrap-around candidate (taken at once when wrapping is
    /// forced). The walk stops above the `barrier` node (the fullscreen node).
    pub closed spec fn direction_target(
        self,
        cur: NodeId,
        dir: Direction,
        force: bool,
        barrier: Option<NodeId>,
        wrap: Option<NodeId>,
    ) -> Option<NodeId>
        decreases self.depth_of(cur),
    {
        if !(self.is_live(cur) && self.parent_of(cur) is Some && self.depth_of(self.parent_of(cur)->0)
            < self.depth_of(cur)) {
            wrap
        } else {
            let p = self.parent_of(cur)->0;
            let kids = self.children_of(p);
            let idx = kids.index_of(cur);
            let par = parallel(self.layout_of(p), axis_layout(dir));
            let candidate = if is_backwards(dir) {
                kids.last()
            } else {
                kids[0]
            };
            if par && is_backwards(dir) && idx > 0 {
                Some(kids[idx - 1])
            } else if par && !is_backwards(dir) && idx + 1 < kids.len() {
                Some(kids[idx + 1])
            } else if par && kids.len() > 1 && force {
                Some(candidate)
            } else {
                let next_wrap = if par && kids.len() > 1 && wrap is None {
                    Some(candidate)
                } else {
                    wrap
                };
                if Some(p) == barrier {
                    next_wrap
                } else {
                    self.direction_target(p, dir, force, barrier, next_wrap)
                }
            }
        }
    }

    /// The child of the root whose subtree holds `x`.
    pub closed spec fn root_branch_spec(self, x: NodeId) -> Option<NodeId>
        decreases self.depth_of(x),
    {
        if !(self.is_live(x) && self.parent_of(x) is Some) {
            None
        } else if self.parent_of(x)->0 == self.root_id() {
            Some(x)
        } else if self.depth_of(self.parent_of(x)->0) < self.depth_of(x) {
            self.root_branch_spec(self.parent_of(x)->0)
        } else {
            None
        }
    }

    /// The number of ancestors of `x`.
    pub closed spec fn depth_spec(self, x: NodeId) -> nat
        decreases self.depth_of(x),
    {
        if self.is_live(x) && self.parent_of(x) is Some && self.depth_of(self.parent_of(x)->0)
            < self.depth_of(x) {
            1 + self.depth_spec(self.parent_of(x)->0)
        } else {
            0
        }
    }

    // ----- well-formedness -----

    /// Side state of a node is cleared with the node; splits are never maximized.
    pub closed spec fn wf_modes(self) -> bool {
        modes_ok(self.arena, self.modes@, self.previous_layouts@)
    }

    pub closed spec fn wf_focus(self) -> bool {
        focus_ok(self.arena, self.focus, self.focus_history@)
    }

    /// The node structure is a tree, though splits may be empty and the side
    /// state and focus may be off.
    pub closed spec fn structure_ok(self) -> bool {
        self.arena.wf_core()
    }

    /// Well formed, except that the split `e` may be empty and the focus may
    /// not be set correctly.
    pub closed spec fn wf_but_focus_except(self, e: Option<NodeId>) -> bool {
        &&& self.arena.wf_except(e)
        &&& self.wf_modes()
        &&& self.focus_history@.no_duplicates()
        &&& forall|i: int|
            0 <= i < self.focus_history@.len() ==> #[trigger] self.arena.is_live(self.focus_history@[i])
    }

    /// Well formed, except that the focus may not be set correctly.
    pub closed spec fn wf_but_focus(self) -> bool {
        &&& self.arena.wf()
        &&& self.wf_modes()
        &&& self.focus_history@.no_duplicates()
        &&& forall|i: int|
            0 <= i < self.focus_history@.len() ==> #[trigger] self.arena.is_live(self.focus_history@[i])
    }

    /// The tree is well formed: one tree rooted at a split, every side
    /// collection refers to live nodes only, and the focus is set exactly when
    /// the tree holds a window.
    pub closed spec fn wf(self) -> bool {
        &&& self.arena.wf()
        &&& self.wf_modes()
        &&& self.wf_focus()
    }
}


/// `es` lists a subtree in the form that attaching takes (see `shaped`).
pub closed spec fn well_shaped(es: Seq<DetachedEntry>) -> bool {
    transfer::shaped(es)
}

} // verus!
