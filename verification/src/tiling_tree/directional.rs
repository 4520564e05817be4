//! Moving a node in a direction: past a sibling, into a neighbouring
//! container, out to the edge of the workspace, or around the whole tree.
use vstd::prelude::*;
use super::{Arena, Direction, Layout, NodeId, NodeKind, TilingTree, axis_layout, focus_ok, is_backwards, parallel};
use super::focus::layouts_parallel;
use super::movement::reorder;
use super::nest::lemma_but_focus_except_any;
use super::relocate::{lemma_focus_same_nodes, lemma_modes_same_nodes, lemma_wf_except_any};

verus! {

/// What a directional move of a node does, found by walking up from it.
pub enum MovePlan {
    /// Nothing moves.
    Stop,
    /// The node trades places with its leaf neighbour, to this position.
    StepTo(usize),
    /// The node moves into the neighbouring node.
    Into(NodeId),
    /// The node moves to the far edge of the root.
    Edge,
    /// The root is wrapped in a new split along the direction, beside the node.
    Wrap,
}

impl TilingTree {
    /// The number of windows.
    pub open spec fn leaf_count(self) -> nat {
        self.leaves_in(self.root_id()).len()
    }

    /// Walking up from `branch` (an ancestor of `id`, or `id` itself): whether
    /// the move finds somewhere to go. At an ancestor split along the
    /// direction's axis, a neighbour in the direction is a destination; with
    /// none there, at the root the node goes to the edge; after the top, the
    /// root is wrapped unless some split along the axis was passed.
    pub open spec fn direction_walk(self, id: NodeId, branch: NodeId, dir: Direction, found: bool) -> bool
        decreases self.depth_of(branch),
    {
        if !(self.is_live(branch) && self.parent_of(branch) is Some && self.depth_of(
            self.parent_of(branch)->0,
        ) < self.depth_of(branch)) {
            !found
        } else {
            let p = self.parent_of(branch)->0;
            let kids = self.children_of(p);
            let idx = kids.index_of(branch);
            if parallel(self.layout_of(p), axis_layout(dir)) {
                let has_dest = if is_backwards(dir) {
                    idx > 0
                } else {
                    idx + 1 < kids.len()
                };
                if has_dest {
                    true
                } else if p == self.root_id() && branch != id {
                    true
                } else {
                    self.direction_walk(id, p, dir, true)
                }
            } else {
                self.direction_walk(id, p, dir, found)
            }
        }
    }

    /// What a move of `id` in direction `dir` does, walking up from `branch`
    /// (see `direction_walk`): at the first ancestor split along the axis
    /// with a neighbour in the direction, trade places with that neighbour
    /// when it is a window beside `id` itself, else move into it; with none,
    /// go to the root's edge, or wrap the root when no split along the axis
    /// was passed.
    pub open spec fn direction_plan(self, id: NodeId, branch: NodeId, dir: Direction, found: bool) -> MovePlan
        decreases self.depth_of(branch),
    {
        if !(self.is_live(branch) && self.parent_of(branch) is Some && self.depth_of(
            self.parent_of(branch)->0,
        ) < self.depth_of(branch)) {
            if found {
                MovePlan::Stop
            } else {
                MovePlan::Wrap
            }
        } else {
            let p = self.parent_of(branch)->0;
            let kids = self.children_of(p);
            let idx = kids.index_of(branch);
            if parallel(self.layout_of(p), axis_layout(dir)) {
                let has_dest = if is_backwards(dir) {
                    idx > 0
                } else {
                    idx + 1 < kids.len()
                };
                if has_dest {
                    let k = if is_backwards(dir) {
                        idx - 1
                    } else {
                        idx + 1
                    };
                    if branch == id && self.kind_of(kids[k]) is Leaf {
                        MovePlan::StepTo(k as usize)
                    } else {
                        MovePlan::Into(kids[k])
                    }
                } else if p == self.root_id() && branch != id {
                    MovePlan::Edge
                } else {
                    self.direction_plan(id, p, dir, true)
                }
            } else {
                self.direction_plan(id, p, dir, found)
            }
        }
    }

    /// Where a node moving into `d` in direction `dir` goes, as a split and
    /// a position among its children: beside a window (before it when moving
    /// forwards straight into it, else after it), at the near end of a split
    /// along the axis, or, in a split across the axis, into its focused child.
    pub open spec fn into_slot(self, d: NodeId, dir: Direction, descended: bool) -> (NodeId, int)
        decreases self.height_measure(d),
    {
        if self.kind_of(d) is Leaf {
            let q = self.parent_of(d)->0;
            let i = self.children_of(q).index_of(d);
            (q, if is_backwards(dir) || descended {
                i + 1
            } else {
                i
            })
        } else if parallel(self.layout_of(d), axis_layout(dir)) {
            (d, if is_backwards(dir) {
                self.children_of(d).len() as int
            } else {
                0
            })
        } else {
            match self.focused_child_spec(d) {
                Some(c) => if self.height_measure(c) < self.height_measure(d) {
                    self.into_slot(c, dir, true)
                } else {
                    (d, 0)
                },
                None => (d, 0),
            }
        }
    }

    /// `order` is the window order after a successful move of `id` in
    /// direction `dir`, plan by plan (see `direction_plan`): to position `k`
    /// among its siblings, into the slot `into_slot` gives, to the near end
    /// of the root, or with the root wrapped (see `wrapped_order`).
    pub open spec fn move_landing(self, order: Seq<NodeId>, id: NodeId, dir: Direction) -> bool {
        match self.direction_plan(id, id, dir, false) {
            MovePlan::StepTo(k) => self.order_after_move(order, id, self.parent_of(id)->0, k as int),
            MovePlan::Into(d) => self.order_after_move(
                order,
                id,
                self.into_slot(d, dir, false).0,
                self.into_slot(d, dir, false).1,
            ),
            MovePlan::Edge => self.order_after_move(
                order,
                id,
                self.root_id(),
                if is_backwards(dir) {
                    0
                } else {
                    self.children_of(self.root_id()).len() as int
                },
            ),
            MovePlan::Wrap => self.wrapped_order(order, id, dir),
            MovePlan::Stop => order == self.leaf_order(),
        }
    }

    /// `t` is this tree with the root wrapped for a move of `id` in
    /// direction `dir`: the root's other children go, in order, into the new
    /// split `w` with the root's layout, and the root, now split along the
    /// axis, holds `id` and `w`, `id` first when moving backwards.
    pub open spec fn wrapped_tree(self, t: TilingTree, id: NodeId, dir: Direction, w: NodeId) -> bool {
        let root = self.root_id();
        let p = self.parent_of(id)->0;
        let kids = self.children_of(root);
        let rest = if p == root {
            kids.remove(kids.index_of(id))
        } else {
            kids
        };
        &&& t.structure_ok()
        &&& t.root_id() == root
        &&& !self.is_live(w)
        &&& t.is_live(w)
        &&& forall|y: NodeId| #[trigger] t.is_live(y) == (self.is_live(y) || y == w)
        &&& t.kind_of(root) == NodeKind::Split(axis_layout(dir))
        &&& t.kind_of(w) == self.kind_of(root)
        &&& forall|y: NodeId| #![trigger t.kind_of(y)] self.is_live(y) && y != root ==> t.kind_of(y) == self.kind_of(y)
        &&& t.children_of(root) == if is_backwards(dir) {
            seq![id, w]
        } else {
            seq![w, id]
        }
        &&& t.children_of(w) == rest
        &&& p != root ==> t.children_of(p) == self.children_of(p).remove(self.children_of(p).index_of(id))
        &&& forall|r: NodeId|
            #![trigger t.children_of(r)]
            self.is_live(r) && r != root && r != p ==> t.children_of(r) == self.children_of(r)
    }

    /// `order` is the window order of this tree with the root wrapped for a
    /// move of `id` (see `wrapped_tree`).
    pub open spec fn wrapped_order(self, order: Seq<NodeId>, id: NodeId, dir: Direction) -> bool {
        exists|t: TilingTree, w: NodeId| #[trigger] self.wrapped_tree(t, id, dir, w) && t.leaf_order() == order
    }

    /// `t` is this tree tidied after a move: the same root; only nodes of
    /// this tree, each of the same kind; every window kept; ancestry among
    /// the nodes kept as here; the windows in the same order; and no split
    /// left that compaction would merge.
    pub open spec fn tidied(self, t: Self) -> bool {
        &&& t.root_id() == self.root_id()
        &&& forall|y: NodeId| #[trigger] t.is_live(y) ==> self.is_live(y) && t.kind_of(y) == self.kind_of(y)
        &&& forall|y: NodeId| #[trigger] self.is_leaf_node(y) ==> t.is_leaf_node(y)
        &&& forall|x: NodeId, a: NodeId|
            #![trigger t.is_desc(x, a)]
            t.is_live(x) && t.is_live(a) ==> t.is_desc(x, a) == self.is_desc(x, a)
        &&& t.leaf_order() == self.leaf_order()
        &&& t.compacted()
    }

    /// `t` is this tree with the subtree of `x` moved to position `j` below
    /// `q` (see `moved_tree`), then tidied.
    pub open spec fn moved_then_tidied(self, t: Self, x: NodeId, q: NodeId, j: int) -> bool {
        exists|m: TilingTree| #[trigger] self.moved_tree(m, x, q, j) && m.tidied(t)
    }

    /// `t` is this tree with the root wrapped for a move of `id` (see
    /// `wrapped_tree`), then tidied.
    pub open spec fn wrapped_then_tidied(self, t: Self, id: NodeId, dir: Direction) -> bool {
        exists|m: TilingTree, w: NodeId| #[trigger] self.wrapped_tree(m, id, dir, w) && m.tidied(t)
    }

    /// `t` is the tree after a successful move of `id` in direction `dir`,
    /// plan by plan (see `direction_plan`): the tree with the node moved to
    /// position `k` among its siblings, into the slot `into_slot` gives, to
    /// the near end of the root, or with the root wrapped, then tidied. A
    /// move that finds nowhere to go has no result.
    pub open spec fn move_result(self, t: Self, id: NodeId, dir: Direction) -> bool {
        match self.direction_plan(id, id, dir, false) {
            MovePlan::StepTo(k) => self.moved_then_tidied(t, id, self.parent_of(id)->0, k as int),
            MovePlan::Into(d) => self.moved_then_tidied(
                t,
                id,
                self.into_slot(d, dir, false).0,
                self.into_slot(d, dir, false).1,
            ),
            MovePlan::Edge => self.moved_then_tidied(
                t,
                id,
                self.root_id(),
                if is_backwards(dir) {
                    0
                } else {
                    self.children_of(self.root_id()).len() as int
                },
            ),
            MovePlan::Wrap => self.wrapped_then_tidied(t, id, dir),
            MovePlan::Stop => false,
        }
    }

    /// Tidying depends on the nodes alone, not on the focus.
    pub(crate) proof fn lemma_tidied_same_nodes(m: Self, a: Self, b: Self)
        requires
            m.tidied(a),
            a.arena == b.arena,
        ensures
            m.tidied(b),
    {
        a.lemma_leaf_order();
        b.lemma_leaf_order();
        assert forall|x: NodeId| #[trigger] b.is_live(x) implies !b.squashable(x) by {
            assert(a.is_live(x));
        }
        assert forall|y: NodeId| #[trigger] b.is_live(y) implies m.is_live(y) && b.kind_of(y) == m.kind_of(y) by {
            assert(a.is_live(y));
        }
        assert forall|y: NodeId| #[trigger] m.is_leaf_node(y) implies b.is_leaf_node(y) by {
            assert(a.is_leaf_node(y));
        }
        assert forall|x: NodeId, z: NodeId|
            #![trigger b.is_desc(x, z)]
            b.is_live(x) && b.is_live(z) implies b.is_desc(x, z) == m.is_desc(x, z) by {
            assert(a.is_live(x) && a.is_live(z));
            assert(a.is_desc(x, z) == m.is_desc(x, z));
        }
    }

    /// A move's result depends on the nodes alone, not on the focus.
    pub(crate) proof fn lemma_move_result_same_nodes(t0: Self, a: Self, b: Self, id: NodeId, dir: Direction)
        requires
            t0.move_result(a, id, dir),
            a.arena == b.arena,
        ensures
            t0.move_result(b, id, dir),
    {
        match t0.direction_plan(id, id, dir, false) {
            MovePlan::StepTo(k) => {
                let q = t0.parent_of(id)->0;
                let m = choose|m: TilingTree| #[trigger] t0.moved_tree(m, id, q, k as int) && m.tidied(a);
                TilingTree::lemma_tidied_same_nodes(m, a, b);
            },
            MovePlan::Into(d) => {
                let q = t0.into_slot(d, dir, false).0;
                let j = t0.into_slot(d, dir, false).1;
                let m = choose|m: TilingTree| #[trigger] t0.moved_tree(m, id, q, j) && m.tidied(a);
                TilingTree::lemma_tidied_same_nodes(m, a, b);
            },
            MovePlan::Edge => {
                let q = t0.root_id();
                let j = if is_backwards(dir) {
                    0
                } else {
                    t0.children_of(t0.root_id()).len() as int
                };
                let m = choose|m: TilingTree| #[trigger] t0.moved_tree(m, id, q, j) && m.tidied(a);
                TilingTree::lemma_tidied_same_nodes(m, a, b);
            },
            MovePlan::Wrap => {
                let (m, w) = choose|m: TilingTree, w: NodeId| #[trigger] t0.wrapped_tree(m, id, dir, w) && m.tidied(a);
                TilingTree::lemma_tidied_same_nodes(m, a, b);
            },
            MovePlan::Stop => {},
        }
    }

    /// What a move of `id` in direction `dir` leaves, `r` telling whether it
    /// succeeded: the windows in their new order (see `move_landing`) and the
    /// tree the plan gives (see `move_result`); the root turned to the axis,
    /// with every node's children kept, when that is all a move can do; or
    /// else the tree as it was.
    pub open spec fn focused_move_outcome(self, new: Self, id: NodeId, dir: Direction, r: bool) -> bool {
        &&& r ==> self.move_landing(new.leaf_order(), id, dir)
        &&& r ==> self.move_result(new, id, dir)
        &&& self.move_only_turns_root(id) ==> new.kind_of(self.root_id()) == NodeKind::Split(axis_layout(dir))
            && forall|x: NodeId| #![trigger new.children_of(x)] new.children_of(x) == self.children_of(x)
        &&& !r && !self.move_only_turns_root(id) ==> new == self
    }

    /// The node is inside the fullscreen node, where moves are refused.
    pub open spec fn move_blocked_by_fullscreen(self, id: NodeId) -> bool {
        self.fullscreen_spec() matches Some(fs) && self.is_desc(id, fs)
    }

    /// With fewer than two windows, or when the node is the root's only child,
    /// a move only turns the root to the direction's axis.
    pub open spec fn move_only_turns_root(self, id: NodeId) -> bool {
        &&& self.is_live(id)
        &&& id != self.root_id()
        &&& !self.move_blocked_by_fullscreen(id)
        &&& (self.leaf_count() < 2 || (self.children_of(self.root_id()).len() == 1
            && self.root_branch_spec(id) == Some(id)))
    }

    /// A directional move of `id` changes the tree.
    pub open spec fn move_succeeds(self, id: NodeId, dir: Direction) -> bool {
        &&& self.is_live(id)
        &&& id != self.root_id()
        &&& !self.move_blocked_by_fullscreen(id)
        &&& !self.move_only_turns_root(id)
        &&& self.direction_walk(id, id, dir, false)
    }

    /// Walks up from `id` to decide what a move in direction `dir` does.
    fn move_plan(&self, id: NodeId, dir: Direction) -> (plan: MovePlan)
        requires
            self.wf(),
            self.is_live(id),
            id != self.root_id(),
        ensures
            (plan is Stop) == !self.direction_walk(id, id, dir, false),
            plan matches MovePlan::StepTo(k) ==> {
                let p = self.parent_of(id)->0;
                let kids = self.children_of(p);
                &&& self.parent_of(id) is Some
                &&& k < kids.len()
                &&& k != kids.index_of(id)
                &&& self.kind_of(kids[k as int]) is Leaf
            },
            plan matches MovePlan::Into(d) ==> {
                &&& self.is_live(d)
                &&& d != self.root_id()
                &&& !self.is_desc(d, id)
                &&& !self.is_desc(id, d)
                &&& self.parent_of(d) is Some
                &&& !self.is_desc(self.parent_of(d)->0, id)
                &&& self.parent_of(d) != self.parent_of(id) || self.kind_of(d) is Split
            },
            plan is Edge ==> self.parent_of(id) != Some(self.root_id()),
            plan == self.direction_plan(id, id, dir, false),
    {
        let axis = match dir {
            Direction::Left | Direction::Right => Layout::SplitH,
            Direction::Up | Direction::Down => Layout::SplitV,
        };
        let backwards = matches!(dir, Direction::Left | Direction::Up);
        let root = self.arena.root;
        let mut branch = id;
        let mut found = false;
        proof {
            self.lemma_desc_unfold(id, id);
        }
        loop
            invariant
                self.wf(),
                self.is_live(id),
                id != self.root_id(),
                root == self.root_id(),
                axis == axis_layout(dir),
                backwards == is_backwards(dir),
                self.is_live(branch),
                self.is_desc(id, branch),
                self.direction_walk(id, id, dir, false) == self.direction_walk(id, branch, dir, found),
                self.direction_plan(id, id, dir, false) == self.direction_plan(id, branch, dir, found),
            decreases self.depth_of(branch),
        {
            let parent = match self.arena.parents[branch.0 as usize] {
                Some(p) => p,
                None => {
                    assert(!(self.parent_of(branch) is Some));
                    if found {
                        return MovePlan::Stop;
                    }
                    return MovePlan::Wrap;
                },
            };
            proof {
                assert(self.parent_of(branch) is Some);
                assert(branch != self.root_id());
            }
            let layout = match self.arena.kinds[parent.0 as usize] {
                NodeKind::Split(l) => l,
                NodeKind::Leaf(_) => {
                    proof {
                        assert(false);
                    }
                    return MovePlan::Stop;
                },
            };
            if layouts_parallel(layout, axis) {
                found = true;
                let n = self.arena.children[parent.0 as usize].len();
                let idx = self.index_of_child(parent, branch);
                let dest = if backwards {
                    if idx > 0 {
                        Some(self.arena.children[parent.0 as usize][idx - 1])
                    } else {
                        None
                    }
                } else if idx + 1 < n {
                    Some(self.arena.children[parent.0 as usize][idx + 1])
                } else {
                    None
                };
                if let Some(d) = dest {
                    let k: usize = if backwards { idx - 1 } else { idx + 1 };
                    proof {
                        self.lemma_child_desc(parent, k as int);
                        self.lemma_child_desc(parent, idx as int);
                        assert(self.children_of(parent).no_duplicates());
                        assert(d != branch);
                        // The neighbour lies outside the moving subtree, and the
                        // moving node outside the neighbour.
                        assert(!self.is_desc(d, id)) by {
                            if self.is_desc(d, id) {
                                self.lemma_desc_trans(d, id, branch);
                                self.lemma_desc_unfold(d, branch);
                                self.lemma_desc_live(parent, branch);
                            }
                        }
                        assert(!self.is_desc(id, d)) by {
                            if self.is_desc(id, d) {
                                self.lemma_desc_chain(id, d, branch);
                                if self.is_desc(d, branch) {
                                    self.lemma_desc_unfold(d, branch);
                                    self.lemma_desc_live(parent, branch);
                                } else {
                                    self.lemma_desc_unfold(branch, d);
                                    self.lemma_desc_live(parent, d);
                                }
                            }
                        }
                        assert(!self.is_desc(parent, id)) by {
                            if self.is_desc(parent, id) {
                                self.lemma_desc_trans(parent, id, branch);
                                self.lemma_desc_live(parent, branch);
                            }
                        }
                        if self.parent_of(d) == self.parent_of(id) {
                            assert(branch == id) by {
                                if branch != id {
                                    self.lemma_desc_unfold(id, branch);
                                    self.lemma_desc_live(parent, branch);
                                    self.lemma_desc_live(self.parent_of(id)->0, branch);
                                }
                            }
                        }
                    }
                    let is_leaf = match self.arena.kinds[d.0 as usize] {
                        NodeKind::Leaf(_) => true,
                        NodeKind::Split(_) => false,
                    };
                    if branch == id && is_leaf {
                        return MovePlan::StepTo(k);
                    }
                    return MovePlan::Into(d);
                }
                if parent == root && branch != id {
                    proof {
                        if self.parent_of(id) == Some(self.root_id()) {
                            self.lemma_desc_unfold(id, branch);
                            self.lemma_desc_live(self.root_id(), branch);
                        }
                    }
                    return MovePlan::Edge;
                }
            }
            proof {
                self.lemma_desc_unfold(id, parent);
                if branch != id {
                    self.lemma_desc_unfold(branch, parent);
                }
                self.lemma_desc_trans(id, branch, parent);
                assert(self.is_desc(branch, parent)) by {
                    self.lemma_desc_unfold(branch, parent);
                }
            }
            branch = parent;
        }
    }
}

impl TilingTree {
    /// `new` holds the same windows as `self`, in the same leaves, with the
    /// same pending modes.
    pub open spec fn keeps_windows(self, new: Self) -> bool {
        &&& forall|y: NodeId| #[trigger] new.is_leaf_node(y) == self.is_leaf_node(y)
        &&& forall|y: NodeId|
            #![trigger new.kind_of(y)]
            self.is_leaf_node(y) ==> new.kind_of(y) == self.kind_of(y) && new.mode_of(y) == self.mode_of(y)
    }

    pub(crate) proof fn lemma_keeps_windows_trans(a: Self, b: Self, c: Self)
        requires
            a.keeps_windows(b),
            b.keeps_windows(c) || c.same_tree(b),
        ensures
            a.keeps_windows(c),
    {
        if c.same_tree(b) {
            assert forall|y: NodeId| #[trigger] c.is_leaf_node(y) == b.is_leaf_node(y) by {}
            assert forall|y: NodeId|
                #![trigger c.kind_of(y)]
                b.is_leaf_node(y) implies c.kind_of(y) == b.kind_of(y) && c.mode_of(y) == b.mode_of(y) by {}
        }
        assert forall|y: NodeId| #[trigger] c.is_leaf_node(y) == a.is_leaf_node(y) by {
            assert(b.is_leaf_node(y) == a.is_leaf_node(y));
        }
        assert forall|y: NodeId|
            #![trigger c.kind_of(y)]
            a.is_leaf_node(y) implies c.kind_of(y) == a.kind_of(y) && c.mode_of(y) == a.mode_of(y) by {
            assert(b.is_leaf_node(y));
            assert(b.kind_of(y) == a.kind_of(y));
        }
    }

    /// Moving nodes around keeps the windows when no node changes what it is.
    pub(crate) proof fn lemma_keeps_windows_same_nodes(a: Self, b: Self)
        requires
            forall|y: NodeId| #[trigger] b.is_live(y) == a.is_live(y),
            forall|y: NodeId| #![trigger b.kind_of(y)] b.kind_of(y) == a.kind_of(y),
            forall|y: NodeId| #![trigger b.mode_of(y)] b.mode_of(y) == a.mode_of(y),
        ensures
            a.keeps_windows(b),
    {
        assert forall|y: NodeId| #[trigger] b.is_leaf_node(y) == a.is_leaf_node(y) by {
            assert(b.is_live(y) == a.is_live(y));
            assert(b.kind_of(y) == a.kind_of(y));
        }
        assert forall|y: NodeId|
            #![trigger b.kind_of(y)]
            a.is_leaf_node(y) implies b.kind_of(y) == a.kind_of(y) && b.mode_of(y) == a.mode_of(y) by {}
    }

    /// No split is left that compaction would merge.
    pub open spec fn compacted(self) -> bool {
        forall|x: NodeId| #[trigger] self.is_live(x) ==> !self.squashable(x)
    }

    /// Focuses the first leaf below `id`, or keeps the focus where `id` is gone.
    fn finish_directional_move(&mut self, id: NodeId)
        requires
            old(self).wf(),
            old(self).has_leaf(),
        ensures
            old(self).keeps_titles(*final(self)),
            final(self).wf(),
            final(self).same_tree(*old(self)),
            old(self).first_leaf_spec(id) is Some ==> final(self).focus_id() == old(self).first_leaf_spec(id),
            old(self).first_leaf_spec(id) is None ==> final(self).focus_id() == old(self).focus_id(),
    {
        let first = self.first_leaf_in(id);
        let target = match first {
            Some(l) => Some(l),
            None => self.focus,
        };
        proof {
            if let Some(l) = first {
                self.lemma_leaves_in(id);
                assert(self.leaves_in(id).contains(l));
                self.lemma_leaf_has_leaf(l);
            }
        }
        self.focus_node(target);
    }
}

impl TilingTree {
    /// After a move: drops the splits left empty above `old_parent`, compacts
    /// the tree and focuses the first leaf of the moved node.
    fn settle_after_move(&mut self, id: NodeId, old_parent: NodeId)
        requires
            old(self).wf_but_focus_except(Some(old_parent)),
            old(self).wf_focus(),
            old(self).has_leaf(),
        ensures
            old(self).keeps_titles(*final(self)),
            final(self).wf(),
            old(self).keeps_windows(*final(self)),
            final(self).compacted(),
            final(self).first_leaf_spec(id) is Some ==> final(self).focus_id() == final(self).first_leaf_spec(id),
            final(self).leaf_order() == old(self).leaf_order(),
            old(self).tidied(*final(self)),
    {
        let ghost t0 = *self;
        self.reap_empty_from(old_parent);
        let ghost t1 = *self;
        self.compact_tree();
        let ghost t2 = *self;
        proof {
            assert forall|y: NodeId| #[trigger] t2.is_leaf_node(y) == t0.is_leaf_node(y) by {
                if t0.is_leaf_node(y) {
                    assert(t1.is_leaf_node(y));
                }
                if t2.is_leaf_node(y) {
                    assert(t2.is_live(y));
                    assert(t1.is_live(y));
                    assert(t1.is_leaf_node(y));
                    assert(t0.is_live(y));
                }
            }
            assert forall|y: NodeId|
                #![trigger t2.kind_of(y)]
                t0.is_leaf_node(y) implies t2.kind_of(y) == t0.kind_of(y) && t2.mode_of(y) == t0.mode_of(y) by {
                assert(t1.is_leaf_node(y));
                assert(t1.is_live(y));
                assert(t2.is_leaf_node(y));
                assert(t2.is_live(y));
            }
            assert(t2.has_leaf()) by {
                let y = t0.lemma_leaf_witness();
                assert(t2.is_leaf_node(y));
                t2.lemma_leaf_has_leaf(y);
            }
        }
        self.finish_directional_move(id);
        proof {
            assert(self.first_leaf_spec(id) == t2.first_leaf_spec(id));
            assert forall|x: NodeId| #[trigger] self.is_live(x) implies !self.squashable(x) by {
                assert(t2.is_live(x));
            }
            TilingTree::lemma_keeps_windows_trans(t0, t2, *self);
            assert(self.arena == t2.arena);
            self.lemma_leaf_order();
            t2.lemma_leaf_order();
            assert forall|y: NodeId| #[trigger] self.is_live(y) implies t0.is_live(y) && self.kind_of(y)
                == t0.kind_of(y) by {
                assert(t2.is_live(y));
                assert(t1.is_live(y));
            }
            assert forall|x: NodeId, a: NodeId|
                #![trigger self.is_desc(x, a)]
                self.is_live(x) && self.is_live(a) implies self.is_desc(x, a) == t0.is_desc(x, a) by {
                assert(t2.is_live(x) && t2.is_live(a));
                assert(t2.is_desc(x, a) == t1.is_desc(x, a));
                assert(t1.is_live(x) && t1.is_live(a));
                assert(t1.is_desc(x, a) == t0.is_desc(x, a));
            }
            assert forall|y: NodeId| #[trigger] t0.is_leaf_node(y) implies self.is_leaf_node(y) by {}
        }
    }

    /// Moves `id` into the neighbouring node `dest`: next to a leaf (before
    /// it when moving backwards or after descending), to the near end of a
    /// split along the axis, or into the most recently focused child of a
    /// split across it.
    fn into_destination(&mut self, id: NodeId, dest: NodeId, dir: Direction, descended: bool)
        requires
            old(self).wf(),
            old(self).has_leaf(),
            old(self).is_live(id),
            id != old(self).root_id(),
            old(self).is_live(dest),
            dest != old(self).root_id(),
            !old(self).is_desc(dest, id),
            !old(self).is_desc(id, dest),
            old(self).parent_of(dest) is Some,
            !old(self).is_desc(old(self).parent_of(dest)->0, id),
            old(self).parent_of(dest) != old(self).parent_of(id) || old(self).kind_of(dest) is Split,
        ensures
            old(self).keeps_titles(*final(self)),
            final(self).wf(),
            old(self).keeps_windows(*final(self)),
            final(self).compacted(),
            final(self).first_leaf_spec(id) is Some ==> final(self).focus_id() == final(self).first_leaf_spec(id),
            old(self).order_after_move(
                final(self).leaf_order(),
                id,
                old(self).into_slot(dest, dir, descended).0,
                old(self).into_slot(dest, dir, descended).1,
            ),
            old(self).moved_then_tidied(
                *final(self),
                id,
                old(self).into_slot(dest, dir, descended).0,
                old(self).into_slot(dest, dir, descended).1,
            ),
        decreases old(self).height_measure(dest),
    {
        let backwards = matches!(dir, Direction::Left | Direction::Up);
        let axis = match dir {
            Direction::Left | Direction::Right => Layout::SplitH,
            Direction::Up | Direction::Down => Layout::SplitV,
        };
        proof {
            self.lemma_desc_root(id);
            assert(self.parent_of(id) is Some);
            assert(self.parent_of(self.root_id()) is None);
        }
        let old_parent = self.arena.parents[id.0 as usize].unwrap();
        match self.arena.kinds[dest.0 as usize] {
            NodeKind::Leaf(_) => {
                let q = self.arena.parents[dest.0 as usize].unwrap();
                let n = self.arena.children[q.0 as usize].len();
                let index = self.index_of_child(q, dest);
                let j = if backwards || descended { index + 1 } else { index };
                proof {
                    lemma_wf_except_any(*self, q);
                }
                let ghost t0 = *self;
                self.relocate(id, q, j);
                proof {
                    TilingTree::lemma_keeps_windows_same_nodes(t0, *self);
                }
                let ghost t1 = *self;
                self.settle_after_move(id, old_parent);
                proof {
                    TilingTree::lemma_keeps_windows_trans(t0, t1, *self);
                    assert((q, j as int) == t0.into_slot(dest, dir, descended));
                    assert(t1.structure_ok());
                    TilingTree::lemma_moved_witness(t0, t1, id, q, j as int);
                }
            },
            NodeKind::Split(layout) => {
                proof {
                    assert(dest != old_parent) by {
                        if dest == old_parent {
                            self.lemma_desc_unfold(id, dest);
                        }
                    }
                }
                if layouts_parallel(layout, axis) {
                    let n = self.arena.children[dest.0 as usize].len();
                    let j = if backwards { n } else { 0 };
                    proof {
                        lemma_wf_except_any(*self, dest);
                    }
                    let ghost t0 = *self;
                    self.relocate(id, dest, j);
                    proof {
                        TilingTree::lemma_keeps_windows_same_nodes(t0, *self);
                    }
                    let ghost t1 = *self;
                    self.settle_after_move(id, old_parent);
                    proof {
                        TilingTree::lemma_keeps_windows_trans(t0, t1, *self);
                        assert((dest, j as int) == t0.into_slot(dest, dir, descended));
                        assert(t1.structure_ok());
                        TilingTree::lemma_moved_witness(t0, t1, id, dest, j as int);
                    }
                } else {
                    let child = self.focused_child_in(dest);
                    proof {
                        self.lemma_focused_child(dest);
                        assert(self.children_of(dest).len() > 0);
                    }
                    let child = child.unwrap();
                    proof {
                        let k = self.children_of(dest).index_of(child);
                        self.lemma_child_desc(dest, k);
                        self.lemma_wf_depth_bound(dest);
                        assert(!self.is_desc(child, id)) by {
                            if self.is_desc(child, id) {
                                self.lemma_desc_unfold(child, id);
                            }
                        }
                        assert(!self.is_desc(id, child)) by {
                            if self.is_desc(id, child) {
                                self.lemma_desc_trans(id, child, dest);
                            }
                        }
                        assert(self.parent_of(child) == Some(dest));
                        assert(self.height_measure(child) < self.height_measure(dest));
                        assert(self.into_slot(dest, dir, descended) == self.into_slot(child, dir, true));
                    }
                    self.into_destination(id, child, dir, true);
                }
            },
        }
    }
}

impl TilingTree {
    /// Moves `id` to the near (or far) end of the root's children.
    fn to_root_edge(&mut self, id: NodeId, backwards: bool)
        requires
            old(self).wf(),
            old(self).has_leaf(),
            old(self).is_live(id),
            id != old(self).root_id(),
            old(self).parent_of(id) != Some(old(self).root_id()),
        ensures
            old(self).keeps_titles(*final(self)),
            final(self).wf(),
            old(self).keeps_windows(*final(self)),
            final(self).compacted(),
            final(self).first_leaf_spec(id) is Some ==> final(self).focus_id() == final(self).first_leaf_spec(id),
            old(self).order_after_move(
                final(self).leaf_order(),
                id,
                old(self).root_id(),
                if backwards {
                    0
                } else {
                    old(self).children_of(old(self).root_id()).len() as int
                },
            ),
            old(self).moved_then_tidied(
                *final(self),
                id,
                old(self).root_id(),
                if backwards {
                    0
                } else {
                    old(self).children_of(old(self).root_id()).len() as int
                },
            ),
    {
        let root = self.arena.root;
        proof {
            self.lemma_desc_root(id);
            assert(self.parent_of(id) is Some);
            assert(self.parent_of(root) is None);
            reveal_with_fuel(Arena::is_desc, 2);
            assert(!self.is_desc(root, id));
        }
        let old_parent = self.arena.parents[id.0 as usize].unwrap();
        let j = if backwards { 0 } else { self.arena.children[root.0 as usize].len() };
        proof {
            lemma_wf_except_any(*self, root);
        }
        let ghost t0 = *self;
        self.relocate(id, root, j);
        proof {
            TilingTree::lemma_keeps_windows_same_nodes(t0, *self);
        }
        let ghost t1 = *self;
        self.settle_after_move(id, old_parent);
        proof {
            TilingTree::lemma_keeps_windows_trans(t0, t1, *self);
            assert(t1.structure_ok());
            TilingTree::lemma_moved_witness(t0, t1, id, root, j as int);
        }
    }

    /// Wraps the root's children (all but `id`) in a new split with the root's
    /// layout, and makes the root a split along `dir`'s axis holding `id` and
    /// that split, `id` first when moving backwards.
    fn wrap_root(&mut self, id: NodeId, dir: Direction)
        requires
            old(self).wf(),
            old(self).has_leaf(),
            old(self).is_live(id),
            id != old(self).root_id(),
            old(self).slot_count() < usize::MAX,
            old(self).children_of(old(self).root_id()) != seq![id],
        ensures
            old(self).keeps_titles(*final(self)),
            final(self).wf(),
            old(self).keeps_windows(*final(self)),
            final(self).compacted(),
            final(self).first_leaf_spec(id) is Some ==> final(self).focus_id() == final(self).first_leaf_spec(id),
            old(self).wrapped_order(final(self).leaf_order(), id, dir),
            old(self).wrapped_then_tidied(*final(self), id, dir),
    {
        let ghost t0 = *self;
        let backwards = matches!(dir, Direction::Left | Direction::Up);
        let axis = match dir {
            Direction::Left | Direction::Right => Layout::SplitH,
            Direction::Up | Direction::Down => Layout::SplitV,
        };
        let root = self.arena.root;
        proof {
            self.lemma_desc_root(id);
            assert(self.parent_of(id) is Some);
            assert(self.parent_of(root) is None);
        }
        let old_parent = self.arena.parents[id.0 as usize].unwrap();
        let root_layout = match self.arena.kinds[root.0 as usize] {
            NodeKind::Split(l) => l,
            NodeKind::Leaf(_) => {
                proof {
                    assert(false);
                }
                Layout::SplitH
            },
        };
        proof {
            let kids = self.children_of(root);
            assert(kids.len() > 0) by {
                let l = self.lemma_leaf_witness();
                self.lemma_desc_root(l);
                if kids.len() == 0 {
                    assert(l != root);
                    self.lemma_desc_child(l, root);
                }
            }
            if kids.len() == 1 {
                assert(kids[0] != id) by {
                    if kids[0] == id {
                        assert(kids =~= seq![id]);
                    }
                }
            }
        }
        proof {
            if old_parent == root {
                assert(self.children_of(root).contains(id));
            }
        }
        let ghost k0 = t0.children_of(root);
        let ghost pos = k0.index_of(id);
        let w = self.alloc_split(root, 0, root_layout);
        proof {
            assert(self.children_of(root) =~= seq![w] + k0.skip(0));
            assert(self.children_of(w) =~= k0.take(0));
            if old_parent == root {
                assert(k0.contains(id));
                assert(k0[pos] == id);
            }
            TilingTree::lemma_keeps_windows_alloc(t0, *self, w);
            if old_parent == root {
                let k = t0.children_of(root).index_of(id);
                assert(t0.children_of(root)[k] == id);
                assert(self.children_of(root)[k + 1] == id);
            }
            assert(self.children_of(root)[0] == w);
            assert(self.parent_of(id) == t0.parent_of(id));
        }
        let mut idx: usize = 1;
        loop
            invariant
                old(self).keeps_titles(*self),
                self.wf_but_focus_except(Some(w)),
                self.wf_focus(),
                self.root_id() == root,
                self.is_live(w),
                w != root,
                self.parent_of(w) == Some(root),
                self.is_split_node(w),
                self.is_live(id),
                self.parent_of(id) == Some(old_parent),
                self.is_split_node(root),
                self.kind_of(root) == t0.kind_of(root),
                self.children_of(root).len() >= 1,
                self.children_of(root)[0] == w,
                1 <= idx <= self.children_of(root).len(),
                idx == 1 || (idx == 2 && self.children_of(root)[1] == id),
                old_parent == root ==> self.children_of(root).contains(id),
                self.children_of(w).len() > 0 || (idx < self.children_of(root).len() && (
                self.children_of(root)[idx as int] != id || idx + 1 < self.children_of(root).len())),
                t0.keeps_windows(*self),
                t0.wf(),
                k0 == t0.children_of(root),
                old_parent == root ==> 0 <= pos < k0.len() && k0[pos] == id && k0.no_duplicates(),
                !t0.is_live(w),
                forall|y: NodeId| #[trigger] self.is_live(y) == (t0.is_live(y) || y == w),
                forall|y: NodeId| #![trigger self.kind_of(y)] t0.is_live(y) ==> self.kind_of(y) == t0.kind_of(y),
                self.kind_of(w) == NodeKind::Split(root_layout),
                forall|r: NodeId|
                    #![trigger self.children_of(r)]
                    t0.is_live(r) && r != root ==> self.children_of(r) == t0.children_of(r),
                idx == 1 ==> (old_parent == root ==> self.children_of(w).len() <= pos) && self.children_of(w).len()
                    <= k0.len() && self.children_of(root) == seq![w] + k0.skip(self.children_of(w).len() as int)
                    && self.children_of(w) == k0.take(self.children_of(w).len() as int),
                idx == 2 ==> old_parent == root && pos <= self.children_of(w).len() && self.children_of(w).len() + 1
                    <= k0.len() && self.children_of(root) == seq![w, id] + k0.skip(self.children_of(w).len() as int + 1)
                    && self.children_of(w) == k0.take(pos) + k0.subrange(pos + 1, self.children_of(w).len() as int + 1),
            ensures
                self.children_of(root).len() == idx,
            decreases self.children_of(root).len() - idx,
        {
            let n = self.arena.children[root.0 as usize].len();
            if idx >= n {
                break;
            }
            let c = self.arena.children[root.0 as usize][idx];
            if c == id {
                proof {
                    assert(idx == 1);
                    self.lemma_child_desc(root, 1);
                    assert(self.children_of(root).no_duplicates());
                    if idx + 1 < n {
                        assert(self.children_of(root)[2] != id);
                    }
                    let m = self.children_of(w).len() as int;
                    assert(k0[m] == id);
                    if old_parent != root {
                        assert(t0.children_of(root).contains(id));
                        assert(t0.parent_of(id) == Some(root)) by {
                            t0.lemma_child_desc(root, m);
                        }
                    }
                    assert(pos == m);
                    assert(self.children_of(root) =~= seq![w, id] + k0.skip(m + 1));
                    assert(self.children_of(w) =~= k0.take(pos) + k0.subrange(pos + 1, m + 1));
                }
                idx = idx + 1;
                continue;
            }
            let ghost before = *self;
            let m = self.arena.children[w.0 as usize].len();
            proof {
                self.lemma_child_desc(root, idx as int);
                assert(c != w);
                assert(!self.is_desc(w, c)) by {
                    self.lemma_desc_unfold(w, c);
                    reveal_with_fuel(Arena::is_desc, 2);
                    assert(!self.is_desc(root, c));
                }
                assert(self.parent_of(c) == Some(root));
                if old_parent == root {
                    let k = self.children_of(root).index_of(id);
                    assert(self.children_of(root)[k] == id);
                }
            }
            self.relocate(c, w, m);
            proof {
                let kids = before.children_of(root);
                assert(self.children_of(root) == kids.remove(idx as int));
                assert(self.children_of(root)[0] == w);
                assert(self.children_of(root).contains(w));
                self.lemma_exception_cleared(root);
                lemma_but_focus_except_any(*self, w);
                assert(self.children_of(w) == before.children_of(w).insert(m as int, c));
                assert(self.children_of(w)[m as int] == c);
                if idx == 2 {
                    assert(self.children_of(root)[1] == id);
                }
                if old_parent == root {
                    let k = kids.index_of(id);
                    assert(kids[k] == id);
                    assert(k != idx);
                    if k < idx {
                        assert(self.children_of(root)[k] == id);
                    } else {
                        assert(self.children_of(root)[k - 1] == id);
                    }
                }
                assert(self.parent_of(id) == before.parent_of(id));
                TilingTree::lemma_keeps_windows_same_nodes(before, *self);
                TilingTree::lemma_keeps_windows_trans(t0, before, *self);
                let mm = m as int;
                if idx == 1 {
                    assert(c == k0[mm]);
                    assert(self.children_of(root) =~= seq![w] + k0.skip(mm + 1));
                    assert(self.children_of(w) =~= k0.take(mm + 1));
                    if old_parent == root {
                        assert(mm != pos);
                    }
                } else {
                    assert(c == k0[mm + 1]);
                    assert(self.children_of(root) =~= seq![w, id] + k0.skip(mm + 2));
                    assert(self.children_of(w) =~= k0.take(pos) + k0.subrange(pos + 1, mm + 2));
                }
                assert forall|r: NodeId|
                    #![trigger self.children_of(r)]
                    t0.is_live(r) && r != root implies self.children_of(r) == t0.children_of(r) by {
                    assert(r != w);
                    assert(before.children_of(r) == t0.children_of(r));
                }
            }
        }
        let ghost tl = *self;
        proof {
            self.lemma_exception_cleared(w);
        }
        if old_parent == root {
            // Here the root holds `w` and then `id`.
            proof {
                assert(self.children_of(root).len() == idx);
                assert(idx == 2) by {
                    if idx == 1 {
                        assert(self.children_of(root) =~= seq![w]);
                        let k = self.children_of(root).index_of(id);
                        assert(self.children_of(root)[k] == id);
                    }
                }
            }
            if backwards {
                let ghost before = *self;
                let ghost kids = self.children_of(root);
                let child = self.arena.children[root.0 as usize].remove(0);
                self.arena.children[root.0 as usize].insert(1, child);
                proof {
                    let a1 = self.arena;
                    assert forall|q: NodeId|
                        #![trigger a1.children_of(q)]
                        q != root && q.0 < before.arena.children@.len() implies a1.children_of(q)
                            == before.arena.children_of(q) by {}
                    assert(a1.children_of(root) =~= reorder(kids, 0, 1));
                    Arena::lemma_reorder_arena(before.arena, a1, root, 0, 1);
                    lemma_modes_same_nodes(before.arena, a1, self.modes@, self.previous_layouts@);
                    lemma_focus_same_nodes(before.arena, a1, self.focus, self.focus_history@);
                    assert forall|y: NodeId| #![trigger self.kind_of(y)] self.kind_of(y) == before.kind_of(y) by {}
                    assert forall|y: NodeId| #![trigger self.mode_of(y)] self.mode_of(y) == before.mode_of(y) by {}
                    assert forall|y: NodeId| #[trigger] self.is_live(y) == before.is_live(y) by {}
                    assert forall|r: NodeId|
                        #![trigger self.children_of(r)]
                        t0.is_live(r) && r != root implies self.children_of(r) == before.children_of(r) by {
                        assert(before.is_live(r));
                    }
                    TilingTree::lemma_keeps_windows_same_nodes(before, *self);
                    TilingTree::lemma_keeps_windows_trans(t0, before, *self);
                }
            }
            let ghost before = *self;
            self.relayout(root, axis);
            proof {
                TilingTree::lemma_keeps_windows_relayout(before, *self, root);
                TilingTree::lemma_keeps_windows_trans(t0, before, *self);
                lemma_wf_except_any(*self, root);
                assert(self.has_leaf()) by {
                    let y = t0.lemma_leaf_witness();
                    assert(self.is_leaf_node(y));
                    self.lemma_leaf_has_leaf(y);
                }
            }
            let ghost t1 = *self;
            proof {
                let m = t1.children_of(w).len() as int;
                assert(m + 1 == k0.len());
                assert(t1.children_of(w) =~= k0.remove(pos));
                assert(t1.children_of(root) =~= if backwards { seq![id, w] } else { seq![w, id] });
                assert(t1.structure_ok());
                assert(t1.root_id() == root);
                assert(t1.is_live(w));
                assert forall|y: NodeId| #[trigger] t1.is_live(y) == (t0.is_live(y) || y == w) by {
                    assert(tl.is_live(y) == (t0.is_live(y) || y == w));
                }
                assert(t1.kind_of(root) == NodeKind::Split(axis_layout(dir)));
                assert(t1.kind_of(w) == t0.kind_of(root));
                assert(forall|y: NodeId| #![trigger t1.kind_of(y)] t0.is_live(y) && y != root ==> t1.kind_of(y) == t0.kind_of(y));
                assert(t1.children_of(w) == k0.remove(k0.index_of(id)));
                assert forall|r: NodeId|
                    #![trigger t1.children_of(r)]
                    t0.is_live(r) && r != root && r != old_parent implies t1.children_of(r) == t0.children_of(r) by {
                    assert(tl.children_of(r) == t0.children_of(r));
                }
                assert(t0.wrapped_tree(t1, id, dir, w));
            }
            self.settle_after_move(id, root);
            proof {
                TilingTree::lemma_keeps_windows_trans(t0, t1, *self);
                assert(t0.wrapped_tree(t1, id, dir, w) && t1.leaf_order() == self.leaf_order());
            }
        } else {
            proof {
                assert(self.children_of(root).len() == idx);
                assert(idx == 1) by {
                    if idx == 2 {
                        assert(self.parent_of(self.children_of(root)[1]) == Some(root)) by {
                            self.lemma_child_desc(root, 1);
                        }
                    }
                }
            }
            let ghost before = *self;
            self.relayout(root, axis);
            proof {
                TilingTree::lemma_keeps_windows_relayout(before, *self, root);
                TilingTree::lemma_keeps_windows_trans(t0, before, *self);
                lemma_wf_except_any(*self, root);
                reveal_with_fuel(Arena::is_desc, 2);
                assert(!self.is_desc(root, id));
            }
            let j: usize = if backwards { 0 } else { 1 };
            let ghost t1 = *self;
            self.relocate(id, root, j);
            proof {
                TilingTree::lemma_keeps_windows_same_nodes(t1, *self);
                TilingTree::lemma_keeps_windows_trans(t0, t1, *self);
                assert(self.has_leaf()) by {
                    let y = t0.lemma_leaf_witness();
                    assert(self.is_leaf_node(y));
                    self.lemma_leaf_has_leaf(y);
                }
            }
            let ghost t2 = *self;
            proof {
                let m = t2.children_of(w).len() as int;
                assert(t2.children_of(w) =~= k0);
                assert(t2.children_of(root) =~= if backwards { seq![id, w] } else { seq![w, id] });
                assert(t2.structure_ok());
                assert(t0.wrapped_tree(t2, id, dir, w));
            }
            self.settle_after_move(id, old_parent);
            proof {
                TilingTree::lemma_keeps_windows_trans(t0, t2, *self);
                assert(t0.wrapped_tree(t2, id, dir, w) && t2.leaf_order() == self.leaf_order());
            }
        }
    }

    pub(crate) proof fn lemma_keeps_windows_alloc(a: Self, b: Self, w: NodeId)
        requires
            forall|x: NodeId| #[trigger] b.is_live(x) <==> (a.is_live(x) || x == w),
            !a.is_live(w),
            b.kind_of(w) is Split,
            forall|x: NodeId| #![trigger b.kind_of(x)] a.is_live(x) ==> b.kind_of(x) == a.kind_of(x),
            forall|x: NodeId| #![trigger b.mode_of(x)] a.is_live(x) ==> b.mode_of(x) == a.mode_of(x),
        ensures
            a.keeps_windows(b),
    {
        assert forall|y: NodeId| #[trigger] b.is_leaf_node(y) == a.is_leaf_node(y) by {
            assert(b.is_live(y) <==> (a.is_live(y) || y == w));
            if a.is_live(y) {
                assert(b.kind_of(y) == a.kind_of(y));
            } else if y == w {
                assert(!b.is_leaf_node(w));
            } else {
                assert(!b.is_live(y));
            }
        }
        assert forall|y: NodeId|
            #![trigger b.kind_of(y)]
            a.is_leaf_node(y) implies b.kind_of(y) == a.kind_of(y) && b.mode_of(y) == a.mode_of(y) by {}
    }

    pub(crate) proof fn lemma_keeps_windows_relayout(a: Self, b: Self, p: NodeId)
        requires
            a.is_split_node(p),
            forall|x: NodeId| #[trigger] b.is_live(x) == a.is_live(x),
            forall|x: NodeId| #[trigger] b.is_leaf_node(x) == a.is_leaf_node(x),
            forall|x: NodeId| #![trigger b.kind_of(x)] a.is_live(x) && x != p ==> b.kind_of(x) == a.kind_of(x),
            forall|x: NodeId| #![trigger b.mode_of(x)] b.mode_of(x) == a.mode_of(x),
        ensures
            a.keeps_windows(b),
    {
        assert forall|y: NodeId|
            #![trigger b.kind_of(y)]
            a.is_leaf_node(y) implies b.kind_of(y) == a.kind_of(y) && b.mode_of(y) == a.mode_of(y) by {
            assert(y != p);
        }
    }
}

impl TilingTree {
    /// Moves `id` in direction `dir` (see `direction_walk`): past a leaf
    /// neighbour, into a neighbouring container, to the edge of the root, or
    /// beside the whole tree, which is wrapped in a new split along the axis.
    /// The splits left empty are removed and the tree is compacted; the moved
    /// node's first leaf takes the focus. Nodes inside the fullscreen node do
    /// not move. With fewer than two windows, or when `id` is the root's only
    /// child, the root only turns to the direction's axis. Returns whether the
    /// tree changed.
    pub fn move_direction(&mut self, id: NodeId, dir: Direction) -> (r: bool)
        requires
            old(self).wf(),
            old(self).slot_count() < usize::MAX,
        ensures
            old(self).keeps_titles(*final(self)),
            final(self).wf(),
            r == old(self).move_succeeds(id, dir),
            old(self).keeps_windows(*final(self)),
            old(self).move_only_turns_root(id) ==> {
                &&& final(self).kind_of(old(self).root_id()) == NodeKind::Split(axis_layout(dir))
                &&& forall|x: NodeId| #[trigger] final(self).is_live(x) == old(self).is_live(x)
                &&& forall|x: NodeId|
                    #![trigger final(self).children_of(x)]
                    final(self).children_of(x) == old(self).children_of(x)
                &&& final(self).focus_id() == old(self).focus_id()
                &&& final(self).history() == old(self).history()
            },
            !r && !old(self).move_only_turns_root(id) ==> *final(self) == *old(self),
            r ==> final(self).compacted(),
            r ==> final(self).focus_id() is Some,
            r && final(self).first_leaf_spec(id) is Some ==> final(self).is_leaf_node(final(self).focus_id()->0),
            r ==> old(self).move_landing(final(self).leaf_order(), id, dir),
            r ==> old(self).move_result(*final(self), id, dir),
    {
        let ghost t0 = *self;
        if !self.is_live_exec(id) || id == self.arena.root {
            return false;
        }
        if let Some(fs) = self.fullscreen_node() {
            if self.contains_node(fs, id) {
                return false;
            }
        }
        let root = self.arena.root;
        let axis = match dir {
            Direction::Left | Direction::Right => Layout::SplitH,
            Direction::Up | Direction::Down => Layout::SplitV,
        };
        let leaves = self.leaf_ids_in(root);
        if leaves.len() < 2 || (self.arena.children[root.0 as usize].len() == 1 && self.root_branch(id) == Some(id)) {
            proof {
                assert(self.is_split_node(root));
            }
            self.relayout(root, axis);
            proof {
                TilingTree::lemma_keeps_windows_relayout(t0, *self, root);
            }
            return false;
        }
        proof {
            assert(self.leaves_in(root).len() >= 2);
            self.lemma_leaves_in(root);
            assert(self.leaves_in(root).contains(self.leaves_in(root)[0]));
            self.lemma_leaf_has_leaf(self.leaves_in(root)[0]);
        }
        let plan = self.move_plan(id, dir);
        let backwards = matches!(dir, Direction::Left | Direction::Up);
        match plan {
            MovePlan::Stop => {
                return false;
            },
            MovePlan::StepTo(k) => {
                self.move_subtree_to_index(id, k);
                let ghost t1 = *self;
                proof {
                    TilingTree::lemma_keeps_windows_same_nodes(t0, t1);
                    let p = t0.parent_of(id)->0;
                    let kids = t0.children_of(p);
                    let from = kids.index_of(id);
                    assert(kids.contains(id)) by {
                        assert(t0.parent_of(id) is Some);
                    }
                    assert(kids[from] == id);
                    assert(t1.children_of(p) == reorder(kids, from, k as int));
                    assert(t1.structure_ok());
                    TilingTree::lemma_moved_witness(t0, t1, id, p, k as int);
                }
                self.compact_tree();
                proof {
                    assert(t1.tidied(*self));
                    TilingTree::lemma_keeps_windows_compact(t1, *self);
                    TilingTree::lemma_keeps_windows_trans(t0, t1, *self);
                    let f = t1.focus_id()->0;
                    assert(t1.first_leaf_spec(id) is Some) by {
                        t1.lemma_leaf_below(id);
                    }
                    t1.lemma_leaves_in(id);
                    assert(t1.leaves_in(id).contains(f));
                    assert(t1.is_leaf_node(f));
                    assert(self.is_leaf_node(f));
                }
            },
            MovePlan::Into(d) => {
                self.into_destination(id, d, dir, false);
                proof {
                    TilingTree::lemma_keeps_windows_has_leaf(t0, *self);
                    self.lemma_focus_leaf_after_move(id);
                }
            },
            MovePlan::Edge => {
                self.to_root_edge(id, backwards);
                proof {
                    TilingTree::lemma_keeps_windows_has_leaf(t0, *self);
                    self.lemma_focus_leaf_after_move(id);
                }
            },
            MovePlan::Wrap => {
                proof {
                    assert(self.children_of(root) != seq![id]) by {
                        if self.children_of(root) =~= seq![id] {
                            assert(self.parent_of(id) == Some(root)) by {
                                self.lemma_child_desc(root, 0);
                            }
                            reveal_with_fuel(TilingTree::root_branch_spec, 2);
                        }
                    }
                }
                self.wrap_root(id, dir);
                proof {
                    TilingTree::lemma_keeps_windows_has_leaf(t0, *self);
                    self.lemma_focus_leaf_after_move(id);
                }
            },
        }
        true
    }

    /// After a move the focus is on a leaf: the moved node's first leaf, or
    /// one it had before.
    proof fn lemma_focus_leaf_after_move(self, id: NodeId)
        requires
            self.wf(),
            self.has_leaf(),
            self.first_leaf_spec(id) is Some ==> self.focus_id() == self.first_leaf_spec(id),
        ensures
            self.focus_id() is Some,
            self.first_leaf_spec(id) is Some ==> self.is_leaf_node(self.focus_id()->0),
    {
        self.lemma_leaves_in(id);
        if self.first_leaf_spec(id) is Some {
            assert(self.leaves_in(id).contains(self.leaves_in(id)[0]));
        }
    }

    pub(crate) proof fn lemma_keeps_windows_has_leaf(a: Self, b: Self)
        requires
            a.keeps_windows(b),
            a.has_leaf(),
        ensures
            b.has_leaf(),
    {
        let y = a.lemma_leaf_witness();
        assert(b.is_leaf_node(y));
        b.lemma_leaf_has_leaf(y);
    }

    pub(crate) proof fn lemma_keeps_windows_compact(a: Self, b: Self)
        requires
            forall|x: NodeId| #[trigger] b.is_live(x) ==> a.is_live(x) && b.kind_of(x) == a.kind_of(x),
            forall|x: NodeId| #[trigger] a.is_leaf_node(x) ==> b.is_leaf_node(x) && b.mode_of(x) == a.mode_of(x),
        ensures
            a.keeps_windows(b),
    {
        assert forall|y: NodeId| #[trigger] b.is_leaf_node(y) == a.is_leaf_node(y) by {
            if b.is_leaf_node(y) {
                assert(b.is_live(y));
            }
        }
        assert forall|y: NodeId|
            #![trigger b.kind_of(y)]
            a.is_leaf_node(y) implies b.kind_of(y) == a.kind_of(y) && b.mode_of(y) == a.mode_of(y) by {
            assert(b.is_leaf_node(y));
            assert(b.is_live(y));
        }
    }
}

impl TilingTree {
    /// Moves the focused node in direction `dir` (see `move_direction`).
    pub fn move_focused_direction(&mut self, dir: Direction) -> (r: bool)
        requires
            old(self).wf(),
            old(self).slot_count() < usize::MAX,
        ensures
            old(self).keeps_titles(*final(self)),
            final(self).wf(),
            r == (old(self).focus_id() matches Some(f) && old(self).move_succeeds(f, dir)),
            old(self).keeps_windows(*final(self)),
            old(self).focus_id() is None ==> *final(self) == *old(self),
            old(self).focus_id() matches Some(f) ==> old(self).focused_move_outcome(*final(self), f, dir, r),
    {
        match self.focus {
            Some(id) => self.move_direction(id, dir),
            None => false,
        }
    }

    pub fn move_left(&mut self) -> (r: bool)
        requires
            old(self).wf(),
            old(self).slot_count() < usize::MAX,
        ensures
            old(self).keeps_titles(*final(self)),
            final(self).wf(),
            r == (old(self).focus_id() matches Some(f) && old(self).move_succeeds(f, Direction::Left)),
            old(self).keeps_windows(*final(self)),
            old(self).focus_id() is None ==> *final(self) == *old(self),
            old(self).focus_id() matches Some(f) ==> old(self).focused_move_outcome(*final(self), f, Direction::Left, r),
    {
        self.move_focused_direction(Direction::Left)
    }

    pub fn move_right(&mut self) -> (r: bool)
        requires
            old(self).wf(),
            old(self).slot_count() < usize::MAX,
        ensures
            old(self).keeps_titles(*final(self)),
            final(self).wf(),
            r == (old(self).focus_id() matches Some(f) && old(self).move_succeeds(f, Direction::Right)),
            old(self).keeps_windows(*final(self)),
            old(self).focus_id() is None ==> *final(self) == *old(self),
            old(self).focus_id() matches Some(f) ==> old(self).focused_move_outcome(*final(self), f, Direction::Right, r),
    {
        self.move_focused_direction(Direction::Right)
    }

    pub fn move_up(&mut self) -> (r: bool)
        requires
            old(self).wf(),
            old(self).slot_count() < usize::MAX,
        ensures
            old(self).keeps_titles(*final(self)),
            final(self).wf(),
            r == (old(self).focus_id() matches Some(f) && old(self).move_succeeds(f, Direction::Up)),
            old(self).keeps_windows(*final(self)),
            old(self).focus_id() is None ==> *final(self) == *old(self),
            old(self).focus_id() matches Some(f) ==> old(self).focused_move_outcome(*final(self), f, Direction::Up, r),
    {
        self.move_focused_direction(Direction::Up)
    }

    pub fn move_down(&mut self) -> (r: bool)
        requires
            old(self).wf(),
            old(self).slot_count() < usize::MAX,
        ensures
            old(self).keeps_titles(*final(self)),
            final(self).wf(),
            r == (old(self).focus_id() matches Some(f) && old(self).move_succeeds(f, Direction::Down)),
            old(self).keeps_windows(*final(self)),
            old(self).focus_id() is None ==> *final(self) == *old(self),
            old(self).focus_id() matches Some(f) ==> old(self).focused_move_outcome(*final(self), f, Direction::Down, r),
    {
        self.move_focused_direction(Direction::Down)
    }

    /// Moves the focused node right (or left).
    pub fn swap_window_horizontal(&mut self, right: bool)
        requires
            old(self).wf(),
            old(self).slot_count() < usize::MAX,
        ensures
            old(self).keeps_titles(*final(self)),
            final(self).wf(),
            old(self).keeps_windows(*final(self)),
            old(self).focus_id() is None ==> *final(self) == *old(self),
            old(self).focus_id() matches Some(f) ==> old(self).focused_move_outcome(
                *final(self),
                f,
                if right {
                    Direction::Right
                } else {
                    Direction::Left
                },
                old(self).move_succeeds(
                    f,
                    if right {
                        Direction::Right
                    } else {
                        Direction::Left
                    },
                ),
            ),
    {
        if right {
            self.move_right();
        } else {
            self.move_left();
        }
    }

    /// Moves node `id` in direction `dir` (see `move_direction`), then gives
    /// the focus history back in window order, and puts the focus back where
    /// it was when it was outside the moved subtree and is still there.
    pub fn move_node_direction(&mut self, id: NodeId, dir: Direction) -> (r: bool)
        requires
            old(self).wf(),
            old(self).slot_count() < usize::MAX,
        ensures
            old(self).keeps_titles(*final(self)),
            final(self).wf(),
            r == old(self).move_succeeds(id, dir),
            old(self).keeps_windows(*final(self)),
            r ==> final(self).history() == final(self).history_of_windows(old(self).window_history(old(self).history())),
            old(self).focus_id() matches Some(f) && !old(self).is_desc(f, id) && final(self).is_live(f)
                ==> final(self).focus_id() == old(self).focus_id(),
            r ==> old(self).move_landing(final(self).leaf_order(), id, dir),
            r ==> old(self).move_result(*final(self), id, dir),
    {
        let ghost t0 = *self;
        let focus = self.focus;
        let history = self.window_focus_history();
        let moved_focus = match focus {
            Some(f) => self.contains_node(id, f),
            None => false,
        };
        let changed = self.move_direction(id, dir);
        let ghost t1 = *self;
        if changed {
            self.restore_window_focus_history(&history);
        }
        let ghost t2 = *self;
        proof {
            assert(t0.keeps_windows(t2)) by {
                TilingTree::lemma_keeps_windows_trans(t0, t1, t2);
            }
        }
        if !moved_focus {
            if let Some(f) = focus {
                if self.is_live_exec(f) {
                    self.focus = Some(f);
                    proof {
                        TilingTree::lemma_keeps_windows_has_leaf(t0, t2);
                        assert(self.arena.has_leaf() == t2.arena.has_leaf());
                        assert(focus_ok(self.arena, self.focus, self.focus_history@));
                    }
                }
            }
        }
        proof {
            TilingTree::lemma_keeps_windows_trans(t0, t2, *self);
            assert(self.arena == t1.arena);
            self.lemma_leaf_order();
            t1.lemma_leaf_order();
            if changed {
                self.lemma_history_of_windows_same_nodes(t2, history@);
                t2.lemma_history_of_windows_same_nodes(t1, history@);
                assert(self.history() == t2.history());
                TilingTree::lemma_move_result_same_nodes(t0, t1, *self, id, dir);
            }
        }
        changed
    }

    /// Moves the node holding `window` in direction `dir` (see `move_node_direction`).
    pub fn move_window_direction(&mut self, window: u64, dir: Direction) -> (r: bool)
        requires
            old(self).wf(),
            old(self).slot_count() < usize::MAX,
        ensures
            old(self).keeps_titles(*final(self)),
            final(self).wf(),
            r == (old(self).node_for_window_spec(window) matches Some(l) && old(self).move_succeeds(l, dir)),
            old(self).keeps_windows(*final(self)),
            old(self).node_for_window_spec(window) is None ==> *final(self) == *old(self),
            old(self).node_for_window_spec(window) matches Some(l) ==> (r ==> old(self).move_landing(
                final(self).leaf_order(),
                l,
                dir,
            )),
            old(self).node_for_window_spec(window) matches Some(l) ==> (r ==> old(self).move_result(
                *final(self),
                l,
                dir,
            )),
    {
        let Some(id) = self.node_for_window(window) else {
            proof {
                TilingTree::lemma_keeps_windows_same_nodes(*self, *self);
            }
            return false;
        };
        self.move_node_direction(id, dir)
    }
}

} // verus!
