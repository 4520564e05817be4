//! What the decorations of the tree refer to: which edges of a window border
//! a sibling, and which window a tab title stands for.
use vstd::prelude::*;
use super::{Direction, Layout, NodeId, NodeKind, TilingTree, TitlebarState, is_backwards};

verus! {

impl TilingTree {
    /// Walking up from `x`: some ancestor split with exactly layout `wanted`
    /// has a sibling of the branch on the `before` (or after) side.
    pub open spec fn has_sibling_toward(self, x: NodeId, wanted: Layout, before: bool) -> bool
        decreases self.depth_of(x),
    {
        if !(self.is_live(x) && self.parent_of(x) is Some && self.depth_of(self.parent_of(x)->0) < self.depth_of(
            x,
        )) {
            false
        } else {
            let p = self.parent_of(x)->0;
            let kids = self.children_of(p);
            let idx = kids.index_of(x);
            if self.kind_of(p) == NodeKind::Split(wanted) && (if before {
                idx > 0
            } else {
                idx + 1 < kids.len()
            }) {
                true
            } else {
                self.has_sibling_toward(p, wanted, before)
            }
        }
    }

    /// Whether side `edge` of the window borders a sibling rather than the
    /// workspace: some ancestor split with exactly the plain split layout of
    /// that side's axis has a sibling on that side. No side (a corner) is
    /// never internal.
    pub fn is_internal_edge(&self, window: u64, edge: Option<Direction>) -> (r: bool)
        requires
            self.wf(),
        ensures
            r == match (edge, self.node_for_window_spec(window)) {
                (Some(d), Some(l)) => self.has_sibling_toward(
                    l,
                    if d == Direction::Left || d == Direction::Right {
                        Layout::SplitH
                    } else {
                        Layout::SplitV
                    },
                    is_backwards(d),
                ),
                _ => false,
            },
    {
        let Some(dir) = edge else {
            return false;
        };
        let (wanted, before) = match dir {
            Direction::Left => (Layout::SplitH, true),
            Direction::Right => (Layout::SplitH, false),
            Direction::Up => (Layout::SplitV, true),
            Direction::Down => (Layout::SplitV, false),
        };
        let Some(start) = self.node_for_window(window) else {
            return false;
        };
        let mut id = start;
        loop
            invariant
                self.wf(),
                edge == Some(dir),
                wanted == (if dir == Direction::Left || dir == Direction::Right {
                    Layout::SplitH
                } else {
                    Layout::SplitV
                }),
                before == is_backwards(dir),
                self.node_for_window_spec(window) == Some(start),
                self.has_sibling_toward(start, wanted, before) == self.has_sibling_toward(id, wanted, before),
            decreases self.depth_of(id),
        {
            if !self.is_live_exec(id) {
                return false;
            }
            let Some(parent) = self.arena.parents[id.0 as usize] else {
                return false;
            };
            assert(self.parent_of(id) is Some);
            assert(id != self.root_id());
            let n = self.arena.children[parent.0 as usize].len();
            let index = self.index_of_child(parent, id);
            if self.arena.kinds[parent.0 as usize] == NodeKind::Split(wanted) {
                if (before && index > 0) || (!before && index + 1 < n) {
                    return true;
                }
            }
            id = parent;
        }
    }

    /// Walking up from `x`: the nearest tabbed or stacked ancestor whose child
    /// on the way has `leaf` as its first leaf (that child's tab shows `leaf`).
    pub open spec fn tab_anchor(self, x: NodeId, leaf: NodeId) -> Option<NodeId>
        decreases self.depth_of(x),
    {
        if !(self.is_live(x) && self.parent_of(x) is Some && self.depth_of(self.parent_of(x)->0) < self.depth_of(
            x,
        )) {
            None
        } else {
            let p = self.parent_of(x)->0;
            if (self.layout_of(p) == Layout::Tabbed || self.layout_of(p) == Layout::Stacked)
                && self.first_leaf_spec(x) == Some(leaf) {
                Some(p)
            } else {
                self.tab_anchor(p, leaf)
            }
        }
    }

    /// The window that clicking the tab standing for `window` focuses: the
    /// most recently focused window in the innermost tabbed or stacked split
    /// whose tab shows `window`.
    pub fn tab_indicator_focus_target(&self, window: u64) -> (r: Option<u64>)
        requires
            self.wf(),
        ensures
            r == match self.node_for_window_spec(window) {
                Some(l) => match self.tab_anchor(l, l) {
                    Some(p) => match self.focused_leaf_spec(p) {
                        Some(f) => Some(self.window_of(f)),
                        None => None,
                    },
                    None => None,
                },
                None => None,
            },
    {
        let Some(leaf) = self.node_for_window(window) else {
            return None;
        };
        let mut id = leaf;
        let mut anchor: Option<NodeId> = None;
        loop
            invariant_except_break
                anchor is None,
            invariant
                self.wf(),
                self.tab_anchor(leaf, leaf) == self.tab_anchor(id, leaf),
            ensures
                anchor == self.tab_anchor(leaf, leaf),
            decreases self.depth_of(id),
        {
            if !self.is_live_exec(id) {
                break;
            }
            let Some(parent) = self.arena.parents[id.0 as usize] else {
                break;
            };
            assert(self.parent_of(id) is Some);
            assert(id != self.root_id());
            let stacked = match self.arena.kinds[parent.0 as usize] {
                NodeKind::Split(Layout::Tabbed) | NodeKind::Split(Layout::Stacked) => true,
                _ => false,
            };
            if stacked && self.first_leaf_in(id) == Some(leaf) {
                anchor = Some(parent);
                break;
            }
            id = parent;
        }
        let parent = anchor?;
        let focused = self.focused_leaf_in(parent)?;
        proof {
            self.lemma_focused_leaf(parent);
        }
        match self.arena.kinds[focused.0 as usize] {
            NodeKind::Leaf(w) => Some(w),
            NodeKind::Split(_) => None,
        }
    }

    /// `c` is a child of the tabbed or stacked split `p`, its title stands for
    /// the window of leaf `id` (its first leaf), and `focus` lies below it.
    pub open spec fn tab_title_holds_focus(self, p: NodeId, c: NodeId, id: NodeId, focus: NodeId) -> bool {
        &&& self.is_live(p)
        &&& (self.kind_of(p) == NodeKind::Split(Layout::Tabbed) || self.kind_of(p) == NodeKind::Split(
            Layout::Stacked,
        ))
        &&& self.children_of(p).contains(c)
        &&& self.first_leaf_spec(c) == Some(id)
        &&& self.is_desc(focus, c)
    }

    /// The look of the title bar of node `id`: urgent when its window asks
    /// for attention (`urgent`); focused when it holds the focus (inactive
    /// when its workspace is not the focused one); marked when it titles a
    /// tab or stack entry that holds the focus; else unfocused.
    pub fn titlebar_state(&self, id: NodeId, workspace_focused: bool, urgent: bool) -> (r: TitlebarState)
        requires
            self.structure_ok(),
        ensures
            r == (if urgent {
                TitlebarState::Urgent
            } else {
                match self.focus_id() {
                    None => TitlebarState::Unfocused,
                    Some(f) => if id == f {
                        if workspace_focused {
                            TitlebarState::Focused
                        } else {
                            TitlebarState::FocusedInactive
                        }
                    } else if exists|p: NodeId, c: NodeId| #[trigger] self.tab_title_holds_focus(p, c, id, f) {
                        TitlebarState::FocusedTabTitle
                    } else {
                        TitlebarState::Unfocused
                    },
                }
            }),
    {
        if urgent {
            return TitlebarState::Urgent;
        }
        let Some(focus) = self.focus else {
            return TitlebarState::Unfocused;
        };
        if id == focus {
            return if workspace_focused {
                TitlebarState::Focused
            } else {
                TitlebarState::FocusedInactive
            };
        }
        let n = self.arena.live.len();
        for k in 0..n
            invariant
                self.structure_ok(),
                !urgent,
                id != focus,
                self.focus_id() == Some(focus),
                n == self.arena.live@.len(),
                forall|q: NodeId, c: NodeId| q.0 < k ==> !#[trigger] self.tab_title_holds_focus(q, c, id, focus),
        {
            let q = NodeId(k as u64);
            if self.is_live_exec(q) {
                let tabbed = match self.arena.kinds[k] {
                    NodeKind::Split(Layout::Tabbed) | NodeKind::Split(Layout::Stacked) => true,
                    _ => false,
                };
                assert(self.kind_of(q) == self.arena.kinds@[k as int]);
                assert(tabbed == (self.kind_of(q) == NodeKind::Split(Layout::Tabbed) || self.kind_of(q)
                    == NodeKind::Split(Layout::Stacked)));
                if tabbed {
                    let kids = &self.arena.children[k];
                    assert(kids@ == self.children_of(q));
                    for j in 0..kids.len()
                        invariant
                            self.structure_ok(),
                            !urgent,
                            id != focus,
                            self.focus_id() == Some(focus),
                            self.is_live(q),
                            self.kind_of(q) == NodeKind::Split(Layout::Tabbed) || self.kind_of(q) == NodeKind::Split(
                                Layout::Stacked,
                            ),
                            kids@ == self.children_of(q),
                            forall|m: int| 0 <= m < j ==> !#[trigger] self.tab_title_holds_focus(q, kids@[m], id, focus),
                    {
                        let c = kids[j];
                        if self.first_leaf_in(c) == Some(id) && self.contains_node(c, focus) {
                            assert(self.children_of(q).contains(c)) by {
                                assert(self.children_of(q)[j as int] == c);
                            }
                            assert(self.tab_title_holds_focus(q, c, id, focus));
                            return TitlebarState::FocusedTabTitle;
                        }
                    }
                    assert forall|c: NodeId| !#[trigger] self.tab_title_holds_focus(q, c, id, focus) by {
                        if self.children_of(q).contains(c) {
                            let m = self.children_of(q).index_of(c);
                            assert(kids@[m] == c);
                        }
                    }
                }
            }
            assert forall|r: NodeId, c: NodeId| r.0 < k + 1 implies !#[trigger] self.tab_title_holds_focus(
                r,
                c,
                id,
                focus,
            ) by {
                if r.0 == k {
                    assert(r == q);
                }
            }
        }
        assert forall|r: NodeId, c: NodeId| !#[trigger] self.tab_title_holds_focus(r, c, id, focus) by {
            if r.0 >= n {
                assert(!self.is_live(r));
            }
        }
        TitlebarState::Unfocused
    }
}

} // verus!
