//! Pending fullscreen and maximized state of nodes.
use vstd::prelude::*;
use super::{FullscreenMode, NodeId, NodeKind, PendingMode, TilingTree, modes_ok};

verus! {

impl TilingTree {
    /// The first live node, by id, at or after slot `k` with a pending fullscreen.
    pub closed spec fn fullscreen_from(self, k: int) -> Option<NodeId>
        decreases self.slot_count() - k,
    {
        if k < 0 || k >= self.slot_count() {
            None
        } else if self.is_live(NodeId(k as u64)) && self.mode_of(NodeId(k as u64)).fullscreen is Some {
            Some(NodeId(k as u64))
        } else {
            self.fullscreen_from(k + 1)
        }
    }

    /// The fullscreen node depends on the nodes and their modes alone.
    pub(crate) proof fn lemma_fullscreen_same_nodes(a: Self, b: Self, k: int)
        requires
            a.arena == b.arena,
            a.modes == b.modes,
        ensures
            a.fullscreen_from(k) == b.fullscreen_from(k),
        decreases a.slot_count() - k,
    {
        if 0 <= k < a.slot_count() {
            TilingTree::lemma_fullscreen_same_nodes(a, b, k + 1);
        }
    }

    /// The fullscreen node: the live node with the lowest id whose pending mode is fullscreen.
    pub open spec fn fullscreen_spec(self) -> Option<NodeId> {
        self.fullscreen_from(0)
    }

    pub(crate) proof fn lemma_fullscreen_from(self, k: int)
        requires
            self.structure_ok(),
            self.wf_modes(),
            0 <= k,
        ensures
            self.fullscreen_from(k) matches Some(f) ==> self.is_live(f) && self.mode_of(f).fullscreen is Some,
            self.fullscreen_from(k) is None ==> forall|id: NodeId|
                #![trigger self.mode_of(id)]
                self.is_live(id) && k <= id.0 ==> self.mode_of(id).fullscreen is None,
        decreases self.slot_count() - k,
    {
        if k < self.slot_count() {
            self.lemma_fullscreen_from(k + 1);
            if self.fullscreen_from(k) is None {
                assert forall|id: NodeId|
                    #![trigger self.mode_of(id)]
                    self.is_live(id) && k <= id.0 implies self.mode_of(id).fullscreen is None by {
                    if id.0 == k {
                        assert(id == NodeId(k as u64));
                    }
                }
            }
        } else {
            assert forall|id: NodeId|
                #![trigger self.mode_of(id)]
                self.is_live(id) && k <= id.0 implies self.mode_of(id).fullscreen is None by {
                assert(self.arena.is_live(id));
            }
        }
    }

    pub(crate) proof fn lemma_fullscreen(self)
        requires
            self.structure_ok(),
            self.wf_modes(),
        ensures
            self.fullscreen_spec() matches Some(f) ==> self.is_live(f) && self.mode_of(f).fullscreen is Some,
            self.fullscreen_spec() is None <==> forall|id: NodeId|
                #![trigger self.mode_of(id)]
                self.is_live(id) ==> self.mode_of(id).fullscreen is None,
    {
        self.lemma_fullscreen_from(0);
    }

    /// The node whose pending mode is fullscreen; with several, the one with the lowest id.
    pub fn fullscreen_node(&self) -> (r: Option<NodeId>)
        requires
            self.structure_ok(),
            self.wf_modes(),
        ensures
            r == self.fullscreen_spec(),
    {
        let n = self.arena.live.len();
        for k in 0..n
            invariant
                self.structure_ok(),
                self.wf_modes(),
                n == self.slot_count(),
                self.fullscreen_spec() == self.fullscreen_from(k as int),
        {
            if self.arena.live[k] && self.modes[k].fullscreen.is_some() {
                assert(self.is_live(NodeId(k as u64)));
                return Some(NodeId(k as u64));
            }
            assert(!(self.is_live(NodeId(k as u64)) && self.mode_of(NodeId(k as u64)).fullscreen is Some));
        }
        None
    }

    /// The pending fullscreen mode of `id`.
    pub fn fullscreen_mode(&self, id: NodeId) -> (r: Option<FullscreenMode>)
        requires
            self.wf(),
        ensures
            r == (if self.is_live(id) {
                self.mode_of(id).fullscreen
            } else {
                None
            }),
    {
        if self.is_live_exec(id) {
            self.modes[id.0 as usize].fullscreen
        } else {
            None
        }
    }

    /// Changing the pending mode of a live node keeps the tree well formed, as
    /// long as a split is not maximized.
    pub(crate) proof fn lemma_mode_update_wf(old_t: Self, new_t: Self, id: NodeId, m: PendingMode)
        requires
            old_t.wf(),
            new_t.arena == old_t.arena,
            new_t.previous_layouts == old_t.previous_layouts,
            new_t.focus == old_t.focus,
            new_t.focus_history == old_t.focus_history,
            old_t.is_live(id),
            old_t.is_split_node(id) ==> !m.maximized,
            new_t.modes@ == old_t.modes@.update(id.0 as int, m),
        ensures
            new_t.wf(),
    {
        assert(modes_ok(new_t.arena, new_t.modes@, new_t.previous_layouts@)) by {
            assert forall|x: NodeId|
                #![trigger new_t.modes@[x.0 as int]]
                x.0 < new_t.arena.live@.len() implies {
                    &&& (!new_t.arena.is_live(x) ==> new_t.modes@[x.0 as int] == super::normal_mode()
                        && new_t.previous_layouts@[x.0 as int] is None)
                    &&& (new_t.arena.is_live(x) && new_t.arena.kind_of(x) is Split
                        ==> !new_t.modes@[x.0 as int].maximized)
                } by {
                assert(old_t.mode_of(x) == old_t.modes@[x.0 as int]);
                if x.0 != id.0 {
                    assert(new_t.modes@[x.0 as int] == old_t.modes@[x.0 as int]);
                }
            }
        }
    }

    /// Replaces the fullscreen state: `Some(mode)` makes `id` the fullscreen node
    /// (clearing the previous one) and focuses its most recently focused leaf;
    /// `None` clears the fullscreen of `id` if it is the fullscreen node.
    /// Returns whether anything changed.
    pub fn set_node_fullscreen(&mut self, id: NodeId, fullscreen: Option<FullscreenMode>) -> (r: bool)
        requires
            old(self).wf(),
        ensures
            old(self).keeps_titles(*final(self)),
            final(self).wf(),
            final(self).same_nodes(*old(self)),
            r == (old(self).is_live(id) && !(fullscreen is None && old(self).fullscreen_spec() != Some(id)
                || old(self).fullscreen_spec() == Some(id) && old(self).mode_of(id).fullscreen
                == fullscreen)),
            !r ==> *final(self) == *old(self),
            r ==> forall|x: NodeId|
                #![trigger final(self).mode_of(x)]
                final(self).is_live(x) ==> final(self).mode_of(x) == (if x == id {
                    PendingMode { fullscreen: fullscreen, ..old(self).mode_of(x) }
                } else if Some(x) == old(self).fullscreen_spec() {
                    PendingMode { fullscreen: None, ..old(self).mode_of(x) }
                } else {
                    old(self).mode_of(x)
                }),
            r && fullscreen is Some ==> final(self).focus_id() == old(self).focused_leaf_spec(id)
                && final(self).history() == (match old(self).focused_leaf_spec(id) {
                    Some(l) => old(self).history_after_focus(l),
                    None => old(self).history(),
                }),
            r && fullscreen is None ==> final(self).focus_id() == old(self).focus_id()
                && final(self).history() == old(self).history(),
    {
        if !self.is_live_exec(id) {
            return false;
        }
        let current = self.fullscreen_node();
        if fullscreen.is_none() && current != Some(id) || current == Some(id)
            && self.modes[id.0 as usize].fullscreen == fullscreen {
            return false;
        }
        proof {
            self.lemma_fullscreen();
        }
        let ghost t0 = *self;
        if let Some(cur) = current {
            let mut m = self.modes[cur.0 as usize];
            m.fullscreen = None;
            let ghost before = *self;
            self.modes.set(cur.0 as usize, m);
            proof {
                TilingTree::lemma_mode_update_wf(before, *self, cur, m);
            }
        }
        let ghost t1 = *self;
        let mut m = self.modes[id.0 as usize];
        m.fullscreen = fullscreen;
        self.modes.set(id.0 as usize, m);
        proof {
            TilingTree::lemma_mode_update_wf(t1, *self, id, m);
        }
        if fullscreen.is_some() {
            let target = self.focused_leaf_in(id);
            proof {
                self.lemma_focused_leaf(id);
                if id == self.root_id() {
                    self.lemma_root_leaves();
                    self.lemma_leaves_in(self.root_id());
                    if self.has_leaf() {
                        let l = self.leaves_in(self.root_id())[0];
                        assert(self.leaves_in(self.root_id()).contains(l));
                    }
                } else {
                    self.lemma_leaf_below(id);
                    self.lemma_leaves_in(id);
                    let l = self.leaves_in(id)[0];
                    assert(self.leaves_in(id).contains(l));
                    self.lemma_leaf_has_leaf(l);
                }
                if let Some(l) = target {
                    self.lemma_leaf_has_leaf(l);
                }
                assert(self.arena == t0.arena);
                assert(self.focus_history@ == t0.focus_history@);
                assert(self.history_leaf_from(id, 0) == t0.history_leaf_from(id, 0));
                assert(self.leaves_in(id) == t0.leaves_in(id));
                assert(self.history() == t0.history());
            }
            self.focus_node(target);
        }
        true
    }

    /// Makes the leaf holding `window` the workspace fullscreen node, or clears it.
    pub fn set_fullscreen(&mut self, window: u64, fullscreen: bool) -> (r: bool)
        requires
            old(self).wf(),
        ensures
            old(self).keeps_titles(*final(self)),
            final(self).wf(),
            final(self).same_nodes(*old(self)),
            old(self).node_for_window_spec(window) is None ==> !r && *final(self) == *old(self),
            old(self).node_for_window_spec(window) matches Some(id) ==> r == !(!fullscreen
                && old(self).fullscreen_spec() != Some(id) || old(self).fullscreen_spec() == Some(id)
                && old(self).mode_of(id).fullscreen == (if fullscreen {
                Some(FullscreenMode::Workspace)
            } else {
                None
            })),
    {
        let Some(id) = self.node_for_window(window) else {
            return false;
        };
        proof {
            self.lemma_node_for_window(window);
        }
        self.set_node_fullscreen(id, if fullscreen { Some(FullscreenMode::Workspace) } else { None })
    }

    /// Sets the pending maximized state of the leaf holding `window`; returns
    /// whether it changed.
    pub fn set_maximized(&mut self, window: u64, maximized: bool) -> (r: bool)
        requires
            old(self).wf(),
        ensures
            old(self).keeps_titles(*final(self)),
            final(self).wf(),
            final(self).same_nodes(*old(self)),
            final(self).focus_id() == old(self).focus_id(),
            final(self).history() == old(self).history(),
            match old(self).node_for_window_spec(window) {
                None => !r && *final(self) == *old(self),
                Some(id) => r == (old(self).mode_of(id).maximized != maximized) && (r ==> forall|x: NodeId|
                    #![trigger final(self).mode_of(x)]
                    final(self).is_live(x) ==> final(self).mode_of(x) == (if x == id {
                        PendingMode { maximized: maximized, ..old(self).mode_of(x) }
                    } else {
                        old(self).mode_of(x)
                    })) && (!r ==> *final(self) == *old(self)),
            },
    {
        let Some(id) = self.node_for_window(window) else {
            return false;
        };
        proof {
            self.lemma_node_for_window(window);
        }
        let mut m = self.modes[id.0 as usize];
        if m.maximized == maximized {
            return false;
        }
        m.maximized = maximized;
        let ghost before = *self;
        self.modes.set(id.0 as usize, m);
        proof {
            TilingTree::lemma_mode_update_wf(before, *self, id, m);
        }
        true
    }

    /// Whether the leaf holding `window` has a pending fullscreen.
    pub fn is_pending_fullscreen(&self, window: u64) -> (r: bool)
        requires
            self.wf(),
        ensures
            r == (self.node_for_window_spec(window) matches Some(id) && self.mode_of(id).fullscreen is Some),
    {
        match self.node_for_window(window) {
            Some(id) => {
                proof {
                    self.lemma_node_for_window(window);
                }
                self.modes[id.0 as usize].fullscreen.is_some()
            },
            None => false,
        }
    }

    /// Whether the leaf holding `window` has a pending maximize.
    pub fn is_pending_maximized(&self, window: u64) -> (r: bool)
        requires
            self.wf(),
        ensures
            r == (self.node_for_window_spec(window) matches Some(id) && self.mode_of(id).maximized),
    {
        match self.node_for_window(window) {
            Some(id) => {
                proof {
                    self.lemma_node_for_window(window);
                }
                self.modes[id.0 as usize].maximized
            },
            None => false,
        }
    }

    /// Whether the focused node lies inside the fullscreen node.
    pub fn is_active_pending_fullscreen(&self) -> (r: bool)
        requires
            self.wf(),
        ensures
            r == (self.focus_id() matches Some(f) && self.fullscreen_spec() matches Some(fs)
                && self.is_desc(f, fs)),
    {
        match (self.focus, self.fullscreen_node()) {
            (Some(focus), Some(fullscreen)) => self.contains_node(fullscreen, focus),
            _ => false,
        }
    }

    /// Whether the leaf holding `window` lies inside the fullscreen node.
    pub fn fullscreen_contains_window(&self, window: u64) -> (r: bool)
        requires
            self.wf(),
        ensures
            r == (self.fullscreen_spec() matches Some(fs) && self.node_for_window_spec(window) matches Some(
                id,
            ) && self.is_desc(id, fs)),
    {
        match (self.fullscreen_node(), self.node_for_window(window)) {
            (Some(fullscreen), Some(node)) => self.contains_node(fullscreen, node),
            _ => false,
        }
    }

    /// The window shown fullscreen: the most recently focused leaf below the fullscreen node.
    pub fn fullscreen_window(&self) -> (r: Option<u64>)
        requires
            self.wf(),
        ensures
            r == (match self.fullscreen_spec() {
                Some(fs) => match self.focused_leaf_spec(fs) {
                    Some(l) => Some(self.window_of(l)),
                    None => None,
                },
                None => None,
            }),
    {
        let fullscreen = self.fullscreen_node()?;
        let leaf = self.focused_leaf_in(fullscreen)?;
        proof {
            self.lemma_focused_leaf(fullscreen);
        }
        match self.arena.kinds[leaf.0 as usize] {
            NodeKind::Leaf(w) => Some(w),
            NodeKind::Split(_) => None,
        }
    }
}

} // verus!
