//! Focus ranks: where windows stand in the focus history, and putting them back.
use vstd::prelude::*;
use super::{NodeId, NodeKind, TilingTree, focus_ok};
use super::focus::{lemma_without, without};

verus! {

/// `h` with `id` moved to position `rank` (or last).
pub open spec fn rank_insert(h: Seq<NodeId>, id: NodeId, rank: usize) -> Seq<NodeId> {
    let w = without(h, id);
    w.insert(if rank < w.len() { rank as int } else { w.len() as int }, id)
}

impl TilingTree {
    /// The focus history with `id` taken out.
    fn history_without(&self, id: NodeId) -> (r: Vec<NodeId>)
        ensures
            r@ == without(self.history(), id),
    {
        let mut kept: Vec<NodeId> = Vec::new();
        let n = self.focus_history.len();
        let ghost h = self.focus_history@;
        assert(without(h.take(0), id) =~= Seq::<NodeId>::empty());
        for i in 0..n
            invariant
                n == h.len(),
                h == self.focus_history@,
                kept@ == without(h.take(i as int), id),
        {
            assert(h.take(i + 1).drop_last() =~= h.take(i as int));
            assert(h.take(i + 1).last() == h[i as int]);
            let x = self.focus_history[i];
            if x != id {
                kept.push(x);
            }
        }
        assert(h.take(n as int) =~= h);
        kept
    }

    /// The position in the focus history of the leaf holding `window`.
    pub fn focus_rank_for_window(&self, window: u64) -> (r: Option<usize>)
        requires
            self.wf(),
        ensures
            r is Some <==> (self.node_for_window_spec(window) matches Some(l) && self.history().contains(l)),
            r matches Some(k) ==> k as int == self.history().index_of(self.node_for_window_spec(window)->0),
    {
        let node = self.node_for_window(window)?;
        let n = self.focus_history.len();
        for i in 0..n
            invariant
                self.wf(),
                n == self.history().len(),
                node == self.node_for_window_spec(window)->0,
                self.node_for_window_spec(window) is Some,
                forall|j: int| 0 <= j < i ==> self.history()[j] != node,
        {
            if self.focus_history[i] == node {
                proof {
                    let k = self.history().index_of(node);
                    assert(self.history()[i as int] == node);
                    assert(self.history().contains(node));
                    assert(self.history().no_duplicates());
                }
                return Some(i);
            }
        }
        None
    }

    /// The parent of the leaf holding `window`, when that parent is not the
    /// root and has other children.
    pub fn non_root_parent_for_window(&self, window: u64) -> (r: Option<NodeId>)
        requires
            self.wf(),
        ensures
            r == match self.node_for_window_spec(window) {
                Some(l) => match self.parent_of(l) {
                    Some(p) => if p != self.root_id() && self.children_of(p).len() > 1 {
                        Some(p)
                    } else {
                        None
                    },
                    None => None,
                },
                None => None,
            },
    {
        let node = self.node_for_window(window)?;
        proof {
            self.lemma_node_for_window(window);
        }
        let parent = self.arena.parents[node.0 as usize]?;
        if parent != self.arena.root && self.arena.children[parent.0 as usize].len() > 1 {
            Some(parent)
        } else {
            None
        }
    }

    /// The focus history after `id` is moved to position `rank` (or last).
    pub open spec fn history_with_rank(self, id: NodeId, rank: usize) -> Seq<NodeId> {
        rank_insert(self.history(), id, rank)
    }

    /// History `h` after the leaves holding the windows `ws` are moved, the
    /// last window first, to position `at`: they end up there in the order of `ws`.
    pub open spec fn history_promoting(self, h: Seq<NodeId>, ws: Seq<u64>, at: usize) -> Seq<NodeId>
        decreases ws.len(),
    {
        if ws.len() == 0 {
            h
        } else {
            let h1 = match self.node_for_window_spec(ws.last()) {
                Some(l) => rank_insert(h, l, at),
                None => h,
            };
            self.history_promoting(h1, ws.drop_last(), at)
        }
    }

    /// Moving leaves to the front of a history looks at the nodes only.
    pub(crate) proof fn lemma_promoting_same_nodes(self, other: Self, h: Seq<NodeId>, ws: Seq<u64>, at: usize)
        requires
            self.same_nodes(other),
        ensures
            self.history_promoting(h, ws, at) == other.history_promoting(h, ws, at),
        decreases ws.len(),
    {
        if ws.len() > 0 {
            self.lemma_window_leaf_same_nodes(other, self.leaves_in(self.root_id()), ws.last(), 0);
            let h1 = match self.node_for_window_spec(ws.last()) {
                Some(l) => rank_insert(h, l, at),
                None => h,
            };
            self.lemma_promoting_same_nodes(other, h1, ws.drop_last(), at);
        }
    }

    /// Moves the leaves holding the windows `ws` to position `at` of the focus
    /// history, the last window first.
    pub(crate) fn promote_windows(&mut self, ws: &Vec<u64>, at: usize)
        requires
            old(self).wf(),
        ensures
            old(self).keeps_titles(*final(self)),
            final(self).wf(),
            final(self).same_tree(*old(self)),
            final(self).focus_id() == old(self).focus_id(),
            final(self).history() == old(self).history_promoting(old(self).history(), ws@, at),
    {
        let ghost t0 = *self;
        let mut k = ws.len();
        assert(ws@.take(k as int) =~= ws@);
        while k > 0
            invariant
                old(self).keeps_titles(*self),
                self.wf(),
                self.same_tree(t0),
                self.focus_id() == t0.focus_id(),
                k <= ws@.len(),
                t0.history_promoting(t0.history(), ws@, at) == t0.history_promoting(
                    self.history(),
                    ws@.take(k as int),
                    at,
                ),
            decreases k,
        {
            let ghost before = *self;
            assert(ws@.take(k as int).drop_last() =~= ws@.take(k - 1));
            assert(ws@.take(k as int).last() == ws@[k - 1]);
            let w = ws[k - 1];
            proof {
                self.lemma_window_leaf_same_nodes(t0, self.leaves_in(self.root_id()), w, 0);
                assert(self.node_for_window_spec(w) == t0.node_for_window_spec(w));
            }
            match self.node_for_window(w) {
                Some(leaf) => {
                    proof {
                        self.lemma_node_for_window(w);
                    }
                    self.place_in_history(leaf, at);
                },
                None => {},
            }
            k = k - 1;
        }
    }

    /// Moves live node `id` to position `rank` (or last) of the focus history.
    pub(crate) fn place_in_history(&mut self, id: NodeId, rank: usize)
        requires
            old(self).wf(),
            old(self).is_live(id),
        ensures
            old(self).keeps_titles(*final(self)),
            final(self).wf(),
            final(self).same_tree(*old(self)),
            final(self).focus_id() == old(self).focus_id(),
            final(self).history() == old(self).history_with_rank(id, rank),
    {
        proof {
            lemma_without(self.history(), id);
        }
        let ghost h0 = self.history();
        let mut kept = self.history_without(id);
        let at = if rank < kept.len() { rank } else { kept.len() };
        kept.insert(at, id);
        self.focus_history = kept;
        proof {
            let w = without(h0, id);
            let nh = self.focus_history@;
            assert(!w.contains(id));
            assert forall|i: int, j: int| 0 <= i < nh.len() && 0 <= j < nh.len() && i != j implies nh[i] != nh[j] by {
                if i != at && j != at {
                    let wi = if i < at { i } else { i - 1 };
                    let wj = if j < at { j } else { j - 1 };
                    assert(nh[i] == w[wi] && nh[j] == w[wj]);
                } else if i == at {
                    let wj = if j < at { j } else { j - 1 };
                    assert(nh[j] == w[wj]);
                    assert(w.contains(w[wj]));
                } else {
                    let wi = if i < at { i } else { i - 1 };
                    assert(nh[i] == w[wi]);
                    assert(w.contains(w[wi]));
                }
            }
            assert forall|i: int| 0 <= i < nh.len() implies #[trigger] self.arena.is_live(nh[i]) by {
                if i != at {
                    let wi = if i < at { i } else { i - 1 };
                    assert(nh[i] == w[wi]);
                    assert(w.contains(w[wi]));
                    let k = h0.index_of(w[wi]);
                    assert(self.arena.is_live(h0[k]));
                }
            }
            assert(focus_ok(self.arena, self.focus, self.focus_history@));
        }
    }

    /// Puts the leaf holding `window` back at position `rank` (or last) of the
    /// focus history.
    pub fn restore_focus_rank(&mut self, window: u64, rank: usize)
        requires
            old(self).wf(),
        ensures
            old(self).keeps_titles(*final(self)),
            final(self).wf(),
            final(self).same_tree(*old(self)),
            final(self).focus_id() == old(self).focus_id(),
            final(self).history() == match old(self).node_for_window_spec(window) {
                Some(l) => old(self).history_with_rank(l, rank),
                None => old(self).history(),
            },
    {
        let Some(node) = self.node_for_window(window) else {
            return;
        };
        proof {
            self.lemma_node_for_window(window);
        }
        self.place_in_history(node, rank);
    }
}

impl TilingTree {
    /// The windows of the leaves in history `h`, in order (splits skipped).
    pub open spec fn window_history(self, h: Seq<NodeId>) -> Seq<u64>
        decreases h.len(),
    {
        if h.len() == 0 {
            Seq::empty()
        } else {
            let rest = self.window_history(h.drop_last());
            if self.is_leaf_node(h.last()) {
                rest.push(self.window_of(h.last()))
            } else {
                rest
            }
        }
    }

    /// The leaves holding the windows `ws`, in order, each taken once.
    pub open spec fn history_of_windows(self, ws: Seq<u64>) -> Seq<NodeId>
        decreases ws.len(),
    {
        if ws.len() == 0 {
            Seq::empty()
        } else {
            let rest = self.history_of_windows(ws.drop_last());
            match self.node_for_window_spec(ws.last()) {
                Some(l) => if rest.contains(l) {
                    rest
                } else {
                    rest.push(l)
                },
                None => rest,
            }
        }
    }

    /// Finding the leaves of windows looks at the nodes only.
    pub(crate) proof fn lemma_history_of_windows_same_nodes(self, other: Self, ws: Seq<u64>)
        requires
            self.same_nodes(other),
        ensures
            self.history_of_windows(ws) == other.history_of_windows(ws),
        decreases ws.len(),
    {
        if ws.len() > 0 {
            self.lemma_history_of_windows_same_nodes(other, ws.drop_last());
            self.lemma_window_leaf_same_nodes(other, self.leaves_in(self.root_id()), ws.last(), 0);
        }
    }

    /// The windows of the focus history, most recent first.
    pub fn window_focus_history(&self) -> (r: Vec<u64>)
        requires
            self.wf(),
        ensures
            r@ == self.window_history(self.history()),
    {
        let mut r: Vec<u64> = Vec::new();
        let n = self.focus_history.len();
        for i in 0..n
            invariant
                self.wf(),
                n == self.history().len(),
                r@ == self.window_history(self.history().take(i as int)),
        {
            let x = self.focus_history[i];
            assert(self.history().take(i + 1).drop_last() =~= self.history().take(i as int));
            assert(self.history().take(i + 1).last() == x);
            proof {
                assert(self.is_live(self.history()[i as int]));
            }
            match self.arena.kinds[x.0 as usize] {
                NodeKind::Leaf(w) => {
                    r.push(w);
                },
                NodeKind::Split(_) => {},
            }
        }
        assert(self.history().take(n as int) =~= self.history());
        r
    }

    /// Rebuilds the focus history from windows: the leaves holding them, in
    /// order, each once; windows no longer in the tree are skipped.
    pub fn restore_window_focus_history(&mut self, ws: &Vec<u64>)
        requires
            old(self).wf(),
        ensures
            old(self).keeps_titles(*final(self)),
            final(self).wf(),
            final(self).same_tree(*old(self)),
            final(self).focus_id() == old(self).focus_id(),
            final(self).history() == old(self).history_of_windows(ws@),
    {
        let ghost t0 = *self;
        let mut kept: Vec<NodeId> = Vec::new();
        for i in 0..ws.len()
            invariant
                old(self).keeps_titles(*self),
                self.wf(),
                *self == t0,
                kept@ == self.history_of_windows(ws@.take(i as int)),
                kept@.no_duplicates(),
                forall|k: int| 0 <= k < kept@.len() ==> #[trigger] self.arena.is_live(kept@[k]),
        {
            assert(ws@.take(i + 1).drop_last() =~= ws@.take(i as int));
            assert(ws@.take(i + 1).last() == ws@[i as int]);
            let found = self.node_for_window(ws[i]);
            if let Some(l) = found {
                proof {
                    self.lemma_node_for_window(ws[i as int]);
                }
                let mut seen = false;
                for k in 0..kept.len()
                    invariant
                        old(self).keeps_titles(*self),
                        seen == kept@.take(k as int).contains(l),
                {
                    let ghost pre = kept@.take(k as int);
                    let ghost post = kept@.take(k + 1);
                    assert(post =~= pre.push(kept@[k as int]));
                    proof {
                        if post.contains(l) {
                            let j = post.index_of(l);
                            if j < k {
                                assert(pre[j] == l);
                            }
                        }
                        if pre.contains(l) {
                            let j = pre.index_of(l);
                            assert(post[j] == l);
                        }
                        if kept@[k as int] == l {
                            assert(post[k as int] == l);
                        }
                    }
                    if kept[k] == l {
                        seen = true;
                    }
                }
                assert(kept@.take(kept@.len() as int) =~= kept@);
                if !seen {
                    let ghost before = kept@;
                    kept.push(l);
                    proof {
                        assert forall|a: int, b: int| 0 <= a < kept@.len() && 0 <= b < kept@.len() && a != b implies kept@[a] != kept@[b] by {
                            if a < before.len() && b < before.len() {
                            } else if a < before.len() {
                                assert(before.contains(before[a]));
                            } else {
                                assert(before.contains(before[b]));
                            }
                        }
                    }
                }
            }
        }
        assert(ws@.take(ws@.len() as int) =~= ws@);
        self.focus_history = kept;
        proof {
            assert(focus_ok(self.arena, self.focus, self.focus_history@));
        }
    }
}

} // verus!
