//! Which windows are on screen: below the fullscreen node (or the root),
//! tabbed and stacked splits show only one child.
use vstd::prelude::*;
use super::{Layout, NodeId, NodeKind, TilingTree, child_containing};

verus! {

impl TilingTree {
    /// The child a tabbed or stacked split `p` shows: the one holding the
    /// focus, or else its first child.
    pub closed spec fn shown_child(self, p: NodeId) -> Option<NodeId> {
        match self.focus_id() {
            Some(f) => match child_containing(self.arena, p, f, 0) {
                Some(c) => Some(c),
                None => if self.children_of(p).len() > 0 {
                    Some(self.children_of(p)[0])
                } else {
                    None
                },
            },
            None => if self.children_of(p).len() > 0 {
                Some(self.children_of(p)[0])
            } else {
                None
            },
        }
    }

    /// The leaves on screen below `id`, in depth-first order.
    pub closed spec fn visible_in(self, id: NodeId) -> Seq<NodeId>
        decreases self.height_measure(id), 1nat, 0nat,
    {
        if !self.is_live(id) {
            Seq::empty()
        } else {
            match self.kind_of(id) {
                NodeKind::Leaf(_) => seq![id],
                NodeKind::Split(l) => if l == Layout::Tabbed || l == Layout::Stacked {
                    match self.shown_child(id) {
                        Some(c) => if self.descends(id, c) {
                            self.visible_in(c)
                        } else {
                            Seq::empty()
                        },
                        None => Seq::empty(),
                    }
                } else {
                    self.visible_of_list(id, self.children_of(id))
                },
            }
        }
    }

    /// The leaves on screen below each of `kids` (children of `p`), concatenated.
    pub closed spec fn visible_of_list(self, p: NodeId, kids: Seq<NodeId>) -> Seq<NodeId>
        decreases self.height_measure(p), 0nat, kids.len(),
    {
        if kids.len() == 0 {
            Seq::empty()
        } else {
            let c = kids[0];
            let first = if self.descends(p, c) {
                self.visible_in(c)
            } else {
                Seq::empty()
            };
            first + self.visible_of_list(p, kids.drop_first())
        }
    }

    /// The node whose leaves can be on screen: the fullscreen node, or the root.
    pub closed spec fn display_root(self) -> NodeId {
        match self.fullscreen_spec() {
            Some(fs) => fs,
            None => self.root_id(),
        }
    }

    /// Two different children of a node have no node in common below them.
    proof fn lemma_siblings_disjoint(self, p: NodeId, i: int, j: int, x: NodeId)
        requires
            self.structure_ok(),
            self.is_live(p),
            0 <= i < self.children_of(p).len(),
            0 <= j < self.children_of(p).len(),
            i != j,
            self.is_live(x),
        ensures
            !(self.is_desc(x, self.children_of(p)[i]) && self.is_desc(x, self.children_of(p)[j])),
    {
        let a = self.children_of(p)[i];
        let b = self.children_of(p)[j];
        self.lemma_child_desc(p, i);
        self.lemma_child_desc(p, j);
        assert(self.children_of(p).no_duplicates());
        if self.is_desc(x, a) && self.is_desc(x, b) {
            self.lemma_desc_chain(x, a, b);
            if self.is_desc(a, b) {
                self.lemma_desc_unfold(a, b);
                self.lemma_desc_live(p, b);
            } else {
                self.lemma_desc_unfold(b, a);
                self.lemma_desc_live(p, a);
            }
        }
    }

    /// What is on screen below `id` are distinct leaves below `id`.
    proof fn lemma_visible_in(self, id: NodeId)
        requires
            self.structure_ok(),
        ensures
            self.visible_in(id).no_duplicates(),
            forall|v: NodeId| #[trigger] self.visible_in(id).contains(v) ==> self.is_leaf_node(v) && self.is_desc(v, id),
        decreases self.height_measure(id), 1nat, 0nat,
    {
        if self.is_live(id) {
            match self.kind_of(id) {
                NodeKind::Leaf(_) => {
                    assert(self.is_desc(id, id)) by {
                        self.lemma_desc_unfold(id, id);
                    }
                    assert forall|v: NodeId| #[trigger] self.visible_in(id).contains(v) implies v == id by {
                        assert(self.visible_in(id) == seq![id]);
                    }
                },
                NodeKind::Split(l) => {
                    if l == Layout::Tabbed || l == Layout::Stacked {
                        if let Some(c) = self.shown_child(id) {
                            if self.descends(id, c) {
                                self.lemma_visible_in(c);
                                assert forall|v: NodeId| #[trigger] self.visible_in(id).contains(v) implies self.is_desc(
                                    v,
                                    id,
                                ) by {
                                    assert(self.visible_in(c).contains(v));
                                    self.lemma_visible_child(id, c);
                                    self.lemma_desc_trans(v, c, id);
                                }
                            }
                        }
                    } else {
                        let all = self.children_of(id);
                        self.lemma_visible_of_list(id, all, 0);
                        assert(all.skip(0) =~= all);
                        assert forall|v: NodeId| #[trigger] self.visible_in(id).contains(v) implies self.is_desc(
                            v,
                            id,
                        ) by {
                            assert(self.visible_of_list(id, all.skip(0)).contains(v));
                            let j = choose|j: int| 0 <= j < all.len() && self.is_desc(v, #[trigger] all[j]);
                            self.lemma_child_desc(id, j);
                            self.lemma_desc_trans(v, all[j], id);
                        }
                    }
                },
            }
        }
    }

    /// A shown child is a child of its split.
    proof fn lemma_visible_child(self, p: NodeId, c: NodeId)
        requires
            self.structure_ok(),
            self.is_live(p),
            self.shown_child(p) == Some(c),
        ensures
            self.children_of(p).contains(c),
            self.is_live(c),
            self.is_desc(c, p),
    {
        if let Some(f) = self.focus_id() {
            if let Some(d) = child_containing(self.arena, p, f, 0) {
                self.lemma_child_containing(p, f, 0);
            }
        }
        let k = self.children_of(p).index_of(c);
        if self.children_of(p).contains(c) {
            assert(self.children_of(p)[k] == c);
            self.lemma_child_desc(p, k);
        } else {
            assert(self.children_of(p)[0] == c);
        }
    }

    /// The leaves on screen below the children of `p` from position `k` on
    /// are distinct leaves below those children.
    proof fn lemma_visible_of_list(self, p: NodeId, all: Seq<NodeId>, k: int)
        requires
            self.structure_ok(),
            self.is_live(p),
            all == self.children_of(p),
            0 <= k <= all.len(),
        ensures
            self.visible_of_list(p, all.skip(k)).no_duplicates(),
            forall|v: NodeId|
                #[trigger] self.visible_of_list(p, all.skip(k)).contains(v) ==> self.is_leaf_node(v)
                    && exists|j: int| k <= j < all.len() && self.is_desc(v, #[trigger] all[j]),
        decreases self.height_measure(p), 0nat, all.len() - k,
    {
        let kids = all.skip(k);
        if kids.len() > 0 {
            let c = kids[0];
            assert(c == all[k]);
            self.lemma_descends_child(p, k);
            self.lemma_child_desc(p, k);
            self.lemma_wf_depth_bound(p);
            self.lemma_visible_in(c);
            assert(kids.drop_first() =~= all.skip(k + 1));
            self.lemma_visible_of_list(p, all, k + 1);
            let first = self.visible_in(c);
            let rest = self.visible_of_list(p, all.skip(k + 1));
            assert(self.visible_of_list(p, kids) == first + rest);
            assert forall|v: NodeId| #[trigger] (first + rest).contains(v) implies self.is_leaf_node(v)
                && exists|j: int| k <= j < all.len() && self.is_desc(v, #[trigger] all[j]) by {
                self.lemma_concat_contains(first, rest, v);
                if first.contains(v) {
                    assert(self.is_desc(v, all[k]));
                }
            }
            assert((first + rest).no_duplicates()) by {
                let s = first + rest;
                assert forall|a: int, b: int| 0 <= a < s.len() && 0 <= b < s.len() && a != b implies s[a] != s[b] by {
                    if a < first.len() && b < first.len() {
                    } else if a >= first.len() && b >= first.len() {
                        assert(s[a] == rest[a - first.len()] && s[b] == rest[b - first.len()]);
                    } else {
                        let (fa, rb) = if a < first.len() { (a, b) } else { (b, a) };
                        let v = s[fa];
                        assert(first.contains(v));
                        if s[rb] == v {
                            assert(rest[rb - first.len()] == v);
                            assert(rest.contains(v));
                            let j = choose|j: int| k + 1 <= j < all.len() && self.is_desc(v, #[trigger] all[j]);
                            self.lemma_siblings_disjoint(p, k, j, v);
                        }
                    }
                }
            }
        }
    }

    proof fn lemma_visible_append(self, p: NodeId, a: Seq<NodeId>, b: Seq<NodeId>)
        ensures
            self.visible_of_list(p, a + b) == self.visible_of_list(p, a) + self.visible_of_list(p, b),
        decreases a.len(),
    {
        if a.len() == 0 {
            assert(a + b =~= b);
            assert(Seq::<NodeId>::empty() + self.visible_of_list(p, b) =~= self.visible_of_list(p, b));
        } else {
            assert((a + b).drop_first() =~= a.drop_first() + b);
            assert((a + b)[0] == a[0]);
            self.lemma_visible_append(p, a.drop_first(), b);
        }
    }

    proof fn lemma_visible_take_step(self, p: NodeId, kids: Seq<NodeId>, i: int)
        requires
            0 <= i < kids.len(),
            self.descends(p, kids[i]),
        ensures
            self.visible_of_list(p, kids.take(i + 1)) == self.visible_of_list(p, kids.take(i))
                + self.visible_in(kids[i]),
    {
        assert(kids.take(i + 1) =~= kids.take(i) + seq![kids[i]]);
        self.lemma_visible_append(p, kids.take(i), seq![kids[i]]);
        assert(seq![kids[i]].drop_first() =~= Seq::<NodeId>::empty());
        reveal_with_fuel(TilingTree::visible_of_list, 2);
        assert(self.visible_in(kids[i]) + Seq::<NodeId>::empty() =~= self.visible_in(kids[i]));
    }

    /// The child a tabbed or stacked split `p` shows.
    fn shown_child_in(&self, p: NodeId) -> (r: Option<NodeId>)
        requires
            self.structure_ok(),
            self.is_live(p),
        ensures
            r == self.shown_child(p),
    {
        let kids = &self.arena.children[p.0 as usize];
        if let Some(focus) = self.focus {
            for i in 0..kids.len()
                invariant
                    self.structure_ok(),
                    kids@ == self.children_of(p),
                    self.focus_id() == Some(focus),
                    child_containing(self.arena, p, focus, 0) == child_containing(
                        self.arena,
                        p,
                        focus,
                        i as int,
                    ),
            {
                if self.contains_node(kids[i], focus) {
                    return Some(kids[i]);
                }
            }
        }
        if kids.len() > 0 {
            Some(kids[0])
        } else {
            None
        }
    }

    /// Appends the leaves on screen below `id`, in depth-first order, to `visible`.
    pub fn collect_visible(&self, id: NodeId, visible: &mut Vec<NodeId>)
        requires
            self.structure_ok(),
        ensures
            final(visible)@ == old(visible)@ + self.visible_in(id),
        decreases self.height_measure(id),
    {
        if !self.is_live_exec(id) {
            assert(old(visible)@ + self.visible_in(id) =~= old(visible)@);
            return;
        }
        match self.arena.kinds[id.0 as usize] {
            NodeKind::Leaf(_) => {
                visible.push(id);
            },
            NodeKind::Split(layout) => {
                let kids = &self.arena.children[id.0 as usize];
                let ghost all = self.children_of(id);
                assert(kids@ == all);
                if layout == Layout::Tabbed || layout == Layout::Stacked {
                    let shown = self.shown_child_in(id);
                    assert(shown == self.shown_child(id));
                    if let Some(c) = shown {
                        proof {
                            self.lemma_visible_child(id, c);
                            let k = self.children_of(id).index_of(c);
                            self.lemma_descends_child(id, k);
                            self.lemma_wf_depth_bound(id);
                        }
                        self.collect_visible(c, visible);
                    } else {
                        assert(old(visible)@ + self.visible_in(id) =~= old(visible)@);
                    }
                } else {
                    let ghost start = visible@;
                    assert(self.visible_in(id) == self.visible_of_list(id, all));
                    assert(all.take(0) =~= Seq::<NodeId>::empty());
                    assert(start + Seq::<NodeId>::empty() =~= start);
                    for i in 0..kids.len()
                        invariant
                            self.structure_ok(),
                            self.is_live(id),
                            kids@ == all,
                            all == self.children_of(id),
                            visible@ == start + self.visible_of_list(id, all.take(i as int)),
                    {
                        proof {
                            self.lemma_descends_child(id, i as int);
                            self.lemma_visible_take_step(id, all, i as int);
                            self.lemma_wf_depth_bound(id);
                        }
                        self.collect_visible(kids[i], visible);
                        assert(visible@ =~= start + self.visible_of_list(id, all.take(i + 1)));
                    }
                    assert(all.take(all.len() as int) =~= all);
                }
            },
        }
    }

    /// The leaves on screen: those below the fullscreen node when there is
    /// one, else those below the root; each once, in depth-first order.
    pub fn visible_leaves(&self) -> (r: Vec<NodeId>)
        requires
            self.wf(),
        ensures
            r@ == self.visible_in(self.display_root()),
            r@.no_duplicates(),
            forall|v: NodeId| #[trigger] r@.contains(v) ==> self.is_leaf_node(v) && self.is_desc(
                v,
                self.display_root(),
            ),
    {
        let start = match self.fullscreen_node() {
            Some(fs) => fs,
            None => self.arena.root,
        };
        let mut visible = Vec::new();
        self.collect_visible(start, &mut visible);
        assert(Seq::<NodeId>::empty() + self.visible_in(start) =~= self.visible_in(start));
        proof {
            self.lemma_visible_in(start);
        }
        visible
    }

    /// How many windows are on screen.
    pub fn visible_window_count(&self) -> (r: usize)
        requires
            self.wf(),
        ensures
            r == self.visible_in(self.display_root()).len(),
    {
        self.visible_leaves().len()
    }
}

} // verus!
