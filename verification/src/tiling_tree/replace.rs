//! Putting a detached subtree in the place of another one, as swapping two
//! containers between workspaces does.
use vstd::prelude::*;
use super::{Arena, NodeId, PendingMode, TilingTree, well_shaped};
use super::transfer::{DetachedEntry, DetachedSubtree, shaped, detached_from};

verus! {

impl TilingTree {
    /// The first `m` nodes of a chain in which each node hangs below an
    /// earlier one lie below the first.
    proof fn lemma_new_below_top(self, es: Seq<DetachedEntry>, ids: Seq<NodeId>, m: int)
        requires
            self.structure_ok(),
            shaped(es),
            ids.len() == es.len(),
            0 <= m <= ids.len(),
            forall|j: int| 0 <= j < ids.len() ==> self.is_live(#[trigger] ids[j]) && ids[j] != self.root_id(),
            forall|j: int| 0 < j < ids.len() ==> self.parent_of(#[trigger] ids[j]) == Some(ids[es[j].parent->0 as int]),
        ensures
            forall|k: int| 0 <= k < m ==> self.is_desc(#[trigger] ids[k], ids[0]),
        decreases m,
    {
        if m > 0 {
            self.lemma_new_below_top(es, ids, m - 1);
            let k = m - 1;
            assert(self.is_live(ids[k]));
            if k == 0 {
                assert(self.is_desc(ids[0], ids[0])) by {
                    reveal_with_fuel(super::Arena::is_desc, 1);
                }
            } else {
                assert(es[k].parent matches Some(q) && q < k);
                let j = es[k].parent->0 as int;
                assert(self.is_desc(ids[j], ids[0]));
                self.lemma_desc_unfold(ids[k], ids[0]);
            }
        }
    }

    /// Nothing below `top` lies below its sibling `x`.
    proof fn lemma_new_not_below(self, ids: Seq<NodeId>, p: NodeId, x: NodeId)
        requires
            self.structure_ok(),
            ids.len() > 0,
            forall|k: int| 0 <= k < ids.len() ==> self.is_live(#[trigger] ids[k]) && self.is_desc(ids[k], ids[0]),
            self.is_live(x),
            self.is_live(p),
            x != self.root_id(),
            ids[0] != self.root_id(),
            self.parent_of(x) == Some(p),
            self.parent_of(ids[0]) == Some(p),
            ids[0] != x,
            ids[0] != p,
        ensures
            forall|k: int| 0 <= k < ids.len() ==> !self.is_desc(#[trigger] ids[k], x),
    {
        let top = ids[0];
        assert(self.is_desc(x, p)) by {
            self.lemma_desc_unfold(x, p);
            assert(self.is_desc(p, p)) by {
                reveal_with_fuel(super::Arena::is_desc, 1);
            }
        }
        assert(self.is_desc(top, p)) by {
            self.lemma_desc_unfold(top, p);
            assert(self.is_desc(p, p)) by {
                reveal_with_fuel(super::Arena::is_desc, 1);
            }
        }
        assert forall|k: int| 0 <= k < ids.len() implies !self.is_desc(#[trigger] ids[k], x) by {
            if self.is_desc(ids[k], x) {
                assert(self.is_desc(ids[k], top));
                self.lemma_desc_chain(ids[k], x, top);
                if self.is_desc(top, x) {
                    self.lemma_desc_unfold(top, x);
                    self.lemma_desc_antisym(p, x);
                } else {
                    self.lemma_desc_unfold(x, top);
                    self.lemma_desc_antisym(p, top);
                }
            }
        }
    }
}


/// The position in `h`, from `k` on, of the first node below `x`; the length
/// of `h` when there is none.
pub open spec fn first_rank_below(t: TilingTree, h: Seq<NodeId>, x: NodeId, k: int) -> int
    decreases h.len() - k,
{
    if k < 0 || k >= h.len() {
        h.len() as int
    } else if t.is_desc(h[k], x) {
        k
    } else {
        first_rank_below(t, h, x, k + 1)
    }
}

impl TilingTree {
    /// The position in the focus history of the most recently focused node
    /// below `x` (the length of the history when there is none).
    pub(crate) fn focus_rank_below(&self, x: NodeId) -> (r: usize)
        requires
            self.wf(),
        ensures
            r == first_rank_below(*self, self.history(), x, 0),
    {
        let n = self.focus_history.len();
        for k in 0..n
            invariant
                self.wf(),
                n == self.history().len(),
                first_rank_below(*self, self.history(), x, 0) == first_rank_below(*self, self.history(), x, k as int),
        {
            if self.contains_node(x, self.focus_history[k]) {
                return k;
            }
        }
        n
    }
}


impl TilingTree {
    /// After the entries of a subtree went in next to `x`, below the parent
    /// `p` of `x`: `x` is still there, none of the new nodes lies below it,
    /// and an old node lies below `x` as before.
    #[verifier::spinoff_prover]
    #[verifier::rlimit(40)]
    pub(crate) proof fn lemma_beside_facts(
        t1: TilingTree,
        t0: TilingTree,
        es: Seq<DetachedEntry>,
        rm: Seq<(NodeId, NodeId)>,
        p: NodeId,
        x: NodeId,
    )
        requires
            t0.wf(),
            t1.wf(),
            super::well_shaped(es),
            rm.len() == es.len(),
            forall|k: int| 0 <= k < rm.len() ==> (#[trigger] rm[k]).1.0 == t0.slot_count() + k,
            t1.parent_of(rm[0].1) == Some(p),
            forall|k: int|
                0 < k < rm.len() ==> #[trigger] t1.parent_of(rm[k].1) == Some(rm[es[k].parent->0 as int].1),
            forall|y: NodeId|
                #[trigger] t1.is_live(y) <==> (t0.is_live(y) || (t0.slot_count() <= y.0 && y.0 < t0.slot_count()
                    + es.len())),
            forall|y: NodeId|
                #![trigger t1.kind_of(y)]
                t0.is_live(y) ==> t1.kind_of(y) == t0.kind_of(y) && t1.parent_of(y) == t0.parent_of(y),
            t1.root_id() == t0.root_id(),
            t0.is_live(x),
            x != t0.root_id(),
            t0.parent_of(x) == Some(p),
        ensures
            t1.is_live(x),
            forall|k: int| 0 <= k < rm.len() ==> !t1.is_desc(#[trigger] rm[k].1, x),
            forall|y: NodeId| #[trigger] t0.is_live(y) ==> t1.is_desc(y, x) == t0.is_desc(y, x),
    {
        let n = rm.len() as int;
        let ids = Seq::new(n as nat, |k: int| rm[k].1);
        assert(t0.is_live(t0.root_id()));
        assert forall|j: int| 0 <= j < ids.len() implies t1.is_live(#[trigger] ids[j]) && ids[j] != t1.root_id() by {
            assert(ids[j] == rm[j].1);
            assert(rm[j].1.0 == t0.slot_count() + j);
        }
        assert forall|j: int| 0 < j < ids.len() implies t1.parent_of(#[trigger] ids[j]) == Some(
            ids[es[j].parent->0 as int],
        ) by {
            assert(ids[j] == rm[j].1);
            assert(es[j].parent matches Some(q) && q < j);
        }
        t1.lemma_new_below_top(es, ids, n);
        assert(t1.kind_of(x) == t0.kind_of(x));
        assert(t0.is_live(p)) by {
            assert(t0.arena.is_live(t0.arena.parent_of(x)->0));
        }
        assert(t1.kind_of(p) == t0.kind_of(p));
        assert(ids[0] == rm[0].1);
        assert(rm[0].1.0 == t0.slot_count());
        t1.lemma_new_not_below(ids, p, x);
        assert forall|k: int| 0 <= k < rm.len() implies !t1.is_desc(#[trigger] rm[k].1, x) by {
            assert(ids[k] == rm[k].1);
        }
        assert forall|z: NodeId| #[trigger] t0.arena.is_live(z) implies t1.arena.is_live(z) && t1.arena.parent_of(z)
            == t0.arena.parent_of(z) by {
            assert(t0.is_live(z));
            assert(t1.kind_of(z) == t0.kind_of(z));
            assert(t1.is_live(z));
            assert(t1.parent_of(z) == t0.parent_of(z));
        }
        assert forall|y: NodeId| #[trigger] t0.is_live(y) implies t1.is_desc(y, x) == t0.is_desc(y, x) by {
            Arena::lemma_desc_same(t0.arena, t1.arena, y, x);
        }
    }

    /// The windows after a replacement: those of the old tree outside the
    /// subtree of `x`, and the new ones.
    #[verifier::spinoff_prover]
    #[verifier::rlimit(40)]
    pub(crate) proof fn lemma_replaced_leaves(
        fin: TilingTree,
        t1: TilingTree,
        t0: TilingTree,
        es: Seq<DetachedEntry>,
        rm: Seq<(NodeId, NodeId)>,
        x: NodeId,
    )
        requires
            rm.len() == es.len(),
            forall|k: int|
                0 <= k < rm.len() ==> (#[trigger] rm[k]).1.0 == t0.slot_count() + k && t1.kind_of(rm[k].1)
                    == es[k].kind,
            forall|y: NodeId|
                #[trigger] t1.is_live(y) <==> (t0.is_live(y) || (t0.slot_count() <= y.0 && y.0 < t0.slot_count()
                    + es.len())),
            forall|y: NodeId| #![trigger t1.kind_of(y)] t0.is_live(y) ==> t1.kind_of(y) == t0.kind_of(y),
            forall|k: int| 0 <= k < rm.len() ==> !t1.is_desc(#[trigger] rm[k].1, x),
            forall|y: NodeId| #[trigger] t0.is_live(y) ==> t1.is_desc(y, x) == t0.is_desc(y, x),
            forall|y: NodeId| #[trigger] fin.is_leaf_node(y) <==> (t1.is_leaf_node(y) && !t1.is_desc(y, x)),
            forall|y: NodeId| #[trigger] fin.is_live(y) ==> fin.kind_of(y) == t1.kind_of(y),
        ensures
            forall|y: NodeId|
                #[trigger] fin.is_leaf_node(y) <==> ((t0.is_leaf_node(y) && !t0.is_desc(y, x)) || (exists|k: int|
                    0 <= k < es.len() && es[k].kind is Leaf && #[trigger] rm[k].1 == y)),
            forall|k: int| 0 <= k < es.len() && es[k].kind is Leaf ==> fin.kind_of(#[trigger] rm[k].1) == es[k].kind,
    {
        assert forall|y: NodeId| #[trigger] fin.is_leaf_node(y) <==> ((t0.is_leaf_node(y) && !t0.is_desc(y, x))
            || (exists|k: int| 0 <= k < es.len() && es[k].kind is Leaf && #[trigger] rm[k].1 == y)) by {
            if fin.is_leaf_node(y) {
                assert(t1.is_leaf_node(y) && !t1.is_desc(y, x));
                assert(t1.is_live(y));
                if t0.is_live(y) {
                    assert(t1.kind_of(y) == t0.kind_of(y));
                } else {
                    let k = (y.0 - t0.slot_count()) as int;
                    assert(rm[k].1.0 == y.0);
                    assert(rm[k].1 == y);
                }
            }
            if t0.is_leaf_node(y) && !t0.is_desc(y, x) {
                assert(t0.is_live(y));
                assert(t1.is_live(y));
                assert(t1.kind_of(y) == t0.kind_of(y));
                assert(t1.is_leaf_node(y));
            }
            if exists|k: int| 0 <= k < es.len() && es[k].kind is Leaf && #[trigger] rm[k].1 == y {
                let k = choose|k: int| 0 <= k < es.len() && es[k].kind is Leaf && #[trigger] rm[k].1 == y;
                assert(rm[k].1.0 == t0.slot_count() + k);
                assert(t1.kind_of(rm[k].1) == es[k].kind);
                assert(t1.is_live(rm[k].1));
                assert(t1.is_leaf_node(y));
            }
        }
        assert forall|k: int| 0 <= k < es.len() && es[k].kind is Leaf implies fin.kind_of(#[trigger] rm[k].1)
            == es[k].kind by {
            assert(rm[k].1.0 == t0.slot_count() + k);
            assert(t1.kind_of(rm[k].1) == es[k].kind);
            assert(t1.is_live(rm[k].1));
            assert(t1.is_leaf_node(rm[k].1));
            assert(fin.is_leaf_node(rm[k].1));
            assert(fin.is_live(rm[k].1));
        }
    }

    /// Whether `x` is a node of the tree other than its root.
    pub(crate) fn holds_non_root(&self, x: NodeId) -> (r: bool)
        requires
            self.wf(),
        ensures
            r == (self.is_live(x) && x != self.root_id()),
    {
        self.is_live_exec(x) && x != self.arena.root
    }

    /// The parent of non-root `x` and the position of `x` among its
    /// children.
    pub(crate) fn parent_slot_of(&self, x: NodeId) -> (r: (NodeId, usize))
        requires
            self.wf(),
            self.is_live(x),
            x != self.root_id(),
        ensures
            self.parent_of(x) == Some(r.0),
            self.is_split_node(r.0),
            r.1 < self.children_of(r.0).len(),
            r.1 < usize::MAX,
            self.children_of(r.0)[r.1 as int] == x,
    {
        assert(self.parent_of(x) is Some);
        let p = self.arena.parents[x.0 as usize].unwrap();
        assert(self.children_of(p).contains(x) && self.is_split_node(p));
        let idx = self.index_of_child(p, x);
        let n = self.arena.children[p.0 as usize].len();
        assert(self.children_of(p).len() == n);
        (p, idx)
    }

    /// Trees with the same nodes have the same windows and kinds.
    pub(crate) proof fn lemma_same_tree_nodes(a: TilingTree, b: TilingTree)
        requires
            a.same_tree(b),
        ensures
            forall|y: NodeId| #[trigger] a.is_leaf_node(y) == b.is_leaf_node(y),
            forall|y: NodeId| #[trigger] a.is_live(y) == b.is_live(y),
            forall|y: NodeId| #[trigger] a.kind_of(y) == b.kind_of(y),
            a.root_id() == b.root_id(),
    {
    }

}

/// `es` lists the subtree of non-root `x` of `t` as detaching it would.
pub closed spec fn copy_of(t: TilingTree, es: Seq<DetachedEntry>, x: NodeId) -> bool {
    detached_from(t, es, x) && t.is_live(x) && x != t.root_id()
}

impl TilingTree {
    /// The subtree of non-root `x`, as detaching it would hand it over,
    /// leaving the tree as it is.
    pub(crate) fn copy_subtree(&self, x: NodeId) -> (d: DetachedSubtree)
        requires
            self.wf(),
            self.is_live(x),
            x != self.root_id(),
        ensures
            copy_of(*self, d.entries@, x),
    {
        let mut entries: Vec<DetachedEntry> = Vec::new();
        self.snapshot_into(x, None, &mut entries);
        proof {
            self.lemma_detached_entries(entries@, entries@, x);
        }
        let ws = self.history_windows_in(x);
        DetachedSubtree { entries, focus_history: ws }
    }

    /// What a copy of the subtree of `x` says of each node.
    pub(crate) proof fn lemma_copy_facts(t: TilingTree, es: Seq<DetachedEntry>, x: NodeId)
        requires
            copy_of(t, es, x),
        ensures
            es.len() == t.preorder(x).len(),
            es.len() > 0,
            forall|k: int|
                0 <= k < es.len() ==> (#[trigger] es[k]).old_id == t.preorder(x)[k] && es[k].kind == t.kind_of(
                    es[k].old_id,
                ),
            es[0].kind == t.kind_of(x),
            es[0].mode == t.mode_of(x),
    {
        assert(es[0].old_id == t.preorder(x)[0]);
        assert(t.preorder(x)[0] == x);
        assert(t.records(es[0]));
    }

    /// A copy with another pending mode on its top can be attached, as
    /// long as a split top is not made maximized.
    pub(crate) proof fn lemma_copy_top_mode(t: TilingTree, es: Seq<DetachedEntry>, x: NodeId, mode: PendingMode)
        requires
            copy_of(t, es, x),
            t.kind_of(x) is Split ==> !mode.maximized,
        ensures
            well_shaped(es.update(0, DetachedEntry { mode, ..es[0] })),
    {
        TilingTree::lemma_copy_facts(t, es, x);
        let fs = es.update(0, DetachedEntry { mode, ..es[0] });
        assert forall|k: int| 0 < k < fs.len() implies ((#[trigger] fs[k]).parent matches Some(j) && j < k
            && fs[j as int].kind is Split) by {
            assert(fs[k] == es[k]);
            assert(es[k].parent matches Some(j) && j < k && es[j as int].kind is Split);
            let j = es[k].parent->0 as int;
            assert(fs[j].kind == es[j].kind);
        }
        assert forall|j: int| 0 <= j < fs.len() && (#[trigger] fs[j]).kind is Split implies j + 1 < fs.len()
            && fs[j + 1].parent == Some(j as usize) && !fs[j].mode.maximized by {
            assert(fs[j].kind == es[j].kind);
            assert(es[j].kind is Split);
            assert(fs[j + 1] == es[j + 1]);
        }
        assert(shaped(fs));
    }
}

} // verus!
