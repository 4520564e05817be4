//! Exchanging two containers between the trees of two workspaces.
use vstd::prelude::*;
use crate::tiling_tree::{DetachedSubtree, NodeId, TilingTree, well_shaped};

verus! {

impl TilingTree {
    /// Puts `subtree` in the place of the subtree of non-root `x`, which
    /// goes: the new top takes the position of `x` in its parent, the windows
    /// of `subtree` take, in the focus history, the place of the most
    /// recently focused node below `x`, the tree is compacted and the focus
    /// goes to the most recently focused window. Returns the new id of the
    /// top and, for every entry, its old and new id.
    #[verifier::spinoff_prover]
    #[verifier::rlimit(100)]
    fn replace_subtree(&mut self, x: NodeId, subtree: DetachedSubtree) -> (r: (NodeId, Vec<(NodeId, NodeId)>))
        requires
            old(self).wf(),
            old(self).is_live(x),
            x != old(self).root_id(),
            well_shaped(subtree.entries@),
            old(self).slot_count() + subtree.entries@.len() < usize::MAX,
        ensures
            old(self).keeps_titles(*final(self)),
            final(self).wf(),
            r.1@.len() == subtree.entries@.len(),
            forall|k: int| 0 <= k < r.1@.len() ==> (#[trigger] r.1@[k]).0 == subtree.entries@[k].old_id,
            forall|y: NodeId|
                #[trigger] final(self).is_leaf_node(y) <==> ((old(self).is_leaf_node(y) && !old(self).is_desc(y, x))
                    || (exists|k: int|
                    0 <= k < subtree.entries@.len() && subtree.entries@[k].kind is Leaf && #[trigger] r.1@[k].1 == y)),
            forall|k: int|
                0 <= k < subtree.entries@.len() && subtree.entries@[k].kind is Leaf ==> final(self).kind_of(
                    #[trigger] r.1@[k].1,
                ) == subtree.entries@[k].kind,
            final(self).root_id() == old(self).root_id(),
    {
        let ghost t0 = *self;
        let ghost es = subtree.entries@;
        let (p, idx) = self.parent_slot_of(x);
        let rank = self.focus_rank_below(x);
        let ws = subtree.focus_history.clone();
        let (top, remapped) = self.attach_entries_at(subtree, p, idx + 1);
        let ghost t1 = *self;
        proof {
            TilingTree::lemma_beside_facts(t1, t0, es, remapped@, p, x);
        }
        self.take_out(x);
        let ghost t2 = *self;
        self.promote_windows(&ws, rank);
        let ghost t3 = *self;
        self.finish_subtree_detach(None);
        proof {
            TilingTree::lemma_same_tree_nodes(t3, t2);
            assert forall|y: NodeId| #[trigger] self.is_leaf_node(y) <==> (t1.is_leaf_node(y) && !t1.is_desc(y, x)) by {
                assert(t3.is_leaf_node(y) == t2.is_leaf_node(y));
            }
            assert forall|y: NodeId| #[trigger] self.is_live(y) implies self.kind_of(y) == t1.kind_of(y) by {
                assert(t3.kind_of(y) == t2.kind_of(y));
                assert(t3.is_live(y) == t2.is_live(y));
            }
            TilingTree::lemma_replaced_leaves(*self, t1, t0, es, remapped@, x);
        }
        (top, remapped)
    }


    /// Swaps the subtree of `x` in this tree with the subtree of `y` in
    /// `other`: each goes, as fresh nodes, to the place of the other, with
    /// the pending mode of the node it replaces on its top, and its windows
    /// take the place in the focus history of the windows they replace. Both
    /// trees are then compacted and focus their most recently focused window.
    /// Returns `None`, changing nothing, unless `x` and `y` are nodes of
    /// their trees other than the roots; else, for every node of the subtree
    /// of `x`, in pre-order, its id before and its new id in `other`, and the
    /// same for `y`.
    #[verifier::spinoff_prover]
    #[verifier::rlimit(100)]
    pub fn swap_subtrees_with(&mut self, x: NodeId, other: &mut TilingTree, y: NodeId) -> (r: Option<
        (Vec<(NodeId, NodeId)>, Vec<(NodeId, NodeId)>),
    >)
        requires
            old(self).wf(),
            old(other).wf(),
            old(self).slot_count() + old(other).preorder(y).len() < usize::MAX,
            old(other).slot_count() + old(self).preorder(x).len() < usize::MAX,
            old(self).is_live(x) && old(other).is_live(y) ==> (old(self).kind_of(x) is Split ==> !old(
                other,
            ).mode_of(y).maximized) && (old(other).kind_of(y) is Split ==> !old(self).mode_of(x).maximized),
        ensures
            old(self).keeps_titles(*final(self)),
            final(self).wf(),
            final(other).wf(),
            r is Some <==> (old(self).is_live(x) && x != old(self).root_id() && old(other).is_live(y) && y != old(
                other,
            ).root_id()),
            r is None ==> *final(self) == *old(self) && *final(other) == *old(other),
            r matches Some((mine, theirs)) ==> {
                &&& mine@.len() == old(self).preorder(x).len()
                &&& theirs@.len() == old(other).preorder(y).len()
                &&& forall|k: int| 0 <= k < mine@.len() ==> (#[trigger] mine@[k]).0 == old(self).preorder(x)[k]
                &&& forall|k: int| 0 <= k < theirs@.len() ==> (#[trigger] theirs@[k]).0 == old(other).preorder(y)[k]
                &&& forall|z: NodeId|
                    #[trigger] final(self).is_leaf_node(z) <==> ((old(self).is_leaf_node(z) && !old(self).is_desc(z, x))
                        || (exists|k: int|
                        0 <= k < theirs@.len() && old(other).kind_of(theirs@[k].0) is Leaf && #[trigger] theirs@[k].1
                            == z))
                &&& forall|z: NodeId|
                    #[trigger] final(other).is_leaf_node(z) <==> ((old(other).is_leaf_node(z) && !old(other).is_desc(
                        z,
                        y,
                    )) || (exists|k: int|
                        0 <= k < mine@.len() && old(self).kind_of(mine@[k].0) is Leaf && #[trigger] mine@[k].1 == z))
                &&& forall|k: int|
                    0 <= k < theirs@.len() && old(other).kind_of(theirs@[k].0) is Leaf ==> final(self).kind_of(
                        #[trigger] theirs@[k].1,
                    ) == old(other).kind_of(theirs@[k].0)
                &&& forall|k: int|
                    0 <= k < mine@.len() && old(self).kind_of(mine@[k].0) is Leaf ==> final(other).kind_of(
                        #[trigger] mine@[k].1,
                    ) == old(self).kind_of(mine@[k].0)
            },
    {
        if !self.holds_non_root(x) || !other.holds_non_root(y) {
            return None;
        }
        let ghost s0 = *self;
        let ghost o0 = *other;
        let mut mine_sub = self.copy_subtree(x);
        let mut their_sub = other.copy_subtree(y);
        let ghost me = mine_sub.entries@;
        let ghost te = their_sub.entries@;
        proof {
            TilingTree::lemma_copy_facts(s0, me, x);
            TilingTree::lemma_copy_facts(o0, te, y);
        }
        mine_sub.swap_root_mode(&mut their_sub);
        proof {
            TilingTree::lemma_copy_top_mode(s0, me, x, te[0].mode);
            TilingTree::lemma_copy_top_mode(o0, te, y, me[0].mode);
            assert forall|k: int| 0 <= k < me.len() implies (#[trigger] mine_sub.entries@[k]).kind == me[k].kind
                && mine_sub.entries@[k].old_id == me[k].old_id by {}
            assert forall|k: int| 0 <= k < te.len() implies (#[trigger] their_sub.entries@[k]).kind == te[k].kind
                && their_sub.entries@[k].old_id == te[k].old_id by {}
        }
        let ghost mine_es = mine_sub.entries@;
        let ghost their_es = their_sub.entries@;
        let (_, theirs) = self.replace_subtree(x, their_sub);
        let (_, mine) = other.replace_subtree(y, mine_sub);
        proof {
            assert forall|k: int| 0 <= k < theirs@.len() implies (#[trigger] theirs@[k]).0 == o0.preorder(y)[k]
                && their_es[k].kind == o0.kind_of(theirs@[k].0) by {
                assert(te[k].old_id == o0.preorder(y)[k]);
            }
            assert forall|k: int| 0 <= k < mine@.len() implies (#[trigger] mine@[k]).0 == s0.preorder(x)[k]
                && mine_es[k].kind == s0.kind_of(mine@[k].0) by {
                assert(me[k].old_id == s0.preorder(x)[k]);
            }
            assert forall|z: NodeId| #[trigger] self.is_leaf_node(z) <==> ((s0.is_leaf_node(z) && !s0.is_desc(z, x))
                || (exists|k: int| 0 <= k < theirs@.len() && o0.kind_of(theirs@[k].0) is Leaf && #[trigger] theirs@[k].1
                == z)) by {
                if exists|k: int| 0 <= k < their_es.len() && their_es[k].kind is Leaf && #[trigger] theirs@[k].1 == z {
                    let k = choose|k: int| 0 <= k < their_es.len() && their_es[k].kind is Leaf && #[trigger] theirs@[k].1 == z;
                    assert(their_es[k].kind == o0.kind_of(theirs@[k].0));
                }
                if exists|k: int| 0 <= k < theirs@.len() && o0.kind_of(theirs@[k].0) is Leaf && #[trigger] theirs@[k].1 == z {
                    let k = choose|k: int| 0 <= k < theirs@.len() && o0.kind_of(theirs@[k].0) is Leaf && #[trigger] theirs@[k].1 == z;
                    assert(their_es[k].kind == o0.kind_of(theirs@[k].0));
                }
            }
            assert forall|z: NodeId| #[trigger] other.is_leaf_node(z) <==> ((o0.is_leaf_node(z) && !o0.is_desc(z, y))
                || (exists|k: int| 0 <= k < mine@.len() && s0.kind_of(mine@[k].0) is Leaf && #[trigger] mine@[k].1
                == z)) by {
                if exists|k: int| 0 <= k < mine_es.len() && mine_es[k].kind is Leaf && #[trigger] mine@[k].1 == z {
                    let k = choose|k: int| 0 <= k < mine_es.len() && mine_es[k].kind is Leaf && #[trigger] mine@[k].1 == z;
                    assert(mine_es[k].kind == s0.kind_of(mine@[k].0));
                }
                if exists|k: int| 0 <= k < mine@.len() && s0.kind_of(mine@[k].0) is Leaf && #[trigger] mine@[k].1 == z {
                    let k = choose|k: int| 0 <= k < mine@.len() && s0.kind_of(mine@[k].0) is Leaf && #[trigger] mine@[k].1 == z;
                    assert(mine_es[k].kind == s0.kind_of(mine@[k].0));
                }
            }
        }
        Some((mine, theirs))
    }

}

} // verus!
