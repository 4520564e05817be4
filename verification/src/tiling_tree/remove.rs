//! Removing leaves, and collapsing the splits that removal leaves empty or
//! with a single child.
use vstd::prelude::*;
use super::{Arena, NodeId, NodeKind, PendingMode, TilingTree, count_true, focus_ok, modes_ok, normal_mode};
use super::focus::{lemma_without, without};
use super::edit::lemma_count_update;

verus! {

impl Arena {
    /// Unlinking a live node without children from its parent keeps the tree
    /// well formed, except that the parent may now be empty.
    pub(crate) proof fn lemma_unlink_arena(a0: Arena, a1: Arena, x: NodeId, p: NodeId, idx: int, e: Option<NodeId>)
        requires
            a0.wf_except(e),
            e is None || e == Some(x),
            a0.is_live(x),
            x != a0.root,
            a0.parent_of(x) == Some(p),
            a0.children_of(x).len() == 0,
            0 <= idx < a0.children_of(p).len(),
            a0.children_of(p)[idx] == x,
            a1.live@ == a0.live@.update(x.0 as int, false),
            a1.kinds == a0.kinds,
            a1.parents == a0.parents,
            a1.depth == a0.depth,
            a1.max_depth == a0.max_depth,
            a1.root == a0.root,
            a1.children@.len() == a0.children@.len(),
            forall|q: NodeId|
                #![trigger a1.children_of(q)]
                q != p && q.0 < a0.children@.len() ==> a1.children_of(q) == a0.children_of(q),
            a1.children_of(p) == a0.children_of(p).remove(idx),
        ensures
            a1.wf_except(Some(p)),
            forall|y: NodeId| #[trigger] a1.is_live(y) <==> (a0.is_live(y) && y != x),
    {
        let old_kids = a0.children_of(p);
        let new_kids = a1.children_of(p);
        assert(a0.parent_of(x) is Some);
        assert forall|y: NodeId| #[trigger] a1.is_live(y) <==> (a0.is_live(y) && y != x) by {
            if y.0 == x.0 {
                assert(y == x);
            }
        }
        assert forall|k: int| 0 <= k < new_kids.len() implies {
            &&& a1.is_live(#[trigger] new_kids[k])
            &&& a1.parent_of(new_kids[k]) == Some(p)
        } by {
            if k < idx {
                assert(new_kids[k] == old_kids[k]);
                a0.lemma_child_desc(p, k);
            } else {
                assert(new_kids[k] == old_kids[k + 1]);
                a0.lemma_child_desc(p, k + 1);
            }
        }
        assert(new_kids.no_duplicates()) by {
            assert forall|i: int, j: int|
                0 <= i < new_kids.len() && 0 <= j < new_kids.len() && i != j implies new_kids[i]
                    != new_kids[j] by {
                let oi = if i < idx { i } else { i + 1 };
                let oj = if j < idx { j } else { j + 1 };
                assert(new_kids[i] == old_kids[oi] && new_kids[j] == old_kids[oj]);
            }
        }
        assert forall|y: NodeId|
            #![trigger a1.parent_of(y)]
            a1.is_live(y) && y != a1.root implies {
                &&& a1.parent_of(y) is Some
                &&& a1.is_live(a1.parent_of(y)->0)
                &&& a1.kind_of(a1.parent_of(y)->0) is Split
                &&& a1.children_of(a1.parent_of(y)->0).contains(y)
                &&& a1.depth_of(a1.parent_of(y)->0) < a1.depth_of(y)
            } by {
            assert(a0.parent_of(y) is Some);
            let q = a0.parent_of(y)->0;
            if q == x {
                assert(a0.children_of(x).contains(y));
            }
            if q == p {
                let j = old_kids.index_of(y);
                assert(old_kids[j] == y);
                assert(j != idx);
                if j < idx {
                    assert(new_kids[j] == y);
                } else {
                    assert(new_kids[j - 1] == y);
                }
            }
        }
        assert forall|q: NodeId, i: int|
            #![trigger a1.children_of(q)[i]]
            a1.is_live(q) && 0 <= i < a1.children_of(q).len() implies {
                &&& a1.is_live(a1.children_of(q)[i])
                &&& a1.parent_of(a1.children_of(q)[i]) == Some(q)
            } by {
            if q != p {
                a0.lemma_child_desc(q, i);
                let y = a0.children_of(q)[i];
                if y == x {
                    assert(a0.parent_of(x) == Some(q));
                }
            } else {
                assert(new_kids[i] == a1.children_of(q)[i]);
            }
        }
        assert forall|q: NodeId|
            #![trigger a1.children_of(q)]
            a1.is_live(q) implies {
                &&& a1.children_of(q).no_duplicates()
                &&& (a1.kind_of(q) is Leaf ==> a1.children_of(q).len() == 0)
            } by {
            if q != p {
                assert(a0.children_of(q).no_duplicates());
            }
        }
        assert forall|q: NodeId|
            #![trigger a1.children_of(q)]
            a1.is_live(q) && a1.kind_of(q) is Split && q != a1.root && Some(p) != Some(q)
                implies a1.children_of(q).len() > 0 by {
            assert(a0.children_of(q).len() > 0);
        }
        assert forall|y: NodeId| #[trigger] a1.is_live(y) implies a1.depth_of(y) <= a1.max_depth@ by {
            assert(a0.is_live(y));
        }
        assert(a1.wf_parents());
        assert(a1.wf_children());
        assert(a1.wf_depth());
        assert(a1.nonempty_except(Some(p)));
    }

    /// Replacing a split by its only child in the parent's list keeps the tree
    /// well formed.
    pub(crate) proof fn lemma_promote_arena(a0: Arena, a1: Arena, x: NodeId, p: NodeId, idx: int)
        requires
            a0.wf_except(Some(x)),
            a0.is_live(x),
            x != a0.root,
            a0.parent_of(x) == Some(p),
            a0.children_of(x).len() == 1,
            0 <= idx < a0.children_of(p).len(),
            a0.children_of(p)[idx] == x,
            a1.live@ == a0.live@.update(x.0 as int, false),
            a1.kinds == a0.kinds,
            a1.parents@ == a0.parents@.update(a0.children_of(x)[0].0 as int, Some(p)),
            a1.depth == a0.depth,
            a1.max_depth == a0.max_depth,
            a1.root == a0.root,
            a1.children@.len() == a0.children@.len(),
            forall|q: NodeId|
                #![trigger a1.children_of(q)]
                q != p && q.0 < a0.children@.len() ==> a1.children_of(q) == a0.children_of(q),
            a1.children_of(p) == a0.children_of(p).update(idx, a0.children_of(x)[0]),
        ensures
            a1.wf(),
            forall|y: NodeId| #[trigger] a1.is_live(y) <==> (a0.is_live(y) && y != x),
    {
        let c = a0.children_of(x)[0];
        let old_kids = a0.children_of(p);
        let new_kids = a1.children_of(p);
        assert(a0.parent_of(x) is Some);
        a0.lemma_child_desc(x, 0);
        a0.lemma_child_desc(p, idx);
        assert forall|y: NodeId| #[trigger] a1.is_live(y) <==> (a0.is_live(y) && y != x) by {
            if y.0 == x.0 {
                assert(y == x);
            }
        }
        assert(!old_kids.contains(c)) by {
            if old_kids.contains(c) {
                let j = old_kids.index_of(c);
                a0.lemma_child_desc(p, j);
            }
        }
        assert forall|y: NodeId| #![trigger a1.parent_of(y)] y.0 < a0.parents@.len() && y != c implies a1.parent_of(y)
            == a0.parent_of(y) by {
            if y.0 == c.0 {
                assert(y == c);
            }
        }
        assert forall|k: int| 0 <= k < new_kids.len() implies {
            &&& a1.is_live(#[trigger] new_kids[k])
            &&& a1.parent_of(new_kids[k]) == Some(p)
        } by {
            if k != idx {
                assert(new_kids[k] == old_kids[k]);
                a0.lemma_child_desc(p, k);
                assert(old_kids[k] != x);
                assert(old_kids[k] != c);
            }
        }
        assert(new_kids.no_duplicates()) by {
            assert forall|i: int, j: int|
                0 <= i < new_kids.len() && 0 <= j < new_kids.len() && i != j implies new_kids[i]
                    != new_kids[j] by {
                if i == idx {
                    assert(old_kids.contains(new_kids[j]));
                } else if j == idx {
                    assert(old_kids.contains(new_kids[i]));
                } else {
                    assert(new_kids[i] == old_kids[i] && new_kids[j] == old_kids[j]);
                }
            }
        }
        assert forall|y: NodeId|
            #![trigger a1.parent_of(y)]
            a1.is_live(y) && y != a1.root implies {
                &&& a1.parent_of(y) is Some
                &&& a1.is_live(a1.parent_of(y)->0)
                &&& a1.kind_of(a1.parent_of(y)->0) is Split
                &&& a1.children_of(a1.parent_of(y)->0).contains(y)
                &&& a1.depth_of(a1.parent_of(y)->0) < a1.depth_of(y)
            } by {
            if y == c {
                assert(new_kids[idx] == c);
            } else {
                assert(a0.parent_of(y) is Some);
                let q = a0.parent_of(y)->0;
                if q == x {
                    assert(a0.children_of(x).contains(y));
                    assert(y == c);
                }
                if q == p {
                    let j = old_kids.index_of(y);
                    assert(old_kids[j] == y);
                    assert(j != idx);
                    assert(new_kids[j] == y);
                }
            }
        }
        assert forall|q: NodeId, i: int|
            #![trigger a1.children_of(q)[i]]
            a1.is_live(q) && 0 <= i < a1.children_of(q).len() implies {
                &&& a1.is_live(a1.children_of(q)[i])
                &&& a1.parent_of(a1.children_of(q)[i]) == Some(q)
            } by {
            if q != p {
                a0.lemma_child_desc(q, i);
                let y = a0.children_of(q)[i];
                if y == x {
                    assert(a0.parent_of(x) == Some(q));
                }
                if y == c {
                    assert(a0.parent_of(c) == Some(q));
                }
            } else {
                assert(new_kids[i] == a1.children_of(q)[i]);
            }
        }
        assert forall|q: NodeId|
            #![trigger a1.children_of(q)]
            a1.is_live(q) implies {
                &&& a1.children_of(q).no_duplicates()
                &&& (a1.kind_of(q) is Leaf ==> a1.children_of(q).len() == 0)
            } by {
            if q != p {
                assert(a0.children_of(q).no_duplicates());
            }
        }
        assert forall|q: NodeId|
            #![trigger a1.children_of(q)]
            a1.is_live(q) && a1.kind_of(q) is Split && q != a1.root && None::<NodeId> != Some(q)
                implies a1.children_of(q).len() > 0 by {
            if q != p {
                assert(a0.children_of(q).len() > 0);
            }
        }
        assert forall|y: NodeId| #[trigger] a1.is_live(y) implies a1.depth_of(y) <= a1.max_depth@ by {
            assert(a0.is_live(y));
        }
        assert(a1.wf_parents());
        assert(a1.wf_children());
        assert(a1.wf_depth());
        assert(a1.nonempty_except(None));
    }
}

impl TilingTree {
    /// Marks `x` dead and clears its side state and history entries.
    fn retire_node(&mut self, x: NodeId)
        requires
            old(self).wf_modes(),
            x.0 < old(self).slot_count(),
            old(self).arena.wf_shape(),
        ensures
            old(self).keeps_titles(*final(self)),
            final(self).arena.live@ == old(self).arena.live@.update(x.0 as int, false),
            final(self).arena.parents == old(self).arena.parents,
            final(self).arena.kinds == old(self).arena.kinds,
            final(self).arena.children == old(self).arena.children,
            final(self).arena.depth == old(self).arena.depth,
            final(self).arena.max_depth == old(self).arena.max_depth,
            final(self).arena.root == old(self).arena.root,
            final(self).modes@ == old(self).modes@.update(x.0 as int, normal_mode()),
            final(self).previous_layouts@ == old(self).previous_layouts@.update(x.0 as int, None),
            final(self).focus == old(self).focus,
            final(self).history() == without(old(self).history(), x),
    {
        self.arena.live.set(x.0 as usize, false);
        self.modes.set(x.0 as usize, PendingMode { fullscreen: None, maximized: false });
        self.previous_layouts.set(x.0 as usize, None);
        self.drop_from_history(x);
    }

    /// Side state and history stay consistent when a node dies.
    proof fn lemma_retire_side(t0: Self, t1: Self, x: NodeId)
        requires
            modes_ok(t0.arena, t0.modes@, t0.previous_layouts@),
            t0.focus_history@.no_duplicates(),
            forall|i: int| 0 <= i < t0.focus_history@.len() ==> #[trigger] t0.arena.is_live(t0.focus_history@[i]),
            forall|y: NodeId| #[trigger] t1.arena.is_live(y) <==> (t0.arena.is_live(y) && y != x),
            forall|y: NodeId| #[trigger] t1.arena.is_live(y) ==> t1.arena.kind_of(y) == t0.arena.kind_of(y),
            t1.arena.live@.len() == t0.arena.live@.len(),
            x.0 < t0.arena.live@.len(),
            t1.modes@ == t0.modes@.update(x.0 as int, normal_mode()),
            t1.previous_layouts@ == t0.previous_layouts@.update(x.0 as int, None),
            t1.focus_history@ == without(t0.focus_history@, x),
        ensures
            modes_ok(t1.arena, t1.modes@, t1.previous_layouts@),
            t1.focus_history@.no_duplicates(),
            forall|i: int| 0 <= i < t1.focus_history@.len() ==> #[trigger] t1.arena.is_live(t1.focus_history@[i]),
    {
        assert forall|y: NodeId|
            #![trigger t1.modes@[y.0 as int]]
            y.0 < t1.arena.live@.len() implies {
                &&& (!t1.arena.is_live(y) ==> t1.modes@[y.0 as int] == normal_mode()
                    && t1.previous_layouts@[y.0 as int] is None)
                &&& (t1.arena.is_live(y) && t1.arena.kind_of(y) is Split
                    ==> !t1.modes@[y.0 as int].maximized)
            } by {
            let _ = t0.modes@[y.0 as int];
            if y.0 == x.0 {
                assert(y == x);
            }
        }
        lemma_without(t0.focus_history@, x);
        assert forall|i: int| 0 <= i < t1.focus_history@.len() implies #[trigger] t1.arena.is_live(
            t1.focus_history@[i],
        ) by {
            let y = t1.focus_history@[i];
            assert(t1.focus_history@.contains(y));
            let k = choose|k: int| 0 <= k < t0.focus_history@.len() && t0.focus_history@[k] == y;
            assert(t0.arena.is_live(t0.focus_history@[k]));
        }
    }

    /// Removes childless node `x` from the tree; its parent `p` may be left empty.
    pub(crate) fn unlink_node(&mut self, x: NodeId, p: NodeId)
        requires
            old(self).wf_but_focus_except(Some(x)),
            old(self).is_live(x),
            x != old(self).root_id(),
            old(self).parent_of(x) == Some(p),
            old(self).children_of(x).len() == 0,
        ensures
            old(self).keeps_titles(*final(self)),
            final(self).wf_but_focus_except(Some(p)),
            forall|y: NodeId| #[trigger] final(self).is_live(y) <==> (old(self).is_live(y) && y != x),
            forall|y: NodeId| #[trigger] final(self).is_live(y) ==> final(self).kind_of(y) == old(self).kind_of(y)
                && final(self).mode_of(y) == old(self).mode_of(y),
            final(self).focus == old(self).focus,
            final(self).root_id() == old(self).root_id(),
            count_true(final(self).arena.live@) + 1 == count_true(old(self).arena.live@),
            final(self).leaf_order() == without(old(self).leaf_order(), x),
            old(self).kind_of(x) is Split ==> final(self).leaf_order() == old(self).leaf_order(),
            forall|y: NodeId, a: NodeId|
                #![trigger final(self).is_desc(y, a)]
                final(self).is_live(y) && final(self).is_live(a) ==> final(self).is_desc(y, a) == old(
                    self,
                ).is_desc(y, a),
    {
        let ghost t0 = *self;
        let ghost a0 = self.arena;
        assert(self.parent_of(x) is Some);
        let idx = self.index_of_child(p, x);
        self.arena.children[p.0 as usize].remove(idx);
        self.retire_node(x);
        proof {
            assert forall|q: NodeId|
                #![trigger self.arena.children_of(q)]
                q != p && q.0 < a0.children@.len() implies self.arena.children_of(q) == a0.children_of(q) by {}
            Arena::lemma_unlink_arena(a0, self.arena, x, p, idx as int, Some(x));
            Arena::lemma_unlink_ancestry(a0, self.arena);
            assert forall|q: NodeId|
                #![trigger self.arena.children_of(q)]
                q != p && a0.is_live(q) implies self.arena.children_of(q) == a0.children_of(q) by {
                assert(q.0 < a0.children@.len());
            }
            Arena::lemma_unlink_order(a0, self.arena, x, p, idx as int);
            self.lemma_leaf_order();
            t0.lemma_leaf_order();
            if t0.kind_of(x) is Split {
                a0.lemma_leaves_in(a0.root);
                super::focus::lemma_without(a0.leaves_in(a0.root), x);
            }
            TilingTree::lemma_retire_side(t0, *self, x);
            lemma_count_update(a0.live@, x.0 as int);
            assert forall|y: NodeId| #[trigger] self.is_live(y) implies self.kind_of(y) == t0.kind_of(y)
                && self.mode_of(y) == t0.mode_of(y) by {
                assert(y != x);
            }
        }
    }

    /// Puts the only child of split `x` in the place of `x` in parent `p`; a
    /// pending fullscreen of `x` passes to the child, and so does a focus on `x`.
    fn promote_only_child(&mut self, x: NodeId, p: NodeId)
        requires
            old(self).wf_but_focus_except(Some(x)),
            old(self).is_live(x),
            x != old(self).root_id(),
            old(self).parent_of(x) == Some(p),
            old(self).kind_of(x) is Split,
            old(self).children_of(x).len() == 1,
        ensures
            old(self).keeps_titles(*final(self)),
            final(self).wf_but_focus(),
            forall|y: NodeId| #[trigger] final(self).is_live(y) <==> (old(self).is_live(y) && y != x),
            forall|y: NodeId| #[trigger] final(self).is_live(y) ==> final(self).kind_of(y) == old(self).kind_of(y)
                && final(self).mode_of(y).maximized == old(self).mode_of(y).maximized,
            old(self).focus == Some(x) ==> final(self).focus == Some(old(self).children_of(x)[0]),
            old(self).focus != Some(x) ==> final(self).focus == old(self).focus,
            final(self).root_id() == old(self).root_id(),
            count_true(final(self).arena.live@) + 1 == count_true(old(self).arena.live@),
            final(self).leaf_order() == old(self).leaf_order(),
            forall|y: NodeId, a: NodeId|
                #![trigger final(self).is_desc(y, a)]
                final(self).is_live(y) && final(self).is_live(a) ==> final(self).is_desc(y, a) == old(
                    self,
                ).is_desc(y, a),
    {
        let ghost t0 = *self;
        let ghost a0 = self.arena;
        assert(self.parent_of(x) is Some);
        assert(self.modes@.len() == a0.live@.len());
        let c = self.arena.children[x.0 as usize][0];
        proof {
            self.arena.lemma_child_desc(x, 0);
        }
        let idx = self.index_of_child(p, x);
        self.arena.children[p.0 as usize].set(idx, c);
        self.arena.parents.set(c.0 as usize, Some(p));
        if let Some(fs) = self.modes[x.0 as usize].fullscreen {
            let mut m = self.modes[c.0 as usize];
            m.fullscreen = Some(fs);
            self.modes.set(c.0 as usize, m);
        }
        if self.focus == Some(x) {
            self.set_focus_id(Some(c));
        }
        let ghost t_mid = *self;
        self.retire_node(x);
        proof {
            assert forall|q: NodeId|
                #![trigger self.arena.children_of(q)]
                q != p && q.0 < a0.children@.len() implies self.arena.children_of(q) == a0.children_of(q) by {}
            Arena::lemma_promote_arena(a0, self.arena, x, p, idx as int);
            Arena::lemma_promote_ancestry(a0, self.arena, x, c);
            assert forall|q: NodeId|
                #![trigger self.arena.children_of(q)]
                q != p && self.arena.is_live(q) implies self.arena.children_of(q) == a0.children_of(q) by {
                assert(q.0 < a0.children@.len());
            }
            Arena::lemma_promote_order(a0, self.arena, x, p, idx as int);
            self.lemma_leaf_order();
            t0.lemma_leaf_order();
            assert(modes_ok(a0, t_mid.modes@, t_mid.previous_layouts@)) by {
                assert forall|y: NodeId|
                    #![trigger t_mid.modes@[y.0 as int]]
                    y.0 < a0.live@.len() implies {
                        &&& (!a0.is_live(y) ==> t_mid.modes@[y.0 as int] == normal_mode()
                            && t_mid.previous_layouts@[y.0 as int] is None)
                        &&& (a0.is_live(y) && a0.kind_of(y) is Split ==> !t_mid.modes@[y.0 as int].maximized)
                    } by {
                    let _ = t0.modes@[y.0 as int];
                }
            }
            let h_mid = t_mid.focus_history@;
            if t0.focus == Some(x) {
                lemma_without(t0.focus_history@, c);
                let w = without(t0.focus_history@, c);
                assert(h_mid == seq![c] + w);
                assert(h_mid.no_duplicates()) by {
                    assert forall|i: int, j: int|
                        0 <= i < h_mid.len() && 0 <= j < h_mid.len() && i != j implies h_mid[i] != h_mid[j] by {
                        if i == 0 {
                            assert(w.contains(h_mid[j]));
                        } else if j == 0 {
                            assert(w.contains(h_mid[i]));
                        } else {
                            assert(h_mid[i] == w[i - 1] && h_mid[j] == w[j - 1]);
                        }
                    }
                }
                assert forall|i: int| 0 <= i < h_mid.len() implies #[trigger] a0.is_live(h_mid[i]) by {
                    if i > 0 {
                        assert(w.contains(h_mid[i]));
                        let k = choose|k: int| 0 <= k < t0.focus_history@.len() && t0.focus_history@[k] == h_mid[i];
                        assert(a0.is_live(t0.focus_history@[k]));
                    }
                }
            }
            let t_mid2 = TilingTree { arena: a0, ..t_mid };
            TilingTree::lemma_retire_side(t_mid2, *self, x);
            lemma_count_update(a0.live@, x.0 as int);
            assert forall|y: NodeId| #[trigger] self.is_live(y) implies self.kind_of(y) == t0.kind_of(y)
                && self.mode_of(y).maximized == t0.mode_of(y).maximized by {
                assert(y != x);
                let _ = t0.modes@[y.0 as int];
            }
        }
    }

    /// Only the exempted split may be empty; once it is not (or is gone), the
    /// tree is fully well formed.
    pub(crate) proof fn lemma_exception_cleared(self, e: NodeId)
        requires
            self.wf_but_focus_except(Some(e)),
            !self.is_live(e) || self.kind_of(e) is Leaf || e == self.root_id() || self.children_of(e).len() > 0,
        ensures
            self.wf_but_focus(),
    {
        assert forall|q: NodeId|
            #![trigger self.arena.children_of(q)]
            self.arena.is_live(q) && self.arena.kind_of(q) is Split && q != self.arena.root && None::<NodeId> != Some(q)
                implies self.arena.children_of(q).len() > 0 by {
            if q != e {
                let _ = self.arena.children_of(q);
            }
        }
        assert(self.arena.nonempty_except(None));
    }

    /// Walks up from `start` removing empty splits and replacing single-child
    /// splits by their child, stopping at the root or at a split with two or
    /// more children. A focus on a removed empty split moves to its parent; a
    /// focus on a replaced split moves to its child.
    pub(crate) fn collapse_from(&mut self, start: NodeId)
        requires
            old(self).wf_but_focus_except(Some(start)),
        ensures
            old(self).keeps_titles(*final(self)),
            final(self).wf_but_focus(),
            forall|y: NodeId| #[trigger] final(self).is_live(y) ==> old(self).is_live(y)
                && final(self).kind_of(y) == old(self).kind_of(y)
                && final(self).mode_of(y).maximized == old(self).mode_of(y).maximized,
            forall|y: NodeId| #[trigger] old(self).is_leaf_node(y) ==> final(self).is_leaf_node(y),
            old(self).focus is Some <==> final(self).focus is Some,
            old(self).focus matches Some(f) && old(self).is_live(f) ==> final(self).is_live(final(self).focus->0),
            old(self).focus matches Some(f) && !old(self).is_live(f) ==> final(self).focus == old(self).focus,
            old(self).focus matches Some(f) && final(self).is_live(f) ==> final(self).focus == old(self).focus,
            final(self).root_id() == old(self).root_id(),
            final(self).leaf_order() == old(self).leaf_order(),
            forall|y: NodeId, a: NodeId|
                #![trigger final(self).is_desc(y, a)]
                final(self).is_live(y) && final(self).is_live(a) ==> final(self).is_desc(y, a) == old(
                    self,
                ).is_desc(y, a),
    {
        let ghost t0 = *self;
        let mut cur = start;
        loop
            invariant
                old(self).keeps_titles(*self),
                self.leaf_order() == t0.leaf_order(),
                forall|y: NodeId, a: NodeId|
                    #![trigger self.is_desc(y, a)]
                    self.is_live(y) && self.is_live(a) ==> self.is_desc(y, a) == t0.is_desc(y, a),
                self.wf_but_focus_except(Some(cur)),
                t0 == *old(self),
                forall|y: NodeId| #[trigger] self.is_live(y) ==> t0.is_live(y)
                    && self.kind_of(y) == t0.kind_of(y)
                    && self.mode_of(y).maximized == t0.mode_of(y).maximized,
                forall|y: NodeId| #[trigger] t0.is_leaf_node(y) ==> self.is_leaf_node(y),
                t0.focus is Some <==> self.focus is Some,
                t0.focus matches Some(f) && t0.is_live(f) ==> self.is_live(self.focus->0),
                t0.focus matches Some(f) && !t0.is_live(f) ==> self.focus == t0.focus,
                t0.focus matches Some(f) && self.is_live(f) ==> self.focus == t0.focus,
                self.root_id() == t0.root_id(),
            decreases count_true(self.arena.live@),
        {
            if !self.is_live_exec(cur) || cur == self.arena.root {
                proof {
                    self.lemma_exception_cleared(cur);
                }
                return;
            }
            let parent = match self.arena.parents[cur.0 as usize] {
                Some(p) => p,
                None => {
                    assert(self.parent_of(cur) is Some);
                    return;
                },
            };
            assert(self.parent_of(cur) is Some);
            let n = match self.arena.kinds[cur.0 as usize] {
                NodeKind::Leaf(_) => {
                    proof {
                        self.lemma_exception_cleared(cur);
                    }
                    return;
                },
                NodeKind::Split(_) => self.arena.children[cur.0 as usize].len(),
            };
            if n == 0 {
                let ghost before = *self;
                if self.focus == Some(cur) {
                    self.set_focus_id(Some(parent));
                    proof {
                        super::focus::lemma_history_front_ok(before.arena, before.focus_history@, parent);
                    }
                }
                let ghost mid = *self;
                proof {
                    mid.lemma_leaf_order();
                    before.lemma_leaf_order();
                }
                self.unlink_node(cur, parent);
                proof {
                    assert forall|y: NodeId, a: NodeId|
                        #![trigger self.is_desc(y, a)]
                        self.is_live(y) && self.is_live(a) implies self.is_desc(y, a) == t0.is_desc(y, a) by {
                        assert(mid.is_live(y) && mid.is_live(a));
                        assert(self.is_desc(y, a) == mid.is_desc(y, a));
                        assert(mid.is_desc(y, a) == before.is_desc(y, a));
                    }
                    assert forall|y: NodeId| #[trigger] t0.is_leaf_node(y) implies self.is_leaf_node(y) by {
                        assert(before.is_leaf_node(y));
                        assert(y != cur);
                        assert(mid.is_live(y));
                        assert(self.is_live(y));
                    }
                    assert forall|y: NodeId| #[trigger] self.is_live(y) implies t0.is_live(y)
                        && self.kind_of(y) == t0.kind_of(y)
                        && self.mode_of(y).maximized == t0.mode_of(y).maximized by {
                        assert(mid.is_live(y));
                        assert(before.is_live(y));
                    }
                    if let Some(f) = t0.focus {
                        if t0.is_live(f) {
                            let g = self.focus->0;
                            assert(before.is_live(before.focus->0));
                            if before.focus == Some(cur) {
                                assert(self.focus == Some(parent));
                                assert(self.is_live(parent));
                            } else {
                                assert(self.focus == before.focus);
                                assert(mid.is_live(g));
                                assert(g != cur);
                                assert(self.is_live(g));
                            }
                        }
                    }
                }
                cur = parent;
            } else if n == 1 {
                let ghost before = *self;
                self.promote_only_child(cur, parent);
                proof {
                    assert forall|y: NodeId, a: NodeId|
                        #![trigger self.is_desc(y, a)]
                        self.is_live(y) && self.is_live(a) implies self.is_desc(y, a) == t0.is_desc(y, a) by {
                        assert(before.is_live(y) && before.is_live(a));
                        assert(self.is_desc(y, a) == before.is_desc(y, a));
                    }
                    assert(self.wf_but_focus_except(Some(parent)));
                    assert forall|y: NodeId| #[trigger] t0.is_leaf_node(y) implies self.is_leaf_node(y) by {
                        assert(before.is_leaf_node(y));
                        assert(y != cur);
                        assert(self.is_live(y));
                    }
                    assert forall|y: NodeId| #[trigger] self.is_live(y) implies t0.is_live(y)
                        && self.kind_of(y) == t0.kind_of(y)
                        && self.mode_of(y).maximized == t0.mode_of(y).maximized by {
                        assert(before.is_live(y));
                    }
                    if let Some(f) = t0.focus {
                        if t0.is_live(f) {
                            assert(before.is_live(before.focus->0));
                            if before.focus == Some(cur) {
                                before.arena.lemma_child_desc(cur, 0);
                                let c = before.children_of(cur)[0];
                                assert(self.focus == Some(c));
                                assert(c != cur);
                                assert(self.is_live(c));
                            } else {
                                assert(before.focus->0 != cur);
                                assert(self.is_live(self.focus->0));
                            }
                        } else {
                            assert(before.focus == t0.focus);
                            assert(before.focus != Some(cur));
                        }
                    }
                }
                cur = parent;
            } else {
                proof {
                    self.lemma_exception_cleared(cur);
                }
                return;
            }
        }
    }

    /// `new` is `self` without leaf `id`, whose window `r` gives back; the
    /// other windows stay in their leaves. When `id` is no leaf, `r` is `None`
    /// and nothing changes.
    pub open spec fn leaf_removed(self, new: Self, id: NodeId, r: Option<u64>) -> bool {
        &&& r == (if self.is_leaf_node(id) {
            Some(self.window_of(id))
        } else {
            None
        })
        &&& !self.is_leaf_node(id) ==> new == self
        &&& forall|x: NodeId|
            #[trigger] self.is_leaf_node(x) && x != id ==> new.is_leaf_node(x) && new.kind_of(x) == self.kind_of(x)
        &&& forall|x: NodeId| #[trigger] new.is_leaf_node(x) ==> self.is_leaf_node(x) && x != id
    }

    /// The first entry of the focus history, other than `id`, that is a leaf.
    fn first_history_leaf_except(&self, id: NodeId) -> (r: Option<NodeId>)
        requires
            self.structure_ok(),
        ensures
            r matches Some(l) ==> exists|k: int|
                0 <= k < self.history().len() && self.history()[k] == l && l != id && #[trigger] self.is_leaf_node(
                    self.history()[k],
                ) && forall|j: int|
                    0 <= j < k ==> !(self.history()[j] != id && #[trigger] self.is_leaf_node(self.history()[j])),
            r is None ==> forall|k: int|
                0 <= k < self.history().len() ==> !(self.history()[k] != id && #[trigger] self.is_leaf_node(
                    self.history()[k],
                )),
    {
        let n = self.focus_history.len();
        for k in 0..n
            invariant
                self.structure_ok(),
                n == self.history().len(),
                forall|j: int| 0 <= j < k ==> !(self.history()[j] != id && #[trigger] self.is_leaf_node(self.history()[j])),
        {
            let c = self.focus_history[k];
            if c.0 != id.0 && self.is_live_exec(c) && matches!(self.arena.kinds[c.0 as usize], NodeKind::Leaf(_)) {
                assert(self.history()[k as int] == c);
                assert(self.is_leaf_node(c));
                return Some(c);
            }
            assert(!(self.history()[k as int] != id && self.is_leaf_node(self.history()[k as int])));
        }
        None
    }

    /// Removes leaf `id`, collapsing the splits this leaves empty or with a
    /// single child and compacting the tree. When no window is left, all
    /// pending modes are cleared and nothing is focused; when the focused leaf
    /// was removed, focus goes to the most recently focused leaf below the
    /// fullscreen node, or else below the root. Returns the removed window.
    pub fn remove_tile_node(&mut self, id: NodeId) -> (r: Option<u64>)
        requires
            old(self).wf(),
        ensures
            old(self).keeps_titles(*final(self)),
            final(self).wf(),
            old(self).leaf_removed(*final(self), id, r),
            final(self).has_leaf() ==> (old(self).focus_id() matches Some(f) && f != id && final(self).is_live(f)
                ==> final(self).focus_id() == old(self).focus_id()),
            final(self).focus_id() matches Some(f) ==> final(self).is_live(f),
            old(self).is_leaf_node(id) && old(self).focus_id() == Some(id) && final(self).has_leaf() ==> final(self).is_leaf_node(
                final(self).focus_id()->0,
            ),
            old(self).is_leaf_node(id) && !final(self).has_leaf() ==> forall|x: NodeId|
                #![trigger final(self).mode_of(x)]
                final(self).is_live(x) ==> final(self).mode_of(x) == normal_mode(),
            final(self).root_id() == old(self).root_id(),
            final(self).leaf_order() == without(old(self).leaf_order(), id),
            forall|y: NodeId| #[trigger] final(self).is_live(y) ==> old(self).is_live(y) && final(self).kind_of(y)
                == old(self).kind_of(y),
            forall|x: NodeId, a: NodeId|
                #![trigger final(self).is_desc(x, a)]
                final(self).is_live(x) && final(self).is_live(a) ==> final(self).is_desc(x, a) == old(
                    self,
                ).is_desc(x, a),
            old(self).is_leaf_node(id) ==> final(self).compacted(),
            old(self).is_leaf_node(id) && old(self).focus_id() == Some(id) && final(self).fullscreen_spec() is Some
                && (exists|x: NodeId|
                #[trigger] final(self).is_leaf_node(x) && final(self).is_desc(x, final(self).fullscreen_spec()->0))
                ==> (final(self).focus_id() matches Some(l) && final(self).is_leaf_node(l) && final(self).is_desc(
                l,
                final(self).fullscreen_spec()->0,
            )),
            old(self).is_leaf_node(id) && old(self).focus_id() == Some(id) && final(self).fullscreen_spec() is None
                && final(self).has_leaf() && !(exists|k: int|
                0 <= k < old(self).history().len() && old(self).history()[k] != id && #[trigger] old(
                    self,
                ).is_leaf_node(old(self).history()[k])) ==> final(self).focus_id() == Some(final(self).leaf_order()[0]),
            old(self).is_leaf_node(id) && old(self).focus_id() == Some(id) && final(self).fullscreen_spec() is None
                && (exists|k: int|
                0 <= k < old(self).history().len() && old(self).history()[k] != id && #[trigger] old(
                    self,
                ).is_leaf_node(old(self).history()[k])) ==> exists|k: int|
                0 <= k < old(self).history().len() && old(self).history()[k] != id && #[trigger] old(
                    self,
                ).is_leaf_node(old(self).history()[k]) && final(self).focus_id() == Some(old(self).history()[k])
                    && forall|j: int|
                    0 <= j < k ==> !(old(self).history()[j] != id && #[trigger] old(self).is_leaf_node(
                        old(self).history()[j],
                    )),
    {
        let ghost t0 = *self;
        proof {
            t0.lemma_leaf_order();
            t0.arena.lemma_leaves_in(t0.arena.root);
            lemma_without(t0.leaf_order(), id);
        }
        if !self.is_live_exec(id) {
            return None;
        }
        let window = match self.arena.kinds[id.0 as usize] {
            NodeKind::Leaf(w) => w,
            NodeKind::Split(_) => {
                return None;
            },
        };
        assert(id != self.root_id());
        assert(self.parent_of(id) is Some);
        let recent = self.first_history_leaf_except(id);
        let parent = self.arena.parents[id.0 as usize].unwrap();
        assert(self.children_of(id).len() == 0);
        self.unlink_node(id, parent);
        let ghost t1 = *self;
        self.collapse_from(parent);
        let ghost t2 = *self;
        self.compact_tree();
        let ghost t3 = *self;
        proof {
            assert forall|x: NodeId| #[trigger] t0.is_leaf_node(x) && x != id implies self.is_leaf_node(x)
                && self.kind_of(x) == t0.kind_of(x) by {
                assert(t1.is_live(x));
                assert(t1.is_leaf_node(x));
                assert(t2.is_leaf_node(x));
                assert(self.is_leaf_node(x));
                assert(self.is_live(x));
                assert(t2.is_live(x));
            }
            assert forall|x: NodeId| #[trigger] self.is_leaf_node(x) implies t0.is_leaf_node(x) && x != id by {
                assert(self.is_live(x));
                assert(t2.is_live(x));
                assert(t1.is_live(x));
            }
            assert(!t1.is_live(id));
        }
        let first = self.first_leaf_in(self.arena.root);
        proof {
            self.lemma_root_leaves();
            self.arena.lemma_leaves_in(self.arena.root);
        }
        if first.is_none() {
            let n = self.modes.len();
            for k in 0..n
                invariant
                    old(self).keeps_titles(*self),
                    n == self.modes@.len(),
                    self.arena == t3.arena,
                    self.previous_layouts == t3.previous_layouts,
                    self.focus_history == t3.focus_history,
                    self.focus == t3.focus,
                    forall|j: int| 0 <= j < k ==> self.modes@[j] == normal_mode(),
            {
                self.modes.set(k, PendingMode { fullscreen: None, maximized: false });
            }
            proof {
                assert(modes_ok(self.arena, self.modes@, self.previous_layouts@)) by {
                    assert forall|y: NodeId|
                        #![trigger self.modes@[y.0 as int]]
                        y.0 < self.arena.live@.len() implies {
                            &&& (!self.arena.is_live(y) ==> self.modes@[y.0 as int] == normal_mode()
                                && self.previous_layouts@[y.0 as int] is None)
                            &&& (self.arena.is_live(y) && self.arena.kind_of(y) is Split
                                ==> !self.modes@[y.0 as int].maximized)
                        } by {
                        let _ = t3.modes@[y.0 as int];
                    }
                }
            }
            proof {
                if exists|k: int|
                    0 <= k < t0.history().len() && t0.history()[k] != id && #[trigger] t0.is_leaf_node(t0.history()[k]) {
                    let k = choose|k: int|
                        0 <= k < t0.history().len() && t0.history()[k] != id && #[trigger] t0.is_leaf_node(
                            t0.history()[k],
                        );
                    let l = t0.history()[k];
                    assert(t3.is_leaf_node(l));
                    assert(t3.leaves_in(t3.root_id()).contains(l));
                }
            }
            self.focus_node(None);
        } else if self.focus == Some(id) {
            let from_fullscreen = match self.fullscreen_node() {
                Some(fs) => self.focused_leaf_in(fs),
                None => None,
            };
            let target = match from_fullscreen {
                Some(l) => Some(l),
                None => match recent {
                    Some(l) => Some(l),
                    None => first,
                },
            };
            proof {
                self.lemma_focused_leaf(self.root_id());
                if let Some(fs) = self.fullscreen_spec() {
                    self.lemma_focused_leaf(fs);
                }
                let l = self.leaves_in(self.root_id())[0];
                assert(self.leaves_in(self.root_id()).contains(l));
                self.lemma_leaf_has_leaf(target->0);
            }
            let ghost before_focus = *self;
            self.focus_node(target);
            proof {
                TilingTree::lemma_fullscreen_same_nodes(*self, before_focus, 0);
                if let Some(fs) = self.fullscreen_spec() {
                    before_focus.lemma_focused_leaf(fs);
                    if exists|x: NodeId| #[trigger] self.is_leaf_node(x) && self.is_desc(x, fs) {
                        let x = choose|x: NodeId| #[trigger] self.is_leaf_node(x) && self.is_desc(x, fs);
                        assert(before_focus.is_leaf_node(x) && before_focus.is_desc(x, fs));
                    }
                }
                if exists|k: int|
                    0 <= k < t0.history().len() && t0.history()[k] != id && #[trigger] t0.is_leaf_node(t0.history()[k]) {
                    assert(recent is Some);
                }
            }
        } else {
            proof {
                if let Some(f) = t0.focus {
                    assert(t0.is_live(f));
                    assert(f != id);
                    assert(t1.is_live(f));
                    assert(self.is_live(self.focus->0));
                    if self.is_live(f) {
                        assert(t2.is_live(f));
                        assert(t2.focus == t1.focus);
                        assert(t1.focus == t0.focus);
                    }
                }
                assert(focus_ok(self.arena, self.focus, self.focus_history@));
            }
        }
        proof {
            assert(self.arena == t3.arena);
            assert forall|y: NodeId| #[trigger] self.is_live(y) implies t0.is_live(y) && self.kind_of(y)
                == t0.kind_of(y) by {
                assert(t3.is_live(y));
                assert(t2.is_live(y));
                assert(t1.is_live(y));
            }
            assert forall|x: NodeId, a: NodeId|
                #![trigger self.is_desc(x, a)]
                self.is_live(x) && self.is_live(a) implies self.is_desc(x, a) == t0.is_desc(x, a) by {
                assert(t3.is_desc(x, a) == self.is_desc(x, a));
                assert(t3.is_live(x) && t3.is_live(a));
                assert(t2.is_live(x) && t2.is_live(a));
                assert(t3.is_desc(x, a) == t2.is_desc(x, a));
                assert(t1.is_live(x) && t1.is_live(a));
                assert(t2.is_desc(x, a) == t1.is_desc(x, a));
                assert(t1.is_desc(x, a) == t0.is_desc(x, a));
            }
            assert forall|x: NodeId| #[trigger] self.is_live(x) implies !self.squashable(x) by {
                assert(t3.is_live(x));
            }
            self.lemma_leaf_order();
            t3.lemma_leaf_order();
            assert forall|x: NodeId| #[trigger] t0.is_leaf_node(x) && x != id implies self.is_leaf_node(x)
                && self.kind_of(x) == t0.kind_of(x) by {
                assert(t3.is_leaf_node(x));
            }
            assert forall|x: NodeId| #[trigger] self.is_leaf_node(x) implies t0.is_leaf_node(x) && x != id by {
                assert(t3.is_leaf_node(x));
            }
        }
        Some(window)
    }

    /// Removes the leaf holding `window` (see `remove_tile_node`).
    pub fn remove_tile(&mut self, window: u64) -> (r: Option<u64>)
        requires
            old(self).wf(),
        ensures
            old(self).keeps_titles(*final(self)),
            final(self).wf(),
            old(self).node_for_window_spec(window) is None ==> r is None && *final(self) == *old(self),
            old(self).node_for_window_spec(window) is Some ==> r == Some(window),
            forall|x: NodeId| #[trigger] final(self).is_leaf_node(x) ==> old(self).is_leaf_node(x)
                && Some(x) != old(self).node_for_window_spec(window),
            old(self).node_for_window_spec(window) matches Some(l) ==> final(self).leaf_order() == without(
                old(self).leaf_order(),
                l,
            ),
            old(self).node_for_window_spec(window) matches Some(l) ==> (old(self).focus_id() == Some(l)
                && final(self).fullscreen_spec() is None && (exists|k: int|
                0 <= k < old(self).history().len() && old(self).history()[k] != l && #[trigger] old(
                    self,
                ).is_leaf_node(old(self).history()[k])) ==> exists|k: int|
                0 <= k < old(self).history().len() && old(self).history()[k] != l && #[trigger] old(
                    self,
                ).is_leaf_node(old(self).history()[k]) && final(self).focus_id() == Some(old(self).history()[k])
                    && forall|j: int|
                    0 <= j < k ==> !(old(self).history()[j] != l && #[trigger] old(self).is_leaf_node(
                        old(self).history()[j],
                    ))),
    {
        let Some(id) = self.node_for_window(window) else {
            return None;
        };
        proof {
            self.lemma_node_for_window(window);
        }
        self.remove_tile_node(id)
    }
}

} // verus!
