//! Moving subtrees within the tree.
use vstd::prelude::*;
use super::{Arena, Direction, Layout, NodeId, NodeKind, TilingTree, count_true, focus_ok, modes_ok, normal_mode};
use super::focus::{lemma_without, without};

verus! {

/// `s` with the entry at `from` moved to position `to`.
pub open spec fn reorder(s: Seq<NodeId>, from: int, to: int) -> Seq<NodeId> {
    s.remove(from).insert(to, s[from])
}

impl Arena {
    /// Reordering the children of a node keeps the arena well formed.
    pub(crate) proof fn lemma_reorder_arena(a0: Arena, a1: Arena, p: NodeId, from: int, to: int)
        requires
            a0.wf(),
            a0.is_live(p),
            0 <= from < a0.children_of(p).len(),
            0 <= to < a0.children_of(p).len(),
            a1.live == a0.live,
            a1.parents == a0.parents,
            a1.kinds == a0.kinds,
            a1.depth == a0.depth,
            a1.max_depth == a0.max_depth,
            a1.root == a0.root,
            a1.children@.len() == a0.children@.len(),
            forall|q: NodeId|
                #![trigger a1.children_of(q)]
                q != p && q.0 < a0.children@.len() ==> a1.children_of(q) == a0.children_of(q),
            a1.children_of(p) == reorder(a0.children_of(p), from, to),
        ensures
            a1.wf(),
            forall|x: NodeId| #[trigger] a1.is_live(x) == a0.is_live(x),
    {
        let old_kids = a0.children_of(p);
        let new_kids = a1.children_of(p);
        let r = old_kids.remove(from);
        assert forall|x: NodeId| #[trigger] new_kids.contains(x) <==> old_kids.contains(x) by {
            if old_kids.contains(x) {
                let j = old_kids.index_of(x);
                if j == from {
                    assert(new_kids[to] == x);
                } else if j < from {
                    assert(r[j] == x);
                    if j < to { assert(new_kids[j] == x); } else { assert(new_kids[j + 1] == x); }
                } else {
                    assert(r[j - 1] == x);
                    if j - 1 < to { assert(new_kids[j - 1] == x); } else { assert(new_kids[j] == x); }
                }
            }
            if new_kids.contains(x) {
                let j = new_kids.index_of(x);
                if j == to {
                    assert(old_kids[from] == x);
                } else {
                    let k = if j < to { j } else { j - 1 };
                    assert(r[k] == x);
                    if k < from { assert(old_kids[k] == x); } else { assert(old_kids[k + 1] == x); }
                }
            }
        }
        assert(new_kids.no_duplicates()) by {
            assert(r.no_duplicates()) by {
                assert forall|i: int, j: int| 0 <= i < r.len() && 0 <= j < r.len() && i != j implies r[i] != r[j] by {
                    let oi = if i < from { i } else { i + 1 };
                    let oj = if j < from { j } else { j + 1 };
                    assert(r[i] == old_kids[oi] && r[j] == old_kids[oj]);
                }
            }
            assert(!r.contains(old_kids[from])) by {
                if r.contains(old_kids[from]) {
                    let k = r.index_of(old_kids[from]);
                    let ok = if k < from { k } else { k + 1 };
                    assert(r[k] == old_kids[ok]);
                }
            }
            assert forall|i: int, j: int|
                0 <= i < new_kids.len() && 0 <= j < new_kids.len() && i != j implies new_kids[i] != new_kids[j] by {
                if i == to {
                    let kj = if j < to { j } else { j - 1 };
                    assert(new_kids[j] == r[kj]);
                } else if j == to {
                    let ki = if i < to { i } else { i - 1 };
                    assert(new_kids[i] == r[ki]);
                } else {
                    let ki = if i < to { i } else { i - 1 };
                    let kj = if j < to { j } else { j - 1 };
                    assert(new_kids[i] == r[ki] && new_kids[j] == r[kj]);
                }
            }
        }
        assert forall|q: NodeId, i: int|
            #![trigger a1.children_of(q)[i]]
            a1.is_live(q) && 0 <= i < a1.children_of(q).len() implies {
                &&& a1.is_live(a1.children_of(q)[i])
                &&& a1.parent_of(a1.children_of(q)[i]) == Some(q)
            } by {
            if q != p {
                a0.lemma_child_desc(q, i);
            } else {
                let x = new_kids[i];
                assert(new_kids.contains(x));
                let j = old_kids.index_of(x);
                a0.lemma_child_desc(p, j);
            }
        }
        assert forall|y: NodeId|
            #![trigger a1.parent_of(y)]
            a1.is_live(y) && y != a1.root implies {
                &&& a1.parent_of(y) is Some
                &&& a1.is_live(a1.parent_of(y)->0)
                &&& a1.kind_of(a1.parent_of(y)->0) is Split
                &&& a1.children_of(a1.parent_of(y)->0).contains(y)
                &&& a1.depth_of(a1.parent_of(y)->0) < a1.depth_of(y)
            } by {
            assert(a0.parent_of(y) is Some);
            let q = a0.parent_of(y)->0;
            if q == p {
                assert(old_kids.contains(y));
            }
        }
        assert forall|q: NodeId|
            #![trigger a1.children_of(q)]
            a1.is_live(q) implies {
                &&& a1.children_of(q).no_duplicates()
                &&& (a1.kind_of(q) is Leaf ==> a1.children_of(q).len() == 0)
            } by {
            if q != p {
                assert(a0.children_of(q).no_duplicates());
            }
        }
        assert forall|q: NodeId|
            #![trigger a1.children_of(q)]
            a1.is_live(q) && a1.kind_of(q) is Split && q != a1.root && None::<NodeId> != Some(q)
                implies a1.children_of(q).len() > 0 by {
            if q != p {
                assert(a0.children_of(q).len() > 0);
            }
        }
        assert forall|y: NodeId| #[trigger] a1.is_live(y) implies a1.depth_of(y) <= a1.max_depth@ by {
            assert(a0.is_live(y));
        }
        assert(a1.wf_parents());
        assert(a1.wf_children());
        assert(a1.wf_depth());
        assert(a1.nonempty_except(None));
    }
}

/// A sequence of distinct node ids all below `n` holds at most `n` ids.
pub(crate) proof fn lemma_ids_below(s: Seq<NodeId>, n: nat)
    requires
        s.no_duplicates(),
        forall|i: int| 0 <= i < s.len() ==> #[trigger] s[i].0 < n,
    ensures
        s.len() <= n,
{
    let m = s.map_values(|x: NodeId| x.0 as int);
    assert(m.no_duplicates()) by {
        assert forall|i: int, j: int| 0 <= i < m.len() && 0 <= j < m.len() && i != j implies m[i] != m[j] by {
            assert(s[i] != s[j]);
        }
    }
    m.unique_seq_to_set();
    vstd::set_lib::lemma_int_range(0, n as int);
    assert(m.to_set().subset_of(vstd::set_lib::set_int_range(0, n as int))) by {
        assert forall|v: int| m.to_set().contains(v) implies vstd::set_lib::set_int_range(0, n as int).contains(v) by {
            let k = m.index_of(v);
            assert(s[k].0 < n);
        }
    }
    vstd::set_lib::lemma_len_subset(m.to_set(), vstd::set_lib::set_int_range(0, n as int));
}

impl TilingTree {
    /// The child of the root whose subtree holds `id`.
    pub fn root_branch(&self, id: NodeId) -> (r: Option<NodeId>)
        requires
            self.structure_ok(),
        ensures
            r == self.root_branch_spec(id),
    {
        let mut cur = id;
        loop
            invariant
                self.structure_ok(),
                self.root_branch_spec(id) == self.root_branch_spec(cur),
            decreases self.depth_of(cur),
        {
            if !self.is_live_exec(cur) {
                return None;
            }
            let parent = match self.arena.parents[cur.0 as usize] {
                Some(p) => p,
                None => {
                    return None;
                },
            };
            assert(self.parent_of(cur) is Some);
            if parent == self.arena.root {
                return Some(cur);
            }
            assert(cur != self.root_id());
            cur = parent;
        }
    }

    /// The number of ancestors of `id`.
    pub fn node_depth(&self, id: NodeId) -> (r: usize)
        requires
            self.structure_ok(),
        ensures
            r == self.depth_spec(id),
    {
        let mut cur = id;
        let mut depth: usize = 0;
        let ghost mut seen: Seq<NodeId> = Seq::empty();
        loop
            invariant
                self.structure_ok(),
                depth + self.depth_spec(cur) == self.depth_spec(id),
                seen.len() == depth,
                seen.no_duplicates(),
                forall|i: int|
                    0 <= i < seen.len() ==> #[trigger] self.is_live(seen[i]) && self.depth_of(seen[i])
                        > self.depth_of(cur),
            decreases self.depth_of(cur),
        {
            if !self.is_live_exec(cur) {
                return depth;
            }
            let parent = match self.arena.parents[cur.0 as usize] {
                Some(p) => p,
                None => {
                    return depth;
                },
            };
            assert(self.parent_of(cur) is Some);
            assert(cur != self.root_id());
            proof {
                assert(!seen.contains(cur)) by {
                    if seen.contains(cur) {
                        let k = seen.index_of(cur);
                        assert(self.is_live(seen[k]));
                    }
                }
                let grown = seen.push(cur);
                assert forall|i: int, j: int|
                    0 <= i < grown.len() && 0 <= j < grown.len() && i != j implies grown[i] != grown[j] by {
                    if i < seen.len() && j < seen.len() {
                        assert(seen[i] != seen[j]);
                    } else if i < seen.len() {
                        assert(self.is_live(seen[i]));
                    } else {
                        assert(self.is_live(seen[j]));
                    }
                }
                assert forall|i: int| 0 <= i < grown.len() implies #[trigger] grown[i].0 < self.slot_count() by {
                    if i < seen.len() {
                        assert(self.is_live(seen[i]));
                    }
                }
                lemma_ids_below(grown, self.slot_count());
                seen = grown;
                assert forall|i: int| 0 <= i < seen.len() implies #[trigger] self.is_live(seen[i])
                    && self.depth_of(seen[i]) > self.depth_of(parent) by {
                    if i < seen.len() - 1 {
                        assert(self.is_live(seen[i]));
                    }
                }
            }
            depth = depth + 1;
            cur = parent;
        }
    }

    /// Moves child `id` to position `index` (clamped to the last one) among its
    /// siblings and focuses its first leaf. Returns whether anything moved.
    pub fn move_subtree_to_index(&mut self, id: NodeId, index: usize) -> (r: bool)
        requires
            old(self).wf(),
        ensures
            old(self).keeps_titles(*final(self)),
            final(self).wf(),
            old(self).reindex_outcome(*final(self), id, index, r),
            r ==> forall|q: NodeId|
                #![trigger final(self).children_of(q)]
                old(self).is_live(q) && q != old(self).parent_of(id)->0 ==> final(self).children_of(q)
                    == old(self).children_of(q),
            r ==> forall|x: NodeId| #[trigger] final(self).is_live(x) == old(self).is_live(x),
            forall|x: NodeId| #![trigger final(self).kind_of(x)] final(self).kind_of(x) == old(self).kind_of(x),
            forall|x: NodeId| #![trigger final(self).mode_of(x)] final(self).mode_of(x) == old(self).mode_of(x),
            forall|x: NodeId|
                #![trigger final(self).previous_layout_of(x)]
                final(self).previous_layout_of(x) == old(self).previous_layout_of(x),
            final(self).root_id() == old(self).root_id(),
    {
        let ghost t0 = *self;
        let ghost a0 = self.arena;
        if !self.is_live_exec(id) {
            return false;
        }
        let parent = match self.arena.parents[id.0 as usize] {
            Some(p) => p,
            None => {
                return false;
            },
        };
        assert(self.parent_of(id) is Some);
        assert(id != self.root_id());
        let from = self.index_of_child(parent, id);
        let n = self.arena.children[parent.0 as usize].len();
        let to = if index < n { index } else { n - 1 };
        if from == to {
            return false;
        }
        let child = self.arena.children[parent.0 as usize].remove(from);
        self.arena.children[parent.0 as usize].insert(to, child);
        proof {
            assert forall|q: NodeId|
                #![trigger self.arena.children_of(q)]
                q != parent && q.0 < a0.children@.len() implies self.arena.children_of(q) == a0.children_of(q) by {}
            Arena::lemma_reorder_arena(a0, self.arena, parent, from as int, to as int);
            assert(modes_ok(self.arena, self.modes@, self.previous_layouts@)) by {
                assert forall|y: NodeId|
                    #![trigger self.modes@[y.0 as int]]
                    y.0 < self.arena.live@.len() implies {
                        &&& (!self.arena.is_live(y) ==> self.modes@[y.0 as int] == normal_mode()
                            && self.previous_layouts@[y.0 as int] is None)
                        &&& (self.arena.is_live(y) && self.arena.kind_of(y) is Split
                            ==> !self.modes@[y.0 as int].maximized)
                    } by {
                    let _ = t0.modes@[y.0 as int];
                }
            }
            assert forall|i: int| 0 <= i < self.focus_history@.len() implies #[trigger] self.arena.is_live(
                self.focus_history@[i],
            ) by {
                assert(a0.is_live(self.focus_history@[i]));
            }
            assert(self.arena.has_leaf() == a0.has_leaf()) by {
                if a0.has_leaf() {
                    let x = choose|x: NodeId| a0.is_leaf(x);
                    assert(self.arena.is_leaf(x));
                }
                if self.arena.has_leaf() {
                    let x = choose|x: NodeId| self.arena.is_leaf(x);
                    assert(a0.is_leaf(x));
                }
            }
            assert(focus_ok(self.arena, self.focus, self.focus_history@));
        }
        let first = self.first_leaf_in(id);
        proof {
            self.lemma_leaf_below(id);
            self.arena.lemma_leaves_in(id);
            assert(self.leaves_in(id).contains(self.leaves_in(id)[0]));
            self.lemma_leaf_has_leaf(first->0);
        }
        self.focus_node(first);
        true
    }
}

impl TilingTree {
    /// The outcome of `move_subtree_to_index(id, index)` from `self` to `new`.
    pub open spec fn reindex_outcome(self, new: Self, id: NodeId, index: usize, r: bool) -> bool {
        match self.parent_of(id) {
            Some(p) if self.is_live(id) => {
                let kids = self.children_of(p);
                let from = kids.index_of(id);
                let to = if index < kids.len() {
                    index as int
                } else {
                    kids.len() - 1
                };
                &&& r == (from != to)
                &&& r ==> new.children_of(p) == reorder(kids, from, to) && new.focus_id()
                    == new.first_leaf_spec(id) && new.parent_of(id) == self.parent_of(id)
                &&& !r ==> new == self
            },
            _ => !r && new == self,
        }
    }

    /// Moves child `id` to the front of its siblings.
    pub fn move_subtree_to_first(&mut self, id: NodeId) -> (r: bool)
        requires
            old(self).wf(),
        ensures
            old(self).keeps_titles(*final(self)),
            final(self).wf(),
            old(self).reindex_outcome(*final(self), id, 0, r),
    {
        self.move_subtree_to_index(id, 0)
    }

    /// Moves child `id` to the end of its siblings.
    pub fn move_subtree_to_last(&mut self, id: NodeId) -> (r: bool)
        requires
            old(self).wf(),
        ensures
            old(self).keeps_titles(*final(self)),
            final(self).wf(),
            old(self).reindex_outcome(*final(self), id, usize::MAX, r),
    {
        self.move_subtree_to_index(id, usize::MAX)
    }

    /// Moves the root child holding the focus to position `index` among the
    /// root's children (see `move_subtree_to_index`).
    pub fn move_focused_to_index(&mut self, index: usize) -> (r: bool)
        requires
            old(self).wf(),
        ensures
            old(self).keeps_titles(*final(self)),
            final(self).wf(),
            match old(self).focus_id() {
                Some(f) => match old(self).root_branch_spec(f) {
                    Some(b) => old(self).reindex_outcome(*final(self), b, index, r),
                    None => !r && *final(self) == *old(self),
                },
                None => !r && *final(self) == *old(self),
            },
    {
        let Some(focus) = self.focus else {
            return false;
        };
        let Some(branch) = self.root_branch(focus) else {
            return false;
        };
        self.move_subtree_to_index(branch, index)
    }

    /// Moves the root child holding the focus to the front.
    pub fn move_focused_to_first(&mut self) -> (r: bool)
        requires
            old(self).wf(),
        ensures
            old(self).keeps_titles(*final(self)),
            final(self).wf(),
            match old(self).focus_id() {
                Some(f) => match old(self).root_branch_spec(f) {
                    Some(b) => old(self).reindex_outcome(*final(self), b, 0, r),
                    None => !r && *final(self) == *old(self),
                },
                None => !r && *final(self) == *old(self),
            },
    {
        self.move_focused_to_index(0)
    }

    /// Moves the root child holding the focus to the end.
    pub fn move_focused_to_last(&mut self) -> (r: bool)
        requires
            old(self).wf(),
        ensures
            old(self).keeps_titles(*final(self)),
            final(self).wf(),
            match old(self).focus_id() {
                Some(f) => match old(self).root_branch_spec(f) {
                    Some(b) => old(self).reindex_outcome(*final(self), b, usize::MAX, r),
                    None => !r && *final(self) == *old(self),
                },
                None => !r && *final(self) == *old(self),
            },
    {
        self.move_focused_to_index(usize::MAX)
    }

    /// The position of the root child holding the focus, or 0.
    pub fn active_column_idx(&self) -> (r: usize)
        requires
            self.wf(),
        ensures
            r == match self.focus_id() {
                Some(f) => match self.root_branch_spec(f) {
                    Some(b) => self.children_of(self.root_id()).index_of(b),
                    None => 0,
                },
                None => 0,
            },
    {
        let Some(focus) = self.focus else {
            return 0;
        };
        let Some(branch) = self.root_branch(focus) else {
            return 0;
        };
        proof {
            self.lemma_root_branch(focus);
        }
        self.index_of_child(self.arena.root, branch)
    }

    /// The root branch of a node is a child of the root.
    pub(crate) proof fn lemma_root_branch(self, x: NodeId)
        requires
            self.structure_ok(),
        ensures
            self.root_branch_spec(x) matches Some(b) ==> self.is_live(b) && self.parent_of(b) == Some(
                self.root_id(),
            ) && self.children_of(self.root_id()).contains(b),
        decreases self.depth_of(x),
    {
        if self.is_live(x) && self.parent_of(x) is Some {
            if self.parent_of(x)->0 == self.root_id() {
                assert(x != self.root_id()) by {
                    assert(self.parent_of(self.root_id()) is None);
                }
            } else if self.depth_of(self.parent_of(x)->0) < self.depth_of(x) {
                self.lemma_root_branch(self.parent_of(x)->0);
            }
        }
    }
}

} // verus!
