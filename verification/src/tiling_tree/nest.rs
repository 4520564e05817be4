//! Nesting a window with its neighbour in a new vertical split, and moving it
//! back out of its split.
use vstd::prelude::*;
use super::{Arena, Layout, NodeId, NodeKind, PendingMode, TilingTree, focus_ok, modes_ok, normal_mode};
use super::movement::reorder;
use super::leaf_order::blocks_swapped;
use super::relocate::{lemma_focus_same_nodes, lemma_modes_same_nodes, lemma_wf_except_any};

verus! {

impl Arena {
    /// Giving a split another layout keeps the tree well formed.
    pub(crate) proof fn lemma_relayout_arena(a0: Arena, a1: Arena, p: NodeId, layout: Layout)
        requires
            a0.wf(),
            a0.is_live(p),
            a0.kind_of(p) is Split,
            a1 == (Arena { kinds: a1.kinds, ..a0 }),
            a1.kinds@ == a0.kinds@.update(p.0 as int, NodeKind::Split(layout)),
        ensures
            a1.wf(),
            forall|x: NodeId| #[trigger] a1.is_live(x) == a0.is_live(x),
            forall|x: NodeId| #[trigger] a1.is_leaf(x) == a0.is_leaf(x),
    {
        assert forall|x: NodeId| a0.is_live(x) implies (#[trigger] a1.kind_of(x) is Split) == (a0.kind_of(x) is Split) by {
            if x.0 == p.0 {
                assert(x == p);
            }
        }
        assert forall|x: NodeId| #[trigger] a1.is_leaf(x) == a0.is_leaf(x) by {
            if a0.is_live(x) {
                assert((a1.kind_of(x) is Split) == (a0.kind_of(x) is Split));
            }
        }
        assert forall|y: NodeId|
            #![trigger a1.parent_of(y)]
            a1.is_live(y) && y != a1.root implies {
                &&& a1.parent_of(y) is Some
                &&& a1.is_live(a1.parent_of(y)->0)
                &&& a1.kind_of(a1.parent_of(y)->0) is Split
                &&& a1.children_of(a1.parent_of(y)->0).contains(y)
                &&& a1.depth_of(a1.parent_of(y)->0) < a1.depth_of(y)
            } by {
            assert(a0.parent_of(y) is Some);
            assert((a1.kind_of(a0.parent_of(y)->0) is Split) == (a0.kind_of(a0.parent_of(y)->0) is Split));
        }
        assert forall|q: NodeId, i: int|
            #![trigger a1.children_of(q)[i]]
            a1.is_live(q) && 0 <= i < a1.children_of(q).len() implies {
                &&& a1.is_live(a1.children_of(q)[i])
                &&& a1.parent_of(a1.children_of(q)[i]) == Some(q)
            } by {
            a0.lemma_child_desc(q, i);
        }
        assert forall|q: NodeId|
            #![trigger a1.children_of(q)]
            a1.is_live(q) implies {
                &&& a1.children_of(q).no_duplicates()
                &&& (a1.kind_of(q) is Leaf ==> a1.children_of(q).len() == 0)
            } by {
            assert(a0.children_of(q).no_duplicates());
            assert((a1.kind_of(q) is Split) == (a0.kind_of(q) is Split));
        }
        assert forall|q: NodeId|
            #![trigger a1.children_of(q)]
            a1.is_live(q) && a1.kind_of(q) is Split && q != a1.root && None::<NodeId> != Some(q)
                implies a1.children_of(q).len() > 0 by {
            assert((a1.kind_of(q) is Split) == (a0.kind_of(q) is Split));
            assert(a0.children_of(q).len() > 0);
        }
        assert forall|y: NodeId| #[trigger] a1.is_live(y) implies a1.depth_of(y) <= a1.max_depth@ by {
            assert(a0.is_live(y));
        }
        assert(a1.wf_root()) by {
            assert((a1.kind_of(a0.root) is Split) == (a0.kind_of(a0.root) is Split));
        }
        assert(a1.wf_parents());
        assert(a1.wf_children());
        assert(a1.wf_depth());
        assert(a1.nonempty_except(None));
    }
}

/// A tree well formed but for its focus is well formed with any exception.
pub(crate) proof fn lemma_but_focus_except_any(t: TilingTree, e: NodeId)
    requires
        t.wf_but_focus(),
    ensures
        t.wf_but_focus_except(Some(e)),
{
    assert forall|r: NodeId|
        #![trigger t.arena.children_of(r)]
        t.arena.is_live(r) && t.arena.kind_of(r) is Split && r != t.arena.root && Some(e) != Some(r)
            implies t.arena.children_of(r).len() > 0 by {
        let _ = t.arena.children_of(r);
    }
    assert(t.arena.nonempty_except(Some(e)));
}

impl TilingTree {
    /// Gives split `p` the layout `layout`.
    pub(crate) fn relayout(&mut self, p: NodeId, layout: Layout)
        requires
            old(self).wf(),
            old(self).is_split_node(p),
        ensures
            old(self).keeps_titles(*final(self)),
            final(self).wf(),
            final(self).arena == (Arena { kinds: final(self).arena.kinds, ..old(self).arena }),
            final(self).arena.kinds@ == old(self).arena.kinds@.update(p.0 as int, NodeKind::Split(layout)),
            final(self).kind_of(p) == NodeKind::Split(layout),
            forall|x: NodeId|
                #![trigger final(self).kind_of(x)]
                old(self).is_live(x) && x != p ==> final(self).kind_of(x) == old(self).kind_of(x),
            forall|x: NodeId| #[trigger] final(self).is_live(x) == old(self).is_live(x),
            forall|x: NodeId| #[trigger] final(self).is_leaf_node(x) == old(self).is_leaf_node(x),
            forall|x: NodeId| #![trigger final(self).children_of(x)] final(self).children_of(x) == old(self).children_of(x),
            forall|x: NodeId| #![trigger final(self).parent_of(x)] final(self).parent_of(x) == old(self).parent_of(x),
            final(self).modes == old(self).modes,
            final(self).previous_layouts == old(self).previous_layouts,
            final(self).focus == old(self).focus,
            final(self).focus_history == old(self).focus_history,
    {
        let ghost a0 = self.arena;
        self.arena.kinds.set(p.0 as usize, NodeKind::Split(layout));
        proof {
            Arena::lemma_relayout_arena(a0, self.arena, p, layout);
            assert(modes_ok(self.arena, self.modes@, self.previous_layouts@)) by {
                assert forall|y: NodeId|
                    #![trigger self.modes@[y.0 as int]]
                    y.0 < self.arena.live@.len() implies {
                        &&& (!self.arena.is_live(y) ==> self.modes@[y.0 as int] == normal_mode()
                            && self.previous_layouts@[y.0 as int] is None)
                        &&& (self.arena.is_live(y) && self.arena.kind_of(y) is Split
                            ==> !self.modes@[y.0 as int].maximized)
                    } by {
                    let _ = self.modes@[y.0 as int];
                    if y.0 == p.0 {
                        assert(y == p);
                    }
                }
            }
            assert(self.arena.has_leaf() == a0.has_leaf()) by {
                if a0.has_leaf() {
                    let y = choose|y: NodeId| a0.is_leaf(y);
                    assert(self.arena.is_leaf(y));
                }
                if self.arena.has_leaf() {
                    let y = choose|y: NodeId| self.arena.is_leaf(y);
                    assert(a0.is_leaf(y));
                }
            }
            assert forall|i: int| 0 <= i < self.focus_history@.len() implies #[trigger] self.arena.is_live(
                self.focus_history@[i],
            ) by {
                assert(a0.is_live(self.focus_history@[i]));
            }
            assert(focus_ok(self.arena, self.focus, self.focus_history@));
        }
    }
}

impl TilingTree {
    /// Puts node `id` into a new split with layout `layout`, which takes its
    /// place in its parent.
    pub(crate) fn wrap_node(&mut self, id: NodeId, layout: Layout) -> (w: NodeId)
        requires
            old(self).wf(),
            old(self).is_live(id),
            id != old(self).root_id(),
            old(self).slot_count() < usize::MAX,
        ensures
            old(self).keeps_titles(*final(self)),
            final(self).wf(),
            w.0 == old(self).slot_count(),
            !old(self).is_live(w),
            forall|x: NodeId| #[trigger] final(self).is_live(x) <==> (old(self).is_live(x) || x == w),
            final(self).kind_of(w) == NodeKind::Split(layout),
            final(self).children_of(w) == seq![id],
            final(self).parent_of(id) == Some(w),
            final(self).parent_of(w) == old(self).parent_of(id),
            final(self).children_of(old(self).parent_of(id)->0) == old(self).children_of(
                old(self).parent_of(id)->0,
            ).update(old(self).children_of(old(self).parent_of(id)->0).index_of(id), w),
            forall|x: NodeId|
                #![trigger final(self).children_of(x)]
                old(self).is_live(x) && x != old(self).parent_of(id)->0 ==> final(self).children_of(x)
                    == old(self).children_of(x),
            forall|x: NodeId|
                #![trigger final(self).parent_of(x)]
                old(self).is_live(x) && x != id ==> final(self).parent_of(x) == old(self).parent_of(x),
            forall|x: NodeId|
                #![trigger final(self).kind_of(x)]
                old(self).is_live(x) ==> final(self).kind_of(x) == old(self).kind_of(x),
            forall|x: NodeId|
                #![trigger final(self).mode_of(x)]
                old(self).is_live(x) ==> final(self).mode_of(x) == old(self).mode_of(x),
            forall|x: NodeId| #[trigger] final(self).is_leaf_node(x) == old(self).is_leaf_node(x),
            final(self).focus_id() == old(self).focus_id(),
            final(self).history() == old(self).history(),
            final(self).root_id() == old(self).root_id(),
            final(self).leaf_order() == old(self).leaf_order(),
    {
        let ghost t0 = *self;
        assert(self.parent_of(id) is Some);
        let p = self.arena.parents[id.0 as usize].unwrap();
        let ghost k0 = self.children_of(p);
        assert(self.is_live(p));
        assert(k0.contains(id));
        let idx = self.index_of_child(p, id);
        let w = self.alloc_split(p, idx, layout);
        let ghost t1 = *self;
        proof {
            let k1 = t1.children_of(p);
            assert(k1 == k0.insert(idx as int, w));
            assert(k1[idx + 1] == id);
            t1.lemma_child_desc(p, idx + 1);
            assert(!t1.is_desc(w, id)) by {
                t1.lemma_desc_unfold(w, id);
                if t1.is_desc(p, id) {
                    t1.lemma_desc_antisym(p, id);
                }
            }
            assert(t1.parent_of(id) == Some(p));
            assert(k1.no_duplicates());
            assert(k1.index_of(id) == idx + 1);
        }
        self.relocate(id, w, 0);
        proof {
            let k1 = t1.children_of(p);
            assert(self.children_of(p) == k1.remove(idx + 1));
            assert(k1.remove(idx + 1) =~= k0.update(idx as int, w));
            assert(self.children_of(w) =~= seq![id]);
            assert(self.children_of(p)[idx as int] == w);
            assert(self.children_of(p).len() > 0);
            self.lemma_exception_cleared(p);
            assert forall|x: NodeId| #[trigger] self.is_leaf_node(x) == t0.is_leaf_node(x) by {
                assert(t1.is_leaf_node(x) == t0.is_leaf_node(x));
                assert(self.is_live(x) == t1.is_live(x));
                assert(self.kind_of(x) == t1.kind_of(x));
                assert(self.is_leaf_node(x) == t1.is_leaf_node(x));
            }
            assert(self.wf());
            assert forall|x: NodeId| #[trigger] self.arena.is_live(x) <==> (t0.arena.is_live(x) || x == w) by {
                assert(self.is_live(x) == t1.is_live(x));
                assert(t1.is_live(x) == (t0.is_live(x) || x == w));
            }
            assert forall|x: NodeId| #![trigger self.arena.kind_of(x)] t0.arena.is_live(x) implies self.arena.kind_of(x)
                == t0.arena.kind_of(x) by {
                assert(self.kind_of(x) == t1.kind_of(x));
                assert(t1.kind_of(x) == t0.kind_of(x));
            }
            assert forall|q: NodeId| #![trigger self.arena.children_of(q)] q != p && t0.arena.is_live(q) implies self.arena.children_of(q)
                == t0.arena.children_of(q) by {
                assert(self.children_of(q) == t0.children_of(q));
            }
            Arena::lemma_wrap_keeps_leaves(t0.arena, self.arena, id, p, idx as int, w);
            self.lemma_leaf_order();
            t0.lemma_leaf_order();
        }
        w
    }

    /// Adds an empty split with layout `layout` at position `index` of split `parent`.
    pub(crate) fn alloc_split(&mut self, parent: NodeId, index: usize, layout: Layout) -> (w: NodeId)
        requires
            old(self).wf(),
            old(self).is_split_node(parent),
            index <= old(self).children_of(parent).len(),
            old(self).slot_count() < usize::MAX,
        ensures
            old(self).keeps_titles(*final(self)),
            final(self).wf_but_focus_except(Some(w)),
            final(self).wf_focus(),
            w.0 == old(self).slot_count(),
            !old(self).is_live(w),
            forall|x: NodeId| #[trigger] final(self).is_live(x) <==> (old(self).is_live(x) || x == w),
            final(self).kind_of(w) == NodeKind::Split(layout),
            final(self).children_of(w) == Seq::<NodeId>::empty(),
            final(self).parent_of(w) == Some(parent),
            final(self).children_of(parent) == old(self).children_of(parent).insert(index as int, w),
            forall|x: NodeId|
                #![trigger final(self).children_of(x)]
                old(self).is_live(x) && x != parent ==> final(self).children_of(x) == old(self).children_of(x),
            forall|x: NodeId|
                #![trigger final(self).kind_of(x)]
                old(self).is_live(x) ==> final(self).kind_of(x) == old(self).kind_of(x),
            forall|x: NodeId|
                #![trigger final(self).parent_of(x)]
                old(self).is_live(x) ==> final(self).parent_of(x) == old(self).parent_of(x),
            forall|x: NodeId|
                #![trigger final(self).mode_of(x)]
                old(self).is_live(x) ==> final(self).mode_of(x) == old(self).mode_of(x),
            forall|x: NodeId| #[trigger] final(self).is_leaf_node(x) == old(self).is_leaf_node(x),
            final(self).mode_of(w) == normal_mode(),
            final(self).focus_id() == old(self).focus_id(),
            final(self).history() == old(self).history(),
            final(self).root_id() == old(self).root_id(),
    {
        let ghost t0 = *self;
        let ghost a0 = self.arena;
        let id = NodeId(self.arena.live.len() as u64);
        self.arena.live.push(true);
        self.arena.parents.push(Some(parent));
        self.arena.kinds.push(NodeKind::Split(layout));
        self.arena.children.push(Vec::new());
        self.arena.children[parent.0 as usize].insert(index, id);
        let ghost d = a0.depth_of(parent) + 1;
        self.arena.depth = Ghost(a0.depth@.push(d));
        self.arena.max_depth = Ghost(if a0.max_depth@ < d { d } else { a0.max_depth@ });
        self.modes.push(PendingMode { fullscreen: None, maximized: false });
        self.previous_layouts.push(None);
        proof {
            assert(self.arena.children_of(id) =~= Seq::<NodeId>::empty());
            assert forall|q: NodeId|
                #![trigger self.arena.children_of(q)]
                q != parent && q.0 < a0.children@.len() implies self.arena.children_of(q) == a0.children_of(q) by {}
            Arena::lemma_insert_node_arena(a0, self.arena, parent, id, NodeKind::Split(layout), index as int, None);
            assert(modes_ok(self.arena, self.modes@, self.previous_layouts@)) by {
                assert forall|x: NodeId|
                    #![trigger self.modes@[x.0 as int]]
                    x.0 < self.arena.live@.len() implies {
                        &&& (!self.arena.is_live(x) ==> self.modes@[x.0 as int] == normal_mode()
                            && self.previous_layouts@[x.0 as int] is None)
                        &&& (self.arena.is_live(x) && self.arena.kind_of(x) is Split
                            ==> !self.modes@[x.0 as int].maximized)
                    } by {
                    if x.0 < a0.live@.len() {
                        assert(t0.mode_of(x) == t0.modes@[x.0 as int]);
                        assert(a0.is_live(x) == self.arena.is_live(x));
                    } else {
                        assert(x == id);
                    }
                }
            }
            assert forall|x: NodeId| #[trigger] self.is_leaf_node(x) == t0.is_leaf_node(x) by {
                if x == id {
                    assert(!a0.is_live(id));
                }
            }
            assert(self.arena.has_leaf() == a0.has_leaf()) by {
                if a0.has_leaf() {
                    let y = choose|y: NodeId| a0.is_leaf(y);
                    assert(t0.is_leaf_node(y));
                    assert(self.arena.is_leaf(y));
                }
                if self.arena.has_leaf() {
                    let y = choose|y: NodeId| self.arena.is_leaf(y);
                    assert(self.is_leaf_node(y));
                    assert(a0.is_leaf(y));
                }
            }
            assert forall|i: int| 0 <= i < self.focus_history@.len() implies #[trigger] self.arena.is_live(
                self.focus_history@[i],
            ) by {
                assert(a0.is_live(t0.focus_history@[i]));
            }
            assert(focus_ok(self.arena, self.focus, self.focus_history@));
            assert forall|x: NodeId|
                #![trigger self.children_of(x)]
                t0.is_live(x) && x != parent implies self.children_of(x) == t0.children_of(x) by {}
        }
        id
    }

    /// The sibling that `id` is nested with: its neighbour on the right (or left).
    pub open spec fn nest_partner(self, id: NodeId, right: bool) -> Option<NodeId> {
        if self.is_live(id) && self.parent_of(id) is Some {
            let kids = self.children_of(self.parent_of(id)->0);
            let i = kids.index_of(id);
            if right && i + 1 < kids.len() {
                Some(kids[i + 1])
            } else if !right && i > 0 {
                Some(kids[i - 1])
            } else {
                None
            }
        } else {
            None
        }
    }

    /// `t` is the window order after moving `id` out of its parent, right
    /// after (or before) it: the windows of `id` trade places with those of
    /// its later (or earlier) siblings.
    pub open spec fn unnest_order(self, t: Seq<NodeId>, id: NodeId, after: bool) -> bool {
        let p = self.parent_of(id)->0;
        let kids = self.children_of(p);
        let i = kids.index_of(id);
        if after {
            blocks_swapped(self.leaf_order(), t, self.leaves_in(id), self.leaves_of_list(p, kids.skip(i + 1)))
        } else {
            blocks_swapped(self.leaf_order(), t, self.leaves_of_list(p, kids.take(i)), self.leaves_in(id))
        }
    }

    /// Whether `id` can be moved out of its parent: it is neither the root
    /// nor a child of the root.
    pub open spec fn unnestable(self, id: NodeId) -> bool {
        self.is_live(id) && (self.parent_of(id) matches Some(p) && self.parent_of(p) is Some)
    }

    /// `t` is the window order after `nest_or_unnest` acts on `id`: moved out
    /// of its parent if it can be, else nested with its partner if it has
    /// one, else left in place.
    pub open spec fn nest_or_unnest_order(self, t: Seq<NodeId>, id: NodeId, right: bool) -> bool {
        if self.unnestable(id) {
            self.unnest_order(t, id, right)
        } else if self.nest_partner(id, right) is Some {
            self.nest_order(t, id, right)
        } else {
            t == self.leaf_order()
        }
    }

    /// `t` is the window order after nesting `id` with its partner (see
    /// `nest_partner`): the windows of the two trade places.
    pub open spec fn nest_order(self, t: Seq<NodeId>, id: NodeId, right: bool) -> bool {
        let sib = self.nest_partner(id, right)->0;
        if right {
            blocks_swapped(self.leaf_order(), t, self.leaves_in(id), self.leaves_in(sib))
        } else {
            blocks_swapped(self.leaf_order(), t, self.leaves_in(sib), self.leaves_in(id))
        }
    }

    /// `t` is this tree with `id` and its partner (see `nest_partner`) put
    /// into a new vertical split `w`, the partner first when nesting to the
    /// right and second otherwise, `w` taking the pair's place among the
    /// parent's children; nothing else changes.
    pub open spec fn nested_tree(self, t: Self, id: NodeId, right: bool, w: NodeId) -> bool {
        let p = self.parent_of(id)->0;
        let kids = self.children_of(p);
        let sib = self.nest_partner(id, right)->0;
        let f = if right {
            kids.index_of(id)
        } else {
            kids.index_of(id) - 1
        };
        &&& t.structure_ok()
        &&& t.root_id() == self.root_id()
        &&& !self.is_live(w)
        &&& forall|y: NodeId| #[trigger] t.is_live(y) == (self.is_live(y) || y == w)
        &&& t.kind_of(w) == NodeKind::Split(Layout::SplitV)
        &&& forall|y: NodeId| #![trigger t.kind_of(y)] self.is_live(y) && y != p ==> t.kind_of(y) == self.kind_of(y)
        &&& t.children_of(p) == kids.take(f) + seq![w] + kids.skip(f + 2)
        &&& t.children_of(w) == if right {
            seq![sib, id]
        } else {
            seq![id, sib]
        }
        &&& forall|r: NodeId|
            #![trigger t.children_of(r)]
            self.is_live(r) && r != p ==> t.children_of(r) == self.children_of(r)
    }

    /// `t` is this tree with `id` nested with its partner (see
    /// `nested_tree`), then tidied (see `tidied`), the new split kept.
    pub open spec fn nested_then_tidied(self, t: Self, id: NodeId, right: bool) -> bool {
        exists|m: TilingTree, w: NodeId| #[trigger] self.nested_tree(m, id, right, w) && m.tidied(t) && t.is_live(w)
    }

    /// `t` is this tree with `id` moved out of its parent into its
    /// grandparent, right after (or before) the parent, then tidied (see
    /// `moved_then_tidied`).
    pub open spec fn unnested_then_tidied(self, t: Self, id: NodeId, after: bool) -> bool {
        let p = self.parent_of(id)->0;
        let g = self.parent_of(p)->0;
        let i = self.children_of(g).index_of(p);
        self.moved_then_tidied(
            t,
            id,
            g,
            if after {
                i + 1
            } else {
                i
            },
        )
    }

    /// Moving a node out of its parent depends on the nodes alone, not on
    /// the focus.
    pub(crate) proof fn lemma_unnested_same_nodes(t0: Self, t1: Self, t: Self, id: NodeId, after: bool)
        requires
            t0.arena == t1.arena,
            t1.unnested_then_tidied(t, id, after),
        ensures
            t0.unnested_then_tidied(t, id, after),
    {
        let p = t1.parent_of(id)->0;
        let g = t1.parent_of(p)->0;
        let i = t1.children_of(g).index_of(p);
        let j = if after {
            i + 1
        } else {
            i
        };
        let m = choose|m: TilingTree| #[trigger] t1.moved_tree(m, id, g, j) && m.tidied(t);
        assert(t0.moved_tree(m, id, g, j));
    }

    /// Nesting depends on the nodes alone, not on the focus.
    pub(crate) proof fn lemma_nested_same_nodes(t0: Self, t1: Self, t: Self, id: NodeId, right: bool)
        requires
            t0.arena == t1.arena,
            t1.nested_then_tidied(t, id, right),
        ensures
            t0.nested_then_tidied(t, id, right),
    {
        let (m, w) = choose|m: TilingTree, w: NodeId|
            #[trigger] t1.nested_tree(m, id, right, w) && m.tidied(t) && t.is_live(w);
        assert(t1.nest_partner(id, right) == t0.nest_partner(id, right));
        assert(t0.nested_tree(m, id, right, w));
    }

    /// Nests `id` with its right (or left) sibling in a vertical split, below
    /// the sibling when consuming to the right and above it otherwise. When the
    /// two are all of their parent's children, the parent itself becomes that
    /// split. Fails when there is no such sibling.
    pub(crate) fn consume(&mut self, id: NodeId, right: bool) -> (r: bool)
        requires
            old(self).wf(),
            old(self).slot_count() < usize::MAX,
        ensures
            old(self).keeps_titles(*final(self)),
            final(self).wf(),
            r == old(self).nest_partner(id, right) is Some,
            !r ==> *final(self) == *old(self),
            r && old(self).children_of(old(self).parent_of(id)->0).len() == 2 ==> {
                let p = old(self).parent_of(id)->0;
                let sib = old(self).nest_partner(id, right)->0;
                &&& final(self).kind_of(p) == NodeKind::Split(Layout::SplitV)
                &&& final(self).children_of(p) == if right {
                    seq![sib, id]
                } else {
                    seq![id, sib]
                }
                &&& forall|x: NodeId|
                    #![trigger final(self).children_of(x)]
                    old(self).is_live(x) && x != p ==> final(self).children_of(x) == old(self).children_of(x)
                &&& forall|x: NodeId| #[trigger] final(self).is_live(x) == old(self).is_live(x)
                &&& final(self).focus_id() == old(self).focus_id()
                &&& final(self).history() == old(self).history()
            },
            r ==> forall|y: NodeId| #[trigger] final(self).is_leaf_node(y) == old(self).is_leaf_node(y),
            r ==> forall|y: NodeId|
                #![trigger final(self).kind_of(y)]
                old(self).is_leaf_node(y) ==> final(self).kind_of(y) == old(self).kind_of(y)
                    && final(self).mode_of(y) == old(self).mode_of(y),
            r ==> (old(self).focus_id() matches Some(f) && final(self).is_live(f) ==> final(self).focus_id()
                == old(self).focus_id()),
            r && old(self).children_of(old(self).parent_of(id)->0).len() != 2 ==> forall|x: NodeId|
                #[trigger] final(self).is_live(x) ==> !final(self).squashable(x),
            r ==> old(self).nest_order(final(self).leaf_order(), id, right),
            r && old(self).children_of(old(self).parent_of(id)->0).len() != 2 ==> old(self).nested_then_tidied(
                *final(self),
                id,
                right,
            ),
    {
        if !self.is_live_exec(id) {
            return false;
        }
        let Some(parent) = self.arena.parents[id.0 as usize] else {
            return false;
        };
        assert(self.parent_of(id) is Some);
        assert(id != self.root_id());
        let ghost t0 = *self;
        let n = self.arena.children[parent.0 as usize].len();
        let index = self.index_of_child(parent, id);
        let sib_index = if right {
            if index + 1 >= n {
                return false;
            }
            index + 1
        } else {
            if index == 0 {
                return false;
            }
            index - 1
        };
        let sibling = self.arena.children[parent.0 as usize][sib_index];
        proof {
            self.lemma_child_desc(parent, sib_index as int);
            self.lemma_child_desc(parent, index as int);
            assert(sibling != id);
        }
        if n == 2 {
            self.consume_pair(id, parent, index, sib_index, right);
            proof {
                if right {
                    assert(index == 0);
                } else {
                    assert(index == 1);
                }
            }
        } else {
            self.consume_wrap(id, parent, index, sib_index, right);
        }
        true
    }

    /// Consumes within a two-child parent: the parent becomes a vertical split
    /// holding the pair in the nested order.
    fn consume_pair(&mut self, id: NodeId, parent: NodeId, index: usize, sib_index: usize, right: bool)
        requires
            old(self).wf(),
            old(self).is_live(id),
            old(self).parent_of(id) == Some(parent),
            old(self).children_of(parent).len() == 2,
            index < 2,
            sib_index < 2,
            index == old(self).children_of(parent).index_of(id),
            old(self).children_of(parent)[index as int] == id,
            right ==> sib_index == index + 1,
            !right ==> sib_index + 1 == index,
        ensures
            old(self).keeps_titles(*final(self)),
            final(self).wf(),
            final(self).kind_of(parent) == NodeKind::Split(Layout::SplitV),
            final(self).children_of(parent) == if right {
                seq![old(self).children_of(parent)[sib_index as int], id]
            } else {
                seq![id, old(self).children_of(parent)[sib_index as int]]
            },
            forall|x: NodeId|
                #![trigger final(self).children_of(x)]
                old(self).is_live(x) && x != parent ==> final(self).children_of(x) == old(self).children_of(x),
            forall|x: NodeId| #[trigger] final(self).is_live(x) == old(self).is_live(x),
            forall|y: NodeId| #[trigger] final(self).is_leaf_node(y) == old(self).is_leaf_node(y),
            forall|y: NodeId|
                #![trigger final(self).kind_of(y)]
                old(self).is_leaf_node(y) ==> final(self).kind_of(y) == old(self).kind_of(y)
                    && final(self).mode_of(y) == old(self).mode_of(y),
            final(self).focus_id() == old(self).focus_id(),
            final(self).history() == old(self).history(),
            blocks_swapped(
                old(self).leaf_order(),
                final(self).leaf_order(),
                old(self).leaves_in(old(self).children_of(parent)[0]),
                old(self).leaves_in(old(self).children_of(parent)[1]),
            ),
    {
        let ghost t0 = *self;
        let sibling = self.arena.children[parent.0 as usize][sib_index];
        proof {
            self.lemma_child_desc(parent, index as int);
            assert(self.is_live(parent));
        }

            let ghost kids = self.children_of(parent);
            let child = self.arena.children[parent.0 as usize].remove(0);
            self.arena.children[parent.0 as usize].insert(1, child);
            proof {
                let a1 = self.arena;
                assert forall|q: NodeId|
                    #![trigger a1.children_of(q)]
                    q != parent && q.0 < t0.arena.children@.len() implies a1.children_of(q) == t0.arena.children_of(q) by {}
                assert(a1.children_of(parent) =~= reorder(kids, 0, 1));
                Arena::lemma_reorder_arena(t0.arena, a1, parent, 0, 1);
                lemma_modes_same_nodes(t0.arena, a1, self.modes@, self.previous_layouts@);
                lemma_focus_same_nodes(t0.arena, a1, self.focus, self.focus_history@);
            }
            self.relayout(parent, Layout::SplitV);
            proof {
                assert(kids.len() == 2);
                if right {
                    assert(index == 0 && sib_index == 1);
                } else {
                    assert(index == 1 && sib_index == 0);
                }
                assert forall|x: NodeId| #[trigger] self.is_leaf_node(x) == t0.is_leaf_node(x) by {}
                assert forall|x: NodeId|
                    #![trigger self.children_of(x)]
                    t0.is_live(x) && x != parent implies self.children_of(x) == t0.children_of(x) by {}
                assert forall|x: NodeId|
                    #![trigger self.kind_of(x)]
                    t0.is_leaf_node(x) implies self.kind_of(x) == t0.kind_of(x) && self.mode_of(x) == t0.mode_of(x) by {
                    assert(x != parent);
                }
                assert(self.children_of(parent) =~= kids.take(0) + seq![kids[1], kids[0]] + kids.skip(2));
                assert forall|y: NodeId|
                    #![trigger self.kind_of(y)]
                    t0.is_live(y) implies self.is_live(y) && (y != parent ==> self.kind_of(y) == t0.kind_of(y)) by {}
                TilingTree::lemma_nest_order(t0, *self, parent, 0, None);
            }
    }

    /// Consumes within a larger parent: a new vertical split takes the
    /// sibling's place and receives the sibling and `id`; the tree is compacted.
    #[verifier::spinoff_prover]
    #[verifier::rlimit(50)]
    fn consume_wrap(&mut self, id: NodeId, parent: NodeId, index: usize, sib_index: usize, right: bool)
        requires
            old(self).wf(),
            old(self).slot_count() < usize::MAX,
            old(self).is_live(id),
            old(self).parent_of(id) == Some(parent),
            old(self).children_of(parent).len() > 2,
            index < old(self).children_of(parent).len(),
            index == old(self).children_of(parent).index_of(id),
            old(self).children_of(parent)[index as int] == id,
            right ==> sib_index == index + 1,
            !right ==> sib_index + 1 == index,
            sib_index < old(self).children_of(parent).len(),
        ensures
            old(self).keeps_titles(*final(self)),
            final(self).wf(),
            forall|y: NodeId| #[trigger] final(self).is_leaf_node(y) == old(self).is_leaf_node(y),
            forall|y: NodeId|
                #![trigger final(self).kind_of(y)]
                old(self).is_leaf_node(y) ==> final(self).kind_of(y) == old(self).kind_of(y)
                    && final(self).mode_of(y) == old(self).mode_of(y),
            old(self).focus_id() matches Some(f) && final(self).is_live(f) ==> final(self).focus_id()
                == old(self).focus_id(),
            forall|x: NodeId| #[trigger] final(self).is_live(x) ==> !final(self).squashable(x),
            old(self).nested_then_tidied(*final(self), id, right),
            ({
                let f: int = if right { index as int } else { sib_index as int };
                blocks_swapped(
                    old(self).leaf_order(),
                    final(self).leaf_order(),
                    old(self).leaves_in(old(self).children_of(parent)[f]),
                    old(self).leaves_in(old(self).children_of(parent)[f + 1]),
                )
            }),
    {
        let ghost t0 = *self;
        let sibling = self.arena.children[parent.0 as usize][sib_index];
        proof {
            self.lemma_child_desc(parent, sib_index as int);
            self.lemma_child_desc(parent, index as int);
            assert(self.is_live(parent));
            assert(sibling != id);
            assert(id != self.root_id());
        }
        let wrapper = self.alloc_split(parent, sib_index, Layout::SplitV);
        let ghost t1 = *self;
        proof {
            let k0 = t0.children_of(parent);
            let k1 = t1.children_of(parent);
            assert(t1.parent_of(sibling) == Some(parent));
            assert(t1.parent_of(id) == Some(parent));
            assert(k1[sib_index as int] == wrapper);
            assert(k1[sib_index + 1] == sibling);
            t1.lemma_child_desc(parent, (sib_index + 1) as int);
            assert(k1.no_duplicates());
            assert(k1.index_of(sibling) == sib_index + 1);
            let k2 = k1.remove(sib_index + 1);
            assert(k2[sib_index as int] == wrapper);
            let iid: int = if index < sib_index { index as int } else { index + 1 };
            assert(k1[iid as int] == id);
            assert(!t1.is_desc(wrapper, sibling)) by {
                assert(wrapper != sibling);
                t1.lemma_desc_unfold(wrapper, sibling);
                if t1.is_desc(parent, sibling) {
                    t1.lemma_child_desc(parent, (sib_index + 1) as int);
                    t1.lemma_desc_live(parent, sibling);
                }
            }
        }
        self.relocate(sibling, wrapper, 0);
        let ghost t2 = *self;
        proof {
            let k1 = t1.children_of(parent);
            let k2 = k1.remove(sib_index + 1);
            assert(t2.children_of(parent) == k2);
            assert(k2[sib_index as int] == wrapper);
            assert(t2.children_of(parent).contains(wrapper));
            assert(t2.parent_of(id) == Some(parent));
            assert(t2.children_of(wrapper) == seq![sibling]);
            self.lemma_exception_cleared(parent);
            lemma_but_focus_except_any(*self, wrapper);
            assert(!t2.is_desc(wrapper, id)) by {
                assert(wrapper != id);
                t2.lemma_desc_unfold(wrapper, id);
                if t2.is_desc(parent, id) {
                    t2.lemma_desc_live(parent, id);
                }
            }
        }
        let at: usize = if right { 1 } else { 0 };
        self.relocate(id, wrapper, at);
        proof {
            let k2 = t2.children_of(parent);
            let i2 = k2.index_of(id);
            assert(k2.contains(id)) by {
                let k1 = t1.children_of(parent);
                let iid: int = if index < sib_index { index as int } else { index + 1 };
                let j2: int = index as int;
                assert(k1[iid as int] == id);
                assert(k2[j2 as int] == id);
            }
            assert(k2[i2] == id);
            let k3 = k2.remove(i2);
            assert(self.children_of(parent) == k3);
            if i2 < sib_index {
                assert(k3[sib_index - 1] == wrapper);
            } else {
                assert(i2 != sib_index);
                assert(k3[sib_index as int] == wrapper);
            }
            assert(self.children_of(parent).contains(wrapper));
            self.lemma_exception_cleared(parent);
            let k0 = t0.children_of(parent);
            let f: int = if right { index as int } else { sib_index as int };
            assert(self.children_of(parent) =~= k0.take(f) + seq![wrapper] + k0.skip(f + 2));
            assert(self.children_of(wrapper) =~= seq![k0[f + 1], k0[f]]);
            assert forall|y: NodeId|
                #![trigger self.kind_of(y)]
                t0.is_live(y) implies self.is_live(y) && (y != parent ==> self.kind_of(y) == t0.kind_of(y)) by {
                assert(t1.kind_of(y) == t0.kind_of(y));
                assert(t2.kind_of(y) == t1.kind_of(y));
            }
            assert forall|y: NodeId|
                #![trigger self.children_of(y)]
                t0.is_live(y) && y != parent implies self.children_of(y) == t0.children_of(y) by {
                assert(t1.children_of(y) == t0.children_of(y));
                assert(y != wrapper);
                assert(t2.children_of(y) == t1.children_of(y));
            }
            assert(self.structure_ok());
            TilingTree::lemma_nest_order(t0, *self, parent, f, Some(wrapper));
            assert(t0.nest_partner(id, right) == Some(sibling));
            assert(t0.nested_tree(*self, id, right, wrapper));
        }
        let ghost t3 = *self;
        proof {
            assert(t3.children_of(parent).contains(wrapper));
            let k = t3.children_of(parent).index_of(wrapper);
            t3.lemma_child_live(parent, k);
            assert(t3.children_of(wrapper).len() == 2);
            assert(t3.children_of(parent).len() >= 2);
        }
        self.compact_tree();
        proof {
            assert(t3.tidied(*self));
            assert(self.is_live(wrapper));
            assert forall|y: NodeId| #[trigger] self.is_leaf_node(y) == t0.is_leaf_node(y) by {
                if t0.is_leaf_node(y) {
                    assert(t0.is_live(y));
                    assert(t1.is_live(y) && t1.kind_of(y) == t0.kind_of(y));
                    assert(t1.is_leaf_node(y));
                    assert(t2.is_live(y) && t2.kind_of(y) == t1.kind_of(y));
                    assert(t3.is_live(y) && t3.kind_of(y) == t2.kind_of(y));
                    assert(t3.is_leaf_node(y));
                }
                if self.is_leaf_node(y) {
                    assert(self.is_live(y));
                    assert(t3.is_live(y));
                    assert(t2.is_live(y));
                    assert(t1.is_live(y));
                    assert(t3.kind_of(y) == t2.kind_of(y) && t2.kind_of(y) == t1.kind_of(y));
                    assert(t1.is_leaf_node(y));
                    assert(y != wrapper);
                    assert(t0.is_live(y));
                    assert(t1.kind_of(y) == t0.kind_of(y));
                }
            }
            assert forall|y: NodeId|
                #![trigger self.kind_of(y)]
                t0.is_leaf_node(y) implies self.kind_of(y) == t0.kind_of(y) && self.mode_of(y) == t0.mode_of(y) by {
                assert(t0.is_live(y));
                assert(t1.is_live(y) && t1.kind_of(y) == t0.kind_of(y) && t1.mode_of(y) == t0.mode_of(y));
                assert(t2.kind_of(y) == t1.kind_of(y) && t2.mode_of(y) == t1.mode_of(y));
                assert(t3.kind_of(y) == t2.kind_of(y) && t3.mode_of(y) == t2.mode_of(y));
                assert(t3.is_live(y));
                assert(t3.is_leaf_node(y));
                assert(self.is_live(y));
            }
            if let Some(f) = t0.focus_id() {
                if self.is_live(f) {
                    assert(t3.is_live(f));
                }
            }
        }
    }

    /// Moves `id` out of its parent into its grandparent, right after (or
    /// before) the parent, which is then collapsed if left empty or with a
    /// single child; the tree is compacted. Fails at the top level.
    pub(crate) fn expel(&mut self, id: NodeId, after: bool) -> (r: bool)
        requires
            old(self).wf(),
        ensures
            old(self).keeps_titles(*final(self)),
            final(self).wf(),
            r == (old(self).is_live(id) && old(self).parent_of(id) is Some && old(self).parent_of(
                old(self).parent_of(id)->0,
            ) is Some),
            !r ==> *final(self) == *old(self),
            r ==> forall|y: NodeId| #[trigger] final(self).is_leaf_node(y) == old(self).is_leaf_node(y),
            r ==> forall|y: NodeId|
                #![trigger final(self).kind_of(y)]
                old(self).is_leaf_node(y) ==> final(self).kind_of(y) == old(self).kind_of(y)
                    && final(self).mode_of(y).maximized == old(self).mode_of(y).maximized,
            r ==> (old(self).focus_id() matches Some(f) && final(self).is_live(f) ==> final(self).focus_id()
                == old(self).focus_id()),
            r ==> forall|x: NodeId| #[trigger] final(self).is_live(x) ==> !final(self).squashable(x),
            r ==> old(self).unnest_order(final(self).leaf_order(), id, after),
            r ==> old(self).unnested_then_tidied(*final(self), id, after),
    {
        if !self.is_live_exec(id) {
            return false;
        }
        let Some(parent) = self.arena.parents[id.0 as usize] else {
            return false;
        };
        assert(self.parent_of(id) is Some);
        let Some(grandparent) = self.arena.parents[parent.0 as usize] else {
            return false;
        };
        let ghost t0 = *self;
        proof {
            assert(id != self.root_id());
            assert(self.is_live(parent));
            assert(self.parent_of(parent) is Some);
            assert(parent != self.root_id());
        }
        let n = self.arena.children[grandparent.0 as usize].len();
        let parent_index = self.index_of_child(grandparent, parent);
        let at = if after { parent_index + 1 } else { parent_index };
        proof {
            lemma_wf_except_any(*self, grandparent);
            let idx = self.children_of(parent).index_of(id);
            assert(self.children_of(parent).contains(id));
            self.lemma_child_desc(parent, idx);
            assert(!self.is_desc(grandparent, id)) by {
                if self.is_desc(grandparent, id) {
                    self.lemma_desc_live(grandparent, id);
                }
            }
        }
        self.relocate(id, grandparent, at);
        let ghost t1 = *self;
        proof {
            let ii = t0.children_of(parent).index_of(id);
            assert(t0.children_of(parent).contains(id));
            assert(t0.children_of(parent)[ii] == id);
            assert(t0.kind_of(parent) is Split);
            assert(t0.kind_of(grandparent) is Split);
            assert(parent != grandparent);
            assert(t1.children_of(parent) == t0.children_of(parent).remove(ii));
            assert(t1.children_of(grandparent) == t0.children_of(grandparent).insert(at as int, id));
            assert(t1.structure_ok());
            TilingTree::lemma_expel_order(t0, t1, grandparent, parent, parent_index as int, ii, after);
            TilingTree::lemma_moved_witness(t0, t1, id, grandparent, at as int);
        }
        self.collapse_from(parent);
        let ghost t2 = *self;
        proof {
            assert forall|y: NodeId| #[trigger] t2.is_leaf_node(y) == t0.is_leaf_node(y) by {
                if t0.is_leaf_node(y) {
                    assert(t0.is_live(y));
                    assert(t1.is_live(y) && t1.kind_of(y) == t0.kind_of(y));
                    assert(t1.is_leaf_node(y));
                }
                if t2.is_leaf_node(y) {
                    assert(t2.is_live(y));
                    assert(t1.is_live(y));
                    assert(t2.kind_of(y) == t1.kind_of(y));
                    assert(t1.kind_of(y) == t0.kind_of(y));
                    assert(t0.is_live(y));
                }
            }
            assert(self.arena.has_leaf() == t0.arena.has_leaf()) by {
                if t0.arena.has_leaf() {
                    let y = choose|y: NodeId| t0.arena.is_leaf(y);
                    assert(t0.is_leaf_node(y));
                    assert(t2.is_leaf_node(y));
                    assert(self.arena.is_leaf(y));
                }
                if self.arena.has_leaf() {
                    let y = choose|y: NodeId| self.arena.is_leaf(y);
                    assert(self.is_leaf_node(y));
                    assert(t0.is_leaf_node(y));
                }
            }
            if let Some(f) = self.focus {
                assert(t1.focus == t0.focus);
                assert(t1.is_live(f) || t1.focus != Some(f));
            }
            assert(focus_ok(self.arena, self.focus, self.focus_history@));
        }
        self.compact_tree();
        proof {
            assert forall|y: NodeId| #[trigger] self.is_leaf_node(y) == t0.is_leaf_node(y) by {
                if t0.is_leaf_node(y) {
                    assert(t2.is_leaf_node(y));
                }
                if self.is_leaf_node(y) {
                    assert(self.is_live(y));
                    assert(t2.is_live(y));
                    assert(self.kind_of(y) == t2.kind_of(y));
                    assert(t2.is_leaf_node(y));
                }
            }
            assert forall|y: NodeId|
                #![trigger self.kind_of(y)]
                t0.is_leaf_node(y) implies self.kind_of(y) == t0.kind_of(y) && self.mode_of(y).maximized == t0.mode_of(y).maximized by {
                assert(t1.is_live(y) && t1.kind_of(y) == t0.kind_of(y) && t1.mode_of(y) == t0.mode_of(y));
                assert(t1.is_leaf_node(y));
                assert(t2.is_leaf_node(y));
                assert(t2.is_live(y));
                assert(t2.kind_of(y) == t1.kind_of(y) && t2.mode_of(y).maximized == t1.mode_of(y).maximized);
                assert(self.is_leaf_node(y));
                assert(self.is_live(y));
            }
            if let Some(f) = t0.focus_id() {
                if self.is_live(f) {
                    assert(t2.is_live(f));
                    assert(t1.is_live(f));
                }
            }
            assert forall|y: NodeId| #[trigger] self.is_live(y) implies t1.is_live(y) && self.kind_of(y)
                == t1.kind_of(y) by {
                assert(t2.is_live(y));
            }
            assert forall|y: NodeId| #[trigger] t1.is_leaf_node(y) implies self.is_leaf_node(y) by {
                assert(t2.is_leaf_node(y));
            }
            assert forall|x: NodeId, a: NodeId|
                #![trigger self.is_desc(x, a)]
                self.is_live(x) && self.is_live(a) implies self.is_desc(x, a) == t1.is_desc(x, a) by {
                assert(t2.is_live(x) && t2.is_live(a));
                assert(self.is_desc(x, a) == t2.is_desc(x, a));
            }
            assert(t1.tidied(*self));
        }
        true
    }
}

impl TilingTree {
    /// The node that nesting acts on: the leaf holding `window` if given and
    /// found, else the focused node.
    pub open spec fn nest_subject(self, window: Option<u64>) -> Option<NodeId> {
        match window {
            Some(w) => match self.node_for_window_spec(w) {
                Some(l) => Some(l),
                None => self.focus_id(),
            },
            None => self.focus_id(),
        }
    }

    fn nest_or_unnest(&mut self, window: Option<u64>, right: bool)
        requires
            old(self).wf(),
            old(self).slot_count() < usize::MAX,
        ensures
            old(self).keeps_titles(*final(self)),
            final(self).wf(),
            old(self).nest_subject(window) is None ==> *final(self) == *old(self),
            forall|y: NodeId| #[trigger] final(self).is_leaf_node(y) == old(self).is_leaf_node(y),
            forall|y: NodeId|
                #![trigger final(self).kind_of(y)]
                old(self).is_leaf_node(y) ==> final(self).kind_of(y) == old(self).kind_of(y)
                    && final(self).mode_of(y).maximized == old(self).mode_of(y).maximized,
            old(self).nest_subject(window) matches Some(id) ==> old(self).nest_or_unnest_order(
                final(self).leaf_order(),
                id,
                right,
            ),
            old(self).nest_subject(window) matches Some(id) ==> (!old(self).unnestable(id) && old(
                self,
            ).nest_partner(id, right) is Some && old(self).children_of(old(self).parent_of(id)->0).len() != 2
                ==> old(self).nested_then_tidied(*final(self), id, right)),
            old(self).nest_subject(window) matches Some(id) ==> (old(self).unnestable(id) ==> old(
                self,
            ).unnested_then_tidied(*final(self), id, right)),
    {
        let found = match window {
            Some(w) => self.node_for_window(w),
            None => None,
        };
        let id = match found {
            Some(l) => Some(l),
            None => self.focus,
        };
        let Some(id) = id else {
            return;
        };
        proof {
            if let Some(w) = window {
                self.lemma_node_for_window(w);
                if let Some(l) = found {
                    self.lemma_leaf_has_leaf(l);
                }
            }
        }
        let ghost t0 = *self;
        self.focus_node(Some(id));
        let ghost t1 = *self;
        proof {
            assert(t1.arena == t0.arena);
            t0.lemma_leaf_order();
            t1.lemma_leaf_order();
            assert(t0.is_live(id));
        }
        if !self.expel(id, right) {
            assert(self.slot_count() == t1.slot_count());
            self.consume(id, right);
        }
        proof {
            assert(t1.nest_partner(id, right) == t0.nest_partner(id, right));
            assert(t1.unnestable(id) == t0.unnestable(id));
            assert(t1.unnest_order(self.leaf_order(), id, right) == t0.unnest_order(self.leaf_order(), id, right));
            assert(t1.nest_order(self.leaf_order(), id, right) == t0.nest_order(self.leaf_order(), id, right));
            if !t0.unnestable(id) && t0.nest_partner(id, right) is Some && t0.children_of(t0.parent_of(id)->0).len()
                != 2 {
                assert(t1.children_of(t1.parent_of(id)->0) == t0.children_of(t0.parent_of(id)->0));
                TilingTree::lemma_nested_same_nodes(t0, t1, *self, id, right);
            }
            if t0.unnestable(id) {
                TilingTree::lemma_unnested_same_nodes(t0, t1, *self, id, right);
            }
        }
    }

    /// Moves the window (or the focused node) out of its split to the left;
    /// at the top level, nests it with its left sibling instead. It takes the focus.
    pub fn nest_or_unnest_window_left(&mut self, window: Option<u64>)
        requires
            old(self).wf(),
            old(self).slot_count() < usize::MAX,
        ensures
            old(self).keeps_titles(*final(self)),
            final(self).wf(),
            old(self).nest_subject(window) is None ==> *final(self) == *old(self),
            forall|y: NodeId| #[trigger] final(self).is_leaf_node(y) == old(self).is_leaf_node(y),
            forall|y: NodeId|
                #![trigger final(self).kind_of(y)]
                old(self).is_leaf_node(y) ==> final(self).kind_of(y) == old(self).kind_of(y)
                    && final(self).mode_of(y).maximized == old(self).mode_of(y).maximized,
            old(self).nest_subject(window) matches Some(id) ==> old(self).nest_or_unnest_order(
                final(self).leaf_order(),
                id,
                false,
            ),
            old(self).nest_subject(window) matches Some(id) ==> (!old(self).unnestable(id) && old(
                self,
            ).nest_partner(id, false) is Some && old(self).children_of(old(self).parent_of(id)->0).len() != 2
                ==> old(self).nested_then_tidied(*final(self), id, false)),
            old(self).nest_subject(window) matches Some(id) ==> (old(self).unnestable(id) ==> old(
                self,
            ).unnested_then_tidied(*final(self), id, false)),
    {
        self.nest_or_unnest(window, false)
    }

    /// As `nest_or_unnest_window_left`, to the right.
    pub fn nest_or_unnest_window_right(&mut self, window: Option<u64>)
        requires
            old(self).wf(),
            old(self).slot_count() < usize::MAX,
        ensures
            old(self).keeps_titles(*final(self)),
            final(self).wf(),
            old(self).nest_subject(window) is None ==> *final(self) == *old(self),
            forall|y: NodeId| #[trigger] final(self).is_leaf_node(y) == old(self).is_leaf_node(y),
            forall|y: NodeId|
                #![trigger final(self).kind_of(y)]
                old(self).is_leaf_node(y) ==> final(self).kind_of(y) == old(self).kind_of(y)
                    && final(self).mode_of(y).maximized == old(self).mode_of(y).maximized,
            old(self).nest_subject(window) matches Some(id) ==> old(self).nest_or_unnest_order(
                final(self).leaf_order(),
                id,
                true,
            ),
            old(self).nest_subject(window) matches Some(id) ==> (!old(self).unnestable(id) && old(
                self,
            ).nest_partner(id, true) is Some && old(self).children_of(old(self).parent_of(id)->0).len() != 2
                ==> old(self).nested_then_tidied(*final(self), id, true)),
            old(self).nest_subject(window) matches Some(id) ==> (old(self).unnestable(id) ==> old(
                self,
            ).unnested_then_tidied(*final(self), id, true)),
    {
        self.nest_or_unnest(window, true)
    }

    /// Nests the focused node with its right sibling (see `consume`).
    pub fn nest_focused_window(&mut self)
        requires
            old(self).wf(),
            old(self).slot_count() < usize::MAX,
        ensures
            old(self).keeps_titles(*final(self)),
            final(self).wf(),
            old(self).focus_id() matches Some(f) && old(self).nest_partner(f, true) is Some || *final(self)
                == *old(self),
            forall|y: NodeId| #[trigger] final(self).is_leaf_node(y) == old(self).is_leaf_node(y),
            old(self).focus_id() matches Some(f) ==> (old(self).nest_partner(f, true) is Some ==> old(
                self,
            ).nest_order(final(self).leaf_order(), f, true)),
            old(self).focus_id() matches Some(f) ==> (old(self).nest_partner(f, true) is Some && old(
                self,
            ).children_of(old(self).parent_of(f)->0).len() != 2 ==> old(self).nested_then_tidied(
                *final(self),
                f,
                true,
            )),
            old(self).focus_id() matches Some(f) ==> (old(self).nest_partner(f, true) is Some && old(
                self,
            ).children_of(old(self).parent_of(f)->0).len() == 2 ==> {
                let p = old(self).parent_of(f)->0;
                &&& final(self).kind_of(p) == NodeKind::Split(Layout::SplitV)
                &&& final(self).children_of(p) == seq![old(self).nest_partner(f, true)->0, f]
            }),
    {
        if let Some(id) = self.focus {
            self.consume(id, true);
        }
    }

    /// Moves the focused node out of its split, right after it (see `expel`).
    pub fn unnest_focused_window(&mut self)
        requires
            old(self).wf(),
        ensures
            old(self).keeps_titles(*final(self)),
            final(self).wf(),
            forall|y: NodeId| #[trigger] final(self).is_leaf_node(y) == old(self).is_leaf_node(y),
            old(self).focus_id() is None ==> *final(self) == *old(self),
            old(self).focus_id() matches Some(f) ==> (!old(self).unnestable(f) ==> *final(self) == *old(self)),
            old(self).focus_id() matches Some(f) ==> (old(self).unnestable(f) ==> old(self).unnest_order(
                final(self).leaf_order(),
                f,
                true,
            )),
            old(self).focus_id() matches Some(f) ==> (old(self).unnestable(f) ==> old(
                self,
            ).unnested_then_tidied(*final(self), f, true)),
    {
        if let Some(id) = self.focus {
            self.expel(id, true);
        }
    }
}

impl TilingTree {
    /// Gives split `id` the layout `layout`; returns whether `id` is a split.
    pub fn set_layout(&mut self, id: NodeId, layout: Layout) -> (r: bool)
        requires
            old(self).wf(),
        ensures
            old(self).keeps_titles(*final(self)),
            final(self).wf(),
            r == old(self).is_split_node(id),
            !r ==> *final(self) == *old(self),
            r ==> final(self).kind_of(id) == NodeKind::Split(layout),
            r ==> forall|x: NodeId|
                #![trigger final(self).kind_of(x)]
                old(self).is_live(x) && x != id ==> final(self).kind_of(x) == old(self).kind_of(x),
            forall|x: NodeId| #[trigger] final(self).is_live(x) == old(self).is_live(x),
            forall|x: NodeId|
                #![trigger final(self).children_of(x)]
                final(self).children_of(x) == old(self).children_of(x),
            forall|x: NodeId| #![trigger final(self).mode_of(x)] final(self).mode_of(x) == old(self).mode_of(x),
            final(self).focus_id() == old(self).focus_id(),
            final(self).history() == old(self).history(),
    {
        if !self.is_split(id) {
            return false;
        }
        self.relayout(id, layout);
        true
    }
}

} // verus!
