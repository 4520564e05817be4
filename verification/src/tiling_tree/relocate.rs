//! Moving a subtree to another place in the tree, and reaping the splits
//! that this leaves empty.
use vstd::prelude::*;
use super::{Arena, NodeId, NodeKind, TilingTree, count_true, focus_ok, modes_ok, normal_mode};
use super::focus::{lemma_without, without};

verus! {

/// Depths after the subtree of `x` moves: it is pushed below every other
/// node, which keeps parents above their children wherever it lands.
pub(crate) open spec fn lifted_subtree(a: Arena, x: NodeId) -> Seq<nat> {
    Seq::new(
        a.depth@.len(),
        |i: int|
            if a.is_desc(NodeId(i as u64), x) {
                a.depth@[i] + a.max_depth@ + 1
            } else {
                a.depth@[i]
            },
    )
}

/// The children of `r` after child `x` (at `idx` below `p`) moves to position
/// `j` below `q`; `j` counts in `q`'s list with `x` already taken out.
pub open spec fn relocated_children(
    t: TilingTree,
    r: NodeId,
    x: NodeId,
    p: NodeId,
    idx: int,
    q: NodeId,
    j: int,
) -> Seq<NodeId> {
    if r == p && r == q {
        t.children_of(p).remove(idx).insert(j, x)
    } else if r == p {
        t.children_of(p).remove(idx)
    } else if r == q {
        t.children_of(q).insert(j, x)
    } else {
        t.children_of(r)
    }
}

impl TilingTree {
    /// `t` is this tree with the subtree of non-root `x` moved, as it is, to
    /// position `j` among the children of split `q` (counted with `x` taken
    /// out): the same nodes, kinds and root, and only the children of the
    /// old parent of `x` and of `q` changed.
    pub open spec fn moved_tree(self, t: TilingTree, x: NodeId, q: NodeId, j: int) -> bool {
        let p = self.parent_of(x)->0;
        let i = self.children_of(p).index_of(x);
        &&& t.structure_ok()
        &&& t.root_id() == self.root_id()
        &&& forall|y: NodeId| #[trigger] t.is_live(y) == self.is_live(y)
        &&& forall|y: NodeId| #![trigger t.kind_of(y)] t.kind_of(y) == self.kind_of(y)
        &&& forall|r: NodeId|
            #![trigger t.children_of(r)]
            self.is_live(r) ==> t.children_of(r) == relocated_children(self, r, x, p, i, q, j)
    }

    /// Where `move_subtree_to_node` puts `id`: right after a window
    /// `destination`, or last among the children of a split `destination`
    /// (positions counted with `id` taken out).
    pub open spec fn node_move_slot(self, id: NodeId, destination: NodeId) -> (NodeId, int) {
        let p = self.parent_of(id)->0;
        let i = self.children_of(p).index_of(id);
        if self.kind_of(destination) is Leaf {
            let q = self.parent_of(destination)->0;
            let ia = self.children_of(q).index_of(destination);
            (q, if q == p && i < ia {
                ia
            } else {
                ia + 1
            })
        } else {
            (destination, if destination == p {
                self.children_of(destination).len() - 1
            } else {
                self.children_of(destination).len() as int
            })
        }
    }

    /// `order` is the window order of this tree after the subtree of `x`
    /// moved to position `j` below `q` (see `moved_tree`).
    pub open spec fn order_after_move(self, order: Seq<NodeId>, x: NodeId, q: NodeId, j: int) -> bool {
        exists|t: TilingTree| #[trigger] self.moved_tree(t, x, q, j) && t.leaf_order() == order
    }
}

impl TilingTree {
    /// The tree right after `relocate` moved `x` to position `j` below `q`
    /// witnesses the window order of a tree with that order.
    pub(crate) proof fn lemma_moved_witness(t0: TilingTree, t1: TilingTree, x: NodeId, q: NodeId, j: int)
        requires
            t1.structure_ok(),
            forall|y: NodeId| #[trigger] t1.is_live(y) == t0.is_live(y),
            forall|y: NodeId| #![trigger t1.kind_of(y)] t1.kind_of(y) == t0.kind_of(y),
            forall|r: NodeId|
                #![trigger t1.children_of(r)]
                t0.is_live(r) ==> t1.children_of(r) == relocated_children(
                    t0,
                    r,
                    x,
                    t0.parent_of(x)->0,
                    t0.children_of(t0.parent_of(x)->0).index_of(x),
                    q,
                    j,
                ),
            t1.root_id() == t0.root_id(),
        ensures
            forall|order: Seq<NodeId>| order == t1.leaf_order() ==> #[trigger] t0.order_after_move(order, x, q, j),
            t0.moved_tree(t1, x, q, j),
    {
        assert(t0.moved_tree(t1, x, q, j));
    }
}

/// Two trees that result from the same move have the same window order, so
/// `order_after_move` fixes the order.
pub proof fn law_move_order_is_determined(t0: TilingTree, a: TilingTree, b: TilingTree, x: NodeId, q: NodeId, j: int)
    requires
        t0.moved_tree(a, x, q, j),
        t0.moved_tree(b, x, q, j),
    ensures
        a.leaf_order() == b.leaf_order(),
{
    a.lemma_leaf_order();
    b.lemma_leaf_order();
    let root = a.arena.root;
    if a.arena.is_live(root) {
        assert forall|y: NodeId|
            #![trigger a.arena.is_desc(y, root)]
            a.arena.is_live(y) && a.arena.is_desc(y, root) implies super::leaf_order::same_node(a.arena, b.arena, y) by {
            assert(a.is_live(y) == t0.is_live(y));
            assert(b.is_live(y) == t0.is_live(y));
            assert(a.kind_of(y) == b.kind_of(y));
            assert(a.children_of(y) == b.children_of(y));
        }
        Arena::lemma_leaves_frame(a.arena, b.arena, root);
    } else {
        assert(!b.arena.is_live(root)) by {
            assert(b.is_live(root) == t0.is_live(root));
        }
    }
}

impl Arena {
    #[verifier::spinoff_prover]
    #[verifier::rlimit(40)]
    pub(crate) proof fn lemma_relocate_arena(
        t0: TilingTree,
        a0: Arena,
        a1: Arena,
        x: NodeId,
        p: NodeId,
        idx: int,
        q: NodeId,
        j: int,
    )
        requires
            a0 == t0.arena,
            a0.wf_except(Some(q)),
            a0.is_live(x),
            x != a0.root,
            a0.parent_of(x) == Some(p),
            0 <= idx < a0.children_of(p).len(),
            a0.children_of(p)[idx] == x,
            a0.is_live(q),
            a0.kind_of(q) is Split,
            !a0.is_desc(q, x),
            0 <= j <= (if q == p {
                a0.children_of(p).len() - 1
            } else {
                a0.children_of(q).len() as int
            }),
            a1.live == a0.live,
            a1.kinds == a0.kinds,
            a1.root == a0.root,
            a1.parents@ == a0.parents@.update(x.0 as int, Some(q)),
            a1.children@.len() == a0.children@.len(),
            forall|r: NodeId|
                #![trigger a1.children_of(r)]
                r.0 < a0.children@.len() ==> a1.children_of(r) == relocated_children(t0, r, x, p, idx, q, j),
            a1.depth@ == lifted_subtree(a0, x),
            a1.max_depth@ == 2 * a0.max_depth@ + 1,
        ensures
            a1.wf_except(Some(p)),
            forall|y: NodeId| #[trigger] a1.is_live(y) == a0.is_live(y),
    {
        let root = a0.root;
        assert(a0.parent_of(root) is None);
        let k = a0.max_depth@ + 1;
        assert forall|y: NodeId| y.0 < a0.live@.len() implies #[trigger] a1.depth_of(y) == if a0.is_desc(y, x) {
            a0.depth_of(y) + k
        } else {
            a0.depth_of(y)
        } by {
            assert(NodeId((y.0 as int) as u64) == y);
        }
        assert(a0.children_of(p).contains(x));
        a0.lemma_child_desc(p, idx);
        assert(!a0.is_desc(p, x)) by {
            if a0.is_desc(p, x) {
                a0.lemma_desc_live(p, x);
            }
        }
        assert(a0.is_desc(x, x)) by {
            reveal_with_fuel(Arena::is_desc, 1);
        }
        assert(a0.depth_of(q) <= a0.max_depth@ && a0.depth_of(p) <= a0.max_depth@);
        assert(a0.children_of(q).no_duplicates() && a0.children_of(p).no_duplicates());
        assert(!a0.children_of(q).contains(x) || q == p) by {
            if a0.children_of(q).contains(x) {
                let m = a0.children_of(q).index_of(x);
                a0.lemma_child_desc(q, m);
            }
        }
        let rem = a0.children_of(p).remove(idx);
        assert(!rem.contains(x)) by {
            if rem.contains(x) {
                let m = rem.index_of(x);
                if m < idx {
                    assert(a0.children_of(p)[m] == x);
                } else {
                    assert(a0.children_of(p)[m + 1] == x);
                }
            }
        }
        assert forall|m: int| 0 <= m < rem.len() implies #[trigger] rem[m] == a0.children_of(p)[if m < idx { m } else { m + 1 }] by {}
        // Each new list, entry by entry.
        assert forall|r: NodeId, i: int|
            a0.is_live(r) && 0 <= i < a1.children_of(r).len() implies (#[trigger] a1.children_of(r)[i] == x && r == q)
                || (a1.children_of(r)[i] != x && exists|m: int|
                0 <= m < a0.children_of(r).len() && a0.children_of(r)[m] == a1.children_of(r)[i]) by {
            let c1 = a1.children_of(r);
            if r == p && r == q {
                let ins = rem.insert(j, x);
                if i == j {
                    assert(c1[i] == x);
                } else {
                    let m = if i < j { i } else { i - 1 };
                    assert(c1[i] == rem[m]);
                    assert(rem.contains(rem[m]));
                    let mm = if m < idx { m } else { m + 1 };
                    assert(a0.children_of(r)[mm] == c1[i]);
                }
            } else if r == p {
                assert(c1[i] == rem[i]);
                assert(rem.contains(rem[i]));
                let mm = if i < idx { i } else { i + 1 };
                assert(a0.children_of(r)[mm] == c1[i]);
            } else if r == q {
                if i == j {
                    assert(c1[i] == x);
                } else {
                    let m = if i < j { i } else { i - 1 };
                    assert(c1[i] == a0.children_of(q)[m]);
                    assert(a0.children_of(q).contains(c1[i]));
                }
            } else {
                assert(c1[i] == a0.children_of(r)[i]);
                if c1[i] == x {
                    a0.lemma_child_desc(r, i);
                }
            }
        }
        // Parents.
        assert forall|y: NodeId|
            #![trigger a1.parent_of(y)]
            a1.is_live(y) && y != a1.root implies {
                &&& a1.parent_of(y) is Some
                &&& a1.is_live(a1.parent_of(y)->0)
                &&& a1.kind_of(a1.parent_of(y)->0) is Split
                &&& a1.children_of(a1.parent_of(y)->0).contains(y)
                &&& a1.depth_of(a1.parent_of(y)->0) < a1.depth_of(y)
            } by {
            if y == x {
                assert(a1.parent_of(y) == Some(q));
                if q == p {
                    assert(rem.insert(j, x)[j] == x);
                } else {
                    assert(a0.children_of(q).insert(j, x)[j] == x);
                }
            } else {
                assert(a0.parent_of(y) is Some);
                let r = a0.parent_of(y)->0;
                assert(a1.parent_of(y) == Some(r));
                a0.lemma_desc_unfold(y, x);
                let m = a0.children_of(r).index_of(y);
                assert(a0.children_of(r)[m] == y);
                if r == p {
                    assert(m != idx);
                    let mr = if m < idx { m } else { m - 1 };
                    assert(rem[mr] == y);
                    if r == q {
                        let mi = if mr < j { mr } else { mr + 1 };
                        assert(rem.insert(j, x)[mi] == y);
                    }
                } else if r == q {
                    let mi = if m < j { m } else { m + 1 };
                    assert(a0.children_of(q).insert(j, x)[mi] == y);
                } else {
                    assert(a1.children_of(r)[m] == y);
                }
            }
        }
        // Children.
        assert forall|r: NodeId, i: int|
            #![trigger a1.children_of(r)[i]]
            a1.is_live(r) && 0 <= i < a1.children_of(r).len() implies {
                &&& a1.is_live(a1.children_of(r)[i])
                &&& a1.parent_of(a1.children_of(r)[i]) == Some(r)
            } by {
            let c = a1.children_of(r)[i];
            if c == x && r == q {
            } else {
                let m = choose|m: int| 0 <= m < a0.children_of(r).len() && a0.children_of(r)[m] == c;
                a0.lemma_child_desc(r, m);
            }
        }
        assert forall|r: NodeId|
            #![trigger a1.children_of(r)]
            a1.is_live(r) implies {
                &&& a1.children_of(r).no_duplicates()
                &&& (a1.kind_of(r) is Leaf ==> a1.children_of(r).len() == 0)
            } by {
            let c0 = a0.children_of(r);
            let c1 = a1.children_of(r);
            assert(c0.no_duplicates());
            assert forall|i: int, i2: int| 0 <= i < c1.len() && 0 <= i2 < c1.len() && i != i2 implies c1[i] != c1[i2] by {
                if r == p && r == q {
                    let ins = rem.insert(j, x);
                    if i == j {
                        let m2 = if i2 < j { i2 } else { i2 - 1 };
                        assert(c1[i2] == rem[m2]);
                        assert(rem.contains(rem[m2]));
                    } else if i2 == j {
                        let m = if i < j { i } else { i - 1 };
                        assert(c1[i] == rem[m]);
                        assert(rem.contains(rem[m]));
                    } else {
                        let m = if i < j { i } else { i - 1 };
                        let m2 = if i2 < j { i2 } else { i2 - 1 };
                        let mm = if m < idx { m } else { m + 1 };
                        let mm2 = if m2 < idx { m2 } else { m2 + 1 };
                        assert(c1[i] == c0[mm] && c1[i2] == c0[mm2]);
                    }
                } else if r == p {
                    let mm = if i < idx { i } else { i + 1 };
                    let mm2 = if i2 < idx { i2 } else { i2 + 1 };
                    assert(c1[i] == c0[mm] && c1[i2] == c0[mm2]);
                } else if r == q {
                    if i == j {
                        let m2 = if i2 < j { i2 } else { i2 - 1 };
                        assert(c1[i2] == c0[m2]);
                    } else if i2 == j {
                        let m = if i < j { i } else { i - 1 };
                        assert(c1[i] == c0[m]);
                    } else {
                        let m = if i < j { i } else { i - 1 };
                        let m2 = if i2 < j { i2 } else { i2 - 1 };
                        assert(c1[i] == c0[m] && c1[i2] == c0[m2]);
                    }
                } else {
                    assert(c1[i] == c0[i] && c1[i2] == c0[i2]);
                }
            }
            if a1.kind_of(r) is Leaf {
                assert(c0.len() == 0);
                assert(r != q);
                assert(r != p);
            }
        }
        assert forall|r: NodeId|
            #![trigger a1.children_of(r)]
            a1.is_live(r) && a1.kind_of(r) is Split && r != a1.root && Some(p) != Some(r)
                implies a1.children_of(r).len() > 0 by {
            if r == q {
                if q == p {
                    assert(rem.insert(j, x)[j] == x);
                } else {
                    assert(a0.children_of(q).insert(j, x)[j] == x);
                }
                assert(a1.children_of(q).contains(x));
            } else {
                assert(a0.children_of(r).len() > 0);
            }
        }
        assert forall|y: NodeId| #[trigger] a1.is_live(y) implies a1.depth_of(y) <= a1.max_depth@ by {
            assert(a0.is_live(y));
            assert(a0.depth_of(y) <= a0.max_depth@);
        }
        assert(a1.wf_parents());
        assert(a1.wf_children());
        assert(a1.wf_depth());
        assert(a1.nonempty_except(Some(p)));
    }
}

/// A fully well-formed tree is well formed with any exception.
pub(crate) proof fn lemma_wf_except_any(t: TilingTree, e: NodeId)
    requires
        t.wf(),
    ensures
        t.wf_but_focus_except(Some(e)),
        t.wf_focus(),
{
    assert forall|r: NodeId|
        #![trigger t.arena.children_of(r)]
        t.arena.is_live(r) && t.arena.kind_of(r) is Split && r != t.arena.root && Some(e) != Some(r)
            implies t.arena.children_of(r).len() > 0 by {
        let _ = t.arena.children_of(r);
    }
    assert(t.arena.nonempty_except(Some(e)));
}

/// The side-state invariant only looks at which nodes are live and what they are.
pub(crate) proof fn lemma_modes_same_nodes(
    a0: Arena,
    a1: Arena,
    modes: Seq<super::PendingMode>,
    previous: Seq<Option<super::Layout>>,
)
    requires
        modes_ok(a0, modes, previous),
        a1.live == a0.live,
        a1.kinds == a0.kinds,
    ensures
        modes_ok(a1, modes, previous),
{
    assert forall|y: NodeId|
        #![trigger modes[y.0 as int]]
        y.0 < a1.live@.len() implies {
            &&& (!a1.is_live(y) ==> modes[y.0 as int] == normal_mode() && previous[y.0 as int] is None)
            &&& (a1.is_live(y) && a1.kind_of(y) is Split ==> !modes[y.0 as int].maximized)
        } by {
        let _ = modes[y.0 as int];
    }
}

/// The focus invariant only looks at which nodes are live and what they are.
pub(crate) proof fn lemma_focus_same_nodes(a0: Arena, a1: Arena, focus: Option<NodeId>, history: Seq<NodeId>)
    requires
        focus_ok(a0, focus, history),
        a1.live == a0.live,
        a1.kinds == a0.kinds,
    ensures
        focus_ok(a1, focus, history),
{
    assert forall|i: int| 0 <= i < history.len() implies #[trigger] a1.is_live(history[i]) by {
        assert(a0.is_live(history[i]));
    }
    assert(a1.has_leaf() == a0.has_leaf()) by {
        if a0.has_leaf() {
            let y = choose|y: NodeId| a0.is_leaf(y);
            assert(a1.is_leaf(y));
        }
        if a1.has_leaf() {
            let y = choose|y: NodeId| a1.is_leaf(y);
            assert(a0.is_leaf(y));
        }
    }
}

impl TilingTree {
    /// Moves child `x` out of its parent to position `j` of split `q` (counted
    /// with `x` taken out). The old parent may be left empty.
    pub(crate) fn relocate(&mut self, x: NodeId, q: NodeId, j: usize)
        requires
            old(self).wf_but_focus_except(Some(q)),
            old(self).wf_focus(),
            old(self).is_live(x),
            x != old(self).root_id(),
            old(self).is_split_node(q),
            !old(self).is_desc(q, x),
            j <= (if Some(q) == old(self).parent_of(x) {
                old(self).children_of(q).len() - 1
            } else {
                old(self).children_of(q).len() as int
            }),
        ensures
            old(self).keeps_titles(*final(self)),
            final(self).wf_but_focus_except(old(self).parent_of(x)),
            final(self).wf_focus(),
            old(self).parent_of(x) is Some,
            forall|y: NodeId| #[trigger] final(self).is_live(y) == old(self).is_live(y),
            forall|y: NodeId| #![trigger final(self).kind_of(y)] final(self).kind_of(y) == old(self).kind_of(y),
            forall|y: NodeId| #![trigger final(self).mode_of(y)] final(self).mode_of(y) == old(self).mode_of(y),
            final(self).parent_of(x) == Some(q),
            forall|y: NodeId|
                #![trigger final(self).parent_of(y)]
                old(self).is_live(y) && y != x ==> final(self).parent_of(y) == old(self).parent_of(y),
            forall|r: NodeId|
                #![trigger final(self).children_of(r)]
                old(self).is_live(r) ==> final(self).children_of(r) == relocated_children(
                    *old(self),
                    r,
                    x,
                    old(self).parent_of(x)->0,
                    old(self).children_of(old(self).parent_of(x)->0).index_of(x),
                    q,
                    j as int,
                ),
            final(self).focus_id() == old(self).focus_id(),
            final(self).history() == old(self).history(),
            final(self).root_id() == old(self).root_id(),
            final(self).modes == old(self).modes,
            final(self).previous_layouts == old(self).previous_layouts,
    {
        let ghost t0 = *self;
        let ghost a0 = self.arena;
        assert(self.parent_of(x) is Some);
        let p = self.arena.parents[x.0 as usize].unwrap();
        let idx = self.index_of_child(p, x);
        self.arena.children[p.0 as usize].remove(idx);
        self.arena.children[q.0 as usize].insert(j, x);
        self.arena.parents.set(x.0 as usize, Some(q));
        self.arena.depth = Ghost(lifted_subtree(a0, x));
        self.arena.max_depth = Ghost(2 * a0.max_depth@ + 1);
        proof {
            assert forall|r: NodeId|
                #![trigger self.arena.children_of(r)]
                r.0 < a0.children@.len() implies self.arena.children_of(r) == relocated_children(
                    t0,
                    r,
                    x,
                    p,
                    idx as int,
                    q,
                    j as int,
                ) by {}
            Arena::lemma_relocate_arena(t0, a0, self.arena, x, p, idx as int, q, j as int);
            lemma_modes_same_nodes(a0, self.arena, self.modes@, self.previous_layouts@);
            lemma_focus_same_nodes(a0, self.arena, self.focus, self.focus_history@);
            assert forall|y: NodeId|
                #![trigger self.parent_of(y)]
                t0.is_live(y) && y != x implies self.parent_of(y) == t0.parent_of(y) by {}
        }
    }

    /// Walks up from `start` removing empty splits below the root. A focus on a
    /// removed split moves to its parent.
    pub(crate) fn reap_empty_from(&mut self, start: NodeId)
        requires
            old(self).wf_but_focus_except(Some(start)),
            old(self).wf_focus(),
        ensures
            old(self).keeps_titles(*final(self)),
            final(self).wf(),
            forall|y: NodeId| #[trigger] final(self).is_live(y) ==> old(self).is_live(y)
                && final(self).kind_of(y) == old(self).kind_of(y)
                && final(self).mode_of(y) == old(self).mode_of(y),
            forall|y: NodeId| #[trigger] old(self).is_leaf_node(y) ==> final(self).is_leaf_node(y),
            old(self).focus matches Some(f) && final(self).is_live(f) ==> final(self).focus == old(self).focus,
            final(self).root_id() == old(self).root_id(),
            final(self).leaf_order() == old(self).leaf_order(),
            forall|x: NodeId, a: NodeId|
                #![trigger final(self).is_desc(x, a)]
                final(self).is_live(x) && final(self).is_live(a) ==> final(self).is_desc(x, a) == old(
                    self,
                ).is_desc(x, a),
    {
        let ghost t0 = *self;
        let mut cur = start;
        loop
            invariant
                old(self).keeps_titles(*self),
                forall|x: NodeId, a: NodeId|
                    #![trigger self.is_desc(x, a)]
                    self.is_live(x) && self.is_live(a) ==> self.is_desc(x, a) == t0.is_desc(x, a),
                self.wf_but_focus_except(Some(cur)),
                self.wf_focus(),
                t0 == *old(self),
                forall|y: NodeId| #[trigger] self.is_live(y) ==> t0.is_live(y)
                    && self.kind_of(y) == t0.kind_of(y)
                    && self.mode_of(y) == t0.mode_of(y),
                forall|y: NodeId| #[trigger] t0.is_leaf_node(y) ==> self.is_leaf_node(y),
                t0.focus matches Some(f) && self.is_live(f) ==> self.focus == t0.focus,
                self.root_id() == t0.root_id(),
                self.leaf_order() == t0.leaf_order(),
            decreases count_true(self.arena.live@),
        {
            if !self.is_live_exec(cur) || cur == self.arena.root {
                proof {
                    self.lemma_exception_cleared(cur);
                }
                return;
            }
            let parent = match self.arena.parents[cur.0 as usize] {
                Some(p) => p,
                None => {
                    assert(self.parent_of(cur) is Some);
                    return;
                },
            };
            assert(self.parent_of(cur) is Some);
            let empty = match self.arena.kinds[cur.0 as usize] {
                NodeKind::Leaf(_) => false,
                NodeKind::Split(_) => self.arena.children[cur.0 as usize].len() == 0,
            };
            if !empty {
                proof {
                    self.lemma_exception_cleared(cur);
                }
                return;
            }
            let ghost before = *self;
            if self.focus == Some(cur) {
                self.set_focus_id(Some(parent));
                proof {
                    super::focus::lemma_history_front_ok(before.arena, before.focus_history@, parent);
                }
            }
            let ghost mid = *self;
            proof {
                assert(mid.arena == before.arena);
                mid.lemma_leaf_order();
                before.lemma_leaf_order();
            }
            self.unlink_node(cur, parent);
            proof {
                assert forall|x: NodeId, a: NodeId|
                    #![trigger self.is_desc(x, a)]
                    self.is_live(x) && self.is_live(a) implies self.is_desc(x, a) == t0.is_desc(x, a) by {
                    assert(mid.is_live(x) && mid.is_live(a));
                    assert(self.is_desc(x, a) == mid.is_desc(x, a));
                    assert(mid.is_desc(x, a) == before.is_desc(x, a));
                }
                assert forall|y: NodeId| #[trigger] t0.is_leaf_node(y) implies self.is_leaf_node(y) by {
                    assert(before.is_leaf_node(y));
                    assert(y != cur);
                    assert(mid.is_live(y));
                    assert(self.is_live(y));
                }
                assert forall|y: NodeId| #[trigger] self.is_live(y) implies t0.is_live(y)
                    && self.kind_of(y) == t0.kind_of(y)
                    && self.mode_of(y) == t0.mode_of(y) by {
                    assert(mid.is_live(y));
                    assert(before.is_live(y));
                }
                assert(self.arena.has_leaf() == before.arena.has_leaf()) by {
                    if before.arena.has_leaf() {
                        let y = choose|y: NodeId| before.arena.is_leaf(y);
                        assert(before.is_leaf_node(y));
                        assert(y != cur);
                        assert(self.is_live(y));
                        assert(self.arena.is_leaf(y));
                    }
                    if self.arena.has_leaf() {
                        let y = choose|y: NodeId| self.arena.is_leaf(y);
                        assert(self.is_live(y));
                        assert(before.arena.is_leaf(y));
                    }
                }
                assert(focus_ok(before.arena, before.focus, before.focus_history@));
                assert(self.focus is Some <==> before.focus is Some);
                assert(self.focus_history@.no_duplicates());
                assert(forall|i: int| 0 <= i < self.focus_history@.len() ==> #[trigger] self.arena.is_live(self.focus_history@[i]));
                if let Some(f) = self.focus {
                    if before.focus == Some(cur) {
                        assert(self.focus == Some(parent));
                        assert(self.is_live(parent));
                    } else {
                        assert(before.focus == Some(f));
                        assert(before.is_live(f));
                        assert(mid.is_live(f));
                        assert(f != cur);
                        assert(self.is_live(f));
                    }
                }
                assert(focus_ok(self.arena, self.focus, self.focus_history@));
                if let Some(f) = t0.focus {
                    if self.is_live(f) {
                        assert(before.is_live(f));
                        assert(before.focus == t0.focus);
                        assert(f != cur);
                    }
                }
            }
            cur = parent;
        }
    }
}

impl TilingTree {
    /// The windows of the leaves below `id`, in depth-first order.
    pub open spec fn windows_below(self, id: NodeId) -> Seq<u64> {
        self.leaves_in(id).map_values(|l: NodeId| self.window_of(l))
    }

    pub fn windows_in(&self, id: NodeId) -> (r: Vec<u64>)
        requires
            self.structure_ok(),
        ensures
            r@ == self.windows_below(id),
    {
        let leaves = self.leaf_ids_in(id);
        let mut r: Vec<u64> = Vec::new();
        for i in 0..leaves.len()
            invariant
                self.structure_ok(),
                leaves@ == self.leaves_in(id),
                r@ == self.windows_below(id).take(i as int),
        {
            let l = leaves[i];
            proof {
                self.lemma_leaves_in(id);
                assert(leaves@.contains(l));
            }
            let w = match self.arena.kinds[l.0 as usize] {
                NodeKind::Leaf(w) => w,
                NodeKind::Split(_) => {
                    proof {
                        assert(false);
                    }
                    0
                },
            };
            r.push(w);
            assert(self.windows_below(id).take(i + 1) =~= self.windows_below(id).take(i as int).push(w));
        }
        assert(self.windows_below(id).take(leaves.len() as int) =~= self.windows_below(id));
        r
    }

    /// Where moved leaves enter the focus history: right after the focused
    /// node, or first when nothing is focused.
    pub open spec fn front_slot(self) -> usize {
        if self.focus_id() is Some {
            1
        } else {
            0
        }
    }

    /// `id` already sits right after leaf `destination`, and holds the focus.
    pub open spec fn move_is_settled(self, id: NodeId, destination: NodeId) -> bool {
        let q = self.parent_of(destination)->0;
        &&& self.kind_of(destination) is Leaf
        &&& self.parent_of(id) == Some(q)
        &&& self.children_of(q).index_of(id) == self.children_of(q).index_of(destination) + 1
        &&& self.focus_id() matches Some(f) && self.is_desc(f, id)
    }

    /// Moves the subtree of `id` right after leaf `destination`, or to the end
    /// of split `destination`; the splits left empty are removed and the tree
    /// is compacted. The leaves moved come right after the focus in the focus
    /// history, in order. Fails on the root, on `destination` itself or a
    /// node inside the subtree, and on missing nodes.
    pub fn move_subtree_to_node(&mut self, id: NodeId, destination: NodeId) -> (r: bool)
        requires
            old(self).wf(),
        ensures
            old(self).keeps_titles(*final(self)),
            final(self).wf(),
            r == (old(self).is_live(id) && old(self).is_live(destination) && id != old(self).root_id()
                && id != destination && !old(self).is_desc(destination, id)),
            !r || old(self).move_is_settled(id, destination) ==> *final(self) == *old(self),
            r ==> forall|y: NodeId| #[trigger] final(self).is_leaf_node(y) == old(self).is_leaf_node(y),
            r ==> forall|y: NodeId|
                #![trigger final(self).kind_of(y)]
                old(self).is_leaf_node(y) ==> final(self).kind_of(y) == old(self).kind_of(y)
                    && final(self).mode_of(y) == old(self).mode_of(y),
            r ==> (old(self).focus_id() matches Some(f) && final(self).is_live(f) ==> final(self).focus_id()
                == old(self).focus_id()),
            r && !old(self).move_is_settled(id, destination) ==> forall|x: NodeId|
                #[trigger] final(self).is_live(x) ==> !final(self).squashable(x),
            r && !old(self).move_is_settled(id, destination) ==> old(self).order_after_move(
                final(self).leaf_order(),
                id,
                old(self).node_move_slot(id, destination).0,
                old(self).node_move_slot(id, destination).1,
            ),
            r && !old(self).move_is_settled(id, destination) ==> exists|h: Seq<NodeId>|
                final(self).history() == #[trigger] final(self).history_promoting(
                    h,
                    old(self).windows_below(id),
                    final(self).front_slot(),
                ),
    {
        if !self.is_live_exec(id) || !self.is_live_exec(destination) || id == self.arena.root
            || id == destination || self.contains_node(id, destination) {
            return false;
        }
        let ghost t0 = *self;
        let moved = self.windows_in(id);
        let (parent, after) = match self.arena.kinds[destination.0 as usize] {
            NodeKind::Leaf(_) => {
                proof {
                    self.lemma_desc_root(destination);
                    assert(destination != self.root_id());
                    assert(self.parent_of(destination) is Some);
                }
                (self.arena.parents[destination.0 as usize].unwrap(), Some(destination))
            },
            NodeKind::Split(_) => (destination, None),
        };
        proof {
            if after is Some {
                self.lemma_child_desc(parent, self.children_of(parent).index_of(destination));
                assert(!self.is_desc(parent, id)) by {
                    if self.is_desc(parent, id) {
                        self.lemma_desc_trans(destination, parent, id);
                    }
                }
            }
            self.lemma_desc_root(id);
            assert(self.parent_of(id) is Some);
        }
        let old_parent = self.arena.parents[id.0 as usize].unwrap();
        let id_index = self.index_of_child(old_parent, id);
        let same_parent = old_parent == parent;
        let j = match after {
            Some(a) => {
                let n = self.arena.children[parent.0 as usize].len();
                let ia = self.index_of_child(parent, a);
                if same_parent && id_index == ia + 1 {
                    if let Some(f) = self.focus {
                        if self.contains_node(id, f) {
                            return true;
                        }
                    }
                }
                if same_parent && id_index < ia {
                    ia
                } else {
                    ia + 1
                }
            },
            None => {
                if same_parent {
                    self.arena.children[parent.0 as usize].len() - 1
                } else {
                    self.arena.children[parent.0 as usize].len()
                }
            },
        };
        proof {
            if let Some(a) = after {
                let ia = self.children_of(parent).index_of(a);
                assert(self.children_of(parent)[ia] == a);
                if same_parent {
                    assert(id_index != ia);
                }
            }
        }
        proof {
            lemma_wf_except_any(*self, parent);
        }
        self.relocate(id, parent, j);
        let ghost t1 = *self;
        proof {
            assert((parent, j as int) == t0.node_move_slot(id, destination));
            assert(t1.structure_ok());
            TilingTree::lemma_moved_witness(t0, t1, id, parent, j as int);
        }
        self.reap_empty_from(old_parent);
        let ghost t2 = *self;
        self.compact_tree();
        let ghost t3 = *self;
        let at: usize = if self.focus.is_some() { 1 } else { 0 };
        self.promote_windows(&moved, at);
        proof {
            assert(self.arena == t3.arena);
            self.lemma_leaf_order();
            t3.lemma_leaf_order();
            assert(self.leaf_order() == t1.leaf_order());
            assert forall|y: NodeId| #[trigger] self.is_leaf_node(y) == t0.is_leaf_node(y) by {
                if t0.is_leaf_node(y) {
                    assert(t1.is_live(y) && t1.kind_of(y) == t0.kind_of(y));
                    assert(t1.is_leaf_node(y));
                    assert(t2.is_leaf_node(y));
                    assert(t3.is_leaf_node(y));
                }
                if self.is_leaf_node(y) {
                    assert(t3.is_leaf_node(y));
                    assert(t3.is_live(y));
                    assert(t2.is_live(y));
                    assert(t1.is_live(y));
                }
            }
            assert forall|y: NodeId|
                #![trigger self.kind_of(y)]
                t0.is_leaf_node(y) implies self.kind_of(y) == t0.kind_of(y) && self.mode_of(y) == t0.mode_of(y) by {
                assert(t1.is_live(y) && t1.kind_of(y) == t0.kind_of(y) && t1.mode_of(y) == t0.mode_of(y));
                assert(t1.is_leaf_node(y));
                assert(t2.is_leaf_node(y));
                assert(t2.is_live(y));
                assert(t2.kind_of(y) == t1.kind_of(y) && t2.mode_of(y) == t1.mode_of(y));
                assert(t3.is_leaf_node(y));
                assert(t3.is_live(y));
                assert(t3.kind_of(y) == t2.kind_of(y) && t3.mode_of(y) == t2.mode_of(y));
                assert(self.kind_of(y) == t3.kind_of(y) && self.mode_of(y) == t3.mode_of(y));
            }
            if let Some(f) = t0.focus_id() {
                if self.is_live(f) {
                    assert(t3.is_live(f));
                    assert(t2.is_live(f));
                }
            }
            let h = t3.history();
            assert(t3.history_promoting(h, moved@, at) == self.history_promoting(h, moved@, at)) by {
                self.lemma_promoting_same_nodes(t3, h, moved@, at);
            }
            assert(self.front_slot() == at);
            assert forall|x: NodeId| #[trigger] self.is_live(x) implies !self.squashable(x) by {
                assert(t3.is_live(x));
            }
            assert(self.history() == self.history_promoting(h, t0.windows_below(id), self.front_slot()));
        }
        true
    }
}

} // verus!
