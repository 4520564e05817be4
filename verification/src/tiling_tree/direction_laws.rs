//! What walking through the tree in a direction finds, stated over the
//! ancestors of the starting node: the nearest neighbour along the axis,
//! the adjacent sibling, and the edges that border a sibling.
use vstd::prelude::*;
use super::{Direction, Layout, NodeId, NodeKind, TilingTree, axis_layout, is_backwards, parallel};
use super::focus::sibling_direction;

verus! {

impl TilingTree {
    /// `b` has a sibling in direction `dir` inside a parent split that runs
    /// along `dir`'s axis.
    pub open spec fn has_neighbour(self, b: NodeId, dir: Direction) -> bool {
        &&& self.parent_of(b) is Some
        &&& parallel(self.layout_of(self.parent_of(b)->0), axis_layout(dir))
        &&& if is_backwards(dir) {
            self.children_of(self.parent_of(b)->0).index_of(b) > 0
        } else {
            self.children_of(self.parent_of(b)->0).index_of(b) + 1 < self.children_of(
                self.parent_of(b)->0,
            ).len()
        }
    }

    /// The sibling of `b` next to it in direction `dir`.
    pub open spec fn neighbour(self, b: NodeId, dir: Direction) -> NodeId {
        let kids = self.children_of(self.parent_of(b)->0);
        let i = kids.index_of(b);
        if is_backwards(dir) {
            kids[i - 1]
        } else {
            kids[i + 1]
        }
    }

    /// `b` has a sibling on the `before` (or after) side inside a parent
    /// split whose layout is exactly `wanted`.
    pub open spec fn borders_sibling(self, b: NodeId, wanted: Layout, before: bool) -> bool {
        &&& self.parent_of(b) is Some
        &&& self.kind_of(self.parent_of(b)->0) == NodeKind::Split(wanted)
        &&& if before {
            self.children_of(self.parent_of(b)->0).index_of(b) > 0
        } else {
            self.children_of(self.parent_of(b)->0).index_of(b) + 1 < self.children_of(
                self.parent_of(b)->0,
            ).len()
        }
    }

    /// `b` is the nearest ancestor of `cur` (or `cur` itself) with a
    /// neighbour in direction `dir`, and `barrier` is not passed on the way
    /// up to it.
    pub open spec fn nearest_neighbour_branch(
        self,
        cur: NodeId,
        b: NodeId,
        dir: Direction,
        barrier: Option<NodeId>,
    ) -> bool {
        &&& self.is_desc(cur, b)
        &&& self.has_neighbour(b, dir)
        &&& forall|y: NodeId|
            #![trigger self.is_desc(cur, y), self.is_desc(y, b)]
            self.is_desc(cur, y) && self.is_desc(y, b) && y != b ==> !self.has_neighbour(y, dir)
        &&& forall|y: NodeId|
            #![trigger self.is_desc(cur, y), self.is_desc(y, b)]
            self.is_desc(cur, y) && self.is_desc(y, b) && y != cur ==> barrier != Some(y)
    }

    /// A node with a neighbour in the direction finds that neighbour at once.
    proof fn lemma_target_of_neighbour(
        self,
        cur: NodeId,
        dir: Direction,
        force: bool,
        barrier: Option<NodeId>,
        wrap: Option<NodeId>,
    )
        requires
            self.wf(),
            self.is_live(cur),
            self.has_neighbour(cur, dir),
        ensures
            self.direction_target(cur, dir, force, barrier, wrap) == Some(self.neighbour(cur, dir)),
    {
        let p = self.parent_of(cur)->0;
        super::laws::law_well_formed_tree(self);
        assert(cur != self.root_id());
        assert(self.is_live(p));
        assert(self.children_of(p).contains(cur));
        let i = self.children_of(p).index_of(cur);
        self.lemma_child_desc(p, i);
        assert(self.children_of(p)[i] == cur);
        assert(self.depth_of(p) < self.depth_of(cur));
        reveal_with_fuel(TilingTree::direction_target, 1);
        let kids = self.children_of(p);
        assert(self.is_live(cur) && self.parent_of(cur) is Some && self.depth_of(self.parent_of(cur)->0) < self.depth_of(cur));
        assert(parallel(self.layout_of(p), axis_layout(dir)));
        if is_backwards(dir) {
            assert(i > 0);
            assert(self.direction_target(cur, dir, force, barrier, wrap) == Some(kids[i - 1]));
        } else {
            assert(i + 1 < kids.len());
            assert(self.direction_target(cur, dir, force, barrier, wrap) == Some(kids[i + 1]));
        }
    }

    /// Moving the focus in direction `dir` without forced wrapping finds the
    /// neighbour of the nearest ancestor (or the node itself) that has one
    /// along the axis: never a node that wraps around inside a split below it.
    pub proof fn law_direction_finds_nearest_neighbour(
        self,
        cur: NodeId,
        b: NodeId,
        dir: Direction,
        barrier: Option<NodeId>,
        wrap: Option<NodeId>,
    )
        requires
            self.wf(),
            self.is_live(cur),
            self.nearest_neighbour_branch(cur, b, dir, barrier),
        ensures
            self.direction_target(cur, dir, false, barrier, wrap) == Some(self.neighbour(b, dir)),
        decreases self.depth_of(cur),
    {
        assert(self.is_desc(cur, cur)) by {
            reveal_with_fuel(super::Arena::is_desc, 1);
        }
        if cur == b {
            self.lemma_target_of_neighbour(cur, dir, false, barrier, wrap);
        } else {
            assert(!self.has_neighbour(cur, dir));
            self.lemma_desc_root(cur);
            assert(cur != self.root_id()) by {
                if cur == self.root_id() {
                    self.lemma_desc_live(cur, b);
                    assert(self.parent_of(b) is Some);
                    self.lemma_desc_antisym_root(b);
                }
            }
            let p = self.parent_of(cur)->0;
            assert(self.children_of(p).contains(cur));
            self.lemma_child_desc(p, self.children_of(p).index_of(cur));
            self.lemma_desc_unfold(cur, b);
            assert(self.is_desc(p, b));
            assert(self.is_desc(cur, p)) by {
                self.lemma_desc_unfold(cur, p);
                assert(self.is_desc(p, p)) by {
                    reveal_with_fuel(super::Arena::is_desc, 1);
                }
            }
            assert(barrier != Some(p));
            assert forall|y: NodeId|
                #![trigger self.is_desc(p, y), self.is_desc(y, b)]
                self.is_desc(p, y) && self.is_desc(y, b) && y != b implies !self.has_neighbour(y, dir) by {
                self.lemma_desc_trans(cur, p, y);
            }
            assert forall|y: NodeId|
                #![trigger self.is_desc(p, y), self.is_desc(y, b)]
                self.is_desc(p, y) && self.is_desc(y, b) && y != p implies barrier != Some(y) by {
                self.lemma_desc_trans(cur, p, y);
                if y == cur {
                    self.lemma_desc_antisym(p, cur);
                }
            }
            self.lemma_desc_live(cur, p);
            let kids = self.children_of(p);
            let par = parallel(self.layout_of(p), axis_layout(dir));
            let candidate = if is_backwards(dir) {
                kids.last()
            } else {
                kids[0]
            };
            let next_wrap = if par && kids.len() > 1 && wrap is None {
                Some(candidate)
            } else {
                wrap
            };
            self.law_direction_finds_nearest_neighbour(p, b, dir, barrier, next_wrap);
            reveal_with_fuel(TilingTree::direction_target, 1);
            assert(self.direction_target(cur, dir, false, barrier, wrap) == self.direction_target(
                p,
                dir,
                false,
                barrier,
                next_wrap,
            ));
        }
    }

    /// The focused node is a node of the tree.
    proof fn lemma_focus_live(self)
        requires
            self.wf(),
        ensures
            self.focus_id() matches Some(f) ==> self.is_live(f),
    {
        super::laws::law_well_formed_tree(self);
    }

    /// The parent of `y` runs along `dir`'s axis and has more than one child:
    /// a split the focus can wrap around in.
    pub open spec fn wraps_at(self, y: NodeId, dir: Direction) -> bool {
        &&& self.parent_of(y) is Some
        &&& parallel(self.layout_of(self.parent_of(y)->0), axis_layout(dir))
        &&& self.children_of(self.parent_of(y)->0).len() > 1
    }

    /// The child of the parent of `q` that the focus wraps to: the first
    /// when moving forwards, the last when moving backwards.
    pub open spec fn wrap_end(self, q: NodeId, dir: Direction) -> NodeId {
        let kids = self.children_of(self.parent_of(q)->0);
        if is_backwards(dir) {
            kids.last()
        } else {
            kids[0]
        }
    }

    /// Walking up from `cur`, branch `y` (`cur` or an ancestor of it) is
    /// reached: no node strictly above `cur` and at or below `y` is the
    /// barrier.
    pub open spec fn reaches(self, cur: NodeId, y: NodeId, barrier: Option<NodeId>) -> bool {
        &&& self.is_desc(cur, y)
        &&& forall|z: NodeId|
            #![trigger self.is_desc(cur, z), self.is_desc(z, y)]
            self.is_desc(cur, z) && z != cur && self.is_desc(z, y) ==> barrier != Some(z)
    }

    /// No branch reached walking up from `cur` has a neighbour in direction
    /// `dir`.
    pub open spec fn no_neighbour_reached(self, cur: NodeId, dir: Direction, barrier: Option<NodeId>) -> bool {
        forall|y: NodeId| #[trigger] self.is_desc(cur, y) && self.reaches(cur, y, barrier) ==> !self.has_neighbour(y, dir)
    }

    /// What is reached from the parent, when the parent is not the barrier,
    /// is reached from the child; and a node reaches itself.
    proof fn lemma_reaches_step(self, cur: NodeId, barrier: Option<NodeId>)
        requires
            self.wf(),
            self.is_live(cur),
            cur != self.root_id(),
            barrier != Some(self.parent_of(cur)->0),
        ensures
            self.reaches(cur, cur, barrier),
            forall|y: NodeId|
                #[trigger] self.reaches(self.parent_of(cur)->0, y, barrier) ==> self.reaches(cur, y, barrier),
    {
        let p = self.parent_of(cur)->0;
        self.lemma_parent_step(cur);
        assert(self.is_desc(cur, cur)) by {
            reveal_with_fuel(super::Arena::is_desc, 1);
        }
        assert forall|z: NodeId|
            #![trigger self.is_desc(cur, z), self.is_desc(z, cur)]
            self.is_desc(cur, z) && z != cur && self.is_desc(z, cur) implies barrier != Some(z) by {
            self.lemma_desc_antisym(cur, z);
        }
        assert forall|y: NodeId| #[trigger] self.reaches(p, y, barrier) implies self.reaches(cur, y, barrier) by {
            self.lemma_desc_trans(cur, p, y);
            assert forall|z: NodeId|
                #![trigger self.is_desc(cur, z), self.is_desc(z, y)]
                self.is_desc(cur, z) && z != cur && self.is_desc(z, y) implies barrier != Some(z) by {
                if z != p {
                    self.lemma_desc_unfold(cur, z);
                }
            }
        }
    }

    /// The walk up from a node with no neighbour on the way, once a wrap
    /// target is remembered, ends on that target.
    proof fn lemma_walk_keeps_wrap(self, cur: NodeId, dir: Direction, barrier: Option<NodeId>, w: NodeId)
        requires
            self.wf(),
            self.is_live(cur),
            self.no_neighbour_reached(cur, dir, barrier),
        ensures
            self.direction_target(cur, dir, false, barrier, Some(w)) == Some(w),
        decreases self.depth_of(cur),
    {
        reveal_with_fuel(TilingTree::direction_target, 1);
        if cur != self.root_id() {
            let p = self.parent_of(cur)->0;
            self.lemma_parent_step(cur);
            if barrier != Some(p) {
                self.lemma_reaches_step(cur, barrier);
                assert(!self.has_neighbour(cur, dir));
                assert forall|y: NodeId| #[trigger] self.is_desc(p, y) && self.reaches(p, y, barrier) implies !self.has_neighbour(
                    y,
                    dir,
                ) by {
                    assert(self.reaches(cur, y, barrier));
                }
                self.lemma_walk_keeps_wrap(p, dir, barrier, w);
            } else {
                assert(self.reaches(cur, cur, barrier)) by {
                    assert(self.is_desc(cur, cur)) by {
                        reveal_with_fuel(super::Arena::is_desc, 1);
                    }
                    assert forall|z: NodeId|
                        #![trigger self.is_desc(cur, z), self.is_desc(z, cur)]
                        self.is_desc(cur, z) && z != cur && self.is_desc(z, cur) implies barrier != Some(z) by {
                        self.lemma_desc_antisym(cur, z);
                    }
                }
                assert(!self.has_neighbour(cur, dir));
            }
        } else {
            super::laws::law_well_formed_tree(self);
        }
    }

    /// The parent of a live non-root node is a live ancestor above it.
    proof fn lemma_parent_step(self, cur: NodeId)
        requires
            self.wf(),
            self.is_live(cur),
            cur != self.root_id(),
        ensures
            self.parent_of(cur) is Some,
            self.is_live(self.parent_of(cur)->0),
            self.is_desc(cur, self.parent_of(cur)->0),
            self.depth_of(self.parent_of(cur)->0) < self.depth_of(cur),
            self.children_of(self.parent_of(cur)->0).contains(cur),
    {
        super::laws::law_well_formed_tree(self);
        let p = self.parent_of(cur)->0;
        self.lemma_child_desc(p, self.children_of(p).index_of(cur));
    }

    /// Moving the focus in direction `dir` without forced wrapping, when no
    /// branch reached on the way up (up to the barrier) has a neighbour along
    /// the axis, wraps around inside the nearest split along the axis with
    /// more than one child that is reached (the parent of `q`): to its first
    /// child when moving forwards, its last when moving backwards.
    pub proof fn law_direction_wraps_in_nearest_split(
        self,
        cur: NodeId,
        q: NodeId,
        dir: Direction,
        barrier: Option<NodeId>,
    )
        requires
            self.wf(),
            self.is_live(cur),
            self.no_neighbour_reached(cur, dir, barrier),
            self.reaches(cur, q, barrier),
            self.wraps_at(q, dir),
            forall|y: NodeId|
                #![trigger self.is_desc(cur, y), self.is_desc(y, q)]
                self.is_desc(cur, y) && self.is_desc(y, q) && y != q ==> !self.wraps_at(y, dir),
        ensures
            self.direction_target(cur, dir, false, barrier, None) == Some(self.wrap_end(q, dir)),
        decreases self.depth_of(cur),
    {
        reveal_with_fuel(TilingTree::direction_target, 1);
        assert(self.is_desc(cur, cur)) by {
            reveal_with_fuel(super::Arena::is_desc, 1);
        }
        assert(cur != self.root_id()) by {
            if cur == self.root_id() {
                self.lemma_desc_antisym_root(q);
                super::laws::law_well_formed_tree(self);
            }
        }
        let p = self.parent_of(cur)->0;
        self.lemma_parent_step(cur);
        assert(self.reaches(cur, cur, barrier)) by {
            assert forall|z: NodeId|
                #![trigger self.is_desc(cur, z), self.is_desc(z, cur)]
                self.is_desc(cur, z) && z != cur && self.is_desc(z, cur) implies barrier != Some(z) by {
                self.lemma_desc_antisym(cur, z);
            }
        }
        assert(!self.has_neighbour(cur, dir));
        if cur == q {
            if barrier != Some(p) {
                self.lemma_reaches_step(cur, barrier);
                assert forall|y: NodeId| #[trigger] self.is_desc(p, y) && self.reaches(p, y, barrier) implies !self.has_neighbour(
                    y,
                    dir,
                ) by {
                    assert(self.reaches(cur, y, barrier));
                }
                self.lemma_walk_keeps_wrap(p, dir, barrier, self.wrap_end(q, dir));
            }
        } else {
            self.lemma_desc_unfold(cur, q);
            assert(barrier != Some(p));
            self.lemma_reaches_step(cur, barrier);
            assert forall|y: NodeId| #[trigger] self.is_desc(p, y) && self.reaches(p, y, barrier) implies !self.has_neighbour(
                y,
                dir,
            ) by {
                assert(self.reaches(cur, y, barrier));
            }
            assert(self.reaches(p, q, barrier)) by {
                assert forall|z: NodeId|
                    #![trigger self.is_desc(p, z), self.is_desc(z, q)]
                    self.is_desc(p, z) && z != p && self.is_desc(z, q) implies barrier != Some(z) by {
                    self.lemma_desc_trans(cur, p, z);
                    if z == cur {
                        self.lemma_desc_antisym(p, cur);
                    }
                }
            }
            assert forall|y: NodeId|
                #![trigger self.is_desc(p, y), self.is_desc(y, q)]
                self.is_desc(p, y) && self.is_desc(y, q) && y != q implies !self.wraps_at(y, dir) by {
                self.lemma_desc_trans(cur, p, y);
            }
            self.law_direction_wraps_in_nearest_split(p, q, dir, barrier);
        }
    }

    /// Moving the focus in direction `dir` without forced wrapping finds
    /// nothing when no branch reached on the way up (up to the barrier) has
    /// a neighbour along the axis or a parent along the axis with more than
    /// one child.
    pub proof fn law_direction_finds_nothing(self, cur: NodeId, dir: Direction, barrier: Option<NodeId>)
        requires
            self.wf(),
            self.is_live(cur),
            self.no_neighbour_reached(cur, dir, barrier),
            forall|y: NodeId| #[trigger] self.is_desc(cur, y) && self.reaches(cur, y, barrier) ==> !self.wraps_at(y, dir),
        ensures
            self.direction_target(cur, dir, false, barrier, None) is None,
        decreases self.depth_of(cur),
    {
        reveal_with_fuel(TilingTree::direction_target, 1);
        if cur != self.root_id() {
            let p = self.parent_of(cur)->0;
            self.lemma_parent_step(cur);
            assert(self.is_desc(cur, cur)) by {
                reveal_with_fuel(super::Arena::is_desc, 1);
            }
            assert(self.reaches(cur, cur, barrier)) by {
                assert forall|z: NodeId|
                    #![trigger self.is_desc(cur, z), self.is_desc(z, cur)]
                    self.is_desc(cur, z) && z != cur && self.is_desc(z, cur) implies barrier != Some(z) by {
                    self.lemma_desc_antisym(cur, z);
                }
            }
            assert(!self.has_neighbour(cur, dir));
            assert(!self.wraps_at(cur, dir));
            if barrier != Some(p) {
                self.lemma_reaches_step(cur, barrier);
                assert forall|y: NodeId| #[trigger] self.is_desc(p, y) && self.reaches(p, y, barrier) implies !self.has_neighbour(
                    y,
                    dir,
                ) by {
                    assert(self.reaches(cur, y, barrier));
                }
                assert forall|y: NodeId| #[trigger] self.is_desc(p, y) && self.reaches(p, y, barrier) implies !self.wraps_at(
                    y,
                    dir,
                ) by {
                    assert(self.reaches(cur, y, barrier));
                }
                self.law_direction_finds_nothing(p, dir, barrier);
            }
        } else {
            super::laws::law_well_formed_tree(self);
        }
    }

    /// With forced wrapping, a node without a neighbour in direction `dir`
    /// inside a split along the axis with more than one child wraps around
    /// in that split at once.
    pub proof fn law_forced_wrap_stays_in_parent(
        self,
        cur: NodeId,
        dir: Direction,
        barrier: Option<NodeId>,
        wrap: Option<NodeId>,
    )
        requires
            self.wf(),
            self.is_live(cur),
            !self.has_neighbour(cur, dir),
            self.wraps_at(cur, dir),
        ensures
            self.direction_target(cur, dir, true, barrier, wrap) == Some(self.wrap_end(cur, dir)),
    {
        reveal_with_fuel(TilingTree::direction_target, 1);
        assert(cur != self.root_id()) by {
            super::laws::law_well_formed_tree(self);
        }
        self.lemma_parent_step(cur);
    }

    /// The root has no ancestor but itself.
    proof fn lemma_desc_antisym_root(self, b: NodeId)
        requires
            self.wf(),
            self.is_desc(self.root_id(), b),
        ensures
            b == self.root_id(),
    {
        self.lemma_desc_live(self.root_id(), b);
        self.lemma_desc_root(b);
        self.lemma_desc_antisym(self.root_id(), b);
    }

    /// Focusing in direction `dir` without forced wrapping, when some
    /// ancestor of the focused node (or the node itself) has a neighbour
    /// along the axis (the nearest such is `b`) and the fullscreen node is
    /// not passed on the way: the focus lands on a window inside that
    /// neighbour.
    pub proof fn law_focus_direction_enters_nearest_neighbour(
        self,
        new: Self,
        dir: Direction,
        r: bool,
        b: NodeId,
    )
        requires
            self.wf(),
            self.direction_outcome(new, dir, false, r),
            self.focus_id() matches Some(f) && self.nearest_neighbour_branch(f, b, dir, self.fullscreen_spec()),
        ensures
            r,
            new.focus_id() matches Some(l) && self.is_leaf_node(l) && self.is_desc(l, self.neighbour(b, dir)),
    {
        let f = self.focus_id()->0;
        self.lemma_focus_live();
        self.law_direction_finds_nearest_neighbour(f, b, dir, self.fullscreen_spec(), None);
        self.lemma_focused_leaf(self.neighbour(b, dir));
        let n = self.neighbour(b, dir);
        let p = self.parent_of(b)->0;
        self.lemma_desc_live(f, b);
        let i = self.children_of(p).index_of(b);
        assert(self.children_of(p).contains(b));
        let j = if is_backwards(dir) {
            i - 1
        } else {
            i + 1
        };
        self.lemma_child_desc(p, j);
        self.lemma_leaf_below(n);
        self.lemma_leaves_in(n);
        assert(self.leaves_in(n).contains(self.leaves_in(n)[0]));
    }

    /// The direction for the next (previous) sibling runs along the parent's
    /// axis, towards later (earlier) children.
    pub proof fn law_sibling_direction(layout: Layout, next: bool)
        ensures
            parallel(layout, axis_layout(sibling_direction(layout, next))),
            is_backwards(sibling_direction(layout, next)) == !next,
    {
    }

    /// Focusing the next (previous) sibling, when the focused node has a
    /// later (earlier) sibling, focuses the adjacent one: the child right
    /// after (before) it, in every layout.
    pub proof fn law_next_sibling_is_adjacent(self, new: Self, next: bool, force: bool, r: bool)
        requires
            self.wf(),
            self.sibling_outcome(new, next, force, r),
            self.focus_id() matches Some(f) && self.parent_of(f) matches Some(p) && (if next {
                self.children_of(p).index_of(f) + 1 < self.children_of(p).len()
            } else {
                self.children_of(p).index_of(f) > 0
            }),
        ensures
            r,
            new.focus_id() == Some(
                self.children_of(self.parent_of(self.focus_id()->0)->0)[if next {
                    self.children_of(self.parent_of(self.focus_id()->0)->0).index_of(self.focus_id()->0) + 1
                } else {
                    self.children_of(self.parent_of(self.focus_id()->0)->0).index_of(self.focus_id()->0) - 1
                }],
            ),
    {
        let f = self.focus_id()->0;
        let p = self.parent_of(f)->0;
        self.lemma_focus_live();
        let dir = sibling_direction(self.layout_of(p), next);
        TilingTree::law_sibling_direction(self.layout_of(p), next);
        assert(self.has_neighbour(f, dir));
        self.lemma_target_of_neighbour(f, dir, force, None, None);
    }

    /// Focusing towards the next (previous) sibling, when the focused node
    /// has a later (earlier) sibling, puts the focus on a window inside the
    /// child right after (before) it, in every layout.
    pub proof fn law_next_or_prev_enters_adjacent_sibling(self, new: Self, next: bool, force: bool, r: bool)
        requires
            self.wf(),
            self.focus_id() matches Some(f) && self.parent_of(f) matches Some(p) && (if next {
                self.children_of(p).index_of(f) + 1 < self.children_of(p).len()
            } else {
                self.children_of(p).index_of(f) > 0
            }),
            self.direction_outcome(
                new,
                sibling_direction(self.layout_of(self.parent_of(self.focus_id()->0)->0), next),
                force,
                r,
            ),
        ensures
            r,
            new.focus_id() matches Some(l) && self.is_leaf_node(l) && self.is_desc(
                l,
                self.children_of(self.parent_of(self.focus_id()->0)->0)[if next {
                    self.children_of(self.parent_of(self.focus_id()->0)->0).index_of(self.focus_id()->0) + 1
                } else {
                    self.children_of(self.parent_of(self.focus_id()->0)->0).index_of(self.focus_id()->0) - 1
                }],
            ),
    {
        let f = self.focus_id()->0;
        let p = self.parent_of(f)->0;
        self.lemma_focus_live();
        let dir = sibling_direction(self.layout_of(p), next);
        TilingTree::law_sibling_direction(self.layout_of(p), next);
        assert(self.has_neighbour(f, dir));
        self.lemma_target_of_neighbour(f, dir, force, self.fullscreen_spec(), None);
        let n = self.neighbour(f, dir);
        self.lemma_parent_step(f);
        let i = self.children_of(p).index_of(f);
        let j = if next {
            i + 1
        } else {
            i - 1
        };
        self.lemma_child_desc(p, j);
        self.lemma_focused_leaf(n);
        self.lemma_leaf_below(n);
        self.lemma_leaves_in(n);
        assert(self.leaves_in(n).contains(self.leaves_in(n)[0]));
    }

    /// Whether a side borders a sibling: exactly when the node itself or
    /// some ancestor hangs in a split with the wanted layout that has a
    /// sibling of it on that side, not only the parent.
    pub proof fn law_internal_edge_looks_at_every_ancestor(self, x: NodeId, wanted: Layout, before: bool)
        requires
            self.wf(),
            self.is_live(x),
        ensures
            self.has_sibling_toward(x, wanted, before) <==> exists|b: NodeId|
                #[trigger] self.is_desc(x, b) && self.borders_sibling(b, wanted, before),
        decreases self.depth_of(x),
    {
        if x == self.root_id() {
            assert(self.parent_of(x) is None);
            assert forall|b: NodeId| #[trigger] self.is_desc(x, b) implies !self.borders_sibling(b, wanted, before) by {
                self.lemma_desc_antisym_root(b);
            }
        } else {
            let p = self.parent_of(x)->0;
            assert(self.children_of(p).contains(x));
            self.lemma_child_desc(p, self.children_of(p).index_of(x));
            self.lemma_desc_live(x, p);
            self.law_internal_edge_looks_at_every_ancestor(p, wanted, before);
            assert(self.is_desc(x, x)) by {
                reveal_with_fuel(super::Arena::is_desc, 1);
            }
            if exists|b: NodeId| #[trigger] self.is_desc(x, b) && self.borders_sibling(b, wanted, before) {
                let b = choose|b: NodeId| #[trigger] self.is_desc(x, b) && self.borders_sibling(b, wanted, before);
                self.lemma_desc_unfold(x, b);
            }
            if exists|b: NodeId| #[trigger] self.is_desc(p, b) && self.borders_sibling(b, wanted, before) {
                let b = choose|b: NodeId| #[trigger] self.is_desc(p, b) && self.borders_sibling(b, wanted, before);
                self.lemma_desc_unfold(x, b);
            }
        }
    }
}

} // verus!
