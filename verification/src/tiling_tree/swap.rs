//! Swapping two disjoint subtrees.
use vstd::prelude::*;
use super::{Arena, Layout, NodeId, NodeKind, PendingMode, TilingTree, focus_ok, modes_ok, normal_mode};

verus! {

/// Whether `y` lies in the subtree of `first` or of `second`.
pub(crate) open spec fn in_either(a: Arena, y: NodeId, first: NodeId, second: NodeId) -> bool {
    a.is_desc(y, first) || a.is_desc(y, second)
}

/// Depths after two disjoint subtrees trade places: both subtrees are pushed
/// below every other node, which keeps parents above their children.
pub(crate) open spec fn lifted_depths(a: Arena, first: NodeId, second: NodeId) -> Seq<nat> {
    Seq::new(
        a.depth@.len(),
        |i: int|
            if in_either(a, NodeId(i as u64), first, second) {
                a.depth@[i] + a.max_depth@ + 1
            } else {
                a.depth@[i]
            },
    )
}

/// The children of `q` after `first` (at `fi` below `fp`) and `second` (at
/// `si` below `sp`) trade places.
pub open spec fn swapped_children(
    t: TilingTree,
    q: NodeId,
    first: NodeId,
    second: NodeId,
    fp: NodeId,
    sp: NodeId,
    fi: int,
    si: int,
) -> Seq<NodeId> {
    if q == fp && q == sp {
        t.children_of(q).update(fi, second).update(si, first)
    } else if q == fp {
        t.children_of(q).update(fi, second)
    } else if q == sp {
        t.children_of(q).update(si, first)
    } else {
        t.children_of(q)
    }
}

impl Arena {
    #[verifier::spinoff_prover]
    #[verifier::rlimit(40)]
    pub(crate) proof fn lemma_swap_arena(
        t0: TilingTree,
        a0: Arena,
        a1: Arena,
        first: NodeId,
        second: NodeId,
        fp: NodeId,
        sp: NodeId,
        fi: int,
        si: int,
    )
        requires
            a0 == t0.arena,
            a0.wf(),
            a0.is_live(first),
            a0.is_live(second),
            first != second,
            !a0.is_desc(first, second),
            !a0.is_desc(second, first),
            a0.parent_of(first) == Some(fp),
            a0.parent_of(second) == Some(sp),
            0 <= fi < a0.children_of(fp).len(),
            a0.children_of(fp)[fi] == first,
            0 <= si < a0.children_of(sp).len(),
            a0.children_of(sp)[si] == second,
            a1.live == a0.live,
            a1.kinds == a0.kinds,
            a1.root == a0.root,
            a1.parents@ == a0.parents@.update(first.0 as int, Some(sp)).update(second.0 as int, Some(fp)),
            a1.children@.len() == a0.children@.len(),
            forall|q: NodeId|
                #![trigger a1.children_of(q)]
                q.0 < a0.children@.len() ==> a1.children_of(q) == swapped_children(t0, q, first, second, fp, sp, fi, si),
            a1.depth@ == lifted_depths(a0, first, second),
            a1.max_depth@ == 2 * a0.max_depth@ + 1,
        ensures
            a1.wf(),
            forall|x: NodeId| #[trigger] a1.is_live(x) == a0.is_live(x),
    {
        let root = a0.root;
        a0.lemma_desc_root(first);
        a0.lemma_desc_root(second);
        assert(first != root && second != root);
        assert(a0.parent_of(root) is None);
        let k = a0.max_depth@ + 1;
        assert forall|y: NodeId| y.0 < a0.live@.len() implies #[trigger] a1.depth_of(y) == if in_either(a0, y, first, second) {
            a0.depth_of(y) + k
        } else {
            a0.depth_of(y)
        } by {
            assert(NodeId((y.0 as int) as u64) == y);
        }
        // Neither parent lies in either subtree.
        assert(a0.children_of(fp).contains(first));
        assert(a0.children_of(sp).contains(second));
        a0.lemma_child_desc(fp, fi);
        a0.lemma_child_desc(sp, si);
        assert(!in_either(a0, fp, first, second)) by {
            if a0.is_desc(fp, first) {
                a0.lemma_desc_live(fp, first);
            }
            if a0.is_desc(fp, second) {
                a0.lemma_desc_trans(first, fp, second);
            }
        }
        assert(!in_either(a0, sp, first, second)) by {
            if a0.is_desc(sp, second) {
                a0.lemma_desc_live(sp, second);
            }
            if a0.is_desc(sp, first) {
                a0.lemma_desc_trans(second, sp, first);
            }
        }
        assert(a0.depth_of(fp) <= a0.max_depth@ && a0.depth_of(sp) <= a0.max_depth@);
        assert(in_either(a0, first, first, second) && in_either(a0, second, first, second)) by {
            reveal_with_fuel(Arena::is_desc, 1);
        }
        // Which child lists hold the two moved nodes.
        assert forall|q: NodeId, j: int|
            a0.is_live(q) && 0 <= j < a0.children_of(q).len() && a0.children_of(q)[j] == first implies q == fp
                && j == fi by {
            a0.lemma_child_desc(q, j);
            assert(a0.children_of(fp).no_duplicates());
        }
        assert forall|q: NodeId, j: int|
            a0.is_live(q) && 0 <= j < a0.children_of(q).len() && a0.children_of(q)[j] == second implies q
                == sp && j == si by {
            a0.lemma_child_desc(q, j);
            assert(a0.children_of(sp).no_duplicates());
        }
        assert(fp == sp ==> fi != si);
        // Parents.
        assert forall|y: NodeId|
            #![trigger a1.parent_of(y)]
            a1.is_live(y) && y != a1.root implies {
                &&& a1.parent_of(y) is Some
                &&& a1.is_live(a1.parent_of(y)->0)
                &&& a1.kind_of(a1.parent_of(y)->0) is Split
                &&& a1.children_of(a1.parent_of(y)->0).contains(y)
                &&& a1.depth_of(a1.parent_of(y)->0) < a1.depth_of(y)
            } by {
            if y == first {
                assert(a1.parent_of(y) == Some(sp));
                assert(a1.children_of(sp)[si] == first);
            } else if y == second {
                assert(a1.parent_of(y) == Some(fp));
                if fp == sp {
                    assert(a1.children_of(fp)[fi] == second);
                } else {
                    assert(a1.children_of(fp)[fi] == second);
                }
            } else {
                assert(a0.parent_of(y) is Some);
                let p = a0.parent_of(y)->0;
                assert(a1.parent_of(y) == Some(p));
                a0.lemma_desc_unfold(y, first);
                a0.lemma_desc_unfold(y, second);
                let j = a0.children_of(p).index_of(y);
                assert(a0.children_of(p)[j] == y);
                assert(a1.children_of(p)[j] == y);
            }
        }
        // Children.
        assert forall|q: NodeId, i: int|
            #![trigger a1.children_of(q)[i]]
            a1.is_live(q) && 0 <= i < a1.children_of(q).len() implies {
                &&& a1.is_live(a1.children_of(q)[i])
                &&& a1.parent_of(a1.children_of(q)[i]) == Some(q)
            } by {
            let c = a1.children_of(q)[i];
            if q == fp && i == fi {
                assert(c == second);
            } else if q == sp && i == si {
                assert(c == first);
            } else {
                assert(c == a0.children_of(q)[i]);
                a0.lemma_child_desc(q, i);
            }
        }
        assert forall|q: NodeId|
            #![trigger a1.children_of(q)]
            a1.is_live(q) implies {
                &&& a1.children_of(q).no_duplicates()
                &&& (a1.kind_of(q) is Leaf ==> a1.children_of(q).len() == 0)
            } by {
            let c0 = a0.children_of(q);
            let c1 = a1.children_of(q);
            assert(c0.no_duplicates());
            assert forall|i: int, j: int| 0 <= i < c1.len() && 0 <= j < c1.len() && i != j implies c1[i] != c1[j] by {
                if q == fp && i == fi {
                    assert(c1[i] == second);
                } else if q == sp && i == si {
                    assert(c1[i] == first);
                } else {
                    assert(c1[i] == c0[i]);
                }
                if q == fp && j == fi {
                    assert(c1[j] == second);
                } else if q == sp && j == si {
                    assert(c1[j] == first);
                } else {
                    assert(c1[j] == c0[j]);
                }
            }
            if a1.kind_of(q) is Leaf {
                assert(c0.len() == 0);
            }
        }
        assert forall|q: NodeId|
            #![trigger a1.children_of(q)]
            a1.is_live(q) && a1.kind_of(q) is Split && q != a1.root && None::<NodeId> != Some(q)
                implies a1.children_of(q).len() > 0 by {
            assert(a0.children_of(q).len() > 0);
        }
        assert forall|y: NodeId| #[trigger] a1.is_live(y) implies a1.depth_of(y) <= a1.max_depth@ by {
            assert(a0.is_live(y));
            assert(a0.depth_of(y) <= a0.max_depth@);
        }
        assert(a1.wf_parents());
        assert(a1.wf_children());
        assert(a1.wf_depth());
        assert(a1.nonempty_except(None));
    }
}

/// Tabbed and stacked splits show one child at a time.
pub open spec fn shows_one_child(layout: Layout) -> bool {
    layout == Layout::Tabbed || layout == Layout::Stacked
}

impl TilingTree {
    /// The focus after `first` and `second` trade places: a focused one of the
    /// two hands the focus to the other when it moves into a tabbed or stacked
    /// split, where it would be hidden.
    pub open spec fn focus_after_swap(self, first: NodeId, second: NodeId) -> Option<NodeId> {
        let fp = self.parent_of(first)->0;
        let sp = self.parent_of(second)->0;
        if self.focus_id() == Some(first) && shows_one_child(self.layout_of(sp)) {
            Some(second)
        } else if self.focus_id() == Some(second) && shows_one_child(self.layout_of(fp)) {
            Some(first)
        } else {
            self.focus_id()
        }
    }

    /// The pending mode `m` as node `id` takes it over: a split is never
    /// maximized, so it takes the mode without that.
    pub open spec fn mode_taken(self, m: PendingMode, id: NodeId) -> PendingMode {
        if self.kind_of(id) is Split {
            PendingMode { fullscreen: m.fullscreen, maximized: false }
        } else {
            m
        }
    }

    /// `new` is `self` with `first` and `second` trading places, with their
    /// pending modes (see `mode_taken`); the focus moves as
    /// `focus_after_swap` says.
    pub open spec fn swapped_into(self, new: Self, first: NodeId, second: NodeId) -> bool {
        let fp = self.parent_of(first)->0;
        let sp = self.parent_of(second)->0;
        let fi = self.children_of(fp).index_of(first);
        let si = self.children_of(sp).index_of(second);
        &&& forall|x: NodeId| #[trigger] new.is_live(x) == self.is_live(x)
        &&& forall|x: NodeId|
            #![trigger new.kind_of(x)]
            self.is_live(x) ==> new.kind_of(x) == self.kind_of(x)
        &&& new.parent_of(first) == Some(sp)
        &&& new.parent_of(second) == Some(fp)
        &&& forall|x: NodeId|
            #![trigger new.parent_of(x)]
            self.is_live(x) && x != first && x != second ==> new.parent_of(x)
                == self.parent_of(x)
        &&& forall|q: NodeId|
            #![trigger new.children_of(q)]
            self.is_live(q) ==> new.children_of(q) == swapped_children(
                self,
                q,
                first,
                second,
                fp,
                sp,
                fi,
                si,
            )
        &&& new.mode_of(first) == self.mode_taken(self.mode_of(second), first)
        &&& new.mode_of(second) == self.mode_taken(self.mode_of(first), second)
        &&& forall|x: NodeId|
            #![trigger new.mode_of(x)]
            self.is_live(x) && x != first && x != second ==> new.mode_of(x)
                == self.mode_of(x)
        &&& forall|x: NodeId|
            #![trigger new.previous_layout_of(x)]
            new.previous_layout_of(x) == self.previous_layout_of(x)
        &&& new.focus_id() == self.focus_after_swap(first, second)
        &&& new.history() == if self.focus_after_swap(first, second)
            == self.focus_id() {
            self.history()
        } else {
            self.history_after_focus(self.focus_after_swap(first, second)->0)
        }
    }

    /// Makes `first` and `second` trade places in the tree, with their pending
    /// modes. Fails when either is missing, when they are the same node, or
    /// when one contains the other.
    ///
    /// A split that takes over the mode of a maximized window is not
    /// maximized: the tree holds no maximized split.
    pub fn swap_nodes(&mut self, first: NodeId, second: NodeId) -> (r: Result<(), &'static str>)
        requires
            old(self).wf(),
        ensures
            old(self).keeps_titles(*final(self)),
            final(self).wf(),
            !(old(self).is_live(first) && old(self).is_live(second)) ==> r == Err::<(), &'static str>(
                "No matching node.",
            ) && *final(self) == *old(self),
            old(self).is_live(first) && old(self).is_live(second) && first == second ==> r == Err::<
                (),
                &'static str,
            >("Cannot swap a container with itself") && *final(self) == *old(self),
            old(self).is_live(first) && old(self).is_live(second) && first != second && (old(self).is_desc(
                first,
                second,
            ) || old(self).is_desc(second, first)) ==> r == Err::<(), &'static str>(
                "Cannot swap ancestor and descendant",
            ) && *final(self) == *old(self),
            r is Ok ==> old(self).swapped_into(*final(self), first, second),
            old(self).is_live(first) && old(self).is_live(second) && first != second && !old(self).is_desc(
                first,
                second,
            ) && !old(self).is_desc(second, first) ==> r is Ok,
    {
        if !self.is_live_exec(first) || !self.is_live_exec(second) {
            return Err("No matching node.");
        }
        if first == second {
            return Err("Cannot swap a container with itself");
        }
        if self.contains_node(first, second) || self.contains_node(second, first) {
            return Err("Cannot swap ancestor and descendant");
        }
        let ghost t0 = *self;
        let ghost a0 = self.arena;
        proof {
            self.lemma_desc_root(first);
            self.lemma_desc_root(second);
            assert(self.parent_of(self.root_id()) is None);
        }
        let fp = match self.arena.parents[first.0 as usize] {
            Some(p) => p,
            None => {
                proof {
                    assert(false);
                }
                return Err("No matching node.");
            },
        };
        let sp = match self.arena.parents[second.0 as usize] {
            Some(p) => p,
            None => {
                proof {
                    assert(false);
                }
                return Err("No matching node.");
            },
        };
        let fi = self.index_of_child(fp, first);
        let si = self.index_of_child(sp, second);
        let first_in_stack = match self.arena.kinds[fp.0 as usize] {
            NodeKind::Split(l) => matches!(l, Layout::Tabbed | Layout::Stacked),
            NodeKind::Leaf(_) => false,
        };
        let second_in_stack = match self.arena.kinds[sp.0 as usize] {
            NodeKind::Split(l) => matches!(l, Layout::Tabbed | Layout::Stacked),
            NodeKind::Leaf(_) => false,
        };
        let focus_after = if self.focus == Some(first) && second_in_stack {
            Some(second)
        } else if self.focus == Some(second) && first_in_stack {
            Some(first)
        } else {
            self.focus
        };
        assert(focus_after == t0.focus_after_swap(first, second));
        self.arena.children[fp.0 as usize].set(fi, second);
        self.arena.children[sp.0 as usize].set(si, first);
        self.arena.parents.set(first.0 as usize, Some(sp));
        self.arena.parents.set(second.0 as usize, Some(fp));
        self.arena.depth = Ghost(lifted_depths(a0, first, second));
        self.arena.max_depth = Ghost(2 * a0.max_depth@ + 1);
        let first_mode = self.modes[first.0 as usize];
        let second_mode = self.modes[second.0 as usize];
        let first_takes = match self.arena.kinds[first.0 as usize] {
            NodeKind::Split(_) => PendingMode { fullscreen: second_mode.fullscreen, maximized: false },
            NodeKind::Leaf(_) => second_mode,
        };
        let second_takes = match self.arena.kinds[second.0 as usize] {
            NodeKind::Split(_) => PendingMode { fullscreen: first_mode.fullscreen, maximized: false },
            NodeKind::Leaf(_) => first_mode,
        };
        self.modes.set(first.0 as usize, first_takes);
        self.modes.set(second.0 as usize, second_takes);
        proof {
            assert forall|q: NodeId|
                #![trigger self.arena.children_of(q)]
                q.0 < a0.children@.len() implies self.arena.children_of(q) == swapped_children(
                    t0,
                    q,
                    first,
                    second,
                    fp,
                    sp,
                    fi as int,
                    si as int,
                ) by {}
            Arena::lemma_swap_arena(t0, a0, self.arena, first, second, fp, sp, fi as int, si as int);
            assert(modes_ok(self.arena, self.modes@, self.previous_layouts@)) by {
                assert forall|y: NodeId|
                    #![trigger self.modes@[y.0 as int]]
                    y.0 < self.arena.live@.len() implies {
                        &&& (!self.arena.is_live(y) ==> self.modes@[y.0 as int] == normal_mode()
                            && self.previous_layouts@[y.0 as int] is None)
                        &&& (self.arena.is_live(y) && self.arena.kind_of(y) is Split
                            ==> !self.modes@[y.0 as int].maximized)
                    } by {
                    let _ = t0.modes@[y.0 as int];
                    let _ = t0.modes@[first.0 as int];
                    let _ = t0.modes@[second.0 as int];
                }
            }
            assert forall|i: int| 0 <= i < self.focus_history@.len() implies #[trigger] self.arena.is_live(
                self.focus_history@[i],
            ) by {
                assert(a0.is_live(self.focus_history@[i]));
            }
            assert(self.arena.has_leaf() == a0.has_leaf()) by {
                if a0.has_leaf() {
                    let x = choose|x: NodeId| a0.is_leaf(x);
                    assert(self.arena.is_leaf(x));
                }
                if self.arena.has_leaf() {
                    let x = choose|x: NodeId| self.arena.is_leaf(x);
                    assert(a0.is_leaf(x));
                }
            }
            assert(focus_ok(self.arena, self.focus, self.focus_history@));
            assert forall|x: NodeId|
                #![trigger self.parent_of(x)]
                t0.is_live(x) && x != first && x != second implies self.parent_of(x) == t0.parent_of(x) by {}
            assert forall|x: NodeId|
                #![trigger self.mode_of(x)]
                t0.is_live(x) && x != first && x != second implies self.mode_of(x) == t0.mode_of(x) by {}
        }
        let ghost t1 = *self;
        if focus_after != self.focus {
            self.focus_node(focus_after);
        }
        proof {
            let fp0 = t0.parent_of(first)->0;
            assert(fp0 == fp);
            assert(t0.children_of(fp).index_of(first) == fi);
            assert(forall|x: NodeId| #[trigger] self.is_live(x) == t0.is_live(x));
            assert(self.parent_of(first) == Some(sp));
            assert(self.mode_of(first) == t0.mode_taken(t0.mode_of(second), first));
            assert(self.focus_id() == t0.focus_after_swap(first, second));
        }
        Ok(())
    }
}

} // verus!
