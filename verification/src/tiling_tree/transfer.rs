//! Taking a subtree out of one tree and putting it into another, as moving a
//! container between workspaces does.
use vstd::prelude::*;
use super::{Arena, Layout, NodeId, NodeKind, PendingMode, TilingTree, modes_ok, normal_mode};
use super::focus::{lemma_without, without};

verus! {

/// One node of a detached subtree. The nodes of a subtree are listed in
/// depth-first pre-order, each naming the position of its parent's entry.
#[derive(Clone, Copy, Debug)]
pub struct DetachedEntry {
    /// The node's id in the tree it was taken from.
    pub old_id: NodeId,
    pub kind: NodeKind,
    /// Position of the parent's entry; `None` for the top of the subtree.
    pub parent: Option<usize>,
    pub previous_layout: Option<Layout>,
    pub mode: PendingMode,
}

/// A subtree taken out of a tree: its nodes, and the windows of its leaves
/// in the order they were last focused.
pub struct DetachedSubtree {
    pub entries: Vec<DetachedEntry>,
    pub focus_history: Vec<u64>,
}

/// `es` lists a tree in pre-order: the first entry is the top, every other
/// entry names an earlier split as its parent, and every split is followed
/// by its first child, so no split is empty. Splits are never maximized.
pub open spec fn shaped(es: Seq<DetachedEntry>) -> bool {
    &&& es.len() > 0
    &&& es[0].parent is None
    &&& forall|k: int|
        0 < k < es.len() ==> ((#[trigger] es[k]).parent matches Some(j) && j < k && es[j as int].kind is Split)
    &&& forall|j: int|
        0 <= j < es.len() && (#[trigger] es[j]).kind is Split ==> j + 1 < es.len() && es[j + 1].parent == Some(
            j as usize,
        ) && !es[j].mode.maximized
}

/// `es` lists the subtree of `id` of `t` as detaching it hands it over:
/// every node in pre-order with its kind, its parent, its side state (none
/// for the root of the tree, which stays behind).
pub open spec fn detached_from(t: TilingTree, es: Seq<DetachedEntry>, id: NodeId) -> bool {
    &&& shaped(es)
    &&& es.len() == t.preorder(id).len()
    &&& forall|k: int|
        0 <= k < es.len() ==> (#[trigger] es[k]).old_id == t.preorder(id)[k] && es[k].kind == t.kind_of(
            es[k].old_id,
        ) && (k > 0 || id != t.root_id() ==> t.records(es[k]))
    &&& forall|k: int|
        0 < k < es.len() ==> ((#[trigger] es[k]).parent matches Some(j) && es[j as int].old_id == t.parent_of(
            es[k].old_id,
        )->0)
    &&& id == t.root_id() ==> es[0].mode == normal_mode() && es[0].previous_layout is None
}

/// The windows of the leaf entries of `es`, in order.
pub open spec fn entry_windows(es: Seq<DetachedEntry>) -> Seq<u64>
    decreases es.len(),
{
    if es.len() == 0 {
        Seq::empty()
    } else {
        let rest = entry_windows(es.drop_last());
        match es.last().kind {
            NodeKind::Leaf(w) => rest.push(w),
            NodeKind::Split(_) => rest,
        }
    }
}

impl DetachedSubtree {
    /// Whether some node of the subtree is pending fullscreen.
    pub fn has_fullscreen(&self) -> (r: bool)
        ensures
            r == exists|k: int| 0 <= k < self.entries@.len() && (#[trigger] self.entries@[k]).mode.fullscreen is Some,
    {
        for k in 0..self.entries.len()
            invariant
                forall|j: int| 0 <= j < k ==> (#[trigger] self.entries@[j]).mode.fullscreen is None,
        {
            if self.entries[k].mode.fullscreen.is_some() {
                return true;
            }
        }
        false
    }

    /// The windows of the subtree, in depth-first order.
    pub fn windows(&self) -> (r: Vec<u64>)
        ensures
            r@ == entry_windows(self.entries@),
    {
        let mut r: Vec<u64> = Vec::new();
        for k in 0..self.entries.len()
            invariant
                r@ == entry_windows(self.entries@.take(k as int)),
        {
            assert(self.entries@.take(k + 1).drop_last() =~= self.entries@.take(k as int));
            assert(self.entries@.take(k + 1).last() == self.entries@[k as int]);
            match self.entries[k].kind {
                NodeKind::Leaf(w) => {
                    r.push(w);
                },
                NodeKind::Split(_) => {},
            }
        }
        assert(self.entries@.take(self.entries@.len() as int) =~= self.entries@);
        r
    }

    /// Exchanges the pending modes of the tops of two subtrees.
    pub fn swap_root_mode(&mut self, other: &mut DetachedSubtree)
        requires
            old(self).entries@.len() > 0,
            old(other).entries@.len() > 0,
        ensures
            final(self).entries@ == old(self).entries@.update(
                0,
                DetachedEntry { mode: old(other).entries@[0].mode, ..old(self).entries@[0] },
            ),
            final(other).entries@ == old(other).entries@.update(
                0,
                DetachedEntry { mode: old(self).entries@[0].mode, ..old(other).entries@[0] },
            ),
            final(self).focus_history == old(self).focus_history,
            final(other).focus_history == old(other).focus_history,
    {
        let mine = self.entries[0];
        let theirs = other.entries[0];
        self.entries.set(
            0,
            DetachedEntry {
                old_id: mine.old_id,
                kind: mine.kind,
                parent: mine.parent,
                previous_layout: mine.previous_layout,
                mode: theirs.mode,
            },
        );
        other.entries.set(
            0,
            DetachedEntry {
                old_id: theirs.old_id,
                kind: theirs.kind,
                parent: theirs.parent,
                previous_layout: theirs.previous_layout,
                mode: mine.mode,
            },
        );
    }
}

impl TilingTree {
    /// Entry `e` records the node it names as it stands in this tree.
    pub open spec fn records(self, e: DetachedEntry) -> bool {
        &&& e.kind == self.kind_of(e.old_id)
        &&& e.mode == self.mode_of(e.old_id)
        &&& e.previous_layout == self.previous_layout_of(e.old_id)
    }

    /// From position `o` on, `out` lists the subtree of `x` in pre-order,
    /// its top naming `parent` as the parent's entry.
    pub open spec fn snapshot_at(self, out: Seq<DetachedEntry>, o: int, x: NodeId, parent: Option<usize>) -> bool {
        let p = self.preorder(x);
        let n = o + p.len();
        &&& 0 <= o < n <= out.len()
        &&& forall|k: int| o <= k < n ==> (#[trigger] out[k]).old_id == p[k - o] && self.records(out[k])
        &&& out[o].parent == parent
        &&& forall|k: int|
            o < k < n ==> ((#[trigger] out[k]).parent matches Some(j) && o <= j < k && out[j as int].kind is Split
                && out[j as int].old_id == self.parent_of(out[k].old_id)->0)
        &&& forall|j: int|
            o <= j < n && (#[trigger] out[j]).kind is Split ==> j + 1 < n && out[j + 1].parent == Some(j as usize)
    }

    /// Appends the entries of the subtree of `x`, in pre-order, to `out`.
    #[verifier::spinoff_prover]
    #[verifier::rlimit(40)]
    pub(crate) fn snapshot_into(&self, x: NodeId, parent: Option<usize>, out: &mut Vec<DetachedEntry>)
        requires
            self.wf(),
            self.is_live(x),
            x != self.root_id() || self.children_of(x).len() > 0,
        ensures
            final(out)@.len() == old(out)@.len() + self.preorder(x).len(),
            final(out)@.take(old(out)@.len() as int) == old(out)@,
            self.snapshot_at(final(out)@, old(out)@.len() as int, x, parent),
        decreases self.height_measure(x),
    {
        let ghost before = out@;
        let o = out.len();
        let entry = DetachedEntry {
            old_id: x,
            kind: self.arena.kinds[x.0 as usize],
            parent,
            previous_layout: self.previous_layouts[x.0 as usize],
            mode: self.modes[x.0 as usize],
        };
        out.push(entry);
        proof {
            self.arena.lemma_preorder(x);
            assert(self.preorder(x)[0] == x) by {
                reveal_with_fuel(super::Arena::preorder, 1);
            }
        }
        match self.arena.kinds[x.0 as usize] {
            NodeKind::Leaf(_) => {
                proof {
                    assert(self.children_of(x).len() == 0);
                    assert(self.preorder(x) =~= seq![x]) by {
                        reveal_with_fuel(super::Arena::preorder, 1);
                        reveal_with_fuel(super::Arena::preorder_of_list, 1);
                    }
                    assert(out@.take(o as int) =~= before);
                }
            },
            NodeKind::Split(_) => {
                let kids = &self.arena.children[x.0 as usize];
                let ghost all = self.children_of(x);
                assert(kids@ == all);
                assert(all.len() > 0);
                proof {
                    assert(self.preorder(x) == seq![x] + self.arena.preorder_of_list(x, all)) by {
                        reveal_with_fuel(super::Arena::preorder, 1);
                    }
                    assert(all.take(0) =~= Seq::<NodeId>::empty());
                    assert(seq![x] + self.arena.preorder_of_list(x, all.take(0)) =~= seq![x]) by {
                        reveal_with_fuel(super::Arena::preorder_of_list, 1);
                    }
                    assert(out@.take(o as int) =~= before);
                }
                for i in 0..kids.len()
                    invariant
                        self.wf(),
                        self.is_live(x),
                        kids@ == all,
                        all == self.children_of(x),
                        all.len() > 0,
                        self.kind_of(x) is Split,
                        o == before.len(),
                        out@.len() == o + 1 + self.arena.preorder_of_list(x, all.take(i as int)).len(),
                        out@.take(o as int) == before,
                        out@[o as int] == entry,
                        entry.old_id == x && entry.parent == parent && self.records(entry),
                        self.preorder(x) == seq![x] + self.arena.preorder_of_list(x, all),
                        forall|k: int|
                            o <= k < out@.len() ==> (#[trigger] out@[k]).old_id == (seq![x]
                                + self.arena.preorder_of_list(x, all.take(i as int)))[k - o] && self.records(
                                out@[k],
                            ),
                        forall|k: int|
                            o < k < out@.len() ==> ((#[trigger] out@[k]).parent matches Some(j) && o <= j < k
                                && out@[j as int].kind is Split && out@[j as int].old_id == self.parent_of(
                                out@[k].old_id,
                            )->0),
                        forall|j: int|
                            o <= j < out@.len() && (#[trigger] out@[j]).kind is Split && !(j == o && i == 0)
                                ==> j + 1 < out@.len() && out@[j + 1].parent == Some(j as usize),
                {
                    let ghost mid = out@;
                    let ghost c_o = out@.len();
                    proof {
                        self.lemma_descends_child(x, i as int);
                        self.lemma_child_desc(x, i as int);
                        self.lemma_wf_depth_bound(x);
                        self.arena.lemma_preorder_take_step(x, all, i as int);
                    }
                    self.snapshot_into(kids[i], Some(o), out);
                    proof {
                        let c = all[i as int];
                        let pc = self.preorder(c);
                        let head = seq![x] + self.arena.preorder_of_list(x, all.take(i as int));
                        let head2 = seq![x] + self.arena.preorder_of_list(x, all.take(i + 1));
                        assert(head2 =~= head + pc);
                        assert(head.len() == c_o - o);
                        assert forall|k: int| 0 <= k < c_o implies out@[k] == mid[k] by {
                            assert(out@.take(c_o as int)[k] == mid[k]);
                        }
                        assert(out@.take(o as int) =~= before) by {
                            assert forall|k: int| 0 <= k < o implies out@.take(o as int)[k] == before[k] by {
                                assert(mid.take(o as int)[k] == before[k]);
                            }
                        }
                        assert forall|k: int| o <= k < out@.len() implies (#[trigger] out@[k]).old_id == head2[k
                            - o] && self.records(out@[k]) by {
                            if k < c_o {
                                assert(out@[k] == mid[k]);
                            } else {
                                assert(head2[k - o] == pc[k - c_o]);
                            }
                        }
                        assert(self.parent_of(c) == Some(x));
                        assert forall|k: int| o < k < out@.len() implies ((#[trigger] out@[k]).parent matches Some(j)
                            && o <= j < k && out@[j as int].kind is Split && out@[j as int].old_id
                            == self.parent_of(out@[k].old_id)->0) by {
                            if k < c_o {
                                assert(out@[k] == mid[k]);
                                let j = mid[k].parent->0;
                                assert(out@[j as int] == mid[j as int]);
                            } else if k == c_o {
                                assert(out@[k].old_id == pc[0]);
                                self.arena.lemma_preorder(c);
                                assert(pc[0] == c) by {
                                    reveal_with_fuel(super::Arena::preorder, 1);
                                }
                                assert(out@[o as int] == mid[o as int]);
                            }
                        }
                        assert forall|j: int|
                            o <= j < out@.len() && (#[trigger] out@[j]).kind is Split && !(j == o && i + 1 == 0)
                                implies j + 1 < out@.len() && out@[j + 1].parent == Some(j as usize) by {
                            if j < c_o {
                                assert(out@[j] == mid[j]);
                                if j + 1 < c_o {
                                    assert(out@[j + 1] == mid[j + 1]);
                                } else {
                                    assert(j == o && i == 0);
                                }
                            }
                        }
                    }
                }
                proof {
                    assert(all.take(all.len() as int) =~= all);
                }
            },
        }
    }
}

impl TilingTree {
    /// Takes the subtree of `x` out of the tree: `x` leaves its parent `p`,
    /// which is returned, and every node below it dies with its side state
    /// and its entry in the focus history. The focus is left as it was.
    fn cut_subtree(&mut self, x: NodeId) -> (p: NodeId)
        requires
            old(self).wf(),
            old(self).is_live(x),
            x != old(self).root_id(),
        ensures
            old(self).keeps_titles(*final(self)),
            old(self).parent_of(x) == Some(p),
            final(self).wf_but_focus_except(Some(p)),
            forall|y: NodeId| #[trigger] final(self).is_live(y) <==> (old(self).is_live(y) && !old(self).is_desc(y, x)),
            forall|y: NodeId|
                #![trigger final(self).kind_of(y)]
                final(self).is_live(y) ==> final(self).kind_of(y) == old(self).kind_of(y) && final(self).mode_of(y)
                    == old(self).mode_of(y) && final(self).parent_of(y) == old(self).parent_of(y),
            forall|q: NodeId|
                #![trigger final(self).children_of(q)]
                final(self).is_live(q) && q != p ==> final(self).children_of(q) == old(self).children_of(q),
            final(self).children_of(p) == old(self).children_of(p).remove(old(self).children_of(p).index_of(x)),
            forall|y: NodeId|
                #[trigger] final(self).history().contains(y) <==> (old(self).history().contains(y) && !old(
                    self,
                ).is_desc(y, x)),
            final(self).focus_id() == old(self).focus_id(),
            final(self).root_id() == old(self).root_id(),
            final(self).arena.live@.len() == old(self).arena.live@.len(),
    {
        let ghost t0 = *self;
        let ghost a0 = self.arena;
        assert(self.parent_of(x) is Some);
        let p = self.arena.parents[x.0 as usize].unwrap();
        assert(self.children_of(p).contains(x));
        let idx = self.index_of_child(p, x);
        let mut order: Vec<NodeId> = Vec::new();
        self.collect_depth_first(x, &mut order);
        proof {
            a0.lemma_preorder(x);
            assert(order@ =~= self.preorder(x));
        }
        // The focus history without the subtree.
        let mut kept: Vec<NodeId> = Vec::new();
        let n = self.focus_history.len();
        let ghost h = self.focus_history@;
        for i in 0..n
            invariant
                old(self).keeps_titles(*self),
                *self == t0,
                t0.wf(),
                h == t0.focus_history@,
                n == h.len(),
                h.no_duplicates(),
                forall|y: NodeId| #[trigger] kept@.contains(y) <==> (h.take(i as int).contains(y) && !t0.is_desc(y, x)),
                kept@.no_duplicates(),
        {
            let y = self.focus_history[i];
            proof {
                assert(h.take(i + 1) =~= h.take(i as int).push(y));
                assert(!h.take(i as int).contains(y)) by {
                    if h.take(i as int).contains(y) {
                        let k = h.take(i as int).index_of(y);
                        assert(h[k] == y);
                    }
                }
            }
            if !self.contains_node(x, y) {
                let ghost before = kept@;
                kept.push(y);
                proof {
                    assert forall|z: NodeId| #[trigger] kept@.contains(z) <==> (h.take(i + 1).contains(z) && !t0.is_desc(z, x)) by {
                        if kept@.contains(z) && z != y {
                            let k = kept@.index_of(z);
                            assert(before[k] == z);
                        }
                        if before.contains(z) {
                            let k = before.index_of(z);
                            assert(kept@[k] == z);
                        }
                        if z == y {
                            assert(kept@[before.len() as int] == y);
                            assert(h.take(i + 1)[i as int] == y);
                        }
                        if h.take(i + 1).contains(z) && z != y {
                            let k = h.take(i + 1).index_of(z);
                            assert(h.take(i as int)[k] == z);
                        }
                        if h.take(i as int).contains(z) {
                            let k = h.take(i as int).index_of(z);
                            assert(h.take(i + 1)[k] == z);
                        }
                    }
                    assert(kept@.no_duplicates()) by {
                        assert forall|a: int, b: int| 0 <= a < kept@.len() && 0 <= b < kept@.len() && a != b implies kept@[a]
                            != kept@[b] by {
                            if a == before.len() {
                                assert(before.contains(kept@[b]));
                            } else if b == before.len() {
                                assert(before.contains(kept@[a]));
                            } else {
                                assert(kept@[a] == before[a] && kept@[b] == before[b]);
                            }
                        }
                    }
                }
            } else {
                proof {
                    assert forall|z: NodeId| #[trigger] kept@.contains(z) <==> (h.take(i + 1).contains(z) && !t0.is_desc(z, x)) by {
                        if h.take(i + 1).contains(z) && z != y {
                            let k = h.take(i + 1).index_of(z);
                            assert(h.take(i as int)[k] == z);
                        }
                    }
                }
            }
        }
        assert(h.take(n as int) =~= h);
        // Cut the subtree out.
        self.arena.children[p.0 as usize].remove(idx);
        let ghost a_mid = self.arena;
        for k in 0..order.len()
            invariant
                old(self).keeps_titles(*self),
                order@ == a0.preorder(x),
                forall|y: NodeId| #[trigger] order@.contains(y) <==> (a0.is_live(y) && a0.is_desc(y, x)),
                a0.wf(),
                self.arena.live@.len() == a0.live@.len(),
                self.modes@.len() == a0.live@.len(),
                self.previous_layouts@.len() == a0.live@.len(),
                self.arena.kinds == a0.kinds,
                self.arena.parents == a0.parents,
                self.arena.depth == a0.depth,
                self.arena.max_depth == a0.max_depth,
                self.arena.root == a0.root,
                self.arena.children == a_mid.children,
                self.focus == t0.focus,
                self.focus_history == t0.focus_history,
                forall|y: NodeId|
                    #![trigger self.arena.live@[y.0 as int]]
                    y.0 < a0.live@.len() ==> self.arena.live@[y.0 as int] == (a0.live@[y.0 as int] && !order@.take(
                        k as int,
                    ).contains(y)),
                forall|y: NodeId|
                    #![trigger self.modes@[y.0 as int]]
                    y.0 < a0.live@.len() ==> if order@.take(k as int).contains(y) {
                        self.modes@[y.0 as int] == normal_mode() && self.previous_layouts@[y.0 as int] is None
                    } else {
                        self.modes@[y.0 as int] == t0.modes@[y.0 as int] && self.previous_layouts@[y.0 as int]
                            == t0.previous_layouts@[y.0 as int]
                    },
        {
            let y = order[k];
            proof {
                assert(order@[k as int] == y);
                assert(order@.contains(y));
                assert(a0.is_live(y));
            }
            let ghost prev_live = self.arena.live@;
            let ghost prev_modes = self.modes@;
            let ghost prev_layouts = self.previous_layouts@;
            self.arena.live.set(y.0 as usize, false);
            self.modes.set(y.0 as usize, PendingMode { fullscreen: None, maximized: false });
            self.previous_layouts.set(y.0 as usize, None);
            proof {
                assert(order@.take(k + 1) =~= order@.take(k as int).push(y));
                assert forall|z: NodeId| #![trigger self.arena.live@[z.0 as int]] z.0 < a0.live@.len() implies self.arena.live@[z.0 as int]
                    == (a0.live@[z.0 as int] && !order@.take(k + 1).contains(z)) by {
                    if z.0 == y.0 {
                        assert(z == y);
                        assert(order@.take(k + 1)[k as int] == y);
                    } else {
                        assert(prev_live[z.0 as int] == (a0.live@[z.0 as int] && !order@.take(k as int).contains(z)));
                        assert(order@.take(k + 1).contains(z) == order@.take(k as int).contains(z)) by {
                            if order@.take(k + 1).contains(z) {
                                let j = order@.take(k + 1).index_of(z);
                                assert(order@.take(k as int)[j] == z);
                            }
                            if order@.take(k as int).contains(z) {
                                let j = order@.take(k as int).index_of(z);
                                assert(order@.take(k + 1)[j] == z);
                            }
                        }
                    }
                }
                assert forall|z: NodeId| #![trigger self.modes@[z.0 as int]] z.0 < a0.live@.len() implies if order@.take(k + 1).contains(z) {
                    self.modes@[z.0 as int] == normal_mode() && self.previous_layouts@[z.0 as int] is None
                } else {
                    self.modes@[z.0 as int] == t0.modes@[z.0 as int] && self.previous_layouts@[z.0 as int]
                        == t0.previous_layouts@[z.0 as int]
                } by {
                    if z.0 == y.0 {
                        assert(z == y);
                        assert(order@.take(k + 1)[k as int] == y);
                    } else {
                        let _ = prev_modes[z.0 as int];
                        assert(order@.take(k + 1).contains(z) == order@.take(k as int).contains(z)) by {
                            if order@.take(k + 1).contains(z) {
                                let j = order@.take(k + 1).index_of(z);
                                assert(order@.take(k as int)[j] == z);
                            }
                            if order@.take(k as int).contains(z) {
                                let j = order@.take(k as int).index_of(z);
                                assert(order@.take(k + 1)[j] == z);
                            }
                        }
                    }
                }
            }
        }
        self.focus_history = kept;
        proof {
            assert(order@.take(order@.len() as int) =~= order@);
            assert forall|y: NodeId| #[trigger] self.arena.is_live(y) <==> (a0.is_live(y) && !a0.is_desc(y, x)) by {
                if y.0 < a0.live@.len() {
                    assert(self.arena.live@[y.0 as int] == (a0.live@[y.0 as int] && !order@.contains(y)));
                }
            }
            assert forall|q: NodeId|
                #![trigger self.arena.children_of(q)]
                q != p && q.0 < a0.children@.len() implies self.arena.children_of(q) == a0.children_of(q) by {}
            Arena::lemma_cut_subtree_arena(a0, self.arena, x, p, idx as int);
            assert(modes_ok(self.arena, self.modes@, self.previous_layouts@)) by {
                assert forall|y: NodeId|
                    #![trigger self.modes@[y.0 as int]]
                    y.0 < self.arena.live@.len() implies {
                        &&& (!self.arena.is_live(y) ==> self.modes@[y.0 as int] == normal_mode()
                            && self.previous_layouts@[y.0 as int] is None)
                        &&& (self.arena.is_live(y) && self.arena.kind_of(y) is Split
                            ==> !self.modes@[y.0 as int].maximized)
                    } by {
                    let _ = t0.modes@[y.0 as int];
                    assert(self.arena.live@[y.0 as int] == (a0.live@[y.0 as int] && !order@.contains(y)));
                }
            }
            assert forall|i: int| 0 <= i < self.focus_history@.len() implies #[trigger] self.arena.is_live(
                self.focus_history@[i],
            ) by {
                let y = self.focus_history@[i];
                assert(kept@.contains(y));
                assert(h.contains(y));
                let k = h.index_of(y);
                assert(a0.is_live(h[k]));
            }
            assert forall|y: NodeId| #![trigger self.kind_of(y)] self.is_live(y) implies self.kind_of(y) == t0.kind_of(y)
                && self.mode_of(y) == t0.mode_of(y) && self.parent_of(y) == t0.parent_of(y) by {
                assert(self.arena.live@[y.0 as int] == (a0.live@[y.0 as int] && !order@.contains(y)));
                let _ = self.modes@[y.0 as int];
            }
            assert forall|q: NodeId| #![trigger self.children_of(q)] self.is_live(q) && q != p implies self.children_of(q)
                == t0.children_of(q) by {
                assert(q.0 < a0.children@.len());
            }
        }
        p
    }
}

/// Turning some `true` entries off, at least the one at `j`, lowers the count.
proof fn lemma_count_less(s: Seq<bool>, t: Seq<bool>, j: int)
    requires
        s.len() == t.len(),
        forall|i: int| 0 <= i < t.len() && t[i] ==> s[i],
        0 <= j < s.len(),
        s[j] && !t[j],
    ensures
        super::count_true(t) < super::count_true(s),
    decreases s.len(),
{
    lemma_count_le(s.drop_last(), t.drop_last());
    if j < s.len() - 1 {
        lemma_count_less(s.drop_last(), t.drop_last(), j);
    }
}

proof fn lemma_count_le(s: Seq<bool>, t: Seq<bool>)
    requires
        s.len() == t.len(),
        forall|i: int| 0 <= i < t.len() && t[i] ==> s[i],
    ensures
        super::count_true(t) <= super::count_true(s),
    decreases s.len(),
{
    if s.len() > 0 {
        lemma_count_le(s.drop_last(), t.drop_last());
    }
}

/// The windows of the entries of `h` that are leaves below `x`, in order.
pub open spec fn leaf_windows_below(t: TilingTree, h: Seq<NodeId>, x: NodeId) -> Seq<u64>
    decreases h.len(),
{
    if h.len() == 0 {
        Seq::empty()
    } else {
        let rest = leaf_windows_below(t, h.drop_last(), x);
        let y = h.last();
        if t.is_leaf_node(y) && t.is_desc(y, x) {
            rest.push(t.window_of(y))
        } else {
            rest
        }
    }
}

impl TilingTree {
    /// The windows below `x`, most recently focused first.
    pub(crate) fn history_windows_in(&self, x: NodeId) -> (r: Vec<u64>)
        requires
            self.wf(),
        ensures
            r@ == leaf_windows_below(*self, self.history(), x),
    {
        let mut r: Vec<u64> = Vec::new();
        let n = self.focus_history.len();
        for i in 0..n
            invariant
                self.wf(),
                n == self.history().len(),
                r@ == leaf_windows_below(*self, self.history().take(i as int), x),
        {
            let y = self.focus_history[i];
            proof {
                let h = self.history();
                assert(h.take(i + 1).drop_last() =~= h.take(i as int));
                assert(h.take(i + 1).last() == y);
                assert(self.is_live(y));
            }
            let is_leaf = match self.arena.kinds[y.0 as usize] {
                NodeKind::Leaf(_) => true,
                NodeKind::Split(_) => false,
            };
            if is_leaf && self.contains_node(x, y) {
                match self.arena.kinds[y.0 as usize] {
                    NodeKind::Leaf(w) => {
                        r.push(w);
                    },
                    NodeKind::Split(_) => {},
                }
            }
        }
        assert(self.history().take(n as int) =~= self.history());
        r
    }

    /// The root is never required to have children, so exempting it changes nothing.
    proof fn lemma_except_root(t: TilingTree)
        requires
            t.wf_but_focus_except(Some(t.root_id())),
        ensures
            t.wf_but_focus(),
    {
        assert forall|q: NodeId|
            #![trigger t.arena.children_of(q)]
            t.arena.is_live(q) && t.arena.kind_of(q) is Split && q != t.arena.root && None::<NodeId> != Some(q)
                implies t.arena.children_of(q).len() > 0 by {
            let _ = t.arena.children_of(q);
        }
    }

    /// The focused leaf below the root is a live leaf, there exactly when the
    /// tree holds a window.
    proof fn lemma_focus_target_except(self, f: Option<NodeId>, e: NodeId)
        requires
            self.wf_but_focus_except(Some(e)),
            f == self.focused_leaf_spec(self.root_id()),
        ensures
            f matches Some(l) ==> self.is_live(l) && self.is_leaf_node(l),
            f is Some <==> self.has_leaf(),
    {
        self.lemma_focused_leaf(self.root_id());
        if f is Some {
            self.lemma_leaf_has_leaf(f->0);
        }
        if self.has_leaf() {
            let x = self.lemma_leaf_witness();
            self.lemma_desc_root(x);
        }
    }

    proof fn lemma_focus_target(self, f: Option<NodeId>)
        requires
            self.wf_but_focus(),
            f == self.focused_leaf_spec(self.root_id()),
        ensures
            f matches Some(l) ==> self.is_live(l) && self.is_leaf_node(l),
            f is Some <==> self.has_leaf(),
    {
        super::nest::lemma_but_focus_except_any(self, self.root_id());
        self.lemma_focus_target_except(f, self.root_id());
    }

    /// Points the focus at `f`, leaving the focus history as it is.
    fn set_focus_raw(&mut self, f: Option<NodeId>, Ghost(e): Ghost<Option<NodeId>>)
        requires
            old(self).wf_but_focus_except(e),
            f matches Some(l) ==> old(self).is_live(l),
            f is Some <==> old(self).has_leaf(),
        ensures
            old(self).keeps_titles(*final(self)),
            final(self).wf_but_focus_except(e),
            final(self).wf_focus(),
            e is None ==> final(self).wf(),
            final(self).same_tree(*old(self)),
            final(self).focus_id() == f,
            final(self).history() == old(self).history(),
    {
        self.focus = f;
        proof {
            assert(self.wf_focus());
        }
    }

    /// Takes every child subtree out of the root and makes the root an empty
    /// horizontal split.
    fn clear_root(&mut self)
        requires
            old(self).wf(),
        ensures
            old(self).keeps_titles(*final(self)),
            final(self).wf(),
            final(self).root_id() == old(self).root_id(),
            final(self).kind_of(final(self).root_id()) == NodeKind::Split(Layout::SplitH),
            final(self).children_of(final(self).root_id()).len() == 0,
            forall|y: NodeId| !(#[trigger] final(self).is_leaf_node(y)),
    {
        let root = self.arena.root;
        loop
            invariant
                old(self).keeps_titles(*self),
                self.wf(),
                self.root_id() == root,
            ensures
                self.wf(),
                self.root_id() == root,
                self.children_of(root).len() == 0,
            decreases super::count_true(self.arena.live@),
        {
            if self.arena.children[root.0 as usize].len() == 0 {
                break;
            }
            let c = self.arena.children[root.0 as usize][0];
            let ghost before = *self;
            proof {
                self.lemma_child_desc(root, 0);
            }
            self.cut_subtree(c);
            proof {
                TilingTree::lemma_except_root(*self);
                assert(before.is_desc(c, c)) by {
                    before.lemma_desc_unfold(c, c);
                }
                assert forall|i: int| 0 <= i < self.arena.live@.len() && self.arena.live@[i] implies before.arena.live@[i] by {
                    let y = NodeId(i as u64);
                    assert(self.is_live(y));
                }
                assert(before.is_live(c));
                assert(!self.is_live(c));
                lemma_count_less(before.arena.live@, self.arena.live@, c.0 as int);
            }
            let f = self.focused_leaf_in(root);
            proof {
                self.lemma_focus_target(f);
                super::focus::lemma_but_focus_except_none(*self);
            }
            self.set_focus_raw(f, Ghost(None));
        }
        proof {
            assert forall|y: NodeId| !(#[trigger] self.is_leaf_node(y)) by {
                if self.is_leaf_node(y) {
                    assert(y != root);
                    self.lemma_desc_root(y);
                    let c = self.lemma_desc_child(y, root);
                }
            }
        }
        self.relayout(root, Layout::SplitH);
    }

    /// Takes the subtree of non-root `x` out of the tree, returns its parent,
    /// drops splits left empty, and focuses the most recently focused window
    /// that is left.
    pub(crate) fn take_out(&mut self, x: NodeId) -> (p: NodeId)
        requires
            old(self).wf(),
            old(self).is_live(x),
            x != old(self).root_id(),
        ensures
            old(self).keeps_titles(*final(self)),
            final(self).wf(),
            old(self).parent_of(x) == Some(p),
            forall|y: NodeId| #[trigger] final(self).is_leaf_node(y) <==> (old(self).is_leaf_node(y) && !old(self).is_desc(y, x)),
            forall|y: NodeId| #[trigger] final(self).is_live(y) ==> final(self).kind_of(y) == old(self).kind_of(y),
            final(self).root_id() == old(self).root_id(),
    {
        let ghost t0 = *self;
        let root = self.arena.root;
        let p = self.cut_subtree(x);
        let f = self.focused_leaf_in(root);
        let ghost cut = *self;
        proof {
            cut.lemma_focus_target_except(f, p);
        }
        self.set_focus_raw(f, Ghost(Some(p)));
        let ghost focused = *self;
        self.reap_empty_from(p);
        proof {
            assert(focused.arena == cut.arena);
            assert forall|y: NodeId| #[trigger] self.is_leaf_node(y) <==> (t0.is_leaf_node(y) && !t0.is_desc(y, x)) by {
                if self.is_leaf_node(y) {
                    assert(self.is_live(y));
                    assert(focused.is_live(y) && self.kind_of(y) == focused.kind_of(y));
                    assert(cut.is_live(y));
                    assert(cut.kind_of(y) == t0.kind_of(y));
                }
                if t0.is_leaf_node(y) && !t0.is_desc(y, x) {
                    assert(cut.is_live(y));
                    assert(cut.kind_of(y) == t0.kind_of(y));
                    assert(cut.is_leaf_node(y));
                    assert(focused.is_leaf_node(y));
                }
            }
            assert forall|y: NodeId| #[trigger] self.is_live(y) implies self.kind_of(y) == t0.kind_of(y) by {
                assert(focused.is_live(y) && self.kind_of(y) == focused.kind_of(y));
                assert(cut.is_live(y));
                assert(cut.kind_of(y) == t0.kind_of(y));
            }
        }
        p
    }

    pub(crate) proof fn lemma_detached_entries(self, snap: Seq<DetachedEntry>, es: Seq<DetachedEntry>, id: NodeId)
        requires
            self.wf(),
            self.is_live(id),
            self.snapshot_at(snap, 0, id, None),
            snap.len() == self.preorder(id).len(),
            es.len() == snap.len(),
            forall|k: int| 0 < k < es.len() ==> es[k] == snap[k],
            id != self.root_id() ==> es[0] == snap[0],
            id == self.root_id() ==> es[0] == (DetachedEntry { mode: normal_mode(), previous_layout: None, ..snap[0] }),
        ensures
            detached_from(self, es, id),
    {
        self.arena.lemma_preorder(id);
        let pre = self.preorder(id);
        assert forall|k: int| 0 <= k < es.len() implies self.is_live(#[trigger] es[k].old_id) by {
            assert(snap[k].old_id == pre[k]);
            assert(pre.contains(pre[k]));
        }
        assert forall|k: int| 0 <= k < es.len() implies (#[trigger] es[k]).kind == snap[k].kind && es[k].parent == snap[k].parent
            && es[k].old_id == snap[k].old_id by {
            if k == 0 {
            } else {
                assert(es[k] == snap[k]);
            }
        }
        assert(shaped(es)) by {
            assert forall|k: int|
                0 < k < es.len() implies ((#[trigger] es[k]).parent matches Some(j) && j < k && es[j as int].kind is Split) by {
                assert(es[k].parent == snap[k].parent);
                let j = snap[k].parent->0;
                assert(es[j as int].kind == snap[j as int].kind);
            }
            assert forall|j: int|
                0 <= j < es.len() && (#[trigger] es[j]).kind is Split implies j + 1 < es.len() && es[j + 1].parent == Some(
                    j as usize,
                ) && !es[j].mode.maximized by {
                assert(snap[j].kind is Split);
                assert(es[j + 1].parent == snap[j + 1].parent);
                if j > 0 || id != self.root_id() {
                    assert(es[j] == snap[j]);
                    assert(self.records(snap[j]));
                    assert(self.is_live(snap[j].old_id));
                    assert(self.mode_of(snap[j].old_id) == self.modes@[snap[j].old_id.0 as int]);
                }
            }
        }
        assert forall|k: int|
            0 < k < es.len() implies ((#[trigger] es[k]).parent matches Some(j) && es[j as int].old_id == self.parent_of(
                es[k].old_id,
            )->0) by {
            assert(es[k] == snap[k]);
            let j = snap[k].parent->0;
            assert(es[j as int].old_id == snap[j as int].old_id);
        }
    }

    /// Takes the subtree of `id` out of the tree, handing back its nodes and
    /// the parent it hung from. Taking the root takes all of its children,
    /// and the root stays as an empty horizontal split. The focus moves to
    /// the most recently focused window that is left. Nothing happens, and
    /// `None` comes back, when `id` is not in the tree or is the root of an
    /// empty tree.
    pub fn detach_subtree(&mut self, id: NodeId) -> (r: Option<(DetachedSubtree, Option<NodeId>)>)
        requires
            old(self).wf(),
        ensures
            old(self).keeps_titles(*final(self)),
            final(self).wf(),
            r is Some <==> (old(self).is_live(id) && (id != old(self).root_id() || old(self).children_of(id).len()
                > 0)),
            r is None ==> *final(self) == *old(self),
            r matches Some((d, parent)) ==> {
                &&& detached_from(*old(self), d.entries@, id)
                &&& d.focus_history@ == leaf_windows_below(*old(self), old(self).history(), id)
                &&& parent == (if id == old(self).root_id() {
                    None
                } else {
                    old(self).parent_of(id)
                })
                &&& forall|y: NodeId|
                    #[trigger] final(self).is_leaf_node(y) <==> (old(self).is_leaf_node(y) && !old(self).is_desc(y, id))
                &&& id == old(self).root_id() ==> final(self).kind_of(id) == NodeKind::Split(Layout::SplitH)
                    && final(self).children_of(id).len() == 0
            },
            final(self).root_id() == old(self).root_id(),
    {
        let ghost t0 = *self;
        if !self.is_live_exec(id) {
            return None;
        }
        let root = self.arena.root;
        if id == root && self.arena.children[root.0 as usize].len() == 0 {
            return None;
        }
        let mut entries: Vec<DetachedEntry> = Vec::new();
        self.snapshot_into(id, None, &mut entries);
        let history = self.history_windows_in(id);
        let ghost snap = entries@;
        let parent = if id == root {
            let e0 = entries[0];
            entries.set(
                0,
                DetachedEntry {
                    old_id: e0.old_id,
                    kind: e0.kind,
                    parent: e0.parent,
                    previous_layout: None,
                    mode: PendingMode { fullscreen: None, maximized: false },
                },
            );
            self.clear_root();
            None
        } else {
            Some(self.take_out(id))
        };
        proof {
            t0.lemma_detached_entries(snap, entries@, id);
            if id == root {
                assert forall|y: NodeId| #[trigger] self.is_leaf_node(y) <==> (t0.is_leaf_node(y) && !t0.is_desc(y, id)) by {
                    if t0.is_leaf_node(y) {
                        t0.lemma_desc_root(y);
                    }
                }
            }
        }
        Some((DetachedSubtree { entries, focus_history: history }, parent))
    }
}

impl TilingTree {
    /// Tidies the tree after a subtree was taken out below `old_parent`:
    /// drops splits left empty there, compacts the tree, and focuses the
    /// most recently focused window.
    pub fn finish_subtree_detach(&mut self, old_parent: Option<NodeId>)
        requires
            old(self).wf(),
        ensures
            old(self).keeps_titles(*final(self)),
            final(self).wf(),
            forall|y: NodeId| #[trigger] final(self).is_leaf_node(y) == old(self).is_leaf_node(y),
            forall|y: NodeId|
                #[trigger] final(self).is_live(y) ==> old(self).is_live(y) && final(self).kind_of(y) == old(self).kind_of(y),
            final(self).focus_id() matches Some(f) ==> final(self).is_leaf_node(f),
            forall|x: NodeId| #[trigger] final(self).is_live(x) ==> !final(self).squashable(x),
            final(self).root_id() == old(self).root_id(),
    {
        let ghost t0 = *self;
        if let Some(parent) = old_parent {
            if self.is_live_exec(parent) {
                proof {
                    super::relocate::lemma_wf_except_any(*self, parent);
                }
                self.reap_empty_from(parent);
            }
        }
        let ghost t1 = *self;
        proof {
            assert forall|y: NodeId| #[trigger] t1.is_leaf_node(y) == t0.is_leaf_node(y) by {
                if t1.is_leaf_node(y) {
                    assert(t1.is_live(y));
                    assert(t0.is_live(y));
                }
            }
        }
        self.compact_tree();
        let ghost t2 = *self;
        proof {
            assert forall|y: NodeId| #[trigger] t2.is_leaf_node(y) == t1.is_leaf_node(y) by {
                if t2.is_leaf_node(y) {
                    assert(t2.is_live(y));
                    assert(t1.is_live(y));
                }
            }
        }
        let root = self.arena.root;
        let f = self.focused_leaf_in(root);
        proof {
            self.lemma_focus_target(f);
            super::focus::lemma_but_focus_except_none(*self);
        }
        self.set_focus_raw(f, Ghost(None));
        proof {
            assert(self.arena == t2.arena);
            assert forall|y: NodeId| #[trigger] self.is_leaf_node(y) == t0.is_leaf_node(y) by {
                assert(self.is_leaf_node(y) == t2.is_leaf_node(y));
            }
            assert forall|x: NodeId| #[trigger] self.is_live(x) implies !self.squashable(x) by {
                assert(t2.is_live(x));
            }
            assert forall|y: NodeId| #[trigger] self.is_live(y) implies t0.is_live(y) && self.kind_of(y) == t0.kind_of(y) by {
                assert(t2.is_live(y));
                assert(t1.is_live(y));
                assert(t2.kind_of(y) == t1.kind_of(y));
            }
        }
    }
}

impl TilingTree {
    /// Adds a childless node of kind `kind`, with its side state, at
    /// position `index` among the children of split `parent`. Only `parent`
    /// may be empty before; only the new node, if a split, is empty after.
    fn alloc_node(
        &mut self,
        parent: NodeId,
        index: usize,
        kind: NodeKind,
        mode: PendingMode,
        previous: Option<Layout>,
        Ghost(e): Ghost<Option<NodeId>>,
    ) -> (w: NodeId)
        requires
            old(self).wf_but_focus_except(e),
            e is None || e == Some(parent),
            old(self).is_split_node(parent),
            index <= old(self).children_of(parent).len(),
            old(self).slot_count() < usize::MAX,
            kind is Split ==> !mode.maximized,
        ensures
            old(self).keeps_titles(*final(self)),
            final(self).wf_but_focus_except(if kind is Leaf { None } else { Some(w) }),
            w.0 == old(self).slot_count(),
            final(self).slot_count() == old(self).slot_count() + 1,
            !old(self).is_live(w),
            forall|x: NodeId| #[trigger] final(self).is_live(x) <==> (old(self).is_live(x) || x == w),
            final(self).kind_of(w) == kind,
            final(self).children_of(w) == Seq::<NodeId>::empty(),
            final(self).parent_of(w) == Some(parent),
            final(self).children_of(parent) == old(self).children_of(parent).insert(index as int, w),
            forall|x: NodeId|
                #![trigger final(self).children_of(x)]
                old(self).is_live(x) && x != parent ==> final(self).children_of(x) == old(self).children_of(x),
            forall|x: NodeId|
                #![trigger final(self).kind_of(x)]
                old(self).is_live(x) ==> final(self).kind_of(x) == old(self).kind_of(x) && final(self).parent_of(x)
                    == old(self).parent_of(x) && final(self).mode_of(x) == old(self).mode_of(x)
                    && final(self).previous_layout_of(x) == old(self).previous_layout_of(x),
            final(self).mode_of(w) == mode,
            final(self).previous_layout_of(w) == previous,
            final(self).focus_id() == old(self).focus_id(),
            final(self).history() == old(self).history(),
            final(self).root_id() == old(self).root_id(),
    {
        let ghost t0 = *self;
        let ghost a0 = self.arena;
        let id = NodeId(self.arena.live.len() as u64);
        self.arena.live.push(true);
        self.arena.parents.push(Some(parent));
        self.arena.kinds.push(kind);
        self.arena.children.push(Vec::new());
        self.arena.children[parent.0 as usize].insert(index, id);
        let ghost d = a0.depth_of(parent) + 1;
        self.arena.depth = Ghost(a0.depth@.push(d));
        self.arena.max_depth = Ghost(if a0.max_depth@ < d { d } else { a0.max_depth@ });
        self.modes.push(mode);
        self.previous_layouts.push(previous);
        proof {
            assert(self.arena.children_of(id) =~= Seq::<NodeId>::empty());
            assert forall|q: NodeId|
                #![trigger self.arena.children_of(q)]
                q != parent && q.0 < a0.children@.len() implies self.arena.children_of(q) == a0.children_of(q) by {}
            Arena::lemma_insert_node_arena(a0, self.arena, parent, id, kind, index as int, e);
            assert(modes_ok(self.arena, self.modes@, self.previous_layouts@)) by {
                assert forall|x: NodeId|
                    #![trigger self.modes@[x.0 as int]]
                    x.0 < self.arena.live@.len() implies {
                        &&& (!self.arena.is_live(x) ==> self.modes@[x.0 as int] == normal_mode()
                            && self.previous_layouts@[x.0 as int] is None)
                        &&& (self.arena.is_live(x) && self.arena.kind_of(x) is Split
                            ==> !self.modes@[x.0 as int].maximized)
                    } by {
                    if x.0 < a0.live@.len() {
                        assert(t0.mode_of(x) == t0.modes@[x.0 as int]);
                        assert(a0.is_live(x) == self.arena.is_live(x));
                    } else {
                        assert(x == id);
                    }
                }
            }
            assert forall|i: int| 0 <= i < self.focus_history@.len() implies #[trigger] self.arena.is_live(
                self.focus_history@[i],
            ) by {
                assert(a0.is_live(t0.focus_history@[i]));
            }
            assert forall|x: NodeId|
                #![trigger self.children_of(x)]
                t0.is_live(x) && x != parent implies self.children_of(x) == t0.children_of(x) by {}
        }
        id
    }
}

impl TilingTree {
    /// After the first `ids.len()` entries of `es` were added as the nodes
    /// `ids` to what was `t0`, below `parent` at `index`: only the last new
    /// split may still be empty, the new nodes are fresh and stand as the
    /// entries say, and the old nodes are as they were.
    #[verifier::opaque]
    pub open spec fn inserting(self, t0: TilingTree, es: Seq<DetachedEntry>, ids: Seq<NodeId>, parent: NodeId, index: int) -> bool {
        let k = ids.len() as int;
        &&& self.wf_but_focus_except(
            if k > 0 && es[k - 1].kind is Split {
                Some(ids[k - 1])
            } else {
                None
            },
        )
        &&& self.slot_count() == t0.slot_count() + k
        &&& forall|j: int| 0 <= j < k ==> (#[trigger] ids[j]).0 == t0.slot_count() + j
        &&& forall|x: NodeId|
            #[trigger] self.is_live(x) <==> (t0.is_live(x) || (t0.slot_count() <= x.0 && x.0 < t0.slot_count() + k))
        &&& forall|j: int|
            0 <= j < k ==> self.kind_of(#[trigger] ids[j]) == es[j].kind && self.mode_of(ids[j]) == es[j].mode
                && self.previous_layout_of(ids[j]) == es[j].previous_layout
        &&& k > 0 ==> self.parent_of(ids[0]) == Some(parent)
        &&& forall|j: int| 0 < j < k ==> self.parent_of(#[trigger] ids[j]) == Some(ids[es[j].parent->0 as int])
        &&& k > 0 ==> self.children_of(parent) == t0.children_of(parent).insert(index, ids[0])
        &&& k == 0 ==> self.children_of(parent) == t0.children_of(parent)
        &&& forall|x: NodeId|
            #![trigger self.kind_of(x)]
            t0.is_live(x) ==> self.kind_of(x) == t0.kind_of(x) && self.parent_of(x) == t0.parent_of(x) && self.mode_of(
                x,
            ) == t0.mode_of(x)
        &&& forall|x: NodeId|
            #![trigger self.children_of(x)]
            t0.is_live(x) && x != parent ==> self.children_of(x) == t0.children_of(x)
        &&& self.focus_id() == t0.focus_id()
        &&& self.history() == t0.history()
        &&& self.root_id() == t0.root_id()
    }

    proof fn lemma_inserting_elim(self, t0: TilingTree, es: Seq<DetachedEntry>, ids: Seq<NodeId>, parent: NodeId, index: int)
        requires
            self.inserting(t0, es, ids, parent, index),
        ensures
            ({
                let k = ids.len() as int;
                &&& self.wf_but_focus_except(
                    if k > 0 && es[k - 1].kind is Split {
                        Some(ids[k - 1])
                    } else {
                        None
                    },
                )
                &&& self.slot_count() == t0.slot_count() + k
                &&& forall|j: int| 0 <= j < k ==> (#[trigger] ids[j]).0 == t0.slot_count() + j
                &&& forall|x: NodeId|
                    #[trigger] self.is_live(x) <==> (t0.is_live(x) || (t0.slot_count() <= x.0 && x.0 < t0.slot_count() + k))
                &&& forall|j: int|
                    0 <= j < k ==> self.kind_of(#[trigger] ids[j]) == es[j].kind && self.mode_of(ids[j]) == es[j].mode
                        && self.previous_layout_of(ids[j]) == es[j].previous_layout
                &&& k > 0 ==> self.parent_of(ids[0]) == Some(parent)
                &&& forall|j: int| 0 < j < k ==> self.parent_of(#[trigger] ids[j]) == Some(ids[es[j].parent->0 as int])
                &&& k > 0 ==> self.children_of(parent) == t0.children_of(parent).insert(index, ids[0])
                &&& k == 0 ==> self.children_of(parent) == t0.children_of(parent)
                &&& forall|x: NodeId|
                    #![trigger self.kind_of(x)]
                    t0.is_live(x) ==> self.kind_of(x) == t0.kind_of(x) && self.parent_of(x) == t0.parent_of(x)
                        && self.mode_of(x) == t0.mode_of(x)
                &&& forall|x: NodeId|
                    #![trigger self.children_of(x)]
                    t0.is_live(x) && x != parent ==> self.children_of(x) == t0.children_of(x)
                &&& self.focus_id() == t0.focus_id()
                &&& self.history() == t0.history()
                &&& self.root_id() == t0.root_id()
            }),
    {
        reveal(TilingTree::inserting);
    }

    proof fn lemma_inserting_intro(self, t0: TilingTree, es: Seq<DetachedEntry>, ids: Seq<NodeId>, parent: NodeId, index: int)
        requires
            ({
                let k = ids.len() as int;
                &&& self.wf_but_focus_except(
                    if k > 0 && es[k - 1].kind is Split {
                        Some(ids[k - 1])
                    } else {
                        None
                    },
                )
                &&& self.slot_count() == t0.slot_count() + k
                &&& forall|j: int| 0 <= j < k ==> (#[trigger] ids[j]).0 == t0.slot_count() + j
                &&& forall|x: NodeId|
                    #[trigger] self.is_live(x) <==> (t0.is_live(x) || (t0.slot_count() <= x.0 && x.0 < t0.slot_count() + k))
                &&& forall|j: int|
                    0 <= j < k ==> self.kind_of(#[trigger] ids[j]) == es[j].kind && self.mode_of(ids[j]) == es[j].mode
                        && self.previous_layout_of(ids[j]) == es[j].previous_layout
                &&& k > 0 ==> self.parent_of(ids[0]) == Some(parent)
                &&& forall|j: int| 0 < j < k ==> self.parent_of(#[trigger] ids[j]) == Some(ids[es[j].parent->0 as int])
                &&& k > 0 ==> self.children_of(parent) == t0.children_of(parent).insert(index, ids[0])
                &&& k == 0 ==> self.children_of(parent) == t0.children_of(parent)
                &&& forall|x: NodeId|
                    #![trigger self.kind_of(x)]
                    t0.is_live(x) ==> self.kind_of(x) == t0.kind_of(x) && self.parent_of(x) == t0.parent_of(x)
                        && self.mode_of(x) == t0.mode_of(x)
                &&& forall|x: NodeId|
                    #![trigger self.children_of(x)]
                    t0.is_live(x) && x != parent ==> self.children_of(x) == t0.children_of(x)
                &&& self.focus_id() == t0.focus_id()
                &&& self.history() == t0.history()
                &&& self.root_id() == t0.root_id()
            }),
        ensures
            self.inserting(t0, es, ids, parent, index),
    {
        reveal(TilingTree::inserting);
    }

    #[verifier::spinoff_prover]
    #[verifier::rlimit(60)]
    proof fn lemma_insert_entry_post(
        before: TilingTree,
        after: TilingTree,
        t0: TilingTree,
        es: Seq<DetachedEntry>,
        old_ids: Seq<NodeId>,
        ids: Seq<NodeId>,
        parent: NodeId,
        index: int,
        p: NodeId,
        w: NodeId,
    )
        requires
            before.inserting(t0, es, old_ids, parent, index),
            shaped(es),
            old_ids.len() < es.len(),
            t0.is_split_node(parent),
            ids == old_ids.push(w),
            p == (if old_ids.len() == 0 {
                parent
            } else {
                old_ids[es[old_ids.len() as int].parent->0 as int]
            }),
            old_ids.len() == 0 ==> before.children_of(parent) == t0.children_of(parent),
            after.wf_but_focus_except(if es[old_ids.len() as int].kind is Leaf { None } else { Some(w) }),
            w.0 == before.slot_count(),
            after.slot_count() == before.slot_count() + 1,
            !before.is_live(w),
            forall|x: NodeId| #[trigger] after.is_live(x) <==> (before.is_live(x) || x == w),
            after.kind_of(w) == es[old_ids.len() as int].kind,
            after.parent_of(w) == Some(p),
            old_ids.len() == 0 ==> after.children_of(parent) == before.children_of(parent).insert(index, w),
            forall|x: NodeId|
                #![trigger after.children_of(x)]
                before.is_live(x) && x != p ==> after.children_of(x) == before.children_of(x),
            forall|x: NodeId|
                #![trigger after.kind_of(x)]
                before.is_live(x) ==> after.kind_of(x) == before.kind_of(x) && after.parent_of(x) == before.parent_of(x)
                    && after.mode_of(x) == before.mode_of(x) && after.previous_layout_of(x) == before.previous_layout_of(
                    x,
                ),
            after.mode_of(w) == es[old_ids.len() as int].mode,
            after.previous_layout_of(w) == es[old_ids.len() as int].previous_layout,
            after.focus_id() == before.focus_id(),
            after.history() == before.history(),
            after.root_id() == before.root_id(),
        ensures
            after.inserting(t0, es, ids, parent, index),
    {
        TilingTree::lemma_inserting_elim(before, t0, es, old_ids, parent, index);
        let k = old_ids.len() as int;
        assert(before.is_live(parent));
        if k > 0 {
            let jj = es[k].parent->0 as int;
            assert(es[k].parent matches Some(j) && j < k);
            assert(p.0 >= t0.slot_count());
            assert(p != parent);
        }
        assert forall|j: int| 0 <= j < k + 1 implies (#[trigger] ids[j]).0 == t0.slot_count() + j by {
            if j < k {
                assert(ids[j] == old_ids[j]);
            }
        }
        assert forall|x: NodeId| #[trigger] after.is_live(x) <==> (t0.is_live(x) || (t0.slot_count() <= x.0 && x.0
            < t0.slot_count() + k + 1)) by {
            if x.0 == t0.slot_count() + k {
                assert(x == w);
            }
        }
        assert forall|j: int|
            0 <= j < k + 1 implies after.kind_of(#[trigger] ids[j]) == es[j].kind && after.mode_of(ids[j]) == es[j].mode
                && after.previous_layout_of(ids[j]) == es[j].previous_layout by {
            if j < k {
                assert(ids[j] == old_ids[j]);
                assert(before.is_live(old_ids[j]));
            }
        }
        if k > 0 {
            assert(ids[0] == old_ids[0]);
            assert(before.is_live(old_ids[0]));
        }
        assert forall|j: int| 0 < j < k + 1 implies after.parent_of(#[trigger] ids[j]) == Some(
            ids[es[j].parent->0 as int],
        ) by {
            let jj = es[j].parent->0 as int;
            assert(es[j].parent matches Some(q) && q < j);
            if j < k {
                assert(ids[j] == old_ids[j]);
                assert(before.is_live(old_ids[j]));
            }
            assert(ids[jj] == old_ids[jj]);
        }
        assert forall|x: NodeId|
            #![trigger after.kind_of(x)]
            t0.is_live(x) implies after.kind_of(x) == t0.kind_of(x) && after.parent_of(x) == t0.parent_of(x)
                && after.mode_of(x) == t0.mode_of(x) by {
            assert(before.is_live(x));
        }
        assert forall|x: NodeId|
            #![trigger after.children_of(x)]
            t0.is_live(x) && x != parent implies after.children_of(x) == t0.children_of(x) by {
            assert(before.is_live(x));
            if k > 0 {
                assert(x != p) by {
                    assert(p.0 >= t0.slot_count());
                }
            }
        }
        if k > 0 {
            assert(after.children_of(parent) == before.children_of(parent));
        }
        let ex = if k + 1 > 0 && es[k].kind is Split { Some(ids[k]) } else { None };
        assert(ids[k] == w);
        assert(ex == (if es[k].kind is Leaf { None } else { Some(w) }));
        assert(ids.len() == k + 1);
        TilingTree::lemma_inserting_intro(after, t0, es, ids, parent, index);
    }

    /// Adds entry `ids.len()` of `es` as a fresh node.
    #[verifier::spinoff_prover]
    #[verifier::rlimit(100)]
    fn insert_entry(
        &mut self,
        es: &Vec<DetachedEntry>,
        ids: &mut Vec<NodeId>,
        parent: NodeId,
        index: usize,
        Ghost(t0): Ghost<TilingTree>,
    )
        requires
            old(self).inserting(t0, es@, old(ids)@, parent, index as int),
            shaped(es@),
            old(ids)@.len() < es@.len(),
            t0.is_split_node(parent),
            index <= t0.children_of(parent).len(),
            t0.slot_count() + es@.len() < usize::MAX,
        ensures
            old(self).keeps_titles(*final(self)),
            final(self).inserting(t0, es@, final(ids)@, parent, index as int),
            final(ids)@.len() == old(ids)@.len() + 1,
            final(ids)@.take(old(ids)@.len() as int) == old(ids)@,
    {
        proof {
            TilingTree::lemma_inserting_elim(*self, t0, es@, ids@, parent, index as int);
        }
        let k = ids.len();
        let e = es[k];
        let ghost before = *self;
        let ghost old_ids = ids@;
        let ghost ex: Option<NodeId> = if k > 0 && es@[k - 1].kind is Split { Some(ids@[k - 1]) } else { None };
        let (p, at) = if k == 0 {
            (parent, index)
        } else {
            let j = e.parent.unwrap();
            proof {
                assert(es@[k as int].parent matches Some(jj) && jj < k && es@[jj as int].kind is Split);
            }
            let q = ids[j];
            proof {
                assert(self.is_live(q));
                assert(self.kind_of(q) == es@[j as int].kind);
            }
            (q, self.arena.children[q.0 as usize].len())
        };
        proof {
            if k > 0 && es@[k - 1].kind is Split {
                assert(es@[k as int].parent == Some((k - 1) as usize));
                assert(p == ids@[k - 1]);
            }
            assert(self.is_split_node(p)) by {
                if k == 0 {
                    assert(self.is_live(parent));
                    assert(self.kind_of(parent) == t0.kind_of(parent));
                }
            }
            assert(e.kind is Split ==> !e.mode.maximized);
            if k > 0 {
                assert(p.0 >= t0.slot_count());
                assert(p != parent);
            }
        }
        let w = self.alloc_node(p, at, e.kind, e.mode, e.previous_layout, Ghost(ex));
        ids.push(w);
        proof {
            assert(ids@ == old_ids.push(w));
            TilingTree::lemma_insert_entry_post(before, *self, t0, es@, old_ids, ids@, parent, index as int, p, w);
        }
    }

    /// Adds the nodes listed in `es` as fresh nodes, the first at position
    /// `index` among the children of split `parent`, each other one last
    /// among the children of its parent entry's node. Returns the new ids.
    fn insert_entries(&mut self, es: &Vec<DetachedEntry>, parent: NodeId, index: usize) -> (ids: Vec<NodeId>)
        requires
            old(self).wf_but_focus(),
            shaped(es@),
            old(self).is_split_node(parent),
            index <= old(self).children_of(parent).len(),
            old(self).slot_count() + es@.len() < usize::MAX,
        ensures
            old(self).keeps_titles(*final(self)),
            final(self).wf_but_focus(),
            ids@.len() == es@.len(),
            final(self).inserting(*old(self), es@, ids@, parent, index as int),
    {
        let ghost t0 = *self;
        let n = es.len();
        let mut ids: Vec<NodeId> = Vec::new();
        proof {
            super::focus::lemma_but_focus_except_none(*self);
            assert(ids@.len() == 0);
            TilingTree::lemma_inserting_intro(*self, t0, es@, ids@, parent, index as int);
        }
        for k in 0..n
            invariant
                old(self).keeps_titles(*self),
                n == es@.len(),
                shaped(es@),
                t0.is_split_node(parent),
                index <= t0.children_of(parent).len(),
                t0.slot_count() + n < usize::MAX,
                ids@.len() == k,
                self.inserting(t0, es@, ids@, parent, index as int),
        {
            self.insert_entry(es, &mut ids, parent, index, Ghost(t0));
        }
        proof {
            TilingTree::lemma_inserting_elim(*self, t0, es@, ids@, parent, index as int);
            if n > 0 && es@[n - 1].kind is Split {
                assert(false);
            }
        }
        ids
    }
}

impl TilingTree {
    /// Where a subtree attached next to `target` goes: right after the
    /// target when it is a leaf, last inside the target when it is a split,
    /// else last in the root. Gives the parent and the position.
    pub open spec fn attach_slot(self, target: Option<NodeId>) -> (NodeId, int) {
        match target {
            Some(t) => if self.is_live(t) && self.kind_of(t) is Leaf && self.parent_of(t) is Some {
                let p = self.parent_of(t)->0;
                (p, self.children_of(p).index_of(t) + 1)
            } else if self.is_live(t) && self.kind_of(t) is Split {
                (t, self.children_of(t).len() as int)
            } else {
                (self.root_id(), self.children_of(self.root_id()).len() as int)
            },
            None => (self.root_id(), self.children_of(self.root_id()).len() as int),
        }
    }

    /// Puts a detached subtree into the tree as fresh nodes, its top at
    /// position `index` among the children of split `parent`, and moves its
    /// windows to the front of the focus history, behind the focus, in the
    /// order the subtree was last focused. Returns the new id of the
    /// subtree's top and, for every node, its old and new id. A tree without
    /// windows gets its focus on the most recently focused window of the
    /// subtree.
    #[verifier::spinoff_prover]
    #[verifier::rlimit(60)]
    pub(crate) fn attach_entries_at(&mut self, subtree: DetachedSubtree, parent: NodeId, index: usize) -> (r: (
        NodeId,
        Vec<(NodeId, NodeId)>,
    ))
        requires
            old(self).wf(),
            super::well_shaped(subtree.entries@),
            old(self).slot_count() + subtree.entries@.len() < usize::MAX,
            old(self).is_split_node(parent),
            index <= old(self).children_of(parent).len(),
        ensures
            old(self).keeps_titles(*final(self)),
            final(self).wf(),
            r.1@.len() == subtree.entries@.len(),
            forall|k: int|
                0 <= k < r.1@.len() ==> (#[trigger] r.1@[k]).0 == subtree.entries@[k].old_id && r.1@[k].1.0
                    == old(self).slot_count() + k && final(self).kind_of(r.1@[k].1) == subtree.entries@[k].kind
                    && final(self).mode_of(r.1@[k].1) == subtree.entries@[k].mode && final(self).previous_layout_of(
                    r.1@[k].1,
                ) == subtree.entries@[k].previous_layout,
            r.0 == r.1@[0].1,
            final(self).parent_of(r.0) == Some(parent),
            final(self).children_of(parent) == old(self).children_of(
                parent,
            ).insert(index as int, r.0),
            forall|k: int|
                0 < k < r.1@.len() ==> #[trigger] final(self).parent_of(r.1@[k].1) == Some(
                    r.1@[subtree.entries@[k].parent->0 as int].1,
                ),
            forall|x: NodeId|
                #[trigger] final(self).is_live(x) <==> (old(self).is_live(x) || (old(self).slot_count() <= x.0 && x.0
                    < old(self).slot_count() + subtree.entries@.len())),
            forall|x: NodeId|
                #![trigger final(self).kind_of(x)]
                old(self).is_live(x) ==> final(self).kind_of(x) == old(self).kind_of(x) && final(self).parent_of(x)
                    == old(self).parent_of(x) && final(self).mode_of(x) == old(self).mode_of(x),
            forall|x: NodeId|
                #![trigger final(self).children_of(x)]
                old(self).is_live(x) && x != parent ==> final(self).children_of(x) == old(
                    self,
                ).children_of(x),
            old(self).focus_id() is Some ==> final(self).focus_id() == old(self).focus_id()
                && final(self).history() == final(self).history_promoting(
                old(self).history(),
                subtree.focus_history@,
                1,
            ),
            final(self).root_id() == old(self).root_id(),
    {
        let ghost t0 = *self;
        proof {
            assert(self.wf_but_focus());
        }
        let ids = self.insert_entries(&subtree.entries, parent, index);
        let ghost mid = *self;
        proof {
            TilingTree::lemma_inserting_elim(mid, t0, subtree.entries@, ids@, parent, index as int);
            assert forall|x: NodeId| #[trigger] t0.is_leaf_node(x) implies mid.is_leaf_node(x) by {
                assert(mid.is_live(x));
                assert(mid.kind_of(x) == t0.kind_of(x));
            }
            if let Some(f) = t0.focus_id() {
                assert(t0.is_live(f));
                assert(mid.is_live(f));
            }
        }
        self.settle_attached(&subtree.focus_history, Ghost(t0));
        let mut remapped: Vec<(NodeId, NodeId)> = Vec::new();
        for k in 0..ids.len()
            invariant
                old(self).keeps_titles(*self),
                ids@.len() == subtree.entries@.len(),
                remapped@.len() == k,
                forall|j: int| 0 <= j < k ==> (#[trigger] remapped@[j]) == (subtree.entries@[j].old_id, ids@[j]),
        {
            remapped.push((subtree.entries[k].old_id, ids[k]));
        }
        proof {
            assert(self.same_tree(mid));
            TilingTree::lemma_attach_facts(mid, *self, t0, subtree.entries@, ids@, remapped@, parent, index as int);
        }
        (ids[0], remapped)
    }

    /// Puts a detached subtree into the tree next to `target` (see
    /// `attach_slot`) as fresh nodes, and moves its windows to the front of
    /// the focus history, behind the focus, in the order the subtree was
    /// last focused. Returns the new id of the subtree's top and, for every
    /// node, its old and new id. A tree without windows gets its focus on
    /// the most recently focused window of the subtree.
    #[verifier::spinoff_prover]
    #[verifier::rlimit(60)]
    pub fn attach_subtree_at(&mut self, subtree: DetachedSubtree, target: Option<NodeId>) -> (r: (
        NodeId,
        Vec<(NodeId, NodeId)>,
    ))
        requires
            old(self).wf(),
            shaped(subtree.entries@),
            old(self).slot_count() + subtree.entries@.len() < usize::MAX,
        ensures
            old(self).keeps_titles(*final(self)),
            final(self).wf(),
            r.1@.len() == subtree.entries@.len(),
            forall|k: int|
                0 <= k < r.1@.len() ==> (#[trigger] r.1@[k]).0 == subtree.entries@[k].old_id && r.1@[k].1.0
                    == old(self).slot_count() + k && final(self).kind_of(r.1@[k].1) == subtree.entries@[k].kind
                    && final(self).mode_of(r.1@[k].1) == subtree.entries@[k].mode && final(self).previous_layout_of(
                    r.1@[k].1,
                ) == subtree.entries@[k].previous_layout,
            r.0 == r.1@[0].1,
            final(self).parent_of(r.0) == Some(old(self).attach_slot(target).0),
            final(self).children_of(old(self).attach_slot(target).0) == old(self).children_of(
                old(self).attach_slot(target).0,
            ).insert(old(self).attach_slot(target).1, r.0),
            forall|k: int|
                0 < k < r.1@.len() ==> #[trigger] final(self).parent_of(r.1@[k].1) == Some(
                    r.1@[subtree.entries@[k].parent->0 as int].1,
                ),
            forall|x: NodeId|
                #[trigger] final(self).is_live(x) <==> (old(self).is_live(x) || (old(self).slot_count() <= x.0 && x.0
                    < old(self).slot_count() + subtree.entries@.len())),
            forall|x: NodeId|
                #![trigger final(self).kind_of(x)]
                old(self).is_live(x) ==> final(self).kind_of(x) == old(self).kind_of(x) && final(self).parent_of(x)
                    == old(self).parent_of(x) && final(self).mode_of(x) == old(self).mode_of(x),
            forall|x: NodeId|
                #![trigger final(self).children_of(x)]
                old(self).is_live(x) && x != old(self).attach_slot(target).0 ==> final(self).children_of(x) == old(
                    self,
                ).children_of(x),
            old(self).focus_id() is Some ==> final(self).focus_id() == old(self).focus_id()
                && final(self).history() == final(self).history_promoting(
                old(self).history(),
                subtree.focus_history@,
                1,
            ),
            final(self).root_id() == old(self).root_id(),
    {
        let (parent, index) = self.attach_slot_exec(target);
        self.attach_entries_at(subtree, parent, index)
    }

    #[verifier::spinoff_prover]
    #[verifier::rlimit(60)]
    proof fn lemma_attach_facts(
        mid: TilingTree,
        fin: TilingTree,
        t0: TilingTree,
        es: Seq<DetachedEntry>,
        ids: Seq<NodeId>,
        remapped: Seq<(NodeId, NodeId)>,
        parent: NodeId,
        index: int,
    )
        requires
            mid.inserting(t0, es, ids, parent, index),
            shaped(es),
            ids.len() == es.len(),
            es.len() > 0,
            fin.same_tree(mid),
            remapped.len() == ids.len(),
            forall|j: int| 0 <= j < ids.len() ==> (#[trigger] remapped[j]) == (es[j].old_id, ids[j]),
        ensures
            forall|k: int|
                0 <= k < remapped.len() ==> (#[trigger] remapped[k]).0 == es[k].old_id && remapped[k].1.0
                    == t0.slot_count() + k && fin.kind_of(remapped[k].1) == es[k].kind && fin.mode_of(remapped[k].1)
                    == es[k].mode && fin.previous_layout_of(remapped[k].1) == es[k].previous_layout,
            fin.parent_of(ids[0]) == Some(parent),
            fin.children_of(parent) == t0.children_of(parent).insert(index, ids[0]),
            forall|k: int|
                0 < k < remapped.len() ==> #[trigger] fin.parent_of(remapped[k].1) == Some(
                    remapped[es[k].parent->0 as int].1,
                ),
            forall|x: NodeId|
                #[trigger] fin.is_live(x) <==> (t0.is_live(x) || (t0.slot_count() <= x.0 && x.0 < t0.slot_count()
                    + es.len())),
            forall|x: NodeId|
                #![trigger fin.kind_of(x)]
                t0.is_live(x) ==> fin.kind_of(x) == t0.kind_of(x) && fin.parent_of(x) == t0.parent_of(x)
                    && fin.mode_of(x) == t0.mode_of(x),
            forall|x: NodeId|
                #![trigger fin.children_of(x)]
                t0.is_live(x) && x != parent ==> fin.children_of(x) == t0.children_of(x),
            fin.root_id() == t0.root_id(),
    {
        TilingTree::lemma_inserting_elim(mid, t0, es, ids, parent, index);
        assert(fin.arena == mid.arena && fin.modes == mid.modes && fin.previous_layouts == mid.previous_layouts);
        assert forall|k: int|
            0 <= k < remapped.len() implies (#[trigger] remapped[k]).0 == es[k].old_id && remapped[k].1.0
                == t0.slot_count() + k && fin.kind_of(remapped[k].1) == es[k].kind && fin.mode_of(remapped[k].1)
                == es[k].mode && fin.previous_layout_of(remapped[k].1) == es[k].previous_layout by {
            assert(remapped[k] == (es[k].old_id, ids[k]));
            assert(ids[k].0 == t0.slot_count() + k);
            assert(mid.kind_of(ids[k]) == es[k].kind);
            assert(fin.kind_of(ids[k]) == mid.kind_of(ids[k]));
            assert(fin.mode_of(ids[k]) == mid.mode_of(ids[k]));
            assert(fin.previous_layout_of(ids[k]) == mid.previous_layout_of(ids[k]));
        }
        assert forall|x: NodeId| #[trigger] fin.is_live(x) <==> (t0.is_live(x) || (t0.slot_count() <= x.0 && x.0
            < t0.slot_count() + es.len())) by {
            assert(fin.is_live(x) == mid.is_live(x));
        }
        assert forall|x: NodeId|
            #![trigger fin.kind_of(x)]
            t0.is_live(x) implies fin.kind_of(x) == t0.kind_of(x) && fin.parent_of(x) == t0.parent_of(x)
                && fin.mode_of(x) == t0.mode_of(x) by {
            assert(fin.kind_of(x) == mid.kind_of(x));
            assert(fin.parent_of(x) == mid.parent_of(x));
            assert(fin.mode_of(x) == mid.mode_of(x));
        }
        assert forall|x: NodeId|
            #![trigger fin.children_of(x)]
            t0.is_live(x) && x != parent implies fin.children_of(x) == t0.children_of(x) by {
            assert(fin.children_of(x) == mid.children_of(x));
        }
        assert(fin.children_of(parent) == mid.children_of(parent));
        assert(fin.parent_of(ids[0]) == mid.parent_of(ids[0]));
        assert forall|k: int| 0 < k < remapped.len() implies #[trigger] fin.parent_of(remapped[k].1) == Some(
            remapped[es[k].parent->0 as int].1,
        ) by {
            assert(remapped[k].1 == ids[k]);
            let j = es[k].parent->0 as int;
            assert(es[k].parent matches Some(q) && q < k);
            assert(remapped[j].1 == ids[j]);
            assert(fin.parent_of(ids[k]) == mid.parent_of(ids[k]));
        }
    }

    /// Where a subtree attached next to `target` goes (see `attach_slot`).
    fn attach_slot_exec(&self, target: Option<NodeId>) -> (r: (NodeId, usize))
        requires
            self.wf(),
        ensures
            (r.0, r.1 as int) == self.attach_slot(target),
            self.is_split_node(r.0),
            r.1 <= self.children_of(r.0).len(),
    {
        let root = self.arena.root;
        match target {
            Some(t) => if self.is_live_exec(t) {
                match self.arena.kinds[t.0 as usize] {
                    NodeKind::Leaf(_) => match self.arena.parents[t.0 as usize] {
                        Some(p) => {
                            proof {
                                assert(self.parent_of(t) == Some(p));
                                assert(t != self.root_id());
                            }
                            let n = self.arena.children[p.0 as usize].len();
                            let i = self.index_of_child(p, t);
                            (p, i + 1)
                        },
                        None => {
                            proof {
                                assert(self.parent_of(t) is None);
                                assert(t == self.root_id());
                            }
                            (root, self.arena.children[root.0 as usize].len())
                        },
                    },
                    NodeKind::Split(_) => (t, self.arena.children[t.0 as usize].len()),
                }
            } else {
                (root, self.arena.children[root.0 as usize].len())
            },
            None => (root, self.arena.children[root.0 as usize].len()),
        }
    }

    /// After windows were added to a tree that was `t0`: focuses the most
    /// recently focused of them when `t0` had no focus, and moves the
    /// windows `ws` to the front of the focus history, behind the focus.
    fn settle_attached(&mut self, ws: &Vec<u64>, Ghost(t0): Ghost<TilingTree>)
        requires
            old(self).wf_but_focus(),
            old(self).focus_id() == t0.focus_id(),
            t0.wf(),
            t0.focus_id() is Some ==> old(self).is_live(t0.focus_id()->0),
            forall|x: NodeId| #[trigger] t0.is_leaf_node(x) ==> old(self).is_leaf_node(x),
        ensures
            old(self).keeps_titles(*final(self)),
            final(self).wf(),
            final(self).same_tree(*old(self)),
            t0.focus_id() is Some ==> final(self).focus_id() == t0.focus_id() && final(self).history()
                == final(self).history_promoting(old(self).history(), ws@, 1),
    {
        let ghost t1 = *self;
        let root = self.arena.root;
        let focused = self.focus.is_some();
        if !focused {
            let f = self.focused_leaf_in(root);
            proof {
                self.lemma_focus_target(f);
            }
            self.focus_node(f);
        } else {
            proof {
                assert(t0.has_leaf());
                let x = t0.lemma_leaf_witness();
                assert(self.is_leaf_node(x));
                self.lemma_leaf_has_leaf(x);
                assert(self.wf_focus());
            }
        }
        let at: usize = if focused { 1 } else { 0 };
        let ghost t2 = *self;
        self.promote_windows(ws, at);
        proof {
            if focused {
                assert(t2 == t1);
                t2.lemma_promoting_same_nodes(*self, t1.history(), ws@, at);
            }
        }
        if !focused {
            let f = self.focused_leaf_in(root);
            proof {
                self.lemma_focus_target(f);
            }
            self.focus_node(f);
        }
    }

    /// Puts a detached subtree in next to the focus (see `attach_subtree_at`).
    pub fn attach_subtree(&mut self, subtree: DetachedSubtree) -> (r: (NodeId, Vec<(NodeId, NodeId)>))
        requires
            old(self).wf(),
            shaped(subtree.entries@),
            old(self).slot_count() + subtree.entries@.len() < usize::MAX,
        ensures
            old(self).keeps_titles(*final(self)),
            final(self).wf(),
            r.1@.len() == subtree.entries@.len(),
            forall|k: int|
                0 <= k < r.1@.len() ==> (#[trigger] r.1@[k]).0 == subtree.entries@[k].old_id && r.1@[k].1.0
                    == old(self).slot_count() + k && final(self).kind_of(r.1@[k].1) == subtree.entries@[k].kind
                    && final(self).mode_of(r.1@[k].1) == subtree.entries@[k].mode && final(self).previous_layout_of(
                    r.1@[k].1,
                ) == subtree.entries@[k].previous_layout,
            r.0 == r.1@[0].1,
            final(self).parent_of(r.0) == Some(old(self).attach_slot(old(self).focus_id()).0),
            final(self).children_of(old(self).attach_slot(old(self).focus_id()).0) == old(self).children_of(
                old(self).attach_slot(old(self).focus_id()).0,
            ).insert(old(self).attach_slot(old(self).focus_id()).1, r.0),
            forall|k: int|
                0 < k < r.1@.len() ==> #[trigger] final(self).parent_of(r.1@[k].1) == Some(
                    r.1@[subtree.entries@[k].parent->0 as int].1,
                ),
            forall|x: NodeId|
                #[trigger] final(self).is_live(x) <==> (old(self).is_live(x) || (old(self).slot_count() <= x.0 && x.0
                    < old(self).slot_count() + subtree.entries@.len())),
            forall|x: NodeId|
                #![trigger final(self).kind_of(x)]
                old(self).is_live(x) ==> final(self).kind_of(x) == old(self).kind_of(x) && final(self).parent_of(x)
                    == old(self).parent_of(x) && final(self).mode_of(x) == old(self).mode_of(x),
            forall|x: NodeId|
                #![trigger final(self).children_of(x)]
                old(self).is_live(x) && x != old(self).attach_slot(old(self).focus_id()).0 ==> final(self).children_of(x) == old(
                    self,
                ).children_of(x),
            old(self).focus_id() is Some ==> final(self).focus_id() == old(self).focus_id()
                && final(self).history() == final(self).history_promoting(
                old(self).history(),
                subtree.focus_history@,
                1,
            ),
            final(self).root_id() == old(self).root_id(),
    {
        let target = self.focus;
        self.attach_subtree_at(subtree, target)
    }
}

impl Arena {
    /// In well-formed trees, ancestry among old nodes follows their parents:
    /// adding nodes elsewhere does not change it.
    pub(crate) proof fn lemma_desc_same(a0: Arena, a1: Arena, y: NodeId, x: NodeId)
        requires
            a0.wf_core(),
            a1.wf_core(),
            a0.is_live(y),
            forall|z: NodeId| #[trigger] a0.is_live(z) ==> a1.is_live(z) && a1.parent_of(z) == a0.parent_of(z),
            a1.root == a0.root,
        ensures
            a1.is_desc(y, x) == a0.is_desc(y, x),
        decreases a0.depth_of(y),
    {
        if y != x {
            if y == a0.root {
                assert(a0.parent_of(y) is None);
                assert(a1.parent_of(y) is None);
                reveal_with_fuel(Arena::is_desc, 1);
            } else {
                assert(a1.is_live(y));
                a0.lemma_desc_unfold(y, x);
                a1.lemma_desc_unfold(y, x);
                assert(a0.parent_of(y) is Some);
                let q = a0.parent_of(y)->0;
                assert(a0.is_live(q));
                assert(a0.depth_of(q) < a0.depth_of(y));
                Arena::lemma_desc_same(a0, a1, q, x);
            }
        }
    }
}

impl Arena {
    /// Cutting the subtree of `x` out of its parent `p` (at position `idx`)
    /// leaves a tree in which only `p` may be empty.
    pub(crate) proof fn lemma_cut_subtree_arena(a0: Arena, a1: Arena, x: NodeId, p: NodeId, idx: int)
        requires
            a0.wf(),
            a0.is_live(x),
            x != a0.root,
            a0.parent_of(x) == Some(p),
            0 <= idx < a0.children_of(p).len(),
            a0.children_of(p)[idx] == x,
            a1.live@.len() == a0.live@.len(),
            forall|y: NodeId| #[trigger] a1.is_live(y) <==> (a0.is_live(y) && !a0.is_desc(y, x)),
            a1.kinds == a0.kinds,
            a1.parents == a0.parents,
            a1.depth == a0.depth,
            a1.max_depth == a0.max_depth,
            a1.root == a0.root,
            a1.children@.len() == a0.children@.len(),
            forall|q: NodeId|
                #![trigger a1.children_of(q)]
                q != p && q.0 < a0.children@.len() ==> a1.children_of(q) == a0.children_of(q),
            a1.children_of(p) == a0.children_of(p).remove(idx),
        ensures
            a1.wf_except(Some(p)),
    {
        a0.lemma_child_desc(p, idx);
        a0.lemma_desc_root(x);
        assert(!a0.is_desc(a0.root, x)) by {
            if a0.is_desc(a0.root, x) {
                a0.lemma_desc_antisym(a0.root, x);
            }
        }
        assert(a0.is_live(p));
        assert(!a0.is_desc(p, x)) by {
            if a0.is_desc(p, x) {
                a0.lemma_desc_antisym(p, x);
            }
        }
        assert(a1.wf_shape());
        assert(a1.wf_root());
        assert(a1.wf_parents()) by {
            assert forall|y: NodeId|
                #![trigger a1.parent_of(y)]
                a1.is_live(y) && y != a1.root implies {
                    &&& a1.parent_of(y) is Some
                    &&& a1.is_live(a1.parent_of(y)->0)
                    &&& a1.kind_of(a1.parent_of(y)->0) is Split
                    &&& a1.children_of(a1.parent_of(y)->0).contains(y)
                    &&& a1.depth_of(a1.parent_of(y)->0) < a1.depth_of(y)
                } by {
                assert(a0.parent_of(y) is Some);
                let q = a0.parent_of(y)->0;
                assert(a0.is_live(q));
                a0.lemma_desc_unfold(y, x);
                assert(!a0.is_desc(q, x));
                assert(a1.is_live(q));
                assert(a0.children_of(q).contains(y));
                if q == p {
                    assert(y != x) by {
                        assert(a0.is_desc(x, x)) by {
                            reveal_with_fuel(Arena::is_desc, 1);
                        }
                    }
                    let k = a0.children_of(p).index_of(y);
                    assert(a0.children_of(p)[k] == y);
                    let r = a0.children_of(p).remove(idx);
                    if k < idx {
                        assert(r[k] == y);
                    } else {
                        assert(k > idx);
                        assert(r[k - 1] == y);
                    }
                    assert(r.contains(y));
                } else {
                    assert(q.0 < a0.children@.len());
                }
            }
        }
        assert(a1.wf_children()) by {
            assert forall|q: NodeId, i: int|
                #![trigger a1.children_of(q)[i]]
                a1.is_live(q) && 0 <= i < a1.children_of(q).len() implies {
                    &&& a1.is_live(a1.children_of(q)[i])
                    &&& a1.parent_of(a1.children_of(q)[i]) == Some(q)
                } by {
                assert(a0.is_live(q));
                let (c, j) = if q == p {
                    let r = a0.children_of(p);
                    if i < idx {
                        (r[i], i)
                    } else {
                        (r[i + 1], i + 1)
                    }
                } else {
                    assert(q.0 < a0.children@.len());
                    (a0.children_of(q)[i], i)
                };
                assert(a1.children_of(q)[i] == c);
                assert(a0.children_of(q)[j] == c);
                assert(a0.is_live(c) && a0.parent_of(c) == Some(q));
                a0.lemma_child_desc(q, j);
                a0.lemma_desc_unfold(c, x);
                if a0.is_desc(c, x) {
                    if c == x {
                        assert(a0.children_of(p).no_duplicates());
                        assert(q == p);
                    }
                }
            }
            assert forall|q: NodeId|
                #![trigger a1.children_of(q)]
                a1.is_live(q) implies {
                    &&& a1.children_of(q).no_duplicates()
                    &&& (a1.kind_of(q) is Leaf ==> a1.children_of(q).len() == 0)
                } by {
                assert(a0.is_live(q));
                if q == p {
                    let r = a0.children_of(p);
                    assert(r.no_duplicates());
                    assert forall|i: int, j: int|
                        0 <= i < a1.children_of(q).len() && 0 <= j < a1.children_of(q).len() && i != j implies a1.children_of(
                            q,
                        )[i] != a1.children_of(q)[j] by {
                        let ii = if i < idx { i } else { i + 1 };
                        let jj = if j < idx { j } else { j + 1 };
                        assert(a1.children_of(q)[i] == r[ii]);
                        assert(a1.children_of(q)[j] == r[jj]);
                    }
                } else {
                    assert(q.0 < a0.children@.len());
                }
            }
        }
        assert(a1.wf_depth());
        assert(a1.nonempty_except(Some(p))) by {
            assert forall|q: NodeId|
                #![trigger a1.children_of(q)]
                a1.is_live(q) && a1.kind_of(q) is Split && q != a1.root && Some(q) != Some(p) implies a1.children_of(q).len()
                    > 0 by {
                assert(q.0 < a0.children@.len());
                assert(a0.is_live(q));
                let _ = a0.children_of(q);
            }
        }
    }
}

} // verus!
