//! How the depth-first order of the leaves follows changes to the tree: a
//! change confined to the subtree of one node changes the order only there.
use vstd::prelude::*;
use super::{Arena, NodeId, NodeKind, TilingTree};
use super::edit::splice;
use super::focus::without;

verus! {

/// Node `y` is live in `a1` with the same kind and children as in `a0`.
pub open spec fn same_node(a0: Arena, a1: Arena, y: NodeId) -> bool {
    &&& a1.is_live(y)
    &&& a1.kind_of(y) == a0.kind_of(y)
    &&& a1.children_of(y) == a0.children_of(y)
}

impl Arena {
    /// Two different children of a node have no node in common below them.
    pub(crate) proof fn lemma_siblings_disjoint(self, p: NodeId, i: int, j: int, x: NodeId)
        requires
            self.wf_core(),
            self.is_live(p),
            0 <= i < self.children_of(p).len(),
            0 <= j < self.children_of(p).len(),
            i != j,
            self.is_live(x),
        ensures
            !(self.is_desc(x, self.children_of(p)[i]) && self.is_desc(x, self.children_of(p)[j])),
    {
        let a = self.children_of(p)[i];
        let b = self.children_of(p)[j];
        self.lemma_child_desc(p, i);
        self.lemma_child_desc(p, j);
        assert(self.children_of(p).no_duplicates());
        if self.is_desc(x, a) && self.is_desc(x, b) {
            self.lemma_desc_chain(x, a, b);
            if self.is_desc(a, b) {
                self.lemma_desc_unfold(a, b);
                self.lemma_desc_live(p, b);
            } else {
                self.lemma_desc_unfold(b, a);
                self.lemma_desc_live(p, a);
            }
        }
    }

    /// The leaves below `x` are the same in `a1` as in `a0` when the whole
    /// subtree of `x` is.
    pub(crate) proof fn lemma_leaves_frame(a0: Arena, a1: Arena, x: NodeId)
        requires
            a0.wf_core(),
            a1.wf_core(),
            a0.is_live(x),
            forall|y: NodeId| #![trigger a0.is_desc(y, x)] a0.is_live(y) && a0.is_desc(y, x) ==> same_node(a0, a1, y),
        ensures
            a1.leaves_in(x) == a0.leaves_in(x),
        decreases a0.height_measure(x), 1nat, 0nat,
    {
        assert(a0.is_desc(x, x)) by {
            reveal_with_fuel(Arena::is_desc, 1);
        }
        assert(same_node(a0, a1, x));
        match a0.kind_of(x) {
            NodeKind::Leaf(_) => {},
            NodeKind::Split(_) => {
                let kids = a0.children_of(x);
                assert forall|k: int| 0 <= k < kids.len() implies {
                    &&& a0.is_live(#[trigger] kids[k])
                    &&& a0.descends(x, kids[k])
                    &&& a1.descends(x, kids[k])
                    &&& a0.height_measure(kids[k]) < a0.height_measure(x)
                    &&& forall|y: NodeId|
                        #![trigger a0.is_desc(y, kids[k])]
                        a0.is_live(y) && a0.is_desc(y, kids[k]) ==> same_node(a0, a1, y)
                } by {
                    a0.lemma_descends_child(x, k);
                    a1.lemma_descends_child(x, k);
                    a0.lemma_child_desc(x, k);
                    a0.lemma_wf_depth_bound(x);
                    assert forall|y: NodeId|
                        #![trigger a0.is_desc(y, kids[k])]
                        a0.is_live(y) && a0.is_desc(y, kids[k]) implies same_node(a0, a1, y) by {
                        a0.lemma_desc_trans(y, kids[k], x);
                    }
                }
                Arena::lemma_leaves_frame_list(a0, a1, x, x, kids);
            },
        }
    }

    /// The leaves below the entries of `ks` are the same in `a1` (as children
    /// of `p1`) as in `a0` (as children of `p0`) when the subtrees of the
    /// entries are.
    pub(crate) proof fn lemma_leaves_frame_list(a0: Arena, a1: Arena, p0: NodeId, p1: NodeId, ks: Seq<NodeId>)
        requires
            a0.wf_core(),
            a1.wf_core(),
            forall|k: int| 0 <= k < ks.len() ==> {
                &&& a0.is_live(#[trigger] ks[k])
                &&& a0.descends(p0, ks[k])
                &&& a1.descends(p1, ks[k])
                &&& a0.height_measure(ks[k]) < a0.height_measure(p0)
                &&& forall|y: NodeId|
                    #![trigger a0.is_desc(y, ks[k])]
                    a0.is_live(y) && a0.is_desc(y, ks[k]) ==> same_node(a0, a1, y)
            },
        ensures
            a1.leaves_of_list(p1, ks) == a0.leaves_of_list(p0, ks),
        decreases a0.height_measure(p0), 0nat, ks.len(),
    {
        if ks.len() > 0 {
            let c = ks[0];
            assert(a0.is_live(ks[0]));
            Arena::lemma_leaves_frame(a0, a1, c);
            let rest = ks.drop_first();
            assert forall|k: int| 0 <= k < rest.len() implies {
                &&& a0.is_live(#[trigger] rest[k])
                &&& a0.descends(p0, rest[k])
                &&& a1.descends(p1, rest[k])
                &&& a0.height_measure(rest[k]) < a0.height_measure(p0)
                &&& forall|y: NodeId|
                    #![trigger a0.is_desc(y, rest[k])]
                    a0.is_live(y) && a0.is_desc(y, rest[k]) ==> same_node(a0, a1, y)
            } by {
                assert(rest[k] == ks[k + 1]);
                assert(a0.is_live(ks[k + 1]));
            }
            Arena::lemma_leaves_frame_list(a0, a1, p0, p1, rest);
        }
    }

    /// When every node outside the subtree of `e` is unchanged, the leaves
    /// below an ancestor `x` of `e` are those below `e` with the same leaves
    /// before and after them in both trees.
    pub(crate) proof fn lemma_leaves_replace(a0: Arena, a1: Arena, x: NodeId, e: NodeId) -> (r: (
        Seq<NodeId>,
        Seq<NodeId>,
    ))
        requires
            a0.wf_core(),
            a1.wf_core(),
            a0.is_live(e),
            a0.is_desc(e, x),
            forall|y: NodeId| #![trigger a0.is_desc(y, e)] a0.is_live(y) && !a0.is_desc(y, e) ==> same_node(a0, a1, y),
        ensures
            a0.leaves_in(x) == r.0 + a0.leaves_in(e) + r.1,
            a1.leaves_in(x) == r.0 + a1.leaves_in(e) + r.1,
        decreases a0.height_measure(x),
    {
        if x == e {
            let z = Seq::<NodeId>::empty();
            assert(a0.leaves_in(e) =~= z + a0.leaves_in(e) + z);
            assert(a1.leaves_in(e) =~= z + a1.leaves_in(e) + z);
            (z, z)
        } else {
            a0.lemma_desc_live(e, x);
            assert(!a0.is_desc(x, e)) by {
                if a0.is_desc(x, e) {
                    a0.lemma_desc_antisym(x, e);
                }
            }
            assert(same_node(a0, a1, x));
            let c = a0.lemma_desc_child(e, x);
            let kids = a0.children_of(x);
            let i = kids.index_of(c);
            assert(kids[i] == c);
            assert(a0.kind_of(x) is Split) by {
                if a0.kind_of(x) is Leaf {
                    assert(kids.len() == 0);
                }
            }
            a0.lemma_descends_child(x, i);
            a1.lemma_descends_child(x, i);
            a0.lemma_child_desc(x, i);
            a0.lemma_wf_depth_bound(x);
            a0.lemma_list_split(x, kids, i);
            a1.lemma_list_split(x, kids, i);
            // The siblings of `c` hold nothing of the subtree of `e`.
            assert forall|m: int| 0 <= m < kids.len() && m != i implies {
                &&& a0.is_live(#[trigger] kids[m])
                &&& a0.descends(x, kids[m])
                &&& a1.descends(x, kids[m])
                &&& a0.height_measure(kids[m]) < a0.height_measure(x)
                &&& forall|y: NodeId|
                    #![trigger a0.is_desc(y, kids[m])]
                    a0.is_live(y) && a0.is_desc(y, kids[m]) ==> same_node(a0, a1, y)
            } by {
                a0.lemma_descends_child(x, m);
                a1.lemma_descends_child(x, m);
                a0.lemma_child_desc(x, m);
                let s = kids[m];
                assert(!a0.is_desc(e, s)) by {
                    a0.lemma_siblings_disjoint(x, m, i, e);
                }
                assert forall|y: NodeId|
                    #![trigger a0.is_desc(y, s)]
                    a0.is_live(y) && a0.is_desc(y, s) implies same_node(a0, a1, y) by {
                    if a0.is_desc(y, e) {
                        a0.lemma_desc_chain(y, s, e);
                        if a0.is_desc(s, e) {
                            a0.lemma_desc_trans(s, e, c);
                            assert(a0.is_desc(s, s)) by {
                                reveal_with_fuel(Arena::is_desc, 1);
                            }
                            a0.lemma_siblings_disjoint(x, m, i, s);
                        }
                    }
                }
            }
            let before = kids.take(i);
            let after = kids.skip(i + 1);
            assert forall|k: int| 0 <= k < before.len() implies {
                &&& a0.is_live(#[trigger] before[k])
                &&& a0.descends(x, before[k])
                &&& a1.descends(x, before[k])
                &&& a0.height_measure(before[k]) < a0.height_measure(x)
                &&& forall|y: NodeId|
                    #![trigger a0.is_desc(y, before[k])]
                    a0.is_live(y) && a0.is_desc(y, before[k]) ==> same_node(a0, a1, y)
            } by {
                assert(before[k] == kids[k]);
            }
            assert forall|k: int| 0 <= k < after.len() implies {
                &&& a0.is_live(#[trigger] after[k])
                &&& a0.descends(x, after[k])
                &&& a1.descends(x, after[k])
                &&& a0.height_measure(after[k]) < a0.height_measure(x)
                &&& forall|y: NodeId|
                    #![trigger a0.is_desc(y, after[k])]
                    a0.is_live(y) && a0.is_desc(y, after[k]) ==> same_node(a0, a1, y)
            } by {
                assert(after[k] == kids[i + 1 + k]);
            }
            Arena::lemma_leaves_frame_list(a0, a1, x, x, before);
            Arena::lemma_leaves_frame_list(a0, a1, x, x, after);
            let (pre, post) = Arena::lemma_leaves_replace(a0, a1, c, e);
            let lb = a0.leaves_of_list(x, before);
            let la = a0.leaves_of_list(x, after);
            assert(a0.leaves_in(x) == a0.leaves_of_list(x, kids));
            assert(a1.leaves_in(x) == a1.leaves_of_list(x, kids));
            assert(a0.leaves_in(x) =~= (lb + pre) + a0.leaves_in(e) + (post + la));
            assert(a1.leaves_in(x) =~= (lb + pre) + a1.leaves_in(e) + (post + la));
            (lb + pre, post + la)
        }
    }

    /// Merging the single child `c` of `id` into the parent `p` of `id` (the
    /// children of `c` take the place of `id`) keeps the order of the leaves.
    pub(crate) proof fn lemma_squash_keeps_leaves(a0: Arena, a1: Arena, id: NodeId, p: NodeId, c: NodeId, idx: int)
        requires
            a0.wf(),
            a1.wf(),
            a0.squashable(id),
            a0.parent_of(id) == Some(p),
            c == a0.children_of(id)[0],
            0 <= idx < a0.children_of(p).len(),
            a0.children_of(p)[idx] == id,
            forall|x: NodeId| #[trigger] a1.is_live(x) <==> (a0.is_live(x) && x != id && x != c),
            a1.kinds == a0.kinds,
            a1.depth == a0.depth,
            a1.max_depth == a0.max_depth,
            a1.root == a0.root,
            forall|q: NodeId|
                #![trigger a1.children_of(q)]
                q != p && q.0 < a0.children@.len() ==> a1.children_of(q) == a0.children_of(q),
            a1.children_of(p) == splice(a0.children_of(p), idx, a0.children_of(c)),
        ensures
            a1.leaves_in(a0.root) == a0.leaves_in(a0.root),
    {
        let k = a0.children_of(p);
        let g = a0.children_of(c);
        a0.lemma_child_desc(p, idx);
        a0.lemma_child_desc(id, 0);
        assert(a0.is_live(p));
        assert(a0.is_live(c));
        assert(a1.is_live(p)) by {
            assert(p != id);
            assert(p != c) by {
                assert(a0.depth_of(p) < a0.depth_of(id));
            }
        }
        assert(a1.kind_of(p) == a0.kind_of(p));
        // The leaves below `p` stay.
        let before = k.take(idx);
        let after = k.skip(idx + 1);
        a0.lemma_descends_child(p, idx);
        a0.lemma_list_split(p, k, idx);
        assert(a0.leaves_in(id) == a0.leaves_of_list(id, seq![c])) by {
            assert(a0.children_of(id) =~= seq![c]);
        }
        a0.lemma_descends_child(id, 0);
        a0.lemma_leaves_single(id, c);
        assert(a1.children_of(p) =~= before + g + after);
        a1.lemma_leaves_append(p, before + g, after);
        a1.lemma_leaves_append(p, before, g);
        a0.lemma_wf_depth_bound(p);
        a0.lemma_wf_depth_bound(c);
        // Nodes below a sibling of `id` are untouched.
        assert forall|m: int| 0 <= m < k.len() && m != idx implies {
            &&& a0.is_live(#[trigger] k[m])
            &&& a0.descends(p, k[m])
            &&& a1.descends(p, k[m])
            &&& a0.height_measure(k[m]) < a0.height_measure(p)
            &&& forall|y: NodeId|
                #![trigger a0.is_desc(y, k[m])]
                a0.is_live(y) && a0.is_desc(y, k[m]) ==> same_node(a0, a1, y)
        } by {
            a0.lemma_descends_child(p, m);
            a0.lemma_child_desc(p, m);
            let s = k[m];
            let j: int = if m < idx { m } else { before.len() + g.len() + m - idx - 1 };
            assert(a1.children_of(p)[j] == s) by {
                if m < idx {
                    assert(before[m] == s);
                } else {
                    assert(after[m - idx - 1] == s);
                    assert((before + g + after)[before.len() + g.len() + m - idx - 1] == s);
                }
            }
            a1.lemma_descends_child(p, j);
            assert forall|y: NodeId|
                #![trigger a0.is_desc(y, s)]
                a0.is_live(y) && a0.is_desc(y, s) implies same_node(a0, a1, y) by {
                a0.lemma_desc_live(y, s);
                if y == id {
                    assert(a0.is_desc(id, id)) by {
                        reveal_with_fuel(Arena::is_desc, 1);
                    }
                    a0.lemma_siblings_disjoint(p, m, idx, id);
                }
                if y == c {
                    a0.lemma_desc_trans(c, id, p);
                    a0.lemma_child_desc(id, 0);
                    a0.lemma_siblings_disjoint(p, m, idx, c);
                }
                if y == p {
                    a0.lemma_desc_antisym(p, s);
                }
            }
        }
        assert forall|kk: int| 0 <= kk < before.len() implies {
            &&& a0.is_live(#[trigger] before[kk])
            &&& a0.descends(p, before[kk])
            &&& a1.descends(p, before[kk])
            &&& a0.height_measure(before[kk]) < a0.height_measure(p)
            &&& forall|y: NodeId|
                #![trigger a0.is_desc(y, before[kk])]
                a0.is_live(y) && a0.is_desc(y, before[kk]) ==> same_node(a0, a1, y)
        } by {
            assert(before[kk] == k[kk]);
        }
        assert forall|kk: int| 0 <= kk < after.len() implies {
            &&& a0.is_live(#[trigger] after[kk])
            &&& a0.descends(p, after[kk])
            &&& a1.descends(p, after[kk])
            &&& a0.height_measure(after[kk]) < a0.height_measure(p)
            &&& forall|y: NodeId|
                #![trigger a0.is_desc(y, after[kk])]
                a0.is_live(y) && a0.is_desc(y, after[kk]) ==> same_node(a0, a1, y)
        } by {
            assert(after[kk] == k[idx + 1 + kk]);
        }
        // Nodes below a child of `c` are untouched, and they descend from `p` now.
        assert forall|kk: int| 0 <= kk < g.len() implies {
            &&& a0.is_live(#[trigger] g[kk])
            &&& a0.descends(c, g[kk])
            &&& a1.descends(p, g[kk])
            &&& a0.height_measure(g[kk]) < a0.height_measure(c)
            &&& forall|y: NodeId|
                #![trigger a0.is_desc(y, g[kk])]
                a0.is_live(y) && a0.is_desc(y, g[kk]) ==> same_node(a0, a1, y)
        } by {
            a0.lemma_descends_child(c, kk);
            a0.lemma_child_desc(c, kk);
            assert(a1.children_of(p)[before.len() + kk] == g[kk]) by {
                assert((before + g + after)[before.len() + kk] == g[kk]);
            }
            a1.lemma_descends_child(p, before.len() + kk);
            assert forall|y: NodeId|
                #![trigger a0.is_desc(y, g[kk])]
                a0.is_live(y) && a0.is_desc(y, g[kk]) implies same_node(a0, a1, y) by {
                a0.lemma_desc_live(y, g[kk]);
            }
        }
        Arena::lemma_leaves_frame_list(a0, a1, p, p, before);
        Arena::lemma_leaves_frame_list(a0, a1, p, p, after);
        Arena::lemma_leaves_frame_list(a0, a1, c, p, g);
        assert(a0.leaves_in(c) == a0.leaves_of_list(c, g));
        assert(a1.leaves_in(p) == a1.leaves_of_list(p, before + g + after));
        assert(a1.leaves_in(p) == a0.leaves_in(p));
        // Everything outside the subtree of `p` is untouched.
        a0.lemma_desc_root(p);
        assert forall|y: NodeId| #![trigger a0.is_desc(y, p)] a0.is_live(y) && !a0.is_desc(y, p) implies same_node(
            a0,
            a1,
            y,
        ) by {
            if y == id {
                a0.lemma_child_desc(p, idx);
            }
            if y == c {
                a0.lemma_desc_trans(c, id, p);
            }
            if y == p {
                assert(a0.is_desc(p, p)) by {
                    reveal_with_fuel(Arena::is_desc, 1);
                }
            }
        }
        let (pre, post) = Arena::lemma_leaves_replace(a0, a1, a0.root, p);
    }

    /// No leaf occurs twice below `x`.
    pub(crate) proof fn lemma_leaves_distinct(self, x: NodeId)
        requires
            self.wf_core(),
        ensures
            self.leaves_in(x).no_duplicates(),
        decreases self.height_measure(x), 1nat, 0nat,
    {
        if self.is_live(x) {
            if self.kind_of(x) is Split {
                self.lemma_leaves_list_distinct(x, 0);
                assert(self.children_of(x).skip(0) =~= self.children_of(x));
            }
        }
    }

    /// No leaf occurs twice below the children of `p` from position `k` on.
    proof fn lemma_leaves_list_distinct(self, p: NodeId, k: int)
        requires
            self.wf_core(),
            self.is_live(p),
            0 <= k <= self.children_of(p).len(),
        ensures
            self.leaves_of_list(p, self.children_of(p).skip(k)).no_duplicates(),
        decreases self.height_measure(p), 0nat, self.children_of(p).len() - k,
    {
        let all = self.children_of(p);
        let kids = all.skip(k);
        if kids.len() > 0 {
            let c = kids[0];
            assert(c == all[k]);
            self.lemma_descends_child(p, k);
            self.lemma_child_desc(p, k);
            self.lemma_wf_depth_bound(p);
            self.lemma_leaves_distinct(c);
            assert(kids.drop_first() =~= all.skip(k + 1));
            self.lemma_leaves_list_distinct(p, k + 1);
            let first = self.leaves_in(c);
            let rest = self.leaves_of_list(p, all.skip(k + 1));
            assert(self.leaves_of_list(p, kids) == first + rest);
            self.lemma_leaves_in(c);
            let tail = all.skip(k + 1);
            assert forall|j: int| 0 <= j < tail.len() implies all.contains(#[trigger] tail[j]) by {
                assert(tail[j] == all[k + 1 + j]);
            }
            self.lemma_leaves_of_list(p, tail);
            assert((first + rest).no_duplicates()) by {
                let s = first + rest;
                assert forall|a: int, b: int| 0 <= a < s.len() && 0 <= b < s.len() && a != b implies s[a] != s[b] by {
                    if a < first.len() && b < first.len() {
                    } else if a >= first.len() && b >= first.len() {
                        assert(s[a] == rest[a - first.len()] && s[b] == rest[b - first.len()]);
                    } else {
                        let (fa, rb) = if a < first.len() { (a, b) } else { (b, a) };
                        let v = s[fa];
                        assert(first.contains(v));
                        if s[rb] == v {
                            assert(rest[rb - first.len()] == v);
                            assert(rest.contains(v));
                            let j = choose|j: int| 0 <= j < tail.len() && self.is_leaf(v) && self.is_desc(v, #[trigger] tail[j]);
                            assert(tail[j] == all[k + 1 + j]);
                            self.lemma_siblings_disjoint(p, k, k + 1 + j, v);
                        }
                    }
                }
            }
        }
    }

    /// Adding leaf `id` at position `index` among the children of `p` puts
    /// it into the order of the leaves at `pos`: right after the leaves of
    /// the child before it, or last when it is the last child of the root.
    pub(crate) proof fn lemma_insert_leaf_order(a0: Arena, a1: Arena, p: NodeId, id: NodeId, index: int) -> (pos: int)
        requires
            a0.wf(),
            a1.wf(),
            a0.is_live(p),
            a0.kind_of(p) is Split,
            0 <= index <= a0.children_of(p).len(),
            !a0.is_live(id),
            forall|x: NodeId| #[trigger] a1.is_live(x) <==> (a0.is_live(x) || x == id),
            a1.kind_of(id) is Leaf,
            forall|x: NodeId| #![trigger a1.kind_of(x)] a0.is_live(x) ==> a1.kind_of(x) == a0.kind_of(x),
            a1.children_of(p) == a0.children_of(p).insert(index, id),
            forall|q: NodeId|
                #![trigger a1.children_of(q)]
                q != p && a0.is_live(q) ==> a1.children_of(q) == a0.children_of(q),
            a1.root == a0.root,
        ensures
            0 <= pos <= a0.leaves_in(a0.root).len(),
            a1.leaves_in(a0.root) == a0.leaves_in(a0.root).insert(pos, id),
            p == a0.root && index == a0.children_of(p).len() ==> pos == a0.leaves_in(a0.root).len(),
            index > 0 && a0.leaves_in(a0.children_of(p)[index - 1]).len() > 0 ==> pos == a0.leaves_in(
                a0.root,
            ).index_of(a0.leaves_in(a0.children_of(p)[index - 1]).last()) + 1,
    {
        let k = a0.children_of(p);
        let before = k.take(index);
        let after = k.skip(index);
        assert(a1.is_live(p));
        assert(a1.children_of(p) =~= before + seq![id] + after);
        a1.lemma_leaves_append(p, before + seq![id], after);
        a1.lemma_leaves_append(p, before, seq![id]);
        assert(a1.children_of(p)[index] == id);
        a1.lemma_descends_child(p, index);
        a1.lemma_leaves_single(p, id);
        assert(a1.leaves_in(id) =~= seq![id]);
        assert(k =~= before + after);
        a0.lemma_leaves_append(p, before, after);
        a0.lemma_wf_depth_bound(p);
        assert forall|m: int| 0 <= m < k.len() implies {
            &&& a0.is_live(#[trigger] k[m])
            &&& a0.descends(p, k[m])
            &&& a1.descends(p, k[m])
            &&& a0.height_measure(k[m]) < a0.height_measure(p)
            &&& forall|y: NodeId|
                #![trigger a0.is_desc(y, k[m])]
                a0.is_live(y) && a0.is_desc(y, k[m]) ==> same_node(a0, a1, y)
        } by {
            a0.lemma_descends_child(p, m);
            a0.lemma_child_desc(p, m);
            let j: int = if m < index { m } else { m + 1 };
            assert(a1.children_of(p)[j] == k[m]);
            a1.lemma_descends_child(p, j);
            assert forall|y: NodeId|
                #![trigger a0.is_desc(y, k[m])]
                a0.is_live(y) && a0.is_desc(y, k[m]) implies same_node(a0, a1, y) by {
                if y == p {
                    a0.lemma_desc_antisym(p, k[m]);
                }
            }
        }
        assert forall|kk: int| 0 <= kk < before.len() implies {
            &&& a0.is_live(#[trigger] before[kk])
            &&& a0.descends(p, before[kk])
            &&& a1.descends(p, before[kk])
            &&& a0.height_measure(before[kk]) < a0.height_measure(p)
            &&& forall|y: NodeId|
                #![trigger a0.is_desc(y, before[kk])]
                a0.is_live(y) && a0.is_desc(y, before[kk]) ==> same_node(a0, a1, y)
        } by {
            assert(before[kk] == k[kk]);
        }
        assert forall|kk: int| 0 <= kk < after.len() implies {
            &&& a0.is_live(#[trigger] after[kk])
            &&& a0.descends(p, after[kk])
            &&& a1.descends(p, after[kk])
            &&& a0.height_measure(after[kk]) < a0.height_measure(p)
            &&& forall|y: NodeId|
                #![trigger a0.is_desc(y, after[kk])]
                a0.is_live(y) && a0.is_desc(y, after[kk]) ==> same_node(a0, a1, y)
        } by {
            assert(after[kk] == k[index + kk]);
        }
        Arena::lemma_leaves_frame_list(a0, a1, p, p, before);
        Arena::lemma_leaves_frame_list(a0, a1, p, p, after);
        let lb = a0.leaves_of_list(p, before);
        let la = a0.leaves_of_list(p, after);
        assert(a0.leaves_in(p) == lb + la);
        assert(a1.leaves_in(p) == lb + seq![id] + la);
        a0.lemma_desc_root(p);
        assert forall|y: NodeId| #![trigger a0.is_desc(y, p)] a0.is_live(y) && !a0.is_desc(y, p) implies same_node(
            a0,
            a1,
            y,
        ) by {
            if y == p {
                assert(a0.is_desc(p, p)) by {
                    reveal_with_fuel(Arena::is_desc, 1);
                }
            }
        }
        let (pre, post) = Arena::lemma_leaves_replace(a0, a1, a0.root, p);
        let pos: int = (pre.len() + lb.len()) as int;
        let all0 = a0.leaves_in(a0.root);
        assert(all0 =~= pre + lb + la + post);
        assert(a1.leaves_in(a0.root) =~= all0.insert(pos, id));
        if p == a0.root && index == k.len() {
            assert(a0.is_desc(p, p)) by {
                reveal_with_fuel(Arena::is_desc, 1);
            }
            assert(after =~= Seq::<NodeId>::empty());
            reveal_with_fuel(Arena::leaves_of_list, 1);
            assert(pre + lb + la + post == lb + la) by {
                // `p` is the root, so nothing lies before or after it.
                assert(a0.leaves_in(a0.root) == a0.leaves_in(p));
                assert(pre + a0.leaves_in(p) + post == a0.leaves_in(p));
            }
        }
        if index > 0 && a0.leaves_in(k[index - 1]).len() > 0 {
            let t = k[index - 1];
            a0.lemma_list_take_step(p, k, index - 1);
            assert(k.take(index - 1 + 1) == before);
            let lt = a0.leaves_in(t);
            let q = pos - 1;
            assert(all0[q] == lt.last()) by {
                let lbb = a0.leaves_of_list(p, k.take(index - 1));
                assert(lb == lbb + lt);
                assert(all0 =~= pre + lbb + lt + la + post);
            }
            a0.lemma_leaves_distinct(a0.root);
            assert(all0.contains(lt.last()));
            let r = all0.index_of(lt.last());
            assert(all0[r] == lt.last());
        }
        pos
    }

    /// Putting the child `id` of `p` (at position `i`) into a new split `w`
    /// that takes its place keeps the order of the leaves.
    pub(crate) proof fn lemma_wrap_keeps_leaves(a0: Arena, a1: Arena, id: NodeId, p: NodeId, i: int, w: NodeId)
        requires
            a0.wf(),
            a1.wf(),
            a0.is_live(p),
            0 <= i < a0.children_of(p).len(),
            a0.children_of(p)[i] == id,
            !a0.is_live(w),
            forall|x: NodeId| #[trigger] a1.is_live(x) <==> (a0.is_live(x) || x == w),
            a1.kind_of(w) is Split,
            a1.children_of(w) == seq![id],
            forall|x: NodeId| #![trigger a1.kind_of(x)] a0.is_live(x) ==> a1.kind_of(x) == a0.kind_of(x),
            a1.children_of(p) == a0.children_of(p).update(i, w),
            forall|q: NodeId|
                #![trigger a1.children_of(q)]
                q != p && a0.is_live(q) ==> a1.children_of(q) == a0.children_of(q),
            a1.root == a0.root,
        ensures
            a1.leaves_in(a0.root) == a0.leaves_in(a0.root),
    {
        let k = a0.children_of(p);
        let k1 = a1.children_of(p);
        assert(a1.is_live(p));
        assert(a1.kind_of(p) == a0.kind_of(p));
        a0.lemma_wf_depth_bound(p);
        a0.lemma_descends_child(p, i);
        a0.lemma_child_desc(p, i);
        assert(k1[i] == w);
        a1.lemma_descends_child(p, i);
        a1.lemma_child_desc(p, i);
        a1.lemma_descends_child(w, 0);
        assert(a1.children_of(w)[0] == id);
        a1.lemma_leaves_single(w, id);
        assert(a1.leaves_in(w) == a1.leaves_of_list(w, seq![id]));
        assert forall|m: int| 0 <= m < k.len() implies {
            &&& a0.is_live(#[trigger] k[m])
            &&& a0.descends(p, k[m])
            &&& a0.height_measure(k[m]) < a0.height_measure(p)
            &&& forall|y: NodeId|
                #![trigger a0.is_desc(y, k[m])]
                a0.is_live(y) && a0.is_desc(y, k[m]) ==> same_node(a0, a1, y)
        } by {
            a0.lemma_descends_child(p, m);
            a0.lemma_child_desc(p, m);
            assert forall|y: NodeId|
                #![trigger a0.is_desc(y, k[m])]
                a0.is_live(y) && a0.is_desc(y, k[m]) implies same_node(a0, a1, y) by {
                if y == p {
                    a0.lemma_desc_antisym(p, k[m]);
                }
            }
        }
        // The subtree of `id` is untouched, now below `w`.
        Arena::lemma_leaves_frame(a0, a1, id);
        let before = k.take(i);
        let after = k.skip(i + 1);
        assert(k1 =~= before + seq![w] + after);
        assert forall|kk: int| 0 <= kk < before.len() implies {
            &&& a0.is_live(#[trigger] before[kk])
            &&& a0.descends(p, before[kk])
            &&& a1.descends(p, before[kk])
            &&& a0.height_measure(before[kk]) < a0.height_measure(p)
            &&& forall|y: NodeId|
                #![trigger a0.is_desc(y, before[kk])]
                a0.is_live(y) && a0.is_desc(y, before[kk]) ==> same_node(a0, a1, y)
        } by {
            assert(before[kk] == k[kk]);
            assert(k1[kk] == k[kk]);
            a1.lemma_descends_child(p, kk);
        }
        assert forall|kk: int| 0 <= kk < after.len() implies {
            &&& a0.is_live(#[trigger] after[kk])
            &&& a0.descends(p, after[kk])
            &&& a1.descends(p, after[kk])
            &&& a0.height_measure(after[kk]) < a0.height_measure(p)
            &&& forall|y: NodeId|
                #![trigger a0.is_desc(y, after[kk])]
                a0.is_live(y) && a0.is_desc(y, after[kk]) ==> same_node(a0, a1, y)
        } by {
            assert(after[kk] == k[i + 1 + kk]);
            assert(k1[i + 1 + kk] == k[i + 1 + kk]);
            a1.lemma_descends_child(p, i + 1 + kk);
        }
        Arena::lemma_leaves_frame_list(a0, a1, p, p, before);
        Arena::lemma_leaves_frame_list(a0, a1, p, p, after);
        a0.lemma_list_split(p, k, i);
        a1.lemma_list_split(p, k1, i);
        assert(k1.take(i) =~= before);
        assert(k1.skip(i + 1) =~= after);
        assert(a1.leaves_in(p) == a0.leaves_in(p));
        a0.lemma_desc_root(p);
        assert forall|y: NodeId| #![trigger a0.is_desc(y, p)] a0.is_live(y) && !a0.is_desc(y, p) implies same_node(
            a0,
            a1,
            y,
        ) by {
            if y == p {
                assert(a0.is_desc(p, p)) by {
                    reveal_with_fuel(Arena::is_desc, 1);
                }
            }
        }
        let (pre, post) = Arena::lemma_leaves_replace(a0, a1, a0.root, p);
    }

    /// Taking the childless child `x` (at position `idx`) out of `p` takes `x`
    /// out of the order of the leaves.
    pub(crate) proof fn lemma_unlink_order(a0: Arena, a1: Arena, x: NodeId, p: NodeId, idx: int)
        requires
            a0.wf_core(),
            a1.wf_core(),
            a0.is_live(p),
            0 <= idx < a0.children_of(p).len(),
            a0.children_of(p)[idx] == x,
            a0.children_of(x).len() == 0,
            forall|y: NodeId| #[trigger] a1.is_live(y) <==> (a0.is_live(y) && y != x),
            forall|y: NodeId| #![trigger a1.kind_of(y)] a1.is_live(y) ==> a1.kind_of(y) == a0.kind_of(y),
            a1.children_of(p) == a0.children_of(p).remove(idx),
            forall|q: NodeId|
                #![trigger a1.children_of(q)]
                q != p && a0.is_live(q) ==> a1.children_of(q) == a0.children_of(q),
            a1.root == a0.root,
        ensures
            a1.leaves_in(a0.root) == without(a0.leaves_in(a0.root), x),
    {
        let k = a0.children_of(p);
        let before = k.take(idx);
        let after = k.skip(idx + 1);
        a0.lemma_child_desc(p, idx);
        assert(a1.is_live(p));
        assert(a1.kind_of(p) == a0.kind_of(p));
        a0.lemma_wf_depth_bound(p);
        a0.lemma_descends_child(p, idx);
        a0.lemma_list_split(p, k, idx);
        assert(a1.children_of(p) =~= before + after);
        a1.lemma_leaves_append(p, before, after);
        assert forall|m: int| 0 <= m < k.len() && m != idx implies {
            &&& a0.is_live(#[trigger] k[m])
            &&& a0.descends(p, k[m])
            &&& a1.descends(p, k[m])
            &&& a0.height_measure(k[m]) < a0.height_measure(p)
            &&& forall|y: NodeId|
                #![trigger a0.is_desc(y, k[m])]
                a0.is_live(y) && a0.is_desc(y, k[m]) ==> same_node(a0, a1, y)
        } by {
            a0.lemma_descends_child(p, m);
            a0.lemma_child_desc(p, m);
            let j: int = if m < idx { m } else { m - 1 };
            assert(a1.children_of(p)[j] == k[m]);
            a1.lemma_descends_child(p, j);
            assert forall|y: NodeId|
                #![trigger a0.is_desc(y, k[m])]
                a0.is_live(y) && a0.is_desc(y, k[m]) implies same_node(a0, a1, y) by {
                if y == p {
                    a0.lemma_desc_antisym(p, k[m]);
                }
                if y == x {
                    assert(a0.is_desc(x, x)) by {
                        reveal_with_fuel(Arena::is_desc, 1);
                    }
                    Arena::lemma_siblings_disjoint(a0, p, m, idx, x);
                }
            }
        }
        assert forall|kk: int| 0 <= kk < before.len() implies {
            &&& a0.is_live(#[trigger] before[kk])
            &&& a0.descends(p, before[kk])
            &&& a1.descends(p, before[kk])
            &&& a0.height_measure(before[kk]) < a0.height_measure(p)
            &&& forall|y: NodeId|
                #![trigger a0.is_desc(y, before[kk])]
                a0.is_live(y) && a0.is_desc(y, before[kk]) ==> same_node(a0, a1, y)
        } by {
            assert(before[kk] == k[kk]);
        }
        assert forall|kk: int| 0 <= kk < after.len() implies {
            &&& a0.is_live(#[trigger] after[kk])
            &&& a0.descends(p, after[kk])
            &&& a1.descends(p, after[kk])
            &&& a0.height_measure(after[kk]) < a0.height_measure(p)
            &&& forall|y: NodeId|
                #![trigger a0.is_desc(y, after[kk])]
                a0.is_live(y) && a0.is_desc(y, after[kk]) ==> same_node(a0, a1, y)
        } by {
            assert(after[kk] == k[idx + 1 + kk]);
        }
        Arena::lemma_leaves_frame_list(a0, a1, p, p, before);
        Arena::lemma_leaves_frame_list(a0, a1, p, p, after);
        a0.lemma_desc_root(p);
        assert forall|y: NodeId| #![trigger a0.is_desc(y, p)] a0.is_live(y) && !a0.is_desc(y, p) implies same_node(
            a0,
            a1,
            y,
        ) by {
            if y == p {
                assert(a0.is_desc(p, p)) by {
                    reveal_with_fuel(Arena::is_desc, 1);
                }
            }
            if y == x {
                a0.lemma_child_desc(p, idx);
            }
        }
        let (pre, post) = Arena::lemma_leaves_replace(a0, a1, a0.root, p);
        let lb = a0.leaves_of_list(p, before);
        let la = a0.leaves_of_list(p, after);
        let lx = a0.leaves_in(x);
        let all0 = a0.leaves_in(a0.root);
        assert(all0 =~= (pre + lb) + lx + (la + post));
        assert(a1.leaves_in(a0.root) =~= (pre + lb) + (la + post));
        // `x` occurs in the order only as its own leaf.
        a0.lemma_leaves_in(a0.root);
        a0.lemma_leaves_distinct(a0.root);
        let a = pre + lb;
        let b = la + post;
        assert(!a.contains(x) && !b.contains(x)) by {
            if a.contains(x) || b.contains(x) {
                let i = if a.contains(x) { a.index_of(x) } else { a.len() + lx.len() + b.index_of(x) };
                assert(all0[i] == x);
                assert(all0.contains(x));
                assert(a0.is_leaf(x));
                assert(lx =~= seq![x]);
                assert(all0[a.len() as int] == x);
            }
        }
        lemma_without_concat(a, lx, x);
        lemma_without_concat(a + lx, b, x);
        super::focus::lemma_without(a, x);
        super::focus::lemma_without(b, x);
        assert(without(lx, x) =~= Seq::<NodeId>::empty()) by {
            if a0.kind_of(x) is Leaf {
                assert(lx =~= seq![x]);
                assert(seq![x].drop_last() =~= Seq::<NodeId>::empty());
                assert(without(Seq::<NodeId>::empty(), x) == Seq::<NodeId>::empty());
                assert(without(lx, x) == without(lx.drop_last(), x));
            } else {
                assert(lx =~= Seq::<NodeId>::empty());
            }
        }
        assert(without(all0, x) =~= a + b);
    }

    /// Putting the only child `c` of split `x` (at position `idx` of `p`) in
    /// the place of `x` keeps the order of the leaves.
    pub(crate) proof fn lemma_promote_order(a0: Arena, a1: Arena, x: NodeId, p: NodeId, idx: int)
        requires
            a0.wf_core(),
            a1.wf_core(),
            a0.is_live(p),
            0 <= idx < a0.children_of(p).len(),
            a0.children_of(p)[idx] == x,
            a0.kind_of(x) is Split,
            a0.children_of(x).len() == 1,
            forall|y: NodeId| #[trigger] a1.is_live(y) <==> (a0.is_live(y) && y != x),
            forall|y: NodeId| #![trigger a1.kind_of(y)] a1.is_live(y) ==> a1.kind_of(y) == a0.kind_of(y),
            a1.children_of(p) == a0.children_of(p).update(idx, a0.children_of(x)[0]),
            forall|q: NodeId|
                #![trigger a1.children_of(q)]
                q != p && a1.is_live(q) ==> a1.children_of(q) == a0.children_of(q),
            a1.root == a0.root,
        ensures
            a1.leaves_in(a0.root) == a0.leaves_in(a0.root),
    {
        let k = a0.children_of(p);
        let c = a0.children_of(x)[0];
        let k1 = a1.children_of(p);
        a0.lemma_child_desc(p, idx);
        a0.lemma_child_desc(x, 0);
        assert(a1.is_live(p));
        assert(a1.kind_of(p) == a0.kind_of(p));
        a0.lemma_wf_depth_bound(p);
        a0.lemma_wf_depth_bound(x);
        a0.lemma_descends_child(p, idx);
        a0.lemma_descends_child(x, 0);
        assert(k1[idx] == c);
        a1.lemma_descends_child(p, idx);
        assert(a0.children_of(x) =~= seq![c]);
        a0.lemma_leaves_single(x, c);
        assert(a0.leaves_in(x) == a0.leaves_in(c));
        // The subtree of `c` is untouched.
        assert forall|y: NodeId| #![trigger a0.is_desc(y, c)] a0.is_live(y) && a0.is_desc(y, c) implies same_node(
            a0,
            a1,
            y,
        ) by {
            a0.lemma_desc_live(y, c);
            a0.lemma_child_desc(x, 0);
        }
        Arena::lemma_leaves_frame(a0, a1, c);
        let before = k.take(idx);
        let after = k.skip(idx + 1);
        assert forall|m: int| 0 <= m < k.len() && m != idx implies {
            &&& a0.is_live(#[trigger] k[m])
            &&& a0.descends(p, k[m])
            &&& a1.descends(p, k[m])
            &&& a0.height_measure(k[m]) < a0.height_measure(p)
            &&& forall|y: NodeId|
                #![trigger a0.is_desc(y, k[m])]
                a0.is_live(y) && a0.is_desc(y, k[m]) ==> same_node(a0, a1, y)
        } by {
            a0.lemma_descends_child(p, m);
            a0.lemma_child_desc(p, m);
            assert(k1[m] == k[m]);
            a1.lemma_descends_child(p, m);
            assert forall|y: NodeId|
                #![trigger a0.is_desc(y, k[m])]
                a0.is_live(y) && a0.is_desc(y, k[m]) implies same_node(a0, a1, y) by {
                if y == p {
                    a0.lemma_desc_antisym(p, k[m]);
                }
                if y == x {
                    assert(a0.is_desc(x, x)) by {
                        reveal_with_fuel(Arena::is_desc, 1);
                    }
                    Arena::lemma_siblings_disjoint(a0, p, m, idx, x);
                }
            }
        }
        assert forall|kk: int| 0 <= kk < before.len() implies {
            &&& a0.is_live(#[trigger] before[kk])
            &&& a0.descends(p, before[kk])
            &&& a1.descends(p, before[kk])
            &&& a0.height_measure(before[kk]) < a0.height_measure(p)
            &&& forall|y: NodeId|
                #![trigger a0.is_desc(y, before[kk])]
                a0.is_live(y) && a0.is_desc(y, before[kk]) ==> same_node(a0, a1, y)
        } by {
            assert(before[kk] == k[kk]);
        }
        assert forall|kk: int| 0 <= kk < after.len() implies {
            &&& a0.is_live(#[trigger] after[kk])
            &&& a0.descends(p, after[kk])
            &&& a1.descends(p, after[kk])
            &&& a0.height_measure(after[kk]) < a0.height_measure(p)
            &&& forall|y: NodeId|
                #![trigger a0.is_desc(y, after[kk])]
                a0.is_live(y) && a0.is_desc(y, after[kk]) ==> same_node(a0, a1, y)
        } by {
            assert(after[kk] == k[idx + 1 + kk]);
        }
        Arena::lemma_leaves_frame_list(a0, a1, p, p, before);
        Arena::lemma_leaves_frame_list(a0, a1, p, p, after);
        a0.lemma_list_split(p, k, idx);
        a1.lemma_list_split(p, k1, idx);
        assert(k1.take(idx) =~= before);
        assert(k1.skip(idx + 1) =~= after);
        assert(a1.leaves_in(p) == a0.leaves_in(p));
        a0.lemma_desc_root(p);
        assert forall|y: NodeId| #![trigger a0.is_desc(y, p)] a0.is_live(y) && !a0.is_desc(y, p) implies same_node(
            a0,
            a1,
            y,
        ) by {
            if y == p {
                assert(a0.is_desc(p, p)) by {
                    reveal_with_fuel(Arena::is_desc, 1);
                }
            }
            if y == x {
                a0.lemma_child_desc(p, idx);
            }
        }
        let (pre, post) = Arena::lemma_leaves_replace(a0, a1, a0.root, p);
    }
}

/// Taking `x` out of a concatenation takes it out of both parts.
pub(crate) proof fn lemma_without_concat(s: Seq<NodeId>, t: Seq<NodeId>, x: NodeId)
    ensures
        without(s + t, x) == without(s, x) + without(t, x),
    decreases t.len(),
{
    if t.len() == 0 {
        assert(s + t =~= s);
        assert(without(s, x) + without(t, x) =~= without(s, x));
    } else {
        assert((s + t).drop_last() =~= s + t.drop_last());
        assert((s + t).last() == t.last());
        lemma_without_concat(s, t.drop_last(), x);
        if t.last() != x {
            assert(without(s, x) + without(t.drop_last(), x).push(t.last()) =~= (without(s, x) + without(
                t.drop_last(),
                x,
            )).push(t.last()));
        }
    }
}

/// Trading two adjacent blocks.
pub(crate) proof fn lemma_blocks_swapped(pre: Seq<NodeId>, a: Seq<NodeId>, b: Seq<NodeId>, post: Seq<NodeId>)
    ensures
        blocks_swapped(pre + a + b + post, pre + b + a + post, a, b),
{
    let s = pre + a + b + post;
    let i = pre.len() as int;
    assert(s.take(i) =~= pre);
    assert(s.skip(i + a.len() + b.len()) =~= post);
}

/// The window orders before and after moving the block `lx` out of the
/// block `lc + lx + ld` to either side of it.
pub(crate) proof fn lemma_expel_shape(
    r0: Seq<NodeId>,
    la: Seq<NodeId>,
    lc: Seq<NodeId>,
    lx: Seq<NodeId>,
    ld: Seq<NodeId>,
    lb: Seq<NodeId>,
    r1: Seq<NodeId>,
)
    ensures
        blocks_swapped(
            r0 + (la + (lc + lx + ld) + lb) + r1,
            r0 + (la + (lc + ld) + lx + lb) + r1,
            lx,
            ld,
        ),
        blocks_swapped(
            r0 + (la + (lc + lx + ld) + lb) + r1,
            r0 + (la + lx + (lc + ld) + lb) + r1,
            lc,
            lx,
        ),
{
    let s = r0 + (la + (lc + lx + ld) + lb) + r1;
    assert(s =~= (r0 + la + lc) + lx + ld + (lb + r1));
    assert(r0 + (la + (lc + ld) + lx + lb) + r1 =~= (r0 + la + lc) + ld + lx + (lb + r1));
    lemma_blocks_swapped(r0 + la + lc, lx, ld, lb + r1);
    assert(s =~= (r0 + la) + lc + lx + (ld + lb + r1));
    assert(r0 + (la + lx + (lc + ld) + lb) + r1 =~= (r0 + la) + lx + lc + (ld + lb + r1));
    lemma_blocks_swapped(r0 + la, lc, lx, ld + lb + r1);
}

/// `t` is `s` with the adjacent blocks `a` and `b` of `s` traded places.
pub open spec fn blocks_swapped(s: Seq<NodeId>, t: Seq<NodeId>, a: Seq<NodeId>, b: Seq<NodeId>) -> bool {
    exists|i: int|
        #![trigger s.take(i)]
        0 <= i && i + a.len() + b.len() <= s.len() && s == s.take(i) + a + b + s.skip(i + a.len() + b.len()) && t
            == s.take(i) + b + a + s.skip(i + a.len() + b.len())
}

impl TilingTree {
    /// The nodes below child `c` of `p` kept their kinds and children.
    proof fn lemma_below_child_kept(t0: TilingTree, t3: TilingTree, p: NodeId, c: NodeId, e: NodeId)
        requires
            t0.wf(),
            t0.is_live(p),
            t0.children_of(p).contains(c),
            forall|y: NodeId|
                #![trigger t3.kind_of(y)]
                t0.is_live(y) ==> t3.is_live(y) && (y != p && y != e ==> t3.kind_of(y) == t0.kind_of(y)),
            forall|y: NodeId|
                #![trigger t3.children_of(y)]
                t0.is_live(y) && y != p && y != e ==> t3.children_of(y) == t0.children_of(y),
            e == p || !t0.is_desc(e, c),
        ensures
            forall|y: NodeId|
                #![trigger t0.arena.is_desc(y, c)]
                t0.arena.is_live(y) && t0.arena.is_desc(y, c) ==> same_node(t0.arena, t3.arena, y),
    {
        let i = t0.children_of(p).index_of(c);
        t0.lemma_child_desc(p, i);
        assert forall|y: NodeId|
            #![trigger t0.arena.is_desc(y, c)]
            t0.arena.is_live(y) && t0.arena.is_desc(y, c) implies same_node(t0.arena, t3.arena, y) by {
            assert(t0.is_live(y) && t0.is_desc(y, c));
            if y == p {
                t0.lemma_desc_antisym(p, c);
                t0.lemma_child_desc(p, i);
                assert(t0.children_of(p)[i] == p);
                assert(t0.parent_of(p) == Some(p));
                t0.lemma_desc_live(p, p);
                assert(false) by {
                    t0.arena.lemma_desc_unfold(p, p);
                }
            }
            assert(y != e);
            assert(t3.kind_of(y) == t0.kind_of(y));
            assert(t3.children_of(y) == t0.children_of(y));
        }
    }

    /// Where only `p` changed among the old nodes, the window order changes
    /// only inside `p`.
    #[verifier::spinoff_prover]
    proof fn lemma_order_outside(t0: TilingTree, t3: TilingTree, p: NodeId, e: NodeId) -> (r: (Seq<NodeId>, Seq<NodeId>))
        requires
            t0.wf(),
            t3.structure_ok(),
            t0.is_live(p),
            forall|y: NodeId|
                #![trigger t3.kind_of(y)]
                t0.is_live(y) ==> t3.is_live(y) && (y != p && y != e ==> t3.kind_of(y) == t0.kind_of(y)),
            forall|y: NodeId|
                #![trigger t3.children_of(y)]
                t0.is_live(y) && y != p && y != e ==> t3.children_of(y) == t0.children_of(y),
            e == p || (t0.is_live(e) && t0.is_desc(e, p)),
            t3.root_id() == t0.root_id(),
        ensures
            t0.leaf_order() == r.0 + t0.leaves_in(p) + r.1,
            t3.leaf_order() == r.0 + t3.leaves_in(p) + r.1,
    {
        let a0 = t0.arena;
        let a3 = t3.arena;
        t0.lemma_leaf_order();
        t3.lemma_leaf_order();
        t0.lemma_desc_root(p);
        assert(t0.is_desc(p, p)) by {
            reveal_with_fuel(Arena::is_desc, 1);
        }
        assert forall|y: NodeId|
            #![trigger a0.is_desc(y, p)]
            a0.is_live(y) && !a0.is_desc(y, p) implies same_node(a0, a3, y) by {
            assert(t0.is_live(y));
            assert(y != p);
            if y == e {
                assert(t0.is_desc(e, p));
            }
            assert(t3.kind_of(y) == t0.kind_of(y));
            assert(t3.children_of(y) == t0.children_of(y));
        }
        Arena::lemma_leaves_replace(a0, a3, a0.root, p)
    }

    /// The windows below `p` around its adjacent children `f` and `f + 1`.
    #[verifier::spinoff_prover]
    proof fn lemma_order_pair(t: TilingTree, p: NodeId, f: int)
        requires
            t.structure_ok(),
            t.is_live(p),
            t.kind_of(p) is Split,
            0 <= f,
            f + 1 < t.children_of(p).len(),
        ensures
            t.leaves_in(p) == t.leaves_of_list(p, t.children_of(p).take(f)) + t.leaves_in(t.children_of(p)[f])
                + t.leaves_in(t.children_of(p)[f + 1]) + t.leaves_of_list(p, t.children_of(p).skip(f + 2)),
    {
        let k = t.children_of(p);
        t.lemma_descends_child(p, f);
        t.lemma_descends_child(p, f + 1);
        t.lemma_list_split(p, k, f);
        assert(k.skip(f + 1)[0] == k[f + 1]);
        t.lemma_list_split(p, k.skip(f + 1), 0);
        assert(k.skip(f + 1).take(0) =~= Seq::<NodeId>::empty());
        assert(k.skip(f + 1).skip(1) =~= k.skip(f + 2));
        assert(t.leaves_of_list(p, Seq::<NodeId>::empty()) == Seq::<NodeId>::empty());
        assert(t.leaves_in(p) == t.leaves_of_list(p, k));
    }

    /// The windows below `p` around its child `f`.
    #[verifier::spinoff_prover]
    proof fn lemma_order_one(t: TilingTree, p: NodeId, f: int)
        requires
            t.structure_ok(),
            t.is_live(p),
            t.kind_of(p) is Split,
            0 <= f < t.children_of(p).len(),
        ensures
            t.leaves_in(p) == t.leaves_of_list(p, t.children_of(p).take(f)) + t.leaves_in(t.children_of(p)[f])
                + t.leaves_of_list(p, t.children_of(p).skip(f + 1)),
    {
        t.lemma_descends_child(p, f);
        t.lemma_list_split(p, t.children_of(p), f);
        assert(t.leaves_in(p) == t.leaves_of_list(p, t.children_of(p)));
    }

    /// Children of `p` that kept their place keep their windows.
    #[verifier::spinoff_prover]
    proof fn lemma_order_kept_list(t0: TilingTree, t3: TilingTree, p: NodeId, ks: Seq<NodeId>, lo: int, hi: int, d: int, e: NodeId)
        requires
            t0.wf(),
            t3.structure_ok(),
            t0.is_live(p),
            t3.is_live(p),
            forall|y: NodeId|
                #![trigger t3.kind_of(y)]
                t0.is_live(y) ==> t3.is_live(y) && (y != p && y != e ==> t3.kind_of(y) == t0.kind_of(y)),
            forall|y: NodeId|
                #![trigger t3.children_of(y)]
                t0.is_live(y) && y != p && y != e ==> t3.children_of(y) == t0.children_of(y),
            forall|k: int| lo <= k < hi ==> e == p || !t0.is_desc(e, #[trigger] t0.children_of(p)[k]),
            0 <= lo <= hi <= t0.children_of(p).len(),
            ks == t0.children_of(p).subrange(lo, hi),
            0 <= lo + d,
            hi + d <= t3.children_of(p).len(),
            forall|k: int| lo <= k < hi ==> t3.children_of(p)[k + d] == #[trigger] t0.children_of(p)[k],
        ensures
            t3.leaves_of_list(p, ks) == t0.leaves_of_list(p, ks),
    {
        let a0 = t0.arena;
        let a3 = t3.arena;
        let k0 = t0.children_of(p);
        t0.lemma_wf_depth_bound(p);
        assert forall|k: int| 0 <= k < ks.len() implies {
            &&& a0.is_live(#[trigger] ks[k])
            &&& a0.descends(p, ks[k])
            &&& a3.descends(p, ks[k])
            &&& a0.height_measure(ks[k]) < a0.height_measure(p)
            &&& forall|y: NodeId|
                #![trigger a0.is_desc(y, ks[k])]
                a0.is_live(y) && a0.is_desc(y, ks[k]) ==> same_node(a0, a3, y)
        } by {
            assert(ks[k] == k0[k + lo]);
            assert(t3.children_of(p)[k + lo + d] == k0[k + lo]);
            t0.lemma_descends_child(p, k + lo);
            t3.lemma_descends_child(p, k + lo + d);
            t0.lemma_child_desc(p, k + lo);
            t0.lemma_desc_live(k0[k + lo], p);
            assert(k0.contains(k0[k + lo]));
            TilingTree::lemma_below_child_kept(t0, t3, p, k0[k + lo], e);
        }
        Arena::lemma_leaves_frame_list(a0, a3, p, p, ks);
    }

    /// Nesting the adjacent children `f` and `f + 1` of `p` (directly, or
    /// inside the new split `w` that takes their place), in swapped order,
    /// trades their blocks in the window order.
    #[verifier::spinoff_prover]
    #[verifier::rlimit(30)]
    pub(crate) proof fn lemma_nest_order(t0: TilingTree, t3: TilingTree, p: NodeId, f: int, w: Option<NodeId>)
        requires
            t0.wf(),
            t3.structure_ok(),
            t0.is_live(p),
            t0.kind_of(p) is Split,
            t3.kind_of(p) is Split,
            0 <= f,
            f + 1 < t0.children_of(p).len(),
            forall|y: NodeId|
                #![trigger t3.kind_of(y)]
                t0.is_live(y) ==> t3.is_live(y) && (y != p ==> t3.kind_of(y) == t0.kind_of(y)),
            forall|y: NodeId| #![trigger t3.children_of(y)] t0.is_live(y) && y != p ==> t3.children_of(y) == t0.children_of(y),
            t3.root_id() == t0.root_id(),
            w is None ==> t3.children_of(p) == t0.children_of(p).take(f) + seq![
                t0.children_of(p)[f + 1],
                t0.children_of(p)[f],
            ] + t0.children_of(p).skip(f + 2),
            w matches Some(wn) ==> {
                &&& !t0.is_live(wn)
                &&& t3.is_live(wn)
                &&& t3.kind_of(wn) is Split
                &&& t3.children_of(wn) == seq![t0.children_of(p)[f + 1], t0.children_of(p)[f]]
                &&& t3.children_of(p) == t0.children_of(p).take(f) + seq![wn] + t0.children_of(p).skip(f + 2)
            },
        ensures
            blocks_swapped(
                t0.leaf_order(),
                t3.leaf_order(),
                t0.leaves_in(t0.children_of(p)[f]),
                t0.leaves_in(t0.children_of(p)[f + 1]),
            ),
    {
        let k0 = t0.children_of(p);
        let k3 = t3.children_of(p);
        let a = k0[f];
        let b = k0[f + 1];
        let big_a = k0.take(f);
        let big_b = k0.skip(f + 2);
        let (r0, r1) = TilingTree::lemma_order_outside(t0, t3, p, p);
        TilingTree::lemma_order_pair(t0, p, f);
        assert(k0.contains(a) && k0.contains(b));
        TilingTree::lemma_below_child_kept(t0, t3, p, a, p);
        TilingTree::lemma_below_child_kept(t0, t3, p, b, p);
        Arena::lemma_leaves_frame(t0.arena, t3.arena, a);
        Arena::lemma_leaves_frame(t0.arena, t3.arena, b);
        let la = t0.leaves_in(a);
        let lb = t0.leaves_in(b);
        assert(t3.is_live(p));
        let off: int = if w is None { 2 } else { 1 };
        assert(k3.len() == f + off + big_b.len());
        assert(big_a =~= k0.subrange(0, f));
        assert(big_b =~= k0.subrange(f + 2, k0.len() as int));
        TilingTree::lemma_order_kept_list(t0, t3, p, big_a, 0, f, 0, p);
        TilingTree::lemma_order_kept_list(t0, t3, p, big_b, f + 2, k0.len() as int, off - 2, p);
        assert(k3.take(f) =~= big_a);
        assert(k3.skip(f + off) =~= big_b);
        match w {
            None => {
                TilingTree::lemma_order_pair(t3, p, f);
                assert(k3[f] == b && k3[f + 1] == a);
            },
            Some(wn) => {
                TilingTree::lemma_order_one(t3, p, f);
                assert(k3[f] == wn);
                TilingTree::lemma_order_pair(t3, wn, 0);
                let kw = t3.children_of(wn);
                assert(kw.take(0) =~= Seq::<NodeId>::empty());
                assert(kw.skip(2) =~= Seq::<NodeId>::empty());
                assert(t3.leaves_of_list(wn, Seq::<NodeId>::empty()) == Seq::<NodeId>::empty());
                assert(t3.leaves_in(wn) =~= lb + la);
            },
        }
        assert(t3.leaves_in(p) =~= t0.leaves_of_list(p, big_a) + lb + la + t0.leaves_of_list(p, big_b));
        let pre = r0 + t0.leaves_of_list(p, big_a);
        let post = t0.leaves_of_list(p, big_b) + r1;
        let s = t0.leaf_order();
        let i = pre.len() as int;
        assert(s =~= pre + la + lb + post);
        assert(s.take(i) =~= pre);
        assert(s.skip(i + la.len() + lb.len()) =~= post);
        assert(t3.leaf_order() =~= pre + lb + la + post);
        assert(blocks_swapped(s, t3.leaf_order(), la, lb));
    }

    /// The parts of the tree that moving child `ii` of `p` into `gp`
    /// leaves in place keep their windows.
    #[verifier::spinoff_prover]
    #[verifier::rlimit(40)]
    proof fn lemma_expel_frames(t0: TilingTree, t1: TilingTree, gp: NodeId, p: NodeId, pi: int, ii: int, after: bool)
        requires
            t0.wf(),
            t1.structure_ok(),
            t0.is_live(gp),
            t0.kind_of(gp) is Split,
            t1.kind_of(gp) is Split,
            t0.kind_of(p) is Split,
            t1.kind_of(p) is Split,
            0 <= pi < t0.children_of(gp).len(),
            t0.children_of(gp)[pi] == p,
            0 <= ii < t0.children_of(p).len(),
            forall|y: NodeId|
                #![trigger t1.kind_of(y)]
                t0.is_live(y) ==> t1.is_live(y) && (y != gp && y != p ==> t1.kind_of(y) == t0.kind_of(y)),
            forall|y: NodeId|
                #![trigger t1.children_of(y)]
                t0.is_live(y) && y != gp && y != p ==> t1.children_of(y) == t0.children_of(y),
            t1.root_id() == t0.root_id(),
            t1.children_of(p) == t0.children_of(p).remove(ii),
            t1.children_of(gp) == t0.children_of(gp).insert(
                if after {
                    pi + 1
                } else {
                    pi
                },
                t0.children_of(p)[ii],
            ),
        ensures
            gp != p,
            t0.is_live(p),
            t0.is_desc(p, gp),
            t1.leaves_in(t0.children_of(p)[ii]) == t0.leaves_in(t0.children_of(p)[ii]),
            t1.leaves_of_list(gp, t0.children_of(gp).take(pi)) == t0.leaves_of_list(gp, t0.children_of(gp).take(pi)),
            t1.leaves_of_list(gp, t0.children_of(gp).skip(pi + 1)) == t0.leaves_of_list(
                gp,
                t0.children_of(gp).skip(pi + 1),
            ),
            t1.leaves_of_list(p, t0.children_of(p).take(ii)) == t0.leaves_of_list(p, t0.children_of(p).take(ii)),
            t1.leaves_of_list(p, t0.children_of(p).skip(ii + 1)) == t0.leaves_of_list(
                p,
                t0.children_of(p).skip(ii + 1),
            ),
    {
        let kg = t0.children_of(gp);
        let kp = t0.children_of(p);
        let x = kp[ii];
        let big_a = kg.take(pi);
        let big_b = kg.skip(pi + 1);
        let big_c = kp.take(ii);
        let big_d = kp.skip(ii + 1);
        t0.lemma_child_desc(gp, pi);
        t0.lemma_desc_live(p, gp);
        assert(t0.is_live(p));
        t0.lemma_child_desc(p, ii);
        assert(gp != p) by {
            if gp == p {
                assert(kg.contains(p));
                assert(t0.parent_of(p) == Some(p));
                t0.arena.lemma_desc_unfold(p, p);
                t0.lemma_desc_live(p, p);
            }
        }
        // The moved subtree keeps its windows.
        assert(!t0.is_desc(gp, x)) by {
            if t0.is_desc(gp, x) {
                t0.lemma_desc_trans(gp, x, p);
                t0.lemma_desc_antisym(gp, p);
            }
        }
        assert(kp.contains(x));
        TilingTree::lemma_below_child_kept(t0, t1, p, x, gp);
        Arena::lemma_leaves_frame(t0.arena, t1.arena, x);
        // The siblings of `p` and of `x` keep theirs.
        assert forall|k: int| 0 <= k < pi implies gp == p || !t0.is_desc(p, #[trigger] kg[k]) by {
            t0.arena.lemma_siblings_disjoint(gp, pi, k, p);
            assert(t0.is_desc(p, p)) by {
                reveal_with_fuel(Arena::is_desc, 1);
            }
        }
        assert forall|k: int| pi + 1 <= k < kg.len() implies gp == p || !t0.is_desc(p, #[trigger] kg[k]) by {
            t0.arena.lemma_siblings_disjoint(gp, pi, k, p);
            assert(t0.is_desc(p, p)) by {
                reveal_with_fuel(Arena::is_desc, 1);
            }
        }
        assert forall|k: int| 0 <= k < kp.len() implies p == gp || !t0.is_desc(gp, #[trigger] kp[k]) by {
            if t0.is_desc(gp, kp[k]) {
                t0.lemma_child_desc(p, k);
                t0.lemma_desc_trans(gp, kp[k], p);
                t0.lemma_desc_antisym(gp, p);
            }
        }
        let j: int = if after { pi + 1 } else { pi };
        let kg1 = t1.children_of(gp);
        let kp1 = t1.children_of(p);
        assert(big_a =~= kg.subrange(0, pi));
        assert(big_b =~= kg.subrange(pi + 1, kg.len() as int));
        assert(big_c =~= kp.subrange(0, ii));
        assert(big_d =~= kp.subrange(ii + 1, kp.len() as int));
        assert(t1.is_live(gp) && t1.is_live(p));
        TilingTree::lemma_order_kept_list(t0, t1, gp, big_a, 0, pi, 0, p);
        TilingTree::lemma_order_kept_list(t0, t1, gp, big_b, pi + 1, kg.len() as int, 1, p);
        TilingTree::lemma_order_kept_list(t0, t1, p, big_c, 0, ii, 0, gp);
        TilingTree::lemma_order_kept_list(t0, t1, p, big_d, ii + 1, kp.len() as int, -1, gp);
    }

    /// Moving child `ii` of `p` into the grandparent `gp`, right after (or
    /// before) `p`, moves its windows past those of its later (or earlier)
    /// siblings.
    #[verifier::spinoff_prover]
    #[verifier::rlimit(40)]
    pub(crate) proof fn lemma_expel_order(
        t0: TilingTree,
        t1: TilingTree,
        gp: NodeId,
        p: NodeId,
        pi: int,
        ii: int,
        after: bool,
    )
        requires
            t0.wf(),
            t1.structure_ok(),
            t0.is_live(gp),
            t0.kind_of(gp) is Split,
            t1.kind_of(gp) is Split,
            t0.kind_of(p) is Split,
            t1.kind_of(p) is Split,
            0 <= pi < t0.children_of(gp).len(),
            t0.children_of(gp)[pi] == p,
            0 <= ii < t0.children_of(p).len(),
            forall|y: NodeId|
                #![trigger t1.kind_of(y)]
                t0.is_live(y) ==> t1.is_live(y) && (y != gp && y != p ==> t1.kind_of(y) == t0.kind_of(y)),
            forall|y: NodeId|
                #![trigger t1.children_of(y)]
                t0.is_live(y) && y != gp && y != p ==> t1.children_of(y) == t0.children_of(y),
            t1.root_id() == t0.root_id(),
            t1.children_of(p) == t0.children_of(p).remove(ii),
            t1.children_of(gp) == t0.children_of(gp).insert(
                if after {
                    pi + 1
                } else {
                    pi
                },
                t0.children_of(p)[ii],
            ),
        ensures
            after ==> blocks_swapped(
                t0.leaf_order(),
                t1.leaf_order(),
                t0.leaves_in(t0.children_of(p)[ii]),
                t0.leaves_of_list(p, t0.children_of(p).skip(ii + 1)),
            ),
            !after ==> blocks_swapped(
                t0.leaf_order(),
                t1.leaf_order(),
                t0.leaves_of_list(p, t0.children_of(p).take(ii)),
                t0.leaves_in(t0.children_of(p)[ii]),
            ),
    {
        let kg = t0.children_of(gp);
        let kp = t0.children_of(p);
        let x = kp[ii];
        let big_a = kg.take(pi);
        let big_b = kg.skip(pi + 1);
        let big_c = kp.take(ii);
        let big_d = kp.skip(ii + 1);
        TilingTree::lemma_expel_frames(t0, t1, gp, p, pi, ii, after);
        let (r0, r1) = TilingTree::lemma_order_outside(t0, t1, gp, p);
        TilingTree::lemma_order_one(t0, gp, pi);
        TilingTree::lemma_order_one(t0, p, ii);
        let kg1 = t1.children_of(gp);
        let kp1 = t1.children_of(p);
        assert(t1.is_live(gp) && t1.is_live(p));
        // After.
        TilingTree::lemma_order_pair(t1, gp, pi);
        assert(kg1.take(pi) =~= big_a);
        assert(kg1.skip(pi + 2) =~= big_b);
        assert(kp1 =~= big_c + big_d);
        t1.lemma_leaves_append(p, big_c, big_d);
        assert(t1.leaves_in(p) == t1.leaves_of_list(p, kp1));
        let lc = t0.leaves_of_list(p, big_c);
        let ld = t0.leaves_of_list(p, big_d);
        let lx = t0.leaves_in(x);
        let la = t0.leaves_of_list(gp, big_a);
        let lb = t0.leaves_of_list(gp, big_b);
        assert(kg[pi] == p);
        assert(t1.leaves_in(p) == lc + ld);
        lemma_expel_shape(r0, la, lc, lx, ld, lb, r1);
        if after {
            assert(kg1[pi] == p && kg1[pi + 1] == x);
        } else {
            assert(kg1[pi] == x && kg1[pi + 1] == p);
        }
    }
}

} // verus!
