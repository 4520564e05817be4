//! Structural edits: merging redundant splits, inserting and removing nodes.
use vstd::prelude::*;
use crate::elements::SizingMode;
use super::{
    Arena, FullscreenMode, InsertTarget, Layout, NodeId, NodeKind, PendingMode, TilingTree, count_true, focus_ok, is_plain_split,
    modes_ok, normal_mode, parallel,
};
use super::focus::{lemma_without, without};
use super::focus::layouts_parallel;

verus! {

/// `s` with the entry at `i` replaced by the entries of `g`.
pub open spec fn splice(s: Seq<NodeId>, i: int, g: Seq<NodeId>) -> Seq<NodeId> {
    s.take(i) + g + s.skip(i + 1)
}

/// Copies a child list.
pub(crate) fn copy_ids(src: &Vec<NodeId>) -> (r: Vec<NodeId>)
    ensures
        r@ == src@,
{
    let mut r = Vec::new();
    for i in 0..src.len()
        invariant
            r@ == src@.take(i as int),
    {
        r.push(src[i]);
        assert(src@.take(i + 1) =~= src@.take(i as int).push(src@[i as int]));
    }
    assert(src@.take(src@.len() as int) =~= src@);
    r
}

/// `s` with entry `i` replaced by the entries of `g`.
fn splice_ids(s: &Vec<NodeId>, i: usize, g: &Vec<NodeId>) -> (r: Vec<NodeId>)
    requires
        i < s@.len(),
    ensures
        r@ == splice(s@, i as int, g@),
{
    let mut r = Vec::new();
    for k in 0..i
        invariant
            i < s@.len(),
            r@ == s@.take(k as int),
    {
        r.push(s[k]);
        assert(s@.take(k + 1) =~= s@.take(k as int).push(s@[k as int]));
    }
    for k in 0..g.len()
        invariant
            r@ == s@.take(i as int) + g@.take(k as int),
    {
        r.push(g[k]);
        assert(g@.take(k + 1) =~= g@.take(k as int).push(g@[k as int]));
    }
    assert(g@.take(g@.len() as int) =~= g@);
    let n = s.len();
    for k in i + 1..n
        invariant
            i < n,
            n == s@.len(),
            r@ == s@.take(i as int) + g@ + s@.subrange(i + 1, k as int),
    {
        r.push(s[k]);
        assert(s@.subrange(i + 1, k + 1) =~= s@.subrange(i + 1, k as int).push(s@[k as int]));
    }
    assert(s@.subrange(i + 1, n as int) =~= s@.skip(i + 1));
    r
}

impl Arena {
    /// Squashing keeps the arena well formed: `id` (child of `p` at `idx`) and
    /// its single child `c` die, and the children of `c` take the place of `id`.
    pub(crate) proof fn lemma_squash_arena(a0: Arena, a1: Arena, id: NodeId, p: NodeId, c: NodeId, idx: int)
        requires
            a0.wf(),
            a0.squashable(id),
            a0.parent_of(id) == Some(p),
            c == a0.children_of(id)[0],
            0 <= idx < a0.children_of(p).len(),
            a0.children_of(p)[idx] == id,
            a1.live@ == a0.live@.update(id.0 as int, false).update(c.0 as int, false),
            a1.kinds == a0.kinds,
            a1.depth == a0.depth,
            a1.max_depth == a0.max_depth,
            a1.root == a0.root,
            a1.children@.len() == a0.children@.len(),
            a1.parents@.len() == a0.parents@.len(),
            forall|q: NodeId|
                #![trigger a1.children_of(q)]
                q != p && q.0 < a0.children@.len() ==> a1.children_of(q) == a0.children_of(q),
            a1.children_of(p) == splice(a0.children_of(p), idx, a0.children_of(c)),
            forall|x: NodeId|
                #![trigger a1.parent_of(x)]
                x.0 < a0.parents@.len() ==> a1.parent_of(x) == if a0.children_of(c).contains(x) {
                    Some(p)
                } else {
                    a0.parent_of(x)
                },
        ensures
            a1.wf(),
            forall|x: NodeId| #[trigger] a1.is_live(x) <==> (a0.is_live(x) && x != id && x != c),
    {
        let g = a0.children_of(c);
        let old_kids = a0.children_of(p);
        let new_kids = a1.children_of(p);
        assert(a0.parent_of(id) is Some);
        a0.lemma_child_desc(p, idx);
        a0.lemma_child_desc(id, 0);
        assert(a0.is_live(c) && a0.parent_of(c) == Some(id) && c != id);
        assert(a0.children_of(c).len() > 0);
        assert forall|x: NodeId| #[trigger] a1.is_live(x) <==> (a0.is_live(x) && x != id && x != c) by {
            if x.0 < a0.live@.len() {
                assert(a1.live@[x.0 as int] == (a0.live@[x.0 as int] && x.0 != id.0 && x.0 != c.0));
            }
        }
        assert forall|k: int| 0 <= k < g.len() implies {
            &&& a0.is_live(#[trigger] g[k])
            &&& a0.parent_of(g[k]) == Some(c)
            &&& g[k] != id && g[k] != c && g[k] != p
            &&& !old_kids.contains(g[k])
            &&& a0.depth_of(p) < a0.depth_of(g[k])
        } by {
            a0.lemma_child_desc(c, k);
            if old_kids.contains(g[k]) {
                let j = old_kids.index_of(g[k]);
                a0.lemma_child_desc(p, j);
            }
        }
        // new child list of p
        assert forall|k: int| 0 <= k < new_kids.len() implies {
            &&& a1.is_live(#[trigger] new_kids[k])
            &&& a1.parent_of(new_kids[k]) == Some(p)
        } by {
            if k < idx {
                assert(new_kids[k] == old_kids[k]);
                a0.lemma_child_desc(p, k);
                assert(old_kids[k] != id);
                assert(a0.parent_of(old_kids[k]) == Some(p));
                if g.contains(old_kids[k]) {
                    let j = g.index_of(old_kids[k]);
                    assert(g[j] == old_kids[k]);
                }
            } else if k < idx + g.len() {
                assert(new_kids[k] == g[k - idx]);
                assert(g.contains(g[k - idx]));
            } else {
                let j = k - g.len() + 1;
                assert(new_kids[k] == old_kids[j]);
                a0.lemma_child_desc(p, j);
                assert(old_kids[j] != id);
                if g.contains(old_kids[j]) {
                    let jj = g.index_of(old_kids[j]);
                    assert(g[jj] == old_kids[j]);
                }
            }
        }
        assert(new_kids.no_duplicates()) by {
            assert forall|i: int, j: int|
                0 <= i < new_kids.len() && 0 <= j < new_kids.len() && i != j implies new_kids[i]
                    != new_kids[j] by {
                let oi = if i < idx { i } else { i - g.len() + 1 };
                let oj = if j < idx { j } else { j - g.len() + 1 };
                let gi = i >= idx && i < idx + g.len();
                let gj = j >= idx && j < idx + g.len();
                if gi && gj {
                    assert(new_kids[i] == g[i - idx] && new_kids[j] == g[j - idx]);
                } else if gi {
                    assert(new_kids[j] == old_kids[oj]);
                    assert(old_kids.contains(old_kids[oj]));
                    assert(new_kids[i] == g[i - idx]);
                } else if gj {
                    assert(new_kids[i] == old_kids[oi]);
                    assert(old_kids.contains(old_kids[oi]));
                    assert(new_kids[j] == g[j - idx]);
                } else {
                    assert(new_kids[i] == old_kids[oi] && new_kids[j] == old_kids[oj]);
                }
            }
        }
        // parents
        assert forall|x: NodeId|
            #![trigger a1.parent_of(x)]
            a1.is_live(x) && x != a1.root implies {
                &&& a1.parent_of(x) is Some
                &&& a1.is_live(a1.parent_of(x)->0)
                &&& a1.kind_of(a1.parent_of(x)->0) is Split
                &&& a1.children_of(a1.parent_of(x)->0).contains(x)
                &&& a1.depth_of(a1.parent_of(x)->0) < a1.depth_of(x)
            } by {
            assert(a0.parent_of(x) is Some);
            let q = a0.parent_of(x)->0;
            if g.contains(x) {
                let k = g.index_of(x);
                assert(new_kids[idx + k] == g[k]);
            } else {
                assert(q != c);
                if q == id {
                    assert(a0.children_of(id).contains(x));
                    assert(a0.children_of(id).len() == 1);
                    assert(x == c);
                }
                if q == p {
                    let j = old_kids.index_of(x);
                    assert(old_kids[j] == x);
                    assert(j != idx);
                    if j < idx {
                        assert(new_kids[j] == x);
                    } else {
                        assert(new_kids[j + g.len() - 1] == x);
                    }
                }
            }
        }
        // children of every live node
        assert forall|q: NodeId, i: int|
            #![trigger a1.children_of(q)[i]]
            a1.is_live(q) && 0 <= i < a1.children_of(q).len() implies {
                &&& a1.is_live(a1.children_of(q)[i])
                &&& a1.parent_of(a1.children_of(q)[i]) == Some(q)
            } by {
            if q != p {
                let x = a0.children_of(q)[i];
                a0.lemma_child_desc(q, i);
                assert(x != id) by {
                    if x == id {
                        assert(a0.parent_of(id) == Some(q));
                    }
                }
                assert(x != c) by {
                    if x == c {
                        assert(a0.parent_of(c) == Some(q));
                    }
                }
                if g.contains(x) {
                    let k = g.index_of(x);
                    assert(a0.parent_of(g[k]) == Some(c));
                }
            } else {
                assert(new_kids[i] == a1.children_of(q)[i]);
            }
        }
        assert forall|q: NodeId|
            #![trigger a1.children_of(q)]
            a1.is_live(q) implies {
                &&& a1.children_of(q).no_duplicates()
                &&& (a1.kind_of(q) is Leaf ==> a1.children_of(q).len() == 0)
            } by {
            if q != p {
                assert(a0.children_of(q).no_duplicates());
            }
        }
        assert forall|q: NodeId|
            #![trigger a1.children_of(q)]
            a1.is_live(q) && a1.kind_of(q) is Split && q != a1.root && None::<NodeId> != Some(q)
                implies a1.children_of(q).len() > 0 by {
            if q == p {
                assert(new_kids.len() == old_kids.len() - 1 + g.len());
            } else {
                assert(a0.children_of(q).len() > 0);
            }
        }
        assert forall|x: NodeId| #[trigger] a1.is_live(x) implies a1.depth_of(x) <= a1.max_depth@ by {
            assert(a0.is_live(x));
        }
        assert(a1.wf_parents());
        assert(a1.wf_children());
        assert(a1.wf_depth());
        assert(a1.nonempty_except(None));
    }
}

impl Arena {
    /// Appending a leaf below live split `p` at position `index` keeps the arena well formed.
    pub(crate) proof fn lemma_insert_node_arena(
        a0: Arena,
        a1: Arena,
        p: NodeId,
        id: NodeId,
        kind: NodeKind,
        index: int,
        e0: Option<NodeId>,
    )
        requires
            a0.wf_except(e0),
            e0 is None || e0 == Some(p),
            a0.is_live(p),
            a0.kind_of(p) is Split,
            0 <= index <= a0.children_of(p).len(),
            id.0 == a0.live@.len(),
            a0.live@.len() < usize::MAX,
            a1.live@ == a0.live@.push(true),
            a1.parents@ == a0.parents@.push(Some(p)),
            a1.kinds@ == a0.kinds@.push(kind),
            a1.children@.len() == a0.children@.len() + 1,
            a1.children_of(id) == Seq::<NodeId>::empty(),
            a1.children_of(p) == a0.children_of(p).insert(index, id),
            forall|q: NodeId|
                #![trigger a1.children_of(q)]
                q != p && q.0 < a0.children@.len() ==> a1.children_of(q) == a0.children_of(q),
            a1.depth@ == a0.depth@.push(a0.depth_of(p) + 1),
            a1.max_depth@ == if a0.max_depth@ < a0.depth_of(p) + 1 {
                (a0.depth_of(p) + 1) as nat
            } else {
                a0.max_depth@
            },
            a1.root == a0.root,
        ensures
            a1.wf_except(if kind is Leaf { None } else { Some(id) }),
            forall|x: NodeId| #[trigger] a1.is_live(x) <==> (a0.is_live(x) || x == id),
            forall|x: NodeId| #[trigger] a0.is_live(x) ==> a1.kind_of(x) == a0.kind_of(x),
            a1.kind_of(id) == kind,
            a1.parent_of(id) == Some(p),
    {
        let old_kids = a0.children_of(p);
        let new_kids = a1.children_of(p);
        assert forall|x: NodeId| #[trigger] a1.is_live(x) <==> (a0.is_live(x) || x == id) by {
            if x.0 == id.0 {
                assert(x == id);
            }
        }
        assert forall|x: NodeId| #[trigger] a0.is_live(x) implies a1.kind_of(x) == a0.kind_of(x)
            && a1.parent_of(x) == a0.parent_of(x) && a1.depth_of(x) == a0.depth_of(x) by {}
        assert(!old_kids.contains(id)) by {
            if old_kids.contains(id) {
                let j = old_kids.index_of(id);
                a0.lemma_child_desc(p, j);
            }
        }
        assert forall|k: int| 0 <= k < new_kids.len() implies {
            &&& a1.is_live(#[trigger] new_kids[k])
            &&& a1.parent_of(new_kids[k]) == Some(p)
        } by {
            if k < index {
                assert(new_kids[k] == old_kids[k]);
                a0.lemma_child_desc(p, k);
            } else if k > index {
                assert(new_kids[k] == old_kids[k - 1]);
                a0.lemma_child_desc(p, k - 1);
            }
        }
        assert(new_kids.no_duplicates()) by {
            assert forall|i: int, j: int|
                0 <= i < new_kids.len() && 0 <= j < new_kids.len() && i != j implies new_kids[i]
                    != new_kids[j] by {
                if i == index {
                    if j < index {
                        assert(old_kids.contains(new_kids[j]));
                    } else {
                        assert(new_kids[j] == old_kids[j - 1]);
                        assert(old_kids.contains(old_kids[j - 1]));
                    }
                } else if j == index {
                    if i < index {
                        assert(old_kids.contains(new_kids[i]));
                    } else {
                        assert(new_kids[i] == old_kids[i - 1]);
                        assert(old_kids.contains(old_kids[i - 1]));
                    }
                } else {
                    let oi = if i < index { i } else { i - 1 };
                    let oj = if j < index { j } else { j - 1 };
                    assert(new_kids[i] == old_kids[oi] && new_kids[j] == old_kids[oj]);
                }
            }
        }
        assert forall|x: NodeId|
            #![trigger a1.parent_of(x)]
            a1.is_live(x) && x != a1.root implies {
                &&& a1.parent_of(x) is Some
                &&& a1.is_live(a1.parent_of(x)->0)
                &&& a1.kind_of(a1.parent_of(x)->0) is Split
                &&& a1.children_of(a1.parent_of(x)->0).contains(x)
                &&& a1.depth_of(a1.parent_of(x)->0) < a1.depth_of(x)
            } by {
            if x == id {
                assert(new_kids[index] == id);
            } else {
                assert(a0.parent_of(x) is Some);
                let q = a0.parent_of(x)->0;
                if q == p {
                    let j = old_kids.index_of(x);
                    assert(old_kids[j] == x);
                    if j < index {
                        assert(new_kids[j] == x);
                    } else {
                        assert(new_kids[j + 1] == x);
                    }
                }
            }
        }
        assert forall|q: NodeId, i: int|
            #![trigger a1.children_of(q)[i]]
            a1.is_live(q) && 0 <= i < a1.children_of(q).len() implies {
                &&& a1.is_live(a1.children_of(q)[i])
                &&& a1.parent_of(a1.children_of(q)[i]) == Some(q)
            } by {
            if q != p && q != id {
                a0.lemma_child_desc(q, i);
            } else if q == p {
                assert(new_kids[i] == a1.children_of(q)[i]);
            }
        }
        assert forall|q: NodeId|
            #![trigger a1.children_of(q)]
            a1.is_live(q) implies {
                &&& a1.children_of(q).no_duplicates()
                &&& (a1.kind_of(q) is Leaf ==> a1.children_of(q).len() == 0)
            } by {
            if q != p && q != id {
                assert(a0.children_of(q).no_duplicates());
            }
        }
        let e = if kind is Leaf { None } else { Some(id) };
        assert forall|q: NodeId|
            #![trigger a1.children_of(q)]
            a1.is_live(q) && a1.kind_of(q) is Split && q != a1.root && e != Some(q)
                implies a1.children_of(q).len() > 0 by {
            if q != p && q != id {
                assert(e0 != Some(q));
                assert(a0.children_of(q).len() > 0);
            }
        }
        assert forall|x: NodeId| #[trigger] a1.is_live(x) implies a1.depth_of(x) <= a1.max_depth@ by {
            if x != id {
                assert(a0.is_live(x));
            }
        }
        assert(a1.wf_parents());
        assert(a1.wf_children());
        assert(a1.wf_depth());
        assert(a1.nonempty_except(e));
    }
}

impl TilingTree {
    /// Whether `id` is a split that compaction merges into its parent.
    pub fn is_squashable(&self, id: NodeId) -> (r: bool)
        requires
            self.structure_ok(),
        ensures
            r == self.squashable(id),
    {
        if !self.is_live_exec(id) || id == self.arena.root {
            return false;
        }
        let Some(parent) = self.arena.parents[id.0 as usize] else {
            return false;
        };
        assert(self.parent_of(id) == Some(parent));
        assert(self.is_live(parent));
        let parent_layout = match self.arena.kinds[parent.0 as usize] {
            NodeKind::Split(l) => l,
            NodeKind::Leaf(_) => {
                return false;
            },
        };
        let layout = match self.arena.kinds[id.0 as usize] {
            NodeKind::Split(l) => l,
            NodeKind::Leaf(_) => {
                return false;
            },
        };
        let kids = &self.arena.children[id.0 as usize];
        if kids.len() != 1 {
            return false;
        }
        let child = kids[0];
        proof {
            self.lemma_child_desc(id, 0);
        }
        let child_layout = match self.arena.kinds[child.0 as usize] {
            NodeKind::Split(l) => l,
            NodeKind::Leaf(_) => {
                return false;
            },
        };
        matches!(layout, Layout::SplitH | Layout::SplitV) && matches!(
            child_layout,
            Layout::SplitH | Layout::SplitV
        ) && !layouts_parallel(layout, child_layout) && layouts_parallel(parent_layout, child_layout)
    }

    /// Removes every occurrence of `x` from the focus history.
    pub(crate) fn drop_from_history(&mut self, x: NodeId)
        ensures
            old(self).keeps_titles(*final(self)),
            final(self).history() == without(old(self).history(), x),
            final(self).same_tree(*old(self)),
            final(self).focus == old(self).focus,
    {
        let mut kept: Vec<NodeId> = Vec::new();
        let n = self.focus_history.len();
        let ghost h = self.focus_history@;
        assert(without(h.take(0), x) =~= Seq::<NodeId>::empty());
        for i in 0..n
            invariant
                old(self).keeps_titles(*self),
                n == h.len(),
                h == self.focus_history@,
                kept@ == without(h.take(i as int), x),
        {
            assert(h.take(i + 1).drop_last() =~= h.take(i as int));
            assert(h.take(i + 1).last() == h[i as int]);
            let y = self.focus_history[i];
            if y != x {
                kept.push(y);
            }
        }
        assert(h.take(n as int) =~= h);
        self.focus_history = kept;
    }

    /// Merges squashable split `id` into its parent: its single child and
    /// itself disappear and the grandchildren take its place. A pending
    /// fullscreen of either moves to the parent; a focus on either moves to the
    /// first grandchild.
    fn squash(&mut self, id: NodeId)
        requires
            old(self).wf_but_focus(),
            old(self).squashable(id),
        ensures
            old(self).keeps_titles(*final(self)),
            final(self).wf_but_focus(),
            old(self).wf() ==> final(self).wf(),
            old(self).focus_id() is Some <==> final(self).focus_id() is Some,
            old(self).focus_id() matches Some(f) && old(self).is_live(f) ==> final(self).is_live(final(self).focus_id()->0),
            forall|x: NodeId|
                #[trigger] final(self).is_live(x) <==> (old(self).is_live(x) && x != id && x
                    != old(self).children_of(id)[0]),
            forall|x: NodeId| #[trigger] final(self).is_live(x) ==> final(self).kind_of(x) == old(self).kind_of(x),
            forall|x: NodeId|
                #[trigger] final(self).is_leaf_node(x) ==> final(self).mode_of(x) == old(self).mode_of(x),
            old(self).focus_id() matches Some(f) && f != id && f != old(self).children_of(id)[0]
                ==> final(self).focus_id() == old(self).focus_id(),
            old(self).focus_id() matches Some(f) && !old(self).is_live(f) ==> final(self).focus_id()
                == old(self).focus_id(),
            count_true(final(self).arena.live@) + 2 == count_true(old(self).arena.live@),
            final(self).root_id() == old(self).root_id(),
            final(self).leaf_order() == old(self).leaf_order(),
            forall|x: NodeId|
                #![trigger final(self).parent_of(x)]
                final(self).is_live(x) ==> final(self).parent_of(x) == if old(self).children_of(
                    old(self).children_of(id)[0],
                ).contains(x) {
                    old(self).parent_of(id)
                } else {
                    old(self).parent_of(x)
                },
            forall|x: NodeId|
                #![trigger final(self).children_of(x)]
                final(self).is_live(x) && Some(x) != old(self).parent_of(id) ==> final(self).children_of(x)
                    == old(self).children_of(x),
            final(self).arena.depth == old(self).arena.depth,
            final(self).arena.max_depth == old(self).arena.max_depth,
            forall|x: NodeId, a: NodeId|
                #![trigger final(self).is_desc(x, a)]
                final(self).is_live(x) && final(self).is_live(a) ==> final(self).is_desc(x, a) == old(
                    self,
                ).is_desc(x, a),
            final(self).children_of(old(self).parent_of(id)->0).len() + 1 == old(self).children_of(
                old(self).parent_of(id)->0,
            ).len() + old(self).children_of(old(self).children_of(id)[0]).len(),
    {
        let ghost t0 = *self;
        let ghost a0 = self.arena;
        assert(self.modes@.len() == a0.live@.len());
        assert(self.previous_layouts@.len() == a0.live@.len());
        let p = self.arena.parents[id.0 as usize].unwrap();
        assert(self.parent_of(id) == Some(p));
        let c = self.arena.children[id.0 as usize][0];
        proof {
            self.lemma_child_desc(p, self.children_of(p).index_of(id) as int);
            self.lemma_child_desc(id, 0);
        }
        let g = copy_ids(&self.arena.children[c.0 as usize]);
        let idx = self.index_of_child(p, id);
        let new_kids = splice_ids(&self.arena.children[p.0 as usize], idx, &g);
        self.arena.children.set(p.0 as usize, new_kids);
        let ghost a_mid = self.arena;
        proof {
            assert forall|k: int| 0 <= k < g@.len() implies (#[trigger] g@[k]).0 < self.arena.parents@.len() by {
                a0.lemma_child_desc(c, k);
            }
        }
        for k in 0..g.len()
            invariant
                old(self).keeps_titles(*self),
                self.arena.parents@.len() == a0.parents@.len(),
                a0.parents@.len() <= usize::MAX,
                self.arena.live == a0.live,
                forall|j: int| 0 <= j < g@.len() ==> (#[trigger] g@[j]).0 < self.arena.parents@.len(),
                forall|x: NodeId|
                    #![trigger self.arena.parent_of(x)]
                    x.0 < a0.parents@.len() ==> self.arena.parent_of(x) == if g@.take(k as int).contains(x) {
                        Some(p)
                    } else {
                        a0.parent_of(x)
                    },
                self.arena.children == a_mid.children,
                self.modes == t0.modes,
                self.previous_layouts == t0.previous_layouts,
                self.focus == t0.focus,
                self.focus_history == t0.focus_history,
                self.arena.kinds == a0.kinds,
                self.arena.depth == a0.depth,
                self.arena.max_depth == a0.max_depth,
                self.arena.root == a0.root,
        {
            let ghost before = self.arena;
            self.arena.parents.set(g[k].0 as usize, Some(p));
            assert forall|x: NodeId|
                #![trigger self.arena.parent_of(x)]
                x.0 < a0.parents@.len() implies self.arena.parent_of(x) == if g@.take(k + 1).contains(x) {
                    Some(p)
                } else {
                    a0.parent_of(x)
                } by {
                assert(g@.take(k + 1) =~= g@.take(k as int).push(g@[k as int]));
                let _ = before.parent_of(x);
                if x.0 == g@[k as int].0 {
                    assert(x == g@[k as int]);
                    assert(g@.take(k + 1)[k as int] == x);
                }
                if g@.take(k + 1).contains(x) && !g@.take(k as int).contains(x) {
                    let j = choose|j: int| 0 <= j < k + 1 && #[trigger] g@.take(k + 1)[j] == x;
                    if j < k {
                        assert(g@.take(k as int)[j] == x);
                    }
                }
                if g@.take(k as int).contains(x) {
                    let j = choose|j: int| 0 <= j < k && #[trigger] g@.take(k as int)[j] == x;
                    assert(g@.take(k + 1)[j] == x);
                }
            }
        }
        assert(g@.take(g@.len() as int) =~= g@);
        let ghost a_par = self.arena;
        self.arena.live.set(id.0 as usize, false);
        self.arena.live.set(c.0 as usize, false);
        assert forall|x: NodeId|
            #![trigger self.arena.parent_of(x)]
            x.0 < a0.parents@.len() implies self.arena.parent_of(x) == if a0.children_of(c).contains(x) {
                Some(p)
            } else {
                a0.parent_of(x)
            } by {
            assert(g@.take(g@.len() as int) == a0.children_of(c));
            let _ = a_par.parent_of(x);
        }
        proof {
            Arena::lemma_squash_arena(a0, self.arena, id, p, c, idx as int);
            Arena::lemma_squash_keeps_leaves(a0, self.arena, id, p, c, idx as int);
            Arena::lemma_squash_ancestry(a0, self.arena, id, c);
            lemma_count_update(a0.live@, id.0 as int);
            lemma_count_update(a0.live@.update(id.0 as int, false), c.0 as int);
        }
        // side state
        let fs = match self.modes[id.0 as usize].fullscreen {
            Some(f) => Some(f),
            None => self.modes[c.0 as usize].fullscreen,
        };
        if let Some(f) = fs {
            let mut m = self.modes[p.0 as usize];
            m.fullscreen = Some(f);
            self.modes.set(p.0 as usize, m);
        }
        let normal = PendingMode { fullscreen: None, maximized: false };
        self.modes.set(id.0 as usize, normal);
        self.modes.set(c.0 as usize, normal);
        self.previous_layouts.set(id.0 as usize, None);
        self.previous_layouts.set(c.0 as usize, None);
        let ghost t_modes = *self;
        proof {
            assert(a0.children_of(c).len() > 0);
            a0.lemma_child_desc(c, 0);
        }
        if self.focus == Some(id) || self.focus == Some(c) {
            self.set_focus_id(Some(g[0]));
        }
        self.drop_from_history(id);
        self.drop_from_history(c);
        proof {
            let h0 = t_modes.focus_history@;
            let h1 = self.focus_history@;
            assert(modes_ok(self.arena, self.modes@, self.previous_layouts@)) by {
                assert forall|x: NodeId|
                    #![trigger self.modes@[x.0 as int]]
                    x.0 < self.arena.live@.len() implies {
                        &&& (!self.arena.is_live(x) ==> self.modes@[x.0 as int] == normal_mode()
                            && self.previous_layouts@[x.0 as int] is None)
                        &&& (self.arena.is_live(x) && self.arena.kind_of(x) is Split
                            ==> !self.modes@[x.0 as int].maximized)
                    } by {
                    assert(t0.mode_of(x) == t0.modes@[x.0 as int]);
                }
            }
            assert forall|x: NodeId| #[trigger] self.arena.is_leaf(x) <==> a0.is_leaf(x) by {}
            assert(self.arena.has_leaf() == a0.has_leaf()) by {
                if a0.has_leaf() {
                    let x = choose|x: NodeId| a0.is_leaf(x);
                    assert(self.arena.is_leaf(x));
                }
                if self.arena.has_leaf() {
                    let x = choose|x: NodeId| self.arena.is_leaf(x);
                    assert(a0.is_leaf(x));
                }
            }
            let ha = t_modes.focus_history@;
            let hb = if t0.focus == Some(id) || t0.focus == Some(c) {
                seq![g@[0]] + without(ha, g@[0])
            } else {
                ha
            };
            lemma_without(ha, g@[0]);
            assert(hb.no_duplicates() && forall|i: int| 0 <= i < hb.len() ==> self.arena.is_live(#[trigger] hb[i])
                || hb[i] == id || hb[i] == c) by {
                if t0.focus == Some(id) || t0.focus == Some(c) {
                    let w = without(ha, g@[0]);
                    assert forall|i: int, j: int|
                        0 <= i < hb.len() && 0 <= j < hb.len() && i != j implies hb[i] != hb[j] by {
                        if i == 0 {
                            assert(w.contains(hb[j]));
                        } else if j == 0 {
                            assert(w.contains(hb[i]));
                        } else {
                            assert(hb[i] == w[i - 1] && hb[j] == w[j - 1]);
                        }
                    }
                    assert forall|i: int| 0 <= i < hb.len() implies self.arena.is_live(#[trigger] hb[i])
                        || hb[i] == id || hb[i] == c by {
                        if i > 0 {
                            assert(w.contains(hb[i]));
                            let k = choose|k: int| 0 <= k < ha.len() && ha[k] == hb[i];
                            assert(a0.is_live(ha[k]));
                        }
                    }
                } else {
                    assert forall|i: int| 0 <= i < hb.len() implies self.arena.is_live(#[trigger] hb[i])
                        || hb[i] == id || hb[i] == c by {
                        assert(a0.is_live(ha[i]));
                    }
                }
            }
            lemma_without(hb, id);
            lemma_without(without(hb, id), c);
            assert(h1 == without(without(hb, id), c));
            assert forall|i: int| 0 <= i < h1.len() implies #[trigger] self.arena.is_live(h1[i]) by {
                assert(h1.contains(h1[i]));
                assert(without(hb, id).contains(h1[i]));
                assert(hb.contains(h1[i]));
                let k = choose|k: int| 0 <= k < hb.len() && #[trigger] hb[k] == h1[i];
            }
            if t0.wf() {
                assert(focus_ok(self.arena, self.focus, h1));
            }
        }
        proof {
            self.lemma_leaf_order();
            t0.lemma_leaf_order();
        }
    }

    /// The first node of `order` that is squashable.
    fn first_squashable(&self, order: &Vec<NodeId>) -> (r: Option<NodeId>)
        requires
            self.structure_ok(),
        ensures
            r matches Some(id) ==> self.squashable(id),
            r is None ==> forall|j: int| 0 <= j < order@.len() ==> !self.squashable(#[trigger] order@[j]),
    {
        for i in 0..order.len()
            invariant
                self.structure_ok(),
                forall|j: int| 0 <= j < i ==> !self.squashable(#[trigger] order@[j]),
        {
            if self.is_squashable(order[i]) {
                return Some(order[i]);
            }
        }
        None
    }

    /// Squashes redundant splits until none is left, always taking the first
    /// squashable node in depth-first pre-order.
    /// A child of a live node is live and names it as its parent.
    pub(crate) proof fn lemma_child_live(self, p: NodeId, i: int)
        requires
            self.arena.wf_core(),
            self.is_live(p),
            0 <= i < self.children_of(p).len(),
        ensures
            self.is_live(self.children_of(p)[i]),
            self.parent_of(self.children_of(p)[i]) == Some(p),
    {
        assert(self.children_of(p).contains(self.children_of(p)[i]));
    }

    /// A split with two or more children whose parent has two or more
    /// children is kept by a squash, and so are both counts.
    proof fn lemma_squash_keeps_wide(before: Self, after: Self, id: NodeId, w: NodeId)
        requires
            before.wf_but_focus(),
            before.squashable(id),
            forall|y: NodeId|
                #[trigger] after.is_live(y) <==> (before.is_live(y) && y != id && y != before.children_of(id)[0]),
            forall|y: NodeId|
                #![trigger after.parent_of(y)]
                after.is_live(y) ==> after.parent_of(y) == if before.children_of(before.children_of(id)[0]).contains(
                    y,
                ) {
                    before.parent_of(id)
                } else {
                    before.parent_of(y)
                },
            forall|y: NodeId|
                #![trigger after.children_of(y)]
                after.is_live(y) && Some(y) != before.parent_of(id) ==> after.children_of(y) == before.children_of(y),
            after.children_of(before.parent_of(id)->0).len() + 1 == before.children_of(before.parent_of(id)->0).len()
                + before.children_of(before.children_of(id)[0]).len(),
            before.is_live(w),
            before.children_of(w).len() >= 2,
            before.parent_of(w) is Some,
            before.children_of(before.parent_of(w)->0).len() >= 2,
        ensures
            after.is_live(w),
            after.children_of(w).len() >= 2,
            after.parent_of(w) is Some,
            after.children_of(after.parent_of(w)->0).len() >= 2,
    {
        let c = before.children_of(id)[0];
        let p = before.parent_of(id)->0;
        let q = before.parent_of(w)->0;
        before.lemma_child_live(id, 0);
        assert(before.parent_of(id) is Some);
        assert(before.is_live(p));
        assert(before.children_of(p).contains(id));
        assert(before.children_of(p).len() >= 1);
        assert(before.children_of(c).len() >= 1) by {
            before.arena.lemma_child_desc(id, 0);
        }
        assert(w != id);
        assert(w != c) by {
            if w == c {
                assert(q == id);
            }
        }
        assert(after.is_live(w));
        if before.children_of(c).contains(w) {
            let k = before.children_of(c).index_of(w);
            before.lemma_child_live(c, k);
            assert(q == c);
            assert(after.parent_of(w) == Some(p));
        } else {
            assert(after.parent_of(w) == Some(q));
            if q != p {
                assert(before.is_live(q));
                assert(q != id);
                assert(q != c) by {
                    if q == c {
                        assert(before.children_of(q).contains(w));
                    }
                }
                assert(after.is_live(q));
            }
        }
    }

    /// A child of the root whose only child is a window is kept, with its
    /// links, by a squash.
    proof fn lemma_squash_keeps_lone_leaf_parent(before: Self, after: Self, id: NodeId, x: NodeId)
        requires
            before.wf_but_focus(),
            before.squashable(id),
            forall|y: NodeId|
                #[trigger] after.is_live(y) <==> (before.is_live(y) && y != id && y != before.children_of(id)[0]),
            forall|y: NodeId|
                #![trigger after.parent_of(y)]
                after.is_live(y) ==> after.parent_of(y) == if before.children_of(before.children_of(id)[0]).contains(
                    y,
                ) {
                    before.parent_of(id)
                } else {
                    before.parent_of(y)
                },
            forall|y: NodeId|
                #![trigger after.children_of(y)]
                after.is_live(y) && Some(y) != before.parent_of(id) ==> after.children_of(y) == before.children_of(y),
            before.is_live(x),
            before.parent_of(x) == Some(before.root_id()),
            before.children_of(x).len() == 1,
            before.kind_of(before.children_of(x)[0]) is Leaf,
        ensures
            after.is_live(x),
            after.parent_of(x) == before.parent_of(x),
            after.children_of(x) == before.children_of(x),
    {
        let c = before.children_of(id)[0];
        assert(x != id);
        before.arena.lemma_child_desc(id, 0);
        before.arena.lemma_desc_unfold(c, id);
        assert(before.parent_of(c) == Some(id)) by {
            before.lemma_child_live(id, 0);
        }
        assert(x != c);
        assert(after.is_live(x));
        assert(!before.children_of(c).contains(x)) by {
            if before.children_of(c).contains(x) {
                let k = before.children_of(c).index_of(x);
                before.arena.lemma_child_desc(c, k);
                before.lemma_child_live(c, k);
            }
        }
        assert(before.parent_of(id) != Some(x)) by {
            if before.parent_of(id) == Some(x) {
                before.lemma_child_live(x, 0);
                assert(before.children_of(x).contains(id));
                assert(before.children_of(x)[0] == id);
            }
        }
    }

    pub(crate) fn compact_tree(&mut self)
        requires
            old(self).wf_but_focus(),
        ensures
            old(self).keeps_titles(*final(self)),
            final(self).wf_but_focus(),
            old(self).wf() ==> final(self).wf(),
            old(self).focus_id() is Some <==> final(self).focus_id() is Some,
            old(self).focus_id() matches Some(f) && old(self).is_live(f) ==> final(self).is_live(final(self).focus_id()->0),
            forall|x: NodeId| #[trigger] final(self).is_live(x) ==> !final(self).squashable(x),
            forall|x: NodeId|
                #[trigger] final(self).is_live(x) ==> old(self).is_live(x) && final(self).kind_of(x)
                    == old(self).kind_of(x),
            forall|x: NodeId|
                #[trigger] old(self).is_leaf_node(x) ==> final(self).is_leaf_node(x)
                    && final(self).mode_of(x) == old(self).mode_of(x),
            old(self).focus_id() matches Some(f) && final(self).is_live(f) ==> final(self).focus_id()
                == old(self).focus_id(),
            old(self).focus_id() matches Some(f) && !old(self).is_live(f) ==> final(self).focus_id()
                == old(self).focus_id(),
            final(self).root_id() == old(self).root_id(),
            final(self).leaf_order() == old(self).leaf_order(),
            forall|x: NodeId, a: NodeId|
                #![trigger final(self).is_desc(x, a)]
                final(self).is_live(x) && final(self).is_live(a) ==> final(self).is_desc(x, a) == old(
                    self,
                ).is_desc(x, a),
            forall|w: NodeId|
                #![trigger old(self).children_of(w)]
                old(self).is_live(w) && old(self).children_of(w).len() >= 2 && old(self).parent_of(w) is Some
                    && old(self).children_of(old(self).parent_of(w)->0).len() >= 2 ==> final(self).is_live(w),
            forall|x: NodeId|
                #![trigger old(self).children_of(x)]
                old(self).is_live(x) && old(self).parent_of(x) == Some(old(self).root_id()) && old(self).children_of(
                    x,
                ).len() == 1 && old(self).kind_of(old(self).children_of(x)[0]) is Leaf ==> final(self).is_live(x)
                    && final(self).parent_of(x) == old(self).parent_of(x) && final(self).children_of(x) == old(
                    self,
                ).children_of(x),
    {
        let ghost t0 = *self;
        loop
            invariant
                old(self).keeps_titles(*self),
                forall|w: NodeId|
                    #![trigger t0.children_of(w)]
                    t0.is_live(w) && t0.children_of(w).len() >= 2 && t0.parent_of(w) is Some && t0.children_of(
                        t0.parent_of(w)->0,
                    ).len() >= 2 ==> self.is_live(w) && self.children_of(w).len() >= 2 && self.parent_of(w) is Some
                        && self.children_of(self.parent_of(w)->0).len() >= 2,
                forall|x: NodeId|
                    #![trigger t0.children_of(x)]
                    t0.is_live(x) && t0.parent_of(x) == Some(t0.root_id()) && t0.children_of(x).len() == 1
                        && t0.kind_of(t0.children_of(x)[0]) is Leaf ==> self.is_live(x) && self.parent_of(x)
                        == t0.parent_of(x) && self.children_of(x) == t0.children_of(x),
                self.leaf_order() == t0.leaf_order(),
                forall|x: NodeId, a: NodeId|
                    #![trigger self.is_desc(x, a)]
                    self.is_live(x) && self.is_live(a) ==> self.is_desc(x, a) == t0.is_desc(x, a),
                self.wf_but_focus(),
                t0.wf() ==> self.wf(),
                t0.focus_id() is Some <==> self.focus_id() is Some,
                t0.focus_id() matches Some(f) && t0.is_live(f) ==> self.is_live(self.focus_id()->0),
                t0 == *old(self),
                forall|x: NodeId|
                    #[trigger] self.is_live(x) ==> t0.is_live(x) && self.kind_of(x) == t0.kind_of(x),
                forall|x: NodeId|
                    #[trigger] t0.is_leaf_node(x) ==> self.is_leaf_node(x) && self.mode_of(x)
                        == t0.mode_of(x),
                t0.focus_id() matches Some(f) && self.is_live(f) ==> self.focus_id() == t0.focus_id(),
                t0.focus_id() matches Some(f) && !t0.is_live(f) ==> self.focus_id() == t0.focus_id(),
                self.root_id() == t0.root_id(),
            decreases count_true(self.arena.live@),
        {
            let order = self.iter_depth_first();
            let found = self.first_squashable(&order);
            match found {
                None => {
                    proof {
                        self.lemma_preorder_root();
                        assert forall|x: NodeId| #[trigger] self.is_live(x) implies !self.squashable(x) by {
                            assert(self.preorder(self.root_id()).contains(x));
                            let j = choose|j: int| 0 <= j < order@.len() && order@[j] == x;
                            assert(!self.squashable(order@[j]));
                        }
                    }
                    return;
                },
                Some(id) => {
                    let ghost before = *self;
                    proof {
                        assert(self.squashable(id));
                    }
                    let ghost c = self.children_of(id)[0];
                    self.squash(id);
                    proof {
                        assert forall|x: NodeId| #[trigger] t0.is_leaf_node(x) implies self.is_leaf_node(x)
                            && self.mode_of(x) == t0.mode_of(x) by {
                            assert(before.is_leaf_node(x));
                            assert(before.arena.is_live(x));
                            assert(x != id && x != c);
                            assert(self.is_live(x));
                        }
                        assert forall|x: NodeId| #[trigger] self.is_live(x) implies t0.is_live(x)
                            && self.kind_of(x) == t0.kind_of(x) by {
                            assert(before.is_live(x));
                        }
                        assert forall|x: NodeId|
                            #![trigger t0.children_of(x)]
                            t0.is_live(x) && t0.parent_of(x) == Some(t0.root_id()) && t0.children_of(x).len() == 1
                                && t0.kind_of(t0.children_of(x)[0]) is Leaf implies self.is_live(x)
                                && self.parent_of(x) == t0.parent_of(x) && self.children_of(x)
                                == t0.children_of(x) by {
                            assert(before.children_of(x) == t0.children_of(x));
                            before.lemma_child_live(x, 0);
                            TilingTree::lemma_squash_keeps_lone_leaf_parent(before, *self, id, x);
                        }
                        assert forall|w: NodeId|
                            #![trigger t0.children_of(w)]
                            t0.is_live(w) && t0.children_of(w).len() >= 2 && t0.parent_of(w) is Some && t0.children_of(
                                t0.parent_of(w)->0,
                            ).len() >= 2 implies self.is_live(w) && self.children_of(w).len() >= 2
                                && self.parent_of(w) is Some && self.children_of(self.parent_of(w)->0).len() >= 2 by {
                            TilingTree::lemma_squash_keeps_wide(before, *self, id, w);
                        }
                        assert forall|x: NodeId, a: NodeId|
                            #![trigger self.is_desc(x, a)]
                            self.is_live(x) && self.is_live(a) implies self.is_desc(x, a) == t0.is_desc(x, a) by {
                            assert(before.is_live(x) && before.is_live(a));
                            assert(self.is_desc(x, a) == before.is_desc(x, a));
                        }
                        if let Some(f) = t0.focus_id() {
                            if self.is_live(f) {
                                assert(before.is_live(f));
                            }
                        }
                    }
                },
            }
        }
    }

    /// The split a new leaf goes into for insertion target `target`: the
    /// parent of the target node, or the root.
    pub open spec fn insert_parent(self, target: Option<NodeId>) -> NodeId {
        match target {
            Some(t) => if self.is_live(t) && self.parent_of(t) is Some {
                self.parent_of(t)->0
            } else {
                self.root_id()
            },
            None => self.root_id(),
        }
    }

    /// The position a new leaf takes among the children of `parent`: right
    /// after the target when the target is a child of `parent`, else last.
    pub open spec fn insert_index(self, target: Option<NodeId>, parent: NodeId) -> int {
        match target {
            Some(t) => if self.is_live(t) && self.parent_of(t) == Some(parent) {
                self.children_of(parent).index_of(t) + 1
            } else {
                self.children_of(parent).len() as int
            },
            None => self.children_of(parent).len() as int,
        }
    }

    /// Leaf `id` is the only child of a split with layout `layout` that is a
    /// child of the root.
    pub open spec fn wrapped_at_top(self, id: NodeId, layout: Layout) -> bool {
        self.parent_of(id) matches Some(w) && w != self.root_id() && self.kind_of(w) == NodeKind::Split(layout)
            && self.children_of(w) == seq![id] && self.parent_of(w) == Some(self.root_id())
    }

    /// The pending mode a new leaf gets from its window's sizing mode.
    pub open spec fn initial_mode(mode: SizingMode) -> PendingMode {
        PendingMode {
            fullscreen: if mode == SizingMode::Fullscreen {
                Some(FullscreenMode::Workspace)
            } else {
                None
            },
            maximized: mode == SizingMode::Maximized,
        }
    }

    /// Where a leaf added next to `target` lands in the order of the leaves.
    proof fn lemma_add_order(t0: TilingTree, a1: Arena, parent: NodeId, id: NodeId, index: int, target: Option<NodeId>)
        requires
            t0.wf(),
            a1.wf(),
            parent == t0.insert_parent(target),
            index == t0.insert_index(target, parent),
            id.0 == t0.arena.live@.len(),
            forall|x: NodeId| #[trigger] a1.is_live(x) <==> (t0.arena.is_live(x) || x == id),
            forall|x: NodeId| #[trigger] t0.arena.is_live(x) ==> a1.kind_of(x) == t0.arena.kind_of(x),
            a1.kind_of(id) is Leaf,
            a1.children_of(parent) == t0.arena.children_of(parent).insert(index, id),
            forall|q: NodeId|
                #![trigger a1.children_of(q)]
                q != parent && q.0 < t0.arena.children@.len() ==> a1.children_of(q) == t0.arena.children_of(q),
            a1.root == t0.arena.root,
        ensures
            a1.leaves_in(a1.root) == t0.leaves_after_adding(target, id),
    {
        reveal(TilingTree::leaf_order);
        let a0 = t0.arena;
        assert(a0.is_live(parent));
        assert(a0.kind_of(parent) is Split);
        assert(0 <= index <= a0.children_of(parent).len()) by {
            if let Some(t) = target {
                if t0.is_live(t) && t0.parent_of(t) == Some(parent) {
                    assert(a0.children_of(parent).contains(t));
                }
            }
        }
        assert(!a0.is_live(id));
        assert forall|q: NodeId|
            #![trigger a1.children_of(q)]
            q != parent && a0.is_live(q) implies a1.children_of(q) == a0.children_of(q) by {
            assert(q.0 < a0.children@.len());
        }
        assert forall|x: NodeId| #![trigger a1.kind_of(x)] a0.is_live(x) implies a1.kind_of(x) == a0.kind_of(x) by {
        }
        let pos = Arena::lemma_insert_leaf_order(a0, a1, parent, id, index);
        let all = a0.leaves_in(a0.root);
        if let Some(t) = target {
            if t0.is_live(t) && t0.parent_of(t) is Some {
                assert(parent == t0.parent_of(t)->0);
                assert(a0.children_of(parent).contains(t));
                assert(index == a0.children_of(parent).index_of(t) + 1);
                assert(a0.children_of(parent)[index - 1] == t);
                assert(t != t0.root_id());
                t0.lemma_leaf_below(t);
            } else {
                assert(a1.leaves_in(a0.root) =~= all.push(id));
            }
        } else {
            assert(a1.leaves_in(a0.root) =~= all.push(id));
        }
    }

    /// The node a new leaf is added next to.
    pub open spec fn resolve_target(self, target: InsertTarget) -> Option<NodeId> {
        match target {
            InsertTarget::Focused => self.focus_id(),
            InsertTarget::Node(n) => Some(n),
        }
    }

    /// The depth-first order of the leaves once leaf `id` is added next to
    /// `target`: right after the last leaf below the target when the target
    /// is a live node other than the root, else last.
    pub open spec fn leaves_after_adding(self, target: Option<NodeId>, id: NodeId) -> Seq<NodeId> {
        let all = self.leaf_order();
        match target {
            Some(t) => if self.is_live(t) && self.parent_of(t) is Some {
                all.insert(all.index_of(self.leaves_in(t).last()) + 1, id)
            } else {
                all.push(id)
            },
            None => all.push(id),
        }
    }

    /// `new` holds the windows of `self` in the same leaves, plus a new leaf
    /// `id`, in a slot never used before, holding `window` with the pending
    /// mode that `mode` asks for.
    pub open spec fn leaf_added(self, new: Self, window: u64, id: NodeId, mode: SizingMode) -> bool {
        &&& id.0 == self.slot_count()
        &&& new.is_leaf_node(id)
        &&& new.window_of(id) == window
        &&& new.mode_of(id) == TilingTree::initial_mode(mode)
        &&& forall|x: NodeId|
            #[trigger] self.is_leaf_node(x) ==> new.is_leaf_node(x) && new.kind_of(x) == self.kind_of(x)
                && new.mode_of(x) == self.mode_of(x)
        &&& forall|x: NodeId| #[trigger] new.is_leaf_node(x) ==> self.is_leaf_node(x) || x == id
    }

    /// Adds a leaf holding `window` next to the insertion target (after the
    /// focused node, or after a given node, within its parent; at the end of
    /// the root otherwise), then compacts the tree. With `activate`, or when
    /// nothing was focused, the new leaf takes the focus; otherwise it becomes
    /// the second entry of the focus history and the focus stays.
    #[verifier::spinoff_prover]
    #[verifier::rlimit(100)]
    pub fn add_tile(
        &mut self,
        window: u64,
        target: InsertTarget,
        activate: bool,
        mode: SizingMode,
        workspace_layout: Option<Layout>,
    ) -> (id: NodeId)
        requires
            old(self).wf(),
            old(self).slot_count() + 1 < usize::MAX,
        ensures
            old(self).keeps_titles(*final(self)),
            final(self).wf(),
            old(self).leaf_added(*final(self), window, id, mode),
            activate || old(self).focus_id() is None ==> final(self).focus_id() == Some(id),
            !activate ==> (old(self).focus_id() matches Some(f) && final(self).is_live(f)
                ==> final(self).focus_id() == old(self).focus_id()),
            final(self).root_id() == old(self).root_id(),
            final(self).leaf_order() == old(self).leaves_after_adding(old(self).resolve_target(target), id),
            old(self).insert_parent(old(self).resolve_target(target)) == old(self).root_id()
                && workspace_layout is Some ==> final(self).wrapped_at_top(id, workspace_layout->0),
    {
        let ghost t0 = *self;
        let ghost a0 = self.arena;
        let ghost resolved = t0.resolve_target(target);
        let previous_focus = self.focus;
        let target = match target {
            InsertTarget::Focused => self.focus,
            InsertTarget::Node(n) => Some(n),
        };
        let root = self.arena.root;
        let parent = match target {
            Some(t) => if self.is_live_exec(t) {
                match self.arena.parents[t.0 as usize] {
                    Some(p) => p,
                    None => root,
                }
            } else {
                root
            },
            None => root,
        };
        assert(parent == self.insert_parent(target));
        proof {
            if parent != root {
                assert(self.parent_of(target->0) is Some);
            }
        }
        let kids_len = self.arena.children[parent.0 as usize].len();
        let index: usize = match target {
            Some(t) => if self.is_live_exec(t) && self.arena.parents[t.0 as usize] == Some(parent) {
                proof {
                    assert(self.parent_of(t) == Some(parent));
                    assert(t != self.root_id());
                }
                self.index_of_child(parent, t) + 1
            } else {
                kids_len
            },
            None => kids_len,
        };
        assert(index == self.insert_index(target, parent));
        let id = NodeId(self.arena.live.len() as u64);
        self.arena.live.push(true);
        self.arena.parents.push(Some(parent));
        self.arena.kinds.push(NodeKind::Leaf(window));
        self.arena.children.push(Vec::new());
        self.arena.children[parent.0 as usize].insert(index, id);
        let ghost d = a0.depth_of(parent) + 1;
        self.arena.depth = Ghost(a0.depth@.push(d));
        self.arena.max_depth = Ghost(if a0.max_depth@ < d { d } else { a0.max_depth@ });
        proof {
            assert(self.arena.children_of(id) =~= Seq::<NodeId>::empty());
            assert forall|q: NodeId|
                #![trigger self.arena.children_of(q)]
                q != parent && q.0 < a0.children@.len() implies self.arena.children_of(q) == a0.children_of(q) by {}
            Arena::lemma_insert_node_arena(a0, self.arena, parent, id, NodeKind::Leaf(window), index as int, None);
            TilingTree::lemma_add_order(t0, self.arena, parent, id, index as int, resolved);
        }
        let ghost t_ins = *self;
        proof {
            t_ins.lemma_leaf_order();
        }
        let m = if !mode.is_normal() {
            PendingMode {
                fullscreen: if mode.is_fullscreen() {
                    Some(FullscreenMode::Workspace)
                } else {
                    None
                },
                maximized: mode.is_maximized(),
            }
        } else {
            PendingMode { fullscreen: None, maximized: false }
        };
        self.modes.push(m);
        self.previous_layouts.push(None);
        let ghost t1 = *self;
        proof {
            t1.lemma_leaf_order();
        }
        proof {
            assert(modes_ok(self.arena, self.modes@, self.previous_layouts@)) by {
                assert forall|x: NodeId|
                    #![trigger self.modes@[x.0 as int]]
                    x.0 < self.arena.live@.len() implies {
                        &&& (!self.arena.is_live(x) ==> self.modes@[x.0 as int] == normal_mode()
                            && self.previous_layouts@[x.0 as int] is None)
                        &&& (self.arena.is_live(x) && self.arena.kind_of(x) is Split
                            ==> !self.modes@[x.0 as int].maximized)
                    } by {
                    if x.0 < a0.live@.len() {
                        assert(t0.mode_of(x) == t0.modes@[x.0 as int]);
                        assert(a0.is_live(x) == self.arena.is_live(x));
                    } else {
                        assert(x == id);
                    }
                }
            }
            assert(self.arena.is_leaf(id));
            assert forall|i: int| 0 <= i < self.focus_history@.len() implies #[trigger] self.arena.is_live(
                self.focus_history@[i],
            ) by {
                assert(a0.is_live(t0.focus_history@[i]));
            }
        }
        if activate {
            self.focus_node(Some(id));
        } else if let Some(prev) = previous_focus {
            proof {
                lemma_without(self.focus_history@, id);
                assert(!self.focus_history@.contains(id)) by {
                    if self.focus_history@.contains(id) {
                        let k = choose|k: int| 0 <= k < self.focus_history@.len() && self.focus_history@[k] == id;
                        assert(a0.is_live(t0.focus_history@[k]));
                    }
                }
            }
            self.drop_from_history(id);
            let at = if self.focus_history.len() < 1 {
                self.focus_history.len()
            } else {
                1
            };
            let ghost h = self.focus_history@;
            self.focus_history.insert(at, id);
            self.focus = Some(prev);
            proof {
                let nh = self.focus_history@;
                assert(nh == h.insert(at as int, id));
                assert(!h.contains(id));
                assert(nh.no_duplicates()) by {
                    assert forall|i: int, j: int|
                        0 <= i < nh.len() && 0 <= j < nh.len() && i != j implies nh[i] != nh[j] by {
                        if i == at {
                            if j < at { assert(h.contains(nh[j])); } else { assert(nh[j] == h[j - 1]); assert(h.contains(h[j - 1])); }
                        } else if j == at {
                            if i < at { assert(h.contains(nh[i])); } else { assert(nh[i] == h[i - 1]); assert(h.contains(h[i - 1])); }
                        } else {
                            let oi = if i < at { i } else { i - 1 };
                            let oj = if j < at { j } else { j - 1 };
                            assert(nh[i] == h[oi] && nh[j] == h[oj]);
                        }
                    }
                }
                assert forall|i: int| 0 <= i < nh.len() implies #[trigger] self.arena.is_live(nh[i]) by {
                    if i < at {
                        assert(nh[i] == h[i]);
                    } else if i > at {
                        assert(nh[i] == h[i - 1]);
                    }
                }
                assert(self.arena.has_leaf());
                assert(a0.is_live(prev));
                assert(focus_ok(self.arena, self.focus, nh));
            }
        } else {
            self.focus_node(Some(id));
        }
        let ghost t2 = *self;
        assert(t2.arena == t1.arena && t2.modes == t1.modes);
        assert(t2.parent_of(id) == Some(parent));
        let ghost mut wrapper = id;
        if parent == root {
            if let Some(layout) = workspace_layout {
                proof {
                    assert(t2.is_live(id));
                    assert(id != t2.root_id());
                }
                let w = self.wrap_node(id, layout);
                proof {
                    wrapper = w;
                }
            }
        }
        let ghost t3 = *self;
        proof {
            assert(t2.is_leaf_node(id));
            assert(t3.is_leaf_node(id));
            assert forall|x: NodeId| #[trigger] t3.is_leaf_node(x) == t2.is_leaf_node(x)
                && (t2.is_live(x) ==> t3.kind_of(x) == t2.kind_of(x) && t3.mode_of(x) == t2.mode_of(x)) by {}
        }
        proof {
            t2.lemma_leaf_order();
            t1.lemma_leaf_order();
        }
        assert(t_ins.leaf_order() == t0.leaves_after_adding(resolved, id));
        assert(t1.leaf_order() == t_ins.leaf_order());
        assert(t2.leaf_order() == t1.leaf_order());
        assert(t3.leaf_order() == t2.leaf_order());
        self.compact_tree();
        assert(self.leaf_order() == t3.leaf_order());
        assert(self.leaf_order() == t0.leaves_after_adding(resolved, id));
        proof {
            if parent == root && workspace_layout is Some {
                assert(t3.children_of(wrapper) == seq![id]);
                assert(t3.parent_of(wrapper) == Some(root));
                assert(t3.kind_of(t3.children_of(wrapper)[0]) is Leaf);
                assert(self.children_of(wrapper) == seq![id]);
                assert(self.is_live(wrapper));
                assert(self.kind_of(wrapper) == t3.kind_of(wrapper));
                self.lemma_child_live(wrapper, 0);
            }
        }
        proof {
            assert(t2.is_leaf_node(id));
            assert(t2.kind_of(id) == NodeKind::Leaf(window));
            assert(self.is_live(id));
            assert(self.kind_of(id) == t3.kind_of(id));
            assert forall|x: NodeId| #[trigger] t0.is_leaf_node(x) implies self.is_leaf_node(x)
                && self.kind_of(x) == t0.kind_of(x) && self.mode_of(x) == t0.mode_of(x) by {
                assert(a0.is_leaf(x));
                assert(a0.is_live(x));
                assert(t1.arena.is_live(x));
                assert(t1.arena.kind_of(x) == a0.kind_of(x));
                assert(t1.modes@[x.0 as int] == t0.modes@[x.0 as int]);
                assert(t2.is_leaf_node(x));
                assert(t2.mode_of(x) == t0.mode_of(x));
                assert(t3.is_leaf_node(x));
                assert(self.is_leaf_node(x));
                assert(self.is_live(x));
                assert(self.kind_of(x) == t3.kind_of(x));
            }
            assert forall|x: NodeId| #[trigger] self.is_leaf_node(x) implies t0.is_leaf_node(x) || x == id by {
                assert(self.is_live(x));
                assert(t3.is_live(x));
                assert(t3.is_leaf_node(x));
                assert(t2.is_leaf_node(x));
                assert(t2.is_live(x));
                assert(t1.arena.is_live(x));
                if x != id {
                    assert(a0.is_live(x));
                    assert(t1.arena.kind_of(x) == a0.kind_of(x));
                }
            }
        }
        id
    }

    /// Adds a leaf holding `window` right after the leaf of window `right_of`
    /// (see `add_tile`); nothing happens when no leaf holds `right_of`.
    pub fn add_tile_right_of(
        &mut self,
        right_of: u64,
        window: u64,
        activate: bool,
        mode: SizingMode,
        workspace_layout: Option<Layout>,
    ) -> (r: Option<NodeId>)
        requires
            old(self).wf(),
            old(self).slot_count() + 1 < usize::MAX,
        ensures
            old(self).keeps_titles(*final(self)),
            final(self).wf(),
            old(self).node_for_window_spec(right_of) is None ==> r is None && *final(self) == *old(self),
            old(self).node_for_window_spec(right_of) matches Some(t) ==> (r matches Some(id) && old(self).leaf_added(
                *final(self),
                window,
                id,
                mode,
            ) && final(self).leaf_order() == old(self).leaves_after_adding(Some(t), id)),
    {
        let target = self.node_for_window(right_of)?;
        Some(self.add_tile(window, InsertTarget::Node(target), activate, mode, workspace_layout))
    }

    /// Adds a leaf holding `window` next to node `subtree` (see `add_tile`);
    /// nothing happens when `subtree` is not in the tree.
    pub fn add_tile_to_subtree(
        &mut self,
        subtree: NodeId,
        window: u64,
        activate: bool,
        mode: SizingMode,
        workspace_layout: Option<Layout>,
    ) -> (r: Option<NodeId>)
        requires
            old(self).wf(),
            old(self).slot_count() + 1 < usize::MAX,
        ensures
            old(self).keeps_titles(*final(self)),
            final(self).wf(),
            !old(self).is_live(subtree) ==> r is None && *final(self) == *old(self),
            old(self).is_live(subtree) ==> (r matches Some(id) && old(self).leaf_added(*final(self), window, id, mode)
                && final(self).leaf_order() == old(self).leaves_after_adding(Some(subtree), id)),
    {
        if !self.contains(subtree) {
            return None;
        }
        Some(self.add_tile(window, InsertTarget::Node(subtree), activate, mode, workspace_layout))
    }
}

/// Clearing a `true` entry lowers the count by one.
pub(crate) proof fn lemma_count_update(s: Seq<bool>, i: int)
    requires
        0 <= i < s.len(),
    ensures
        count_true(s.update(i, false)) + (if s[i] {
            1nat
        } else {
            0nat
        }) == count_true(s),
    decreases s.len(),
{
    let t = s.update(i, false);
    if i == s.len() - 1 {
        assert(t.drop_last() =~= s.drop_last());
    } else {
        assert(t.drop_last() =~= s.drop_last().update(i, false));
        lemma_count_update(s.drop_last(), i);
    }
}

} // verus!
