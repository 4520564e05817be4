//! Focus: the focused node, the focus history, and moving focus around.
use vstd::prelude::*;
use super::{
    Arena, Direction, Layout, NodeId, NodeKind, TilingTree, axis_layout, child_containing,
    history_child, is_backwards, parallel,
};

verus! {

/// `s` with every occurrence of `x` taken out, order kept.
pub open spec fn without(s: Seq<NodeId>, x: NodeId) -> Seq<NodeId>
    decreases s.len(),
{
    if s.len() == 0 {
        Seq::empty()
    } else {
        let w = without(s.drop_last(), x);
        if s.last() == x {
            w
        } else {
            w.push(s.last())
        }
    }
}

pub(crate) proof fn lemma_without(s: Seq<NodeId>, x: NodeId)
    ensures
        forall|y: NodeId| #[trigger] without(s, x).contains(y) <==> (s.contains(y) && y != x),
        s.no_duplicates() ==> without(s, x).no_duplicates(),
        !s.contains(x) ==> without(s, x) == s,
        without(s, x).len() <= s.len(),
    decreases s.len(),
{
    if s.len() > 0 {
        let t = s.drop_last();
        lemma_without(t, x);
        let w = without(t, x);
        assert(s =~= t.push(s.last()));
        assert forall|y: NodeId| #[trigger] without(s, x).contains(y) <==> (s.contains(y) && y
            != x) by {
            if s.contains(y) && y != x {
                let k = choose|k: int| 0 <= k < s.len() && s[k] == y;
                if k < t.len() {
                    assert(t[k] == y);
                    assert(t.contains(y));
                    assert(w.contains(y));
                    if s.last() != x {
                        let j = choose|j: int| 0 <= j < w.len() && w[j] == y;
                        assert(w.push(s.last())[j] == y);
                    }
                } else {
                    assert(s.last() == y);
                    assert(w.push(s.last())[w.len() as int] == y);
                }
            }
            if without(s, x).contains(y) {
                if s.last() != x && y == s.last() {
                    assert(s[s.len() - 1] == y);
                } else {
                    if s.last() != x {
                        let j = choose|j: int|
                            0 <= j < w.push(s.last()).len() && w.push(s.last())[j] == y;
                        assert(w[j] == y);
                    }
                    assert(w.contains(y));
                    let k = choose|k: int| 0 <= k < t.len() && t[k] == y;
                    assert(s[k] == y);
                }
            }
        }
        if s.no_duplicates() {
            assert(t.no_duplicates()) by {
                assert forall|i: int, j: int|
                    0 <= i < t.len() && 0 <= j < t.len() && i != j implies t[i] != t[j] by {
                    assert(t[i] == s[i] && t[j] == s[j]);
                }
            }
            if s.last() != x {
                assert(!w.contains(s.last())) by {
                    if w.contains(s.last()) {
                        let k = choose|k: int| 0 <= k < t.len() && t[k] == s.last();
                        assert(s[k] == s[s.len() - 1]);
                    }
                }
                let w2 = w.push(s.last());
                assert forall|i: int, j: int|
                    0 <= i < w2.len() && 0 <= j < w2.len() && i != j implies w2[i] != w2[j] by {
                    if i < w.len() && j < w.len() {
                    } else if i < w.len() {
                        assert(w.contains(w[i]));
                    } else {
                        assert(w.contains(w[j]));
                    }
                }
            }
        }
        if !s.contains(x) {
            assert(!t.contains(x)) by {
                if t.contains(x) {
                    let k = choose|k: int| 0 <= k < t.len() && t[k] == x;
                    assert(s[k] == x);
                }
            }
            assert(s.last() != x) by {
                assert(s[s.len() - 1] == s.last());
            }
        }
    }
}

/// A tree well formed but for its focus has no exception.
pub(crate) proof fn lemma_but_focus_except_none(t: TilingTree)
    requires
        t.wf_but_focus(),
    ensures
        t.wf_but_focus_except(None),
{
}

/// Moving a live node to the front keeps a history of live nodes free of repeats.
pub(crate) proof fn lemma_history_front_ok(arena: Arena, h: Seq<NodeId>, x: NodeId)
    requires
        h.no_duplicates(),
        forall|i: int| 0 <= i < h.len() ==> #[trigger] arena.is_live(h[i]),
        arena.is_live(x),
    ensures
        (seq![x] + without(h, x)).no_duplicates(),
        forall|i: int|
            0 <= i < (seq![x] + without(h, x)).len() ==> #[trigger] arena.is_live((seq![x] + without(h, x))[i]),
{
    lemma_without(h, x);
    let w = without(h, x);
    let nh = seq![x] + w;
    assert forall|i: int, j: int| 0 <= i < nh.len() && 0 <= j < nh.len() && i != j implies nh[i] != nh[j] by {
        if i == 0 {
            assert(w.contains(nh[j]));
        } else if j == 0 {
            assert(w.contains(nh[i]));
        } else {
            assert(nh[i] == w[i - 1] && nh[j] == w[j - 1]);
        }
    }
    assert forall|i: int| 0 <= i < nh.len() implies #[trigger] arena.is_live(nh[i]) by {
        if i > 0 {
            assert(w.contains(nh[i]));
            let k = choose|k: int| 0 <= k < h.len() && h[k] == nh[i];
            assert(arena.is_live(h[k]));
        }
    }
}

impl TilingTree {
    /// What focusing in direction `dir` does: with no focus nothing; with a
    /// target (see `direction_target`) its most recently focused leaf is
    /// focused; with none the focus stays and moves to the front of the history.
    pub open spec fn direction_outcome(self, new: Self, dir: Direction, force: bool, r: bool) -> bool {
        match self.focus_id() {
            None => !r && new == self,
            Some(f) => match self.direction_target(f, dir, force, self.fullscreen_spec(), None) {
                Some(t) => r && self.focused_leaf_spec(t) is Some && new.focus_id()
                    == self.focused_leaf_spec(t) && new.history() == self.history_after_focus(
                    self.focused_leaf_spec(t)->0,
                ),
                None => !r && new.focus_id() == Some(f) && new.history() == self.history_after_focus(
                    f,
                ),
            },
        }
    }

    /// The first leaf below `id` in depth-first order.
    pub open spec fn first_leaf_spec(self, id: NodeId) -> Option<NodeId> {
        if self.leaves_in(id).len() > 0 {
            Some(self.leaves_in(id)[0])
        } else {
            None
        }
    }

    /// The leaf below `id` that was focused most recently, or else its first leaf.
    pub open spec fn focused_leaf_spec(self, id: NodeId) -> Option<NodeId> {
        match self.history_leaf_from(id, 0) {
            Some(l) => Some(l),
            None => self.first_leaf_spec(id),
        }
    }

    /// The focus history after `id` is moved to its front.
    pub open spec fn history_after_focus(self, id: NodeId) -> Seq<NodeId> {
        seq![id] + without(self.history(), id)
    }

    pub(crate) proof fn lemma_history_leaf_from(self, id: NodeId, k: int)
        requires
            self.structure_ok(),
        ensures
            self.history_leaf_from(id, k) matches Some(l) ==> self.is_leaf_node(l) && self.is_desc(
                l,
                id,
            ),
        decreases self.history().len() - k,
    {
        if 0 <= k < self.focus_history@.len() {
            self.lemma_history_leaf_from(id, k + 1);
        }
    }

    /// The most recently focused leaf below `id` is a leaf below `id`, and there
    /// is one exactly when `id` has a leaf below it.
    pub(crate) proof fn lemma_focused_leaf(self, id: NodeId)
        requires
            self.structure_ok(),
        ensures
            self.focused_leaf_spec(id) matches Some(l) ==> self.is_leaf_node(l) && self.is_desc(
                l,
                id,
            ),
            self.focused_leaf_spec(id) is None <==> forall|x: NodeId|
                !(#[trigger] self.is_leaf_node(x) && self.is_desc(x, id)),
    {
        self.lemma_history_leaf_from(id, 0);
        self.lemma_leaves_in(id);
        if self.leaves_in(id).len() > 0 {
            assert(self.leaves_in(id).contains(self.leaves_in(id)[0]));
        }
        if exists|x: NodeId| #[trigger] self.is_leaf_node(x) && self.is_desc(x, id) {
            let x = choose|x: NodeId| #[trigger] self.is_leaf_node(x) && self.is_desc(x, id);
            assert(self.leaves_in(id).contains(x));
        }
    }

    /// Moves `id` to the front of the focus history.
    fn push_history_front(&mut self, id: NodeId)
        ensures
            old(self).keeps_titles(*final(self)),
            final(self).history() == old(self).history_after_focus(id),
            final(self).same_tree(*old(self)),
            final(self).focus == old(self).focus,
    {
        let mut kept: Vec<NodeId> = Vec::new();
        kept.push(id);
        let n = self.focus_history.len();
        let ghost h = self.focus_history@;
        assert(without(h.take(0), id) =~= Seq::<NodeId>::empty());
        for i in 0..n
            invariant
                old(self).keeps_titles(*self),
                n == h.len(),
                h == self.focus_history@,
                kept@ == seq![id] + without(h.take(i as int), id),
        {
            assert(h.take(i + 1).drop_last() =~= h.take(i as int));
            assert(h.take(i + 1).last() == h[i as int]);
            let x = self.focus_history[i];
            if x != id {
                kept.push(x);
            }
            assert(kept@ =~= seq![id] + without(h.take(i + 1), id));
        }
        assert(h.take(n as int) =~= h);
        self.focus_history = kept;
    }

    /// Sets the focus; a focused node moves to the front of the focus history.
    pub(crate) fn set_focus_id(&mut self, focus: Option<NodeId>)
        ensures
            old(self).keeps_titles(*final(self)),
            final(self).focus_id() == focus,
            final(self).history() == (match focus {
                Some(id) => old(self).history_after_focus(id),
                None => old(self).history(),
            }),
            final(self).same_tree(*old(self)),
    {
        self.focus = focus;
        if let Some(id) = focus {
            self.push_history_front(id);
        }
    }

    /// Setting a live focus keeps the tree well formed, as long as the focus is
    /// set exactly when the tree holds a window.
    pub(crate) proof fn lemma_focus_wf(old_t: Self, new_t: Self, focus: Option<NodeId>)
        requires
            old_t.wf_but_focus(),
            new_t.same_tree(old_t),
            new_t.focus == focus,
            focus matches Some(f) ==> old_t.is_live(f),
            focus is Some <==> old_t.has_leaf(),
            new_t.focus_history@ == (match focus {
                Some(id) => old_t.history_after_focus(id),
                None => old_t.history(),
            }),
        ensures
            new_t.wf(),
    {
        lemma_but_focus_except_none(old_t);
        TilingTree::lemma_focus_wf_except(old_t, new_t, focus, None);
    }

    /// Setting a live focus makes the focus right, whatever else the tree
    /// lacks (the split `e` may be empty).
    pub(crate) proof fn lemma_focus_wf_except(old_t: Self, new_t: Self, focus: Option<NodeId>, e: Option<NodeId>)
        requires
            old_t.wf_but_focus_except(e),
            new_t.same_tree(old_t),
            new_t.focus == focus,
            focus matches Some(f) ==> old_t.is_live(f),
            focus is Some <==> old_t.has_leaf(),
            new_t.focus_history@ == (match focus {
                Some(id) => old_t.history_after_focus(id),
                None => old_t.history(),
            }),
        ensures
            new_t.wf_but_focus_except(e),
            new_t.wf_focus(),
            e is None ==> new_t.wf(),
    {
        if let Some(id) = focus {
            let h = old_t.focus_history@;
            lemma_without(h, id);
            let w = without(h, id);
            let nh = seq![id] + w;
            assert(nh.no_duplicates()) by {
                assert forall|i: int, j: int|
                    0 <= i < nh.len() && 0 <= j < nh.len() && i != j implies nh[i] != nh[j] by {
                    if i == 0 {
                        assert(w.contains(nh[j]));
                    } else if j == 0 {
                        assert(w.contains(nh[i]));
                    } else {
                        assert(nh[i] == w[i - 1] && nh[j] == w[j - 1]);
                    }
                }
            }
            assert forall|i: int| 0 <= i < nh.len() implies #[trigger] new_t.arena.is_live(nh[i]) by {
                if i > 0 {
                    assert(w.contains(w[i - 1]));
                    assert(h.contains(w[i - 1]));
                    let k = choose|k: int| 0 <= k < h.len() && h[k] == w[i - 1];
                    assert(old_t.arena.is_live(h[k]));
                }
            }
        }
        assert(new_t.wf_focus());
    }

    /// Focuses `focus`, keeping the tree well formed.
    pub(crate) fn focus_node(&mut self, focus: Option<NodeId>)
        requires
            old(self).wf_but_focus(),
            focus matches Some(f) ==> old(self).is_live(f),
            focus is Some <==> old(self).has_leaf(),
        ensures
            old(self).keeps_titles(*final(self)),
            final(self).wf(),
            final(self).focus_id() == focus,
            final(self).history() == (match focus {
                Some(id) => old(self).history_after_focus(id),
                None => old(self).history(),
            }),
            final(self).same_tree(*old(self)),
    {
        let ghost old_t = *self;
        self.set_focus_id(focus);
        proof {
            TilingTree::lemma_focus_wf(old_t, *self, focus);
        }
    }

    /// The leaf below `id` that was focused most recently, or else its first leaf.
    pub fn focused_leaf_in(&self, id: NodeId) -> (r: Option<NodeId>)
        requires
            self.structure_ok(),
        ensures
            r == self.focused_leaf_spec(id),
    {
        let n = self.focus_history.len();
        for k in 0..n
            invariant
                self.structure_ok(),
                n == self.focus_history@.len(),
                self.history_leaf_from(id, 0) == self.history_leaf_from(id, k as int),
        {
            let candidate = self.focus_history[k];
            let is_leaf = self.is_live_exec(candidate) && matches!(
                self.arena.kinds[candidate.0 as usize],
                NodeKind::Leaf(_)
            );
            if is_leaf && self.contains_node(id, candidate) {
                return Some(candidate);
            }
        }
        self.first_leaf_in(id)
    }

    pub(crate) proof fn lemma_child_containing(self, p: NodeId, x: NodeId, i: int)
        requires
            self.structure_ok(),
            0 <= i,
        ensures
            child_containing(self.arena, p, x, i) matches Some(c) ==> self.children_of(p).contains(c)
                && self.is_desc(x, c),
        decreases self.children_of(p).len() - i,
    {
        if i < self.children_of(p).len() {
            self.lemma_child_containing(p, x, i + 1);
            if self.is_desc(x, self.children_of(p)[i]) {
                assert(self.children_of(p).contains(self.children_of(p)[i]));
            }
        }
    }

    pub(crate) proof fn lemma_history_child(self, p: NodeId, k: int)
        requires
            self.structure_ok(),
            0 <= k,
        ensures
            history_child(self.arena, self.focus_history@, p, k) matches Some(c)
                ==> self.children_of(p).contains(c),
        decreases self.focus_history@.len() - k,
    {
        if k < self.focus_history@.len() {
            self.lemma_child_containing(p, self.focus_history@[k], 0);
            self.lemma_history_child(p, k + 1);
        }
    }

    /// The focused child of a live split is one of its children.
    pub(crate) proof fn lemma_focused_child(self, p: NodeId)
        requires
            self.structure_ok(),
        ensures
            self.focused_child_spec(p) matches Some(c) ==> self.is_split_node(p)
                && self.children_of(p).contains(c) && self.is_live(c) && c != self.root_id(),
    {
        self.lemma_history_child(p, 0);
        if let Some(c) = self.focused_child_spec(p) {
            if history_child(self.arena, self.focus_history@, p, 0) is None {
                assert(self.children_of(p).contains(self.children_of(p)[0]));
            }
            let i = self.children_of(p).index_of(c);
            self.lemma_child_desc(p, i);
        }
    }

    /// The child of split `p` that holds the most recently focused node, or else its first child.
    pub fn focused_child_in(&self, p: NodeId) -> (r: Option<NodeId>)
        requires
            self.structure_ok(),
        ensures
            r == self.focused_child_spec(p),
    {
        if !self.is_split(p) {
            return None;
        }
        let kids = &self.arena.children[p.0 as usize];
        let n = self.focus_history.len();
        for k in 0..n
            invariant
                self.structure_ok(),
                self.is_split_node(p),
                kids@ == self.children_of(p),
                n == self.focus_history@.len(),
                history_child(self.arena, self.focus_history@, p, 0) == history_child(
                    self.arena,
                    self.focus_history@,
                    p,
                    k as int,
                ),
        {
            let focused = self.focus_history[k];
            for i in 0..kids.len()
                invariant
                    self.structure_ok(),
                    self.is_split_node(p),
                    kids@ == self.children_of(p),
                    n == self.focus_history@.len(),
                    k < n,
                    focused == self.focus_history@[k as int],
                    history_child(self.arena, self.focus_history@, p, 0) == history_child(
                        self.arena,
                        self.focus_history@,
                        p,
                        k as int,
                    ),
                    child_containing(self.arena, p, focused, 0) == child_containing(
                        self.arena,
                        p,
                        focused,
                        i as int,
                    ),
            {
                if self.contains_node(kids[i], focused) {
                    return Some(kids[i]);
                }
            }
        }
        if kids.len() > 0 {
            Some(kids[0])
        } else {
            None
        }
    }

    /// Focuses the parent of the focused node, unless the focused node is the
    /// fullscreen node or the root.
    pub fn focus_parent(&mut self) -> (r: bool)
        requires
            old(self).wf(),
        ensures
            old(self).keeps_titles(*final(self)),
            final(self).wf(),
            final(self).same_tree(*old(self)),
            r == (old(self).focus_id() matches Some(f) && old(self).fullscreen_spec() != Some(f)
                && old(self).parent_of(f) is Some),
            r ==> final(self).focus_id() == old(self).parent_of(old(self).focus_id()->0)
                && final(self).history() == old(self).history_after_focus(
                old(self).parent_of(old(self).focus_id()->0)->0,
            ),
            !r ==> *final(self) == *old(self),
    {
        let Some(focus) = self.focus else {
            return false;
        };
        if self.fullscreen_node() == Some(focus) {
            return false;
        }
        let Some(parent) = self.arena.parents[focus.0 as usize] else {
            return false;
        };
        assert(focus != self.root_id());
        self.focus_node(Some(parent));
        true
    }

    /// Focuses the focused child of the focused node.
    pub fn focus_child(&mut self) -> (r: bool)
        requires
            old(self).wf(),
        ensures
            old(self).keeps_titles(*final(self)),
            final(self).wf(),
            final(self).same_tree(*old(self)),
            r == (old(self).focus_id() matches Some(f) && old(self).focused_child_spec(f) is Some),
            r ==> final(self).focus_id() == old(self).focused_child_spec(old(self).focus_id()->0)
                && final(self).history() == old(self).history_after_focus(
                old(self).focused_child_spec(old(self).focus_id()->0)->0,
            ),
            !r ==> *final(self) == *old(self),
    {
        let Some(focus) = self.focus else {
            return false;
        };
        let child = self.focused_child_in(focus);
        proof {
            self.lemma_focused_child(focus);
        }
        if let Some(child) = child {
            self.focus_node(Some(child));
            true
        } else {
            false
        }
    }

    /// Focuses node `id` if it exists. The tree must hold a window: a focus in
    /// an empty tree would break the focus invariant.
    pub fn set_focus(&mut self, id: NodeId)
        requires
            old(self).wf(),
            old(self).has_leaf(),
        ensures
            old(self).keeps_titles(*final(self)),
            final(self).wf(),
            final(self).same_tree(*old(self)),
            old(self).is_live(id) ==> final(self).focus_id() == Some(id) && final(self).history()
                == old(self).history_after_focus(id),
            !old(self).is_live(id) ==> *final(self) == *old(self),
    {
        if self.is_live_exec(id) {
            self.focus_node(Some(id));
        }
    }

    /// Focuses the root. The tree must hold a window.
    pub fn focus_root(&mut self)
        requires
            old(self).wf(),
            old(self).has_leaf(),
        ensures
            old(self).keeps_titles(*final(self)),
            final(self).wf(),
            final(self).same_tree(*old(self)),
            final(self).focus_id() == Some(old(self).root_id()),
            final(self).history() == old(self).history_after_focus(old(self).root_id()),
    {
        let root = self.arena.root;
        self.focus_node(Some(root));
    }

    /// Focuses the leaf holding `window`; returns whether there is one.
    pub fn activate_window(&mut self, window: u64) -> (r: bool)
        requires
            old(self).wf(),
        ensures
            old(self).keeps_titles(*final(self)),
            final(self).wf(),
            final(self).same_tree(*old(self)),
            r == old(self).node_for_window_spec(window) is Some,
            r ==> final(self).focus_id() == old(self).node_for_window_spec(window)
                && final(self).history() == old(self).history_after_focus(
                old(self).node_for_window_spec(window)->0,
            ),
            !r ==> *final(self) == *old(self),
    {
        let Some(id) = self.node_for_window(window) else {
            return false;
        };
        proof {
            self.lemma_node_for_window(window);
            self.lemma_leaf_has_leaf(id);
        }
        self.focus_node(Some(id));
        true
    }

    /// Focuses the first leaf in depth-first order.
    pub fn focus_first(&mut self)
        requires
            old(self).wf(),
        ensures
            old(self).keeps_titles(*final(self)),
            final(self).wf(),
            final(self).same_tree(*old(self)),
            final(self).focus_id() == old(self).first_leaf_spec(old(self).root_id()),
            final(self).history() == (match old(self).first_leaf_spec(old(self).root_id()) {
                Some(l) => old(self).history_after_focus(l),
                None => old(self).history(),
            }),
    {
        let first = self.first_leaf_in(self.arena.root);
        proof {
            self.lemma_root_leaves();
            self.lemma_leaves_in(self.root_id());
            if let Some(l) = first {
                assert(self.leaves_in(self.root_id()).contains(l));
            }
        }
        self.focus_node(first);
    }

    /// Focuses the last leaf in depth-first order.
    pub fn focus_last(&mut self)
        requires
            old(self).wf(),
        ensures
            old(self).keeps_titles(*final(self)),
            final(self).wf(),
            final(self).same_tree(*old(self)),
            final(self).focus_id() == (if old(self).leaves_in(old(self).root_id()).len() > 0 {
                Some(old(self).leaves_in(old(self).root_id()).last())
            } else {
                None
            }),
    {
        let leaves = self.leaf_ids_in(self.arena.root);
        proof {
            self.lemma_root_leaves();
            self.lemma_leaves_in(self.root_id());
        }
        let last = if leaves.len() > 0 {
            Some(leaves[leaves.len() - 1])
        } else {
            None
        };
        proof {
            if let Some(l) = last {
                assert(self.leaves_in(self.root_id()).contains(l));
            }
        }
        self.focus_node(last);
    }

    /// Focuses the `index`-th leaf below `subtree`, if there is one.
    pub fn focus_window_in_subtree(&mut self, subtree: NodeId, index: usize)
        requires
            old(self).wf(),
        ensures
            old(self).keeps_titles(*final(self)),
            final(self).wf(),
            final(self).same_tree(*old(self)),
            index < old(self).leaves_in(subtree).len() ==> final(self).focus_id() == Some(
                old(self).leaves_in(subtree)[index as int],
            ),
            index >= old(self).leaves_in(subtree).len() ==> *final(self) == *old(self),
    {
        let leaves = self.leaf_ids_in(subtree);
        if index < leaves.len() {
            let leaf = leaves[index];
            proof {
                self.lemma_leaves_in(subtree);
                assert(self.leaves_in(subtree).contains(leaf));
                self.lemma_leaf_has_leaf(leaf);
            }
            self.focus_node(Some(leaf));
        }
    }

    /// Focuses the `index`-th leaf below the parent of the focused node.
    pub fn focus_window_in_column(&mut self, index: u8)
        requires
            old(self).wf(),
        ensures
            old(self).keeps_titles(*final(self)),
            final(self).wf(),
            final(self).same_tree(*old(self)),
            match old(self).focus_id() {
                Some(f) => match old(self).parent_of(f) {
                    Some(p) => (index < old(self).leaves_in(p).len() ==> final(self).focus_id() == Some(
                        old(self).leaves_in(p)[index as int],
                    )) && (index >= old(self).leaves_in(p).len() ==> *final(self) == *old(self)),
                    None => *final(self) == *old(self),
                },
                None => *final(self) == *old(self),
            },
    {
        let Some(focus) = self.focus else {
            return;
        };
        let Some(subtree) = self.arena.parents[focus.0 as usize] else {
            return;
        };
        self.focus_window_in_subtree(subtree, index as usize);
    }

    /// Focuses the first leaf of the `index`-th child of the root.
    pub fn focus_column(&mut self, index: usize)
        requires
            old(self).wf(),
        ensures
            old(self).keeps_titles(*final(self)),
            final(self).wf(),
            final(self).same_tree(*old(self)),
            index < old(self).children_of(old(self).root_id()).len() ==> final(self).focus_id() == (
            match old(self).first_leaf_spec(old(self).children_of(old(self).root_id())[index as int]) {
                Some(l) => Some(l),
                None => old(self).focus_id(),
            }),
            index >= old(self).children_of(old(self).root_id()).len() ==> *final(self) == *old(self),
    {
        let root = self.arena.root;
        let kids = &self.arena.children[root.0 as usize];
        if index < kids.len() {
            let branch = kids[index];
            let first = self.first_leaf_in(branch);
            proof {
                self.lemma_child_desc(self.root_id(), index as int);
                self.lemma_leaf_below(branch);
                self.lemma_leaves_in(branch);
                let l = self.leaves_in(branch)[0];
                assert(self.leaves_in(branch).contains(l));
                self.lemma_leaf_has_leaf(l);
            }
            let target = match first {
                Some(l) => Some(l),
                None => self.focus,
            };
            self.focus_node(target);
        }
    }

    pub fn focus_column_first(&mut self)
        requires
            old(self).wf(),
        ensures
            old(self).keeps_titles(*final(self)),
            final(self).wf(),
            final(self).same_tree(*old(self)),
            0 < old(self).children_of(old(self).root_id()).len() ==> final(self).focus_id()
                == old(self).first_leaf_spec(old(self).children_of(old(self).root_id())[0]),
    {
        proof {
            if 0 < self.children_of(self.root_id()).len() {
                self.lemma_child_desc(self.root_id(), 0);
                self.lemma_leaf_below(self.children_of(self.root_id())[0]);
            }
        }
        self.focus_column(0);
    }

    pub fn focus_column_last(&mut self)
        requires
            old(self).wf(),
        ensures
            old(self).keeps_titles(*final(self)),
            final(self).wf(),
            final(self).same_tree(*old(self)),
            0 < old(self).children_of(old(self).root_id()).len() ==> final(self).focus_id()
                == old(self).first_leaf_spec(old(self).children_of(old(self).root_id()).last()),
    {
        let n = self.arena.children[self.arena.root.0 as usize].len();
        if n > 0 {
            proof {
                self.lemma_child_desc(self.root_id(), n - 1);
                self.lemma_leaf_below(self.children_of(self.root_id())[n - 1]);
            }
            self.focus_column(n - 1);
        }
    }

    /// The position of a listed child, which is unique.
    pub(crate) fn index_of_child(&self, parent: NodeId, child: NodeId) -> (r: usize)
        requires
            self.structure_ok(),
            self.is_live(parent),
            self.children_of(parent).contains(child),
        ensures
            r < self.children_of(parent).len(),
            self.children_of(parent)[r as int] == child,
            r == self.children_of(parent).index_of(child),
    {
        let kids = &self.arena.children[parent.0 as usize];
        let mut i: usize = 0;
        while i < kids.len()
            invariant
                self.structure_ok(),
                self.is_live(parent),
                kids@ == self.children_of(parent),
                kids@.contains(child),
                forall|j: int| 0 <= j < i ==> kids@[j] != child,
            decreases kids.len() - i,
        {
            if kids[i] == child {
                proof {
                    assert(self.children_of(parent).no_duplicates());
                    let j = kids@.index_of(child);
                    assert(0 <= j < kids@.len() && kids@[j] == child);
                }
                return i;
            }
            i = i + 1;
        }
        proof {
            let j = kids@.index_of(child);
            assert(kids@[j] == child);
        }
        0
    }

    fn direction_target_exec(
        &self,
        start: NodeId,
        dir: Direction,
        force: bool,
        barrier: Option<NodeId>,
    ) -> (r: Option<NodeId>)
        requires
            self.wf(),
            self.is_live(start),
        ensures
            r == self.direction_target(start, dir, force, barrier, None),
            r matches Some(t) ==> self.is_live(t) && t != self.root_id(),
    {
        let mut current = start;
        let mut wrap: Option<NodeId> = None;
        let axis = match dir {
            Direction::Left | Direction::Right => Layout::SplitH,
            Direction::Up | Direction::Down => Layout::SplitV,
        };
        let backwards = matches!(dir, Direction::Left | Direction::Up);
        loop
            invariant
                self.wf(),
                self.is_live(current),
                axis == axis_layout(dir),
                backwards == is_backwards(dir),
                self.direction_target(start, dir, force, barrier, None) == self.direction_target(
                    current,
                    dir,
                    force,
                    barrier,
                    wrap,
                ),
                wrap matches Some(w) ==> self.is_live(w) && w != self.root_id(),
            decreases self.depth_of(current),
        {
            let parent = match self.arena.parents[current.0 as usize] {
                None => {
                    return wrap;
                },
                Some(p) => p,
            };
            assert(current != self.root_id());
            assert(self.parent_of(current) is Some);
            let layout = match self.arena.kinds[parent.0 as usize] {
                NodeKind::Split(l) => l,
                NodeKind::Leaf(_) => {
                    return wrap;
                },
            };
            let index = self.index_of_child(parent, current);
            let kids = &self.arena.children[parent.0 as usize];
            let n = kids.len();
            proof {
                self.lemma_wf_depth_bound(parent);
                assert forall|i: int| 0 <= i < n implies self.is_live(#[trigger] kids@[i])
                    && kids@[i] != self.root_id() by {
                    self.lemma_child_desc(parent, i);
                }
            }
            let par = layouts_parallel(layout, axis);
            if par {
                if backwards && index > 0 {
                    return Some(kids[index - 1]);
                }
                if !backwards && index + 1 < n {
                    return Some(kids[index + 1]);
                }
                if n > 1 {
                    let candidate = if backwards {
                        kids[n - 1]
                    } else {
                        kids[0]
                    };
                    if force {
                        return Some(candidate);
                    }
                    if wrap.is_none() {
                        wrap = Some(candidate);
                    }
                }
            }
            if Some(parent) == barrier {
                return wrap;
            }
            current = parent;
        }
    }

    /// Moves focus in direction `dir` (see `direction_target`): into the most
    /// recently focused leaf of the target. With no target the focus stays
    /// (and moves to the front of the focus history). Returns whether focus moved.
    pub fn focus_direction(&mut self, dir: Direction, force_wrap: bool) -> (r: bool)
        requires
            old(self).wf(),
        ensures
            old(self).keeps_titles(*final(self)),
            final(self).wf(),
            final(self).same_tree(*old(self)),
            old(self).direction_outcome(*final(self), dir, force_wrap, r),
    {
        let Some(focus) = self.focus else {
            return false;
        };
        let barrier = self.fullscreen_node();
        let target = self.direction_target_exec(focus, dir, force_wrap, barrier);
        match target {
            Some(t) => {
                let next = self.focused_leaf_in(t);
                proof {
                    self.lemma_focused_leaf(t);
                    self.lemma_leaf_below(t);
                    self.lemma_leaves_in(t);
                    assert(self.leaves_in(t).contains(self.leaves_in(t)[0]));
                    self.lemma_leaf_has_leaf(next->0);
                }
                self.focus_node(next);
                true
            },
            None => {
                self.focus_node(Some(focus));
                false
            },
        }
    }

    pub fn focus_left(&mut self, force_wrap: bool) -> (r: bool)
        requires
            old(self).wf(),
        ensures
            old(self).keeps_titles(*final(self)),
            final(self).wf(),
            final(self).same_tree(*old(self)),
            old(self).direction_outcome(*final(self), Direction::Left, force_wrap, r),
    {
        self.focus_direction(Direction::Left, force_wrap)
    }

    pub fn focus_right(&mut self, force_wrap: bool) -> (r: bool)
        requires
            old(self).wf(),
        ensures
            old(self).keeps_titles(*final(self)),
            final(self).wf(),
            final(self).same_tree(*old(self)),
            old(self).direction_outcome(*final(self), Direction::Right, force_wrap, r),
    {
        self.focus_direction(Direction::Right, force_wrap)
    }

    pub fn focus_up(&mut self, force_wrap: bool) -> (r: bool)
        requires
            old(self).wf(),
        ensures
            old(self).keeps_titles(*final(self)),
            final(self).wf(),
            final(self).same_tree(*old(self)),
            old(self).direction_outcome(*final(self), Direction::Up, force_wrap, r),
    {
        self.focus_direction(Direction::Up, force_wrap)
    }

    pub fn focus_down(&mut self, force_wrap: bool) -> (r: bool)
        requires
            old(self).wf(),
        ensures
            old(self).keeps_titles(*final(self)),
            final(self).wf(),
            final(self).same_tree(*old(self)),
            old(self).direction_outcome(*final(self), Direction::Down, force_wrap, r),
    {
        self.focus_direction(Direction::Down, force_wrap)
    }
}

/// Whether two layouts run along the same axis.
pub fn layouts_parallel(first: Layout, second: Layout) -> (r: bool)
    ensures
        r == parallel(first, second),
{
    matches!(
        (first, second),
        (Layout::SplitH, Layout::SplitH) | (Layout::SplitH, Layout::Tabbed) | (
            Layout::Tabbed,
            Layout::SplitH,
        ) | (Layout::Tabbed, Layout::Tabbed) | (Layout::SplitV, Layout::SplitV) | (
            Layout::SplitV,
            Layout::Stacked,
        ) | (Layout::Stacked, Layout::SplitV) | (Layout::Stacked, Layout::Stacked)
    )
}

/// The direction that walks through the siblings of a split with `layout`.
pub open spec fn sibling_direction(layout: Layout, next: bool) -> Direction {
    if parallel(layout, Layout::SplitH) {
        if next {
            Direction::Right
        } else {
            Direction::Left
        }
    } else if next {
        Direction::Down
    } else {
        Direction::Up
    }
}

fn sibling_direction_exec(layout: Layout, next: bool) -> (r: Direction)
    ensures
        r == sibling_direction(layout, next),
{
    if layouts_parallel(layout, Layout::SplitH) {
        if next {
            Direction::Right
        } else {
            Direction::Left
        }
    } else if next {
        Direction::Down
    } else {
        Direction::Up
    }
}

impl TilingTree {
    /// Below a live node there is a most recently focused leaf exactly when the
    /// tree holds a window.
    pub(crate) proof fn lemma_focused_leaf_exists(self, x: NodeId)
        requires
            self.wf(),
            self.is_live(x),
        ensures
            self.focused_leaf_spec(x) is Some <==> self.has_leaf(),
            self.focused_leaf_spec(x) matches Some(l) ==> self.is_live(l),
    {
        self.lemma_focused_leaf(x);
        if self.focused_leaf_spec(x) is Some {
            self.lemma_leaf_has_leaf(self.focused_leaf_spec(x)->0);
        }
        if x == self.root_id() {
            if self.has_leaf() {
                let l = self.lemma_leaf_witness();
                self.lemma_desc_root(l);
            }
        } else {
            self.lemma_leaf_below(x);
            self.lemma_leaves_in(x);
            assert(self.leaves_in(x).contains(self.leaves_in(x)[0]));
        }
    }

    /// What focusing the next or previous sibling does: with a focused
    /// non-root node, the target of walking up from it in the direction given
    /// by its parent's layout is focused itself; otherwise nothing changes.
    pub open spec fn sibling_outcome(self, new: Self, next: bool, force: bool, r: bool) -> bool {
        match self.focus_id() {
            Some(f) if self.parent_of(f) is Some => match self.direction_target(
                f,
                sibling_direction(self.layout_of(self.parent_of(f)->0), next),
                force,
                None,
                None,
            ) {
                Some(t) => r && new.focus_id() == Some(t) && new.history() == self.history_after_focus(t),
                None => !r && new == self,
            },
            _ => !r && new == self,
        }
    }

    /// Focuses the next (or previous) sibling along the axis of the focused
    /// node's parent, walking up where there is none; wraps around at the far
    /// end when nothing is found, at once when `force_wrap`.
    pub fn focus_next_prev_sibling(&mut self, next: bool, force_wrap: bool) -> (r: bool)
        requires
            old(self).wf(),
        ensures
            old(self).keeps_titles(*final(self)),
            final(self).wf(),
            final(self).same_tree(*old(self)),
            old(self).sibling_outcome(*final(self), next, force_wrap, r),
    {
        let Some(focus) = self.focus else {
            return false;
        };
        let Some(parent) = self.arena.parents[focus.0 as usize] else {
            return false;
        };
        assert(self.is_live(focus) && self.parent_of(focus) is Some);
        assert(focus != self.root_id());
        assert(self.arena.kind_of(parent) is Split);
        let layout = match self.arena.kinds[parent.0 as usize] {
            NodeKind::Split(l) => l,
            NodeKind::Leaf(_) => {
                return false;
            },
        };
        let dir = sibling_direction_exec(layout, next);
        let target = self.direction_target_exec(focus, dir, force_wrap, None);
        match target {
            Some(t) => {
                self.focus_node(Some(t));
                true
            },
            None => false,
        }
    }

    /// Focuses in the direction that runs through the focused node's siblings
    /// (see `focus_direction`); nothing happens at the root or with no focus.
    pub fn focus_next_or_prev(&mut self, next: bool, force_wrap: bool) -> (r: bool)
        requires
            old(self).wf(),
        ensures
            old(self).keeps_titles(*final(self)),
            final(self).wf(),
            final(self).same_tree(*old(self)),
            match old(self).focus_id() {
                Some(f) if old(self).parent_of(f) is Some => old(self).direction_outcome(
                    *final(self),
                    sibling_direction(old(self).layout_of(old(self).parent_of(f)->0), next),
                    force_wrap,
                    r,
                ),
                _ => !r && *final(self) == *old(self),
            },
    {
        let Some(focus) = self.focus else {
            return false;
        };
        let Some(parent) = self.arena.parents[focus.0 as usize] else {
            return false;
        };
        assert(self.is_live(focus) && self.parent_of(focus) is Some);
        assert(focus != self.root_id());
        assert(self.arena.kind_of(parent) is Split);
        let layout = match self.arena.kinds[parent.0 as usize] {
            NodeKind::Split(l) => l,
            NodeKind::Leaf(_) => {
                return false;
            },
        };
        let dir = sibling_direction_exec(layout, next);
        self.focus_direction(dir, force_wrap)
    }

    /// The leaf that focus lands on when it enters this workspace from another
    /// output in direction `dir`: inside the fullscreen node if there is one;
    /// else, when the root runs along `dir`'s axis, in the root child on the
    /// near side; else anywhere below the root.
    pub open spec fn output_entry_target(self, dir: Direction) -> Option<NodeId> {
        match self.fullscreen_spec() {
            Some(fs) => self.focused_leaf_spec(fs),
            None => if parallel(self.layout_of(self.root_id()), axis_layout(dir)) {
                let kids = self.children_of(self.root_id());
                if kids.len() == 0 {
                    None
                } else if is_backwards(dir) {
                    self.focused_leaf_spec(kids.last())
                } else {
                    self.focused_leaf_spec(kids[0])
                }
            } else {
                self.focused_leaf_spec(self.root_id())
            },
        }
    }

    /// Focuses `output_entry_target(dir)`; returns whether there is one.
    pub fn focus_from_output_direction(&mut self, dir: Direction) -> (r: bool)
        requires
            old(self).wf(),
        ensures
            old(self).keeps_titles(*final(self)),
            final(self).wf(),
            final(self).same_tree(*old(self)),
            r == old(self).output_entry_target(dir) is Some,
            final(self).focus_id() == old(self).output_entry_target(dir),
            final(self).history() == match old(self).output_entry_target(dir) {
                Some(t) => old(self).history_after_focus(t),
                None => old(self).history(),
            },
    {
        let target = match self.fullscreen_node() {
            Some(fs) => {
                proof {
                    self.lemma_fullscreen();
                    self.lemma_focused_leaf_exists(fs);
                }
                self.focused_leaf_in(fs)
            },
            None => {
                let root = self.arena.root;
                let layout = match self.arena.kinds[root.0 as usize] {
                    NodeKind::Split(l) => l,
                    NodeKind::Leaf(_) => {
                        proof {
                            assert(false);
                        }
                        Layout::SplitH
                    },
                };
                let axis = match dir {
                    Direction::Left | Direction::Right => Layout::SplitH,
                    Direction::Up | Direction::Down => Layout::SplitV,
                };
                if layouts_parallel(layout, axis) {
                    let n = self.arena.children[root.0 as usize].len();
                    if n == 0 {
                        proof {
                            self.lemma_focused_leaf_exists(root);
                            self.lemma_focused_leaf(root);
                            if self.has_leaf() {
                                let l = self.focused_leaf_spec(root)->0;
                                self.lemma_desc_child(l, root);
                            }
                        }
                        None
                    } else {
                        let branch = if matches!(dir, Direction::Left | Direction::Up) {
                            self.arena.children[root.0 as usize][n - 1]
                        } else {
                            self.arena.children[root.0 as usize][0]
                        };
                        proof {
                            let i = if is_backwards(dir) { n - 1 } else { 0 };
                            self.lemma_child_desc(root, i as int);
                            self.lemma_focused_leaf_exists(branch);
                        }
                        self.focused_leaf_in(branch)
                    }
                } else {
                    proof {
                        self.lemma_focused_leaf_exists(root);
                    }
                    self.focused_leaf_in(root)
                }
            },
        };
        self.focus_node(target);
        target.is_some()
    }

    /// Focuses up, or left where that finds no target.
    pub fn focus_up_or_left(&mut self, force_wrap: bool)
        requires
            old(self).wf(),
        ensures
            old(self).keeps_titles(*final(self)),
            final(self).wf(),
            final(self).same_tree(*old(self)),
            exists|mid: Self, moved: bool|
                #![trigger old(self).direction_outcome(mid, Direction::Up, force_wrap, moved)]
                old(self).direction_outcome(mid, Direction::Up, force_wrap, moved) && mid.same_tree(*old(self))
                    && if moved {
                    *final(self) == mid
                } else {
                    exists|second: bool| #[trigger] mid.direction_outcome(*final(self), Direction::Left, force_wrap, second)
                },
    {
        let moved = self.focus_up(force_wrap);
        let ghost mid = *self;
        if !moved {
            let second = self.focus_left(force_wrap);
            assert(old(self).direction_outcome(mid, Direction::Up, force_wrap, moved) && mid.same_tree(*old(self))
                && mid.direction_outcome(*self, Direction::Left, force_wrap, second));
        } else {
            assert(old(self).direction_outcome(mid, Direction::Up, force_wrap, moved));
        }
    }

    /// Focuses up, or right where that finds no target.
    pub fn focus_up_or_right(&mut self, force_wrap: bool)
        requires
            old(self).wf(),
        ensures
            old(self).keeps_titles(*final(self)),
            final(self).wf(),
            final(self).same_tree(*old(self)),
            exists|mid: Self, moved: bool|
                #![trigger old(self).direction_outcome(mid, Direction::Up, force_wrap, moved)]
                old(self).direction_outcome(mid, Direction::Up, force_wrap, moved) && mid.same_tree(*old(self))
                    && if moved {
                    *final(self) == mid
                } else {
                    exists|second: bool| #[trigger] mid.direction_outcome(*final(self), Direction::Right, force_wrap, second)
                },
    {
        let moved = self.focus_up(force_wrap);
        let ghost mid = *self;
        if !moved {
            let second = self.focus_right(force_wrap);
            assert(old(self).direction_outcome(mid, Direction::Up, force_wrap, moved) && mid.same_tree(*old(self))
                && mid.direction_outcome(*self, Direction::Right, force_wrap, second));
        } else {
            assert(old(self).direction_outcome(mid, Direction::Up, force_wrap, moved));
        }
    }

    /// Focuses down, or left where that finds no target.
    pub fn focus_down_or_left(&mut self, force_wrap: bool)
        requires
            old(self).wf(),
        ensures
            old(self).keeps_titles(*final(self)),
            final(self).wf(),
            final(self).same_tree(*old(self)),
            exists|mid: Self, moved: bool|
                #![trigger old(self).direction_outcome(mid, Direction::Down, force_wrap, moved)]
                old(self).direction_outcome(mid, Direction::Down, force_wrap, moved) && mid.same_tree(*old(self))
                    && if moved {
                    *final(self) == mid
                } else {
                    exists|second: bool| #[trigger] mid.direction_outcome(*final(self), Direction::Left, force_wrap, second)
                },
    {
        let moved = self.focus_down(force_wrap);
        let ghost mid = *self;
        if !moved {
            let second = self.focus_left(force_wrap);
            assert(old(self).direction_outcome(mid, Direction::Down, force_wrap, moved) && mid.same_tree(*old(self))
                && mid.direction_outcome(*self, Direction::Left, force_wrap, second));
        } else {
            assert(old(self).direction_outcome(mid, Direction::Down, force_wrap, moved));
        }
    }

    /// Focuses down, or right where that finds no target.
    pub fn focus_down_or_right(&mut self, force_wrap: bool)
        requires
            old(self).wf(),
        ensures
            old(self).keeps_titles(*final(self)),
            final(self).wf(),
            final(self).same_tree(*old(self)),
            exists|mid: Self, moved: bool|
                #![trigger old(self).direction_outcome(mid, Direction::Down, force_wrap, moved)]
                old(self).direction_outcome(mid, Direction::Down, force_wrap, moved) && mid.same_tree(*old(self))
                    && if moved {
                    *final(self) == mid
                } else {
                    exists|second: bool| #[trigger] mid.direction_outcome(*final(self), Direction::Right, force_wrap, second)
                },
    {
        let moved = self.focus_down(force_wrap);
        let ghost mid = *self;
        if !moved {
            let second = self.focus_right(force_wrap);
            assert(old(self).direction_outcome(mid, Direction::Down, force_wrap, moved) && mid.same_tree(*old(self))
                && mid.direction_outcome(*self, Direction::Right, force_wrap, second));
        } else {
            assert(old(self).direction_outcome(mid, Direction::Down, force_wrap, moved));
        }
    }
}

} // verus!
