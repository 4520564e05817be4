//! Read-only queries on the tree.
use vstd::prelude::*;
use super::{Arena, Layout, NodeId, NodeKind, PendingMode, TilingTree, TreeNode, normal_mode};

verus! {

impl TilingTree {
    /// A tree with an empty horizontal root split and nothing focused.
    pub fn new() -> (t: Self)
        ensures
            t.wf(),
            t.slot_count() == 1,
            t.root_id() == NodeId(0),
            t.kind_of(NodeId(0)) == NodeKind::Split(Layout::SplitH),
            t.children_of(NodeId(0)).len() == 0,
            t.focus_id() is None,
            t.history().len() == 0,
    {
        let mut live = Vec::new();
        live.push(true);
        let mut parents = Vec::new();
        parents.push(None);
        let mut kinds = Vec::new();
        kinds.push(NodeKind::Split(Layout::SplitH));
        let mut children: Vec<Vec<NodeId>> = Vec::new();
        children.push(Vec::new());
        let mut modes = Vec::new();
        modes.push(PendingMode { fullscreen: None, maximized: false });
        let mut previous_layouts = Vec::new();
        previous_layouts.push(None);
        let arena = Arena {
            live,
            parents,
            kinds,
            children,
            root: NodeId(0),
            depth: Ghost(Seq::empty().push(0nat)),
            max_depth: Ghost(0nat),
        };
        let t = TilingTree { arena, modes, previous_layouts, focus: None, focus_history: Vec::new(), title_formats: Vec::new() };
        assert forall|id: NodeId| #[trigger] t.is_leaf_node(id) implies false by {
            assert(id.0 == 0);
        }
        t
    }

    pub(crate) fn is_live_exec(&self, id: NodeId) -> (r: bool)
        requires
            self.structure_ok(),
        ensures
            r == self.is_live(id),
    {
        id.0 < self.arena.live.len() as u64 && self.arena.live[id.0 as usize]
    }

    /// Whether the tree holds no window.
    pub fn is_empty(&self) -> (r: bool)
        requires
            self.wf(),
        ensures
            r == !self.has_leaf(),
    {
        self.focus.is_none()
    }

    pub fn root(&self) -> (r: NodeId)
        ensures
            r == self.root_id(),
    {
        self.arena.root
    }

    pub fn focus(&self) -> (r: Option<NodeId>)
        ensures
            r == self.focus_id(),
    {
        self.focus
    }

    pub fn root_is_focused(&self) -> (r: bool)
        ensures
            r == (self.focus_id() == Some(self.root_id())),
    {
        self.focus == Some(self.arena.root)
    }

    pub fn is_root(&self, id: NodeId) -> (r: bool)
        ensures
            r == (id == self.root_id()),
    {
        id == self.arena.root
    }

    /// Whether `id` names a node of the tree.
    pub fn contains(&self, id: NodeId) -> (r: bool)
        requires
            self.structure_ok(),
        ensures
            r == self.is_live(id),
    {
        self.is_live_exec(id)
    }

    pub fn is_split(&self, id: NodeId) -> (r: bool)
        requires
            self.structure_ok(),
        ensures
            r == self.is_split_node(id),
    {
        self.is_live_exec(id) && matches!(self.arena.kinds[id.0 as usize], NodeKind::Split(_))
    }

    /// The node `id` as seen from outside, if it exists.
    pub fn node(&self, id: NodeId) -> (r: Option<TreeNode>)
        requires
            self.structure_ok(),
        ensures
            r is None <==> !self.is_live(id),
            r matches Some(TreeNode::Split { layout, children }) ==> self.kind_of(id)
                == NodeKind::Split(layout) && children@ == self.children_of(id),
            r matches Some(TreeNode::Leaf { window }) ==> self.kind_of(id) == NodeKind::Leaf(
                window,
            ),
    {
        if !self.is_live_exec(id) {
            return None;
        }
        match self.arena.kinds[id.0 as usize] {
            NodeKind::Split(layout) => {
                let src = &self.arena.children[id.0 as usize];
                let mut children = Vec::new();
                for i in 0..src.len()
                    invariant
                        src@ == self.children_of(id),
                        children@ == src@.take(i as int),
                {
                    children.push(src[i]);
                    assert(src@.take(i + 1) =~= src@.take(i as int).push(src@[i as int]));
                }
                assert(src@.take(src@.len() as int) =~= src@);
                Some(TreeNode::Split { layout, children })
            },
            NodeKind::Leaf(window) => Some(TreeNode::Leaf { window }),
        }
    }

    /// Whether `id` lies in the subtree of `ancestor` (the node itself included).
    pub fn contains_node(&self, ancestor: NodeId, id: NodeId) -> (r: bool)
        requires
            self.structure_ok(),
        ensures
            r == self.is_desc(id, ancestor),
    {
        let mut cur = id;
        loop
            invariant
                self.structure_ok(),
                self.is_desc(id, ancestor) == self.is_desc(cur, ancestor),
            decreases self.depth_of(cur),
        {
            if cur == ancestor {
                return true;
            }
            if !self.is_live_exec(cur) {
                return false;
            }
            match self.arena.parents[cur.0 as usize] {
                None => {
                    return false;
                },
                Some(p) => {
                    assert(cur != self.arena.root);
                    assert(self.parent_of(cur) is Some);
                    cur = p;
                },
            }
        }
    }

    /// Position of `child` among the children of `parent`.
    pub fn child_index(&self, parent: NodeId, child: NodeId) -> (r: Option<usize>)
        requires
            self.structure_ok(),
        ensures
            match r {
                Some(i) => self.is_live(parent) && i < self.children_of(parent).len()
                    && self.children_of(parent)[i as int] == child,
                None => !self.is_live(parent) || !self.children_of(parent).contains(child),
            },
    {
        if !self.is_live_exec(parent) {
            return None;
        }
        let kids = &self.arena.children[parent.0 as usize];
        for i in 0..kids.len()
            invariant
                self.is_live(parent),
                kids@ == self.children_of(parent),
                forall|j: int| 0 <= j < i ==> kids@[j] != child,
        {
            if kids[i] == child {
                return Some(i);
            }
        }
        None
    }

    /// Number of children of a split.
    pub fn split_len(&self, id: NodeId) -> (r: Option<usize>)
        requires
            self.structure_ok(),
        ensures
            match r {
                Some(n) => self.is_split_node(id) && n == self.children_of(id).len(),
                None => !self.is_split_node(id),
            },
    {
        if self.is_split(id) {
            Some(self.arena.children[id.0 as usize].len())
        } else {
            None
        }
    }

    /// Children of the root split.
    pub fn root_children(&self) -> (r: &Vec<NodeId>)
        requires
            self.structure_ok(),
        ensures
            r@ == self.children_of(self.root_id()),
    {
        &self.arena.children[self.arena.root.0 as usize]
    }

    /// The first leaf, in depth-first order, below `id`.
    pub fn first_leaf_in(&self, id: NodeId) -> (r: Option<NodeId>)
        requires
            self.structure_ok(),
        ensures
            r == (if self.leaves_in(id).len() > 0 {
                Some(self.leaves_in(id)[0])
            } else {
                None
            }),
        decreases self.height_measure(id),
    {
        if !self.is_live_exec(id) {
            return None;
        }
        match self.arena.kinds[id.0 as usize] {
            NodeKind::Leaf(_) => Some(id),
            NodeKind::Split(_) => {
                let kids = &self.arena.children[id.0 as usize];
                let ghost all = self.children_of(id);
                assert(self.leaves_in(id) == self.leaves_of_list(id, all));
                assert(all.take(0) =~= Seq::<NodeId>::empty());
                for i in 0..kids.len()
                    invariant
                        self.structure_ok(),
                        self.is_live(id),
                        kids@ == all,
                        all == self.children_of(id),
                        self.leaves_in(id) == self.leaves_of_list(id, all),
                        self.leaves_of_list(id, all.take(i as int)).len() == 0,
                {
                    proof {
                        self.lemma_descends_child(id, i as int);
                        self.lemma_list_take_step(id, all, i as int);
                        self.lemma_list_split(id, all, i as int);
                        self.lemma_wf_depth_bound(id);
                    }
                    let r = self.first_leaf_in(kids[i]);
                    if r.is_some() {
                        assert(self.leaves_of_list(id, all.take(i as int)) =~= Seq::empty());
                        assert(self.leaves_in(id)[0] == self.leaves_in(kids@[i as int])[0]);
                        return r;
                    }
                }
                assert(all.take(all.len() as int) =~= all);
                None
            },
        }
    }

    /// Appends the leaves below `id`, in depth-first order, to `ids`.
    pub fn collect_leaf_ids(&self, id: NodeId, ids: &mut Vec<NodeId>)
        requires
            self.structure_ok(),
        ensures
            final(ids)@ == old(ids)@ + self.leaves_in(id),
        decreases self.height_measure(id),
    {
        if !self.is_live_exec(id) {
            assert(old(ids)@ + self.leaves_in(id) =~= old(ids)@);
            return;
        }
        match self.arena.kinds[id.0 as usize] {
            NodeKind::Leaf(_) => {
                ids.push(id);
            },
            NodeKind::Split(_) => {
                let kids = &self.arena.children[id.0 as usize];
                let ghost all = self.children_of(id);
                let ghost start = ids@;
                assert(self.leaves_in(id) == self.leaves_of_list(id, all));
                assert(all.take(0) =~= Seq::<NodeId>::empty());
                assert(start + Seq::<NodeId>::empty() =~= start);
                for i in 0..kids.len()
                    invariant
                        self.structure_ok(),
                        self.is_live(id),
                        kids@ == all,
                        all == self.children_of(id),
                        ids@ == start + self.leaves_of_list(id, all.take(i as int)),
                {
                    proof {
                        self.lemma_descends_child(id, i as int);
                        self.lemma_list_take_step(id, all, i as int);
                        self.lemma_wf_depth_bound(id);
                    }
                    self.collect_leaf_ids(kids[i], ids);
                    assert(ids@ =~= start + self.leaves_of_list(id, all.take(i + 1)));
                }
                assert(all.take(all.len() as int) =~= all);
            },
        }
    }

    /// The leaves below `id`, in depth-first order.
    pub fn leaf_ids_in(&self, id: NodeId) -> (r: Vec<NodeId>)
        requires
            self.structure_ok(),
        ensures
            r@ == self.leaves_in(id),
    {
        let mut ids = Vec::new();
        self.collect_leaf_ids(id, &mut ids);
        assert(Seq::<NodeId>::empty() + self.leaves_in(id) =~= self.leaves_in(id));
        ids
    }

    /// The first of `s[k..]` that is a leaf holding window `w`.
    pub closed spec fn window_leaf_from(self, s: Seq<NodeId>, w: u64, k: int) -> Option<NodeId>
        decreases s.len() - k,
    {
        if k < 0 || k >= s.len() {
            None
        } else if self.kind_of(s[k]) == NodeKind::Leaf(w) {
            Some(s[k])
        } else {
            self.window_leaf_from(s, w, k + 1)
        }
    }

    /// The first leaf, in depth-first order, that holds window `w`.
    pub open spec fn node_for_window_spec(self, w: u64) -> Option<NodeId> {
        self.window_leaf_from(self.leaves_in(self.root_id()), w, 0)
    }

    pub(crate) proof fn lemma_window_leaf_from(self, s: Seq<NodeId>, w: u64, k: int)
        requires
            0 <= k,
        ensures
            self.window_leaf_from(s, w, k) matches Some(l) ==> self.kind_of(l) == NodeKind::Leaf(w)
                && s.contains(l),
            self.window_leaf_from(s, w, k) is None ==> forall|j: int|
                k <= j < s.len() ==> self.kind_of(#[trigger] s[j]) != NodeKind::Leaf(w),
        decreases s.len() - k,
    {
        if 0 <= k < s.len() {
            self.lemma_window_leaf_from(s, w, k + 1);
            if self.kind_of(s[k]) == NodeKind::Leaf(w) {
                assert(s.contains(s[k]));
            }
        }
    }

    /// Finding a window's leaf looks at the nodes only.
    pub(crate) proof fn lemma_window_leaf_same_nodes(self, other: Self, s: Seq<NodeId>, w: u64, k: int)
        requires
            self.same_nodes(other),
        ensures
            self.window_leaf_from(s, w, k) == other.window_leaf_from(s, w, k),
        decreases s.len() - k,
    {
        if 0 <= k < s.len() {
            self.lemma_window_leaf_same_nodes(other, s, w, k + 1);
        }
    }

    /// The leaf found for a window holds it, and no leaf holds a window that is
    /// not found.
    pub(crate) proof fn lemma_node_for_window(self, w: u64)
        requires
            self.structure_ok(),
        ensures
            self.node_for_window_spec(w) matches Some(l) ==> self.is_leaf_node(l)
                && self.window_of(l) == w,
            self.node_for_window_spec(w) is None <==> forall|x: NodeId|
                #[trigger] self.is_leaf_node(x) ==> self.window_of(x) != w,
    {
        let s = self.leaves_in(self.root_id());
        self.lemma_window_leaf_from(s, w, 0);
        self.lemma_leaves_in(self.root_id());
        if let Some(l) = self.node_for_window_spec(w) {
            assert(s.contains(l));
            assert(self.window_of(l) == w);
        } else {
            assert forall|x: NodeId| #[trigger] self.is_leaf_node(x) implies self.window_of(x)
                != w by {
                self.lemma_desc_root(x);
                assert(s.contains(x));
                let j = choose|j: int| 0 <= j < s.len() && s[j] == x;
                assert(self.kind_of(s[j]) != NodeKind::Leaf(w));
            }
        }
    }

    /// Leaves with their windows, in depth-first order.
    pub fn windows(&self) -> (r: Vec<(NodeId, u64)>)
        requires
            self.structure_ok(),
        ensures
            r@.len() == self.leaf_order().len(),
            forall|i: int|
                0 <= i < r@.len() ==> (#[trigger] r@[i]).0 == self.leaf_order()[i]
                    && self.kind_of(r@[i].0) == NodeKind::Leaf(r@[i].1),
    {
        let leaves = self.leaf_ids_in(self.arena.root);
        proof {
            self.lemma_leaves_in(self.root_id());
            self.lemma_leaf_order();
        }
        let mut r: Vec<(NodeId, u64)> = Vec::new();
        for i in 0..leaves.len()
            invariant
                self.structure_ok(),
                leaves@ == self.leaves_in(self.root_id()),
                r@.len() == i,
                forall|j: int|
                    0 <= j < i ==> (#[trigger] r@[j]).0 == leaves@[j] && self.kind_of(r@[j].0)
                        == NodeKind::Leaf(r@[j].1),
        {
            let id = leaves[i];
            proof {
                self.lemma_leaves_in(self.root_id());
            }
            assert(leaves@.contains(id));
            match self.arena.kinds[id.0 as usize] {
                NodeKind::Leaf(w) => {
                    r.push((id, w));
                },
                NodeKind::Split(_) => {
                    assert(false);
                },
            }
        }
        r
    }

    /// The leaf holding window `w`.
    pub fn node_for_window(&self, w: u64) -> (r: Option<NodeId>)
        requires
            self.structure_ok(),
        ensures
            r == self.node_for_window_spec(w),
    {
        let leaves = self.leaf_ids_in(self.arena.root);
        proof {
            self.lemma_leaves_in(self.root_id());
        }
        for k in 0..leaves.len()
            invariant
                self.structure_ok(),
                leaves@ == self.leaves_in(self.root_id()),
                self.node_for_window_spec(w) == self.window_leaf_from(leaves@, w, k as int),
        {
            let id = leaves[k];
            proof {
                self.lemma_leaves_in(self.root_id());
            }
            assert(leaves@.contains(id));
            if self.arena.kinds[id.0 as usize] == NodeKind::Leaf(w) {
                return Some(id);
            }
        }
        None
    }

    /// Whether window `w` is in the tree.
    pub fn has_window(&self, w: u64) -> (r: bool)
        requires
            self.structure_ok(),
        ensures
            r == exists|x: NodeId| #[trigger] self.is_leaf_node(x) && self.window_of(x) == w,
    {
        proof {
            self.lemma_node_for_window(w);
        }
        self.node_for_window(w).is_some()
    }
}

} // verus!
