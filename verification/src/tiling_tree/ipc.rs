//! The tree as sway's `get_tree` reports it, without geometry: each node's
//! kind, parent, focus flags, fullscreen mode, title format and focus order.
use vstd::prelude::*;
use super::{FullscreenMode, NodeId, NodeKind, TilingTree, child_containing};

verus! {

/// One node of the IPC tree.
pub struct IpcEntry {
    pub id: NodeId,
    pub parent: Option<NodeId>,
    pub kind: NodeKind,
    pub focused: bool,
    pub fullscreen: Option<FullscreenMode>,
    pub title: Option<String>,
    /// The children in focus order (empty for a leaf).
    pub focus: Vec<NodeId>,
}

/// `s` with each element kept at its first occurrence only.
pub open spec fn first_occurrences(s: Seq<NodeId>) -> Seq<NodeId>
    decreases s.len(),
{
    if s.len() == 0 {
        Seq::empty()
    } else {
        let r = first_occurrences(s.drop_last());
        if r.contains(s.last()) {
            r
        } else {
            r.push(s.last())
        }
    }
}

impl TilingTree {
    /// The first child of `p` whose subtree holds `x`.
    pub closed spec fn child_holding(self, p: NodeId, x: NodeId) -> Option<NodeId> {
        child_containing(self.arena, p, x, 0)
    }

    /// For each entry of `h` below split `p`, in order, the child of `p` that holds it.
    pub open spec fn children_holding(self, p: NodeId, h: Seq<NodeId>) -> Seq<NodeId>
        decreases h.len(),
    {
        if h.len() == 0 {
            Seq::empty()
        } else {
            let r = self.children_holding(p, h.drop_last());
            match self.child_holding(p, h.last()) {
                Some(c) => r.push(c),
                None => r,
            }
        }
    }

    /// The children of split `id` in focus order: those that hold an entry of
    /// the focus history, in history order, then the others, each once.
    pub open spec fn focus_order(self, id: NodeId) -> Seq<NodeId> {
        if self.is_split_node(id) {
            first_occurrences(self.children_holding(id, self.history()) + self.children_of(id))
        } else {
            Seq::empty()
        }
    }

    /// `e` reports node `id` as it stands in this tree.
    pub open spec fn reports(self, e: IpcEntry, id: NodeId) -> bool {
        &&& e.id == id
        &&& e.parent == self.parent_of(id)
        &&& e.kind == self.kind_of(id)
        &&& e.focused == (self.focus_id() == Some(id))
        &&& e.fullscreen == self.mode_of(id).fullscreen
        &&& (match e.title {
            Some(t) => self.title_format_of(id) == Some(t@),
            None => self.title_format_of(id) is None,
        })
        &&& e.focus@ == self.focus_order(id)
    }

    /// The first child of split `p` whose subtree holds `x`.
    fn child_holding_exec(&self, p: NodeId, x: NodeId) -> (r: Option<NodeId>)
        requires
            self.structure_ok(),
            self.is_split_node(p),
        ensures
            r == self.child_holding(p, x),
    {
        let kids = &self.arena.children[p.0 as usize];
        for i in 0..kids.len()
            invariant
                self.structure_ok(),
                self.is_split_node(p),
                kids@ == self.children_of(p),
                child_containing(self.arena, p, x, 0) == child_containing(self.arena, p, x, i as int),
        {
            if self.contains_node(kids[i], x) {
                return Some(kids[i]);
            }
        }
        None
    }

    /// The children of split `p` in focus order.
    fn focus_order_exec(&self, p: NodeId) -> (r: Vec<NodeId>)
        requires
            self.structure_ok(),
            self.is_split_node(p),
        ensures
            r@ == self.focus_order(p),
    {
        let mut r: Vec<NodeId> = Vec::new();
        let n = self.focus_history.len();
        let ghost h = self.focus_history@;
        assert(h.take(0) =~= Seq::<NodeId>::empty());
        for k in 0..n
            invariant
                self.structure_ok(),
                self.is_split_node(p),
                h == self.focus_history@,
                h == self.history(),
                n == h.len(),
                r@ == first_occurrences(self.children_holding(p, h.take(k as int))),
        {
            let ghost before = h.take(k as int);
            assert(h.take(k + 1).drop_last() =~= before);
            assert(h.take(k + 1).last() == h[k as int]);
            let f = self.focus_history[k];
            match self.child_holding_exec(p, f) {
                Some(c) => {
                    let ghost s = self.children_holding(p, before);
                    assert(s.push(c).drop_last() =~= s);
                    push_new(&mut r, c);
                },
                None => {},
            }
        }
        assert(h.take(n as int) =~= h);
        let kids = &self.arena.children[p.0 as usize];
        let ghost hc = self.children_holding(p, h);
        assert(hc + kids@.take(0) =~= hc);
        for j in 0..kids.len()
            invariant
                kids@ == self.children_of(p),
                r@ == first_occurrences(hc + kids@.take(j as int)),
        {
            let ghost s = hc + kids@.take(j as int);
            assert((hc + kids@.take(j + 1)).drop_last() =~= s);
            assert((hc + kids@.take(j + 1)).last() == kids@[j as int]);
            push_new(&mut r, kids[j]);
        }
        assert(kids@.take(kids@.len() as int) =~= kids@);
        r
    }

    /// The IPC tree without geometry: one entry per node, in depth-first
    /// pre-order from the root.
    pub fn ipc_skeleton(&self) -> (r: Vec<IpcEntry>)
        requires
            self.wf(),
        ensures
            r@.len() == self.preorder(self.root_id()).len(),
            forall|i: int|
                0 <= i < r@.len() ==> self.reports(#[trigger] r@[i], self.preorder(self.root_id())[i]),
    {
        let mut order: Vec<NodeId> = Vec::new();
        let root = self.arena.root;
        self.collect_depth_first(root, &mut order);
        proof {
            assert(order@ =~= self.preorder(self.root_id()));
            self.arena.lemma_preorder(root);
        }
        let mut r: Vec<IpcEntry> = Vec::new();
        for i in 0..order.len()
            invariant
                self.wf(),
                order@ == self.preorder(self.root_id()),
                forall|x: NodeId|
                    #![trigger order@.contains(x)]
                    order@.contains(x) ==> self.is_live(x),
                r@.len() == i,
                forall|k: int| 0 <= k < i ==> self.reports(#[trigger] r@[k], order@[k]),
        {
            let id = order[i];
            assert(order@.contains(id));
            assert(self.is_live(id));
            let entry = self.ipc_entry(id);
            r.push(entry);
        }
        r
    }

    /// The entry of live node `id`.
    fn ipc_entry(&self, id: NodeId) -> (e: IpcEntry)
        requires
            self.wf(),
            self.is_live(id),
        ensures
            self.reports(e, id),
    {
        let kind = self.arena.kinds[id.0 as usize];
        let focus = match kind {
            NodeKind::Split(_) => self.focus_order_exec(id),
            NodeKind::Leaf(_) => Vec::new(),
        };
        let title = match self.title_format(id) {
            Some(t) => Some(t.clone()),
            None => None,
        };
        IpcEntry {
            id,
            parent: self.arena.parents[id.0 as usize],
            kind,
            focused: match self.focus {
                Some(f) => f.0 == id.0,
                None => false,
            },
            fullscreen: self.modes[id.0 as usize].fullscreen,
            title,
            focus,
        }
    }
}

/// Appends `x` to `v` unless `v` already holds it.
fn push_new(v: &mut Vec<NodeId>, x: NodeId)
    ensures
        final(v)@ == if old(v)@.contains(x) {
            old(v)@
        } else {
            old(v)@.push(x)
        },
{
    let mut found = false;
    for i in 0..v.len()
        invariant
            found == exists|k: int| 0 <= k < i && v@[k] == x,
    {
        if v[i].0 == x.0 {
            found = true;
        }
    }
    if !found {
        v.push(x);
    }
}

} // verus!
