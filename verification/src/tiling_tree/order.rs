//! Depth-first pre-order of all nodes.
use vstd::prelude::*;
use super::{Arena, NodeId, TilingTree};

verus! {

impl Arena {
    pub(crate) proof fn lemma_preorder_append(self, p: NodeId, a: Seq<NodeId>, b: Seq<NodeId>)
        ensures
            self.preorder_of_list(p, a + b) == self.preorder_of_list(p, a) + self.preorder_of_list(
                p,
                b,
            ),
        decreases a.len(),
    {
        if a.len() == 0 {
            assert(a + b =~= b);
        } else {
            assert((a + b).drop_first() =~= a.drop_first() + b);
            self.lemma_preorder_append(p, a.drop_first(), b);
        }
    }

    pub(crate) proof fn lemma_preorder_take_step(self, p: NodeId, kids: Seq<NodeId>, i: int)
        requires
            0 <= i < kids.len(),
            self.descends(p, kids[i]),
        ensures
            self.preorder_of_list(p, kids.take(i + 1)) == self.preorder_of_list(p, kids.take(i))
                + self.preorder(kids[i]),
    {
        assert(kids.take(i + 1) =~= kids.take(i) + seq![kids[i]]);
        self.lemma_preorder_append(p, kids.take(i), seq![kids[i]]);
        assert(seq![kids[i]].drop_first() =~= Seq::<NodeId>::empty());
        reveal_with_fuel(Arena::preorder_of_list, 2);
        assert(self.preorder(kids[i]) + Seq::<NodeId>::empty() =~= self.preorder(kids[i]));
    }

    /// The pre-order below `id` holds exactly the live nodes of its subtree.
    pub(crate) proof fn lemma_preorder(self, id: NodeId)
        requires
            self.wf_core(),
        ensures
            forall|x: NodeId|
                #![trigger self.preorder(id).contains(x)]
                self.preorder(id).contains(x) <==> (self.is_live(x) && self.is_desc(x, id)),
        decreases self.height_measure(id), 1nat, 0nat,
    {
        if !self.is_live(id) {
            assert forall|x: NodeId| self.is_live(x) && self.is_desc(x, id) implies false by {
                self.lemma_desc_live(x, id);
            }
        } else {
            let kids = self.children_of(id);
            assert forall|j: int| 0 <= j < kids.len() implies #[trigger] kids.contains(kids[j]) by {}
            self.lemma_preorder_of_list(id, kids);
            let rest = self.preorder_of_list(id, kids);
            assert(self.preorder(id) == seq![id] + rest);
            assert forall|x: NodeId|
                self.preorder(id).contains(x) <==> (self.is_live(x) && self.is_desc(x, id)) by {
                self.lemma_concat_contains(seq![id], rest, x);
                assert(seq![id][0] == id);
                if seq![id].contains(x) {
                    let k = choose|k: int| 0 <= k < 1 && seq![id][k] == x;
                    assert(x == id);
                }
                if rest.contains(x) {
                    let j = choose|j: int|
                        0 <= j < kids.len() && self.is_live(x) && self.is_desc(
                            x,
                            #[trigger] kids[j],
                        );
                    self.lemma_child_desc(id, j);
                    self.lemma_desc_trans(x, kids[j], id);
                }
                if self.is_live(x) && self.is_desc(x, id) && x != id {
                    let c = self.lemma_desc_child(x, id);
                    let j = kids.index_of(c);
                    assert(kids[j] == c);
                    assert(rest.contains(x));
                }
                if x == id {
                    assert(seq![id].contains(x));
                }
            }
        }
    }

    pub(crate) proof fn lemma_preorder_of_list(self, p: NodeId, kids: Seq<NodeId>)
        requires
            self.wf_core(),
            self.is_live(p),
            forall|j: int| 0 <= j < kids.len() ==> self.children_of(p).contains(#[trigger] kids[j]),
        ensures
            forall|x: NodeId|
                #![trigger self.preorder_of_list(p, kids).contains(x)]
                self.preorder_of_list(p, kids).contains(x) <==> exists|j: int|
                    0 <= j < kids.len() && self.is_live(x) && self.is_desc(x, #[trigger] kids[j]),
        decreases self.height_measure(p), 0nat, kids.len(),
    {
        if kids.len() > 0 {
            let c = kids[0];
            assert(self.children_of(p).contains(kids[0]));
            let i = self.children_of(p).index_of(c);
            self.lemma_descends_child(p, i);
            self.lemma_child_desc(p, i);
            let rest = kids.drop_first();
            assert forall|j: int| 0 <= j < rest.len() implies self.children_of(p).contains(
                #[trigger] rest[j],
            ) by {
                assert(rest[j] == kids[j + 1]);
            }
            self.lemma_preorder(c);
            self.lemma_preorder_of_list(p, rest);
            let all = self.preorder_of_list(p, kids);
            assert(all == self.preorder(c) + self.preorder_of_list(p, rest));
            assert forall|x: NodeId|
                all.contains(x) <==> exists|j: int|
                    0 <= j < kids.len() && self.is_live(x) && self.is_desc(
                        x,
                        #[trigger] kids[j],
                    ) by {
                self.lemma_concat_contains(self.preorder(c), self.preorder_of_list(p, rest), x);
                if all.contains(x) {
                    if self.preorder(c).contains(x) {
                        assert(kids[0] == c);
                    } else {
                        assert(self.preorder_of_list(p, rest).contains(x));
                        let j = choose|j: int|
                            0 <= j < rest.len() && self.is_live(x) && self.is_desc(
                                x,
                                #[trigger] rest[j],
                            );
                        assert(kids[j + 1] == rest[j]);
                    }
                }
                if exists|j: int|
                    0 <= j < kids.len() && self.is_live(x) && self.is_desc(
                        x,
                        #[trigger] kids[j],
                    ) {
                    let j = choose|j: int|
                        0 <= j < kids.len() && self.is_live(x) && self.is_desc(
                            x,
                            #[trigger] kids[j],
                        );
                    if j == 0 {
                        assert(self.preorder(c).contains(x));
                    } else {
                        assert(rest[j - 1] == kids[j]);
                        assert(self.preorder_of_list(p, rest).contains(x));
                    }
                }
            }
        }
    }
}

impl TilingTree {
    /// Every live node appears in the pre-order from the root.
    pub(crate) proof fn lemma_preorder_root(self)
        requires
            self.structure_ok(),
        ensures
            forall|x: NodeId|
                #![trigger self.preorder(self.root_id()).contains(x)]
                self.preorder(self.root_id()).contains(x) <==> self.is_live(x),
    {
        self.arena.lemma_preorder(self.root_id());
        assert forall|x: NodeId| self.is_live(x) implies self.preorder(self.root_id()).contains(x) by {
            self.lemma_desc_root(x);
        }
    }

    /// Appends the nodes below `id`, in depth-first pre-order, to `ids`.
    pub fn collect_depth_first(&self, id: NodeId, ids: &mut Vec<NodeId>)
        requires
            self.structure_ok(),
        ensures
            final(ids)@ == old(ids)@ + self.preorder(id),
        decreases self.height_measure(id),
    {
        if !self.is_live_exec(id) {
            assert(old(ids)@ + self.preorder(id) =~= old(ids)@);
            return;
        }
        ids.push(id);
        let kids = &self.arena.children[id.0 as usize];
        let ghost all = self.children_of(id);
        let ghost start = ids@;
        assert(all.take(0) =~= Seq::<NodeId>::empty());
        assert(start + Seq::<NodeId>::empty() =~= start);
        for i in 0..kids.len()
            invariant
                self.structure_ok(),
                self.is_live(id),
                kids@ == all,
                all == self.children_of(id),
                ids@ == start + self.arena.preorder_of_list(id, all.take(i as int)),
        {
            proof {
                self.lemma_descends_child(id, i as int);
                self.arena.lemma_preorder_take_step(id, all, i as int);
                self.lemma_wf_depth_bound(id);
            }
            self.collect_depth_first(kids[i], ids);
            assert(ids@ =~= start + self.arena.preorder_of_list(id, all.take(i + 1)));
        }
        assert(all.take(all.len() as int) =~= all);
        assert(old(ids)@ + self.preorder(id) =~= start + self.arena.preorder_of_list(id, all));
    }

    /// All nodes in depth-first pre-order from the root.
    pub fn iter_depth_first(&self) -> (r: Vec<NodeId>)
        requires
            self.structure_ok(),
        ensures
            r@ == self.preorder(self.root_id()),
    {
        let mut ids = Vec::new();
        self.collect_depth_first(self.arena.root, &mut ids);
        assert(Seq::<NodeId>::empty() + self.preorder(self.root_id()) =~= self.preorder(
            self.root_id(),
        ));
        ids
    }
}

} // verus!
