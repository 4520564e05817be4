//! Facts about ancestry and leaves in a well-formed tree.
use vstd::prelude::*;
use super::{Arena, NodeId, NodeKind, TilingTree};

verus! {

impl Arena {
    pub(crate) proof fn lemma_desc_unfold(self, x: NodeId, a: NodeId)
        requires
            self.wf_core(),
            self.is_live(x),
            x != self.root,
        ensures
            self.is_desc(x, a) == (x == a || self.is_desc(self.parent_of(x)->0, a)),
    {
        reveal_with_fuel(Arena::is_desc, 2);
    }

    pub(crate) proof fn lemma_child_desc(self, p: NodeId, i: int)
        requires
            self.wf_core(),
            self.is_live(p),
            0 <= i < self.children_of(p).len(),
        ensures
            self.is_desc(self.children_of(p)[i], p),
            self.children_of(p)[i] != self.root,
            self.children_of(p)[i] != p,
            self.depth_of(p) < self.depth_of(self.children_of(p)[i]),
    {
        let c = self.children_of(p)[i];
        assert(self.is_live(c) && self.parent_of(c) == Some(p));
        assert(self.parent_of(self.root) is None);
        assert(self.parent_of(c) is Some);
        assert(self.depth_of(p) < self.depth_of(c));
        reveal_with_fuel(Arena::is_desc, 2);
    }

    pub(crate) proof fn lemma_desc_live(self, x: NodeId, a: NodeId)
        requires
            self.wf_core(),
            self.is_live(x),
            self.is_desc(x, a),
        ensures
            self.is_live(a),
            self.depth_of(a) <= self.depth_of(x),
            x != a ==> self.depth_of(a) < self.depth_of(x),
        decreases self.depth_of(x),
    {
        if x != a {
            if x == self.root {
                assert(self.parent_of(x) is None);
            } else {
                let p = self.parent_of(x)->0;
                assert(self.parent_of(x) is Some);
                self.lemma_desc_live(p, a);
            }
        }
    }

    pub(crate) proof fn lemma_desc_root(self, x: NodeId)
        requires
            self.wf_core(),
            self.is_live(x),
        ensures
            self.is_desc(x, self.root),
        decreases self.depth_of(x),
    {
        if x != self.root {
            let p = self.parent_of(x)->0;
            assert(self.parent_of(x) is Some);
            self.lemma_desc_root(p);
        }
    }

    pub(crate) proof fn lemma_desc_child(self, x: NodeId, a: NodeId) -> (c: NodeId)
        requires
            self.wf_core(),
            self.is_live(x),
            self.is_desc(x, a),
            x != a,
        ensures
            self.children_of(a).contains(c),
            self.is_desc(x, c),
        decreases self.depth_of(x),
    {
        assert(x != self.root) by {
            if x == self.root {
                assert(self.parent_of(x) is None);
            }
        }
        let p = self.parent_of(x)->0;
        assert(self.parent_of(x) is Some);
        if p == a {
            assert(self.children_of(a).contains(x));
            x
        } else {
            let c = self.lemma_desc_child(p, a);
            assert(self.is_desc(x, c)) by {
                self.lemma_desc_unfold(x, p);
                self.lemma_desc_trans(x, p, c);
            }
            c
        }
    }

    pub(crate) proof fn lemma_desc_trans(self, x: NodeId, y: NodeId, z: NodeId)
        requires
            self.wf_core(),
            self.is_live(x),
            self.is_desc(x, y),
            self.is_desc(y, z),
        ensures
            self.is_desc(x, z),
        decreases self.depth_of(x),
    {
        if x != y {
            assert(x != self.root) by {
                if x == self.root {
                    assert(self.parent_of(x) is None);
                }
            }
            let p = self.parent_of(x)->0;
            assert(self.parent_of(x) is Some);
            self.lemma_desc_trans(p, y, z);
        }
    }

    pub(crate) proof fn lemma_desc_of_leaf(self, x: NodeId, a: NodeId)
        requires
            self.wf_core(),
            self.is_live(x),
            self.is_leaf(a),
            self.is_desc(x, a),
        ensures
            x == a,
    {
        if x != a {
            let c = self.lemma_desc_child(x, a);
            assert(self.children_of(a).len() == 0);
        }
    }

    pub(crate) proof fn lemma_desc_antisym(self, x: NodeId, y: NodeId)
        requires
            self.wf_core(),
            self.is_live(x),
            self.is_desc(x, y),
            self.is_desc(y, x),
        ensures
            x == y,
    {
        self.lemma_desc_live(x, y);
        self.lemma_desc_live(y, x);
    }

    pub(crate) proof fn lemma_leaves_append(self, p: NodeId, a: Seq<NodeId>, b: Seq<NodeId>)
        ensures
            self.leaves_of_list(p, a + b) == self.leaves_of_list(p, a) + self.leaves_of_list(p, b),
        decreases a.len(),
    {
        if a.len() == 0 {
            assert(a + b =~= b);
        } else {
            assert((a + b).drop_first() =~= a.drop_first() + b);
            self.lemma_leaves_append(p, a.drop_first(), b);
        }
    }

    pub(crate) proof fn lemma_leaves_single(self, p: NodeId, c: NodeId)
        requires
            self.descends(p, c),
        ensures
            self.leaves_of_list(p, seq![c]) == self.leaves_in(c),
    {
        assert(seq![c].drop_first() =~= Seq::<NodeId>::empty());
        reveal_with_fuel(Arena::leaves_of_list, 2);
        assert(self.leaves_in(c) + Seq::<NodeId>::empty() =~= self.leaves_in(c));
    }

    pub(crate) proof fn lemma_descends_child(self, p: NodeId, i: int)
        requires
            self.wf_core(),
            self.is_live(p),
            0 <= i < self.children_of(p).len(),
        ensures
            self.descends(p, self.children_of(p)[i]),
    {
        self.lemma_child_desc(p, i);
        assert(self.is_live(self.children_of(p)[i]));
    }

    pub(crate) proof fn lemma_leaves_in(self, id: NodeId)
        requires
            self.wf_core(),
        ensures
            forall|x: NodeId|
                #![trigger self.leaves_in(id).contains(x)]
                self.leaves_in(id).contains(x) <==> (self.is_leaf(x) && self.is_desc(x, id)),
        decreases self.height_measure(id), 1nat, 0nat,
    {
        if !self.is_live(id) {
            assert forall|x: NodeId| self.is_leaf(x) && self.is_desc(x, id) implies false by {
                self.lemma_desc_live(x, id);
            }
        } else {
            match self.kind_of(id) {
                NodeKind::Leaf(_) => {
                    assert forall|x: NodeId| self.is_leaf(x) && self.is_desc(x, id) implies x
                        == id by {
                        self.lemma_desc_of_leaf(x, id);
                    }
                    assert(seq![id][0] == id);
                    assert(seq![id].contains(id));
                    assert forall|x: NodeId| #[trigger] seq![id].contains(x) implies x == id by {
                    }
                },
                NodeKind::Split(_) => {
                    let kids = self.children_of(id);
                    assert forall|j: int| 0 <= j < kids.len() implies #[trigger] kids.contains(
                        kids[j],
                    ) by {}
                    self.lemma_leaves_of_list(id, kids);
                    assert(self.leaves_in(id) == self.leaves_of_list(id, kids));
                    assert forall|x: NodeId|
                        self.leaves_in(id).contains(x) <==> (self.is_leaf(x) && self.is_desc(
                            x,
                            id,
                        )) by {
                        if self.leaves_in(id).contains(x) {
                            let j = choose|j: int|
                                0 <= j < kids.len() && self.is_leaf(x) && self.is_desc(
                                    x,
                                    #[trigger] kids[j],
                                );
                            self.lemma_child_desc(id, j);
                            self.lemma_desc_trans(x, kids[j], id);
                        }
                        if self.is_leaf(x) && self.is_desc(x, id) {
                            assert(x != id);
                            let c = self.lemma_desc_child(x, id);
                            let j = kids.index_of(c);
                            assert(kids[j] == c);
                        }
                    }
                },
            }
        }
    }

    pub(crate) proof fn lemma_leaves_of_list(self, p: NodeId, kids: Seq<NodeId>)
        requires
            self.wf_core(),
            self.is_live(p),
            forall|j: int| 0 <= j < kids.len() ==> self.children_of(p).contains(#[trigger] kids[j]),
        ensures
            forall|x: NodeId|
                #![trigger self.leaves_of_list(p, kids).contains(x)]
                self.leaves_of_list(p, kids).contains(x) <==> exists|j: int|
                    0 <= j < kids.len() && self.is_leaf(x) && self.is_desc(x, #[trigger] kids[j]),
        decreases self.height_measure(p), 0nat, kids.len(),
    {
        if kids.len() > 0 {
            let c = kids[0];
            assert(self.children_of(p).contains(kids[0]));
            let i = self.children_of(p).index_of(c);
            self.lemma_descends_child(p, i);
            self.lemma_child_desc(p, i);
            let rest = kids.drop_first();
            assert forall|j: int| 0 <= j < rest.len() implies self.children_of(p).contains(
                #[trigger] rest[j],
            ) by {
                assert(rest[j] == kids[j + 1]);
            }
            self.lemma_leaves_in(c);
            self.lemma_leaves_of_list(p, rest);
            let all = self.leaves_of_list(p, kids);
            assert(all == self.leaves_in(c) + self.leaves_of_list(p, rest));
            assert forall|x: NodeId|
                all.contains(x) <==> exists|j: int|
                    0 <= j < kids.len() && self.is_leaf(x) && self.is_desc(
                        x,
                        #[trigger] kids[j],
                    ) by {
                self.lemma_concat_contains(self.leaves_in(c), self.leaves_of_list(p, rest), x);
                if all.contains(x) {
                    if self.leaves_in(c).contains(x) {
                        assert(kids[0] == c);
                    } else {
                        assert(self.leaves_of_list(p, rest).contains(x));
                        let j = choose|j: int|
                            0 <= j < rest.len() && self.is_leaf(x) && self.is_desc(
                                x,
                                #[trigger] rest[j],
                            );
                        assert(kids[j + 1] == rest[j]);
                    }
                }
                if exists|j: int|
                    0 <= j < kids.len() && self.is_leaf(x) && self.is_desc(
                        x,
                        #[trigger] kids[j],
                    ) {
                    let j = choose|j: int|
                        0 <= j < kids.len() && self.is_leaf(x) && self.is_desc(
                            x,
                            #[trigger] kids[j],
                        );
                    if j == 0 {
                        assert(self.leaves_in(c).contains(x));
                    } else {
                        assert(rest[j - 1] == kids[j]);
                        assert(self.leaves_of_list(p, rest).contains(x));
                    }
                }
            }
        }
    }

    pub(crate) proof fn lemma_concat_contains(self, a: Seq<NodeId>, b: Seq<NodeId>, x: NodeId)
        ensures
            (a + b).contains(x) <==> (a.contains(x) || b.contains(x)),
    {
        if (a + b).contains(x) {
            let k = choose|k: int| 0 <= k < (a + b).len() && (a + b)[k] == x;
            if k < a.len() {
                assert(a[k] == x);
            } else {
                assert(b[k - a.len()] == x);
            }
        }
        if a.contains(x) {
            let k = choose|k: int| 0 <= k < a.len() && a[k] == x;
            assert((a + b)[k] == x);
        }
        if b.contains(x) {
            let k = choose|k: int| 0 <= k < b.len() && b[k] == x;
            assert((a + b)[k + a.len()] == x);
        }
    }

    pub(crate) proof fn lemma_list_take_step(self, p: NodeId, kids: Seq<NodeId>, i: int)
        requires
            0 <= i < kids.len(),
            self.descends(p, kids[i]),
        ensures
            self.leaves_of_list(p, kids.take(i + 1)) == self.leaves_of_list(p, kids.take(i))
                + self.leaves_in(kids[i]),
    {
        assert(kids.take(i + 1) =~= kids.take(i) + seq![kids[i]]);
        self.lemma_leaves_append(p, kids.take(i), seq![kids[i]]);
        self.lemma_leaves_single(p, kids[i]);
    }

    pub(crate) proof fn lemma_list_split(self, p: NodeId, kids: Seq<NodeId>, i: int)
        requires
            0 <= i < kids.len(),
            self.descends(p, kids[i]),
        ensures
            self.leaves_of_list(p, kids) == self.leaves_of_list(p, kids.take(i)) + self.leaves_in(
                kids[i],
            ) + self.leaves_of_list(p, kids.skip(i + 1)),
    {
        assert(kids =~= kids.take(i + 1) + kids.skip(i + 1));
        self.lemma_leaves_append(p, kids.take(i + 1), kids.skip(i + 1));
        self.lemma_list_take_step(p, kids, i);
    }

    pub(crate) proof fn lemma_wf_depth_bound(self, p: NodeId)
        requires
            self.wf_core(),
            self.is_live(p),
        ensures
            forall|i: int|
                0 <= i < self.children_of(p).len() ==> self.height_measure(
                    #[trigger] self.children_of(p)[i],
                ) < self.height_measure(p),
    {
        assert forall|i: int| 0 <= i < self.children_of(p).len() implies self.height_measure(
            #[trigger] self.children_of(p)[i],
        ) < self.height_measure(p) by {
            self.lemma_child_desc(p, i);
            let c = self.children_of(p)[i];
            assert(self.is_live(c));
            assert(self.depth_of(c) <= self.max_depth@);
            assert(self.depth_of(p) <= self.max_depth@);
        }
    }

    pub(crate) proof fn lemma_desc_chain(self, x: NodeId, a: NodeId, b: NodeId)
        requires
            self.wf_core(),
            self.is_live(x),
            self.is_desc(x, a),
            self.is_desc(x, b),
        ensures
            self.is_desc(a, b) || self.is_desc(b, a),
        decreases self.depth_of(x),
    {
        if x != a && x != b {
            let p = self.parent_of(x)->0;
            assert(x != self.root) by {
                if x == self.root {
                    assert(self.parent_of(x) is None);
                }
            }
            self.lemma_desc_unfold(x, a);
            self.lemma_desc_unfold(x, b);
            assert(self.parent_of(x) is Some);
            self.lemma_desc_chain(p, a, b);
        }
    }
}

impl TilingTree {
    pub(crate) proof fn lemma_desc_unfold(self, x: NodeId, a: NodeId)
        requires
            self.structure_ok(),
            self.is_live(x),
            x != self.root_id(),
        ensures
            self.is_desc(x, a) == (x == a || self.is_desc(self.parent_of(x)->0, a)),
    {
        self.arena.lemma_desc_unfold(x, a)
    }

    pub(crate) proof fn lemma_child_desc(self, p: NodeId, i: int)
        requires
            self.structure_ok(),
            self.is_live(p),
            0 <= i < self.children_of(p).len(),
        ensures
            self.is_desc(self.children_of(p)[i], p),
            self.children_of(p)[i] != self.root_id(),
            self.children_of(p)[i] != p,
            self.depth_of(p) < self.depth_of(self.children_of(p)[i]),
    {
        self.arena.lemma_child_desc(p, i)
    }

    pub(crate) proof fn lemma_desc_live(self, x: NodeId, a: NodeId)
        requires
            self.structure_ok(),
            self.is_live(x),
            self.is_desc(x, a),
        ensures
            self.is_live(a),
            self.depth_of(a) <= self.depth_of(x),
            x != a ==> self.depth_of(a) < self.depth_of(x),
    {
        self.arena.lemma_desc_live(x, a)
    }

    pub(crate) proof fn lemma_desc_root(self, x: NodeId)
        requires
            self.structure_ok(),
            self.is_live(x),
        ensures
            self.is_desc(x, self.root_id()),
    {
        self.arena.lemma_desc_root(x)
    }

    pub(crate) proof fn lemma_desc_child(self, x: NodeId, a: NodeId) -> (c: NodeId)
        requires
            self.structure_ok(),
            self.is_live(x),
            self.is_desc(x, a),
            x != a,
        ensures
            self.children_of(a).contains(c),
            self.is_desc(x, c),
    {
        self.arena.lemma_desc_child(x, a)
    }

    pub(crate) proof fn lemma_desc_trans(self, x: NodeId, y: NodeId, z: NodeId)
        requires
            self.structure_ok(),
            self.is_live(x),
            self.is_desc(x, y),
            self.is_desc(y, z),
        ensures
            self.is_desc(x, z),
    {
        self.arena.lemma_desc_trans(x, y, z)
    }

    pub(crate) proof fn lemma_desc_of_leaf(self, x: NodeId, a: NodeId)
        requires
            self.structure_ok(),
            self.is_live(x),
            self.is_leaf_node(a),
            self.is_desc(x, a),
        ensures
            x == a,
    {
        self.arena.lemma_desc_of_leaf(x, a)
    }

    pub(crate) proof fn lemma_desc_antisym(self, x: NodeId, y: NodeId)
        requires
            self.structure_ok(),
            self.is_live(x),
            self.is_desc(x, y),
            self.is_desc(y, x),
        ensures
            x == y,
    {
        self.arena.lemma_desc_antisym(x, y)
    }

    pub(crate) proof fn lemma_leaves_append(self, p: NodeId, a: Seq<NodeId>, b: Seq<NodeId>)
        ensures
            self.leaves_of_list(p, a + b) == self.leaves_of_list(p, a) + self.leaves_of_list(p, b),
    {
        self.arena.lemma_leaves_append(p, a, b)
    }

    pub(crate) proof fn lemma_leaves_single(self, p: NodeId, c: NodeId)
        requires
            self.descends(p, c),
        ensures
            self.leaves_of_list(p, seq![c]) == self.leaves_in(c),
    {
        self.arena.lemma_leaves_single(p, c)
    }

    pub(crate) proof fn lemma_descends_child(self, p: NodeId, i: int)
        requires
            self.structure_ok(),
            self.is_live(p),
            0 <= i < self.children_of(p).len(),
        ensures
            self.descends(p, self.children_of(p)[i]),
    {
        self.arena.lemma_descends_child(p, i)
    }

    pub(crate) proof fn lemma_leaves_in(self, id: NodeId)
        requires
            self.structure_ok(),
        ensures
            forall|x: NodeId|
                #![trigger self.leaves_in(id).contains(x)]
                self.leaves_in(id).contains(x) <==> (self.is_leaf_node(x) && self.is_desc(x, id)),
    {
        self.arena.lemma_leaves_in(id)
    }

    pub(crate) proof fn lemma_leaves_of_list(self, p: NodeId, kids: Seq<NodeId>)
        requires
            self.structure_ok(),
            self.is_live(p),
            forall|j: int| 0 <= j < kids.len() ==> self.children_of(p).contains(#[trigger] kids[j]),
        ensures
            forall|x: NodeId|
                #![trigger self.leaves_of_list(p, kids).contains(x)]
                self.leaves_of_list(p, kids).contains(x) <==> exists|j: int|
                    0 <= j < kids.len() && self.is_leaf_node(x) && self.is_desc(x, #[trigger] kids[j]),
    {
        self.arena.lemma_leaves_of_list(p, kids)
    }

    pub(crate) proof fn lemma_concat_contains(self, a: Seq<NodeId>, b: Seq<NodeId>, x: NodeId)
        ensures
            (a + b).contains(x) <==> (a.contains(x) || b.contains(x)),
    {
        self.arena.lemma_concat_contains(a, b, x)
    }

    pub(crate) proof fn lemma_list_take_step(self, p: NodeId, kids: Seq<NodeId>, i: int)
        requires
            0 <= i < kids.len(),
            self.descends(p, kids[i]),
        ensures
            self.leaves_of_list(p, kids.take(i + 1)) == self.leaves_of_list(p, kids.take(i))
                + self.leaves_in(kids[i]),
    {
        self.arena.lemma_list_take_step(p, kids, i)
    }

    pub(crate) proof fn lemma_list_split(self, p: NodeId, kids: Seq<NodeId>, i: int)
        requires
            0 <= i < kids.len(),
            self.descends(p, kids[i]),
        ensures
            self.leaves_of_list(p, kids) == self.leaves_of_list(p, kids.take(i)) + self.leaves_in(
                kids[i],
            ) + self.leaves_of_list(p, kids.skip(i + 1)),
    {
        self.arena.lemma_list_split(p, kids, i)
    }

    pub(crate) proof fn lemma_wf_depth_bound(self, p: NodeId)
        requires
            self.structure_ok(),
            self.is_live(p),
        ensures
            forall|i: int|
                0 <= i < self.children_of(p).len() ==> self.height_measure(
                    #[trigger] self.children_of(p)[i],
                ) < self.height_measure(p),
    {
        self.arena.lemma_wf_depth_bound(p)
    }

    pub(crate) proof fn lemma_leaf_below(self, x: NodeId)
        requires
            self.wf(),
            self.is_live(x),
            x != self.root_id(),
        ensures
            self.leaves_in(x).len() > 0,
        decreases self.height_measure(x),
    {
        self.lemma_leaves_in(x);
        if self.kind_of(x) is Leaf {
            assert(self.is_desc(x, x));
            assert(self.leaves_in(x).contains(x));
        } else {
            assert(self.children_of(x).len() > 0);
            let c = self.children_of(x)[0];
            self.lemma_child_desc(x, 0);
            self.lemma_wf_depth_bound(x);
            self.lemma_leaf_below(c);
            self.lemma_leaves_in(c);
            let l = self.leaves_in(c)[0];
            assert(self.leaves_in(c).contains(l));
            self.lemma_desc_trans(l, c, x);
            assert(self.leaves_in(x).contains(l));
        }
    }

    pub(crate) proof fn lemma_root_leaves(self)
        requires
            self.structure_ok(),
        ensures
            self.has_leaf() <==> self.leaves_in(self.root_id()).len() > 0,
    {
        self.lemma_leaves_in(self.root_id());
        if self.has_leaf() {
            let x = self.lemma_leaf_witness();
            self.lemma_desc_root(x);
            assert(self.leaves_in(self.root_id()).contains(x));
        }
        if self.leaves_in(self.root_id()).len() > 0 {
            let l = self.leaves_in(self.root_id())[0];
            assert(self.leaves_in(self.root_id()).contains(l));
            self.lemma_leaf_has_leaf(l);
        }
    }

    pub(crate) proof fn lemma_desc_chain(self, x: NodeId, a: NodeId, b: NodeId)
        requires
            self.structure_ok(),
            self.is_live(x),
            self.is_desc(x, a),
            self.is_desc(x, b),
        ensures
            self.is_desc(a, b) || self.is_desc(b, a),
    {
        self.arena.lemma_desc_chain(x, a, b)
    }

    pub(crate) proof fn lemma_leaf_witness(self) -> (x: NodeId)
        requires
            self.has_leaf(),
        ensures
            self.is_leaf_node(x),
    {
        choose|x: NodeId| self.arena.is_leaf(x)
    }

    pub(crate) proof fn lemma_leaf_has_leaf(self, x: NodeId)
        requires
            self.is_leaf_node(x),
        ensures
            self.has_leaf(),
    {
        assert(self.arena.is_leaf(x));
    }
}

} // verus!
