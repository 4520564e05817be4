//! Ancestry among the nodes that stay when nodes are taken out of a tree.
use vstd::prelude::*;
use super::{Arena, NodeId};

verus! {

impl Arena {
    /// In `a1`, `y` hangs from one of its ancestors in `a0`, and every node
    /// between the two in `a0` is gone from `a1`.
    pub(crate) open spec fn bypasses(a0: Arena, a1: Arena, y: NodeId) -> bool {
        &&& a1.parent_of(y) is Some
        &&& a0.is_desc(y, a1.parent_of(y)->0)
        &&& forall|z: NodeId|
            #![trigger a0.is_desc(y, z)]
            a0.is_desc(y, z) && a0.is_desc(z, a1.parent_of(y)->0) && z != y && z != a1.parent_of(y)->0
                ==> !a1.is_live(z)
    }

    /// When `a1` keeps some nodes of `a0` and each of them hangs from its
    /// nearest kept ancestor, ancestry among the kept nodes is as in `a0`.
    pub(crate) proof fn lemma_desc_kept(a0: Arena, a1: Arena, x: NodeId, a: NodeId)
        requires
            a0.wf_core(),
            a1.wf_core(),
            a1.root == a0.root,
            a1.depth == a0.depth,
            forall|y: NodeId| #[trigger] a1.is_live(y) ==> a0.is_live(y),
            forall|y: NodeId| #[trigger] a1.is_live(y) && y != a1.root ==> Arena::bypasses(a0, a1, y),
            a1.is_live(x),
            a1.is_live(a),
        ensures
            a1.is_desc(x, a) == a0.is_desc(x, a),
        decreases a0.depth_of(x),
    {
        if x == a {
            reveal_with_fuel(Arena::is_desc, 1);
        } else if x == a0.root {
            reveal_with_fuel(Arena::is_desc, 1);
        } else {
            assert(a1.is_live(x) && x != a1.root);
            assert(Arena::bypasses(a0, a1, x));
            let q = a1.parent_of(x)->0;
            a1.lemma_desc_unfold(x, a);
            a1.lemma_desc_unfold(x, q);
            assert(a1.is_desc(q, q)) by {
                reveal_with_fuel(Arena::is_desc, 1);
            }
            a1.lemma_desc_live(x, q);
            assert(x != q) by {
                if x == q {
                    a1.lemma_desc_unfold(x, x);
                }
            }
            a0.lemma_desc_live(x, q);
            Arena::lemma_desc_kept(a0, a1, q, a);
            if a0.is_desc(q, a) {
                a0.lemma_desc_trans(x, q, a);
            }
            if a0.is_desc(x, a) && !a0.is_desc(q, a) {
                a0.lemma_desc_chain(x, a, q);
                assert(a0.is_desc(a, q));
            }
        }
    }

    /// A node whose parent is the same in `a1` as in `a0` bypasses nothing.
    pub(crate) proof fn lemma_bypass_same_parent(a0: Arena, a1: Arena, y: NodeId)
        requires
            a0.wf_core(),
            a0.is_live(y),
            y != a0.root,
            a1.parent_of(y) == a0.parent_of(y),
        ensures
            Arena::bypasses(a0, a1, y),
    {
        let q = a0.parent_of(y)->0;
        a0.lemma_desc_unfold(y, q);
        assert(a0.is_desc(q, q)) by {
            reveal_with_fuel(Arena::is_desc, 1);
        }
        assert forall|z: NodeId|
            #![trigger a0.is_desc(y, z)]
            a0.is_desc(y, z) && a0.is_desc(z, q) && z != y && z != q implies !a1.is_live(z) by {
            a0.lemma_desc_unfold(y, z);
            a0.lemma_desc_live(y, q);
            a0.lemma_desc_antisym(q, z);
        }
    }

    /// A node that `a1` hangs from the grandparent of its parent in `a0`,
    /// both of which are gone, bypasses only those two.
    pub(crate) proof fn lemma_bypass_two(a0: Arena, a1: Arena, y: NodeId, c: NodeId, i: NodeId)
        requires
            a0.wf_core(),
            a0.is_live(y),
            y != a0.root,
            a0.parent_of(y) == Some(c),
            c != a0.root,
            a0.parent_of(c) == Some(i),
            i != a0.root,
            a1.parent_of(y) == a0.parent_of(i),
            !a1.is_live(c),
            !a1.is_live(i),
        ensures
            Arena::bypasses(a0, a1, y),
    {
        let p = a0.parent_of(i)->0;
        assert(a0.is_live(c) && a0.is_live(i)) by {
            a0.lemma_desc_unfold(y, c);
            assert(a0.is_desc(c, c)) by {
                reveal_with_fuel(Arena::is_desc, 1);
            }
            a0.lemma_desc_live(y, c);
            a0.lemma_desc_unfold(c, i);
            assert(a0.is_desc(i, i)) by {
                reveal_with_fuel(Arena::is_desc, 1);
            }
            a0.lemma_desc_live(c, i);
        }
        a0.lemma_desc_unfold(y, p);
        a0.lemma_desc_unfold(c, p);
        a0.lemma_desc_unfold(i, p);
        assert(a0.is_desc(p, p)) by {
            reveal_with_fuel(Arena::is_desc, 1);
        }
        assert forall|z: NodeId|
            #![trigger a0.is_desc(y, z)]
            a0.is_desc(y, z) && a0.is_desc(z, p) && z != y && z != p implies !a1.is_live(z) by {
            a0.lemma_desc_unfold(y, z);
            if z != c {
                a0.lemma_desc_unfold(c, z);
                if z != i {
                    a0.lemma_desc_unfold(i, z);
                    a0.lemma_desc_live(i, p);
                    a0.lemma_desc_live(z, p);
                    a0.lemma_desc_antisym(p, z);
                }
            }
        }
    }
    /// Merging the single child `c` of `id` into the parent of `id` keeps
    /// ancestry among the nodes that stay.
    pub(crate) proof fn lemma_squash_ancestry(a0: Arena, a1: Arena, id: NodeId, c: NodeId)
        requires
            a0.wf_core(),
            a1.wf_core(),
            a1.root == a0.root,
            a1.depth == a0.depth,
            a0.is_live(id),
            id != a0.root,
            a0.children_of(id).len() == 1,
            a0.children_of(id)[0] == c,
            forall|y: NodeId| #[trigger] a1.is_live(y) <==> (a0.is_live(y) && y != id && y != c),
            forall|y: NodeId|
                #![trigger a1.parent_of(y)]
                y.0 < a0.parents@.len() ==> a1.parent_of(y) == if a0.children_of(c).contains(y) {
                    a0.parent_of(id)
                } else {
                    a0.parent_of(y)
                },
        ensures
            forall|x: NodeId, a: NodeId|
                #![trigger a1.is_desc(x, a)]
                a1.is_live(x) && a1.is_live(a) ==> a1.is_desc(x, a) == a0.is_desc(x, a),
    {
        a0.lemma_child_desc(id, 0);
        assert(a0.parent_of(c) == Some(id)) by {
            assert(a0.is_live(c));
            assert(a0.parent_of(c) is Some);
            assert(a0.children_of(a0.parent_of(c)->0).contains(c));
            a0.lemma_desc_unfold(c, id);
            if a0.parent_of(c) != Some(id) {
                a0.lemma_desc_live(a0.parent_of(c)->0, id);
                let k = a0.children_of(id).index_of(c);
                assert(a0.children_of(id)[k] == c);
            }
        }
        assert forall|y: NodeId| #[trigger] a1.is_live(y) && y != a1.root implies Arena::bypasses(a0, a1, y) by {
            assert(a0.is_live(y));
            assert(y.0 < a0.parents@.len());
            if a0.children_of(c).contains(y) {
                let k = a0.children_of(c).index_of(y);
                a0.lemma_child_desc(c, k);
                assert(a0.parent_of(y) == Some(c));
                Arena::lemma_bypass_two(a0, a1, y, c, id);
            } else {
                Arena::lemma_bypass_same_parent(a0, a1, y);
            }
        }
        assert forall|x: NodeId, a: NodeId|
            #![trigger a1.is_desc(x, a)]
            a1.is_live(x) && a1.is_live(a) implies a1.is_desc(x, a) == a0.is_desc(x, a) by {
            Arena::lemma_desc_kept(a0, a1, x, a);
        }
    }

    /// Taking out a node with no children keeps ancestry among the others.
    pub(crate) proof fn lemma_unlink_ancestry(a0: Arena, a1: Arena)
        requires
            a0.wf_core(),
            a1.wf_core(),
            a1.root == a0.root,
            a1.depth == a0.depth,
            a1.parents == a0.parents,
            forall|y: NodeId| #[trigger] a1.is_live(y) ==> a0.is_live(y),
        ensures
            forall|x: NodeId, a: NodeId|
                #![trigger a1.is_desc(x, a)]
                a1.is_live(x) && a1.is_live(a) ==> a1.is_desc(x, a) == a0.is_desc(x, a),
    {
        assert forall|y: NodeId| #[trigger] a1.is_live(y) && y != a1.root implies Arena::bypasses(a0, a1, y) by {
            Arena::lemma_bypass_same_parent(a0, a1, y);
        }
        assert forall|x: NodeId, a: NodeId|
            #![trigger a1.is_desc(x, a)]
            a1.is_live(x) && a1.is_live(a) implies a1.is_desc(x, a) == a0.is_desc(x, a) by {
            Arena::lemma_desc_kept(a0, a1, x, a);
        }
    }
    /// A node that `a1` hangs from the parent of its gone parent in `a0`
    /// bypasses only that one.
    pub(crate) proof fn lemma_bypass_one(a0: Arena, a1: Arena, y: NodeId, x: NodeId)
        requires
            a0.wf_core(),
            a0.is_live(y),
            y != a0.root,
            a0.parent_of(y) == Some(x),
            x != a0.root,
            a1.parent_of(y) == a0.parent_of(x),
            !a1.is_live(x),
        ensures
            Arena::bypasses(a0, a1, y),
    {
        let p = a0.parent_of(x)->0;
        a0.lemma_desc_unfold(y, x);
        assert(a0.is_desc(x, x)) by {
            reveal_with_fuel(Arena::is_desc, 1);
        }
        a0.lemma_desc_live(y, x);
        a0.lemma_desc_unfold(y, p);
        a0.lemma_desc_unfold(x, p);
        assert(a0.is_desc(p, p)) by {
            reveal_with_fuel(Arena::is_desc, 1);
        }
        assert forall|z: NodeId|
            #![trigger a0.is_desc(y, z)]
            a0.is_desc(y, z) && a0.is_desc(z, p) && z != y && z != p implies !a1.is_live(z) by {
            a0.lemma_desc_unfold(y, z);
            if z != x {
                a0.lemma_desc_unfold(x, z);
                a0.lemma_desc_live(x, p);
                a0.lemma_desc_live(z, p);
                a0.lemma_desc_antisym(p, z);
            }
        }
    }

    /// Putting the single child `c` of `x` in the place of `x` keeps
    /// ancestry among the nodes that stay.
    pub(crate) proof fn lemma_promote_ancestry(a0: Arena, a1: Arena, x: NodeId, c: NodeId)
        requires
            a0.wf_core(),
            a1.wf_core(),
            a1.root == a0.root,
            a1.depth == a0.depth,
            a0.is_live(x),
            x != a0.root,
            a0.children_of(x).len() == 1,
            a0.children_of(x)[0] == c,
            forall|y: NodeId| #[trigger] a1.is_live(y) <==> (a0.is_live(y) && y != x),
            a1.parents@ == a0.parents@.update(c.0 as int, a0.parent_of(x)),
        ensures
            forall|y: NodeId, a: NodeId|
                #![trigger a1.is_desc(y, a)]
                a1.is_live(y) && a1.is_live(a) ==> a1.is_desc(y, a) == a0.is_desc(y, a),
    {
        a0.lemma_child_desc(x, 0);
        assert(a0.is_live(c));
        assert(a0.parent_of(c) == Some(x)) by {
            assert(a0.children_of(x).contains(c));
        }
        assert forall|y: NodeId| #[trigger] a1.is_live(y) && y != a1.root implies Arena::bypasses(a0, a1, y) by {
            if y == c {
                assert(a1.parent_of(c) == a0.parent_of(x));
                Arena::lemma_bypass_one(a0, a1, c, x);
            } else {
                assert(a1.parent_of(y) == a0.parent_of(y));
                Arena::lemma_bypass_same_parent(a0, a1, y);
            }
        }
        assert forall|y: NodeId, a: NodeId|
            #![trigger a1.is_desc(y, a)]
            a1.is_live(y) && a1.is_live(a) implies a1.is_desc(y, a) == a0.is_desc(y, a) by {
            Arena::lemma_desc_kept(a0, a1, y, a);
        }
    }
}

} // verus!
