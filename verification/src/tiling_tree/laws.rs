//! Laws that relate operations on the tree.
use vstd::prelude::*;
use crate::elements::SizingMode;
use super::{NodeId, TilingTree};
use super::movement::{lemma_ids_below, reorder};
use super::swap::swapped_children;
use super::focus::{lemma_without, without};
use super::leaf_order::lemma_without_concat;

verus! {

/// In a sequence without repeats, an entry's index is where it stands.
proof fn lemma_index_of_unique(s: Seq<NodeId>, i: int)
    requires
        s.no_duplicates(),
        0 <= i < s.len(),
    ensures
        s.index_of(s[i]) == i,
{
    assert(s.contains(s[i]));
}

/// Removing the window just added gives that window back and leaves the
/// tree with the windows it had before, in the same leaves and in the same
/// order.
pub proof fn law_remove_undoes_add(
    t0: TilingTree,
    t1: TilingTree,
    t2: TilingTree,
    window: u64,
    id: NodeId,
    mode: SizingMode,
    target: Option<NodeId>,
    r: Option<u64>,
)
    requires
        t0.wf(),
        t0.leaf_added(t1, window, id, mode),
        t1.leaf_order() == t0.leaves_after_adding(target, id),
        t1.leaf_removed(t2, id, r),
        t2.leaf_order() == without(t1.leaf_order(), id),
    ensures
        r == Some(window),
        forall|x: NodeId| #[trigger] t2.is_leaf_node(x) == t0.is_leaf_node(x),
        forall|x: NodeId| #[trigger] t0.is_leaf_node(x) ==> t2.kind_of(x) == t0.kind_of(x),
        t2.leaf_order() == t0.leaf_order(),
{
    assert(!t0.is_leaf_node(id));
    assert forall|x: NodeId| #[trigger] t2.is_leaf_node(x) == t0.is_leaf_node(x) by {
        if t0.is_leaf_node(x) {
            assert(t1.is_leaf_node(x));
        }
        if t2.is_leaf_node(x) {
            assert(t1.is_leaf_node(x) && x != id);
        }
    }
    assert forall|x: NodeId| #[trigger] t0.is_leaf_node(x) implies t2.kind_of(x) == t0.kind_of(x) by {
        assert(t1.is_leaf_node(x));
        assert(x != id);
    }
    // The new leaf was not in the order before.
    let s = t0.leaf_order();
    t0.lemma_leaf_order_leaves();
    assert(!s.contains(id));
    lemma_without(s, id);
    let i: int = match target {
        Some(t) => if t0.is_live(t) && t0.parent_of(t) is Some {
            s.index_of(t0.leaves_in(t).last()) + 1
        } else {
            s.len() as int
        },
        None => s.len() as int,
    };
    assert(0 <= i <= s.len()) by {
        if let Some(t) = target {
            if t0.is_live(t) && t0.parent_of(t) is Some {
                assert(t != t0.root_id());
                t0.lemma_leaf_below(t);
                t0.lemma_leaves_in(t);
                let l = t0.leaves_in(t).last();
                assert(t0.leaves_in(t).contains(l)) by {
                    assert(t0.leaves_in(t)[t0.leaves_in(t).len() - 1] == l);
                }
                assert(s.contains(l));
                let k = s.index_of(l);
                assert(s[k] == l);
            }
        }
    };
    assert(t1.leaf_order() =~= s.take(i) + seq![id] + s.skip(i)) by {
        if i == s.len() {
            assert(s.push(id) =~= s.take(i) + seq![id] + s.skip(i));
        }
    }
    lemma_without_concat(s.take(i) + seq![id], s.skip(i), id);
    lemma_without_concat(s.take(i), seq![id], id);
    lemma_without(s.take(i), id);
    lemma_without(s.skip(i), id);
    assert(!s.take(i).contains(id)) by {
        if s.take(i).contains(id) {
            let k = s.take(i).index_of(id);
            assert(s[k] == id);
        }
    }
    assert(!s.skip(i).contains(id)) by {
        if s.skip(i).contains(id) {
            let k = s.skip(i).index_of(id);
            assert(s[i + k] == id);
        }
    }
    assert(without(seq![id], id) =~= Seq::<NodeId>::empty()) by {
        assert(seq![id].drop_last() =~= Seq::<NodeId>::empty());
        assert(without(Seq::<NodeId>::empty(), id) == Seq::<NodeId>::empty());
    }
    assert(t2.leaf_order() =~= s.take(i) + s.skip(i));
    assert(s.take(i) + s.skip(i) =~= s);
}

/// Swapping the same two nodes twice puts every node back under its parent,
/// in its place, with its pending mode.
pub proof fn law_swap_twice_restores(t0: TilingTree, t1: TilingTree, t2: TilingTree, a: NodeId, b: NodeId)
    requires
        t0.wf(),
        t1.wf(),
        t0.is_live(a),
        t0.is_live(b),
        a != b,
        !t0.is_desc(a, b),
        !t0.is_desc(b, a),
        !(t0.mode_of(a).maximized && t0.kind_of(b) is Split),
        !(t0.mode_of(b).maximized && t0.kind_of(a) is Split),
        t0.swapped_into(t1, a, b),
        t1.swapped_into(t2, a, b),
    ensures
        forall|q: NodeId| #[trigger] t0.is_live(q) ==> t2.children_of(q) == t0.children_of(q),
        forall|x: NodeId| #[trigger] t0.is_live(x) ==> t2.parent_of(x) == t0.parent_of(x),
        forall|x: NodeId| #[trigger] t0.is_live(x) ==> t2.mode_of(x) == t0.mode_of(x),
        forall|x: NodeId| #[trigger] t0.is_live(x) ==> t2.kind_of(x) == t0.kind_of(x),
{
    t0.lemma_desc_root(a);
    t0.lemma_desc_root(b);
    assert(t0.parent_of(t0.root_id()) is None);
    let fp = t0.parent_of(a)->0;
    let sp = t0.parent_of(b)->0;
    assert(t0.children_of(fp).contains(a));
    assert(t0.children_of(sp).contains(b));
    let fi = t0.children_of(fp).index_of(a);
    let si = t0.children_of(sp).index_of(b);
    assert(fp == sp ==> fi != si);
    // Where the two stand after the first swap.
    assert(t1.is_live(fp) && t1.is_live(sp));
    assert(t1.children_of(sp)[si] == a);
    assert(t1.children_of(fp)[fi] == b);
    lemma_index_of_unique(t1.children_of(sp), si);
    lemma_index_of_unique(t1.children_of(fp), fi);
    assert(t1.children_of(sp).index_of(a) == si);
    assert(t1.children_of(fp).index_of(b) == fi);
    assert forall|q: NodeId| #[trigger] t0.is_live(q) implies t2.children_of(q) == t0.children_of(q) by {
        assert(t1.is_live(q));
        let c0 = t0.children_of(q);
        assert(t2.children_of(q) == swapped_children(t1, q, a, b, sp, fp, si, fi));
        assert(t1.children_of(q) == swapped_children(t0, q, a, b, fp, sp, fi, si));
        if q == fp || q == sp {
            assert(t2.children_of(q) =~= c0);
        }
    }
    assert forall|x: NodeId| #[trigger] t0.is_live(x) implies t2.parent_of(x) == t0.parent_of(x) by {
        assert(t1.is_live(x));
    }
    assert forall|x: NodeId| #[trigger] t0.is_live(x) implies t2.mode_of(x) == t0.mode_of(x) by {
        assert(t1.is_live(x));
    }
    assert forall|x: NodeId| #[trigger] t0.is_live(x) implies t2.kind_of(x) == t0.kind_of(x) by {
        assert(t1.is_live(x));
    }
}

/// Moving an entry and moving it back restores the sequence.
proof fn lemma_reorder_back(s: Seq<NodeId>, from: int, to: int)
    requires
        0 <= from < s.len(),
        0 <= to < s.len(),
    ensures
        reorder(reorder(s, from, to), to, from) == s,
        reorder(s, from, to)[to] == s[from],
{
    let r = s.remove(from);
    let s1 = r.insert(to, s[from]);
    assert(s1[to] == s[from]);
    assert(s1.remove(to) =~= r);
    assert(r.insert(from, s[from]) =~= s);
}

/// Moving a child to another position among its siblings and then back to
/// where it was restores its parent's children.
pub proof fn law_reindex_back_restores(t0: TilingTree, t1: TilingTree, t2: TilingTree, id: NodeId, index: usize)
    requires
        t0.wf(),
        t1.wf(),
        t0.reindex_outcome(t1, id, index, true),
        t0.parent_of(id) is Some,
        t1.reindex_outcome(
            t2,
            id,
            t0.children_of(t0.parent_of(id)->0).index_of(id) as usize,
            true,
        ),
    ensures
        t2.children_of(t0.parent_of(id)->0) == t0.children_of(t0.parent_of(id)->0),
{
    let p = t0.parent_of(id)->0;
    let kids = t0.children_of(p);
    assert(t0.is_live(id));
    assert(kids.contains(id));
    let from = kids.index_of(id);
    let to = if index < kids.len() { index as int } else { kids.len() - 1 };
    lemma_reorder_back(kids, from, to);
    let k1 = t1.children_of(p);
    assert(k1 == reorder(kids, from, to));
    assert(k1[to] == id);
    assert(t1.parent_of(id) == Some(p));
    assert(t1.is_live(p)) by {
        assert(t1.is_live(id));
    }
    lemma_index_of_unique(k1, to);
    assert(k1.len() == kids.len());
    assert(kids.len() <= usize::MAX) by {
        assert forall|i: int| 0 <= i < kids.len() implies #[trigger] kids[i].0 < t0.slot_count() by {
            t0.lemma_child_desc(p, i);
        }
        lemma_ids_below(kids, t0.slot_count());
    }
    assert(from as usize as int == from);
}


/// The tree invariant that every mutating method keeps (each of them
/// requires and ensures `wf()`): the root is a parentless split; every node
/// lies below the root, and every node but the root hangs below a split
/// that lists it once; every listed child is a node that names that parent;
/// no split but the root is empty; the tree has a focus exactly when it
/// holds a window; the focus history names each node at most once, and only
/// nodes of the tree. Leaves have no children, and split nodes are never
/// maximized.
pub proof fn law_well_formed_tree(t: TilingTree)
    requires
        t.wf(),
    ensures
        t.is_live(t.root_id()),
        t.parent_of(t.root_id()) is None,
        t.kind_of(t.root_id()) is Split,
        forall|x: NodeId| #[trigger] t.is_live(x) ==> t.is_desc(x, t.root_id()),
        forall|x: NodeId|
            #![trigger t.parent_of(x)]
            t.is_live(x) && x != t.root_id() ==> (t.parent_of(x) matches Some(p) && t.is_live(p) && t.kind_of(p) is Split
                && t.children_of(p).contains(x)),
        forall|p: NodeId, i: int|
            #![trigger t.children_of(p)[i]]
            t.is_live(p) && 0 <= i < t.children_of(p).len() ==> t.is_live(t.children_of(p)[i]) && t.parent_of(
                t.children_of(p)[i],
            ) == Some(p),
        forall|p: NodeId|
            #![trigger t.children_of(p)]
            t.is_live(p) ==> t.children_of(p).no_duplicates() && (t.kind_of(p) is Leaf ==> t.children_of(p).len() == 0)
                && (t.kind_of(p) is Split && p != t.root_id() ==> t.children_of(p).len() > 0),
        t.focus_id() is Some <==> t.has_leaf(),
        t.focus_id() matches Some(f) ==> t.is_live(f),
        t.history().no_duplicates(),
        forall|i: int| 0 <= i < t.history().len() ==> t.is_live(#[trigger] t.history()[i]),
        forall|x: NodeId| #[trigger] t.is_live(x) && t.kind_of(x) is Split ==> !t.mode_of(x).maximized,
{
    assert forall|x: NodeId| #[trigger] t.is_live(x) implies t.is_desc(x, t.root_id()) by {
        t.lemma_desc_root(x);
    }
    assert forall|x: NodeId| #[trigger] t.is_live(x) && t.kind_of(x) is Split implies !t.mode_of(x).maximized by {
        let _ = t.modes@[x.0 as int];
    }
}

} // verus!