//! Title formats set on containers, and the window of a leaf.
use vstd::prelude::*;
use super::{NodeId, NodeKind, TilingTree};
use crate::titles::{title_token, token_at};

verus! {

/// The format that the latest entry for `id` in `fs` sets, if any entry
/// does: `None` when there is none or it asks for the plain title.
pub open spec fn format_in(fs: Seq<(NodeId, Option<String>)>, id: NodeId) -> Option<Seq<char>>
    decreases fs.len(),
{
    if fs.len() == 0 {
        None
    } else if fs.last().0 == id {
        match fs.last().1 {
            Some(f) => Some(f@),
            None => None,
        }
    } else {
        format_in(fs.drop_last(), id)
    }
}

impl TilingTree {
    /// `other` has the same title formats as this tree.
    pub open spec fn keeps_titles(self, other: Self) -> bool {
        other.title_log() == self.title_log()
    }


    /// The title format set on node `id`, if any.
    pub fn title_format(&self, id: NodeId) -> (r: Option<&String>)
        ensures
            r is None <==> self.title_format_of(id) is None,
            r matches Some(f) ==> self.title_format_of(id) == Some(f@),
    {
        let mut k = self.title_formats.len();
        assert(self.title_formats@.take(k as int) =~= self.title_formats@);
        while k > 0
            invariant
                k <= self.title_formats@.len(),
                format_in(self.title_formats@, id) == format_in(self.title_formats@.take(k as int), id),
            decreases k,
        {
            proof {
                assert(self.title_formats@.take(k as int).drop_last() =~= self.title_formats@.take(k - 1));
            }
            let e = &self.title_formats[k - 1];
            if e.0 == id {
                return match &e.1 {
                    Some(f) => Some(f),
                    None => None,
                };
            }
            k = k - 1;
        }
        None
    }

    /// Sets the title format of split `id`: `%title` alone gives it back its
    /// plain title. Returns whether `id` is a split; the tree is unchanged
    /// otherwise.
    pub fn set_title_format(&mut self, id: NodeId, format: String) -> (r: bool)
        requires
            old(self).wf(),
        ensures
            final(self).wf(),
            r == old(self).is_split_node(id),
            !r ==> *final(self) == *old(self),
            r ==> final(self).same_layout(*old(self)),
            r ==> final(self).focus_id() == old(self).focus_id() && final(self).history() == old(self).history(),
            r ==> final(self).title_format_of(id) == if format@ == title_token() {
                None::<Seq<char>>
            } else {
                Some(format@)
            },
            r ==> forall|y: NodeId| y != id ==> #[trigger] final(self).title_format_of(y) == old(self).title_format_of(y),
    {
        if !self.is_split(id) {
            return false;
        }
        let ghost before = self.title_formats@;
        let n = format.as_str().unicode_len();
        let plain = n == 6 && token_at(format.as_str(), n, 0);
        proof {
            if n == 6 {
                assert(format@.skip(0).take(6) =~= format@);
            }
        }
        if plain {
            self.title_formats.push((id, None));
        } else {
            self.title_formats.push((id, Some(format)));
        }
        proof {
            assert(self.title_formats@.drop_last() =~= before);
        }
        true
    }

    /// The window of leaf `id` (`None` when `id` is not a leaf of the tree).
    pub fn window_for_node(&self, id: NodeId) -> (r: Option<u64>)
        requires
            self.structure_ok(),
        ensures
            r is Some <==> self.is_leaf_node(id),
            r matches Some(w) ==> self.kind_of(id) == NodeKind::Leaf(w),
    {
        if !self.is_live_exec(id) {
            return None;
        }
        match self.arena.kinds[id.0 as usize] {
            NodeKind::Leaf(w) => Some(w),
            NodeKind::Split(_) => None,
        }
    }
}

} // verus!
