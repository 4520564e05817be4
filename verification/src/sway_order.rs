//! The order in which sway lists the workspaces of an output: numbered ones
//! first, by number; then named ones; then those without a sway identity.
//! Workspaces of equal rank keep the order they had.
use vstd::prelude::*;

verus! {

broadcast use vstd::seq_lib::group_filter_ensures;

/// A workspace of an output as the sway ordering sees it.
#[derive(Clone, Copy, Debug, PartialEq, Eq)]
pub struct SwayWorkspace {
    /// Stable identity of the workspace.
    pub id: u64,
    /// The workspace has a sway name or number of its own.
    pub has_identity: bool,
    /// The number clients see for a numbered workspace.
    pub number: Option<i32>,
}

/// The rank of a workspace: numbered ones by their number, then named ones,
/// then those without a sway identity.
pub open spec fn sway_rank(w: SwayWorkspace) -> (int, int) {
    if !w.has_identity {
        (2, 0)
    } else {
        match w.number {
            Some(n) => (0, n as int),
            None => (1, 0),
        }
    }
}

/// Lexicographic order on keys.
pub open spec fn key_le(a: (int, int, int), b: (int, int, int)) -> bool {
    a.0 < b.0 || (a.0 == b.0 && (a.1 < b.1 || (a.1 == b.1 && a.2 <= b.2)))
}

/// The first position from `k` on of a workspace with id `id`.
pub open spec fn position_of(ws: Seq<SwayWorkspace>, id: u64, k: int) -> Option<int>
    decreases ws.len() - k,
{
    if k < 0 || k >= ws.len() {
        None
    } else if ws[k].id == id {
        Some(k)
    } else {
        position_of(ws, id, k + 1)
    }
}

/// The key the id of a workspace is sorted by: the rank of the first
/// workspace with that id (the last rank when there is none), and with
/// `by_id` the id itself after it.
pub open spec fn id_key(ws: Seq<SwayWorkspace>, id: u64, by_id: bool) -> (int, int, int) {
    let rank = match position_of(ws, id, 0) {
        Some(i) => sway_rank(ws[i]),
        None => (2, 0),
    };
    (rank.0, rank.1, if by_id { id as int } else { 0 })
}

/// The key a workspace is sorted by: its rank, then its id.
pub open spec fn workspace_key(w: SwayWorkspace) -> (int, int, int) {
    (sway_rank(w).0, sway_rank(w).1, w.id as int)
}

/// The ids with key `k`.
pub open spec fn key_is(ws: Seq<SwayWorkspace>, by_id: bool, k: (int, int, int)) -> spec_fn(u64) -> bool {
    |id: u64| id_key(ws, id, by_id) == k
}

/// The ids of workspaces in `ws`.
pub open spec fn present_in(ws: Seq<SwayWorkspace>) -> spec_fn(u64) -> bool {
    |id: u64| position_of(ws, id, 0) is Some
}

/// `s` is ordered by key.
pub open spec fn sorted_by_key(s: Seq<u64>, ws: Seq<SwayWorkspace>, by_id: bool) -> bool {
    forall|i: int, j: int|
        0 <= i < j < s.len() ==> key_le(#[trigger] id_key(ws, s[i], by_id), #[trigger] id_key(ws, s[j], by_id))
}

/// `r` holds, for every key, the ids of `s` with that key in the order `s` has them.
pub open spec fn same_per_key(r: Seq<u64>, s: Seq<u64>, ws: Seq<SwayWorkspace>, by_id: bool) -> bool {
    forall|k: (int, int, int)| #[trigger] r.filter(key_is(ws, by_id, k)) == s.filter(key_is(ws, by_id, k))
}

/// `w` is the first workspace in `ws` with id `id`.
pub open spec fn looked_up(ws: Seq<SwayWorkspace>, id: u64, w: SwayWorkspace) -> bool {
    position_of(ws, id, 0) matches Some(p) && 0 <= p < ws.len() && w == ws[p]
}

/// The ids in `ws` are distinct.
pub open spec fn distinct_ids(ws: Seq<SwayWorkspace>) -> bool {
    forall|i: int, j: int| 0 <= i < j < ws.len() ==> ws[i].id != ws[j].id
}

proof fn lemma_position_of(ws: Seq<SwayWorkspace>, id: u64, k: int)
    requires
        0 <= k,
    ensures
        position_of(ws, id, k) matches Some(i) ==> k <= i < ws.len() && ws[i].id == id,
        position_of(ws, id, k) is None ==> forall|i: int| k <= i < ws.len() ==> ws[i].id != id,
    decreases ws.len() - k,
{
    if k < ws.len() {
        lemma_position_of(ws, id, k + 1);
    }
}

proof fn lemma_position_of_distinct(ws: Seq<SwayWorkspace>, m: int)
    requires
        distinct_ids(ws),
        0 <= m < ws.len(),
    ensures
        position_of(ws, ws[m].id, 0) == Some(m),
{
    lemma_position_of(ws, ws[m].id, 0);
    if let Some(i) = position_of(ws, ws[m].id, 0) {
        if i != m {
            if i < m {
                assert(ws[i].id != ws[m].id);
            } else {
                assert(ws[m].id != ws[i].id);
            }
        }
    }
}

proof fn lemma_filter_none(s: Seq<u64>, pred: spec_fn(u64) -> bool)
    requires
        forall|i: int| 0 <= i < s.len() ==> !pred(s[i]),
    ensures
        s.filter(pred) == Seq::<u64>::empty(),
    decreases s.len(),
{
    reveal(Seq::filter);
    if s.len() > 0 {
        lemma_filter_none(s.drop_last(), pred);
    }
}

/// Inserting `x` before the first element with a larger key keeps the
/// sequence sorted and adds `x` at the end of its key's ids.
proof fn lemma_insert_sorted(r: Seq<u64>, pos: int, x: u64, ws: Seq<SwayWorkspace>, by_id: bool)
    requires
        0 <= pos <= r.len(),
        sorted_by_key(r, ws, by_id),
        forall|m: int| 0 <= m < pos ==> key_le(#[trigger] id_key(ws, r[m], by_id), id_key(ws, x, by_id)),
        pos < r.len() ==> !key_le(id_key(ws, r[pos], by_id), id_key(ws, x, by_id)),
    ensures
        sorted_by_key(r.insert(pos, x), ws, by_id),
        forall|k: (int, int, int)| #[trigger] r.insert(pos, x).filter(key_is(ws, by_id, k)) == (if id_key(
            ws,
            x,
            by_id,
        ) == k {
            r.filter(key_is(ws, by_id, k)).push(x)
        } else {
            r.filter(key_is(ws, by_id, k))
        }),
{
    let n = r.insert(pos, x);
    let kx = id_key(ws, x, by_id);
    assert forall|m: int| pos < m < r.len() implies !key_le(#[trigger] id_key(ws, r[m], by_id), kx) by {
        assert(key_le(id_key(ws, r[pos], by_id), id_key(ws, r[m], by_id)));
    }
    assert forall|i: int, j: int| 0 <= i < j < n.len() implies key_le(
        #[trigger] id_key(ws, n[i], by_id),
        #[trigger] id_key(ws, n[j], by_id),
    ) by {
        if j < pos {
            assert(n[i] == r[i] && n[j] == r[j]);
        } else if j == pos {
            assert(n[i] == r[i] && n[j] == x);
        } else if i < pos {
            assert(n[i] == r[i] && n[j] == r[j - 1]);
            assert(key_le(id_key(ws, r[i], by_id), kx));
            if j - 1 > pos {
                assert(!key_le(id_key(ws, r[j - 1], by_id), kx));
            }
        } else if i == pos {
            assert(n[i] == x && n[j] == r[j - 1]);
            if j - 1 > pos {
                assert(!key_le(id_key(ws, r[j - 1], by_id), kx));
            }
        } else {
            assert(n[i] == r[i - 1] && n[j] == r[j - 1]);
        }
    }
    assert forall|k: (int, int, int)| #[trigger] n.filter(key_is(ws, by_id, k)) == (if kx == k {
        r.filter(key_is(ws, by_id, k)).push(x)
    } else {
        r.filter(key_is(ws, by_id, k))
    }) by {
        let pred = key_is(ws, by_id, k);
        let a = r.take(pos);
        let b = r.skip(pos);
        assert(r == a + b);
        assert(n == a.push(x) + b);
        Seq::filter_distributes_over_add(a, b, pred);
        Seq::filter_distributes_over_add(a.push(x), b, pred);
        a.lemma_filter_push(x, pred);
        if kx == k {
            assert forall|i: int| 0 <= i < b.len() implies !pred(b[i]) by {
                assert(b[i] == r[pos + i]);
                if i > 0 {
                    assert(!key_le(id_key(ws, r[pos + i], by_id), kx));
                }
            }
            lemma_filter_none(b, pred);
            assert(a.filter(pred) + Seq::<u64>::empty() =~= a.filter(pred));
            assert(a.filter(pred).push(x) + Seq::<u64>::empty() =~= a.filter(pred).push(x));
        }
    }
}

/// The key of the id `id`, as `id_key` gives it.
fn id_key_exec(ws: &Vec<SwayWorkspace>, id: u64, by_id: bool) -> (r: (u8, i32, u64))
    ensures
        (r.0 as int, r.1 as int, r.2 as int) == id_key(ws@, id, by_id),
{
    let rank: (u8, i32) = match position_exec(ws, id) {
        Some(i) => {
            let w = ws[i];
            if !w.has_identity {
                (2, 0)
            } else {
                match w.number {
                    Some(n) => (0, n),
                    None => (1, 0),
                }
            }
        },
        None => (2, 0),
    };
    (rank.0, rank.1, if by_id { id } else { 0 })
}

/// The first position of a workspace with id `id`.
fn position_exec(ws: &Vec<SwayWorkspace>, id: u64) -> (r: Option<usize>)
    ensures
        r matches Some(i) ==> position_of(ws@, id, 0) == Some(i as int) && i < ws@.len() && ws@[i as int].id == id,
        r is None ==> position_of(ws@, id, 0) is None,
{
    for i in 0..ws.len()
        invariant
            position_of(ws@, id, 0) == position_of(ws@, id, i as int),
    {
        if ws[i].id == id {
            return Some(i);
        }
    }
    None
}

fn key_le_exec(a: (u8, i32, u64), b: (u8, i32, u64)) -> (r: bool)
    ensures
        r == key_le((a.0 as int, a.1 as int, a.2 as int), (b.0 as int, b.1 as int, b.2 as int)),
{
    a.0 < b.0 || (a.0 == b.0 && (a.1 < b.1 || (a.1 == b.1 && a.2 <= b.2)))
}

/// Sorts `ids` by key, keeping the order of ids with equal keys.
fn stable_sort_ids(ids: &Vec<u64>, ws: &Vec<SwayWorkspace>, by_id: bool) -> (r: Vec<u64>)
    ensures
        r@.len() == ids@.len(),
        sorted_by_key(r@, ws@, by_id),
        same_per_key(r@, ids@, ws@, by_id),
{
    let mut r: Vec<u64> = Vec::new();
    assert(ids@.take(0) =~= Seq::<u64>::empty());
    assert(same_per_key(r@, ids@.take(0), ws@, by_id));
    for i in 0..ids.len()
        invariant
            r@.len() == i,
            sorted_by_key(r@, ws@, by_id),
            same_per_key(r@, ids@.take(i as int), ws@, by_id),
    {
        let x = ids[i];
        let kx = id_key_exec(ws, x, by_id);
        let mut pos: usize = 0;
        while pos < r.len() && key_le_exec(id_key_exec(ws, r[pos], by_id), kx)
            invariant
                pos <= r@.len(),
                (kx.0 as int, kx.1 as int, kx.2 as int) == id_key(ws@, x, by_id),
                forall|m: int| 0 <= m < pos ==> key_le(#[trigger] id_key(ws@, r@[m], by_id), id_key(ws@, x, by_id)),
            decreases r@.len() - pos,
        {
            pos = pos + 1;
        }
        proof {
            lemma_insert_sorted(r@, pos as int, x, ws@, by_id);
            assert(ids@.take(i + 1) =~= ids@.take(i as int).push(x));
            assert forall|k: (int, int, int)| #[trigger] r@.insert(pos as int, x).filter(key_is(ws@, by_id, k))
                == ids@.take(i + 1).filter(key_is(ws@, by_id, k)) by {
                let pred = key_is(ws@, by_id, k);
                ids@.take(i as int).lemma_filter_push(x, pred);
            }
        }
        r.insert(pos, x);
    }
    assert(ids@.take(ids@.len() as int) =~= ids@);
    r
}

/// Orders the workspaces of an output as sway lists them, and returns where
/// the active workspace (at `active`) now stands.
///
/// The workspaces are sorted by rank and then by id. The listing order
/// `order` (ids, in the order clients see them) loses the ids of workspaces
/// that are gone and is sorted by rank alone, ids of equal rank keeping their
/// order.
pub fn sort_sway_workspaces(workspaces: &mut Vec<SwayWorkspace>, order: &mut Vec<u64>, active: usize) -> (r: usize)
    requires
        active < old(workspaces)@.len(),
        distinct_ids(old(workspaces)@),
    ensures
        final(workspaces)@.len() == old(workspaces)@.len(),
        forall|w: SwayWorkspace| #[trigger] final(workspaces)@.contains(w) <==> old(workspaces)@.contains(w),
        forall|i: int, j: int|
            0 <= i < j < final(workspaces)@.len() ==> key_le(
                #[trigger] workspace_key(final(workspaces)@[i]),
                #[trigger] workspace_key(final(workspaces)@[j]),
            ),
        r < final(workspaces)@.len(),
        final(workspaces)@[r as int].id == old(workspaces)@[active as int].id,
        sorted_by_key(final(order)@, old(workspaces)@, false),
        same_per_key(final(order)@, old(order)@.filter(present_in(old(workspaces)@)), old(workspaces)@, false),
{
    let ghost ws0 = workspaces@;
    let active_id = workspaces[active].id;
    // The listing order: drop ids that are gone, then sort by rank.
    let mut kept: Vec<u64> = Vec::new();
    assert(order@.take(0) =~= Seq::<u64>::empty());
    for i in 0..order.len()
        invariant
            workspaces@ == ws0,
            kept@ == order@.take(i as int).filter(present_in(ws0)),
    {
        let id = order[i];
        let present = position_exec(workspaces, id).is_some();
        proof {
            assert(order@.take(i + 1) =~= order@.take(i as int).push(id));
            order@.take(i as int).lemma_filter_push(id, present_in(ws0));
        }
        if present {
            kept.push(id);
        }
    }
    assert(order@.take(order@.len() as int) =~= order@);
    let sorted_order = stable_sort_ids(&kept, workspaces, false);
    // The workspaces: sort their ids by rank and id, then look each up.
    let mut ids: Vec<u64> = Vec::new();
    for i in 0..workspaces.len()
        invariant
            workspaces@ == ws0,
            ids@.len() == i,
            forall|m: int| 0 <= m < i ==> ids@[m] == #[trigger] ws0[m].id,
    {
        ids.push(workspaces[i].id);
    }
    let sorted_ids = stable_sort_ids(&ids, workspaces, true);
    let mut result: Vec<SwayWorkspace> = Vec::new();
    for i in 0..sorted_ids.len()
        invariant
            workspaces@ == ws0,
            distinct_ids(ws0),
            ids@.len() == ws0.len(),
            forall|m: int| 0 <= m < ws0.len() ==> ids@[m] == #[trigger] ws0[m].id,
            sorted_ids@.len() == ids@.len(),
            same_per_key(sorted_ids@, ids@, ws0, true),
            result@.len() == i,
            forall|m: int|
                0 <= m < i ==> looked_up(ws0, sorted_ids@[m], #[trigger] result@[m]),
    {
        let id = sorted_ids[i];
        proof {
            let k = id_key(ws0, id, true);
            let pred = key_is(ws0, true, k);
            assert(sorted_ids@.filter(pred) == ids@.filter(pred));
            assert(sorted_ids@.filter(pred).contains(id)) by {
                assert(pred(sorted_ids@[i as int]));
            }
            ids@.lemma_filter_contains_rev(pred, id);
            let m = ids@.index_of(id);
            assert(ws0[m].id == id);
            lemma_position_of(ws0, id, 0);
        }
        let j = match position_exec(workspaces, id) {
            Some(j) => j,
            None => {
                proof {
                    assert(false);
                }
                0
            },
        };
        let ghost before = result@;
        result.push(workspaces[j]);
        assert forall|m: int| 0 <= m < i + 1 implies looked_up(ws0, sorted_ids@[m], #[trigger] result@[m]) by {
            if m < i {
                assert(result@[m] == before[m]);
            }
        }
    }
    proof {
        assert forall|i: int, j: int| 0 <= i < j < result@.len() implies key_le(
            #[trigger] workspace_key(result@[i]),
            #[trigger] workspace_key(result@[j]),
        ) by {
            lemma_position_of(ws0, sorted_ids@[i], 0);
            lemma_position_of(ws0, sorted_ids@[j], 0);
            assert(key_le(id_key(ws0, sorted_ids@[i], true), id_key(ws0, sorted_ids@[j], true)));
        }
        assert forall|w: SwayWorkspace| #[trigger] result@.contains(w) <==> ws0.contains(w) by {
            if result@.contains(w) {
                let m = result@.index_of(w);
                let p = position_of(ws0, sorted_ids@[m], 0)->Some_0;
                lemma_position_of(ws0, sorted_ids@[m], 0);
                assert(ws0[p] == w);
            }
            if ws0.contains(w) {
                let m = ws0.index_of(w);
                assert(ws0[m] == w);
                let k = id_key(ws0, w.id, true);
                let pred = key_is(ws0, true, k);
                assert(ids@[m] == w.id);
                assert(pred(ids@[m]));
                assert(ids@.filter(pred).contains(w.id));
                assert(sorted_ids@.filter(pred).contains(w.id));
                sorted_ids@.lemma_filter_contains_rev(pred, w.id);
                let s = sorted_ids@.index_of(w.id);
                assert(sorted_ids@[s] == w.id);
                lemma_position_of_distinct(ws0, m);
                assert(result@[s] == w);
            }
        }
    }
    let ghost target = ws0[active as int];
    let mut r: usize = 0;
    while r < result.len()
        invariant
            r <= result@.len(),
            ws0.contains(target),
            target.id == active_id,
            forall|w: SwayWorkspace| #[trigger] result@.contains(w) <==> ws0.contains(w),
            forall|m: int| 0 <= m < r ==> (#[trigger] result@[m]).id != active_id,
        ensures
            r < result@.len() ==> result@[r as int].id == active_id,
            r == result@.len() ==> forall|m: int| 0 <= m < r ==> (#[trigger] result@[m]).id != active_id,
            r <= result@.len(),
        decreases result@.len() - r,
    {
        if result[r].id == active_id {
            break;
        }
        r = r + 1;
    }
    proof {
        if r == result@.len() {
            assert(result@.contains(target));
            let m = result@.index_of(target);
            assert(result@[m] == target);
        }
    }
    *workspaces = result;
    *order = sorted_order;
    r
}

} // verus!
