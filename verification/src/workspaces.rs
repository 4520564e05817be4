//! Choosing among the workspaces of the layout: which one a `workspace`
//! command lands on, and the lowest number still free.
use vstd::prelude::*;
use crate::workspace_names::{
    WorkspaceTarget, digit_prefix_len, eq_ignoring_ascii_case, leading_number, parse_workspace_num,
    starts_with_number, sway_workspace_num, workspace_matches_target,
};

verus! {

/// What the choice of a workspace looks at.
pub struct WorkspaceSummary {
    /// The workspace has a sway name or number of its own.
    pub has_identity: bool,
    /// The name clients see, if any.
    pub sway_name: Option<String>,
    /// The workspace was given an explicit name.
    pub named: bool,
}

/// Whether the workspace `w` is the one `target` names (see
/// `workspace_matches_target`).
pub open spec fn summary_matches(w: WorkspaceSummary, target: WorkspaceTarget) -> bool {
    match target {
        WorkspaceTarget::Number(v) => w.has_identity && (w.sway_name matches Some(n) && starts_with_number(
            n@,
            v@.take(digit_prefix_len(v@) as int),
        )),
        WorkspaceTarget::Name(v) => w.sway_name matches Some(n) && eq_ignoring_ascii_case(n@, v@),
        WorkspaceTarget::Relative => false,
    }
}

/// The first position from `i` on of a workspace that `target` names and,
/// when `need_named`, that was given an explicit name.
pub open spec fn first_match(ws: Seq<WorkspaceSummary>, target: WorkspaceTarget, i: int, need_named: bool) -> Option<int>
    decreases ws.len() - i,
{
    if i < 0 || i >= ws.len() {
        None
    } else if summary_matches(ws[i], target) && (!need_named || ws[i].named) {
        Some(i)
    } else {
        first_match(ws, target, i + 1, need_named)
    }
}

/// The workspace a `workspace` command activates: of those the target names,
/// the first explicitly named one, else the first one.
pub open spec fn chosen_workspace(ws: Seq<WorkspaceSummary>, target: WorkspaceTarget) -> Option<int> {
    match first_match(ws, target, 0, true) {
        Some(i) => Some(i),
        None => first_match(ws, target, 0, false),
    }
}

fn summary_matches_exec(w: &WorkspaceSummary, target: &WorkspaceTarget) -> (r: bool)
    ensures
        r == summary_matches(*w, *target),
{
    let name = match &w.sway_name {
        Some(n) => Some(n.as_str()),
        None => None,
    };
    workspace_matches_target(w.has_identity, name, target)
}

/// Finds the workspace that a `workspace` command for `target` activates
/// (see `chosen_workspace`).
pub fn find_sway_workspace(ws: &Vec<WorkspaceSummary>, target: &WorkspaceTarget) -> (r: Option<usize>)
    ensures
        match chosen_workspace(ws@, *target) {
            Some(i) => r == Some(i as usize),
            None => r is None,
        },
{
    let mut first_any: Option<usize> = None;
    let mut i: usize = 0;
    while i < ws.len()
        invariant
            i <= ws@.len(),
            first_match(ws@, *target, 0, true) == first_match(ws@, *target, i as int, true),
            match first_any {
                Some(k) => first_match(ws@, *target, 0, false) == Some(k as int) && k < i,
                None => first_match(ws@, *target, 0, false) == first_match(ws@, *target, i as int, false),
            },
        decreases ws.len() - i,
    {
        let m = summary_matches_exec(&ws[i], target);
        if m && ws[i].named {
            proof {
                if first_any is None {
                    assert(first_match(ws@, *target, i as int, false) == Some(i as int));
                }
            }
            return Some(i);
        }
        if m && first_any.is_none() {
            first_any = Some(i);
        }
        i = i + 1;
    }
    first_any
}

/// The smallest positive number not in `taken`.
pub open spec fn lowest_free(taken: Seq<i32>, r: int) -> bool {
    &&& r > 0
    &&& !taken.contains(r as i32)
    &&& forall|k: i32| 1 <= k < r ==> #[trigger] taken.contains(k)
}

/// The lowest positive number that `taken` does not hold.
pub fn lowest_free_number(taken: &Vec<i32>) -> (r: i32)
    requires
        taken@.len() < i32::MAX,
    ensures
        lowest_free(taken@, r as int),
{
    let mut candidate: i32 = 1;
    loop
        invariant
            taken@.len() < i32::MAX,
            1 <= candidate,
            candidate as int <= taken@.len() + 1,
            forall|k: i32| 1 <= k < candidate ==> #[trigger] taken@.contains(k),
        decreases taken@.len() + 1 - candidate,
    {
        let mut found = false;
        for j in 0..taken.len()
            invariant
                found == taken@.take(j as int).contains(candidate),
        {
            let ghost pre = taken@.take(j as int);
            let ghost post = taken@.take(j + 1);
            assert(post =~= pre.push(taken@[j as int]));
            proof {
                if post.contains(candidate) {
                    let m = post.index_of(candidate);
                    if m < j {
                        assert(pre[m] == candidate);
                    }
                }
                if pre.contains(candidate) {
                    let m = pre.index_of(candidate);
                    assert(post[m] == candidate);
                }
                if taken@[j as int] == candidate {
                    assert(post[j as int] == candidate);
                }
            }
            if taken[j] == candidate {
                found = true;
            }
        }
        assert(taken@.take(taken@.len() as int) =~= taken@);
        if !found {
            return candidate;
        }
        proof {
            // The numbers 1..=candidate all occur in `taken`, so there are at
            // most as many of them as entries.
            let vals = taken@.map_values(|x: i32| x as int);
            let range = vstd::set_lib::set_int_range(1, candidate + 1);
            vstd::set_lib::lemma_int_range(1, candidate + 1);
            assert(range.subset_of(vals.to_set())) by {
                assert forall|k: int| range.contains(k) implies vals.to_set().contains(k) by {
                    let k32 = k as i32;
                    assert(taken@.contains(k32));
                    let m = taken@.index_of(k32);
                    assert(taken@[m] == k32);
                    assert(vals[m] == k);
                }
            }
            vals.lemma_cardinality_of_set();
            vstd::set_lib::lemma_len_subset(range, vals.to_set());
        }
        candidate = candidate + 1;
    }
}

/// `k` is the first of the positions below `len` that `keep` holds of with
/// the smallest `key`.
pub open spec fn first_minimum(len: int, keep: spec_fn(int) -> bool, key: spec_fn(int) -> int, k: int) -> bool {
    &&& 0 <= k < len
    &&& keep(k)
    &&& forall|j: int| 0 <= j < len && #[trigger] keep(j) ==> key(k) <= key(j)
    &&& forall|j: int| 0 <= j < k && #[trigger] keep(j) ==> key(k) < key(j)
}

/// `k` is the last of the positions below `len` that `keep` holds of with
/// the largest `key`.
pub open spec fn last_maximum(len: int, keep: spec_fn(int) -> bool, key: spec_fn(int) -> int, k: int) -> bool {
    &&& 0 <= k < len
    &&& keep(k)
    &&& forall|j: int| 0 <= j < len && #[trigger] keep(j) ==> key(j) <= key(k)
    &&& forall|j: int| k < j < len && #[trigger] keep(j) ==> key(j) < key(k)
}

/// `k` is the first (or, backwards, the last) position below `len` that `keep` holds of.
pub open spec fn extreme_kept(len: int, keep: spec_fn(int) -> bool, first: bool, k: int) -> bool {
    &&& 0 <= k < len
    &&& keep(k)
    &&& if first {
        forall|j: int| 0 <= j < k ==> !#[trigger] keep(j)
    } else {
        forall|j: int| k < j < len ==> !#[trigger] keep(j)
    }
}

/// No position below `len` is one that `keep` holds of.
pub open spec fn none_kept(len: int, keep: spec_fn(int) -> bool) -> bool {
    forall|j: int| 0 <= j < len ==> !#[trigger] keep(j)
}

/// The positions that hold a number.
pub open spec fn numbered(s: Seq<Option<i32>>) -> spec_fn(int) -> bool {
    |j: int| s[j] is Some
}

/// The positions without a number.
pub open spec fn unnumbered(s: Seq<Option<i32>>) -> spec_fn(int) -> bool {
    |j: int| s[j] is None
}

/// The number at a position.
pub open spec fn number_at(s: Seq<Option<i32>>) -> spec_fn(int) -> int {
    |j: int| s[j]->0 as int
}

/// The numbered positions beyond `n` in the direction of travel.
pub open spec fn beyond(s: Seq<Option<i32>>, n: i32, next: bool) -> spec_fn(int) -> bool {
    |j: int| s[j] is Some && if next {
        s[j]->0 > n
    } else {
        s[j]->0 < n
    }
}

/// How far a numbered position is from `n`.
pub open spec fn distance_from(s: Seq<Option<i32>>, n: i32) -> spec_fn(int) -> int {
    |j: int|
        if s[j]->0 >= n {
            s[j]->0 - n
        } else {
            n - s[j]->0
        }
}

/// The unnumbered positions after (or before) `current`.
pub open spec fn unnumbered_past(s: Seq<Option<i32>>, current: int, next: bool) -> spec_fn(int) -> bool {
    |j: int| s[j] is None && if next {
        j > current
    } else {
        j < current
    }
}

/// The first position closest to `n` beyond it (see `beyond`).
fn closest_beyond(s: &Vec<Option<i32>>, n: i32, next: bool) -> (r: Option<usize>)
    ensures
        match r {
            Some(k) => first_minimum(s@.len() as int, beyond(s@, n, next), distance_from(s@, n), k as int),
            None => none_kept(s@.len() as int, beyond(s@, n, next)),
        },
{
    let mut best: Option<usize> = None;
    let mut best_d: i64 = 0;
    for j in 0..s.len()
        invariant
            match best {
                Some(k) => first_minimum(j as int, beyond(s@, n, next), distance_from(s@, n), k as int)
                    && best_d == distance_from(s@, n)(k as int),
                None => none_kept(j as int, beyond(s@, n, next)),
            },
    {
        if let Some(c) = s[j] {
            if (next && c > n) || (!next && c < n) {
                let d: i64 = if c >= n { c as i64 - n as i64 } else { n as i64 - c as i64 };
                assert(d == distance_from(s@, n)(j as int));
                match best {
                    None => {
                        best = Some(j);
                        best_d = d;
                    },
                    Some(_) => {
                        if d < best_d {
                            best = Some(j);
                            best_d = d;
                        }
                    },
                }
            }
        }
    }
    best
}

/// The first position with the smallest number (or, backwards, the last one
/// with the largest).
fn extreme_numbered(s: &Vec<Option<i32>>, next: bool) -> (r: Option<usize>)
    ensures
        match r {
            Some(k) => if next {
                first_minimum(s@.len() as int, numbered(s@), number_at(s@), k as int)
            } else {
                last_maximum(s@.len() as int, numbered(s@), number_at(s@), k as int)
            },
            None => none_kept(s@.len() as int, numbered(s@)),
        },
{
    let mut best: Option<usize> = None;
    let mut best_v: i32 = 0;
    for j in 0..s.len()
        invariant
            match best {
                Some(k) => (if next {
                    first_minimum(j as int, numbered(s@), number_at(s@), k as int)
                } else {
                    last_maximum(j as int, numbered(s@), number_at(s@), k as int)
                }) && best_v == s@[k as int]->0,
                None => none_kept(j as int, numbered(s@)),
            },
    {
        if let Some(c) = s[j] {
            match best {
                None => {
                    best = Some(j);
                    best_v = c;
                },
                Some(_) => {
                    if (next && c < best_v) || (!next && c >= best_v) {
                        best = Some(j);
                        best_v = c;
                    }
                },
            }
        }
    }
    best
}

/// The first (or last) unnumbered position, or, with `past`, the first
/// unnumbered one after `current` (or the last before it).
fn unnumbered_pick(s: &Vec<Option<i32>>, current: usize, next: bool, past: bool) -> (r: Option<usize>)
    ensures
        past ==> match r {
            Some(k) => extreme_kept(s@.len() as int, unnumbered_past(s@, current as int, next), next, k as int),
            None => none_kept(s@.len() as int, unnumbered_past(s@, current as int, next)),
        },
        !past ==> match r {
            Some(k) => extreme_kept(s@.len() as int, unnumbered(s@), next, k as int),
            None => none_kept(s@.len() as int, unnumbered(s@)),
        },
{
    let mut found: Option<usize> = None;
    for j in 0..s.len()
        invariant
            past ==> match found {
                Some(k) => k < j && s@[k as int] is None && (if next { k > current } else { k < current }) && (if next {
                    forall|i: int| 0 <= i < k ==> !#[trigger] unnumbered_past(s@, current as int, next)(i)
                } else {
                    forall|i: int| k < i < j ==> !#[trigger] unnumbered_past(s@, current as int, next)(i)
                }),
                None => none_kept(j as int, unnumbered_past(s@, current as int, next)),
            },
            !past ==> match found {
                Some(k) => k < j && s@[k as int] is None && (if next {
                    forall|i: int| 0 <= i < k ==> !#[trigger] unnumbered(s@)(i)
                } else {
                    forall|i: int| k < i < j ==> !#[trigger] unnumbered(s@)(i)
                }),
                None => none_kept(j as int, unnumbered(s@)),
            },
    {
        let wanted = s[j].is_none() && (!past || (next && j > current) || (!next && j < current));
        if wanted && (found.is_none() || !next) {
            found = Some(j);
        }
    }
    found
}

/// The position that `workspace next` (or `prev`) moves to from position
/// `current`, among workspaces given by their numbers. From a numbered
/// workspace: the closest number beyond it in the direction, else the first
/// (or last) unnumbered one, else the smallest (or largest) number. From an
/// unnumbered workspace: the next (or previous) unnumbered one, else the
/// smallest (or largest) number, else the first (or last) unnumbered one.
pub fn relative_workspace(positions: &Vec<Option<i32>>, current: usize, next: bool) -> (r: Option<usize>)
    requires
        current < positions@.len(),
    ensures
        r is Some,
        r matches Some(k) ==> {
            let s = positions@;
            let len = s.len() as int;
            let k = k as int;
            match s[current as int] {
                Some(n) => if !none_kept(len, beyond(s, n, next)) {
                    first_minimum(len, beyond(s, n, next), distance_from(s, n), k)
                } else if !none_kept(len, unnumbered(s)) {
                    extreme_kept(len, unnumbered(s), next, k)
                } else if next {
                    first_minimum(len, numbered(s), number_at(s), k)
                } else {
                    last_maximum(len, numbered(s), number_at(s), k)
                },
                None => if !none_kept(len, unnumbered_past(s, current as int, next)) {
                    extreme_kept(len, unnumbered_past(s, current as int, next), next, k)
                } else if !none_kept(len, numbered(s)) {
                    if next {
                        first_minimum(len, numbered(s), number_at(s), k)
                    } else {
                        last_maximum(len, numbered(s), number_at(s), k)
                    }
                } else {
                    extreme_kept(len, unnumbered(s), next, k)
                },
            }
        },
{
    match positions[current] {
        Some(n) => {
            if let Some(k) = closest_beyond(positions, n, next) {
                return Some(k);
            }
            if let Some(k) = unnumbered_pick(positions, current, next, false) {
                return Some(k);
            }
            let r = extreme_numbered(positions, next);
            proof {
                assert(numbered(positions@)(current as int));
            }
            r
        },
        None => {
            if let Some(k) = unnumbered_pick(positions, current, next, true) {
                return Some(k);
            }
            if let Some(k) = extreme_numbered(positions, next) {
                return Some(k);
            }
            let r = unnumbered_pick(positions, current, next, false);
            proof {
                assert(unnumbered(positions@)(current as int));
            }
            r
        },
    }
}

/// The position that `workspace next_on_output` (or `prev_on_output`) moves to
/// from position `current` of `len`: the next (or previous) one, wrapping
/// around.
pub fn cyclic_neighbour(len: usize, current: usize, next: bool) -> (r: usize)
    requires
        current < len,
    ensures
        r == if next {
            if current + 1 < len {
                current + 1
            } else {
                0
            }
        } else if current > 0 {
            current - 1
        } else {
            len - 1
        },
{
    if next {
        if current + 1 < len {
            current + 1
        } else {
            0
        }
    } else if current > 0 {
        current - 1
    } else {
        len - 1
    }
}

/// The numbers that the names in `names` start with, in order; with
/// `positive`, only those above zero.
pub open spec fn leading_numbers(names: Seq<String>, positive: bool) -> Seq<i32>
    decreases names.len(),
{
    if names.len() == 0 {
        Seq::empty()
    } else {
        let rest = leading_numbers(names.drop_last(), positive);
        match leading_number(names.last()@) {
            Some(n) => if !positive || n > 0 {
                rest.push(n)
            } else {
                rest
            },
            None => rest,
        }
    }
}

fn collect_numbers(names: &Vec<String>, positive: bool, out: &mut Vec<i32>)
    ensures
        final(out)@ == old(out)@ + leading_numbers(names@, positive),
{
    let ghost start = out@;
    for i in 0..names.len()
        invariant
            out@ == start + leading_numbers(names@.take(i as int), positive),
    {
        assert(names@.take(i + 1).drop_last() =~= names@.take(i as int));
        assert(names@.take(i + 1).last() == names@[i as int]);
        let parsed = parse_workspace_num(names[i].as_str());
        if let Some(n) = parsed {
            if !positive || n > 0 {
                out.push(n);
                assert(out@ =~= start + leading_numbers(names@.take(i + 1), positive));
            } else {
                assert(out@ =~= start + leading_numbers(names@.take(i + 1), positive));
            }
        } else {
            assert(out@ =~= start + leading_numbers(names@.take(i + 1), positive));
        }
    }
    assert(names@.take(names@.len() as int) =~= names@);
}

proof fn lemma_leading_numbers_len(names: Seq<String>, positive: bool)
    ensures
        leading_numbers(names, positive).len() <= names.len(),
    decreases names.len(),
{
    if names.len() > 0 {
        lemma_leading_numbers_len(names.drop_last(), positive);
    }
}

/// The number a new workspace gets when it needs a free one: the lowest
/// positive number that no workspace name in `names` starts with and that no
/// name in `reserved` (names assigned to other outputs) starts with.
pub fn next_free_workspace_number(names: &Vec<String>, reserved: &Vec<String>) -> (r: i32)
    requires
        names@.len() + reserved@.len() < i32::MAX,
    ensures
        lowest_free(leading_numbers(names@, true) + leading_numbers(reserved@, false), r as int),
{
    let mut used: Vec<i32> = Vec::new();
    collect_numbers(names, true, &mut used);
    collect_numbers(reserved, false, &mut used);
    proof {
        lemma_leading_numbers_len(names@, true);
        lemma_leading_numbers_len(reserved@, false);
        assert(used@ =~= leading_numbers(names@, true) + leading_numbers(reserved@, false));
    }
    lowest_free_number(&used)
}

/// The sway identity of a workspace: the number and the name it was given.
#[derive(Debug)]
pub struct SwayIdentity {
    pub number: Option<i32>,
    pub name: Option<String>,
}

/// The number a workspace lays claim to: its own number, else the number its
/// name starts with (-1 for a name without one).
pub open spec fn claimed_number(w: SwayIdentity) -> Option<i32> {
    match w.number {
        Some(n) => Some(n),
        None => match w.name {
            Some(name) => Some(
                match leading_number(name@) {
                    Some(n) => n,
                    None => -1i32,
                },
            ),
            None => None,
        },
    }
}

/// The numbers claimed by the workspaces of `ws` other than the one at `skip`, in order.
pub open spec fn claimed_by_others(ws: Seq<SwayIdentity>, skip: int) -> Seq<i32>
    decreases ws.len(),
{
    if ws.len() == 0 {
        Seq::empty()
    } else {
        let rest = claimed_by_others(ws.drop_last(), skip);
        if ws.len() - 1 == skip {
            rest
        } else {
            match claimed_number(ws.last()) {
                Some(n) => rest.push(n),
                None => rest,
            }
        }
    }
}

proof fn lemma_claimed_len(ws: Seq<SwayIdentity>, skip: int)
    ensures
        claimed_by_others(ws, skip).len() <= ws.len(),
    decreases ws.len(),
{
    if ws.len() > 0 {
        lemma_claimed_len(ws.drop_last(), skip);
    }
}

/// The number clients see for the workspace at `index` while it waits for
/// its sway identity: the lowest positive number that no other workspace of
/// the output claims (see `claimed_number`).
pub fn provisional_workspace_number(ws: &Vec<SwayIdentity>, index: usize) -> (r: i32)
    requires
        ws@.len() < i32::MAX,
    ensures
        lowest_free(claimed_by_others(ws@, index as int), r as int),
{
    let mut taken: Vec<i32> = Vec::new();
    for i in 0..ws.len()
        invariant
            taken@ == claimed_by_others(ws@.take(i as int), index as int),
    {
        assert(ws@.take(i + 1).drop_last() =~= ws@.take(i as int));
        assert(ws@.take(i + 1).last() == ws@[i as int]);
        if i != index {
            let claimed: Option<i32> = match ws[i].number {
                Some(n) => Some(n),
                None => match &ws[i].name {
                    Some(name) => Some(sway_workspace_num(name.as_str())),
                    None => None,
                },
            };
            if let Some(n) = claimed {
                taken.push(n);
            }
        }
    }
    assert(ws@.take(ws@.len() as int) =~= ws@);
    proof {
        lemma_claimed_len(ws@, index as int);
    }
    lowest_free_number(&taken)
}

} // verus!
