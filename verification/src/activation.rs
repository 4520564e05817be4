//! The choices `workspace` makes that fall outside the workspace list of one
//! output: going back and forth, and which output a new workspace opens on.
use vstd::prelude::*;
use crate::workspace_names::{eq_ignore_ascii_case, eq_ignoring_ascii_case};

verus! {

/// What `workspace back_and_forth` does.
#[derive(Debug, PartialEq, Eq)]
pub enum BackAndForth {
    /// Switch to this workspace of the active output.
    SwitchTo(usize),
    /// Activate the workspace of this name, as `workspace <name>` would.
    ByName(String),
}

/// `workspace back_and_forth`: the previous workspace of the active output
/// if it still stands; else the workspace named as it was, if a name was
/// kept; else an error, as it is without an output.
pub fn back_and_forth(
    has_output: bool,
    previous_idx: Option<usize>,
    previous_name: Option<String>,
) -> (r: Result<BackAndForth, String>)
    ensures
        !has_output ==> (r matches Err(e) && e@ == "cannot switch workspaces without an output"@),
        has_output ==> match previous_idx {
            Some(i) => (r matches Ok(BackAndForth::SwitchTo(j)) && j == i),
            None => match previous_name {
                Some(n) => (r matches Ok(BackAndForth::ByName(m)) && m@ == n@),
                None => (r matches Err(e) && e@ == "There is no previous workspace"@),
            },
        },
{
    if !has_output {
        return Err(String::from_str("cannot switch workspaces without an output"));
    }
    if let Some(i) = previous_idx {
        return Ok(BackAndForth::SwitchTo(i));
    }
    match previous_name {
        Some(n) => Ok(BackAndForth::ByName(n)),
        None => Err(String::from_str("There is no previous workspace")),
    }
}

/// The first of `names` equal to `name` but for ASCII case.
pub fn find_workspace_config(names: &Vec<String>, name: &str) -> (r: Option<usize>)
    ensures
        r matches Some(i) ==> i < names@.len() && eq_ignoring_ascii_case(names@[i as int]@, name@) && forall|j: int|
            0 <= j < i ==> !eq_ignoring_ascii_case((#[trigger] names@[j])@, name@),
        r is None ==> forall|j: int| 0 <= j < names@.len() ==> !eq_ignoring_ascii_case((#[trigger] names@[j])@, name@),
{
    for i in 0..names.len()
        invariant
            forall|j: int| 0 <= j < i ==> !eq_ignoring_ascii_case((#[trigger] names@[j])@, name@),
    {
        if eq_ignore_ascii_case(names[i].as_str(), name) {
            return Some(i);
        }
    }
    None
}

/// Some monitor answers to output name `k` of the assignment.
pub open spec fn name_found(matches: Seq<Vec<bool>>, k: int) -> bool {
    exists|m: int| 0 <= m < matches[k]@.len() && #[trigger] matches[k]@[m]
}

/// The monitor a new workspace opens on. `matches[k][m]` tells whether
/// monitor `m` answers to the `k`-th output name the workspace is assigned
/// to: the first name that some monitor answers to picks the first such
/// monitor; with none, the active monitor.
pub fn assigned_monitor(matches: &Vec<Vec<bool>>, active: usize) -> (r: usize)
    ensures
        (forall|k: int| 0 <= k < matches@.len() ==> !name_found(matches@, k)) ==> r == active,
        forall|k: int|
            0 <= k < matches@.len() && name_found(matches@, k) && (forall|j: int| 0 <= j < k ==> !name_found(matches@, j))
                ==> r < matches@[k]@.len() && matches@[k]@[r as int] && forall|m: int|
                0 <= m < r ==> !(#[trigger] matches@[k]@[m]),
{
    for k in 0..matches.len()
        invariant
            forall|j: int| 0 <= j < k ==> !name_found(matches@, j),
    {
        let row = &matches[k];
        for m in 0..row.len()
            invariant
                k < matches@.len(),
                row == matches@[k as int],
                forall|j: int| 0 <= j < k ==> !name_found(matches@, j),
                forall|i: int| 0 <= i < m ==> !(#[trigger] row@[i]),
        {
            if row[m] {
                proof {
                    assert(name_found(matches@, k as int));
                    assert forall|kk: int|
                        0 <= kk < matches@.len() && name_found(matches@, kk) && (forall|j: int|
                            0 <= j < kk ==> !name_found(matches@, j)) implies kk == k by {
                        if kk < k {
                        } else if kk > k {
                            assert(!name_found(matches@, k as int));
                        }
                    }
                }
                return m;
            }
        }
        proof {
            assert(!name_found(matches@, k as int)) by {
                if name_found(matches@, k as int) {
                    let m = choose|m: int| 0 <= m < matches@[k as int]@.len() && #[trigger] matches@[k as int]@[m];
                    assert(!row@[m]);
                }
            }
        }
    }
    active
}

} // verus!
