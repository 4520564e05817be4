//! The outputs and workspaces of a layout, held as the plain values its
//! rules read, and the check of their invariants: workspace ids and names
//! unique, every output showing one of its own workspaces, and, with no
//! output at all, only workspaces that must be kept.
use vstd::prelude::*;
use crate::workspace_names::{eq_ignore_ascii_case, eq_ignoring_ascii_case};

verus! {

/// A workspace: its id, its name if it has one, the output (an index into
/// the layout's outputs) that shows it, and whether it must be kept when
/// empty (it is named or holds windows).
pub struct WorkspaceEntry {
    pub id: u64,
    pub name: Option<String>,
    pub monitor: usize,
    pub keep: bool,
}

/// An output and the id of the workspace it shows.
#[derive(Clone, Copy, PartialEq, Eq, Structural, Debug)]
pub struct MonitorEntry {
    pub output: u64,
    pub active_workspace: u64,
}

/// The outputs and workspaces of a layout. With no output, the workspaces
/// wait for one and `primary` and `active_monitor` mean nothing.
pub struct LayoutModel {
    pub monitors: Vec<MonitorEntry>,
    pub workspaces: Vec<WorkspaceEntry>,
    pub primary: usize,
    pub active_monitor: usize,
}

/// Two workspaces that cannot both exist: same id, or names equal up to
/// ASCII case.
pub open spec fn clash(a: WorkspaceEntry, b: WorkspaceEntry) -> bool {
    ||| a.id == b.id
    ||| (a.name matches Some(x) && b.name matches Some(y) && eq_ignoring_ascii_case(x@, y@))
}

impl LayoutModel {
    /// No two workspaces clash.
    pub open spec fn distinct_workspaces(self) -> bool {
        forall|i: int, j: int|
            0 <= i < j < self.workspaces@.len() ==> !clash(self.workspaces@[i], self.workspaces@[j])
    }

    /// Output `m` shows one of its own workspaces.
    pub open spec fn shows_own_workspace(self, m: int) -> bool {
        exists|i: int|
            0 <= i < self.workspaces@.len() && self.workspaces@[i].monitor == m && self.workspaces@[i].id
                == self.monitors@[m].active_workspace
    }

    /// The invariants of a layout.
    pub open spec fn layout_ok(self) -> bool {
        &&& self.distinct_workspaces()
        &&& if self.monitors@.len() == 0 {
            forall|i: int| 0 <= i < self.workspaces@.len() ==> (#[trigger] self.workspaces@[i]).keep
        } else {
            &&& self.primary < self.monitors@.len()
            &&& self.active_monitor < self.monitors@.len()
            &&& forall|i: int|
                0 <= i < self.workspaces@.len() ==> (#[trigger] self.workspaces@[i]).monitor < self.monitors@.len()
            &&& forall|m: int| 0 <= m < self.monitors@.len() ==> #[trigger] self.shows_own_workspace(m)
        }
    }

    /// Whether the layout holds its invariants (see `layout_ok`).
    pub fn verify_invariants(&self) -> (r: bool)
        ensures
            r == self.layout_ok(),
    {
        let n = self.workspaces.len();
        for i in 0..n
            invariant
                n == self.workspaces@.len(),
                forall|a: int, b: int| 0 <= a < i && a < b < n ==> !clash(self.workspaces@[a], self.workspaces@[b]),
        {
            for j in i + 1..n
                invariant
                    n == self.workspaces@.len(),
                    i < n,
                    forall|a: int, b: int|
                        0 <= a < i && a < b < n ==> !clash(self.workspaces@[a], self.workspaces@[b]),
                    forall|b: int| i < b < j ==> !clash(self.workspaces@[i as int], self.workspaces@[b]),
            {
                if clashes(&self.workspaces[i], &self.workspaces[j]) {
                    return false;
                }
            }
        }
        let mcount = self.monitors.len();
        if mcount == 0 {
            for i in 0..n
                invariant
                    n == self.workspaces@.len(),
                    self.monitors@.len() == 0,
                    self.distinct_workspaces(),
                    forall|k: int| 0 <= k < i ==> (#[trigger] self.workspaces@[k]).keep,
            {
                if !self.workspaces[i].keep {
                    return false;
                }
            }
            return true;
        }
        if self.primary >= mcount || self.active_monitor >= mcount {
            return false;
        }
        for i in 0..n
            invariant
                n == self.workspaces@.len(),
                mcount == self.monitors@.len(),
                mcount > 0,
                forall|k: int| 0 <= k < i ==> (#[trigger] self.workspaces@[k]).monitor < mcount,
        {
            if self.workspaces[i].monitor >= mcount {
                assert(!self.layout_ok()) by {
                    assert(self.monitors@.len() != 0);
                    assert(self.workspaces@[i as int].monitor >= self.monitors@.len());
                    assert(!(self.workspaces@[i as int].monitor < self.monitors@.len()));
                }
                return false;
            }
        }
        for m in 0..mcount
            invariant
                n == self.workspaces@.len(),
                mcount == self.monitors@.len(),
                forall|k: int| 0 <= k < m ==> #[trigger] self.shows_own_workspace(k),
        {
            let active = self.monitors[m].active_workspace;
            let mut found = false;
            for i in 0..n
                invariant
                    n == self.workspaces@.len(),
                    mcount == self.monitors@.len(),
                    m < mcount,
                    active == self.monitors@[m as int].active_workspace,
                    found ==> self.shows_own_workspace(m as int),
                    !found ==> forall|k: int|
                        0 <= k < i ==> !(self.workspaces@[k].monitor == m && self.workspaces@[k].id == active),
            {
                if self.workspaces[i].monitor == m && self.workspaces[i].id == active {
                    found = true;
                }
            }
            if !found {
                assert(!self.shows_own_workspace(m as int)) by {
                    if self.shows_own_workspace(m as int) {
                        let k = choose|k: int|
                            0 <= k < self.workspaces@.len() && self.workspaces@[k].monitor == m
                                && self.workspaces@[k].id == self.monitors@[m as int].active_workspace;
                        assert(!(self.workspaces@[k].monitor == m && self.workspaces@[k].id == active));
                    }
                }
                return false;
            }
        }
        true
    }
}

impl LayoutModel {
    /// Shows workspace `i` on its output and makes that output the active
    /// one. Returns whether `i` names a workspace on an output; the layout
    /// is unchanged otherwise.
    pub fn activate_workspace(&mut self, i: usize) -> (r: bool)
        requires
            old(self).layout_ok(),
        ensures
            final(self).layout_ok(),
            r == (i < old(self).workspaces@.len() && old(self).monitors@.len() > 0),
            !r ==> final(self).monitors@ == old(self).monitors@ && final(self).active_monitor == old(
                self,
            ).active_monitor,
            final(self).workspaces@ == old(self).workspaces@,
            final(self).primary == old(self).primary,
            r ==> {
                let m = old(self).workspaces@[i as int].monitor;
                &&& final(self).active_monitor == m
                &&& final(self).monitors@ == old(self).monitors@.update(
                    m as int,
                    MonitorEntry { active_workspace: old(self).workspaces@[i as int].id, ..old(self).monitors@[m as int] },
                )
            },
    {
        if i >= self.workspaces.len() || self.monitors.len() == 0 {
            return false;
        }
        let ghost before = *self;
        let m = self.workspaces[i].monitor;
        assert(before.workspaces@[i as int].monitor < before.monitors@.len());
        let id = self.workspaces[i].id;
        let mut entry = self.monitors[m];
        entry.active_workspace = id;
        self.monitors.set(m, entry);
        self.active_monitor = m;
        assert forall|k: int| 0 <= k < self.monitors@.len() implies #[trigger] self.shows_own_workspace(k) by {
            if k == m {
                assert(self.workspaces@[i as int].monitor == k && self.workspaces@[i as int].id
                    == self.monitors@[k].active_workspace);
            } else {
                assert(before.shows_own_workspace(k));
                let j = choose|j: int|
                    0 <= j < before.workspaces@.len() && before.workspaces@[j].monitor == k
                        && before.workspaces@[j].id == before.monitors@[k].active_workspace;
                assert(self.workspaces@[j].monitor == k && self.workspaces@[j].id == self.monitors@[k].active_workspace);
            }
        }
        true
    }
}

impl LayoutModel {
    /// Adds workspace `id`, named `name`, on the active output (with no
    /// output, to the waiting workspaces). Refused, leaving the layout as it
    /// was, when it would clash with a workspace (same id, or names equal up
    /// to ASCII case), or when there is no output and it need not be kept.
    pub fn add_workspace(&mut self, id: u64, name: Option<String>, keep: bool) -> (r: bool)
        requires
            old(self).layout_ok(),
        ensures
            final(self).layout_ok(),
            r == ((forall|k: int|
                0 <= k < old(self).workspaces@.len() ==> !clash(
                    #[trigger] old(self).workspaces@[k],
                    WorkspaceEntry { id, name, monitor: old(self).active_monitor, keep },
                )) && (old(self).monitors@.len() > 0 || keep)),
            r ==> final(self).workspaces@ == old(self).workspaces@.push(
                WorkspaceEntry { id, name, monitor: old(self).active_monitor, keep },
            ),
            !r ==> final(self).workspaces@ == old(self).workspaces@,
            final(self).monitors@ == old(self).monitors@,
            final(self).active_monitor == old(self).active_monitor,
            final(self).primary == old(self).primary,
    {
        let entry = WorkspaceEntry { id, name, monitor: self.active_monitor, keep };
        if self.monitors.len() == 0 && !keep {
            return false;
        }
        let n = self.workspaces.len();
        for k in 0..n
            invariant
                n == self.workspaces@.len(),
                self.layout_ok(),
                self.workspaces@ == old(self).workspaces@,
                self.monitors@ == old(self).monitors@,
                self.active_monitor == old(self).active_monitor,
                self.primary == old(self).primary,
                entry == (WorkspaceEntry { id, name, monitor: old(self).active_monitor, keep }),
                forall|j: int| 0 <= j < k ==> !clash(#[trigger] self.workspaces@[j], entry),
        {
            if clashes(&self.workspaces[k], &entry) {
                return false;
            }
        }
        let ghost before = *self;
        self.workspaces.push(entry);
        assert forall|a: int, b: int|
            0 <= a < b < self.workspaces@.len() implies !clash(self.workspaces@[a], self.workspaces@[b]) by {
            if b == n {
                assert(self.workspaces@[a] == before.workspaces@[a]);
            } else {
                assert(self.workspaces@[a] == before.workspaces@[a]);
                assert(self.workspaces@[b] == before.workspaces@[b]);
            }
        }
        assert forall|m: int| 0 <= m < self.monitors@.len() implies #[trigger] self.shows_own_workspace(m) by {
            assert(before.shows_own_workspace(m));
            let j = choose|j: int|
                0 <= j < before.workspaces@.len() && before.workspaces@[j].monitor == m
                    && before.workspaces@[j].id == before.monitors@[m].active_workspace;
            assert(self.workspaces@[j] == before.workspaces@[j]);
        }
        assert forall|j: int| 0 <= j < self.workspaces@.len() implies (#[trigger] self.workspaces@[j]).keep
            || self.monitors@.len() > 0 by {
            if j < n {
                assert(self.workspaces@[j] == before.workspaces@[j]);
            }
        }
        assert forall|j: int| 0 <= j < self.workspaces@.len() && self.monitors@.len() > 0 implies (
        #[trigger] self.workspaces@[j]).monitor < self.monitors@.len() by {
            if j < n {
                assert(self.workspaces@[j] == before.workspaces@[j]);
            }
        }
        true
    }
}

/// Whether workspaces `a` and `b` clash.
fn clashes(a: &WorkspaceEntry, b: &WorkspaceEntry) -> (r: bool)
    ensures
        r == clash(*a, *b),
{
    if a.id == b.id {
        return true;
    }
    match (&a.name, &b.name) {
        (Some(x), Some(y)) => eq_ignore_ascii_case(x.as_str(), y.as_str()),
        _ => false,
    }
}

} // verus!
