//! Which monitor and workspace a new or moved window goes to.
use vstd::prelude::*;
use crate::elements::ActivateWindow;

verus! {

/// What placing a window needs to know of one workspace.
#[derive(Debug)]
pub struct WorkspaceSummary {
    pub id: u64,
    pub windows: Vec<u64>,
    /// The workspace's active window, if any.
    pub active_window: Option<u64>,
}

/// What placing a window needs to know of one monitor.
#[derive(Debug)]
pub struct MonitorSummary {
    pub output: u64,
    pub workspaces: Vec<WorkspaceSummary>,
    pub active_workspace: usize,
}

/// Where a new window is asked to go.
#[derive(Clone, Copy, PartialEq, Eq, Structural, Debug)]
pub enum AddTarget {
    /// Wherever new windows go.
    Auto,
    /// On the monitor of this output.
    Output(u64),
    /// On this workspace.
    Workspace(u64),
    /// Next to this window.
    NextTo(u64),
}

/// Where a new window goes on the monitor chosen for it.
#[derive(Clone, Copy, PartialEq, Eq, Structural, Debug)]
pub enum MonitorTarget {
    Auto,
    Workspace(u64),
    NextTo(u64),
}

/// A window's move to another output: from which monitor and workspace, to
/// which, and whether the moved window takes the focus there.
#[derive(Clone, Copy, PartialEq, Eq, Structural, Debug)]
pub struct OutputMove {
    pub source_monitor: usize,
    pub source_workspace: usize,
    pub target_monitor: usize,
    pub target_workspace: usize,
    pub activate: bool,
}

/// Monitor `i` is the first with output `o`.
pub open spec fn first_with_output(ms: Seq<MonitorSummary>, o: u64, i: int) -> bool {
    &&& 0 <= i < ms.len()
    &&& ms[i].output == o
    &&& forall|j: int| 0 <= j < i ==> (#[trigger] ms[j]).output != o
}

/// Workspace `w` of monitor `m` holds window `x`.
pub open spec fn holds_window(ms: Seq<MonitorSummary>, m: int, w: int, x: u64) -> bool {
    0 <= m < ms.len() && 0 <= w < ms[m].workspaces@.len() && ms[m].workspaces@[w].windows@.contains(x)
}

/// Monitor `m` has some workspace holding window `x`.
pub open spec fn monitor_holds_window(ms: Seq<MonitorSummary>, m: int, x: u64) -> bool {
    exists|w: int| #[trigger] holds_window(ms, m, w, x)
}

/// Monitor `m` has workspace `ws`.
pub open spec fn monitor_has_workspace(ms: Seq<MonitorSummary>, m: int, ws: u64) -> bool {
    0 <= m < ms.len() && exists|w: int| 0 <= w < ms[m].workspaces@.len() && #[trigger] ms[m].workspaces@[w].id == ws
}

/// The first monitor with output `o`.
fn find_output(monitors: &Vec<MonitorSummary>, o: u64) -> (r: Option<usize>)
    ensures
        r matches Some(i) ==> first_with_output(monitors@, o, i as int),
        r is None ==> forall|j: int| 0 <= j < monitors@.len() ==> (#[trigger] monitors@[j]).output != o,
{
    for i in 0..monitors.len()
        invariant
            forall|j: int| 0 <= j < i ==> (#[trigger] monitors@[j]).output != o,
    {
        if monitors[i].output == o {
            return Some(i);
        }
    }
    None
}

/// Whether window `x` is in `ws`.
fn has_window(ws: &WorkspaceSummary, x: u64) -> (r: bool)
    ensures
        r == ws.windows@.contains(x),
{
    for i in 0..ws.windows.len()
        invariant
            forall|j: int| 0 <= j < i ==> ws.windows@[j] != x,
    {
        if ws.windows[i] == x {
            return true;
        }
    }
    false
}

/// The first workspace of `m` holding window `x`.
fn find_window_in(m: &MonitorSummary, x: u64) -> (r: Option<usize>)
    ensures
        r matches Some(w) ==> w < m.workspaces@.len() && m.workspaces@[w as int].windows@.contains(x) && forall|j: int|
            0 <= j < w ==> !(#[trigger] m.workspaces@[j]).windows@.contains(x),
        r is None ==> forall|j: int| 0 <= j < m.workspaces@.len() ==> !(#[trigger] m.workspaces@[j]).windows@.contains(x),
{
    for w in 0..m.workspaces.len()
        invariant
            forall|j: int| 0 <= j < w ==> !(#[trigger] m.workspaces@[j]).windows@.contains(x),
    {
        if has_window(&m.workspaces[w], x) {
            return Some(w);
        }
    }
    None
}

/// The first monitor, and its first workspace, holding window `x`.
fn find_window(monitors: &Vec<MonitorSummary>, x: u64) -> (r: Option<(usize, usize)>)
    ensures
        r matches Some((m, w)) ==> holds_window(monitors@, m as int, w as int, x) && (forall|j: int|
            0 <= j < m ==> !monitor_holds_window(monitors@, j, x)) && forall|k: int|
            0 <= k < w ==> !(#[trigger] monitors@[m as int].workspaces@[k]).windows@.contains(x),
        r is None ==> forall|j: int| 0 <= j < monitors@.len() ==> !monitor_holds_window(monitors@, j, x),
{
    for m in 0..monitors.len()
        invariant
            forall|j: int| 0 <= j < m ==> !monitor_holds_window(monitors@, j, x),
    {
        match find_window_in(&monitors[m], x) {
            Some(w) => {
                return Some((m, w));
            },
            None => {
                assert(!monitor_holds_window(monitors@, m as int, x)) by {
                    if monitor_holds_window(monitors@, m as int, x) {
                        let w = choose|w: int| #[trigger] holds_window(monitors@, m as int, w, x);
                        assert(!monitors@[m as int].workspaces@[w].windows@.contains(x));
                    }
                }
            },
        }
    }
    None
}

/// The first monitor holding workspace `ws`.
fn find_workspace(monitors: &Vec<MonitorSummary>, ws: u64) -> (r: Option<usize>)
    ensures
        r matches Some(i) ==> monitor_has_workspace(monitors@, i as int, ws) && forall|j: int|
            0 <= j < i ==> !monitor_has_workspace(monitors@, j, ws),
        r is None ==> forall|j: int| 0 <= j < monitors@.len() ==> !monitor_has_workspace(monitors@, j, ws),
{
    for m in 0..monitors.len()
        invariant
            forall|j: int| 0 <= j < m ==> !monitor_has_workspace(monitors@, j, ws),
    {
        let mon = &monitors[m];
        for w in 0..mon.workspaces.len()
            invariant
                m < monitors@.len(),
                mon == monitors@[m as int],
                forall|j: int| 0 <= j < m ==> !monitor_has_workspace(monitors@, j, ws),
                forall|k: int| 0 <= k < w ==> (#[trigger] mon.workspaces@[k]).id != ws,
        {
            if mon.workspaces[w].id == ws {
                assert(mon.workspaces@[w as int].id == ws);
                return Some(m);
            }
        }
    }
    None
}

/// The monitor a new window goes to, and where on it. A window to be placed
/// next to one hidden in the scratchpad, or next to the window being moved
/// with the pointer, goes wherever new windows go: on the monitor of the
/// moved window's output (`moving` gives the moved window and the monitor of
/// its output, if that output has one), else on the active monitor. Else
/// the monitor is the first with the output, the workspace or the window
/// asked for.
pub fn resolve_add_window_target(
    monitors: &Vec<MonitorSummary>,
    active: usize,
    target: AddTarget,
    next_to_hidden: bool,
    moving: Option<(u64, Option<usize>)>,
) -> (r: (usize, MonitorTarget))
    requires
        active < monitors@.len(),
        target matches AddTarget::Output(o) ==> exists|i: int| 0 <= i < monitors@.len() && #[trigger] monitors@[i].output == o,
        target matches AddTarget::Workspace(ws) ==> exists|i: int| #[trigger] monitor_has_workspace(monitors@, i, ws),
        target matches AddTarget::NextTo(x) ==> (next_to_hidden || (moving matches Some((mw, _)) && mw == x) || exists|i: int|
            #[trigger] monitor_holds_window(monitors@, i, x)),
        moving matches Some((_, Some(i))) ==> i < monitors@.len(),
    ensures
        r.0 < monitors@.len(),
        target is Auto || (target matches AddTarget::NextTo(_) && next_to_hidden) ==> r == (active, MonitorTarget::Auto),
        target matches AddTarget::Output(o) ==> first_with_output(monitors@, o, r.0 as int) && r.1 == MonitorTarget::Auto,
        target matches AddTarget::Workspace(ws) ==> monitor_has_workspace(monitors@, r.0 as int, ws) && (forall|j: int|
            0 <= j < r.0 ==> !monitor_has_workspace(monitors@, j, ws)) && r.1 == MonitorTarget::Workspace(ws),
        target matches AddTarget::NextTo(x) ==> (!next_to_hidden ==> if (moving matches Some((mw, _)) && mw == x) {
            r.1 == MonitorTarget::Auto && r.0 == (match moving {
                Some((_, Some(i))) => i,
                _ => active,
            })
        } else {
            monitor_holds_window(monitors@, r.0 as int, x) && (forall|j: int|
                0 <= j < r.0 ==> !monitor_holds_window(monitors@, j, x)) && r.1 == MonitorTarget::NextTo(x)
        }),
{
    match target {
        AddTarget::Auto => (active, MonitorTarget::Auto),
        AddTarget::Output(o) => {
            let i = find_output(monitors, o);
            match i {
                Some(i) => (i, MonitorTarget::Auto),
                None => {
                    proof {
                        let k = choose|k: int| 0 <= k < monitors@.len() && #[trigger] monitors@[k].output == o;
                        assert(monitors@[k].output != o);
                    }
                    (active, MonitorTarget::Auto)
                },
            }
        },
        AddTarget::Workspace(ws) => {
            match find_workspace(monitors, ws) {
                Some(i) => (i, MonitorTarget::Workspace(ws)),
                None => {
                    proof {
                        let k = choose|k: int| #[trigger] monitor_has_workspace(monitors@, k, ws);
                        assert(!monitor_has_workspace(monitors@, k, ws));
                    }
                    (active, MonitorTarget::Auto)
                },
            }
        },
        AddTarget::NextTo(x) => {
            if next_to_hidden {
                return (active, MonitorTarget::Auto);
            }
            if let Some((mw, out)) = moving {
                if mw == x {
                    return match out {
                        Some(i) => (i, MonitorTarget::Auto),
                        None => (active, MonitorTarget::Auto),
                    };
                }
            }
            match find_window(monitors, x) {
                Some((m, _)) => {
                    assert(monitor_holds_window(monitors@, m as int, x));
                    (m, MonitorTarget::NextTo(x))
                },
                None => {
                    proof {
                        let k = choose|k: int| #[trigger] monitor_holds_window(monitors@, k, x);
                        assert(!monitor_holds_window(monitors@, k, x));
                    }
                    (active, MonitorTarget::Auto)
                },
            }
        },
    }
}

/// Window `x` is first found in workspace `w` of monitor `m`.
pub open spec fn first_window_at(ms: Seq<MonitorSummary>, x: u64, m: int, w: int) -> bool {
    &&& holds_window(ms, m, w, x)
    &&& forall|j: int| 0 <= j < m ==> !monitor_holds_window(ms, j, x)
    &&& forall|k: int| 0 <= k < w ==> !(#[trigger] ms[m].workspaces@[k]).windows@.contains(x)
}

/// Where a move to another output takes its window from: the first
/// workspace holding the window, or the active workspace of the active
/// monitor when no window is named.
pub open spec fn move_source(ms: Seq<MonitorSummary>, active: int, window: Option<u64>) -> (int, int) {
    match window {
        Some(x) => choose|p: (int, int)| first_window_at(ms, x, p.0, p.1),
        None => (active, ms[active].active_workspace as int),
    }
}

/// Where a move to output `o` takes its window: the first monitor with that
/// output, at workspace `target_ws` or else that monitor's active workspace.
pub open spec fn move_target(ms: Seq<MonitorSummary>, o: u64, target_ws: Option<usize>) -> (int, int) {
    let n = choose|i: int| first_with_output(ms, o, i);
    (n, match target_ws {
        Some(i) => i as int,
        None => ms[n].active_workspace as int,
    })
}

/// The active window of monitor `m`: that of its active workspace.
pub open spec fn active_window_of(ms: Seq<MonitorSummary>, m: int) -> Option<u64> {
    ms[m].workspaces@[ms[m].active_workspace as int].active_window
}

/// Whether a window moved to another output takes the focus there: as asked,
/// or, left to the heuristic, when no window was named or it is the active
/// monitor's active window.
pub open spec fn move_activates(
    ms: Seq<MonitorSummary>,
    active: int,
    window: Option<u64>,
    source_monitor: int,
    activate: ActivateWindow,
) -> bool {
    match activate {
        ActivateWindow::Yes => true,
        ActivateWindow::No => false,
        ActivateWindow::Smart => window is None || (source_monitor == active && active_window_of(ms, source_monitor)
            == window),
    }
}

/// Whether the move is refused because it concerns the window being moved
/// with the pointer (`moving`): the named window, or any when none is named.
pub open spec fn move_blocked(window: Option<u64>, moving: Option<u64>) -> bool {
    moving matches Some(m) && (window is None || window == Some(m))
}

/// Decides a window's move to the monitor of output `output`: nothing when
/// the move is blocked (see `move_blocked`) or would leave the window on the
/// workspace it is on; else the source (see `move_source`), the target (see
/// `move_target`) and whether the window takes the focus (see
/// `move_activates`).
pub fn plan_move_to_output(
    monitors: &Vec<MonitorSummary>,
    active: usize,
    window: Option<u64>,
    output: u64,
    target_ws: Option<usize>,
    moving: Option<u64>,
    activate: ActivateWindow,
) -> (r: Option<OutputMove>)
    requires
        active < monitors@.len(),
        forall|m: int|
            0 <= m < monitors@.len() ==> (#[trigger] monitors@[m]).active_workspace < monitors@[m].workspaces@.len(),
        !move_blocked(window, moving) ==> exists|i: int| 0 <= i < monitors@.len() && #[trigger] monitors@[i].output
            == output,
        !move_blocked(window, moving) && window is Some ==> exists|i: int|
            #[trigger] monitor_holds_window(monitors@, i, window->0),
    ensures
        move_blocked(window, moving) ==> r is None,
        !move_blocked(window, moving) ==> (r is None <==> move_source(monitors@, active as int, window) == move_target(
            monitors@,
            output,
            target_ws,
        )),
        r matches Some(mv) ==> {
            &&& (mv.source_monitor as int, mv.source_workspace as int) == move_source(monitors@, active as int, window)
            &&& (mv.target_monitor as int, mv.target_workspace as int) == move_target(monitors@, output, target_ws)
            &&& mv.activate == move_activates(monitors@, active as int, window, mv.source_monitor as int, activate)
        },
        r matches Some(mv) ==> {
            &&& mv.target_monitor < monitors@.len()
            &&& monitors@[mv.target_monitor as int].output == output
            &&& forall|j: int| 0 <= j < mv.target_monitor ==> (#[trigger] monitors@[j]).output != output
            &&& mv.target_workspace == match target_ws {
                Some(i) => i,
                None => monitors@[mv.target_monitor as int].active_workspace,
            }
        },
        r matches Some(mv) ==> match window {
            Some(x) => {
                &&& mv.source_monitor < monitors@.len()
                &&& mv.source_workspace < monitors@[mv.source_monitor as int].workspaces@.len()
                &&& monitors@[mv.source_monitor as int].workspaces@[mv.source_workspace as int].windows@.contains(x)
                &&& forall|j: int, k: int|
                    0 <= j < mv.source_monitor && 0 <= k < monitors@[j].workspaces@.len()
                        ==> !(#[trigger] monitors@[j].workspaces@[k]).windows@.contains(x)
                &&& forall|k: int|
                    0 <= k < mv.source_workspace ==> !(#[trigger] monitors@[mv.source_monitor as int].workspaces@[k]).windows@.contains(
                        x,
                    )
            },
            None => mv.source_monitor == active && mv.source_workspace == monitors@[active as int].active_workspace,
        },
        r matches Some(mv) ==> mv.activate == match activate {
            ActivateWindow::Yes => true,
            ActivateWindow::No => false,
            ActivateWindow::Smart => window is None || (mv.source_monitor == active && monitors@[active as int].workspaces@[monitors@[active as int].active_workspace as int].active_window
                == window),
        },
{
    if let Some(m) = moving {
        if window.is_none() || window == Some(m) {
            return None;
        }
    }
    let ghost ms = monitors@;
    let new_idx = match find_output(monitors, output) {
        Some(i) => i,
        None => {
            proof {
                let k = choose|k: int| 0 <= k < ms.len() && #[trigger] ms[k].output == output;
                assert(ms[k].output != output);
            }
            return None;
        },
    };
    proof {
        let c = choose|i: int| first_with_output(ms, output, i);
        assert(first_with_output(ms, output, new_idx as int));
        if c != new_idx {
            if c < new_idx {
                assert(ms[c].output != output);
            } else {
                assert(ms[new_idx as int].output != output);
            }
        }
    }
    let (mon_idx, ws_idx) = match window {
        Some(x) => match find_window(monitors, x) {
            Some(p) => {
                proof {
                    let c = choose|q: (int, int)| first_window_at(ms, x, q.0, q.1);
                    assert(first_window_at(ms, x, p.0 as int, p.1 as int));
                    assert forall|j: int, k: int|
                        0 <= j < p.0 && 0 <= k < ms[j].workspaces@.len() implies !(
                        #[trigger] ms[j].workspaces@[k]).windows@.contains(x) by {
                        if ms[j].workspaces@[k].windows@.contains(x) {
                            assert(holds_window(ms, j, k, x));
                            assert(monitor_holds_window(ms, j, x));
                            assert(!monitor_holds_window(ms, j, x));
                        }
                    }
                    if c.0 != p.0 {
                        if c.0 < p.0 {
                            assert(!monitor_holds_window(ms, c.0, x));
                        } else {
                            assert(!monitor_holds_window(ms, p.0 as int, x));
                        }
                    } else if c.1 != p.1 {
                        if c.1 < p.1 {
                            assert(!ms[c.0].workspaces@[c.1].windows@.contains(x));
                        } else {
                            assert(!ms[c.0].workspaces@[p.1 as int].windows@.contains(x));
                        }
                    }
                }
                p
            },
            None => {
                proof {
                    let k = choose|k: int| #[trigger] monitor_holds_window(ms, k, x);
                    assert(!monitor_holds_window(ms, k, x));
                }
                return None;
            },
        },
        None => (active, monitors[active].active_workspace),
    };
    let workspace_idx = match target_ws {
        Some(i) => i,
        None => monitors[new_idx].active_workspace,
    };
    if mon_idx == new_idx && ws_idx == workspace_idx {
        return None;
    }
    let smart = match window {
        None => true,
        Some(x) => {
            let mon = &monitors[mon_idx];
            mon_idx == active && mon.workspaces[mon.active_workspace].active_window == Some(x)
        },
    };
    let go = match activate {
        ActivateWindow::Yes => true,
        ActivateWindow::No => false,
        ActivateWindow::Smart => smart,
    };
    Some(
        OutputMove {
            source_monitor: mon_idx,
            source_workspace: ws_idx,
            target_monitor: new_idx,
            target_workspace: workspace_idx,
            activate: go,
        },
    )
}

} // verus!
