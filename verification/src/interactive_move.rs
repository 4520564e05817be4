//! The decisions of an interactive (pointer-driven) move of a window: when
//! the rubberbanding start turns into a move, what each pointer update and
//! the release do, and where the dropped window and a displaced one go.
//! The caller measures the pointer (the threshold test works on floats),
//! performs each action and hands back the next event.
use vstd::prelude::*;

verus! {

/// Where an interactive move stands.
#[derive(Clone, Copy, PartialEq, Eq, Structural, Debug)]
pub enum MoveState {
    /// No move is going on.
    Idle,
    /// Rubberbanding: the window is still in the layout.
    Starting { window: u64 },
    /// Moving: the window has left the layout and follows the pointer.
    Moving {
        window: u64,
        floating: bool,
        source_workspace: u64,
        output: u64,
        /// The workspace whose configuration the window still uses, if any.
        config_workspace: Option<u64>,
    },
}

/// What the caller does after a pointer update.
#[derive(Clone, Copy, PartialEq, Eq, Structural, Debug)]
pub enum MoveAction {
    /// The update is for another window: nothing happens.
    Ignore,
    /// Offset the window, rubberbanded, from where it stands.
    Rubberband,
    /// Leave fullscreen and maximized, take the window out of its workspace
    /// and start moving it on the pointer's output.
    Detach,
    /// Follow the pointer; move the window to the pointer's output when it
    /// changed, and refresh its configuration when either that or the
    /// workspace override went.
    Track { output_changed: bool, config_reset: bool },
}

/// What the caller does when the pointer is released.
#[derive(Clone, Copy, PartialEq, Eq, Structural, Debug)]
pub enum EndAction {
    /// The release is for another window, or nothing is moving.
    Ignore,
    /// The move never started: animate the window back into place.
    SnapBack,
    /// Put the window down (see `plan_drop`).
    Drop { floating: bool, source_workspace: u64, output: u64 },
}

/// The state and action after a pointer update for `window` (see
/// `interactive_move_update`).
pub open spec fn update_outcome(
    state: MoveState,
    window: u64,
    floating: bool,
    past_threshold: bool,
    source_workspace: u64,
    workspace_config: Option<u64>,
    output: u64,
    hovered_workspace: Option<u64>,
) -> (MoveState, MoveAction, bool) {
    match state {
        MoveState::Idle => (state, MoveAction::Ignore, false),
        MoveState::Starting { window: w } => if w != window {
            (state, MoveAction::Ignore, false)
        } else if !floating && !past_threshold {
            (state, MoveAction::Rubberband, true)
        } else {
            (
                MoveState::Moving {
                    window,
                    floating,
                    source_workspace,
                    output,
                    config_workspace: workspace_config,
                },
                MoveAction::Detach,
                true,
            )
        },
        MoveState::Moving { window: w, floating: f, source_workspace: s, output: o, config_workspace: c } => if w
            != window {
            (state, MoveAction::Ignore, false)
        } else {
            let reset = c is Some && c != hovered_workspace;
            (
                MoveState::Moving {
                    window: w,
                    floating: f,
                    source_workspace: s,
                    output,
                    config_workspace: if reset {
                        None
                    } else {
                        c
                    },
                },
                MoveAction::Track { output_changed: o != output, config_reset: reset },
                true,
            )
        },
    }
}

/// One pointer update of an interactive move of `window`. While starting,
/// `floating`, `source_workspace` and `workspace_config` describe the window
/// where it stands and `past_threshold` tells whether the pointer went far
/// enough; a tiled window starts moving only past the threshold, a floating
/// one at once. While moving, `hovered_workspace` is the existing workspace
/// under the pointer on `output`; leaving the workspace whose configuration
/// the window kept drops that override. Returns the next state, the action
/// and whether the update was for the moving window.
pub fn interactive_move_update(
    state: MoveState,
    window: u64,
    floating: bool,
    past_threshold: bool,
    source_workspace: u64,
    workspace_config: Option<u64>,
    output: u64,
    hovered_workspace: Option<u64>,
) -> (r: (MoveState, MoveAction, bool))
    ensures
        r == update_outcome(
            state,
            window,
            floating,
            past_threshold,
            source_workspace,
            workspace_config,
            output,
            hovered_workspace,
        ),
{
    match state {
        MoveState::Idle => (state, MoveAction::Ignore, false),
        MoveState::Starting { window: w } => {
            if w != window {
                (state, MoveAction::Ignore, false)
            } else if !floating && !past_threshold {
                (state, MoveAction::Rubberband, true)
            } else {
                (
                    MoveState::Moving {
                        window,
                        floating,
                        source_workspace,
                        output,
                        config_workspace: workspace_config,
                    },
                    MoveAction::Detach,
                    true,
                )
            }
        },
        MoveState::Moving { window: w, floating: f, source_workspace: s, output: o, config_workspace: c } => {
            if w != window {
                (state, MoveAction::Ignore, false)
            } else {
                let reset = match (c, hovered_workspace) {
                    (Some(a), Some(b)) => a != b,
                    (Some(_), None) => true,
                    (None, _) => false,
                };
                let kept = if reset {
                    None
                } else {
                    c
                };
                (
                    MoveState::Moving { window: w, floating: f, source_workspace: s, output, config_workspace: kept },
                    MoveAction::Track { output_changed: o != output, config_reset: reset },
                    true,
                )
            }
        },
    }
}

/// The state and action when the pointer holding `window` is released.
pub open spec fn end_outcome(state: MoveState, window: u64) -> (MoveState, EndAction) {
    match state {
        MoveState::Idle => (state, EndAction::Ignore),
        MoveState::Starting { window: w } => if w != window {
            (state, EndAction::Ignore)
        } else {
            (MoveState::Idle, EndAction::SnapBack)
        },
        MoveState::Moving { window: w, floating, source_workspace, output, .. } => if w != window {
            (state, EndAction::Ignore)
        } else {
            (MoveState::Idle, EndAction::Drop { floating, source_workspace, output })
        },
    }
}

/// The release of the pointer moving `window`: a move that never started
/// snaps back, a started one drops the window; either way the move ends.
pub fn interactive_move_end(state: MoveState, window: u64) -> (r: (MoveState, EndAction))
    ensures
        r == end_outcome(state, window),
{
    match state {
        MoveState::Idle => (state, EndAction::Ignore),
        MoveState::Starting { window: w } => {
            if w != window {
                (state, EndAction::Ignore)
            } else {
                (MoveState::Idle, EndAction::SnapBack)
            }
        },
        MoveState::Moving { window: w, floating, source_workspace, output, .. } => {
            if w != window {
                (state, EndAction::Ignore)
            } else {
                (MoveState::Idle, EndAction::Drop { floating, source_workspace, output })
            }
        },
    }
}

/// Which workspace holds a window.
#[derive(Clone, Copy, PartialEq, Eq, Structural, Debug)]
pub struct Placement {
    pub window: u64,
    pub workspace: u64,
}

/// Where a dropped window lands in its target workspace.
#[derive(Clone, Copy, PartialEq, Eq, Structural, Debug)]
pub enum DropSpot {
    /// In a new column (or beside the node under the pointer).
    NewColumn,
    /// Inside an existing column.
    InColumn,
    /// On the floating layer.
    Floating,
    /// In place of window `w`, which trades places with it: on the same
    /// workspace the two swap; across workspaces `w` goes to the source.
    SwapWith(u64),
}

/// The windows of a list of placements.
pub open spec fn windows_of(s: Seq<Placement>) -> Seq<u64> {
    s.map_values(|p: Placement| p.window)
}

/// `p` after a drop on `target` from `source` at `spot`: the window swapped
/// out of another workspace goes to the source; every other stays.
pub open spec fn replaced(p: Placement, source: u64, target: u64, spot: DropSpot) -> Placement {
    if spot == DropSpot::SwapWith(p.window) && source != target && p.workspace == target {
        Placement { window: p.window, workspace: source }
    } else {
        p
    }
}

/// The placements after dropping `moving` on workspace `target`.
pub open spec fn dropped(s: Seq<Placement>, moving: u64, source: u64, target: u64, spot: DropSpot) -> Seq<
    Placement,
> {
    s.map_values(|p: Placement| replaced(p, source, target, spot)).push(Placement { window: moving, workspace: target })
}

/// Where every window is once `moving`, taken from workspace `source`, is
/// dropped on workspace `target` at `spot` (see `dropped`).
pub fn plan_drop(placements: &Vec<Placement>, moving: u64, source: u64, target: u64, spot: DropSpot) -> (r: Vec<
    Placement,
>)
    ensures
        r@ == dropped(placements@, moving, source, target, spot),
{
    let mut r: Vec<Placement> = Vec::new();
    for i in 0..placements.len()
        invariant
            r@ == placements@.take(i as int).map_values(|p: Placement| replaced(p, source, target, spot)),
    {
        let p = placements[i];
        let swapped = match spot {
            DropSpot::SwapWith(w) => w == p.window && source != target && p.workspace == target,
            _ => false,
        };
        let q = if swapped {
            Placement { window: p.window, workspace: source }
        } else {
            p
        };
        r.push(q);
        assert(placements@.take(i + 1).map_values(|p: Placement| replaced(p, source, target, spot)) =~= r@);
    }
    assert(placements@.take(placements@.len() as int) =~= placements@);
    r.push(Placement { window: moving, workspace: target });
    r
}

/// A drop loses no window and duplicates none: the windows afterwards are
/// those before plus the moved one, each held once when each was before.
pub proof fn law_drop_keeps_every_window(s: Seq<Placement>, moving: u64, source: u64, target: u64, spot: DropSpot)
    requires
        !windows_of(s).contains(moving),
    ensures
        windows_of(dropped(s, moving, source, target, spot)).to_multiset() == windows_of(s).to_multiset().insert(
            moving,
        ),
        windows_of(s).no_duplicates() ==> windows_of(dropped(s, moving, source, target, spot)).no_duplicates(),
        dropped(s, moving, source, target, spot).last() == (Placement { window: moving, workspace: target }),
{
    let d = dropped(s, moving, source, target, spot);
    assert(windows_of(d) =~= windows_of(s).push(moving));
    vstd::seq_lib::to_multiset_build(windows_of(s), moving);
    if windows_of(s).no_duplicates() {
        assert forall|i: int, j: int|
            0 <= i < j < windows_of(d).len() implies windows_of(d)[i] != windows_of(d)[j] by {
            if j == windows_of(s).len() {
                assert(windows_of(s)[i] == windows_of(d)[i]);
                assert(windows_of(s).contains(windows_of(s)[i]));
            }
        }
    }
}

} // verus!
