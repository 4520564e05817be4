use swayward::interactive_move::{
    interactive_move_end, interactive_move_update, plan_drop, DropSpot, EndAction, MoveAction, MoveState,
    Placement,
};

fn moving(window: u64, floating: bool, output: u64, config: Option<u64>) -> MoveState {
    MoveState::Moving { window, floating, source_workspace: 7, output, config_workspace: config }
}

#[test]
fn a_tiled_window_rubberbands_until_the_threshold() {
    let start = MoveState::Starting { window: 1 };
    let r = interactive_move_update(start, 1, false, false, 7, Some(7), 3, None);
    assert_eq!(r, (start, MoveAction::Rubberband, true));
    let r = interactive_move_update(start, 1, false, true, 7, Some(7), 3, None);
    assert_eq!(r, (moving(1, false, 3, Some(7)), MoveAction::Detach, true));
}

#[test]
fn a_floating_window_starts_moving_at_once() {
    let start = MoveState::Starting { window: 1 };
    let r = interactive_move_update(start, 1, true, false, 7, None, 3, None);
    assert_eq!(r, (moving(1, true, 3, None), MoveAction::Detach, true));
}

#[test]
fn updates_for_another_window_are_ignored() {
    let start = MoveState::Starting { window: 1 };
    assert_eq!(interactive_move_update(start, 2, false, true, 7, None, 3, None), (start, MoveAction::Ignore, false));
    let m = moving(1, false, 3, None);
    assert_eq!(interactive_move_update(m, 2, false, true, 7, None, 3, None), (m, MoveAction::Ignore, false));
    assert_eq!(
        interactive_move_update(MoveState::Idle, 1, false, true, 7, None, 3, None),
        (MoveState::Idle, MoveAction::Ignore, false)
    );
}

#[test]
fn leaving_the_configured_workspace_drops_its_override() {
    let m = moving(1, false, 3, Some(7));
    let r = interactive_move_update(m, 1, false, false, 0, None, 3, Some(7));
    assert_eq!(r, (m, MoveAction::Track { output_changed: false, config_reset: false }, true));
    let r = interactive_move_update(m, 1, false, false, 0, None, 4, Some(8));
    assert_eq!(r, (moving(1, false, 4, None), MoveAction::Track { output_changed: true, config_reset: true }, true));
    let r = interactive_move_update(m, 1, false, false, 0, None, 3, None);
    assert_eq!(r, (moving(1, false, 3, None), MoveAction::Track { output_changed: false, config_reset: true }, true));
}

#[test]
fn releasing_ends_the_move() {
    let start = MoveState::Starting { window: 1 };
    assert_eq!(interactive_move_end(start, 1), (MoveState::Idle, EndAction::SnapBack));
    assert_eq!(interactive_move_end(start, 2), (start, EndAction::Ignore));
    let m = moving(1, true, 3, None);
    assert_eq!(
        interactive_move_end(m, 1),
        (MoveState::Idle, EndAction::Drop { floating: true, source_workspace: 7, output: 3 })
    );
    assert_eq!(interactive_move_end(MoveState::Idle, 1), (MoveState::Idle, EndAction::Ignore));
}

fn place(window: u64, workspace: u64) -> Placement {
    Placement { window, workspace }
}

#[test]
fn a_drop_adds_the_window_to_the_target() {
    let before = vec![place(2, 7), place(3, 8)];
    let after = plan_drop(&before, 1, 7, 8, DropSpot::NewColumn);
    assert_eq!(after, vec![place(2, 7), place(3, 8), place(1, 8)]);
}

#[test]
fn swapping_across_workspaces_sends_the_target_to_the_source() {
    let before = vec![place(2, 7), place(3, 8), place(4, 8)];
    let after = plan_drop(&before, 1, 7, 8, DropSpot::SwapWith(3));
    assert_eq!(after, vec![place(2, 7), place(3, 7), place(4, 8), place(1, 8)]);
    // On the same workspace the two only trade places there.
    let after = plan_drop(&before, 1, 8, 8, DropSpot::SwapWith(3));
    assert_eq!(after, vec![place(2, 7), place(3, 8), place(4, 8), place(1, 8)]);
}

#[test]
fn a_drop_keeps_every_window_once() {
    let before = vec![place(2, 7), place(3, 8), place(4, 9)];
    for spot in [DropSpot::NewColumn, DropSpot::InColumn, DropSpot::Floating, DropSpot::SwapWith(4)] {
        let after = plan_drop(&before, 1, 7, 9, spot);
        let mut windows: Vec<u64> = after.iter().map(|p| p.window).collect();
        windows.sort();
        assert_eq!(windows, vec![1, 2, 3, 4]);
    }
}
