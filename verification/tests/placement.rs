use swayward::elements::ActivateWindow;
use swayward::placement::{
    plan_move_to_output, resolve_add_window_target, AddTarget, MonitorSummary, MonitorTarget, OutputMove,
    WorkspaceSummary,
};

fn ws(id: u64, windows: &[u64], active_window: Option<u64>) -> WorkspaceSummary {
    WorkspaceSummary { id, windows: windows.to_vec(), active_window }
}

fn monitors() -> Vec<MonitorSummary> {
    vec![
        MonitorSummary { output: 10, workspaces: vec![ws(1, &[100, 101], Some(101)), ws(2, &[], None)], active_workspace: 0 },
        MonitorSummary { output: 20, workspaces: vec![ws(3, &[200], Some(200))], active_workspace: 0 },
    ]
}

#[test]
fn add_window_targets() {
    let ms = monitors();
    assert_eq!(resolve_add_window_target(&ms, 1, AddTarget::Auto, false, None), (1, MonitorTarget::Auto));
    assert_eq!(resolve_add_window_target(&ms, 0, AddTarget::Output(20), false, None), (1, MonitorTarget::Auto));
    assert_eq!(
        resolve_add_window_target(&ms, 1, AddTarget::Workspace(2), false, None),
        (0, MonitorTarget::Workspace(2))
    );
    assert_eq!(
        resolve_add_window_target(&ms, 0, AddTarget::NextTo(200), false, None),
        (1, MonitorTarget::NextTo(200))
    );
    // Next to a window hidden in the scratchpad: wherever new windows go.
    assert_eq!(resolve_add_window_target(&ms, 0, AddTarget::NextTo(200), true, None), (0, MonitorTarget::Auto));
    // Next to the window being moved: on its output's monitor, or the active one.
    assert_eq!(
        resolve_add_window_target(&ms, 0, AddTarget::NextTo(300), false, Some((300, Some(1)))),
        (1, MonitorTarget::Auto)
    );
    assert_eq!(
        resolve_add_window_target(&ms, 0, AddTarget::NextTo(300), false, Some((300, None))),
        (0, MonitorTarget::Auto)
    );
}

#[test]
fn moves_to_another_output() {
    let ms = monitors();
    assert_eq!(
        plan_move_to_output(&ms, 0, Some(101), 20, None, None, ActivateWindow::Smart),
        Some(OutputMove { source_monitor: 0, source_workspace: 0, target_monitor: 1, target_workspace: 0, activate: true })
    );
    assert_eq!(
        plan_move_to_output(&ms, 0, Some(100), 20, None, None, ActivateWindow::Smart),
        Some(OutputMove { source_monitor: 0, source_workspace: 0, target_monitor: 1, target_workspace: 0, activate: false })
    );
    // Already on that workspace of that output: nothing to do.
    assert_eq!(plan_move_to_output(&ms, 0, Some(200), 20, None, None, ActivateWindow::Yes), None);
    // The focused window goes to workspace 1 of its own output.
    assert_eq!(
        plan_move_to_output(&ms, 0, None, 10, Some(1), None, ActivateWindow::No),
        Some(OutputMove { source_monitor: 0, source_workspace: 0, target_monitor: 0, target_workspace: 1, activate: false })
    );
    // A window being moved with the pointer stays out of it.
    assert_eq!(plan_move_to_output(&ms, 0, None, 20, None, Some(7), ActivateWindow::Yes), None);
    assert_eq!(plan_move_to_output(&ms, 0, Some(7), 20, None, Some(7), ActivateWindow::Yes), None);
}
