use swayward::layout_model::{LayoutModel, MonitorEntry, WorkspaceEntry};

fn ws(id: u64, name: Option<&str>, monitor: usize, keep: bool) -> WorkspaceEntry {
    WorkspaceEntry { id, name: name.map(String::from), monitor, keep }
}

fn mon(output: u64, active_workspace: u64) -> MonitorEntry {
    MonitorEntry { output, active_workspace }
}

#[test]
fn a_consistent_layout_passes() {
    let layout = LayoutModel {
        monitors: vec![mon(10, 1), mon(11, 3)],
        workspaces: vec![ws(1, Some("1"), 0, true), ws(2, None, 0, false), ws(3, Some("web"), 1, true)],
        primary: 0,
        active_monitor: 1,
    };
    assert!(layout.verify_invariants());
}

#[test]
fn names_must_differ_beyond_ascii_case() {
    let layout = LayoutModel {
        monitors: vec![mon(10, 1)],
        workspaces: vec![ws(1, Some("Web"), 0, true), ws(2, Some("wEB"), 0, true)],
        primary: 0,
        active_monitor: 0,
    };
    assert!(!layout.verify_invariants());
}

#[test]
fn ids_must_differ() {
    let layout = LayoutModel {
        monitors: vec![mon(10, 1)],
        workspaces: vec![ws(1, None, 0, true), ws(1, Some("b"), 0, true)],
        primary: 0,
        active_monitor: 0,
    };
    assert!(!layout.verify_invariants());
}

#[test]
fn every_output_shows_its_own_workspace() {
    let layout = LayoutModel {
        monitors: vec![mon(10, 1), mon(11, 1)],
        workspaces: vec![ws(1, None, 0, true), ws(2, None, 1, true)],
        primary: 0,
        active_monitor: 0,
    };
    assert!(!layout.verify_invariants());
    let layout = LayoutModel {
        monitors: vec![mon(10, 1)],
        workspaces: vec![ws(1, None, 0, true)],
        primary: 1,
        active_monitor: 0,
    };
    assert!(!layout.verify_invariants());
}

#[test]
fn without_outputs_only_kept_workspaces_remain() {
    let layout = LayoutModel {
        monitors: vec![],
        workspaces: vec![ws(1, Some("1"), 0, true), ws(2, None, 0, false)],
        primary: 0,
        active_monitor: 0,
    };
    assert!(!layout.verify_invariants());
    let layout = LayoutModel {
        monitors: vec![],
        workspaces: vec![ws(1, Some("1"), 0, true)],
        primary: 0,
        active_monitor: 0,
    };
    assert!(layout.verify_invariants());
}

fn two_outputs() -> LayoutModel {
    LayoutModel {
        monitors: vec![mon(10, 1), mon(11, 3)],
        workspaces: vec![ws(1, Some("1"), 0, true), ws(2, Some("2"), 0, true), ws(3, Some("web"), 1, true)],
        primary: 0,
        active_monitor: 0,
    }
}

#[test]
fn activating_a_workspace_shows_it_on_its_output() {
    let mut layout = two_outputs();
    assert!(layout.activate_workspace(1));
    assert_eq!(layout.active_monitor, 0);
    assert_eq!(layout.monitors[0].active_workspace, 2);
    assert!(layout.activate_workspace(2));
    assert_eq!(layout.active_monitor, 1);
    assert_eq!(layout.monitors[1].active_workspace, 3);
    assert_eq!(layout.monitors[0].active_workspace, 2);
    assert!(!layout.activate_workspace(3));
    assert!(layout.verify_invariants());
}

#[test]
fn adding_a_workspace_refuses_clashes() {
    let mut layout = two_outputs();
    assert!(!layout.add_workspace(4, Some(String::from("WEB")), true));
    assert!(!layout.add_workspace(2, Some(String::from("mail")), true));
    assert_eq!(layout.workspaces.len(), 3);
    assert!(layout.add_workspace(4, Some(String::from("mail")), true));
    assert_eq!(layout.workspaces.len(), 4);
    assert_eq!(layout.workspaces[3].monitor, 0);
    assert!(layout.verify_invariants());
    let mut empty = LayoutModel { monitors: vec![], workspaces: vec![], primary: 0, active_monitor: 0 };
    assert!(!empty.add_workspace(1, None, false));
    assert!(empty.add_workspace(1, Some(String::from("1")), true));
    assert!(empty.verify_invariants());
}
