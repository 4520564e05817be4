use swayward::sway_order::{sort_sway_workspaces, SwayWorkspace};
use swayward::workspace_names::WorkspaceTarget;
use swayward::workspaces::{
    cyclic_neighbour, find_sway_workspace, lowest_free_number, next_free_workspace_number,
    provisional_workspace_number, relative_workspace, SwayIdentity, WorkspaceSummary,
};

fn ws(has_identity: bool, name: Option<&str>, named: bool) -> WorkspaceSummary {
    WorkspaceSummary { has_identity, sway_name: name.map(|n| n.to_string()), named }
}

#[test]
fn named_workspace_wins_number_lookup() {
    let all = vec![ws(true, Some("1"), false), ws(true, Some("1:first"), true), ws(true, Some("2"), false)];
    assert_eq!(find_sway_workspace(&all, &WorkspaceTarget::Number("1".to_string())), Some(1));
    assert_eq!(find_sway_workspace(&all, &WorkspaceTarget::Number("2".to_string())), Some(2));
    assert_eq!(find_sway_workspace(&all, &WorkspaceTarget::Number("3".to_string())), None);
    assert_eq!(find_sway_workspace(&all, &WorkspaceTarget::Name("1:FIRST".to_string())), Some(1));
    assert_eq!(find_sway_workspace(&all, &WorkspaceTarget::Relative), None);
}

#[test]
fn placeholders_without_identity_do_not_match_numbers() {
    let all = vec![ws(false, Some("1"), false)];
    assert_eq!(find_sway_workspace(&all, &WorkspaceTarget::Number("1".to_string())), None);
    assert_eq!(find_sway_workspace(&all, &WorkspaceTarget::Name("1".to_string())), Some(0));
}

#[test]
fn lowest_free_numbers() {
    assert_eq!(lowest_free_number(&vec![]), 1);
    assert_eq!(lowest_free_number(&vec![1, 2, 4]), 3);
    assert_eq!(lowest_free_number(&vec![3, 1, 2]), 4);
    assert_eq!(lowest_free_number(&vec![-1, 0, 2]), 1);
}

#[test]
fn next_free_number_skips_used_and_reserved() {
    let names = vec!["1".to_string(), "2:web".to_string(), "mail".to_string()];
    let reserved = vec!["3".to_string()];
    assert_eq!(next_free_workspace_number(&names, &reserved), 4);
    assert_eq!(next_free_workspace_number(&names, &vec![]), 3);
    assert_eq!(next_free_workspace_number(&vec!["0".to_string()], &vec![]), 1);
}

#[test]
fn next_numbered_workspace() {
    let positions = vec![Some(1), Some(3), None, Some(2), Some(7)];
    assert_eq!(relative_workspace(&positions, 0, true), Some(3));
    assert_eq!(relative_workspace(&positions, 1, true), Some(4));
    assert_eq!(relative_workspace(&positions, 4, true), Some(2));
    assert_eq!(relative_workspace(&positions, 0, false), Some(2));
    assert_eq!(relative_workspace(&positions, 3, false), Some(0));
}

#[test]
fn next_unnumbered_workspace() {
    let positions = vec![Some(5), None, Some(2), None];
    assert_eq!(relative_workspace(&positions, 1, true), Some(3));
    assert_eq!(relative_workspace(&positions, 3, true), Some(2));
    assert_eq!(relative_workspace(&positions, 1, false), Some(0));
    assert_eq!(relative_workspace(&vec![None, None], 1, true), Some(0));
    assert_eq!(relative_workspace(&vec![None], 0, false), Some(0));
}

#[test]
fn cyclic_neighbours() {
    assert_eq!(cyclic_neighbour(3, 2, true), 0);
    assert_eq!(cyclic_neighbour(3, 0, true), 1);
    assert_eq!(cyclic_neighbour(3, 0, false), 2);
    assert_eq!(cyclic_neighbour(1, 0, false), 0);
}

fn sway(id: u64, has_identity: bool, number: Option<i32>) -> SwayWorkspace {
    SwayWorkspace { id, has_identity, number }
}

#[test]
fn sway_order_ranks_numbers_then_names_then_the_rest() {
    let mut workspaces = vec![
        sway(1, true, Some(3)),
        sway(2, true, None),
        sway(3, false, None),
        sway(4, true, Some(1)),
    ];
    let mut order = vec![2, 1, 9, 4];
    let active = sort_sway_workspaces(&mut workspaces, &mut order, 0);
    let ids: Vec<u64> = workspaces.iter().map(|w| w.id).collect();
    assert_eq!(ids, vec![4, 1, 2, 3]);
    assert_eq!(active, 1);
    assert_eq!(order, vec![4, 1, 2]);
}

#[test]
fn sway_order_keeps_equal_ranks_in_place() {
    let mut workspaces = vec![sway(7, true, None), sway(5, true, None), sway(6, true, Some(2))];
    let mut order = vec![7, 5, 6];
    let active = sort_sway_workspaces(&mut workspaces, &mut order, 1);
    let ids: Vec<u64> = workspaces.iter().map(|w| w.id).collect();
    assert_eq!(ids, vec![6, 5, 7]);
    assert_eq!(workspaces[active].id, 5);
    assert_eq!(order, vec![6, 7, 5]);
}

#[test]
fn provisional_number_skips_claimed_numbers() {
    let ws = vec![
        SwayIdentity { number: Some(1), name: None },
        SwayIdentity { number: None, name: None },
        SwayIdentity { number: None, name: Some("2: mail".to_string()) },
        SwayIdentity { number: None, name: Some("web".to_string()) },
    ];
    assert_eq!(provisional_workspace_number(&ws, 1), 3);
    assert_eq!(provisional_workspace_number(&ws, 0), 1);
}
