use swayward::activation::{assigned_monitor, back_and_forth, find_workspace_config, BackAndForth};

#[test]
fn back_and_forth_choices() {
    assert_eq!(back_and_forth(true, Some(2), Some(String::from("x"))), Ok(BackAndForth::SwitchTo(2)));
    assert_eq!(
        back_and_forth(true, None, Some(String::from("web"))),
        Ok(BackAndForth::ByName(String::from("web")))
    );
    assert_eq!(back_and_forth(true, None, None), Err(String::from("There is no previous workspace")));
    assert_eq!(
        back_and_forth(false, Some(1), None),
        Err(String::from("cannot switch workspaces without an output"))
    );
}

#[test]
fn workspace_config_by_name() {
    let names = vec![String::from("Web"), String::from("mail"), String::from("web")];
    assert_eq!(find_workspace_config(&names, "WEB"), Some(0));
    assert_eq!(find_workspace_config(&names, "chat"), None);
}

#[test]
fn monitor_for_a_new_workspace() {
    // No assignment, or none that any monitor answers to: the active monitor.
    assert_eq!(assigned_monitor(&vec![], 1), 1);
    assert_eq!(assigned_monitor(&vec![vec![false, false]], 1), 1);
    // The first assigned name that a monitor answers to decides.
    assert_eq!(assigned_monitor(&vec![vec![false, false], vec![false, true], vec![true, false]], 0), 1);
}
