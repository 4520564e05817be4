use swayward::titles::format_representation;
use swayward::workspace_names::{
    eq_ignore_ascii_case, parse_workspace_num, sway_workspace_identity, sway_workspace_num,
    workspace_matches_target, workspace_name_matches_number, workspace_number_matches, WorkspaceTarget,
};

#[test]
fn leading_numbers() {
    assert_eq!(parse_workspace_num("1:web"), Some(1));
    assert_eq!(parse_workspace_num("007"), Some(7));
    assert_eq!(parse_workspace_num("web"), None);
    assert_eq!(parse_workspace_num(""), None);
    assert_eq!(parse_workspace_num("2147483647"), Some(i32::MAX));
    assert_eq!(parse_workspace_num("2147483648"), None);
    assert_eq!(parse_workspace_num("99999999999999999999x"), None);
    assert_eq!(sway_workspace_num("12 mail"), 12);
    assert_eq!(sway_workspace_num("mail"), -1);
}

#[test]
fn number_targets_match_leading_digits() {
    assert!(workspace_name_matches_number("1", "1"));
    assert!(workspace_name_matches_number("1:first", "1"));
    assert!(!workspace_name_matches_number("11", "1"));
    assert!(!workspace_name_matches_number("2", "1"));
    assert!(workspace_name_matches_number("1:x", "1abc"));
    assert!(workspace_name_matches_number("mail", "mail"));
    assert!(!workspace_name_matches_number("3", "x"));
}

#[test]
fn number_prefixes() {
    assert!(workspace_number_matches("1:first", "1"));
    assert!(!workspace_number_matches("10", "1"));
    assert!(workspace_number_matches("x", ""));
    assert!(!workspace_number_matches("5", ""));
    assert!(!workspace_number_matches("1", "12"));
}

#[test]
fn workspace_identities() {
    assert_eq!(sway_workspace_identity(WorkspaceTarget::Number("3".to_string())), Ok((None, Some(3))));
    assert_eq!(
        sway_workspace_identity(WorkspaceTarget::Number("3:mail".to_string())),
        Ok((Some("3:mail".to_string()), Some(3)))
    );
    assert_eq!(
        sway_workspace_identity(WorkspaceTarget::Number("mail".to_string())),
        Err("invalid workspace number 'mail'".to_string())
    );
    assert_eq!(
        sway_workspace_identity(WorkspaceTarget::Name("07".to_string())),
        Ok((Some("07".to_string()), Some(7)))
    );
    assert_eq!(sway_workspace_identity(WorkspaceTarget::Name("12".to_string())), Ok((None, Some(12))));
    assert_eq!(
        sway_workspace_identity(WorkspaceTarget::Name("web".to_string())),
        Ok((Some("web".to_string()), None))
    );
    assert_eq!(
        sway_workspace_identity(WorkspaceTarget::Relative),
        Err("relative workspace target cannot be created".to_string())
    );
}

#[test]
fn ascii_case_insensitive_names() {
    assert!(eq_ignore_ascii_case("Web", "wEB"));
    assert!(!eq_ignore_ascii_case("a", "b"));
    assert!(!eq_ignore_ascii_case("ab", "a"));
    assert!(!eq_ignore_ascii_case("ä", "Ä"));
    assert!(eq_ignore_ascii_case("ä", "ä"));
}

#[test]
fn targets_find_workspaces() {
    let number = WorkspaceTarget::Number("1".to_string());
    assert!(workspace_matches_target(true, Some("1:first"), &number));
    assert!(!workspace_matches_target(false, Some("1:first"), &number));
    assert!(!workspace_matches_target(true, None, &number));
    let name = WorkspaceTarget::Name("mail".to_string());
    assert!(workspace_matches_target(false, Some("Mail"), &name));
    assert!(!workspace_matches_target(true, Some("web"), &name));
    assert!(!workspace_matches_target(true, Some("1"), &WorkspaceTarget::Relative));
}

#[test]
fn title_formats() {
    assert_eq!(format_representation(None, "H[a b]"), "H[a b]");
    assert_eq!(format_representation(Some("%title"), "x"), "x");
    assert_eq!(format_representation(Some("[%title]"), "x"), "[x]");
    assert_eq!(format_representation(Some("%title-%title"), "ab"), "ab-ab");
    assert_eq!(format_representation(Some("no token"), "x"), "no token");
    assert_eq!(format_representation(Some("%titl"), "x"), "%titl");
    assert_eq!(format_representation(Some(""), "x"), "");
}

#[test]
fn digit_targets_match_alike() {
    for name in ["12", "12:mail", "123", "1", "x", ""] {
        assert_eq!(workspace_name_matches_number(name, "12"), workspace_number_matches(name, "12"));
    }
}

#[test]
fn ascii_case_equality_is_symmetric() {
    for (a, b) in [("Web", "wEB"), ("x", "Y"), ("ä", "Ä"), ("", "")] {
        assert_eq!(eq_ignore_ascii_case(a, b), eq_ignore_ascii_case(b, a));
        assert!(eq_ignore_ascii_case(a, a));
    }
}

#[test]
fn format_without_token_is_kept() {
    assert_eq!(format_representation(Some("plain [x]"), "H[a]"), "plain [x]");
}

#[test]
fn identity_drops_the_name_only_when_it_is_the_number_written_out() {
    for s in ["7", "07", "7:web", "10", "0", "00", "2147483647"] {
        for target in [WorkspaceTarget::Number(s.to_string()), WorkspaceTarget::Name(s.to_string())] {
            let (name, number) = sway_workspace_identity(target).unwrap();
            let n = number.unwrap();
            assert_eq!(n, parse_workspace_num(s).unwrap());
            assert_eq!(name.is_none(), n.to_string() == s);
            assert_eq!(name.clone().unwrap_or_else(|| n.to_string()), s);
        }
    }
}
