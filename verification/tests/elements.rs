use swayward::elements::{ActivateWindow, ConfigureIntent, RenderLayer, SizingMode};

#[test]
fn sizing_modes() {
    assert!(SizingMode::Normal.is_normal());
    assert!(SizingMode::Fullscreen.is_fullscreen());
    assert!(SizingMode::Maximized.is_maximized());
    assert!(!SizingMode::Maximized.is_normal());
}

#[test]
fn activation_policy() {
    assert!(ActivateWindow::Yes.map_smart(|| false));
    assert!(!ActivateWindow::No.map_smart(|| true));
    assert!(ActivateWindow::Smart.map_smart(|| true));
    assert!(!ActivateWindow::Smart.map_smart(|| false));
    assert_eq!(ActivateWindow::default(), ActivateWindow::Smart);
}

#[test]
fn render_layers() {
    assert!(RenderLayer::Normal.is_normal());
    assert!(!RenderLayer::MovingBetweenWorkspaces.is_normal());
}

#[test]
fn shared_configure_intent() {
    assert_eq!(ConfigureIntent::shared(&vec![]), ConfigureIntent::NotNeeded);
    assert_eq!(ConfigureIntent::shared(&vec![ConfigureIntent::NotNeeded, ConfigureIntent::CanSend]), ConfigureIntent::CanSend);
    assert_eq!(ConfigureIntent::shared(&vec![ConfigureIntent::CanSend, ConfigureIntent::Throttled]), ConfigureIntent::Throttled);
    assert_eq!(ConfigureIntent::shared(&vec![ConfigureIntent::Throttled, ConfigureIntent::CanSend]), ConfigureIntent::Throttled);
    assert_eq!(ConfigureIntent::shared(&vec![ConfigureIntent::CanSend, ConfigureIntent::ShouldSend, ConfigureIntent::Throttled]), ConfigureIntent::ShouldSend);
    assert!(ConfigureIntent::CanSend.sends());
    assert!(ConfigureIntent::ShouldSend.sends());
    assert!(!ConfigureIntent::Throttled.sends());
    assert!(!ConfigureIntent::NotNeeded.sends());
}

#[test]
fn should_send_wins() {
    let all = [
        ConfigureIntent::NotNeeded,
        ConfigureIntent::Throttled,
        ConfigureIntent::CanSend,
        ConfigureIntent::ShouldSend,
    ];
    for a in all {
        for b in all {
            let shared = ConfigureIntent::shared(&vec![a, b]);
            let wants = a == ConfigureIntent::ShouldSend || b == ConfigureIntent::ShouldSend;
            assert_eq!(shared == ConfigureIntent::ShouldSend, wants);
        }
    }
}
