use cumulo_web::settings::{export_file_name, OverlayPress, SettingsEditFlow, SettingsTab};

#[test]
fn editor_opened_from_settings_returns_to_them() {
    let mut flow = SettingsEditFlow { editing: false, settings_open: true, return_to_settings: false };
    flow.open_editor();
    assert_eq!(flow, SettingsEditFlow { editing: true, settings_open: false, return_to_settings: true });
    flow.return_from_editor();
    assert!(!flow.settings_open);
    flow.editing = false;
    flow.return_from_editor();
    assert_eq!(flow, SettingsEditFlow { editing: false, settings_open: true, return_to_settings: false });
}

#[test]
fn editor_opened_elsewhere_does_not_open_settings() {
    let mut flow = SettingsEditFlow { editing: false, settings_open: false, return_to_settings: false };
    flow.return_from_editor();
    assert!(!flow.settings_open);
}

#[test]
fn tabs_round_trip_through_codes() {
    for t in [SettingsTab::Data, SettingsTab::Resource, SettingsTab::Category] {
        assert_eq!(SettingsTab::from_code(t.code()), Some(t));
    }
    assert_eq!(SettingsTab::Category.code(), "dim");
    assert_eq!(SettingsTab::from_code("other"), None);
}

#[test]
fn export_file_is_named_by_date() {
    assert_eq!(export_file_name("2024-05-01T12:34:56Z"), "cumulo-2024-05-01.json");
    assert_eq!(export_file_name("2024"), "cumulo-2024.json");
}

#[test]
fn overlay_click_cancels_only_from_the_overlay() {
    let mut p = OverlayPress { armed: false };
    p.press(true);
    assert!(p.release(true));
    p.press(false);
    assert!(!p.release(true));
    p.press(true);
    assert!(!p.release(false));
    assert!(!p.armed);
}
