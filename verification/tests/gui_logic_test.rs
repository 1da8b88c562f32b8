use launcher_core::app_data_object::AppDataObject;
use launcher_core::app_provider;
use launcher_core::config_data::{GeneralConfig, ShortcutConfig};
use launcher_core::launcher_window::{self, command_line_action, find_app_index, next_selection, CommandLineAction, LauncherWindow};
use launcher_core::model::AppEntry;
use launcher_core::search_engine::SearchEngine;
use launcher_core::search_result_item::icon_property;
use launcher_core::settings_window::{desktop_paths_from_text, desktop_paths_to_text, shortcut_text};
use launcher_core::system_env::{ColorScheme, SystemEnv};

#[test]
fn data_object_from_entry() {
    let app = AppEntry {
        name: "GIMP".to_string(),
        exec_cmd: "gimp %U".to_string(),
        desktop_file: "/usr/share/applications/gimp.desktop".to_string(),
        comment: "Images".to_string(),
        icon: None,
        ..Default::default()
    };
    let row = app_provider::to_data_object(&app);
    assert_eq!(row.name(), Some("GIMP".to_string()));
    assert_eq!(row.icon(), Some(String::new()));
    assert_eq!(row.exec_cmd(), Some("gimp %U".to_string()));
    assert_eq!(row.desktop_file(), Some("/usr/share/applications/gimp.desktop".to_string()));
    assert_eq!(row.comment(), Some("Images".to_string()));
    let row = launcher_window::to_data_object(&AppEntry { icon: Some("gimp".to_string()), ..app });
    assert_eq!(row.icon(), Some("gimp".to_string()));
    let empty = AppDataObject::default();
    assert_eq!(empty.name(), None);
}

#[test]
fn config_defaults() {
    let general = GeneralConfig::initial("/home/u");
    assert_eq!(general.desktop_scan_path.len(), 4);
    assert_eq!(general.desktop_scan_path[2], "/home/u/.local/share/applications");
    assert_eq!(general.desktop_scan_path[3], "/home/u/桌面");
    assert_eq!(ShortcutConfig::initial().quit, "<Control>q");
    assert!(GeneralConfig::default().desktop_scan_path.is_empty());
    assert_eq!(ShortcutConfig::default().quit, "");
}

#[test]
fn color_schemes() {
    assert_eq!(SystemEnv::color_scheme_for(0), ColorScheme::Default);
    assert_eq!(SystemEnv::color_scheme_for(1), ColorScheme::ForceLight);
    assert_eq!(SystemEnv::color_scheme_for(2), ColorScheme::ForceDark);
    assert_eq!(SystemEnv::color_scheme_for(7), ColorScheme::Default);
}

#[test]
fn icon_properties() {
    assert_eq!(icon_property("/usr/share/icons/a.png"), "file");
    assert_eq!(icon_property("firefox"), "icon-name");
    assert_eq!(icon_property(""), "icon-name");
}

#[test]
fn desktop_paths_text() {
    let paths = desktop_paths_from_text("  /usr/share/applications \n\n   \n/opt/apps\r\n");
    assert_eq!(paths, vec!["/usr/share/applications".to_string(), "/opt/apps".to_string()]);
    assert!(desktop_paths_from_text("").is_empty());
}

#[test]
fn shortcuts() {
    assert_eq!(shortcut_text("Q", false, false, true, false, false), Some("<Control>q".to_string()));
    assert_eq!(
        shortcut_text("space", false, true, true, true, true),
        Some("<Shift><Control><Alt><Super>space".to_string())
    );
    assert_eq!(shortcut_text("a", false, false, false, false, false), None);
    assert_eq!(shortcut_text("Control_L", true, false, true, false, false), None);
}

#[test]
fn selection_moves_within_the_list() {
    assert_eq!(next_selection(0, 0, false), None);
    assert_eq!(next_selection(3, 0, false), Some(1));
    assert_eq!(next_selection(3, 2, false), Some(2));
    assert_eq!(next_selection(3, 0, true), Some(0));
    assert_eq!(next_selection(3, 2, true), Some(1));
    // No selection (GTK's invalid position) moves to the first row.
    assert_eq!(next_selection(3, u32::MAX, false), Some(0));
    assert_eq!(next_selection(3, u32::MAX, true), Some(0));
    assert_eq!(next_selection(3, 10, false), Some(2));
}

#[test]
fn command_lines() {
    let toggle = vec!["jz-launcher".to_string(), "--toggle".to_string()];
    let plain = vec!["jz-launcher".to_string()];
    assert_eq!(command_line_action(&plain, true, true), CommandLineAction::Activate);
    assert_eq!(command_line_action(&toggle, true, true), CommandLineAction::Hide);
    assert_eq!(command_line_action(&toggle, true, false), CommandLineAction::Show);
    assert_eq!(command_line_action(&toggle, false, false), CommandLineAction::ActivateAndShow);
}

#[test]
fn window_search_hide_show() {
    let mut apps = Vec::new();
    for i in 0..25 {
        apps.push(AppEntry {
            name: format!("App{:02}", i),
            search_key: format!("app{:02}", i),
            desktop_file: format!("/a/{}.desktop", i),
            ..Default::default()
        });
    }
    assert_eq!(find_app_index(&apps, "/a/3.desktop"), Some(3));
    assert_eq!(find_app_index(&apps, "/a/x.desktop"), None);
    let engine = SearchEngine::new(apps);
    let mut window = LauncherWindow::new();
    assert!(!window.visible);
    window.show();
    assert!(window.visible);
    window.search_changed(&engine, "app");
    assert_eq!(window.results.len(), 20);
    assert!(window.results_visible);
    assert_eq!(window.results[0].name(), Some("App00".to_string()));
    window.search_changed(&engine, "zzz");
    assert!(window.results.is_empty());
    assert!(!window.results_visible);
    window.search_changed(&engine, "app1");
    // app10..app19 contain "app1"; app01 and app21 hold it as a subsequence.
    assert_eq!(window.results.len(), 12);
    assert_eq!(window.results[0].name(), Some("App10".to_string()));
    assert_eq!(window.results[11].name(), Some("App21".to_string()));
    window.hide_window();
    assert!(!window.visible);
    assert!(window.results.is_empty());
    assert_eq!(window.search_text, "");
}

#[test]
fn desktop_paths_text_round_trip() {
    let paths = vec![
        "/usr/share/applications".to_string(),
        "/var/lib/snapd/desktop/applications".to_string(),
        "/home/u/.local/share/applications".to_string(),
    ];
    let text = desktop_paths_to_text(&paths);
    assert_eq!(
        text,
        "/usr/share/applications\n/var/lib/snapd/desktop/applications\n/home/u/.local/share/applications"
    );
    assert_eq!(desktop_paths_from_text(&text), paths);
    assert_eq!(desktop_paths_to_text(&Vec::new()), "");
    assert!(desktop_paths_from_text("").is_empty());
}
