use aura::actions::activate_message;
use aura::actions::add_state_message;
use aura::actions::find_window_by_title;
use aura::actions::search_title;
use aura::actions::skip_taskbar_messages;
use aura::actions::TreeWindow;
use aura::property::PropertyError;
use aura::theme::resolve_theme;
use aura::theme::theme_from_gsettings;
use aura::theme::theme_from_settings;

#[test]
fn gsettings_output_unquoted() {
    assert_eq!(theme_from_gsettings(b"'Adwaita'\n"), "Adwaita");
    assert_eq!(theme_from_gsettings(b"  Papirus \n"), "Papirus");
}

#[test]
fn settings_file_theme_line() {
    let content = "[Settings]\ngtk-theme-name=Foo\n  gtk-icon-theme-name= Papirus-Dark \r\ngtk-icon-theme-name=Other\n";
    assert_eq!(theme_from_settings(content).as_deref(), Some("Papirus-Dark"));
    assert_eq!(theme_from_settings("[Settings]\n"), None);
}

#[test]
fn theme_resolution_order() {
    assert_eq!(resolve_theme(Some(b"'A'".to_vec()), Some("gtk-icon-theme-name=B".to_string())), "A");
    assert_eq!(resolve_theme(None, Some("gtk-icon-theme-name=B".to_string())), "B");
    assert_eq!(resolve_theme(None, Some("nothing".to_string())), "hicolor");
    assert_eq!(resolve_theme(None, None), "hicolor");
}

#[test]
fn messages_carry_state_words() {
    let m = activate_message(10, 300);
    assert_eq!((m.window, m.message_type, m.data), (10, 300, [1, 0, 0, 0, 0]));
    let m = add_state_message(10, 301, 302);
    assert_eq!(m.data, [1, 302, 0, 1, 0]);
    let ms = skip_taskbar_messages(10, 301, 303, 304);
    assert_eq!(ms.len(), 2);
    assert_eq!(ms[0].data, [1, 303, 0, 1, 0]);
    assert_eq!(ms[1].data, [1, 304, 0, 1, 0]);
}

#[test]
fn title_search_prefers_window_list() {
    let tree = vec![TreeWindow { id: 50, title: "Dock".to_string(), child_titles: None }];
    let r = find_window_by_title(&vec![1, 2], &vec!["x".to_string(), "Dock".to_string()], &tree, "Dock");
    assert_eq!(r, Some(2));
}

#[test]
fn title_search_falls_back_to_tree_parent() {
    let tree = vec![
        TreeWindow { id: 50, title: "a".to_string(), child_titles: Some(vec!["b".to_string()]) },
        TreeWindow { id: 60, title: "frame".to_string(), child_titles: Some(vec!["Dock".to_string()]) },
    ];
    assert_eq!(find_window_by_title(&Vec::new(), &Vec::new(), &tree, "Dock"), Some(60));
    assert_eq!(find_window_by_title(&Vec::new(), &Vec::new(), &tree, "none"), None);
}

#[test]
fn search_title_defaults_to_empty() {
    let e = || Err(PropertyError::Format(16));
    assert_eq!(search_title(e(), e()), "");
    assert_eq!(search_title(e(), Ok("L".to_string())), "L");
}
