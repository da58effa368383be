use aura::model::Atoms;
use aura::sensor::action_for_event;
use aura::filter::should_skip_window;
use aura::model::SensorEvent;
use aura::model::WindowIcon;
use aura::model::WindowInfo;
use aura::property::PropertyError;
use aura::sensor::class_from_reply;
use aura::sensor::focus_event;
use aura::sensor::parse_wm_class;
use aura::sensor::transition_events;
use aura::sensor::window_info;
use aura::sensor::window_title;
use aura::sensor::Sensor;

fn info(xid: u32, title: &str, class: &str) -> WindowInfo {
    window_info(xid, title.to_string(), class.to_string(), None, None)
}

#[test]
fn class_takes_second_field() {
    assert_eq!(parse_wm_class("firefox\0Firefox\0"), "Firefox");
}

#[test]
fn class_falls_back_to_first_field() {
    assert_eq!(parse_wm_class("onlyone\0"), "onlyone");
    assert_eq!(parse_wm_class("onlyone"), "onlyone");
}

#[test]
fn class_of_empty_is_empty() {
    assert_eq!(parse_wm_class(""), "");
    assert_eq!(class_from_reply(Err(PropertyError::Format(32))), "");
    assert_eq!(class_from_reply(Ok("a\0b\0".to_string())), "b");
}

#[test]
fn title_fallbacks() {
    let e = || Err(PropertyError::Format(32));
    assert_eq!(window_title(Ok("T".to_string()), Ok("L".to_string())), "T");
    assert_eq!(window_title(e(), Ok("L".to_string())), "L");
    assert_eq!(window_title(e(), e()), "Unknown");
}

#[test]
fn filter_skips_dock_and_helpers() {
    assert!(should_skip_window(&info(1, "Aura Dock", "x")));
    assert!(should_skip_window(&info(1, "t", "Aura-UI")));
    assert!(should_skip_window(&info(1, "t", "aura_ui")));
    assert!(should_skip_window(&info(1, "t", "GJS")));
    assert!(should_skip_window(&info(1, "t", "Gnome-Shell-Extension")));
    assert!(should_skip_window(&info(1, "t", "gsd-media-keys")));
    assert!(should_skip_window(&info(1, "t", "ibus-ui-gtk3")));
    assert!(should_skip_window(&info(1, "t", "ibus-extension-gtk3")));
    assert!(should_skip_window(&info(1, "t", "Polkit-Agent")));
    assert!(should_skip_window(&info(1, "", "")));
}

#[test]
fn filter_keeps_applications() {
    assert!(!should_skip_window(&info(1, "Mozilla Firefox", "Firefox")));
    assert!(!should_skip_window(&info(1, "", "Terminal")));
    assert!(!should_skip_window(&info(1, "notes", "")));
    assert!(!should_skip_window(&info(1, "t", "gjs-extra")));
}

#[test]
fn record_prefers_themed_icon() {
    let r = window_info(5, "t".to_string(), "c".to_string(), None, None);
    assert!(matches!(r.icon, WindowIcon::Missing));
    assert!(!r.is_active);
    let raw = aura::model::RawIcon { width: 1, height: 1, data: vec![1, 2, 3, 4] };
    let r = window_info(5, "t".to_string(), "c".to_string(), None, Some(raw.clone()));
    assert!(matches!(r.icon, WindowIcon::Embedded(_)));
    let p = "/x.png".to_string();
    let r = window_info(5, "t".to_string(), "c".to_string(), Some(p.clone()), Some(raw));
    match r.icon {
        WindowIcon::Themed(q) => assert_eq!(q, p),
        _ => panic!("themed icon expected"),
    }
}

#[test]
fn window_list_transition_opens_and_closes() {
    let mut s = Sensor::new();
    let first = s.apply_window_list(&vec![1, 2, 3]);
    assert_eq!(first.opened, vec![1, 2, 3]);
    assert!(first.closed.is_empty());
    let second = s.apply_window_list(&vec![2, 4, 3, 4]);
    assert_eq!(second.opened, vec![4]);
    assert_eq!(second.closed, vec![1]);
    let mut known = s.known_windows();
    known.sort();
    assert_eq!(known, vec![2, 3, 4]);
    assert!(s.is_known(4));
    assert!(!s.is_known(1));
    let third = s.apply_window_list(&vec![3]);
    assert!(third.opened.is_empty());
    let mut closed = third.closed.clone();
    closed.sort();
    assert_eq!(closed, vec![2, 4]);
}

#[test]
fn transition_events_filter_opens_but_not_closes() {
    let records = vec![info(4, "Editor", "Gedit"), info(5, "", "")];
    let events = transition_events(records, &vec![1, 9]);
    assert_eq!(events.len(), 3);
    assert!(matches!(&events[0], SensorEvent::WindowOpen(w) if w.xid == 4));
    assert!(matches!(events[1], SensorEvent::WindowClose(1)));
    assert!(matches!(events[2], SensorEvent::WindowClose(9)));
}

#[test]
fn focus_event_takes_first_id() {
    assert!(matches!(focus_event(&vec![7, 8]), Some(SensorEvent::FocusChange(7))));
    assert!(focus_event(&Vec::new()).is_none());
}

#[test]
fn protocol_events_map_to_steps() {
    let atoms = Atoms { client_list: 10, active_window: 11, wm_name: 12, wm_class: 13, utf8_string: 14, string: 15, net_wm_icon: 16 };
    let a = action_for_event(&atoms, Some(10));
    assert!(a.refresh_window_list && !a.refresh_focus);
    let a = action_for_event(&atoms, Some(11));
    assert!(!a.refresh_window_list && a.refresh_focus);
    let a = action_for_event(&atoms, Some(12));
    assert!(!a.refresh_window_list && !a.refresh_focus);
    let a = action_for_event(&atoms, None);
    assert!(!a.refresh_window_list && !a.refresh_focus);
}
