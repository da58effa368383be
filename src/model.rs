//! The values that the sensor hands to its consumer.
use vstd::prelude::*;

verus! {

/// A bitmap taken from a window's icon property: `width * height` pixels,
/// four bytes each, in red, green, blue, alpha order.
#[derive(Debug, Clone)]
pub struct RawIcon {
    pub width: u32,
    pub height: u32,
    pub data: Vec<u8>,
}

/// Where the picture of a window comes from: a themed icon file (its path,
/// as text) or a bitmap. A bitmap is only looked for when no themed icon file
/// was found, so at most one of the two is present.
#[derive(Debug, Clone)]
pub enum WindowIcon {
    Themed(String),
    Embedded(RawIcon),
    Missing,
}

/// One window of the window list, as the sensor reports it.
#[derive(Debug, Clone)]
pub struct WindowInfo {
    pub xid: u32,
    pub title: String,
    pub class: String,
    pub is_active: bool,
    pub icon: WindowIcon,
}

/// What the sensor emits: one variant per emission.
#[derive(Debug)]
pub enum SensorEvent {
    FullScan(Vec<WindowInfo>),
    WindowOpen(WindowInfo),
    WindowClose(u32),
    FocusChange(u32),
}

/// The protocol atoms that the sensor and the window actions use, interned
/// once per connection.
#[derive(Debug, Clone, Copy)]
pub struct Atoms {
    pub client_list: u32,
    pub active_window: u32,
    pub wm_name: u32,
    pub wm_class: u32,
    pub utf8_string: u32,
    pub string: u32,
    pub net_wm_icon: u32,
}

} // verus!
