//! Window-state tracking and icon resolution for an X11 dock.
//!
//! The library holds the logic: decoding of window properties
//! (`property`), the window filter (`filter`), the membership diff of the
//! window list and the events it gives (`sensor`), launch-command
//! sanitising (`command`), the application-descriptor list and icon index
//! (`desktop`), icon candidates and themed lookup (`icons`), the icon-theme
//! name (`theme`) and the window-manager requests (`actions`). Protocol
//! connections, threads and file reads are left to the caller, which hands
//! the library plain values.
pub mod text;
pub mod paths;
pub mod model;
pub mod property;
pub mod command;
pub mod filter;
pub mod sensor;
pub mod icons;
pub mod desktop;
pub mod actions;
pub mod theme;
