//! Verified core of the blink screenshot daemon: naming and text formats of
//! the archive, the capture loop's decisions, configuration defaults, the
//! calendar arithmetic and the screenshot index of the viewer.

pub mod capture;
pub mod clock;
pub mod config;
pub mod encoder;
pub mod icon;
pub mod staging;
pub mod state;
pub mod text;
pub mod tray;
pub mod viewer;
pub mod sidecar;
