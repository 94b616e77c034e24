//! FloatClock: the logic of a borderless T± countdown overlay.
//!
//! Everything that decides what the overlay shows, which reminders fire and
//! how the configuration file is rewritten lives here, with its contracts.
//! The window layer, the font rasteriser and the operating-system plumbing
//! live in the application crate around it.

pub mod calendar;
pub mod chars;
pub mod cli;
pub mod config;
pub mod crash;
pub mod moment;
pub mod notifier;
pub mod notify;
pub mod pixmap;
pub mod platform;
pub mod probe;
pub mod render;
pub mod session;
pub mod timefmt;
pub mod toml_text;
pub mod tray;
pub mod windows;
