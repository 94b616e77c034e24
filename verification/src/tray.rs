//! The tray / menu-bar icon's menu: which platforms have one, the ids of
//! its entries and the command each stands for. Creating the icon is the
//! caller's part.
//!
//! Linux deliberately has no tray: the only two options there (XEmbed and a
//! D-Bus `StatusNotifierItem`) would drag a GTK3 or D-Bus runtime in.

use vstd::prelude::*;
use crate::chars::{chars_of, same};
use crate::platform::Platform;

verus! {

/// What the user picked in the tray menu.
#[derive(Debug, Clone, Copy, PartialEq, Eq, Structural)]
pub enum TrayCommand {
    ToggleVisible,
    ToggleLock,
    OpenSettings,
    OpenConfig,
    RevealConfig,
    ReloadConfig,
    Quit,
}

/// `None` when a tray icon can actually be created on `platform`.
pub fn unavailable_reason(platform: Platform) -> (r: Option<&'static str>)
    ensures
        platform != Platform::Other ==> r is None,
        platform == Platform::Other ==> (r matches Some(s) && s@ == "no tray backend for this platform"@),
{
    match platform {
        Platform::Other => Some("no tray backend for this platform"),
        _ => None,
    }
}

pub const ID_TOGGLE_VISIBLE: &'static str = "float-clock.toggle-visible";
pub const ID_TOGGLE_LOCK: &'static str = "float-clock.toggle-lock";
pub const ID_SETTINGS: &'static str = "float-clock.settings";
pub const ID_OPEN_CONFIG: &'static str = "float-clock.open-config";
pub const ID_REVEAL_CONFIG: &'static str = "float-clock.reveal-config";
pub const ID_RELOAD: &'static str = "float-clock.reload";
pub const ID_QUIT: &'static str = "float-clock.quit";

/// The menu entry id of each command.
pub open spec fn command_id(c: TrayCommand) -> Seq<char> {
    match c {
        TrayCommand::ToggleVisible => "float-clock.toggle-visible"@,
        TrayCommand::ToggleLock => "float-clock.toggle-lock"@,
        TrayCommand::OpenSettings => "float-clock.settings"@,
        TrayCommand::OpenConfig => "float-clock.open-config"@,
        TrayCommand::RevealConfig => "float-clock.reveal-config"@,
        TrayCommand::ReloadConfig => "float-clock.reload"@,
        TrayCommand::Quit => "float-clock.quit"@,
    }
}

/// The command a clicked menu entry stands for; `None` for an entry that
/// is not ours.
pub fn command_for_id(id: &str) -> (r: Option<TrayCommand>)
    ensures
        r matches Some(c) ==> command_id(c) == id@,
        r is None ==> forall|c: TrayCommand| command_id(c) != id@,
{
    let v = chars_of(id);
    if same(&v, &chars_of(ID_TOGGLE_VISIBLE)) {
        Some(TrayCommand::ToggleVisible)
    } else if same(&v, &chars_of(ID_TOGGLE_LOCK)) {
        Some(TrayCommand::ToggleLock)
    } else if same(&v, &chars_of(ID_SETTINGS)) {
        Some(TrayCommand::OpenSettings)
    } else if same(&v, &chars_of(ID_OPEN_CONFIG)) {
        Some(TrayCommand::OpenConfig)
    } else if same(&v, &chars_of(ID_REVEAL_CONFIG)) {
        Some(TrayCommand::RevealConfig)
    } else if same(&v, &chars_of(ID_RELOAD)) {
        Some(TrayCommand::ReloadConfig)
    } else if same(&v, &chars_of(ID_QUIT)) {
        Some(TrayCommand::Quit)
    } else {
        assert forall|c: TrayCommand| command_id(c) != id@ by {
            match c {
                TrayCommand::ToggleVisible => {},
                TrayCommand::ToggleLock => {},
                TrayCommand::OpenSettings => {},
                TrayCommand::OpenConfig => {},
                TrayCommand::RevealConfig => {},
                TrayCommand::ReloadConfig => {},
                TrayCommand::Quit => {},
            }
        }
        None
    }
}

/// The first menu entry flips between hiding and showing the overlay.
pub fn visible_label(visible: bool) -> (r: &'static str)
    ensures
        r@ == if visible { "Hide overlay"@ } else { "Show overlay"@ },
{
    if visible {
        "Hide overlay"
    } else {
        "Show overlay"
    }
}

} // verus!
