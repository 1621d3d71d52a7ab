//! Settings and credential records that the surrounding shell persists.
//! The core only defines their shape and defaults.

use vstd::prelude::*;
use vstd::string::*;

verus! {

/// The connection data for the document store.
#[derive(Debug, Clone)]
pub struct Credentials {
    pub url: String,
    pub username: String,
    pub password: String,
}

/// The application settings the shell persists.
#[derive(Debug, Clone)]
pub struct Settings {
    /// `light`, `dark` or `system`.
    pub theme: String,
    pub autosave: bool,
    /// Minimize to the system tray instead of closing.
    pub minimize_to_tray: bool,
    /// Start with the system boot.
    pub autostart: bool,
}

impl Default for Settings {
    /// The out-of-the-box settings: system theme, autosave on, tray and
    /// autostart off.
    fn default() -> (r: Self)
        ensures
            r.theme@ == "system"@,
            r.autosave,
            !r.minimize_to_tray,
            !r.autostart,
    {
        Settings {
            theme: String::from_str("system"),
            autosave: true,
            minimize_to_tray: false,
            autostart: false,
        }
    }
}

} // verus!
