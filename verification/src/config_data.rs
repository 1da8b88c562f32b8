//! The persisted launcher settings that hold no floating-point values.
use vstd::prelude::*;

use crate::env::{path_join, path_join_exec};

verus! {

/// General settings: where desktop files are searched.
#[derive(Debug)]
pub struct GeneralConfig {
    /// Directories scanned for desktop files.
    pub desktop_scan_path: Vec<String>,
}

/// Keyboard shortcuts.
#[derive(Debug)]
pub struct ShortcutConfig {
    /// Accelerator that quits the launcher.
    pub quit: String,
}

impl Default for GeneralConfig {
    fn default() -> (r: Self)
        ensures
            r.desktop_scan_path@.len() == 0,
    {
        GeneralConfig { desktop_scan_path: Vec::new() }
    }
}

impl Default for ShortcutConfig {
    fn default() -> (r: Self)
        ensures
            r.quit@.len() == 0,
    {
        ShortcutConfig { quit: String::new() }
    }
}

impl GeneralConfig {
    /// The initial settings for a user whose home directory is `home_dir`:
    /// the system and snap application directories, then
    /// `~/.local/share/applications` and `~/桌面`.
    pub fn initial(home_dir: &str) -> (r: Self)
        ensures
            r.desktop_scan_path@.len() == 4,
            r.desktop_scan_path@[0]@ == "/usr/share/applications"@,
            r.desktop_scan_path@[1]@ == "/var/lib/snapd/desktop/applications"@,
            r.desktop_scan_path@[2]@ == path_join(home_dir@, ".local/share/applications"@),
            r.desktop_scan_path@[3]@ == path_join(home_dir@, "桌面"@),
    {
        let mut paths: Vec<String> = Vec::new();
        paths.push("/usr/share/applications".to_owned());
        paths.push("/var/lib/snapd/desktop/applications".to_owned());
        paths.push(path_join_exec(home_dir, ".local/share/applications"));
        paths.push(path_join_exec(home_dir, "桌面"));
        GeneralConfig { desktop_scan_path: paths }
    }
}

impl ShortcutConfig {
    /// The initial shortcuts: Control+Q quits.
    pub fn initial() -> (r: Self)
        ensures
            r.quit@ == "<Control>q"@,
    {
        ShortcutConfig { quit: "<Control>q".to_owned() }
    }
}

} // verus!
