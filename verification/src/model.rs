//! The application record that the loader produces and the search engine ranks.
use vstd::prelude::*;

verus! {

/// One launchable application, read from a `.desktop` file.
#[derive(Debug, Clone)]
pub struct AppEntry {
    /// Display name.
    pub name: String,
    /// Command line from `Exec=` (for example `/usr/bin/wechat %U`).
    pub exec_cmd: String,
    /// Path of the `.desktop` file that describes the application.
    pub desktop_file: String,
    /// Lower-cased search names, separated by commas.
    pub search_key: String,
    /// Description.
    pub comment: String,
    /// Icon name or path.
    pub icon: Option<String>,
    /// Usage score; higher means launched more often.
    pub score: u32,
}

/// A list of applications.
pub type Apps = Vec<AppEntry>;

impl Default for AppEntry {
    fn default() -> (r: Self)
        ensures
            r.name@.len() == 0,
            r.exec_cmd@.len() == 0,
            r.desktop_file@.len() == 0,
            r.search_key@.len() == 0,
            r.comment@.len() == 0,
            r.icon is None,
            r.score == 0,
    {
        AppEntry {
            name: String::new(),
            exec_cmd: String::new(),
            desktop_file: String::new(),
            search_key: String::new(),
            comment: String::new(),
            icon: None,
            score: 0,
        }
    }
}

} // verus!
