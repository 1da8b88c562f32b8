//! The launcher window's decisions: what it shows for a search, how the
//! selection moves, how it hides and shows, and what a command line asks.
use vstd::prelude::*;

use crate::app_data_object::AppDataObject;
use crate::app_provider::shows;
use crate::model::AppEntry;
use crate::search_engine::{is_search_order, SearchEngine};
use crate::text::{chars_of, contains, find_exec, lowercase, trim};

verus! {

/// At most this many results are listed.
pub const MAX_RESULTS: usize = 20;

/// The result-list row for `app` (an empty icon where it has none).
pub fn to_data_object(app: &AppEntry) -> (r: AppDataObject)
    ensures
        shows(r, *app),
{
    crate::app_provider::to_data_object(app)
}

/// What the launcher window currently shows.
pub struct LauncherWindow {
    /// The window is on screen.
    pub visible: bool,
    /// Text of the search entry.
    pub search_text: String,
    /// Rows of the result list.
    pub results: Vec<AppDataObject>,
    /// The result list is on screen.
    pub results_visible: bool,
}

/// The rows for the results of searching `engine` for `text`: with `order`
/// the search order, the first [`MAX_RESULTS`] results, each showing its
/// application; the list is on screen when there was any result.
pub open spec fn shows_search(
    engine: Seq<AppEntry>,
    text: Seq<char>,
    results: Seq<AppDataObject>,
    results_visible: bool,
    order: Seq<int>,
) -> bool {
    &&& is_search_order(engine, lowercase(trim(text)), order)
    &&& results.len() == if order.len() < MAX_RESULTS {
        order.len() as int
    } else {
        MAX_RESULTS as int
    }
    &&& forall|k: int| 0 <= k < results.len() ==> shows(#[trigger] results[k], engine[order[k]])
    &&& results_visible == (order.len() > 0)
}

impl LauncherWindow {
    /// A hidden window with an empty search.
    pub fn new() -> (r: Self)
        ensures
            !r.visible,
            r.search_text@.len() == 0,
            r.results@.len() == 0,
            !r.results_visible,
    {
        LauncherWindow {
            visible: false,
            search_text: String::new(),
            results: Vec::new(),
            results_visible: false,
        }
    }

    /// Hides the window, clearing the search and its results.
    pub fn hide_window(&mut self)
        ensures
            !final(self).visible,
            final(self).search_text@.len() == 0,
            final(self).results@.len() == 0,
            !final(self).results_visible,
    {
        self.results = Vec::new();
        self.search_text = String::new();
        self.results_visible = false;
        self.visible = false;
    }

    /// Shows the window, keeping its content.
    pub fn show(&mut self)
        ensures
            final(self).visible,
            final(self).search_text@ == old(self).search_text@,
            final(self).results@ == old(self).results@,
            final(self).results_visible == old(self).results_visible,
    {
        self.visible = true;
    }

    /// The search text became `text`: an empty text lists nothing; otherwise
    /// the first [`MAX_RESULTS`] matches of `engine` are listed.
    pub fn search_changed(&mut self, engine: &SearchEngine, text: &str)
        ensures
            final(self).visible == old(self).visible,
            final(self).search_text@ == text@,
            text@.len() == 0 ==> final(self).results@.len() == 0 && !final(self).results_visible,
            text@.len() > 0 ==> exists|order: Seq<int>|
                #[trigger] shows_search(
                    engine@,
                    text@,
                    final(self).results@,
                    final(self).results_visible,
                    order,
                ),
    {
        self.search_text = text.to_owned();
        if text.is_empty() {
            self.results = Vec::new();
            self.results_visible = false;
            return;
        }
        let found = engine.search(text);
        let ghost order = choose|order: Seq<int>|
            {
                &&& is_search_order(engine@, lowercase(trim(text@)), order)
                &&& found@.len() == order.len()
                &&& forall|k: int| 0 <= k < order.len() ==> *found@[k] == engine@[order[k]]
            };
        let mut rows: Vec<AppDataObject> = Vec::new();
        let mut k: usize = 0;
        while k < found.len() && k < MAX_RESULTS
            invariant
                found@.len() == order.len(),
                forall|m: int| 0 <= m < order.len() ==> *found@[m] == engine@[order[m]],
                k <= found.len(),
                k <= MAX_RESULTS,
                rows@.len() == k,
                forall|m: int| 0 <= m < k ==> shows(#[trigger] rows@[m], engine@[order[m]]),
            decreases found.len() - k,
        {
            rows.push(crate::app_provider::to_data_object(found[k]));
            k = k + 1;
        }
        self.results = rows;
        self.results_visible = found.len() > 0;
        assert(shows_search(engine@, text@, self.results@, self.results_visible, order));
    }
}

/// The list position after moving the selection up or down by one in a
/// list of `n_items` rows, where `selected` is GTK's selected position
/// (read as a signed 32-bit number, so "none" is -1), kept within the list.
/// `None` for an empty list.
pub open spec fn next_selection_spec(n_items: u32, selected: u32, up: bool) -> Option<u32> {
    if n_items < 1 {
        None
    } else {
        let s: int = if selected <= 0x7fff_ffff {
            selected as int
        } else {
            selected - 0x1_0000_0000
        };
        let t: int = if up {
            s - 1
        } else {
            s + 1
        };
        let c: int = if t < 0 {
            0
        } else {
            t
        };
        Some(
            if c < n_items - 1 {
                c as u32
            } else {
                (n_items - 1) as u32
            },
        )
    }
}

/// The selection after an Up (`up`) or Down key press.
pub fn next_selection(n_items: u32, selected: u32, up: bool) -> (r: Option<u32>)
    requires
        !(up && selected == 0x8000_0000),
        !(!up && selected == 0x7fff_ffff),
    ensures
        r == next_selection_spec(n_items, selected, up),
{
    if n_items < 1 {
        return None;
    }
    let s: i64 = if selected <= 0x7fff_ffff {
        selected as i64
    } else {
        selected as i64 - 0x1_0000_0000
    };
    let t: i64 = if up {
        s - 1
    } else {
        s + 1
    };
    let c: i64 = if t < 0 {
        0
    } else {
        t
    };
    let last: i64 = n_items as i64 - 1;
    if c < last {
        Some(c as u32)
    } else {
        Some((n_items - 1) as u32)
    }
}

/// What a command line asks of the running launcher.
#[derive(Debug, Clone, Copy, PartialEq, Eq, Structural)]
pub enum CommandLineAction {
    /// Start up (create the hidden window if there is none).
    Activate,
    /// Hide the window.
    Hide,
    /// Show the window.
    Show,
    /// Create the window, then show it.
    ActivateAndShow,
}

/// Some argument holds `--toggle`.
pub open spec fn has_toggle(args: Seq<String>) -> bool {
    exists|i: int| 0 <= i < args.len() && contains(#[trigger] args[i]@, "--toggle"@)
}

/// The action for a command line with `args`: without `--toggle`, start up;
/// with it, flip the window's visibility, creating and showing the window
/// where there is none yet.
pub fn command_line_action(args: &Vec<String>, window_exists: bool, window_visible: bool) -> (r:
    CommandLineAction)
    ensures
        !has_toggle(args@) ==> r == CommandLineAction::Activate,
        has_toggle(args@) && window_exists && window_visible ==> r == CommandLineAction::Hide,
        has_toggle(args@) && window_exists && !window_visible ==> r == CommandLineAction::Show,
        has_toggle(args@) && !window_exists ==> r == CommandLineAction::ActivateAndShow,
{
    let toggle = chars_of("--toggle");
    let mut found = false;
    let mut i: usize = 0;
    while i < args.len()
        invariant
            toggle@ == "--toggle"@,
            i <= args.len(),
            found == exists|j: int| 0 <= j < i && contains(#[trigger] args@[j]@, "--toggle"@),
        decreases args.len() - i,
    {
        let arg = chars_of(args[i].as_str());
        if find_exec(&arg, &toggle).is_some() {
            found = true;
        }
        i = i + 1;
    }
    if !found {
        CommandLineAction::Activate
    } else if window_exists {
        if window_visible {
            CommandLineAction::Hide
        } else {
            CommandLineAction::Show
        }
    } else {
        CommandLineAction::ActivateAndShow
    }
}

/// Position of the first application whose desktop file is `desktop_file`.
pub fn find_app_index(apps: &Vec<AppEntry>, desktop_file: &str) -> (r: Option<usize>)
    ensures
        r matches Some(i) ==> i < apps@.len() && apps@[i as int].desktop_file@ == desktop_file@
            && forall|j: int| 0 <= j < i ==> apps@[j].desktop_file@ != desktop_file@,
        r is None ==> forall|j: int| 0 <= j < apps@.len() ==> apps@[j].desktop_file@ != desktop_file@,
{
    let key = desktop_file.to_owned();
    let mut i: usize = 0;
    while i < apps.len()
        invariant
            key@ == desktop_file@,
            i <= apps.len(),
            forall|j: int| 0 <= j < i ==> apps@[j].desktop_file@ != desktop_file@,
        decreases apps.len() - i,
    {
        if apps[i].desktop_file == key {
            return Some(i);
        }
        i = i + 1;
    }
    None
}

} // verus!
