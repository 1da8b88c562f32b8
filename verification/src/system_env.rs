//! Desktop settings that the launcher follows.
use vstd::prelude::*;

verus! {

/// The colour scheme choices offered in the settings window.
#[derive(Debug, Clone, Copy, PartialEq, Eq, Structural)]
pub enum ColorScheme {
    /// Follow the system.
    Default,
    /// Always light.
    ForceLight,
    /// Always dark.
    ForceDark,
}

/// System environment helpers.
pub struct SystemEnv;

impl SystemEnv {
    /// The colour scheme for the theme selected at `selected_index` in the
    /// settings window: 0 follows the system, 1 is light, 2 is dark, any
    /// other index follows the system.
    pub fn color_scheme_for(selected_index: u32) -> (r: ColorScheme)
        ensures
            r == if selected_index == 1 {
                ColorScheme::ForceLight
            } else if selected_index == 2 {
                ColorScheme::ForceDark
            } else {
                ColorScheme::Default
            },
    {
        match selected_index {
            0 => ColorScheme::Default,
            1 => ColorScheme::ForceLight,
            2 => ColorScheme::ForceDark,
            _ => ColorScheme::Default,
        }
    }
}

} // verus!
