//! How a result-list row shows its icon.
use vstd::prelude::*;

use crate::text::{chars_of, contains, find_exec};

verus! {

/// The image property that an icon value binds to: `file` for a path (it
/// holds a `/`), `icon-name` for a themed icon name.
pub fn icon_property(icon: &str) -> (r: &'static str)
    ensures
        r@ == if contains(icon@, seq!['/']) {
            "file"@
        } else {
            "icon-name"@
        },
{
    let chars = chars_of(icon);
    let slash = chars_of("/");
    proof {
        reveal_strlit("/");
        assert(slash@ =~= seq!['/']);
    }
    if find_exec(&chars, &slash).is_some() {
        "file"
    } else {
        "icon-name"
    }
}

} // verus!
