//! Converting loaded applications into result-list rows.
use vstd::prelude::*;

use crate::app_data_object::{opt_view, AppDataObject};
use crate::model::AppEntry;

verus! {

/// The row for `app` shows exactly `app`'s data.
pub open spec fn shows(row: AppDataObject, app: AppEntry) -> bool {
    &&& opt_view(row.name) == Some(app.name@)
    &&& opt_view(row.desktop_file) == Some(app.desktop_file@)
    &&& opt_view(row.icon) == Some(
        match app.icon {
            Some(i) => i@,
            None => Seq::<char>::empty(),
        },
    )
    &&& opt_view(row.exec_cmd) == Some(app.exec_cmd@)
    &&& opt_view(row.comment) == Some(app.comment@)
}

/// The result-list row for `app` (an empty icon where it has none).
pub fn to_data_object(app: &AppEntry) -> (r: AppDataObject)
    ensures
        shows(r, *app),
{
    let icon: &str = match &app.icon {
        Some(i) => i.as_str(),
        None => "",
    };
    proof {
        reveal_strlit("");
        assert(""@ =~= Seq::<char>::empty());
    }
    AppDataObject::new(
        app.name.as_str(),
        app.desktop_file.as_str(),
        icon,
        app.exec_cmd.as_str(),
        app.comment.as_str(),
    )
}

} // verus!
