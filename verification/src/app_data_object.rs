//! The row shown for one application in the result list.
use vstd::prelude::*;

verus! {

/// The character view of an optional string.
pub open spec fn opt_view(o: Option<String>) -> Option<Seq<char>> {
    match o {
        Some(s) => Some(s@),
        None => None,
    }
}

/// A copy of an optional string.
pub fn clone_opt(o: &Option<String>) -> (r: Option<String>)
    ensures
        opt_view(r) == opt_view(*o),
{
    match o {
        Some(s) => Some(s.clone()),
        None => None,
    }
}

/// What the result list shows for one application.
#[derive(Debug, Clone)]
pub struct AppDataObject {
    /// Name.
    pub name: Option<String>,
    /// Path of the `.desktop` file.
    pub desktop_file: Option<String>,
    /// Icon name or path.
    pub icon: Option<String>,
    /// Description.
    pub comment: Option<String>,
    /// Command line.
    pub exec_cmd: Option<String>,
}

impl Default for AppDataObject {
    fn default() -> (r: Self)
        ensures
            r.name is None,
            r.desktop_file is None,
            r.icon is None,
            r.comment is None,
            r.exec_cmd is None,
    {
        AppDataObject { name: None, desktop_file: None, icon: None, comment: None, exec_cmd: None }
    }
}

impl AppDataObject {
    /// A row with every property set.
    pub fn new(name: &str, desktop_file: &str, icon: &str, exec_cmd: &str, comment: &str) -> (r:
        Self)
        ensures
            opt_view(r.name) == Some(name@),
            opt_view(r.desktop_file) == Some(desktop_file@),
            opt_view(r.icon) == Some(icon@),
            opt_view(r.exec_cmd) == Some(exec_cmd@),
            opt_view(r.comment) == Some(comment@),
    {
        AppDataObject {
            name: Some(name.to_owned()),
            desktop_file: Some(desktop_file.to_owned()),
            icon: Some(icon.to_owned()),
            comment: Some(comment.to_owned()),
            exec_cmd: Some(exec_cmd.to_owned()),
        }
    }

    /// A row with the same properties.
    pub fn duplicate(&self) -> (r: Self)
        ensures
            opt_view(r.name) == opt_view(self.name),
            opt_view(r.desktop_file) == opt_view(self.desktop_file),
            opt_view(r.icon) == opt_view(self.icon),
            opt_view(r.comment) == opt_view(self.comment),
            opt_view(r.exec_cmd) == opt_view(self.exec_cmd),
    {
        AppDataObject {
            name: clone_opt(&self.name),
            desktop_file: clone_opt(&self.desktop_file),
            icon: clone_opt(&self.icon),
            comment: clone_opt(&self.comment),
            exec_cmd: clone_opt(&self.exec_cmd),
        }
    }

    /// The name property.
    pub fn name(&self) -> (r: Option<String>)
        ensures
            opt_view(r) == opt_view(self.name),
    {
        clone_opt(&self.name)
    }

    /// The desktop file property.
    pub fn desktop_file(&self) -> (r: Option<String>)
        ensures
            opt_view(r) == opt_view(self.desktop_file),
    {
        clone_opt(&self.desktop_file)
    }

    /// The icon property.
    pub fn icon(&self) -> (r: Option<String>)
        ensures
            opt_view(r) == opt_view(self.icon),
    {
        clone_opt(&self.icon)
    }

    /// The comment property.
    pub fn comment(&self) -> (r: Option<String>)
        ensures
            opt_view(r) == opt_view(self.comment),
    {
        clone_opt(&self.comment)
    }

    /// The command line property.
    pub fn exec_cmd(&self) -> (r: Option<String>)
        ensures
            opt_view(r) == opt_view(self.exec_cmd),
    {
        clone_opt(&self.exec_cmd)
    }
}

} // verus!
