//! The GUI's persisted settings: plain values with their documented
//! defaults. Reading and writing the settings file is the caller's work.

use vstd::prelude::*;

verus! {

/// The main window's size.
#[derive(Clone, Copy, Debug, PartialEq, Eq, Structural)]
pub struct WindowSize {
    pub width: u32,
    pub height: u32,
}

impl Default for WindowSize {
    /// The window opens at 1000 by 800.
    fn default() -> (r: WindowSize)
        ensures
            r.width == 1000 && r.height == 800,
    {
        WindowSize { width: 1000, height: 800 }
    }
}

/// The default interface language.
pub fn language_default() -> (r: String)
    ensures
        r@ =~= "en"@,
{
    let r = "en".to_owned();
    r
}

/// The default backup archive format.
pub fn backup_default() -> (r: String)
    ensures
        r@ =~= "default"@,
{
    let r = "default".to_owned();
    r
}

/// The default ordering of the project list.
pub fn project_sorting_default() -> (r: String)
    ensures
        r@ =~= "lastModified"@,
{
    let r = "lastModified".to_owned();
    r
}

/// The GUI's settings, each field falling back to its documented default
/// when absent from the settings file.
#[derive(Debug)]
pub struct GuiConfig {
    pub gui_hidden_repositories: Vec<String>,
    pub hide_local_user_packages: bool,
    pub window_size: WindowSize,
    pub language: String,
    pub backup_format: String,
    pub project_sorting: String,
}

impl Default for GuiConfig {
    /// Every field at its default.
    fn default() -> (r: GuiConfig)
        ensures
            r.gui_hidden_repositories@.len() == 0,
            !r.hide_local_user_packages,
            r.window_size.width == 1000 && r.window_size.height == 800,
            r.language@ =~= "en"@,
            r.backup_format@ =~= "default"@,
            r.project_sorting@ =~= "lastModified"@,
    {
        GuiConfig {
            gui_hidden_repositories: Vec::new(),
            hide_local_user_packages: false,
            window_size: WindowSize::default(),
            language: language_default(),
            backup_format: backup_default(),
            project_sorting: project_sorting_default(),
        }
    }
}

} // verus!
