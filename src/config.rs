//! The persisted view settings, as plain values.
use vstd::prelude::*;
use crate::models::SearchOptions;

verus! {

/// The colour theme of the window.
#[derive(PartialEq, Eq, Clone, Copy, Debug, Structural)]
pub enum Theme {
    Dark,
    Light,
}

/// Which columns of the table are shown.
#[derive(PartialEq, Eq, Clone, Copy, Debug, Structural)]
pub struct ColumnVisibility {
    pub keybind: bool,
    pub description: bool,
    pub command: bool,
}

impl Default for ColumnVisibility {
    /// The keybind and description columns, without the command.
    fn default() -> (r: Self)
        ensures
            r.keybind,
            r.description,
            !r.command,
    {
        ColumnVisibility { keybind: true, description: true, command: false }
    }
}

/// The settings kept between sessions.
#[derive(PartialEq, Eq, Clone, Copy, Debug, Structural)]
pub struct UserConfig {
    pub theme: Theme,
    pub column_visibility: ColumnVisibility,
    pub search_options: SearchOptions,
    pub zen_mode: bool,
}

impl Default for UserConfig {
    /// Dark theme, default columns, every field searched, zen mode off.
    fn default() -> (r: Self)
        ensures
            r.theme == Theme::Dark,
            r.column_visibility == (ColumnVisibility { keybind: true, description: true, command: false }),
            r.search_options == (SearchOptions { keybind: true, command: true, description: true }),
            !r.zen_mode,
    {
        UserConfig {
            theme: Theme::Dark,
            column_visibility: ColumnVisibility::default(),
            search_options: SearchOptions::default(),
            zen_mode: false,
        }
    }
}

/// The session's window flags.
#[derive(PartialEq, Eq, Clone, Copy, Debug, Structural)]
pub struct AppFlags {
    pub show_options_window: bool,
    pub zen_mode: bool,
    pub show_zen_info_modal: bool,
    pub export_request: bool,
}

impl Default for AppFlags {
    /// Every flag off.
    fn default() -> (r: Self)
        ensures
            !r.show_options_window,
            !r.zen_mode,
            !r.show_zen_info_modal,
            !r.export_request,
    {
        AppFlags {
            show_options_window: false,
            zen_mode: false,
            show_zen_info_modal: false,
            export_request: false,
        }
    }
}

} // verus!
