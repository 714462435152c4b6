//! The command-line surface: the parsed flags and the action they select.
use vstd::prelude::*;

verus! {

/// The command-line flags.
#[derive(PartialEq, Eq, Clone, Copy, Debug, Structural)]
pub struct Cli {
    /// Write the default theme file.
    pub write_default_css: bool,
    /// Overwrite an existing theme file.
    pub force: bool,
    /// Print the bindings as JSON.
    pub json: bool,
    /// Print the bindings as menu lines.
    pub dmenu: bool,
}

/// What the program does.
#[derive(PartialEq, Eq, Clone, Copy, Debug, Structural)]
pub enum CliAction {
    RunGui,
    WriteDefaultCss { force: bool },
    OutputJson,
    OutputDmenu,
}

/// The action that the flags select; the theme flag wins over JSON, JSON
/// over the menu lines, and without any of them the window opens.
pub open spec fn action_of(cli: Cli) -> CliAction {
    if cli.write_default_css {
        CliAction::WriteDefaultCss { force: cli.force }
    } else if cli.json {
        CliAction::OutputJson
    } else if cli.dmenu {
        CliAction::OutputDmenu
    } else {
        CliAction::RunGui
    }
}

/// Chooses the action from the parsed flags.
pub fn parse_args(cli: &Cli) -> (r: CliAction)
    ensures
        r == action_of(*cli),
{
    if cli.write_default_css {
        return CliAction::WriteDefaultCss { force: cli.force };
    }
    if cli.json {
        return CliAction::OutputJson;
    }
    if cli.dmenu {
        return CliAction::OutputDmenu;
    }
    CliAction::RunGui
}

} // verus!
