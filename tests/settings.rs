use hyprbind::cli::{parse_args, Cli, CliAction};
use hyprbind::config::{AppFlags, ColumnVisibility, Theme, UserConfig};
use hyprbind::navigation::{navigate, NavKey};

#[test]
fn test_default_values() {
    let config = UserConfig::default();
    assert!(matches!(config.theme, Theme::Dark));
    assert!(!config.zen_mode);
    assert!(config.column_visibility.keybind);
    assert!(config.column_visibility.description);
    assert!(!config.column_visibility.command);
}

#[test]
fn default_flags_and_columns() {
    let f = AppFlags::default();
    assert!(!f.show_options_window && !f.zen_mode && !f.show_zen_info_modal && !f.export_request);
    let c = ColumnVisibility::default();
    assert!(c.keybind && c.description && !c.command);
    let s = UserConfig::default().search_options;
    assert!(s.keybind && s.command && s.description);
}

fn cli(write_default_css: bool, force: bool, json: bool, dmenu: bool) -> Cli {
    Cli { write_default_css, force, json, dmenu }
}

#[test]
fn action_precedence() {
    assert_eq!(parse_args(&cli(false, false, false, false)), CliAction::RunGui);
    assert_eq!(parse_args(&cli(true, true, true, true)), CliAction::WriteDefaultCss { force: true });
    assert_eq!(parse_args(&cli(true, false, false, false)), CliAction::WriteDefaultCss { force: false });
    assert_eq!(parse_args(&cli(false, false, true, true)), CliAction::OutputJson);
    assert_eq!(parse_args(&cli(false, false, false, true)), CliAction::OutputDmenu);
}

#[test]
fn keyboard_navigation() {
    assert_eq!(navigate(None, Some(NavKey::Down), 5, true), Some(1));
    assert_eq!(navigate(Some(4), Some(NavKey::Down), 5, true), Some(4));
    assert_eq!(navigate(Some(0), Some(NavKey::Up), 5, true), Some(0));
    assert_eq!(navigate(Some(3), Some(NavKey::Up), 5, true), Some(2));
    assert_eq!(navigate(Some(2), Some(NavKey::PageDown), 30, true), Some(12));
    assert_eq!(navigate(Some(25), Some(NavKey::PageDown), 30, true), Some(29));
    assert_eq!(navigate(Some(15), Some(NavKey::PageUp), 30, true), Some(5));
    assert_eq!(navigate(Some(5), Some(NavKey::PageUp), 30, true), Some(0));
    assert_eq!(navigate(Some(5), Some(NavKey::Home), 30, true), Some(0));
    assert_eq!(navigate(None, Some(NavKey::End), 30, true), Some(29));
    assert_eq!(navigate(Some(7), None, 30, true), Some(7));
    assert_eq!(navigate(Some(7), Some(NavKey::Down), 30, false), Some(7));
    assert_eq!(navigate(Some(7), Some(NavKey::Down), 0, true), None);
    assert_eq!(navigate(Some(7), None, 0, false), None);
}
