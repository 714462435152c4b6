use hyprbind::models::{KeyBindEntry, SearchOptions};
use hyprbind::sorting::{apply_sort, filter_and_sort, matches_search, next_sort_state, SortColumn, SortState};

fn entry(m: &str, k: &str, c: &str, d: &str) -> KeyBindEntry {
    KeyBindEntry::new(m.to_string(), k.to_string(), c.to_string(), d.to_string())
}

fn sample() -> Vec<KeyBindEntry> {
    vec![
        entry("SUPER", "Q", "killactive", "first"),
        entry("ALT", "Tab", "cyclenext", "Cycle windows"),
        entry("SUPER", "Return", "exec kitty", "Terminal"),
        entry("SUPER", "Q", "exec firefox", "second"),
        entry("", "Print", "exec grim", "Kitty screenshot"),
    ]
}

fn descriptions(v: &[KeyBindEntry]) -> Vec<String> {
    v.iter().map(|e| e.description.clone()).collect()
}

#[test]
fn only_command_searched() {
    let opts = SearchOptions { keybind: false, command: true, description: false };
    let got = filter_and_sort(&sample(), "KITTY", &opts, SortColumn::Keybind, SortState::Unsorted);
    assert_eq!(descriptions(&got), vec!["Terminal"]);
    let got = filter_and_sort(&sample(), "super", &opts, SortColumn::Keybind, SortState::Unsorted);
    assert!(got.is_empty());
}

#[test]
fn no_field_searched_shows_nothing() {
    let opts = SearchOptions { keybind: false, command: false, description: false };
    for state in [SortState::Unsorted, SortState::Ascending, SortState::Descending] {
        let got = filter_and_sort(&sample(), "a", &opts, SortColumn::Command, state);
        assert!(got.is_empty());
    }
    let got = filter_and_sort(&sample(), "", &opts, SortColumn::Command, SortState::Unsorted);
    assert_eq!(got.len(), 5);
}

#[test]
fn empty_query_keeps_everything_in_order() {
    let got = filter_and_sort(&sample(), "", &SearchOptions::default(), SortColumn::Keybind, SortState::Unsorted);
    assert_eq!(
        descriptions(&got),
        vec!["first", "Cycle windows", "Terminal", "second", "Kitty screenshot"]
    );
}

#[test]
fn keybind_sort_is_stable_and_descending_reverses_ties() {
    let all = SearchOptions::default();
    let asc = filter_and_sort(&sample(), "", &all, SortColumn::Keybind, SortState::Ascending);
    assert_eq!(
        descriptions(&asc),
        vec!["Kitty screenshot", "Cycle windows", "first", "second", "Terminal"]
    );
    let desc = filter_and_sort(&sample(), "", &all, SortColumn::Keybind, SortState::Descending);
    assert_eq!(
        descriptions(&desc),
        vec!["Terminal", "second", "first", "Cycle windows", "Kitty screenshot"]
    );
}

#[test]
fn sort_by_description_and_command() {
    let all = SearchOptions::default();
    let got = filter_and_sort(&sample(), "", &all, SortColumn::Description, SortState::Ascending);
    assert_eq!(
        descriptions(&got),
        vec!["Cycle windows", "Kitty screenshot", "Terminal", "first", "second"]
    );
    let got = filter_and_sort(&sample(), "exec", &all, SortColumn::Command, SortState::Ascending);
    let commands: Vec<String> = got.iter().map(|e| e.command.clone()).collect();
    assert_eq!(commands, vec!["exec firefox", "exec grim", "exec kitty"]);
}

#[test]
fn apply_sort_orders_by_code_point() {
    let mut v = vec![entry("", "b", "", ""), entry("", "B", "", ""), entry("", "\u{e9}", "", ""), entry("", "a", "", "")];
    apply_sort(&mut v, SortColumn::Keybind);
    let keys: Vec<String> = v.iter().map(|e| e.key.clone()).collect();
    assert_eq!(keys, vec!["B", "a", "b", "\u{e9}"]);
}

#[test]
fn input_is_left_untouched() {
    let entries = sample();
    let _ = filter_and_sort(&entries, "", &SearchOptions::default(), SortColumn::Command, SortState::Descending);
    assert_eq!(entries[0].description, "first");
    assert_eq!(entries.len(), 5);
}

#[test]
fn matches_search_accepts_empty_query() {
    let opts = SearchOptions { keybind: false, command: false, description: false };
    assert!(matches_search(&entry("", "A", "", ""), "", &opts));
    assert!(!matches_search(&entry("", "A", "", ""), "a", &opts));
}

#[test]
fn sort_click_cycle() {
    let (c, s) = next_sort_state(SortColumn::Keybind, SortColumn::Keybind, SortState::Unsorted);
    assert_eq!((c, s), (SortColumn::Keybind, SortState::Ascending));
    let (c, s) = next_sort_state(c, SortColumn::Keybind, s);
    assert_eq!((c, s), (SortColumn::Keybind, SortState::Descending));
    let (c, s) = next_sort_state(c, SortColumn::Keybind, s);
    assert_eq!((c, s), (SortColumn::Keybind, SortState::Unsorted));
    for state in [SortState::Unsorted, SortState::Ascending, SortState::Descending] {
        assert_eq!(
            next_sort_state(SortColumn::Keybind, SortColumn::Command, state),
            (SortColumn::Command, SortState::Ascending)
        );
        assert_eq!(
            next_sort_state(SortColumn::Command, SortColumn::Description, state),
            (SortColumn::Description, SortState::Ascending)
        );
    }
}
