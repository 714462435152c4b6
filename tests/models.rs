use hyprbind::models::{KeyBindEntry, KeyBindings, SearchOptions};

fn entry(m: &str, k: &str, c: &str, d: &str) -> KeyBindEntry {
    KeyBindEntry::new(m.to_string(), k.to_string(), c.to_string(), d.to_string())
}

#[test]
fn test_to_dmenu() {
    let entry1 = KeyBindEntry::new(
        String::new(),
        "Return".to_string(),
        "exec kitty".to_string(),
        "Terminal".to_string(),
    );
    let entry2 = KeyBindEntry::new(
        "SUPER+SHIFT".to_string(),
        "Q".to_string(),
        "killactive".to_string(),
        "Kill window".to_string(),
    );
    let entry3 = KeyBindEntry::new(
        "SUPER+ALT".to_string(),
        "F1".to_string(),
        "exec firefox".to_string(),
        String::new(),
    );
    let entry4 = KeyBindEntry::new(
        "CTRL+SHIFT".to_string(),
        "F2".to_string(),
        String::new(),
        String::new(),
    );

    let kb = KeyBindings {
        entries: vec![entry1, entry2, entry3, entry4],
    };

    let dmenu = kb.to_dmenu();
    let lines: Vec<&str> = dmenu.lines().collect();

    assert_eq!(lines[0], "\u{f0311} : Terminal");
    assert_eq!(lines[1], "\u{f17a} +  \u{f0636}  + Q : Kill window");
    assert_eq!(lines[2], "\u{f17a} + ALT + F1 : exec firefox");
    assert_eq!(lines[3], "CTRL +  \u{f0636}  + F2 : ");
}

#[test]
fn dmenu_of_empty_and_single_collection() {
    assert_eq!(KeyBindings::new().to_dmenu(), "");
    let kb = KeyBindings { entries: vec![entry("ALT", "tab", "cyclenext", "")] };
    assert_eq!(kb.to_dmenu(), "ALT + TAB : cyclenext");
}

#[test]
fn json_export_layout() {
    assert_eq!(KeyBindings::new().to_json().unwrap(), "{\n  \"entries\": []\n}");
    let kb = KeyBindings { entries: vec![entry("SUPER", "Return", "exec kitty", "say \"hi\"")] };
    let expected = "{\n  \"entries\": [\n    {\n      \"modifiers\": \"SUPER\",\n      \"key\": \"Return\",\n      \"command\": \"exec kitty\",\n      \"description\": \"say \\\"hi\\\"\"\n    }\n  ]\n}";
    assert_eq!(kb.to_json().unwrap(), expected);
}

#[test]
fn json_export_escapes_like_serde_json() {
    let kb = KeyBindings { entries: vec![entry("", "\u{1}\u{1f}", "a\\b/c", "\u{8}\t\n\u{c}\r\"\u{e9}")] };
    let json = kb.to_json().unwrap();
    assert!(json.contains("\"key\": \"\\u0001\\u001f\""));
    assert!(json.contains("\"command\": \"a\\\\b/c\""));
    assert!(json.contains("\"description\": \"\\b\\t\\n\\f\\r\\\"\u{e9}\""));
    assert!(json.contains("\"modifiers\": \"\""));
}

#[test]
fn json_export_decodes_back_to_the_same_entries() {
    let kb = KeyBindings {
        entries: vec![
            entry("SUPER", "Return", "exec kitty", "Terminal"),
            entry("", "back\\slash", "exec echo \"q\"", "line\nbreak\ttab"),
            entry("SUPER+SHIFT", "\u{e9}", "killactive", "\u{f17a} glyph"),
            entry("SUPER", "Return", "exec kitty", "Terminal"),
        ],
    };
    let json = kb.to_json().unwrap();
    let value: serde_json::Value = serde_json::from_str(&json).unwrap();
    let decoded = value["entries"].as_array().unwrap();
    assert_eq!(decoded.len(), kb.entries.len());
    for (d, e) in decoded.iter().zip(kb.entries.iter()) {
        assert_eq!(d["modifiers"].as_str().unwrap(), e.modifiers);
        assert_eq!(d["key"].as_str().unwrap(), e.key);
        assert_eq!(d["command"].as_str().unwrap(), e.command);
        assert_eq!(d["description"].as_str().unwrap(), e.description);
        assert_eq!(d.as_object().unwrap().len(), 4);
    }
}

#[test]
fn add_entry_keeps_order_and_duplicates() {
    let mut kb = KeyBindings::default();
    kb.add_entry(entry("SUPER", "A", "exec a", ""));
    kb.add_entry(entry("SUPER", "A", "exec a", ""));
    kb.add_entry(entry("", "B", "exec b", ""));
    assert_eq!(kb.entries.len(), 3);
    assert_eq!(kb.entries[2].key, "B");
}

#[test]
fn matches_is_case_insensitive_and_follows_options() {
    let e = entry("SUPER+SHIFT", "Return", "exec kitty", "Open Terminal");
    let all = SearchOptions::default();
    assert!(e.matches("KITTY", &all));
    assert!(e.matches("terminal", &all));
    assert!(e.matches("shift", &all));
    assert!(e.matches("return", &all));
    assert!(!e.matches("firefox", &all));
    let keybind = SearchOptions { keybind: true, command: false, description: false };
    assert!(e.matches("super", &keybind));
    assert!(!e.matches("kitty", &keybind));
    let description = SearchOptions { keybind: false, command: false, description: true };
    assert!(e.matches("OPEN", &description));
    assert!(!e.matches("return", &description));
}

#[test]
fn filter_searches_every_field() {
    let kb = KeyBindings {
        entries: vec![
            entry("SUPER", "Return", "exec kitty", "Terminal"),
            entry("ALT", "F4", "killactive", "Close"),
            entry("", "Print", "exec grim", "Screenshot"),
        ],
    };
    assert_eq!(kb.filter("").len(), 3);
    let found = kb.filter("EXEC");
    assert_eq!(found.len(), 2);
    assert_eq!(found[0].key, "Return");
    assert_eq!(found[1].key, "Print");
    let found = kb.filter("alt");
    assert_eq!(found.len(), 1);
    assert_eq!(found[0].command, "killactive");
    assert!(kb.filter("nothing").is_empty());
}

#[test]
fn search_options_default_enables_all() {
    let o = SearchOptions::default();
    assert!(o.keybind && o.command && o.description);
}

#[test]
fn cloned_entry_keeps_fields() {
    let e = entry("CTRL", "C", "exec copy", "Copy");
    let c = e.clone();
    assert_eq!(c.modifiers, "CTRL");
    assert_eq!(c.key, "C");
    assert_eq!(c.command, "exec copy");
    assert_eq!(c.description, "Copy");
}
