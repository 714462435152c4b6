use hyprbind::modmask::modmask_to_string;
use hyprbind::parser::{parse_bind_block, parse_binds_output};

#[test]
fn test_modmask_to_string() {
    assert_eq!(modmask_to_string(64), "SUPER");
    assert_eq!(modmask_to_string(65), "SUPER+SHIFT");
    assert_eq!(modmask_to_string(72), "SUPER+ALT");
    assert_eq!(modmask_to_string(0), "");
}

#[test]
fn parser_test_parse_bind_block() {
    let block = "bind
\tmodmask: 64
\tsubmap: 
\tkey: Return
\tkeycode: 0
\tcatchall: false
\tdescription: Terminal
\tdispatcher: exec
\targ: kitty";

    let entry = parse_bind_block(block).expect("Failed to parse test bind block");
    assert_eq!(entry.modifiers, "SUPER");
    assert_eq!(entry.key, "Return");
    assert_eq!(entry.command, "exec kitty");
    assert_eq!(entry.description, "Terminal");
}

#[test]
fn test_modmask_conversion() {
    let sample = "bind
\tmodmask: 64
\tsubmap: 
\tkey: A
\tkeycode: 0
\tcatchall: false
\tdescription: 
\tdispatcher: exec
\targ: echo super";

    let kb = parse_binds_output(sample);
    assert_eq!(kb.entries.len(), 1);
    assert_eq!(kb.entries[0].modifiers, "SUPER");
}

#[test]
fn test_multiple_modifiers() {
    let sample = "bind
\tmodmask: 65
\tsubmap: 
\tkey: Q
\tkeycode: 0
\tcatchall: false
\tdescription: Kill window
\tdispatcher: killactive
\targ: ";

    let kb = parse_binds_output(sample);
    assert_eq!(kb.entries.len(), 1);
    assert_eq!(kb.entries[0].modifiers, "SUPER+SHIFT");
    assert_eq!(kb.entries[0].description, "Kill window");
}

#[test]
fn test_parse_bind_block() {
    let block = "bind
\tmodmask: 64
\tsubmap: 
\tkey: Return
\tkeycode: 0
\tcatchall: false
\tdescription: Terminal
\tdispatcher: exec
\targ: kitty";

    let kb = parse_binds_output(block);
    assert_eq!(kb.entries.len(), 1);
    assert_eq!(kb.entries[0].modifiers, "SUPER");
    assert_eq!(kb.entries[0].key, "Return");
    assert_eq!(kb.entries[0].command, "exec kitty");
    assert_eq!(kb.entries[0].description, "Terminal");
}

#[test]
fn test_empty_input() {
    let kb = parse_binds_output("");
    assert_eq!(kb.entries.len(), 0);
}

#[test]
fn test_empty_lines_mixed() {
    let sample = "bind
\tmodmask: 64
\tsubmap: 
\tkey: A
\tkeycode: 0
\tcatchall: false
\tdescription: Test
\tdispatcher: exec
\targ: test


bind
\tmodmask: 65
\tsubmap: 
\tkey: B
\tkeycode: 0
\tcatchall: false
\tdescription: 
\tdispatcher: killactive
\targ: ";

    let kb = parse_binds_output(sample);
    assert_eq!(kb.entries.len(), 2);
    assert_eq!(kb.entries[0].key, "A");
    assert_eq!(kb.entries[1].key, "B");
}

#[test]
fn test_missing_required_fields() {
    let sample = "bind
\tsubmap: 
\tkey: A
\tdescription: Missing modmask";

    let kb = parse_binds_output(sample);
    assert_eq!(kb.entries.len(), 0);
}

#[test]
fn test_invalid_modmask() {
    let sample = "bind
\tmodmask: invalid
\tsubmap: 
\tkey: A
\tkeycode: 0
\tcatchall: false
\tdescription: 
\tdispatcher: exec
\targ: test";

    let kb = parse_binds_output(sample);
    assert_eq!(kb.entries.len(), 0);
}

#[test]
fn test_unknown_fields_ignored() {
    let sample = "bind
\tmodmask: 64
\tsubmap: 
\tkey: A
\tkeycode: 0
\tcatchall: false
\tdescription: Test
\tdispatcher: exec
\targ: test
\tunknown_field: should be ignored
\tanother_unknown: also ignored";

    let kb = parse_binds_output(sample);
    assert_eq!(kb.entries.len(), 1);
    assert_eq!(kb.entries[0].key, "A");
}

#[test]
fn test_real_hyprctl_output() {
    let sample = "bindd
\tmodmask: 64
\tsubmap: 
\tkey: Return
\tkeycode: 0
\tcatchall: false
\tdescription:  Kitty
\tdispatcher: exec
\targ: kitty

bindd
\tmodmask: 65
\tsubmap: 
\tkey: Return
\tkeycode: 0
\tcatchall: false
\tdescription:  TempKitty
\tdispatcher: exec
\targ: kitty --title TempTerminal

bindd
\tmodmask: 68
\tsubmap: 
\tkey: Return
\tkeycode: 0
\tcatchall: false
\tdescription:  DevKitty
\tdispatcher: exec
\targ: kitty --config ~/.config/kitty/dev.conf";

    let kb = parse_binds_output(sample);
    assert_eq!(kb.entries.len(), 3);
    assert_eq!(kb.entries[0].modifiers, "SUPER");
    assert_eq!(kb.entries[0].command, "exec kitty");
    assert_eq!(kb.entries[1].modifiers, "SUPER+SHIFT");
    assert_eq!(kb.entries[2].modifiers, "SUPER+CTRL");
}

#[test]
fn test_malformed_line_no_colon() {
    let sample = "bind
\tmodmask: 64
\tthis line has no colon delimiter
\tkey: A
\tkeycode: 0
\tcatchall: false
\tdescription: Test
\tdispatcher: exec
\targ: test";

    let kb = parse_binds_output(sample);
    assert_eq!(kb.entries.len(), 1);
}

#[test]
fn test_empty_dispatcher() {
    let sample = "bind
\tmodmask: 64
\tsubmap: 
\tkey: A
\tkeycode: 0
\tcatchall: false
\tdescription: 
\tdispatcher: 
\targ: ";

    let kb = parse_binds_output(sample);
    assert_eq!(kb.entries.len(), 0);
    assert!(parse_bind_block(sample).is_none());
}

#[test]
fn empty_key_gives_no_entry() {
    assert!(parse_bind_block("modmask: 64\nkey:   \ndispatcher: exec\narg: kitty").is_none());
    let kb = parse_binds_output("modmask: 64\nkey:\ndispatcher: exec\n\nmodmask: 64\nkey: B\ndispatcher: exec");
    assert_eq!(kb.entries.len(), 1);
    assert_eq!(kb.entries[0].key, "B");
}

#[test]
fn test_special_characters_in_description() {
    let sample = "bind
\tmodmask: 64
\tsubmap: 
\tkey: A
\tkeycode: 0
\tcatchall: false
\tdescription: Test: with \"quotes\" and 'apostrophes'
\tdispatcher: exec
\targ: test";

    let kb = parse_binds_output(sample);
    assert_eq!(kb.entries.len(), 1);
    assert!(kb.entries[0].description.contains("quotes"));
}

#[test]
fn test_whitespace_handling() {
    let sample = "bind\n\tmodmask: 64\n\tsubmap: \n\tkey: A\n\tkeycode: 0\n\tcatchall: false\n\tdescription:    Spaces   \n\tdispatcher: exec\n\targ:   test  ";

    let kb = parse_binds_output(sample);
    assert_eq!(kb.entries.len(), 1);
    assert_eq!(kb.entries[0].description.trim(), "Spaces");
}

#[test]
fn decode_orders_modifiers_whatever_the_bits() {
    assert_eq!(modmask_to_string(0x40), "SUPER");
    assert_eq!(modmask_to_string(0x41), "SUPER+SHIFT");
    assert_eq!(modmask_to_string(0x48), "SUPER+ALT");
    assert_eq!(modmask_to_string(0x04), "CTRL");
    assert_eq!(modmask_to_string(0x0D), "ALT+CTRL+SHIFT");
    assert_eq!(modmask_to_string(0x4D), "SUPER+ALT+CTRL+SHIFT");
    assert_eq!(modmask_to_string(0x02), "");
    assert_eq!(modmask_to_string(0x80 | 0x10 | 0x01), "SHIFT");
    assert_eq!(modmask_to_string(u32::MAX), "SUPER+ALT+CTRL+SHIFT");
}

#[test]
fn scenario_terminal_block() {
    let kb = parse_binds_output(
        "modmask: 64\nkey: Return\ndispatcher: exec\narg: kitty\ndescription: Terminal",
    );
    assert_eq!(kb.entries.len(), 1);
    let e = &kb.entries[0];
    assert_eq!(e.modifiers, "SUPER");
    assert_eq!(e.key, "Return");
    assert_eq!(e.command, "exec kitty");
    assert_eq!(e.description, "Terminal");
}

#[test]
fn scenario_kill_window_block() {
    let kb = parse_binds_output(
        "modmask: 65\nkey: Q\ndispatcher: killactive\narg: \ndescription: Kill window",
    );
    assert_eq!(kb.entries.len(), 1);
    let e = &kb.entries[0];
    assert_eq!(e.modifiers, "SUPER+SHIFT");
    assert_eq!(e.key, "Q");
    assert_eq!(e.command, "killactive");
    assert_eq!(e.description, "Kill window");
}

#[test]
fn block_without_key_or_dispatcher_gives_nothing() {
    assert!(parse_bind_block("modmask: 64\ndispatcher: exec").is_none());
    assert!(parse_bind_block("modmask: 64\nkey: A").is_none());
    assert!(parse_bind_block("key: A\ndispatcher: exec").is_none());
    assert!(parse_bind_block("modmask: -1\nkey: A\ndispatcher: exec").is_none());
    assert!(parse_bind_block("modmask: 4294967296\nkey: A\ndispatcher: exec").is_none());
    assert!(parse_bind_block("modmask: \nkey: A\ndispatcher: exec").is_none());
    let kb = parse_binds_output("modmask: x\nkey: A\ndispatcher: exec\n\nmodmask: 1\nkey: B\ndispatcher: exec");
    assert_eq!(kb.entries.len(), 1);
    assert_eq!(kb.entries[0].key, "B");
}

#[test]
fn modmask_reads_like_u32_from_str() {
    let e = parse_bind_block("modmask: +64\nkey: A\ndispatcher: exec").unwrap();
    assert_eq!(e.modifiers, "SUPER");
    let e = parse_bind_block("modmask: 4294967295\nkey: A\ndispatcher: exec").unwrap();
    assert_eq!(e.modifiers, "SUPER+ALT+CTRL+SHIFT");
    let e = parse_bind_block("modmask: 0008\nkey: A\ndispatcher: exec").unwrap();
    assert_eq!(e.modifiers, "ALT");
}

#[test]
fn blocks_separated_by_one_or_more_blank_lines() {
    for sep in ["\n\n", "\n\n\n", "\n\n\n\n", "\n\n\n\n\n"] {
        let text = format!(
            "modmask: 64\nkey: A\ndispatcher: exec{}modmask: 1\nkey: B\ndispatcher: killactive",
            sep
        );
        let kb = parse_binds_output(&text);
        assert_eq!(kb.entries.len(), 2, "separator {:?}", sep);
        assert_eq!(kb.entries[0].key, "A");
        assert_eq!(kb.entries[1].key, "B");
        assert_eq!(kb.entries[1].modifiers, "SHIFT");
    }
}

#[test]
fn later_field_overrides_earlier_and_value_keeps_colons() {
    let e = parse_bind_block("modmask: 0\nkey: A\nkey: B\ndispatcher: exec\narg: echo a:b : c").unwrap();
    assert_eq!(e.key, "B");
    assert_eq!(e.command, "exec echo a:b : c");
    assert_eq!(e.modifiers, "");
    assert_eq!(e.description, "");
}

#[test]
fn blank_blocks_and_crlf_lines() {
    let kb = parse_binds_output("\n\n   \n\n\t\n\nmodmask: 8\r\nkey: F1\r\ndispatcher: exec\r\narg: firefox\r\n");
    assert_eq!(kb.entries.len(), 1);
    assert_eq!(kb.entries[0].modifiers, "ALT");
    assert_eq!(kb.entries[0].key, "F1");
    assert_eq!(kb.entries[0].command, "exec firefox");
}
