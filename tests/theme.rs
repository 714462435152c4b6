use hyprbind::theme::{css_var, extract_vars, parse_hex_color, Rgba};

#[test]
fn reads_custom_properties() {
    let css = "/* theme */\n:root {\n  --bg: #0f1117;\n  --fg: #d4d7dc;\n  --radius: 6;\n  color: red;\n}\n--spacing:4\n  --bg: #000000 ; trailing\n";
    let vars = extract_vars(css);
    let pairs: Vec<(&str, &str)> = vars.iter().map(|(k, v)| (k.as_str(), v.as_str())).collect();
    assert_eq!(
        pairs,
        vec![("bg", "#0f1117"), ("fg", "#d4d7dc"), ("radius", "6"), ("spacing", "4"), ("bg", "#000000")]
    );
    assert_eq!(css_var(&vars, "bg").as_deref(), Some("#000000"));
    assert_eq!(css_var(&vars, "radius").as_deref(), Some("6"));
    assert_eq!(css_var(&vars, "accent"), None);
}

#[test]
fn property_inside_a_rule_and_odd_lines() {
    let vars = extract_vars(":root { --accent: #7aa2f7; }\n-- : x\n--novalue\nno dashes: here\n");
    let pairs: Vec<(&str, &str)> = vars.iter().map(|(k, v)| (k.as_str(), v.as_str())).collect();
    assert_eq!(pairs, vec![("accent", "#7aa2f7"), ("", "x")]);
    assert!(extract_vars("").is_empty());
}

#[test]
fn hex_colours() {
    assert_eq!(parse_hex_color("#0f1117"), Some(Rgba { r: 0x0f, g: 0x11, b: 0x17, a: 255 }));
    assert_eq!(parse_hex_color("  283457ff "), Some(Rgba { r: 0x28, g: 0x34, b: 0x57, a: 0xff }));
    assert_eq!(parse_hex_color("#ABCDEF80"), Some(Rgba { r: 0xab, g: 0xcd, b: 0xef, a: 0x80 }));
    assert_eq!(parse_hex_color("#+f+f+f"), Some(Rgba { r: 15, g: 15, b: 15, a: 255 }));
    assert_eq!(parse_hex_color("#12345"), None);
    assert_eq!(parse_hex_color("#1234567"), None);
    assert_eq!(parse_hex_color("#12345g"), None);
    assert_eq!(parse_hex_color("##123456"), None);
    assert_eq!(parse_hex_color(""), None);
}
