use hyprbind::icons::{get_icon, is_nerd_font_icon};

#[test]
fn test_get_icon() {
    let cases: [(&str, &str); 28] = [
        ("SUPER", "\u{f17a}"),
        ("SHIFT", " \u{f0636} "),
        ("RETURN", "\u{f0311}"),
        ("ENTER", "\u{f0311}"),
        ("SEMICOLON", ";"),
        ("DELETE", "DEL"),
        ("TAB", "TAB"),
        ("LEFT", "\u{f0731}"),
        ("RIGHT", "\u{f0734}"),
        ("UP", "\u{f0737}"),
        ("DOWN", "\u{f072e}"),
        ("mouse_down", "\u{f1550}"),
        ("mouse_up", "\u{f1551}"),
        ("mouse:272", "\u{eb6f}\u{f037d}"),
        ("mouse:273", "\u{f037d}\u{eb70}"),
        ("XF86AudioRaiseVolume", "\u{f028}"),
        ("XF86AudioLowerVolume", "\u{f027}"),
        ("XF86AudioMute", "\u{eee8}"),
        ("XF86AudioMicMute", "\u{f036d}"),
        ("XF86MonBrightnessUp", "\u{f00e0}"),
        ("XF86MonBrightnessDown", "\u{f00de}"),
        ("XF86AudioNext", "\u{f0661}"),
        ("XF86AudioPause", "\u{f04c}"),
        ("XF86AudioPlay", "\u{f04b}"),
        ("XF86AudioPrev", "\u{f0663}"),
        ("UNKNOWN_KEY", "UNKNOWN_KEY"),
        ("A", "A"),
        ("123", "123"),
    ];

    for (input, expected) in &cases {
        assert_eq!(get_icon(input), *expected);
    }
}

#[test]
fn test_is_nerd_font_icon() {
    let nerd_fonts: [&str; 21] = [
        "\u{f17a}", "\u{f0636}", "\u{f0311}", "\u{f0731}", "\u{f0734}", "\u{f0737}", "\u{f072e}",
        "\u{f1550}", "\u{f1551}", "\u{eb6f}\u{f037d}", "\u{f037d}\u{eb70}", "\u{f028}", "\u{f027}",
        "\u{eee8}", "\u{f036d}", "\u{f00e0}", "\u{f00de}", "\u{f0661}", "\u{f04c}", "\u{f04b}",
        "\u{f0663}",
    ];

    let non_nerd_fonts: [&str; 5] = [";", "A", "DEL", "TAB", "1"];

    for icon in &nerd_fonts {
        assert!(is_nerd_font_icon(icon));
    }

    for text in &non_nerd_fonts {
        assert!(!is_nerd_font_icon(text));
    }
}

#[test]
fn icon_lookup_ignores_ascii_case_only() {
    assert_eq!(get_icon("super"), "\u{f17a}");
    assert_eq!(get_icon("Return"), "\u{f0311}");
    assert_eq!(get_icon("xf86audiomute"), "\u{eee8}");
    assert_eq!(get_icon("Ctrl"), "Ctrl");
    assert_eq!(get_icon(""), "");
    assert_eq!(get_icon("SUPE"), "SUPE");
    assert!(!is_nerd_font_icon(""));
}
