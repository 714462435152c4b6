//! Glyphs of a Nerd Font for common key and modifier names.
use vstd::prelude::*;
use crate::text::chars_of;

verus! {

/// The code of `c` with ASCII capitals lowered.
pub open spec fn ascii_lower_code(c: char) -> u32 {
    let u = c as u32;
    if 65 <= u <= 90 {
        (u + 32) as u32
    } else {
        u
    }
}

/// `s` equals the lower-case `name` when ASCII letters are compared without
/// regard to case.
pub open spec fn ascii_folds_to(s: Seq<char>, name: Seq<char>) -> bool {
    s.len() == name.len() && forall|i: int|
        0 <= i < s.len() ==> ascii_lower_code(#[trigger] s[i]) == name[i] as u32
}

/// The glyph that the icon table gives `key`, if it lists it.
pub open spec fn table_icon(key: Seq<char>) -> Option<Seq<char>> {
    if ascii_folds_to(key, "super"@) {
        Some("\u{f17a}"@)
    } else if ascii_folds_to(key, "shift"@) {
        Some(" \u{f0636} "@)
    } else if ascii_folds_to(key, "return"@) {
        Some("\u{f0311}"@)
    } else if ascii_folds_to(key, "enter"@) {
        Some("\u{f0311}"@)
    } else if ascii_folds_to(key, "semicolon"@) {
        Some(";"@)
    } else if ascii_folds_to(key, "delete"@) {
        Some("DEL"@)
    } else if ascii_folds_to(key, "tab"@) {
        Some("TAB"@)
    } else if ascii_folds_to(key, "left"@) {
        Some("\u{f0731}"@)
    } else if ascii_folds_to(key, "right"@) {
        Some("\u{f0734}"@)
    } else if ascii_folds_to(key, "up"@) {
        Some("\u{f0737}"@)
    } else if ascii_folds_to(key, "down"@) {
        Some("\u{f072e}"@)
    } else if ascii_folds_to(key, "mouse_down"@) {
        Some("\u{f1550}"@)
    } else if ascii_folds_to(key, "mouse_up"@) {
        Some("\u{f1551}"@)
    } else if ascii_folds_to(key, "mouse:272"@) {
        Some("\u{eb6f}\u{f037d}"@)
    } else if ascii_folds_to(key, "mouse:273"@) {
        Some("\u{f037d}\u{eb70}"@)
    } else if ascii_folds_to(key, "xf86audioraisevolume"@) {
        Some("\u{f028}"@)
    } else if ascii_folds_to(key, "xf86audiolowervolume"@) {
        Some("\u{f027}"@)
    } else if ascii_folds_to(key, "xf86audiomute"@) {
        Some("\u{eee8}"@)
    } else if ascii_folds_to(key, "xf86audiomicmute"@) {
        Some("\u{f036d}"@)
    } else if ascii_folds_to(key, "xf86monbrightnessup"@) {
        Some("\u{f00e0}"@)
    } else if ascii_folds_to(key, "xf86monbrightnessdown"@) {
        Some("\u{f00de}"@)
    } else if ascii_folds_to(key, "xf86audionext"@) {
        Some("\u{f0661}"@)
    } else if ascii_folds_to(key, "xf86audiopause"@) {
        Some("\u{f04c}"@)
    } else if ascii_folds_to(key, "xf86audioplay"@) {
        Some("\u{f04b}"@)
    } else if ascii_folds_to(key, "xf86audioprev"@) {
        Some("\u{f0663}"@)
    } else {
        None
    }
}

/// What stands for `key` in a label: its glyph, or `key` itself.
pub open spec fn icon_for(key: Seq<char>) -> Seq<char> {
    match table_icon(key) {
        Some(icon) => icon,
        None => key,
    }
}

/// A code point of one of Unicode's private use areas, where Nerd Fonts put
/// their glyphs.
pub open spec fn is_private_use(c: char) -> bool {
    let u = c as u32;
    ||| 0xE000 <= u <= 0xF8FF
    ||| 0xF0000 <= u <= 0xFFFFD
    ||| 0x100000 <= u <= 0x10FFFD
}

fn folds_to(cs: &Vec<char>, name: &str) -> (r: bool)
    ensures
        r == ascii_folds_to(cs@, name@),
{
    let other = chars_of(name);
    if cs.len() != other.len() {
        return false;
    }
    let mut i: usize = 0;
    while i < cs.len()
        invariant
            i <= cs@.len() == other@.len(),
            other@ == name@,
            forall|j: int| 0 <= j < i ==> ascii_lower_code(#[trigger] cs@[j]) == other@[j] as u32,
        decreases cs.len() - i,
    {
        let u = cs[i] as u32;
        let lowered = if 65 <= u && u <= 90 {
            u + 32
        } else {
            u
        };
        if lowered != other[i] as u32 {
            return false;
        }
        i = i + 1;
    }
    true
}

/// The glyph for a key or modifier name, looked up without regard to ASCII
/// case; a name that the table lacks is returned as it is.
pub fn get_icon(key: &str) -> (r: String)
    ensures
        r@ == icon_for(key@),
{
    let cs = chars_of(key);
    if folds_to(&cs, "super") {
        return String::from_str("\u{f17a}");
    }
    if folds_to(&cs, "shift") {
        return String::from_str(" \u{f0636} ");
    }
    if folds_to(&cs, "return") {
        return String::from_str("\u{f0311}");
    }
    if folds_to(&cs, "enter") {
        return String::from_str("\u{f0311}");
    }
    if folds_to(&cs, "semicolon") {
        return String::from_str(";");
    }
    if folds_to(&cs, "delete") {
        return String::from_str("DEL");
    }
    if folds_to(&cs, "tab") {
        return String::from_str("TAB");
    }
    if folds_to(&cs, "left") {
        return String::from_str("\u{f0731}");
    }
    if folds_to(&cs, "right") {
        return String::from_str("\u{f0734}");
    }
    if folds_to(&cs, "up") {
        return String::from_str("\u{f0737}");
    }
    if folds_to(&cs, "down") {
        return String::from_str("\u{f072e}");
    }
    if folds_to(&cs, "mouse_down") {
        return String::from_str("\u{f1550}");
    }
    if folds_to(&cs, "mouse_up") {
        return String::from_str("\u{f1551}");
    }
    if folds_to(&cs, "mouse:272") {
        return String::from_str("\u{eb6f}\u{f037d}");
    }
    if folds_to(&cs, "mouse:273") {
        return String::from_str("\u{f037d}\u{eb70}");
    }
    if folds_to(&cs, "xf86audioraisevolume") {
        return String::from_str("\u{f028}");
    }
    if folds_to(&cs, "xf86audiolowervolume") {
        return String::from_str("\u{f027}");
    }
    if folds_to(&cs, "xf86audiomute") {
        return String::from_str("\u{eee8}");
    }
    if folds_to(&cs, "xf86audiomicmute") {
        return String::from_str("\u{f036d}");
    }
    if folds_to(&cs, "xf86monbrightnessup") {
        return String::from_str("\u{f00e0}");
    }
    if folds_to(&cs, "xf86monbrightnessdown") {
        return String::from_str("\u{f00de}");
    }
    if folds_to(&cs, "xf86audionext") {
        return String::from_str("\u{f0661}");
    }
    if folds_to(&cs, "xf86audiopause") {
        return String::from_str("\u{f04c}");
    }
    if folds_to(&cs, "xf86audioplay") {
        return String::from_str("\u{f04b}");
    }
    if folds_to(&cs, "xf86audioprev") {
        return String::from_str("\u{f0663}");
    }
    String::from_str(key)
}

/// Whether `s` holds a glyph of a Nerd Font, that is a private-use character.
pub fn is_nerd_font_icon(s: &str) -> (r: bool)
    ensures
        r == exists|i: int| 0 <= i < s@.len() && is_private_use(#[trigger] s@[i]),
{
    let cs = chars_of(s);
    let mut i: usize = 0;
    while i < cs.len()
        invariant
            i <= cs@.len(),
            cs@ == s@,
            forall|j: int| 0 <= j < i ==> !is_private_use(#[trigger] cs@[j]),
        decreases cs.len() - i,
    {
        let u = cs[i] as u32;
        if (0xE000 <= u && u <= 0xF8FF) || (0xF0000 <= u && u <= 0xFFFFD) || (0x100000 <= u && u
            <= 0x10FFFD) {
            assert(is_private_use(s@[i as int]));
            return true;
        }
        i = i + 1;
    }
    false
}

} // verus!
