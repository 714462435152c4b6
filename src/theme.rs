//! The theme file: CSS custom properties (`--name: value;`) read as pairs,
//! and hexadecimal colours read as RGBA.
use vstd::prelude::*;
use crate::text::{
    chars_of, find_char, first_index_of, split_on, split_ranges, string_of_range, trim,
    trim_range,
};

verus! {

/// Index of the first `--` in `s`.
pub open spec fn first_dashes(s: Seq<char>) -> Option<int>
    decreases s.len(),
{
    if s.len() >= 2 && s[0] == '-' && s[1] == '-' {
        Some(0)
    } else if s.len() == 0 {
        None
    } else {
        match first_dashes(s.drop_first()) {
            Some(i) => Some(i + 1),
            None => None,
        }
    }
}

/// `s` without its leading `-` characters.
pub open spec fn strip_dashes(s: Seq<char>) -> Seq<char>
    decreases s.len(),
{
    if s.len() > 0 && s[0] == '-' {
        strip_dashes(s.drop_first())
    } else {
        s
    }
}

/// `s` up to its first `;`.
pub open spec fn before_semicolon(s: Seq<char>) -> Seq<char> {
    match first_index_of(s, ';') {
        Some(i) => s.subrange(0, i),
        None => s,
    }
}

/// The custom property that a line defines: from the first `--` of the
/// trimmed line, the trimmed text before the next colon must start with
/// `--`; the name is that text without its dashes, the value the trimmed text
/// after the colon up to a `;`.
pub open spec fn line_var(line: Seq<char>) -> Option<(Seq<char>, Seq<char>)> {
    let t = trim(line);
    match first_dashes(t) {
        None => None,
        Some(s) => {
            let rest = t.subrange(s, t.len() as int);
            match first_index_of(rest, ':') {
                None => None,
                Some(c) => {
                    let key = trim(rest.subrange(0, c));
                    if key.len() >= 2 && key[0] == '-' && key[1] == '-' {
                        Some(
                            (
                                strip_dashes(key),
                                trim(before_semicolon(rest.subrange(c + 1, rest.len() as int))),
                            ),
                        )
                    } else {
                        None
                    }
                },
            }
        },
    }
}

/// The definitions of the lines, in order.
pub open spec fn defs_of_lines(lines: Seq<Seq<char>>) -> Seq<(Seq<char>, Seq<char>)>
    decreases lines.len(),
{
    if lines.len() == 0 {
        Seq::empty()
    } else {
        let earlier = defs_of_lines(lines.drop_last());
        match line_var(lines.last()) {
            Some(d) => earlier.push(d),
            None => earlier,
        }
    }
}

/// The custom properties that a theme file defines, in order.
pub open spec fn css_defs(text: Seq<char>) -> Seq<(Seq<char>, Seq<char>)> {
    defs_of_lines(split_on(text, '\n'))
}

/// The value that the last definition of `name` gives it.
pub open spec fn last_value(defs: Seq<(Seq<char>, Seq<char>)>, name: Seq<char>) -> Option<Seq<char>>
    decreases defs.len(),
{
    if defs.len() == 0 {
        None
    } else if defs.last().0 == name {
        Some(defs.last().1)
    } else {
        last_value(defs.drop_last(), name)
    }
}

/// The values of pairs of strings.
pub open spec fn pair_views(v: Seq<(String, String)>) -> Seq<(Seq<char>, Seq<char>)> {
    v.map_values(|p: (String, String)| (p.0@, p.1@))
}

pub proof fn lemma_first_dashes_at(s: Seq<char>, k: int)
    requires
        0 <= k <= s.len(),
        forall|j: int| 0 <= j < k ==> !(j + 1 < s.len() && #[trigger] s[j] == '-' && s[j + 1] == '-'),
        k < s.len() ==> k + 1 < s.len() && s[k] == '-' && s[k + 1] == '-',
    ensures
        first_dashes(s) == (if k < s.len() {
            Some(k)
        } else {
            None::<int>
        }),
    decreases s.len(),
{
    if s.len() > 0 && k > 0 {
        let t = s.drop_first();
        assert(!(1 < s.len() && s[0] == '-' && s[1] == '-'));
        assert forall|j: int| 0 <= j < k - 1 implies !(j + 1 < t.len() && #[trigger] t[j] == '-'
            && t[j + 1] == '-') by {
            assert(t[j] == s[j + 1]);
            if j + 1 < t.len() {
                assert(t[j + 1] == s[j + 2]);
            }
        }
        if k < s.len() {
            assert(t[k - 1] == s[k] && t[k] == s[k + 1]);
        }
        lemma_first_dashes_at(t, k - 1);
    }
}

/// Index of the first `--` in `cs[lo..hi]`, counted from the start of `cs`.
fn find_dashes(cs: &Vec<char>, lo: usize, hi: usize) -> (r: Option<usize>)
    requires
        lo <= hi <= cs@.len(),
    ensures
        r matches Some(k) ==> lo <= k < hi && first_dashes(cs@.subrange(lo as int, hi as int))
            == Some(k - lo),
        r is None ==> first_dashes(cs@.subrange(lo as int, hi as int)) is None,
{
    let ghost s = cs@.subrange(lo as int, hi as int);
    let mut k = lo;
    while k < hi
        invariant
            lo <= k <= hi <= cs@.len(),
            s == cs@.subrange(lo as int, hi as int),
            forall|j: int| lo <= j < k ==> !(j + 1 < hi && #[trigger] cs@[j] == '-' && cs@[j + 1] == '-'),
        decreases hi - k,
    {
        if k + 1 < hi && cs[k] == '-' && cs[k + 1] == '-' {
            proof {
                assert forall|j: int| 0 <= j < k - lo implies !(j + 1 < s.len() && #[trigger] s[j]
                    == '-' && s[j + 1] == '-') by {
                    assert(s[j] == cs@[lo + j]);
                    if j + 1 < s.len() {
                        assert(s[j + 1] == cs@[lo + j + 1]);
                    }
                }
                assert(s[k - lo] == cs@[k as int] && s[k - lo + 1] == cs@[k + 1]);
                lemma_first_dashes_at(s, k - lo);
            }
            return Some(k);
        }
        k = k + 1;
    }
    proof {
        assert forall|j: int| 0 <= j < s.len() implies !(j + 1 < s.len() && #[trigger] s[j] == '-'
            && s[j + 1] == '-') by {
            assert(s[j] == cs@[lo + j]);
            if j + 1 < s.len() {
                assert(s[j + 1] == cs@[lo + j + 1]);
            }
        }
        lemma_first_dashes_at(s, s.len() as int);
    }
    None
}

pub proof fn lemma_strip_dashes_skip(s: Seq<char>, a: int)
    requires
        0 <= a <= s.len(),
        forall|j: int| 0 <= j < a ==> #[trigger] s[j] == '-',
        a < s.len() ==> s[a] != '-',
    ensures
        strip_dashes(s) == s.subrange(a, s.len() as int),
    decreases a,
{
    if a > 0 {
        let t = s.drop_first();
        assert forall|j: int| 0 <= j < a - 1 implies #[trigger] t[j] == '-' by {
            assert(t[j] == s[j + 1]);
        }
        if a < s.len() {
            assert(t[a - 1] == s[a]);
        }
        lemma_strip_dashes_skip(t, a - 1);
        assert(t.subrange(a - 1, t.len() as int) =~= s.subrange(a, s.len() as int));
    } else {
        assert(s.subrange(0, s.len() as int) =~= s);
    }
}

/// The definition on the line `cs[lo..hi]`, as bounds of its name and value.
fn line_var_bounds(cs: &Vec<char>, lo: usize, hi: usize) -> (r: Option<((usize, usize), (usize, usize))>)
    requires
        lo <= hi <= cs@.len(),
    ensures
        match line_var(cs@.subrange(lo as int, hi as int)) {
            None => r is None,
            Some(d) => r matches Some(b) && b.0.0 <= b.0.1 <= cs@.len() && b.1.0 <= b.1.1
                <= cs@.len() && cs@.subrange(b.0.0 as int, b.0.1 as int) == d.0 && cs@.subrange(
                b.1.0 as int,
                b.1.1 as int,
            ) == d.1,
        },
{
    let ghost line = cs@.subrange(lo as int, hi as int);
    let (a, b) = trim_range(cs, lo, hi);
    let ghost t = cs@.subrange(a as int, b as int);
    let s = match find_dashes(cs, a, b) {
        Some(s) => s,
        None => return None,
    };
    let ghost rest = t.subrange(s - a, t.len() as int);
    assert(rest =~= cs@.subrange(s as int, b as int));
    let c = match find_char(cs, s, b, ':') {
        Some(c) => c,
        None => return None,
    };
    assert(rest.subrange(0, c - s) =~= cs@.subrange(s as int, c as int));
    let (ka, kb) = trim_range(cs, s, c);
    let ghost key = cs@.subrange(ka as int, kb as int);
    if kb - ka < 2 || cs[ka] != '-' || cs[ka + 1] != '-' {
        proof {
            if key.len() >= 2 {
                assert(key[0] == cs@[ka as int] && key[1] == cs@[ka + 1]);
            }
        }
        return None;
    }
    assert(key[0] == cs@[ka as int] && key[1] == cs@[ka + 1]);
    let mut na = ka;
    while na < kb && cs[na] == '-'
        invariant
            ka <= na <= kb <= cs@.len(),
            forall|j: int| ka <= j < na ==> #[trigger] cs@[j] == '-',
        decreases kb - na,
    {
        na = na + 1;
    }
    proof {
        assert forall|j: int| 0 <= j < na - ka implies #[trigger] key[j] == '-' by {
            assert(key[j] == cs@[ka + j]);
        }
        if na < kb {
            assert(key[na - ka] == cs@[na as int]);
        }
        lemma_strip_dashes_skip(key, na - ka);
        assert(key.subrange(na - ka, key.len() as int) =~= cs@.subrange(na as int, kb as int));
    }
    let ghost after = rest.subrange(c - s + 1, rest.len() as int);
    assert(after =~= cs@.subrange(c + 1, b as int));
    let end = match find_char(cs, c + 1, b, ';') {
        Some(e) => e,
        None => b,
    };
    assert(before_semicolon(after) =~= cs@.subrange(c + 1, end as int));
    let (va, vb) = trim_range(cs, c + 1, end);
    Some(((na, kb), (va, vb)))
}

/// The custom properties that a theme file defines, in order; a name
/// defined twice appears twice, and `css_var` reads the later definition.
pub fn extract_vars(contents: &str) -> (r: Vec<(String, String)>)
    ensures
        pair_views(r@) == css_defs(contents@),
{
    let cs = chars_of(contents);
    let lines = split_ranges(&cs, '\n');
    let ghost ls = split_on(cs@, '\n');
    let mut defs: Vec<(String, String)> = Vec::new();
    let mut k: usize = 0;
    while k < lines.len()
        invariant
            cs@ == contents@,
            ls == split_on(cs@, '\n'),
            k <= lines@.len() == ls.len(),
            forall|j: int|
                0 <= j < lines@.len() ==> {
                    &&& (#[trigger] lines@[j]).0 <= lines@[j].1 <= cs@.len()
                    &&& cs@.subrange(lines@[j].0 as int, lines@[j].1 as int) == ls[j]
                },
            pair_views(defs@) == defs_of_lines(ls.take(k as int)),
        decreases lines.len() - k,
    {
        let (lo, hi) = lines[k];
        assert(ls.take(k + 1).drop_last() =~= ls.take(k as int));
        assert(ls.take(k + 1).last() == ls[k as int]);
        match line_var_bounds(&cs, lo, hi) {
            Some(((na, nb), (va, vb))) => {
                let name = string_of_range(contents, na, nb);
                let value = string_of_range(contents, va, vb);
                let ghost before = pair_views(defs@);
                defs.push((name, value));
                assert(pair_views(defs@) =~= before.push((name@, value@)));
            },
            None => {},
        }
        k = k + 1;
    }
    assert(ls.take(k as int) =~= ls);
    defs
}

/// The value that the last definition of `name` in `vars` gives it.
pub fn css_var(vars: &Vec<(String, String)>, name: &str) -> (r: Option<String>)
    ensures
        match last_value(pair_views(vars@), name@) {
            Some(v) => r matches Some(s) && s@ == v,
            None => r is None,
        },
{
    let ghost all = pair_views(vars@);
    let wanted = chars_of(name);
    let mut i = vars.len();
    assert(all.take(i as int) =~= all);
    while i > 0
        invariant
            i <= vars@.len(),
            all == pair_views(vars@),
            wanted@ == name@,
            last_value(all, name@) == last_value(all.take(i as int), name@),
        decreases i,
    {
        let ghost p = all.take(i as int);
        assert(p.drop_last() =~= all.take(i - 1));
        assert(p.last() == (vars@[i - 1].0@, vars@[i - 1].1@));
        let key = chars_of(vars[i - 1].0.as_str());
        if crate::text::range_is(&key, 0, key.len(), name) {
            assert(key@.subrange(0, key@.len() as int) =~= key@);
            return Some(vars[i - 1].1.clone());
        }
        assert(key@.subrange(0, key@.len() as int) =~= key@);
        i = i - 1;
    }
    None
}

/// A colour with straight (not premultiplied) alpha.
#[derive(PartialEq, Eq, Clone, Copy, Debug, Structural)]
pub struct Rgba {
    pub r: u8,
    pub g: u8,
    pub b: u8,
    pub a: u8,
}

/// The value of a hexadecimal digit.
pub open spec fn hex_digit(c: char) -> Option<u8> {
    let u = c as u32;
    if 48 <= u <= 57 {
        Some((u - 48) as u8)
    } else if 97 <= u <= 102 {
        Some((u - 87) as u8)
    } else if 65 <= u <= 70 {
        Some((u - 55) as u8)
    } else {
        None
    }
}

/// What `u8::from_str_radix(_, 16)` gives for two characters: two digits, or
/// a `+` and one digit.
pub open spec fn hex_byte(c0: char, c1: char) -> Option<u8> {
    if c0 == '+' {
        hex_digit(c1)
    } else {
        match (hex_digit(c0), hex_digit(c1)) {
            (Some(h), Some(l)) => Some((h * 16 + l) as u8),
            _ => None,
        }
    }
}

/// The colour that six or eight hexadecimal characters spell (red, green,
/// blue, then alpha, 255 when absent).
pub open spec fn color_of_hex(h: Seq<char>) -> Option<Rgba> {
    if h.len() == 6 || h.len() == 8 {
        match (hex_byte(h[0], h[1]), hex_byte(h[2], h[3]), hex_byte(h[4], h[5])) {
            (Some(r), Some(g), Some(b)) => if h.len() == 6 {
                Some(Rgba { r, g, b, a: 255 })
            } else {
                match hex_byte(h[6], h[7]) {
                    Some(a) => Some(Rgba { r, g, b, a }),
                    None => None,
                }
            },
            _ => None,
        }
    } else {
        None
    }
}

/// The colour that `#rrggbb` or `#rrggbbaa` spells, the `#` being optional
/// and surrounding whitespace ignored.
pub open spec fn hex_color(s: Seq<char>) -> Option<Rgba> {
    let t = trim(s);
    color_of_hex(
        if t.len() > 0 && t[0] == '#' {
            t.drop_first()
        } else {
            t
        },
    )
}

fn hex_digit_of(c: char) -> (r: Option<u8>)
    ensures
        r == hex_digit(c),
{
    let u = c as u32;
    if 48 <= u && u <= 57 {
        Some((u - 48) as u8)
    } else if 97 <= u && u <= 102 {
        Some((u - 87) as u8)
    } else if 65 <= u && u <= 70 {
        Some((u - 55) as u8)
    } else {
        None
    }
}

fn hex_byte_of(c0: char, c1: char) -> (r: Option<u8>)
    ensures
        r == hex_byte(c0, c1),
{
    if c0 == '+' {
        return hex_digit_of(c1);
    }
    match (hex_digit_of(c0), hex_digit_of(c1)) {
        (Some(h), Some(l)) => Some(h * 16 + l),
        _ => None,
    }
}

fn color_of_range(cs: &Vec<char>, start: usize, end: usize) -> (r: Option<Rgba>)
    requires
        start <= end <= cs@.len(),
    ensures
        r == color_of_hex(cs@.subrange(start as int, end as int)),
{
    let ghost h = cs@.subrange(start as int, end as int);
    let n = end - start;
    if n != 6 && n != 8 {
        return None;
    }
    assert(h[0] == cs@[start as int] && h[1] == cs@[start + 1] && h[2] == cs@[start + 2]);
    assert(h[3] == cs@[start + 3] && h[4] == cs@[start + 4] && h[5] == cs@[start + 5]);
    let r = hex_byte_of(cs[start], cs[start + 1]);
    let g = hex_byte_of(cs[start + 2], cs[start + 3]);
    let bl = hex_byte_of(cs[start + 4], cs[start + 5]);
    match (r, g, bl) {
        (Some(r), Some(g), Some(bl)) => {
            if n == 6 {
                Some(Rgba { r, g, b: bl, a: 255 })
            } else {
                assert(h[6] == cs@[start + 6] && h[7] == cs@[start + 7]);
                match hex_byte_of(cs[start + 6], cs[start + 7]) {
                    Some(al) => Some(Rgba { r, g, b: bl, a: al }),
                    None => None,
                }
            }
        },
        _ => None,
    }
}

/// Reads a hexadecimal colour such as `#0f1117` or `283457ff`.
pub fn parse_hex_color(s: &str) -> (r: Option<Rgba>)
    ensures
        r == hex_color(s@),
{
    let cs = chars_of(s);
    let (a, b) = trim_range(&cs, 0, cs.len());
    assert(cs@.subrange(0, cs@.len() as int) =~= cs@);
    let ghost t = cs@.subrange(a as int, b as int);
    let start = if a < b && cs[a] == '#' {
        a + 1
    } else {
        a
    };
    assert(cs@.subrange(start as int, b as int) =~= (if t.len() > 0 && t[0] == '#' {
        t.drop_first()
    } else {
        t
    }));
    color_of_range(&cs, start, b)
}

} // verus!
