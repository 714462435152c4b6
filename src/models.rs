//! The record model: one key binding, the ordered collection of them, the
//! query predicate over an entry, and the two exports of a collection.
use vstd::prelude::*;
use crate::icons::{get_icon, icon_for};
use crate::text::{
    chars_of, contains_chars, contains_seq, join_strings, join_with, lower_of, lowercase,
    split_on, split_ranges, views_of,
};

verus! {

/// One parsed key binding. Every field is present; an empty string stands
/// for "no value".
#[derive(Debug)]
pub struct KeyBindEntry {
    /// Modifier names joined with `+` (e.g. `SUPER+SHIFT`).
    pub modifiers: String,
    /// Key name as reported (e.g. `Return`).
    pub key: String,
    /// Dispatcher, followed by a space and its argument when there is one.
    pub command: String,
    /// Free-text description.
    pub description: String,
}

/// The value of a `KeyBindEntry`: its four fields as character sequences.
pub struct EntryView {
    pub modifiers: Seq<char>,
    pub key: Seq<char>,
    pub command: Seq<char>,
    pub description: Seq<char>,
}

impl View for KeyBindEntry {
    type V = EntryView;

    open spec fn view(&self) -> EntryView {
        EntryView {
            modifiers: self.modifiers@,
            key: self.key@,
            command: self.command@,
            description: self.description@,
        }
    }
}

/// Which fields take part in matching a query.
#[derive(Clone, Copy, Debug, PartialEq, Eq, Structural)]
pub struct SearchOptions {
    /// The modifiers and the key.
    pub keybind: bool,
    /// The command.
    pub command: bool,
    /// The description.
    pub description: bool,
}

impl Default for SearchOptions {
    fn default() -> (r: Self)
        ensures
            r.keybind && r.command && r.description,
    {
        SearchOptions { keybind: true, command: true, description: true }
    }
}

/// Every field takes part.
pub open spec fn all_fields() -> SearchOptions {
    SearchOptions { keybind: true, command: true, description: true }
}

/// Case-insensitively, `query` is part of a field of `e` that `options`
/// enables; the keybind field matches through the modifiers or the key.
pub open spec fn entry_matches(e: EntryView, query: Seq<char>, options: SearchOptions) -> bool {
    let q = lower_of(query);
    ||| options.keybind && (contains_seq(lower_of(e.modifiers), q) || contains_seq(
        lower_of(e.key),
        q,
    ))
    ||| options.command && contains_seq(lower_of(e.command), q)
    ||| options.description && contains_seq(lower_of(e.description), q)
}

/// An entry is shown for `query`: every entry is shown for an empty query.
pub open spec fn passes(e: EntryView, query: Seq<char>, options: SearchOptions) -> bool {
    query.len() == 0 || entry_matches(e, query, options)
}

/// Whether `field` holds `query_lower` once lowered.
fn field_contains(field: &String, query_lower: &Vec<char>) -> (r: bool)
    ensures
        r == contains_seq(lower_of(field@), query_lower@),
{
    let lowered = lowercase(field.as_str());
    let cs = chars_of(lowered.as_str());
    contains_chars(&cs, query_lower)
}

impl KeyBindEntry {
    pub fn new(modifiers: String, key: String, command: String, description: String) -> (r: Self)
        ensures
            r.modifiers == modifiers,
            r.key == key,
            r.command == command,
            r.description == description,
    {
        KeyBindEntry { modifiers, key, command, description }
    }

    /// Whether the entry matches `query` in a field that `options` enables.
    pub fn matches(&self, query: &str, options: &SearchOptions) -> (r: bool)
        ensures
            r == entry_matches(self@, query@, *options),
    {
        let lowered = lowercase(query);
        let q = chars_of(lowered.as_str());
        let by_keybind = options.keybind && (field_contains(&self.modifiers, &q) || field_contains(
            &self.key,
            &q,
        ));
        let by_command = options.command && field_contains(&self.command, &q);
        let by_description = options.description && field_contains(&self.description, &q);
        by_keybind || by_command || by_description
    }
}

impl Clone for KeyBindEntry {
    fn clone(&self) -> (r: Self)
        ensures
            r == *self,
    {
        KeyBindEntry {
            modifiers: self.modifiers.clone(),
            key: self.key.clone(),
            command: self.command.clone(),
            description: self.description.clone(),
        }
    }
}

/// The bindings in source order; duplicates are kept.
#[derive(Debug)]
pub struct KeyBindings {
    pub entries: Vec<KeyBindEntry>,
}

/// The values of a sequence of entries.
pub open spec fn entry_views(entries: Seq<KeyBindEntry>) -> Seq<EntryView> {
    entries.map_values(|e: KeyBindEntry| e@)
}

impl View for KeyBindings {
    type V = Seq<EntryView>;

    open spec fn view(&self) -> Seq<EntryView> {
        entry_views(self.entries@)
    }
}

/// A glyph for each modifier and for the key, joined with ` + `; without
/// modifiers, the key's glyph alone.
pub open spec fn keybind_label(e: EntryView) -> Seq<char> {
    if e.modifiers.len() == 0 {
        icon_for(e.key)
    } else {
        join_with(
            split_on(e.modifiers, '+').map_values(|t: Seq<char>| icon_for(t)).push(icon_for(e.key)),
            " + "@,
        )
    }
}

/// One line of the menu export: the label, ` : `, then the description, or
/// the command when the description is empty.
pub open spec fn menu_line(e: EntryView) -> Seq<char> {
    keybind_label(e) + " : "@ + (if e.description.len() > 0 {
        e.description
    } else {
        e.command
    })
}

/// The menu export: one line per entry, joined with newlines.
pub open spec fn menu_text(es: Seq<EntryView>) -> Seq<char> {
    join_with(es.map_values(|e: EntryView| menu_line(e)), "\n"@)
}

/// A lower-case hexadecimal digit for `d` below 16.
pub open spec fn hex_lower(d: u32) -> char {
    if d < 10 {
        (48 + d) as char
    } else {
        (87 + d) as char
    }
}

/// How one character stands inside a JSON string literal: `"` and `\`
/// after a backslash, the controls backspace, tab, line feed, form feed and
/// carriage return as `\b \t \n \f \r`, any other control below 0x20 as
/// `\u00` and two hexadecimal digits, and every other character as itself.
pub open spec fn json_escape(c: char) -> Seq<char> {
    let u = c as u32;
    if c == '"' {
        seq!['\\', '"']
    } else if c == '\\' {
        seq!['\\', '\\']
    } else if u == 8 {
        seq!['\\', 'b']
    } else if u == 9 {
        seq!['\\', 't']
    } else if u == 10 {
        seq!['\\', 'n']
    } else if u == 12 {
        seq!['\\', 'f']
    } else if u == 13 {
        seq!['\\', 'r']
    } else if u < 0x20 {
        seq!['\\', 'u', '0', '0', hex_lower(u / 16), hex_lower(u % 16)]
    } else {
        seq![c]
    }
}

/// The characters of `s`, each escaped.
pub open spec fn json_escaped(s: Seq<char>) -> Seq<char>
    decreases s.len(),
{
    if s.len() == 0 {
        Seq::empty()
    } else {
        json_escaped(s.drop_last()) + json_escape(s.last())
    }
}

/// The JSON string literal that `serde_json` writes for `s`.
pub open spec fn json_string_of(s: Seq<char>) -> Seq<char> {
    seq!['"'] + json_escaped(s) + seq!['"']
}

/// `serde_json`'s error type, handed on unchanged when a string cannot be
/// written.
#[verifier::external_type_specification]
#[verifier::external_body]
pub struct ExJsonError(serde_json::Error);

/// Relies on `serde_json::to_string` on a `str`: it writes the escaped
/// string between quotes into a `Vec<u8>`, which cannot fail.
#[verifier::external_body]
fn json_quote(s: &str) -> (r: Result<String, serde_json::Error>)
    ensures
        r is Ok,
        r matches Ok(q) ==> q@ == json_string_of(s@),
{
    serde_json::to_string(s)
}

/// One entry as a member of the `entries` array, indented as the pretty
/// printer of `serde_json` indents it.
pub open spec fn json_entry(e: EntryView) -> Seq<char> {
    "    {\n      \"modifiers\": "@ + json_string_of(e.modifiers) + ",\n      \"key\": "@
        + json_string_of(e.key) + ",\n      \"command\": "@ + json_string_of(e.command)
        + ",\n      \"description\": "@ + json_string_of(e.description) + "\n    }"@
}

/// The structured export: an object whose `entries` array holds one object
/// per entry, with the fields `modifiers`, `key`, `command`, `description`.
pub open spec fn json_document(es: Seq<EntryView>) -> Seq<char> {
    if es.len() == 0 {
        "{\n  \"entries\": []\n}"@
    } else {
        "{\n  \"entries\": [\n"@ + join_with(es.map_values(|e: EntryView| json_entry(e)), ",\n"@)
            + "\n  ]\n}"@
    }
}

fn entry_json(e: &KeyBindEntry) -> (r: Result<String, serde_json::Error>)
    ensures
        r matches Ok(t) && t@ == json_entry(e@),
{
    let modifiers = match json_quote(e.modifiers.as_str()) {
        Ok(q) => q,
        Err(err) => return Err(err),
    };
    let key = match json_quote(e.key.as_str()) {
        Ok(q) => q,
        Err(err) => return Err(err),
    };
    let command = match json_quote(e.command.as_str()) {
        Ok(q) => q,
        Err(err) => return Err(err),
    };
    let description = match json_quote(e.description.as_str()) {
        Ok(q) => q,
        Err(err) => return Err(err),
    };
    let mut t = String::from_str("    {\n      \"modifiers\": ");
    t.append(modifiers.as_str());
    t.append(",\n      \"key\": ");
    t.append(key.as_str());
    t.append(",\n      \"command\": ");
    t.append(command.as_str());
    t.append(",\n      \"description\": ");
    t.append(description.as_str());
    t.append("\n    }");
    Ok(t)
}

fn keybind_text(e: &KeyBindEntry) -> (r: String)
    ensures
        r@ == keybind_label(e@),
{
    if e.modifiers.as_str().is_empty() {
        return get_icon(e.key.as_str());
    }
    let cs = chars_of(e.modifiers.as_str());
    let ranges = split_ranges(&cs, '+');
    let ghost tokens = split_on(e.modifiers@, '+');
    let mut parts: Vec<String> = Vec::new();
    let mut k: usize = 0;
    while k < ranges.len()
        invariant
            k <= ranges@.len() == tokens.len(),
            cs@ == e.modifiers@,
            tokens == split_on(e.modifiers@, '+'),
            forall|j: int|
                0 <= j < ranges@.len() ==> {
                    &&& (#[trigger] ranges@[j]).0 <= ranges@[j].1 <= cs@.len()
                    &&& cs@.subrange(ranges@[j].0 as int, ranges@[j].1 as int) == tokens[j]
                },
            views_of(parts@) == tokens.take(k as int).map_values(|t: Seq<char>| icon_for(t)),
        decreases ranges.len() - k,
    {
        let (a, b) = ranges[k];
        assert(cs@.subrange(a as int, b as int) == tokens[k as int]);
        let icon = get_icon(e.modifiers.as_str().substring_char(a, b));
        assert(icon@ == icon_for(tokens[k as int]));
        let ghost before = views_of(parts@);
        parts.push(icon);
        assert(views_of(parts@) =~= before.push(icon@));
        assert(views_of(parts@) =~= tokens.take(k + 1).map_values(|t: Seq<char>| icon_for(t)));
        k = k + 1;
    }
    assert(tokens.take(k as int) =~= tokens);
    parts.push(get_icon(e.key.as_str()));
    assert(views_of(parts@) =~= tokens.map_values(|t: Seq<char>| icon_for(t)).push(
        icon_for(e.key@),
    ));
    join_strings(&parts, " + ")
}

fn menu_entry(e: &KeyBindEntry) -> (r: String)
    ensures
        r@ == menu_line(e@),
{
    let mut line = keybind_text(e);
    line.append(" : ");
    if !e.description.as_str().is_empty() {
        line.append(e.description.as_str());
    } else {
        line.append(e.command.as_str());
    }
    line
}

impl KeyBindings {
    pub fn new() -> (r: Self)
        ensures
            r@ == Seq::<EntryView>::empty(),
    {
        KeyBindings { entries: Vec::new() }
    }

    /// Appends `entry` after the entries already held.
    pub fn add_entry(&mut self, entry: KeyBindEntry)
        ensures
            final(self).entries@ == old(self).entries@.push(entry),
            final(self)@ == old(self)@.push(entry@),
    {
        self.entries.push(entry);
        assert(self@ =~= old(self)@.push(entry@));
    }

    /// The entries shown for `query` when every field is searched, in order.
    pub fn filter(&self, query: &str) -> (r: Vec<&KeyBindEntry>)
        ensures
            r@.map_values(|e: &KeyBindEntry| e@) == self@.filter(
                |e: EntryView| passes(e, query@, all_fields()),
            ),
    {
        let options = SearchOptions::default();
        let ghost pred = |e: EntryView| passes(e, query@, all_fields());
        let mut r: Vec<&KeyBindEntry> = Vec::new();
        let mut i: usize = 0;
        while i < self.entries.len()
            invariant
                i <= self@.len(),
                options == all_fields(),
                pred == (|e: EntryView| passes(e, query@, all_fields())),
                r@.map_values(|e: &KeyBindEntry| e@) == self@.take(i as int).filter(pred),
            decreases self.entries.len() - i,
        {
            let e = &self.entries[i];
            assert(self@.take(i + 1) =~= self@.take(i as int).push(e@));
            proof {
                self@.take(i as int).lemma_filter_push(e@, pred);
            }
            if query.is_empty() || e.matches(query, &options) {
                r.push(e);
            }
            assert(r@.map_values(|e: &KeyBindEntry| e@) =~= self@.take(i + 1).filter(pred));
            i = i + 1;
        }
        assert(self@.take(i as int) =~= self@);
        r
    }

    /// The structured export, as `serde_json`'s pretty printer lays it out.
    pub fn to_json(&self) -> (r: Result<String, serde_json::Error>)
        ensures
            r matches Ok(t) && t@ == json_document(self@),
    {
        if self.entries.len() == 0 {
            return Ok(String::from_str("{\n  \"entries\": []\n}"));
        }
        let mut objects: Vec<String> = Vec::new();
        let mut i: usize = 0;
        while i < self.entries.len()
            invariant
                i <= self@.len(),
                views_of(objects@) == self@.take(i as int).map_values(
                    |e: EntryView| json_entry(e),
                ),
            decreases self.entries.len() - i,
        {
            let object = match entry_json(&self.entries[i]) {
                Ok(t) => t,
                Err(err) => return Err(err),
            };
            assert(self@[i as int] == self.entries@[i as int]@);
            let ghost before = views_of(objects@);
            objects.push(object);
            assert(views_of(objects@) =~= before.push(object@));
            assert(views_of(objects@) =~= self@.take(i + 1).map_values(
                |e: EntryView| json_entry(e),
            ));
            i = i + 1;
        }
        assert(self@.take(i as int) =~= self@);
        let mut doc = String::from_str("{\n  \"entries\": [\n");
        let body = join_strings(&objects, ",\n");
        doc.append(body.as_str());
        doc.append("\n  ]\n}");
        Ok(doc)
    }

    /// The menu export: one line per entry, joined with newlines.
    pub fn to_dmenu(&self) -> (r: String)
        ensures
            r@ == menu_text(self@),
    {
        let mut lines: Vec<String> = Vec::new();
        let mut i: usize = 0;
        while i < self.entries.len()
            invariant
                i <= self@.len(),
                views_of(lines@) == self@.take(i as int).map_values(|e: EntryView| menu_line(e)),
            decreases self.entries.len() - i,
        {
            assert(self@[i as int] == self.entries@[i as int]@);
            let line = menu_entry(&self.entries[i]);
            let ghost before = views_of(lines@);
            lines.push(line);
            assert(views_of(lines@) =~= before.push(line@));
            assert(views_of(lines@) =~= self@.take(i + 1).map_values(
                |e: EntryView| menu_line(e),
            ));
            i = i + 1;
        }
        assert(self@.take(i as int) =~= self@);
        join_strings(&lines, "\n")
    }
}

impl Default for KeyBindings {
    fn default() -> (r: Self)
        ensures
            r@ == Seq::<EntryView>::empty(),
    {
        KeyBindings::new()
    }
}

} // verus!
