//! The block parser: the compositor's bind report, a sequence of blocks of
//! `name: value` lines separated by blank lines, read into entries.
use vstd::prelude::*;
use crate::models::{EntryView, KeyBindEntry, KeyBindings};
use crate::modmask::{modmask_label, modmask_to_string};
use crate::text::{
    chars_of, find_char, first_index_of, parse_u32_range, parse_u32_spec, range_is, split_on,
    split_ranges, string_of_range, trim, trim_end, trim_start, trim_range,
};

verus! {

/// A line read as a field: the trimmed text before its first colon is the
/// name and the trimmed text after it the value; a line without a colon is
/// no field.
pub open spec fn line_field(line: Seq<char>) -> Option<(Seq<char>, Seq<char>)> {
    let t = trim(line);
    match first_index_of(t, ':') {
        Some(i) => Some((trim(t.subrange(0, i)), trim(t.subrange(i + 1, t.len() as int)))),
        None => None,
    }
}

/// The value that the last of `lines` naming `name` gives it: a later line
/// overrides an earlier one.
pub open spec fn field_value(lines: Seq<Seq<char>>, name: Seq<char>) -> Option<Seq<char>>
    decreases lines.len(),
{
    if lines.len() == 0 {
        None
    } else {
        let earlier = field_value(lines.drop_last(), name);
        match line_field(lines.last()) {
            Some(f) => if f.0 == name {
                Some(f.1)
            } else {
                earlier
            },
            None => earlier,
        }
    }
}

/// The value of the field `name` in a block.
pub open spec fn block_field(block: Seq<char>, name: Seq<char>) -> Option<Seq<char>> {
    field_value(split_on(block, '\n'), name)
}

/// The value of an optional field, empty where the block lacks it.
pub open spec fn optional_field(block: Seq<char>, name: Seq<char>) -> Seq<char> {
    match block_field(block, name) {
        Some(v) => v,
        None => Seq::empty(),
    }
}

/// The dispatcher alone when the argument is empty, else the dispatcher, a
/// space and the argument.
pub open spec fn command_of(dispatcher: Seq<char>, arg: Seq<char>) -> Seq<char> {
    if arg.len() == 0 {
        dispatcher
    } else {
        dispatcher + seq![' '] + arg
    }
}

/// The block names every required field: a `modmask` that reads as an
/// unsigned 32-bit number, and a non-empty `key` and `dispatcher`.
pub open spec fn has_required_fields(block: Seq<char>) -> bool {
    &&& block_field(block, "modmask"@) matches Some(m) && parse_u32_spec(m) is Some
    &&& block_field(block, "key"@) matches Some(k) && k.len() > 0
    &&& block_field(block, "dispatcher"@) matches Some(d) && d.len() > 0
}

/// The entry that a block describes, if it has its required fields.
pub open spec fn block_entry(block: Seq<char>) -> Option<EntryView> {
    if has_required_fields(block) {
        let modmask = parse_u32_spec(block_field(block, "modmask"@)->0)->0;
        Some(
            EntryView {
                modifiers: modmask_label(modmask),
                key: block_field(block, "key"@)->0,
                command: command_of(
                    block_field(block, "dispatcher"@)->0,
                    optional_field(block, "arg"@),
                ),
                description: optional_field(block, "description"@),
            },
        )
    } else {
        None
    }
}

/// The pieces of `s` between occurrences of a blank line (`\n\n`), matched
/// from the left without overlap, as `str::split` matches them.
pub open spec fn split_blocks(s: Seq<char>) -> Seq<Seq<char>>
    decreases s.len(),
{
    if s.len() >= 2 && s[0] == '\n' && s[1] == '\n' {
        seq![Seq::<char>::empty()] + split_blocks(s.skip(2))
    } else if s.len() == 0 {
        seq![Seq::<char>::empty()]
    } else {
        let rest = split_blocks(s.skip(1));
        rest.update(0, seq![s[0]] + rest[0])
    }
}

/// The entries of the blocks that are not blank, in order.
pub open spec fn entries_of_blocks(blocks: Seq<Seq<char>>) -> Seq<EntryView>
    decreases blocks.len(),
{
    if blocks.len() == 0 {
        Seq::empty()
    } else {
        let earlier = entries_of_blocks(blocks.drop_last());
        let b = blocks.last();
        if trim(b).len() > 0 && block_entry(b) is Some {
            earlier.push(block_entry(b)->0)
        } else {
            earlier
        }
    }
}

/// The entries that a bind report describes.
pub open spec fn parse_report(text: Seq<char>) -> Seq<EntryView> {
    entries_of_blocks(split_blocks(text))
}

/// `c` put in front of the first piece of `pieces`.
pub open spec fn prepend_to_first(c: Seq<char>, pieces: Seq<Seq<char>>) -> Seq<Seq<char>> {
    pieces.update(0, c + pieces[0])
}

pub proof fn lemma_split_blocks_nonempty(s: Seq<char>)
    ensures
        split_blocks(s).len() >= 1,
    decreases s.len(),
{
    if s.len() >= 2 && s[0] == '\n' && s[1] == '\n' {
        lemma_split_blocks_nonempty(s.skip(2));
    } else if s.len() > 0 {
        lemma_split_blocks_nonempty(s.skip(1));
    }
}

/// Where a field slot stands for the value `v`: absent, or the bounds of `v`
/// in `cs`.
pub open spec fn slot_holds(cs: Seq<char>, slot: Option<(usize, usize)>, v: Option<Seq<char>>) -> bool {
    match v {
        None => slot is None,
        Some(x) => slot matches Some(r) && r.0 <= r.1 <= cs.len() && cs.subrange(
            r.0 as int,
            r.1 as int,
        ) == x,
    }
}

/// The slot after a line with the field `(name, value)` bounds, read for
/// the field `wanted`.
fn update_slot(
    cs: &Vec<char>,
    slot: Option<(usize, usize)>,
    name: (usize, usize),
    value: (usize, usize),
    wanted: &str,
) -> (r: Option<(usize, usize)>)
    requires
        name.0 <= name.1 <= cs@.len(),
        value.0 <= value.1 <= cs@.len(),
    ensures
        r == (if cs@.subrange(name.0 as int, name.1 as int) == wanted@ {
            Some(value)
        } else {
            slot
        }),
{
    if range_is(cs, name.0, name.1, wanted) {
        Some(value)
    } else {
        slot
    }
}

/// A slot's value as a new `String`, empty when the slot is absent.
fn slot_string(block: &str, slot: Option<(usize, usize)>) -> (r: String)
    requires
        slot matches Some(b) ==> b.0 <= b.1 <= block@.len(),
    ensures
        slot matches Some(b) ==> r@ == block@.subrange(b.0 as int, b.1 as int),
        slot is None ==> r@ == Seq::<char>::empty(),
{
    match slot {
        Some((a, b)) => string_of_range(block, a, b),
        None => String::new(),
    }
}

/// Reads one block into an entry; `None` when a required field is missing,
/// the `modmask` is not an unsigned number, or the `key` or `dispatcher` is
/// empty.
pub fn parse_bind_block(block: &str) -> (r: Option<KeyBindEntry>)
    ensures
        match block_entry(block@) {
            Some(v) => r matches Some(e) && e@ == v,
            None => r is None,
        },
{
    let cs = chars_of(block);
    let lines = split_ranges(&cs, '\n');
    let ghost ls = split_on(cs@, '\n');
    let mut modmask: Option<(usize, usize)> = None;
    let mut key: Option<(usize, usize)> = None;
    let mut dispatcher: Option<(usize, usize)> = None;
    let mut arg: Option<(usize, usize)> = None;
    let mut description: Option<(usize, usize)> = None;
    let mut k: usize = 0;
    while k < lines.len()
        invariant
            cs@ == block@,
            ls == split_on(cs@, '\n'),
            k <= lines@.len() == ls.len(),
            forall|j: int|
                0 <= j < lines@.len() ==> {
                    &&& (#[trigger] lines@[j]).0 <= lines@[j].1 <= cs@.len()
                    &&& cs@.subrange(lines@[j].0 as int, lines@[j].1 as int) == ls[j]
                },
            slot_holds(cs@, modmask, field_value(ls.take(k as int), "modmask"@)),
            slot_holds(cs@, key, field_value(ls.take(k as int), "key"@)),
            slot_holds(cs@, dispatcher, field_value(ls.take(k as int), "dispatcher"@)),
            slot_holds(cs@, arg, field_value(ls.take(k as int), "arg"@)),
            slot_holds(cs@, description, field_value(ls.take(k as int), "description"@)),
        decreases lines.len() - k,
    {
        let (lo, hi) = lines[k];
        let ghost line = ls[k as int];
        assert(cs@.subrange(lo as int, hi as int) == line);
        let ghost prefix = ls.take(k + 1);
        assert(prefix.drop_last() =~= ls.take(k as int));
        assert(prefix.last() == line);
        let (a, b) = trim_range(&cs, lo, hi);
        let ghost t = cs@.subrange(a as int, b as int);
        assert(t == trim(line));
        match find_char(&cs, a, b, ':') {
            Some(c) => {
                assert(first_index_of(t, ':') == Some((c - a) as int));
                let name = trim_range(&cs, a, c);
                let value = trim_range(&cs, c + 1, b);
                assert(t.subrange(0, c - a) =~= cs@.subrange(a as int, c as int));
                assert(t.subrange(c - a + 1, t.len() as int) =~= cs@.subrange(c + 1, b as int));
                assert(line_field(line) == Some(
                    (
                        cs@.subrange(name.0 as int, name.1 as int),
                        cs@.subrange(value.0 as int, value.1 as int),
                    ),
                ));
                modmask = update_slot(&cs, modmask, name, value, "modmask");
                key = update_slot(&cs, key, name, value, "key");
                dispatcher = update_slot(&cs, dispatcher, name, value, "dispatcher");
                arg = update_slot(&cs, arg, name, value, "arg");
                description = update_slot(&cs, description, name, value, "description");
            },
            None => {
                assert(line_field(line) is None);
            },
        }
        k = k + 1;
    }
    assert(ls.take(k as int) =~= ls);
    let (ma, mb) = match modmask {
        Some(m) => m,
        None => return None,
    };
    let mask = match parse_u32_range(&cs, ma, mb) {
        Some(m) => m,
        None => return None,
    };
    match key {
        Some((a, b)) => if a == b {
            return None;
        },
        None => return None,
    }
    match dispatcher {
        Some((a, b)) => if a == b {
            return None;
        },
        None => return None,
    }
    proof {
        reveal_strlit(" ");
    }
    let key_text = slot_string(block, key);
    let mut command = slot_string(block, dispatcher);
    let arg_text = slot_string(block, arg);
    let description_text = slot_string(block, description);
    if !arg_text.as_str().is_empty() {
        command.append(" ");
        command.append(arg_text.as_str());
    }
    let modifiers = modmask_to_string(mask);
    assert(" "@ =~= seq![' ']);
    assert(has_required_fields(block@));
    assert(key_text@ == block_field(block@, "key"@)->0);
    assert(description_text@ == optional_field(block@, "description"@));
    assert(arg_text@ == optional_field(block@, "arg"@));
    assert(command@ == command_of(block_field(block@, "dispatcher"@)->0, arg_text@));
    assert(modifiers@ == modmask_label(parse_u32_spec(block_field(block@, "modmask"@)->0)->0));
    Some(KeyBindEntry::new(modifiers, key_text, command, description_text))
}

/// Reads a bind report into its entries, in source order. Blocks are
/// separated by blank lines; blank blocks, and blocks that lack a required
/// field, give no entry. Never fails.
pub fn parse_binds_output(output: &str) -> (r: KeyBindings)
    ensures
        r@ == parse_report(output@),
{
    let cs = chars_of(output);
    let n = cs.len();
    let mut keybindings = KeyBindings::new();
    let ghost s = cs@;
    let ghost mut done: Seq<Seq<char>> = Seq::empty();
    let mut start: usize = 0;
    let mut i: usize = 0;
    assert(s.skip(0) =~= s);
    proof {
        lemma_split_blocks_nonempty(s);
    }
    assert(prepend_to_first(Seq::empty(), split_blocks(s)) =~= split_blocks(s));
    while i < n
        invariant
            s == cs@,
            s == output@,
            n == s.len(),
            start <= i <= n,
            split_blocks(s) == done + prepend_to_first(
                s.subrange(start as int, i as int),
                split_blocks(s.skip(i as int)),
            ),
            keybindings@ == entries_of_blocks(done),
        decreases n - i,
    {
        let ghost cur = s.subrange(start as int, i as int);
        let ghost rest = s.skip(i as int);
        if i + 1 < n && cs[i] == '\n' && cs[i + 1] == '\n' {
            assert(rest[0] == '\n' && rest[1] == '\n');
            assert(rest.skip(2) =~= s.skip(i + 2));
            let ghost after = split_blocks(s.skip(i + 2));
            proof {
                lemma_split_blocks_nonempty(s.skip(i + 2));
            }
            assert(split_blocks(rest) == seq![Seq::<char>::empty()] + after);
            assert(prepend_to_first(cur, seq![Seq::<char>::empty()] + after) =~= seq![cur]
                + after);
            assert(prepend_to_first(Seq::empty(), after) =~= after);
            let (a, b) = trim_range(&cs, start, i);
            if a < b {
                if let Some(entry) = parse_bind_block(output.substring_char(start, i)) {
                    keybindings.add_entry(entry);
                }
            }
            assert(done.push(cur).drop_last() =~= done);
            proof {
                done = done.push(cur);
            }
            assert(s.subrange(i + 2, i + 2) =~= Seq::<char>::empty());
            assert(split_blocks(s) == done + prepend_to_first(
                s.subrange(i + 2, i + 2),
                split_blocks(s.skip(i + 2)),
            ));
            start = i + 2;
            i = i + 2;
        } else {
            assert(rest.len() >= 1);
            assert(rest[0] == s[i as int]);
            assert(rest.skip(1) =~= s.skip(i + 1));
            let ghost after = split_blocks(s.skip(i + 1));
            proof {
                lemma_split_blocks_nonempty(s.skip(i + 1));
            }
            assert(split_blocks(rest) == after.update(0, seq![s[i as int]] + after[0]));
            assert(s.subrange(start as int, i + 1) =~= cur.push(s[i as int]));
            assert(cur + (seq![s[i as int]] + after[0]) =~= cur.push(s[i as int]) + after[0]);
            assert(prepend_to_first(cur, after.update(0, seq![s[i as int]] + after[0]))
                =~= prepend_to_first(cur.push(s[i as int]), after));
            i = i + 1;
        }
    }
    let ghost cur = s.subrange(start as int, i as int);
    assert(s.skip(i as int) =~= Seq::<char>::empty());
    assert(split_blocks(s.skip(i as int)) =~= seq![Seq::<char>::empty()]);
    assert(prepend_to_first(cur, seq![Seq::<char>::empty()]) =~= seq![cur]);
    assert(split_blocks(s) =~= done.push(cur));
    assert(done.push(cur).drop_last() =~= done);
    let (a, b) = trim_range(&cs, start, i);
    if a < b {
        if let Some(entry) = parse_bind_block(output.substring_char(start, i)) {
            keybindings.add_entry(entry);
        }
    }
    keybindings
}

pub proof fn lemma_entries_of_blocks_concat(a: Seq<Seq<char>>, b: Seq<Seq<char>>)
    ensures
        entries_of_blocks(a + b) == entries_of_blocks(a) + entries_of_blocks(b),
    decreases b.len(),
{
    if b.len() == 0 {
        assert(a + b =~= a);
        assert(entries_of_blocks(a) + Seq::<EntryView>::empty() =~= entries_of_blocks(a));
    } else {
        let d = b.drop_last();
        lemma_entries_of_blocks_concat(a, d);
        assert((a + b).drop_last() =~= a + d);
        assert((a + b).last() == b.last());
        let e = entries_of_blocks(a);
        let f = entries_of_blocks(d);
        if trim(b.last()).len() > 0 && block_entry(b.last()) is Some {
            assert((e + f).push(block_entry(b.last())->0) =~= e + f.push(block_entry(b.last())->0));
        }
    }
}

pub proof fn lemma_entries_of_single(b: Seq<char>)
    ensures
        entries_of_blocks(seq![b]) == if trim(b).len() > 0 && block_entry(b) is Some {
            seq![block_entry(b)->0]
        } else {
            Seq::<EntryView>::empty()
        },
{
    assert(seq![b].drop_last() =~= Seq::<Seq<char>>::empty());
    assert(entries_of_blocks(Seq::<Seq<char>>::empty()) == Seq::<EntryView>::empty());
    assert(Seq::<EntryView>::empty().push(block_entry(b)->0) =~= seq![block_entry(b)->0]);
}

pub proof fn lemma_split_on_nonempty(s: Seq<char>, sep: char)
    ensures
        split_on(s, sep).len() >= 1,
    decreases s.len(),
{
    if s.len() > 0 {
        lemma_split_on_nonempty(s.drop_last(), sep);
    }
}

/// A block that lacks `modmask`, whose `modmask` is not an unsigned number,
/// or whose `key` or `dispatcher` is missing or empty, gives no entry: the
/// report reads as if it were not there.
pub proof fn lemma_incomplete_block_adds_nothing(
    before: Seq<Seq<char>>,
    block: Seq<char>,
    after: Seq<Seq<char>>,
)
    requires
        block_field(block, "modmask"@) is None || parse_u32_spec(block_field(block, "modmask"@)->0)
            is None || block_field(block, "key"@) is None || block_field(block, "dispatcher"@) is None
            || block_field(block, "key"@)->0.len() == 0 || block_field(block, "dispatcher"@)->0.len()
            == 0,
    ensures
        block_entry(block) is None,
        entries_of_blocks(before + seq![block] + after) == entries_of_blocks(before + after),
{
    lemma_entries_of_blocks_concat(before + seq![block], after);
    lemma_entries_of_blocks_concat(before, seq![block]);
    lemma_entries_of_blocks_concat(before, after);
    lemma_entries_of_single(block);
    assert(entries_of_blocks(before) + Seq::<EntryView>::empty() =~= entries_of_blocks(before));
}

/// `n` newline characters.
pub open spec fn newlines(n: nat) -> Seq<char> {
    Seq::new(n, |i: int| '\n')
}

/// A block as it stands between blank lines: not empty, neither starting nor
/// ending with a newline, and without a blank line inside.
pub open spec fn is_plain_block(b: Seq<char>) -> bool {
    &&& b.len() > 0
    &&& b[0] != '\n'
    &&& b.last() != '\n'
    &&& forall|i: int| 0 <= i < b.len() - 1 ==> !(#[trigger] b[i] == '\n' && b[i + 1] == '\n')
}

pub proof fn lemma_split_blocks_prefix(c: Seq<char>, r: Seq<char>)
    requires
        c.len() == 0 || c.last() != '\n',
        forall|i: int| 0 <= i < c.len() - 1 ==> !(#[trigger] c[i] == '\n' && c[i + 1] == '\n'),
    ensures
        split_blocks(c + r) == prepend_to_first(c, split_blocks(r)),
    decreases c.len(),
{
    lemma_split_blocks_nonempty(r);
    if c.len() == 0 {
        assert(c + r =~= r);
        let x = split_blocks(r);
        assert(c + x[0] =~= x[0]);
        assert(prepend_to_first(c, x) =~= x);
    } else {
        let s = c + r;
        let t = c.drop_first();
        assert(s[0] == c[0]);
        if c.len() >= 2 {
            assert(s[1] == c[1]);
            assert(!(c[0] == '\n' && c[1] == '\n'));
        }
        assert forall|i: int| 0 <= i < t.len() - 1 implies !(#[trigger] t[i] == '\n' && t[i + 1]
            == '\n') by {
            assert(t[i] == c[i + 1] && t[i + 1] == c[i + 2]);
        }
        if t.len() > 0 {
            assert(t.last() == c.last());
        }
        lemma_split_blocks_prefix(t, r);
        assert(s.skip(1) =~= t + r);
        let x = split_blocks(r);
        assert(seq![c[0]] + (t + x[0]) =~= c + x[0]);
        assert(split_blocks(s) =~= prepend_to_first(c, x));
    }
}

pub proof fn lemma_split_on_newline_first(s: Seq<char>)
    ensures
        split_on(seq!['\n'] + s, '\n') == seq![Seq::<char>::empty()] + split_on(s, '\n'),
    decreases s.len(),
{
    let u = seq!['\n'] + s;
    if s.len() == 0 {
        assert(u.drop_last() =~= Seq::<char>::empty());
        assert(u.last() == '\n');
        assert(split_on(Seq::<char>::empty(), '\n') == seq![Seq::<char>::empty()]);
        assert(split_on(u, '\n') =~= seq![Seq::<char>::empty()] + split_on(s, '\n'));
    } else {
        let d = s.drop_last();
        lemma_split_on_newline_first(d);
        lemma_split_on_nonempty(d, '\n');
        assert(u.drop_last() =~= seq!['\n'] + d);
        assert(u.last() == s.last());
        let prev = split_on(d, '\n');
        if s.last() != '\n' {
            assert((seq![Seq::<char>::empty()] + prev).update(
                prev.len() as int,
                prev.last().push(s.last()),
            ) =~= seq![Seq::<char>::empty()] + prev.update(
                prev.len() - 1,
                prev.last().push(s.last()),
            ));
        } else {
            assert((seq![Seq::<char>::empty()] + prev).push(Seq::empty()) =~= seq![
                Seq::<char>::empty(),
            ] + prev.push(Seq::empty()));
        }
    }
}

pub proof fn lemma_field_value_skips_empty_line(lines: Seq<Seq<char>>, name: Seq<char>)
    ensures
        field_value(seq![Seq::<char>::empty()] + lines, name) == field_value(lines, name),
    decreases lines.len(),
{
    let empty = Seq::<char>::empty();
    assert(trim_start(empty) == empty);
    assert(trim_end(empty) == empty);
    assert(line_field(empty) is None);
    let u = seq![empty] + lines;
    if lines.len() == 0 {
        assert(u.drop_last() =~= Seq::<Seq<char>>::empty());
        assert(u.last() == empty);
        assert(field_value(Seq::<Seq<char>>::empty(), name) == None::<Seq<char>>);
    } else {
        lemma_field_value_skips_empty_line(lines.drop_last(), name);
        assert(u.drop_last() =~= seq![empty] + lines.drop_last());
        assert(u.last() == lines.last());
    }
}

pub proof fn lemma_leading_newline_block(b: Seq<char>)
    ensures
        trim(seq!['\n'] + b) == trim(b),
        block_entry(seq!['\n'] + b) == block_entry(b),
{
    let u = seq!['\n'] + b;
    assert(u.drop_first() =~= b);
    assert(trim_start(u) == trim_start(b));
    lemma_split_on_newline_first(b);
    let ls = split_on(b, '\n');
    lemma_field_value_skips_empty_line(ls, "modmask"@);
    lemma_field_value_skips_empty_line(ls, "key"@);
    lemma_field_value_skips_empty_line(ls, "dispatcher"@);
    lemma_field_value_skips_empty_line(ls, "arg"@);
    lemma_field_value_skips_empty_line(ls, "description"@);
}

pub proof fn lemma_block_after_newlines(n: nat, b: Seq<char>)
    requires
        is_plain_block(b),
        trim(b).len() > 0,
        block_entry(b) is Some,
    ensures
        entries_of_blocks(split_blocks(newlines(n) + b)) == seq![block_entry(b)->0],
    decreases n,
{
    let s = newlines(n) + b;
    lemma_split_blocks_prefix(b, Seq::empty());
    assert(b + Seq::<char>::empty() =~= b);
    assert(split_blocks(Seq::<char>::empty()) == seq![Seq::<char>::empty()]);
    assert(prepend_to_first(b, seq![Seq::<char>::empty()]) =~= seq![b]);
    lemma_entries_of_single(b);
    if n == 0 {
        assert(s =~= b);
    } else if n == 1 {
        assert(s =~= seq!['\n'] + b);
        assert(s[0] == '\n' && s[1] == b[0]);
        assert(s.skip(1) =~= b);
        let x = seq![b];
        assert(split_blocks(s) =~= x.update(0, seq![s[0]] + x[0]));
        assert(seq![s[0]] + b =~= s);
        lemma_leading_newline_block(b);
        assert(split_blocks(s) =~= seq![s]);
        lemma_entries_of_single(s);
    } else {
        let m = (n - 2) as nat;
        lemma_block_after_newlines(m, b);
        assert(s[0] == '\n' && s[1] == '\n');
        assert(s.skip(2) =~= newlines(m) + b);
        let rest = split_blocks(newlines(m) + b);
        assert(split_blocks(s) == seq![Seq::<char>::empty()] + rest);
        lemma_entries_of_blocks_concat(seq![Seq::<char>::empty()], rest);
        let empty = Seq::<char>::empty();
        assert(trim_start(empty) == empty);
        assert(trim_end(empty) == empty);
        lemma_entries_of_single(empty);
        assert(Seq::<EntryView>::empty() + seq![block_entry(b)->0] =~= seq![block_entry(b)->0]);
    }
}

/// Two blocks that each describe an entry, separated by one blank line or
/// by several, give exactly their two entries, in source order.
pub proof fn lemma_two_blocks(first: Seq<char>, second: Seq<char>, n: nat)
    requires
        n >= 2,
        is_plain_block(first),
        is_plain_block(second),
        trim(first).len() > 0,
        trim(second).len() > 0,
        block_entry(first) is Some,
        block_entry(second) is Some,
    ensures
        parse_report(first + newlines(n) + second) == seq![
            block_entry(first)->0,
            block_entry(second)->0,
        ],
{
    let tail = newlines(n) + second;
    assert(first + newlines(n) + second =~= first + tail);
    lemma_split_blocks_prefix(first, tail);
    let m = (n - 2) as nat;
    assert(tail[0] == '\n' && tail[1] == '\n');
    assert(tail.skip(2) =~= newlines(m) + second);
    let rest = split_blocks(newlines(m) + second);
    lemma_split_blocks_nonempty(newlines(m) + second);
    assert(split_blocks(tail) == seq![Seq::<char>::empty()] + rest);
    let x = seq![Seq::<char>::empty()] + rest;
    assert(first + x[0] =~= first);
    assert(prepend_to_first(first, x) =~= seq![first] + rest);
    lemma_entries_of_blocks_concat(seq![first], rest);
    lemma_block_after_newlines(m, second);
    lemma_entries_of_single(first);
    assert(seq![block_entry(first)->0] + seq![block_entry(second)->0] =~= seq![
        block_entry(first)->0,
        block_entry(second)->0,
    ]);
}

} // verus!
