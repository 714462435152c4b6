//! The query/sort engine: filtering by a query, a stable sort by one column,
//! and the tri-state toggle of a column's sort direction.
use vstd::prelude::*;
use crate::models::{entry_views, passes, EntryView, KeyBindEntry, SearchOptions};
use crate::text::{chars_of, compare_chars, contains_seq, lex_cmp, lower_of};

verus! {

/// A column of the binding table.
#[derive(PartialEq, Eq, Clone, Copy, Debug, Structural)]
pub enum SortColumn {
    Keybind,
    Description,
    Command,
}

/// The sort direction of the selected column.
#[derive(PartialEq, Eq, Clone, Copy, Debug, Structural)]
pub enum SortState {
    Ascending,
    Descending,
    Unsorted,
}

/// What an entry is ordered by under `col`: the modifiers, then the key, for
/// the keybind column; the one field otherwise.
pub open spec fn sort_key(col: SortColumn, e: EntryView) -> (Seq<char>, Seq<char>) {
    match col {
        SortColumn::Keybind => (e.modifiers, e.key),
        SortColumn::Description => (e.description, Seq::empty()),
        SortColumn::Command => (e.command, Seq::empty()),
    }
}

/// Comparison of two entries under `col` (-1, 0 or 1).
pub open spec fn entry_cmp(col: SortColumn, a: EntryView, b: EntryView) -> int {
    let ka = sort_key(col, a);
    let kb = sort_key(col, b);
    let first = lex_cmp(ka.0, kb.0);
    if first != 0 {
        first
    } else {
        lex_cmp(ka.1, kb.1)
    }
}

/// `x` put into `s` just after the last element that is not greater.
pub open spec fn insert_sorted(col: SortColumn, x: EntryView, s: Seq<EntryView>) -> Seq<EntryView>
    decreases s.len(),
{
    if s.len() == 0 {
        seq![x]
    } else if entry_cmp(col, s.last(), x) <= 0 {
        s.push(x)
    } else {
        insert_sorted(col, x, s.drop_last()).push(s.last())
    }
}

/// The stable sort of `s` by `col`: entries that compare equal keep their
/// order.
pub open spec fn sorted_by(col: SortColumn, s: Seq<EntryView>) -> Seq<EntryView>
    decreases s.len(),
{
    if s.len() == 0 {
        s
    } else {
        insert_sorted(col, s.last(), sorted_by(col, s.drop_last()))
    }
}

/// The entries shown for `query` under `options`, in their order.
pub open spec fn filtered(entries: Seq<EntryView>, query: Seq<char>, options: SearchOptions) -> Seq<
    EntryView,
> {
    entries.filter(|e: EntryView| passes(e, query, options))
}

/// The shown entries: filtered, then sorted by `col` unless the state is
/// `Unsorted`; descending is the ascending result reversed as a whole.
pub open spec fn view_of_query(
    entries: Seq<EntryView>,
    query: Seq<char>,
    options: SearchOptions,
    col: SortColumn,
    state: SortState,
) -> Seq<EntryView> {
    let shown = filtered(entries, query, options);
    match state {
        SortState::Unsorted => shown,
        SortState::Ascending => sorted_by(col, shown),
        SortState::Descending => sorted_by(col, shown).reverse(),
    }
}

/// The column and state after a click on `clicked`.
pub open spec fn sort_after_click(current: SortColumn, clicked: SortColumn, state: SortState) -> (
    SortColumn,
    SortState,
) {
    if current == clicked {
        (
            clicked,
            match state {
                SortState::Ascending => SortState::Descending,
                SortState::Descending => SortState::Unsorted,
                SortState::Unsorted => SortState::Ascending,
            },
        )
    } else {
        (clicked, SortState::Ascending)
    }
}

fn compare_text(a: &String, b: &String) -> (r: i8)
    ensures
        r as int == lex_cmp(a@, b@),
{
    let ca = chars_of(a.as_str());
    let cb = chars_of(b.as_str());
    compare_chars(&ca, &cb)
}

fn compare_entries(col: SortColumn, a: &KeyBindEntry, b: &KeyBindEntry) -> (r: i8)
    ensures
        r as int == entry_cmp(col, a@, b@),
{
    proof {
        reveal_with_fuel(lex_cmp, 2);
    }
    match col {
        SortColumn::Keybind => {
            let first = compare_text(&a.modifiers, &b.modifiers);
            if first != 0 {
                first
            } else {
                compare_text(&a.key, &b.key)
            }
        },
        SortColumn::Description => compare_text(&a.description, &b.description),
        SortColumn::Command => compare_text(&a.command, &b.command),
    }
}

pub proof fn lemma_insert_sorted_at(col: SortColumn, x: EntryView, t: Seq<EntryView>, p: int)
    requires
        0 <= p <= t.len(),
        forall|j: int| p <= j < t.len() ==> entry_cmp(col, #[trigger] t[j], x) > 0,
        p > 0 ==> entry_cmp(col, t[p - 1], x) <= 0,
    ensures
        insert_sorted(col, x, t) == t.insert(p, x),
    decreases t.len(),
{
    if p == t.len() {
        assert(t.insert(p, x) =~= t.push(x));
    } else {
        let d = t.drop_last();
        assert(entry_cmp(col, t[t.len() - 1], x) > 0);
        assert forall|j: int| p <= j < d.len() implies entry_cmp(col, #[trigger] d[j], x) > 0 by {
            assert(d[j] == t[j]);
        }
        lemma_insert_sorted_at(col, x, d, p);
        assert(d.insert(p, x).push(t.last()) =~= t.insert(p, x));
    }
}

/// Whether `entry` is shown for `query` under `options`.
pub fn matches_search(entry: &KeyBindEntry, query: &str, options: &SearchOptions) -> (r: bool)
    ensures
        r == passes(entry@, query@, *options),
{
    if query.is_empty() {
        return true;
    }
    entry.matches(query, options)
}

/// Sorts `entries` by `sort_column`, stably.
pub fn apply_sort(entries: &mut Vec<KeyBindEntry>, sort_column: SortColumn)
    ensures
        entry_views(final(entries)@) == sorted_by(sort_column, entry_views(old(entries)@)),
{
    let ghost src = entry_views(entries@);
    let mut out: Vec<KeyBindEntry> = Vec::new();
    let mut i: usize = 0;
    while i < entries.len()
        invariant
            i <= entries@.len(),
            src == entry_views(entries@),
            entries@ == old(entries)@,
            entry_views(out@) == sorted_by(sort_column, src.take(i as int)),
        decreases entries.len() - i,
    {
        let x = entries[i].clone();
        assert(src[i as int] == x@);
        assert(src.take(i + 1).drop_last() =~= src.take(i as int));
        let ghost t = entry_views(out@);
        let mut p = out.len();
        while p > 0 && compare_entries(sort_column, &out[p - 1], &x) > 0
            invariant
                p <= out@.len(),
                t == entry_views(out@),
                forall|j: int| p <= j < t.len() ==> entry_cmp(sort_column, #[trigger] t[j], x@) > 0,
            decreases p,
        {
            p = p - 1;
        }
        proof {
            lemma_insert_sorted_at(sort_column, x@, t, p as int);
        }
        out.insert(p, x);
        assert(entry_views(out@) =~= t.insert(p as int, x@));
        i = i + 1;
    }
    assert(src.take(i as int) =~= src);
    *entries = out;
}

/// The entries of `v` in reverse order.
fn reversed(v: &Vec<KeyBindEntry>) -> (r: Vec<KeyBindEntry>)
    ensures
        entry_views(r@) == entry_views(v@).reverse(),
{
    let ghost src = entry_views(v@);
    let mut r: Vec<KeyBindEntry> = Vec::new();
    let mut i = v.len();
    while i > 0
        invariant
            i <= v@.len(),
            src == entry_views(v@),
            entry_views(r@) == src.reverse().take(v@.len() - i),
        decreases i,
    {
        i = i - 1;
        let x = v[i].clone();
        assert(src[i as int] == x@);
        assert(src.reverse()[v@.len() - 1 - i] == src[i as int]);
        let ghost before = entry_views(r@);
        r.push(x);
        assert(entry_views(r@) =~= before.push(x@));
        assert(before.push(x@) =~= src.reverse().take(v@.len() - i));
    }
    assert(src.reverse().take(v@.len() as int) =~= src.reverse());
    r
}

/// The entries shown for `search_query`, ordered by `sort_column` in the
/// direction `sort_state`; `entries` is left as it is.
pub fn filter_and_sort(
    entries: &[KeyBindEntry],
    search_query: &str,
    search_options: &SearchOptions,
    sort_column: SortColumn,
    sort_state: SortState,
) -> (r: Vec<KeyBindEntry>)
    ensures
        entry_views(r@) == view_of_query(
            entry_views(entries@),
            search_query@,
            *search_options,
            sort_column,
            sort_state,
        ),
{
    let ghost src = entry_views(entries@);
    let ghost pred = |e: EntryView| passes(e, search_query@, *search_options);
    let mut shown: Vec<KeyBindEntry> = Vec::new();
    let mut i: usize = 0;
    while i < entries.len()
        invariant
            i <= entries@.len(),
            src == entry_views(entries@),
            pred == (|e: EntryView| passes(e, search_query@, *search_options)),
            entry_views(shown@) == src.take(i as int).filter(pred),
        decreases entries.len() - i,
    {
        let e = &entries[i];
        assert(src[i as int] == e@);
        assert(src.take(i + 1) =~= src.take(i as int).push(e@));
        proof {
            src.take(i as int).lemma_filter_push(e@, pred);
        }
        if matches_search(e, search_query, search_options) {
            shown.push(e.clone());
        }
        assert(entry_views(shown@) =~= src.take(i + 1).filter(pred));
        i = i + 1;
    }
    assert(src.take(i as int) =~= src);
    match sort_state {
        SortState::Unsorted => shown,
        SortState::Ascending => {
            apply_sort(&mut shown, sort_column);
            shown
        },
        SortState::Descending => {
            apply_sort(&mut shown, sort_column);
            reversed(&shown)
        },
    }
}

/// The column and direction after a click on a column header: the same
/// column cycles Ascending, Descending, Unsorted; another column starts at
/// Ascending.
pub fn next_sort_state(
    current_column: SortColumn,
    clicked_column: SortColumn,
    current_state: SortState,
) -> (r: (SortColumn, SortState))
    ensures
        r == sort_after_click(current_column, clicked_column, current_state),
{
    if current_column == clicked_column {
        let next_state = match current_state {
            SortState::Ascending => SortState::Descending,
            SortState::Descending => SortState::Unsorted,
            SortState::Unsorted => SortState::Ascending,
        };
        (clicked_column, next_state)
    } else {
        (clicked_column, SortState::Ascending)
    }
}

/// Only the command is searched.
pub open spec fn command_only() -> SearchOptions {
    SearchOptions { keybind: false, command: true, description: false }
}

/// No field is searched.
pub open spec fn no_fields() -> SearchOptions {
    SearchOptions { keybind: false, command: false, description: false }
}

/// Clicking the sorted column again steps Unsorted, Ascending, Descending and
/// back to Unsorted.
pub proof fn lemma_same_column_cycles(col: SortColumn)
    ensures
        sort_after_click(col, col, SortState::Unsorted) == (col, SortState::Ascending),
        sort_after_click(col, col, SortState::Ascending) == (col, SortState::Descending),
        sort_after_click(col, col, SortState::Descending) == (col, SortState::Unsorted),
{
}

/// Clicking another column selects it, ascending, whatever the state was.
pub proof fn lemma_other_column_ascends(current: SortColumn, clicked: SortColumn, state: SortState)
    requires
        current != clicked,
    ensures
        sort_after_click(current, clicked, state) == (clicked, SortState::Ascending),
{
}

/// With only the command searched, an entry is shown exactly when the query
/// is, case-insensitively, part of its command (an empty query is part of
/// every command), whatever its other fields hold.
pub proof fn lemma_command_only_filter(entries: Seq<EntryView>, query: Seq<char>)
    ensures
        forall|e: EntryView|
            #[trigger] passes(e, query, command_only()) <==> (query.len() == 0 || contains_seq(
                lower_of(e.command),
                lower_of(query),
            )),
        filtered(entries, query, command_only()) == entries.filter(
            |e: EntryView|
                query.len() == 0 || contains_seq(lower_of(e.command), lower_of(query)),
        ),
{
    let p1 = |e: EntryView| passes(e, query, command_only());
    let p2 = |e: EntryView| query.len() == 0 || contains_seq(lower_of(e.command), lower_of(query));
    assert(p1 =~= p2);
}

pub proof fn lemma_filter_nothing(s: Seq<EntryView>, p: spec_fn(EntryView) -> bool)
    requires
        forall|e: EntryView| !#[trigger] p(e),
    ensures
        s.filter(p) == Seq::<EntryView>::empty(),
    decreases s.len(),
{
    reveal(Seq::filter);
    if s.len() > 0 {
        lemma_filter_nothing(s.drop_last(), p);
    }
}

/// With no field searched, a non-empty query shows nothing, in any order.
pub proof fn lemma_no_fields_show_nothing(
    entries: Seq<EntryView>,
    query: Seq<char>,
    col: SortColumn,
    state: SortState,
)
    requires
        query.len() > 0,
    ensures
        view_of_query(entries, query, no_fields(), col, state) == Seq::<EntryView>::empty(),
{
    lemma_filter_nothing(entries, |e: EntryView| passes(e, query, no_fields()));
    let shown = filtered(entries, query, no_fields());
    assert(sorted_by(col, shown) == shown);
    assert(shown.reverse() =~= shown);
}

pub proof fn lemma_lex_cmp_refl(a: Seq<char>)
    ensures
        lex_cmp(a, a) == 0,
    decreases a.len(),
{
    if a.len() > 0 {
        lemma_lex_cmp_refl(a.drop_first());
    }
}

pub proof fn lemma_insert_sorted_filter(
    col: SortColumn,
    x: EntryView,
    t: Seq<EntryView>,
    k: (Seq<char>, Seq<char>),
)
    ensures
        insert_sorted(col, x, t).filter(|e: EntryView| sort_key(col, e) == k) == if sort_key(col, x)
            == k {
            t.filter(|e: EntryView| sort_key(col, e) == k).push(x)
        } else {
            t.filter(|e: EntryView| sort_key(col, e) == k)
        },
    decreases t.len(),
{
    let p = |e: EntryView| sort_key(col, e) == k;
    if t.len() == 0 {
        Seq::<EntryView>::empty().lemma_filter_push(x, p);
        assert(seq![x] =~= Seq::<EntryView>::empty().push(x));
        reveal(Seq::filter);
    } else if entry_cmp(col, t.last(), x) <= 0 {
        t.lemma_filter_push(x, p);
    } else {
        let d = t.drop_last();
        lemma_insert_sorted_filter(col, x, d, k);
        insert_sorted(col, x, d).lemma_filter_push(t.last(), p);
        assert(d.push(t.last()) =~= t);
        d.lemma_filter_push(t.last(), p);
        if sort_key(col, x) == k && sort_key(col, t.last()) == k {
            lemma_lex_cmp_refl(k.0);
            lemma_lex_cmp_refl(k.1);
        }
    }
}

/// Sorting keeps the order of entries with equal sort keys: for each key,
/// the entries holding it come out in the order they went in.
pub proof fn lemma_sort_stable(col: SortColumn, s: Seq<EntryView>, k: (Seq<char>, Seq<char>))
    ensures
        sorted_by(col, s).filter(|e: EntryView| sort_key(col, e) == k) == s.filter(
            |e: EntryView| sort_key(col, e) == k,
        ),
    decreases s.len(),
{
    let p = |e: EntryView| sort_key(col, e) == k;
    if s.len() > 0 {
        let d = s.drop_last();
        lemma_sort_stable(col, d, k);
        lemma_insert_sorted_filter(col, s.last(), sorted_by(col, d), k);
        assert(d.push(s.last()) =~= s);
        d.lemma_filter_push(s.last(), p);
    }
}

pub proof fn lemma_filter_reverse(s: Seq<EntryView>, p: spec_fn(EntryView) -> bool)
    ensures
        s.reverse().filter(p) == s.filter(p).reverse(),
    decreases s.len(),
{
    if s.len() > 0 {
        let d = s.drop_last();
        lemma_filter_reverse(d, p);
        assert(s.reverse() =~= seq![s.last()] + d.reverse());
        d.reverse().lemma_filter_prepend(s.last(), p);
        d.lemma_filter_push(s.last(), p);
        assert(d.push(s.last()) =~= s);
        if p(s.last()) {
            assert(d.filter(p).push(s.last()).reverse() =~= seq![s.last()] + d.filter(p).reverse());
        }
    } else {
        assert(s.reverse() =~= s);
        reveal(Seq::filter);
        assert(s.filter(p).reverse() =~= s.filter(p));
    }
}

/// Among shown entries with the same modifiers and key, sorting by keybind
/// keeps their order when ascending and reverses it, as a whole, when
/// descending.
pub proof fn lemma_keybind_ties(
    entries: Seq<EntryView>,
    query: Seq<char>,
    options: SearchOptions,
    modifiers: Seq<char>,
    key: Seq<char>,
)
    ensures
        ({
            let same = |e: EntryView| e.modifiers == modifiers && e.key == key;
            let shown = filtered(entries, query, options);
            &&& view_of_query(entries, query, options, SortColumn::Keybind, SortState::Ascending).filter(
                same,
            ) == shown.filter(same)
            &&& view_of_query(entries, query, options, SortColumn::Keybind, SortState::Descending).filter(
                same,
            ) == shown.filter(same).reverse()
        }),
{
    let same = |e: EntryView| e.modifiers == modifiers && e.key == key;
    let by_key = |e: EntryView| sort_key(SortColumn::Keybind, e) == (modifiers, key);
    assert(same =~= by_key);
    let shown = filtered(entries, query, options);
    lemma_sort_stable(SortColumn::Keybind, shown, (modifiers, key));
    lemma_filter_reverse(sorted_by(SortColumn::Keybind, shown), same);
}

pub proof fn lemma_lex_cmp_antisym(a: Seq<char>, b: Seq<char>)
    ensures
        lex_cmp(a, b) == -lex_cmp(b, a),
    decreases a.len(),
{
    if a.len() > 0 && b.len() > 0 {
        lemma_lex_cmp_antisym(a.drop_first(), b.drop_first());
    }
}

pub proof fn lemma_lex_cmp_congruent(a: Seq<char>, b: Seq<char>, c: Seq<char>)
    requires
        lex_cmp(a, b) == 0,
    ensures
        lex_cmp(a, c) == lex_cmp(b, c),
    decreases a.len(),
{
    if a.len() > 0 && b.len() > 0 && c.len() > 0 {
        lemma_lex_cmp_congruent(a.drop_first(), b.drop_first(), c.drop_first());
    }
}

pub proof fn lemma_lex_cmp_trans(a: Seq<char>, b: Seq<char>, c: Seq<char>)
    requires
        lex_cmp(a, b) <= 0,
        lex_cmp(b, c) <= 0,
    ensures
        lex_cmp(a, c) <= 0,
    decreases a.len(),
{
    if a.len() > 0 && b.len() > 0 && c.len() > 0 && (a[0] as u32) == (b[0] as u32) && (b[0] as u32)
        == (c[0] as u32) {
        lemma_lex_cmp_trans(a.drop_first(), b.drop_first(), c.drop_first());
    }
}

/// Under any column, entries compare as a total preorder.
pub proof fn lemma_entry_cmp_order(col: SortColumn, a: EntryView, b: EntryView, c: EntryView)
    ensures
        entry_cmp(col, a, b) == -entry_cmp(col, b, a),
        entry_cmp(col, a, b) <= 0 && entry_cmp(col, b, c) <= 0 ==> entry_cmp(col, a, c) <= 0,
{
    let (ka, kb, kc) = (sort_key(col, a), sort_key(col, b), sort_key(col, c));
    lemma_lex_cmp_antisym(ka.0, kb.0);
    lemma_lex_cmp_antisym(ka.1, kb.1);
    if entry_cmp(col, a, b) <= 0 && entry_cmp(col, b, c) <= 0 {
        lemma_lex_cmp_trans(ka.0, kb.0, kc.0);
        if lex_cmp(ka.0, kc.0) == 0 {
            if lex_cmp(ka.0, kb.0) == 0 {
                lemma_lex_cmp_congruent(ka.0, kb.0, kc.0);
                lemma_lex_cmp_trans(ka.1, kb.1, kc.1);
            } else {
                lemma_lex_cmp_congruent(ka.0, kc.0, kb.0);
                lemma_lex_cmp_antisym(kc.0, kb.0);
            }
        }
    }
}

/// `s` is in non-decreasing order under `col`.
pub open spec fn is_sorted_by(col: SortColumn, s: Seq<EntryView>) -> bool {
    forall|i: int, j: int| 0 <= i < j < s.len() ==> entry_cmp(col, #[trigger] s[i], #[trigger] s[j]) <= 0
}

pub proof fn lemma_insert_sorted_bounded(col: SortColumn, x: EntryView, t: Seq<EntryView>, y: EntryView)
    requires
        forall|i: int| 0 <= i < t.len() ==> entry_cmp(col, #[trigger] t[i], y) <= 0,
        entry_cmp(col, x, y) <= 0,
    ensures
        forall|i: int|
            0 <= i < insert_sorted(col, x, t).len() ==> entry_cmp(
                col,
                #[trigger] insert_sorted(col, x, t)[i],
                y,
            ) <= 0,
    decreases t.len(),
{
    if t.len() == 0 {
        assert(insert_sorted(col, x, t) =~= seq![x]);
    } else if entry_cmp(col, t.last(), x) <= 0 {
        let r = t.push(x);
        assert forall|i: int| 0 <= i < r.len() implies entry_cmp(col, #[trigger] r[i], y) <= 0 by {
            if i < t.len() {
                assert(r[i] == t[i]);
            }
        }
    } else {
        let d = t.drop_last();
        assert forall|i: int| 0 <= i < d.len() implies entry_cmp(col, #[trigger] d[i], y) <= 0 by {
            assert(d[i] == t[i]);
        }
        lemma_insert_sorted_bounded(col, x, d, y);
        let u = insert_sorted(col, x, d);
        let r = u.push(t.last());
        assert(entry_cmp(col, t[t.len() - 1], y) <= 0);
        assert forall|i: int| 0 <= i < r.len() implies entry_cmp(col, #[trigger] r[i], y) <= 0 by {
            if i < u.len() {
                assert(r[i] == u[i]);
            }
        }
    }
}

pub proof fn lemma_insert_sorted_len(col: SortColumn, x: EntryView, t: Seq<EntryView>)
    ensures
        insert_sorted(col, x, t).len() == t.len() + 1,
        insert_sorted(col, x, t).to_multiset() == t.to_multiset().insert(x),
    decreases t.len(),
{
    if t.len() == 0 {
        let e = Seq::<EntryView>::empty();
        assert(t =~= e);
        assert(seq![x] =~= e.push(x));
        vstd::seq_lib::to_multiset_build(e, x);
    } else if entry_cmp(col, t.last(), x) <= 0 {
        vstd::seq_lib::to_multiset_build(t, x);
    } else {
        let d = t.drop_last();
        let l = t.last();
        lemma_insert_sorted_len(col, x, d);
        assert(d.push(l) =~= t);
        vstd::seq_lib::to_multiset_build(d, l);
        vstd::seq_lib::to_multiset_build(insert_sorted(col, x, d), l);
        assert(d.to_multiset().insert(x).insert(l) =~= d.to_multiset().insert(l).insert(x)) by {
            broadcast use vstd::multiset::group_multiset_axioms;
        }
    }
}

pub proof fn lemma_insert_sorted_sorted(col: SortColumn, x: EntryView, t: Seq<EntryView>)
    requires
        is_sorted_by(col, t),
    ensures
        is_sorted_by(col, insert_sorted(col, x, t)),
    decreases t.len(),
{
    lemma_insert_sorted_len(col, x, t);
    if t.len() == 0 {
    } else if entry_cmp(col, t.last(), x) <= 0 {
        let r = t.push(x);
        assert forall|i: int, j: int| 0 <= i < j < r.len() implies entry_cmp(
            col,
            #[trigger] r[i],
            #[trigger] r[j],
        ) <= 0 by {
            if j == t.len() && i < t.len() - 1 {
                lemma_entry_cmp_order(col, t[i], t.last(), x);
            }
        }
    } else {
        let d = t.drop_last();
        let l = t.last();
        lemma_insert_sorted_sorted(col, x, d);
        lemma_entry_cmp_order(col, l, x, x);
        lemma_insert_sorted_bounded(col, x, d, l);
        lemma_insert_sorted_len(col, x, d);
        let u = insert_sorted(col, x, d);
        let r = u.push(l);
        assert forall|i: int, j: int| 0 <= i < j < r.len() implies entry_cmp(
            col,
            #[trigger] r[i],
            #[trigger] r[j],
        ) <= 0 by {
            if j == u.len() {
                assert(r[i] == u[i]);
            } else {
                assert(r[i] == u[i] && r[j] == u[j]);
            }
        }
    }
}

/// The sort of a sequence holds the same entries, each as often, in
/// non-decreasing order.
pub proof fn lemma_sort_is_sorted_permutation(col: SortColumn, s: Seq<EntryView>)
    ensures
        is_sorted_by(col, sorted_by(col, s)),
        sorted_by(col, s).to_multiset() == s.to_multiset(),
    decreases s.len(),
{
    if s.len() > 0 {
        let d = s.drop_last();
        lemma_sort_is_sorted_permutation(col, d);
        vstd::seq_lib::to_multiset_build(d, s.last());
        lemma_insert_sorted_sorted(col, s.last(), sorted_by(col, d));
        lemma_insert_sorted_len(col, s.last(), sorted_by(col, d));
        assert(d.push(s.last()) =~= s);
    }
}

} // verus!
