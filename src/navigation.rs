//! Moving the selected row of the table with the keyboard.
use vstd::prelude::*;

verus! {

/// A navigation key.
#[derive(PartialEq, Eq, Clone, Copy, Debug, Structural)]
pub enum NavKey {
    Down,
    Up,
    PageDown,
    PageUp,
    Home,
    End,
}

/// Rows that a page key moves by.
pub const PAGE_ROWS: usize = 10;

/// The row that `key` moves to from `sel` in a table of `len` rows.
pub open spec fn moved_row(sel: int, key: NavKey, len: int) -> int {
    match key {
        NavKey::Down => if sel + 1 < len - 1 { sel + 1 } else { len - 1 },
        NavKey::Up => if sel >= 1 { sel - 1 } else { 0 },
        NavKey::PageDown => if sel + PAGE_ROWS < len - 1 { sel + PAGE_ROWS } else { len - 1 },
        NavKey::PageUp => if sel >= PAGE_ROWS { sel - PAGE_ROWS } else { 0 },
        NavKey::Home => 0,
        NavKey::End => len - 1,
    }
}

/// The selection after a frame: with the table free for keys and rows to
/// show, a key moves the selection (the first row when none was selected);
/// an empty table clears it; otherwise it stays.
pub open spec fn selection_after(
    selected: Option<usize>,
    key: Option<NavKey>,
    len: usize,
    table_has_keys: bool,
) -> Option<usize> {
    if table_has_keys && len > 0 {
        match key {
            Some(k) => Some(
                moved_row(
                    match selected {
                        Some(s) => s as int,
                        None => 0,
                    },
                    k,
                    len as int,
                ) as usize,
            ),
            None => selected,
        }
    } else if len == 0 {
        None
    } else {
        selected
    }
}

/// The selected row after the keys of one frame; `table_has_keys` is false
/// while the search bar has focus or the options window is open.
pub fn navigate(
    selected: Option<usize>,
    key: Option<NavKey>,
    len: usize,
    table_has_keys: bool,
) -> (r: Option<usize>)
    ensures
        r == selection_after(selected, key, len, table_has_keys),
{
    if table_has_keys && len > 0 {
        let sel = match selected {
            Some(s) => s,
            None => 0,
        };
        let last = len - 1;
        match key {
            Some(k) => {
                let row = match k {
                    NavKey::Down => if sel < last && sel + 1 < last { sel + 1 } else { last },
                    NavKey::Up => if sel >= 1 { sel - 1 } else { 0 },
                    NavKey::PageDown => if sel < last && last - sel > PAGE_ROWS {
                        sel + PAGE_ROWS
                    } else {
                        last
                    },
                    NavKey::PageUp => if sel >= PAGE_ROWS { sel - PAGE_ROWS } else { 0 },
                    NavKey::Home => 0,
                    NavKey::End => last,
                };
                Some(row)
            },
            None => selected,
        }
    } else if len == 0 {
        None
    } else {
        selected
    }
}

} // verus!
