//! The modifier codec: a modifier bitmask as the names of the keys it holds.
use vstd::prelude::*;
use crate::text::{join_with, join_strings, views_of};

verus! {

pub const SUPER_BIT: u32 = 0x40;
pub const ALT_BIT: u32 = 0x08;
pub const CTRL_BIT: u32 = 0x04;
pub const SHIFT_BIT: u32 = 0x01;

/// The names of the modifiers set in `modmask`, always in the order SUPER,
/// ALT, CTRL, SHIFT; other bits name nothing.
pub open spec fn modifier_names(modmask: u32) -> Seq<Seq<char>> {
    let s1 = if modmask & SUPER_BIT != 0 { seq!["SUPER"@] } else { Seq::empty() };
    let s2 = if modmask & ALT_BIT != 0 { s1.push("ALT"@) } else { s1 };
    let s3 = if modmask & CTRL_BIT != 0 { s2.push("CTRL"@) } else { s2 };
    if modmask & SHIFT_BIT != 0 { s3.push("SHIFT"@) } else { s3 }
}

/// The modifier label of `modmask`: its names joined with `+`, empty when
/// no known bit is set.
pub open spec fn modmask_label(modmask: u32) -> Seq<char> {
    join_with(modifier_names(modmask), "+"@)
}

/// Converts a modifier bitmask into its label, such as `SUPER+SHIFT`.
pub fn modmask_to_string(modmask: u32) -> (r: String)
    ensures
        r@ == modmask_label(modmask),
{
    let mut mods: Vec<String> = Vec::new();
    if modmask & SUPER_BIT != 0 {
        mods.push(String::from_str("SUPER"));
    }
    assert(views_of(mods@) =~= (if modmask & SUPER_BIT != 0 { seq!["SUPER"@] } else { Seq::empty() }));
    let ghost s1 = views_of(mods@);
    if modmask & ALT_BIT != 0 {
        mods.push(String::from_str("ALT"));
    }
    assert(views_of(mods@) =~= (if modmask & ALT_BIT != 0 { s1.push("ALT"@) } else { s1 }));
    let ghost s2 = views_of(mods@);
    if modmask & CTRL_BIT != 0 {
        mods.push(String::from_str("CTRL"));
    }
    assert(views_of(mods@) =~= (if modmask & CTRL_BIT != 0 { s2.push("CTRL"@) } else { s2 }));
    let ghost s3 = views_of(mods@);
    if modmask & SHIFT_BIT != 0 {
        mods.push(String::from_str("SHIFT"));
    }
    assert(views_of(mods@) =~= (if modmask & SHIFT_BIT != 0 { s3.push("SHIFT"@) } else { s3 }));
    join_strings(&mods, "+")
}

/// The known modifier bits with their names, in label order.
pub open spec fn known_modifiers() -> Seq<(u32, Seq<char>)> {
    seq![(SUPER_BIT, "SUPER"@), (ALT_BIT, "ALT"@), (CTRL_BIT, "CTRL"@), (SHIFT_BIT, "SHIFT"@)]
}

/// The names in a label are those of the known bits that `modmask` sets,
/// always in the order SUPER, ALT, CTRL, SHIFT; other bits add nothing.
pub proof fn lemma_modifier_names_in_fixed_order(modmask: u32)
    ensures
        modifier_names(modmask) == known_modifiers().filter(
            |p: (u32, Seq<char>)| modmask & p.0 != 0,
        ).map_values(|p: (u32, Seq<char>)| p.1),
{
    let pred = |p: (u32, Seq<char>)| modmask & p.0 != 0;
    let k = known_modifiers();
    let e = Seq::<(u32, Seq<char>)>::empty();
    assert(k.take(0) =~= e);
    assert(k.take(1) =~= e.push(k[0]));
    assert(k.take(2) =~= k.take(1).push(k[1]));
    assert(k.take(3) =~= k.take(2).push(k[2]));
    assert(k.take(4) =~= k.take(3).push(k[3]));
    assert(k.take(4) =~= k);
    reveal(Seq::filter);
    assert(e.filter(pred) =~= e);
    e.lemma_filter_push(k[0], pred);
    k.take(1).lemma_filter_push(k[1], pred);
    k.take(2).lemma_filter_push(k[2], pred);
    k.take(3).lemma_filter_push(k[3], pred);
    assert(modifier_names(modmask) =~= k.filter(pred).map_values(|p: (u32, Seq<char>)| p.1));
}

} // verus!
