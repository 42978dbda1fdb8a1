//! Trusted access to the Unicode character tables of outside crates.
//!
//! Each predicate below is a pure function of the character alone; its full
//! definition is a large generated table, so the result is only given a name
//! here and every contract of the library speaks through that name.

use vstd::prelude::*;

verus! {

/// Whether the character has the Unicode `XID_Start` property.
pub uninterp spec fn xid_start(c: char) -> bool;

/// Whether the character has the Unicode `XID_Continue` property.
pub uninterp spec fn xid_continue(c: char) -> bool;

/// Whether the character is in the Unicode general category `Zs`
/// (space separator).
pub uninterp spec fn space_separator(c: char) -> bool;

/// Relies on `unicode_ident::is_xid_start`: a table lookup whose result
/// depends on the character alone.
#[verifier::external_body]
pub(crate) fn check_xid_start(c: char) -> (r: bool)
    ensures
        r == xid_start(c),
{
    unicode_ident::is_xid_start(c)
}

/// Relies on `unicode_ident::is_xid_continue`: a table lookup whose result
/// depends on the character alone.
#[verifier::external_body]
pub(crate) fn check_xid_continue(c: char) -> (r: bool)
    ensures
        r == xid_continue(c),
{
    unicode_ident::is_xid_continue(c)
}

/// Relies on `unicode_general_category::get_general_category`: a table lookup
/// whose result depends on the character alone; this reports whether the
/// category is `SpaceSeparator` (`Zs`).
#[verifier::external_body]
pub(crate) fn check_space_separator(c: char) -> (r: bool)
    ensures
        r == space_separator(c),
{
    match unicode_general_category::get_general_category(c) {
        unicode_general_category::GeneralCategory::SpaceSeparator => true,
        _ => false,
    }
}

} // verus!
