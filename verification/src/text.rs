//! Rendering of handles, widths and leaf values for the diagnostic dump.
//! Numbers are rendered to their decimal digits, named by [`dec_of`]; of a
//! leaf value's `Debug` text nothing is promised.

use vstd::prelude::*;

verus! {

/// The decimal rendering of a number: what std's `Display` formatting
/// returns for it, a function of the value alone.
pub uninterp spec fn dec_of(n: usize) -> Seq<char>;

/// Relies on std's `Display` formatting for `usize`: the decimal digits of
/// the value.
#[verifier::external_body]
pub(crate) fn fmt_usize(n: usize) -> (r: String)
    ensures
        r@ == dec_of(n),
{
    format!("{}", n)
}

/// Relies on std's `Display` formatting for `u8`: the same decimal digits
/// that the value yields as a `usize`.
#[verifier::external_body]
pub(crate) fn fmt_u8(n: u8) -> (r: String)
    ensures
        r@ == dec_of(n as usize),
{
    format!("{}", n)
}

/// Relies on std's `Debug` formatting for the value.
#[verifier::external_body]
pub(crate) fn fmt_debug<T: core::fmt::Debug>(t: &T) -> String {
    format!("{:?}", t)
}

} // verus!
