//! The two conversions between host strings and the character vectors the
//! library works on.  Everything else in the crate stays on `Vec<char>`,
//! whose contents Verus can reason about directly.

use vstd::prelude::*;

verus! {

/// Relies on str::chars and Iterator::collect: the iterator yields exactly
/// the characters of the string, in order, and collecting them into a
/// vector keeps them.
#[verifier::external_body]
pub fn str_chars(s: &str) -> (r: Vec<char>)
    ensures
        r@ == s@,
{
    s.chars().collect()
}

/// Relies on String's FromIterator: collecting characters builds the string
/// holding exactly those characters, in order.
#[verifier::external_body]
pub fn chars_string(v: &Vec<char>) -> (r: String)
    ensures
        r@ == v@,
{
    v.iter().collect()
}

} // verus!
