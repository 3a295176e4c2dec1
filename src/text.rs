//! Small conversions between strings and sequences of characters.

use itertools::Itertools;
use vstd::prelude::*;

verus! {

/// Relies on `itertools::Itertools::join`: with an empty separator it writes
/// the `Display` form of each element, a `char` as itself, one after another.
#[verifier::external_body]
pub(crate) fn join_chars(cs: &Vec<char>) -> (r: String)
    ensures
        r@ == cs@,
{
    cs.iter().join("")
}

/// The characters of `s`, in order.
pub(crate) fn chars_of(s: &str) -> (r: Vec<char>)
    ensures
        r@ == s@,
{
    broadcast use vstd::string::group_string_axioms;
    let mut out: Vec<char> = Vec::new();
    for c in it: s.chars()
        invariant
            it.seq() == s@,
            out@ == it.seq().subrange(0, it.index() as int),
    {
        out.push(c);
    }
    out
}

} // verus!
