//! Conversions between Rust strings and character vectors.
use vstd::prelude::*;

verus! {

/// The characters of a string slice, in order.
pub fn chars_of(s: &str) -> (r: Vec<char>)
    ensures
        r@ == s@,
{
    let mut v: Vec<char> = Vec::new();
    for c in it: s.chars()
        invariant
            v@ == it.seq().take(it.index() as int),
            it.seq() == s@,
    {
        v.push(c);
        proof {
            assert(v@ =~= it.seq().take(it.index() as int + 1));
        }
    }
    proof {
        assert(v@ =~= s@);
    }
    v
}

/// Builds a string from characters, in order (std's `FromIterator<char>` for `String`,
/// which appends each character of the iterator in turn).
#[verifier::external_body]
pub fn string_of(v: &Vec<char>) -> (r: String)
    ensures
        r@ == v@,
{
    v.iter().collect()
}

} // verus!
