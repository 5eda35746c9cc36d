//! Texts as sequences of characters.

use vstd::prelude::*;

verus! {

/// Trusted: `String::push` of the standard library. The contract takes from
/// its documentation that the character is appended at the end of the string,
/// and that the characters before it stay as they were.
pub assume_specification[ std::string::String::push ](s: &mut std::string::String, c: char)
    ensures
        final(s)@ == old(s)@.push(c),
;

/// The characters of `text`, in order.
pub fn chars_of(text: &str) -> (out: Vec<char>)
    ensures
        out@ == text@,
        out.len() < usize::MAX,
{
    let mut out: Vec<char> = Vec::new();
    for c in it: text.chars()
        invariant
            out@ == it.seq().take(it.index() as int),
            it.seq() == text@,
    {
        out.push(c);
    }
    // A vector that has taken one more element had room for it, so its
    // length was below the largest `usize`.
    let n = out.len();
    out.push(' ');
    assert(out.len() == n + 1);
    out.pop();
    out
}

} // verus!
