use vstd::prelude::*;
use vstd::string::StrSliceExecFns;

verus! {

/// The characters of a string, one by one, as a vector.
pub fn chars_of_str(s: &str) -> (r: Vec<char>)
    ensures
        r@ == s@,
{
    let n = s.unicode_len();
    let mut r: Vec<char> = Vec::new();
    let mut i: usize = 0;
    while i < n
        invariant
            i <= n,
            n == s@.len(),
            r@ == s@.take(i as int),
        decreases n - i,
    {
        let c = s.get_char(i);
        r.push(c);
        proof {
            assert(s@.take(i as int).push(s@[i as int]) =~= s@.take(i + 1 as int));
        }
        i += 1;
    }
    proof {
        assert(s@.take(n as int) =~= s@);
    }
    r
}

/// Relies on `String: FromIterator<char>` from std: the collected string
/// holds exactly the given characters, in order.
#[verifier::external_body]
pub fn string_of_chars(v: &Vec<char>) -> (r: String)
    ensures
        r@ == v@,
{
    v.iter().collect()
}

} // verus!

verus! {

/// Whether a character is whitespace.
pub uninterp spec fn is_white(c: char) -> bool;

/// Relies on `char::is_whitespace`: whether a character is Unicode
/// whitespace depends on the character alone.
#[verifier::external_body]
pub fn white_char(c: char) -> (r: bool)
    ensures
        r == is_white(c),
{
    c.is_whitespace()
}

} // verus!
