//! Small executable helpers on strings and character vectors.

use vstd::prelude::*;

use crate::fold::{fold_char, fold_seq, lower_char};
use vstd::string::StrSliceExecFns;

verus! {

/// The characters of `s`, one vector element per code point.
pub fn str_to_chars(s: &str) -> (r: Vec<char>)
    ensures
        r@ == s@,
{
    let n = s.unicode_len();
    let mut r: Vec<char> = Vec::new();
    for i in 0..n
        invariant
            n == s@.len(),
            r@.len() == i,
            forall|k: int| 0 <= k < i ==> r@[k] == s@[k],
    {
        r.push(s.get_char(i));
    }
    proof {
        assert(r@ =~= s@);
    }
    r
}

/// `s` folded to ASCII lower case, character by character.
pub fn fold_string(s: &str) -> (r: String)
    ensures
        r@ == fold_seq(s@),
{
    let n = s.unicode_len();
    let mut r = String::new();
    for i in 0..n
        invariant
            n == s@.len(),
            r@.len() == i,
            forall|k: int| 0 <= k < i ==> r@[k] == fold_char(s@[k]),
    {
        push_char(&mut r, lower_char(s.get_char(i)));
    }
    proof {
        assert(r@ =~= fold_seq(s@));
    }
    r
}

/// The characters of `v`, folded to ASCII lower case.
pub fn fold_chars(v: &Vec<char>) -> (r: Vec<char>)
    ensures
        r@ == fold_seq(v@),
{
    let mut r: Vec<char> = Vec::new();
    let n = v.len();
    for i in 0..n
        invariant
            n == v@.len(),
            r@.len() == i,
            forall|k: int| 0 <= k < i ==> r@[k] == fold_char(v@[k]),
    {
        r.push(lower_char(v[i]));
    }
    proof {
        assert(r@ =~= fold_seq(v@));
    }
    r
}

/// Relies on `String::push`: appends exactly the one character `c` to the
/// end of the string.
#[verifier::external_body]
pub(crate) fn push_char(s: &mut String, c: char)
    ensures
        final(s)@ == old(s)@.push(c),
{
    s.push(c);
}

} // verus!
