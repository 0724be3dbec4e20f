//! ASCII case folding.
//!
//! A case-insensitive matcher maps every keyword, replacement and scanned
//! character to lower case before it touches the trie, so that matching
//! ignores ASCII case. Only the letters `'A'..='Z'` are affected;
//! every other character, ASCII or not, passes through unchanged.

use vstd::prelude::*;

verus! {

/// The lower-case image of a single character: `'A'..='Z'` shift down by 32,
/// everything else is unchanged.
pub open spec fn fold_char(c: char) -> char {
    if 65 <= c as u32 && c as u32 <= 90 {
        (((c as u32) + 32) as u8) as char
    } else {
        c
    }
}

/// A sequence folded character by character.
pub open spec fn fold_seq(s: Seq<char>) -> Seq<char> {
    s.map_values(|c: char| fold_char(c))
}

/// The character sequence a scan walks the trie with: the input itself for
/// a case-sensitive matcher, its folded image for a case-insensitive one.
pub open spec fn scan_keys(s: Seq<char>, case_sensitive: bool) -> Seq<char> {
    if case_sensitive {
        s
    } else {
        fold_seq(s)
    }
}

/// Lower-case a single character, as `fold_char` describes.
pub fn lower_char(c: char) -> (r: char)
    ensures
        r == fold_char(c),
{
    let u = c as u32;
    if 65 <= u && u <= 90 {
        ((u + 32) as u8) as char
    } else {
        c
    }
}

/// Folding twice is the same as folding once: the image of `fold_char`
/// contains no upper-case ASCII letter.
pub proof fn lemma_fold_char_idempotent(c: char)
    ensures
        fold_char(fold_char(c)) == fold_char(c),
{
}

/// Folding a sequence twice is the same as folding it once.
pub proof fn lemma_fold_seq_idempotent(s: Seq<char>)
    ensures
        fold_seq(fold_seq(s)) == fold_seq(s),
{
    assert(fold_seq(fold_seq(s)) =~= fold_seq(s)) by {
        assert forall|i: int| 0 <= i < s.len() implies fold_seq(fold_seq(s))[i] == fold_seq(s)[i] by {
            lemma_fold_char_idempotent(s[i]);
        }
    }
}

/// Two sequences that agree character by character under folding have the
/// same folded image.
pub proof fn lemma_fold_seq_pointwise(a: Seq<char>, b: Seq<char>)
    requires
        a.len() == b.len(),
        forall|i: int| 0 <= i < a.len() ==> fold_char(a[i]) == fold_char(b[i]),
    ensures
        fold_seq(a) == fold_seq(b),
{
    assert(fold_seq(a) =~= fold_seq(b));
}

} // verus!
