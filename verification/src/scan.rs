//! The two traversal state machines, as specifications.
//!
//! Both scans walk the input once, keeping one cursor node. For each
//! character the cursor either follows the matching edge or resets to the
//! root; a character that caused a mismatch is not retried, and the next
//! character starts fresh from the root. There is no failure function: an
//! occurrence whose start was consumed while a longer candidate was being
//! followed is skipped, deliberately.
//!
//! [`find_scan`] accumulates the emitted text of every terminal node the
//! cursor passes. [`replace_scan`] additionally keeps a buffer of raw
//! characters consumed since the last reset: reaching a terminal locks the
//! buffer to that node's replacement, a mismatch flushes buffer and
//! mismatching character to the output, and the end of input flushes
//! whatever remains.

use vstd::prelude::*;

use crate::trienode::KeywordTrieNode;

verus! {

/// Cursor and collected words of the discovery scan after `i` characters of
/// `keys`.
pub open spec fn find_scan(root: KeywordTrieNode, keys: Seq<char>, i: int) -> (
    KeywordTrieNode,
    Set<Seq<char>>,
)
    decreases i,
{
    if i <= 0 {
        (root, Set::<Seq<char>>::empty())
    } else {
        let (cur, acc) = find_scan(root, keys, i - 1);
        match cur.spec_get(keys[i - 1]) {
            Some(next) => (
                next,
                match next.spec_word() {
                    Some(w) => acc.insert(w),
                    None => acc,
                },
            ),
            None => (root, acc),
        }
    }
}

/// The set of replacement texts the discovery scan collects over all of
/// `keys`.
pub open spec fn find_spec(root: KeywordTrieNode, keys: Seq<char>) -> Set<Seq<char>> {
    find_scan(root, keys, keys.len() as int).1
}

/// Cursor, pending buffer and flushed output of the replacement scan after
/// `i` characters. The trie is walked with `keys`; the characters emitted
/// for unmatched text come from `raws`, so a case-folding scan reproduces
/// the original casing of whatever it does not replace.
pub open spec fn replace_scan(root: KeywordTrieNode, raws: Seq<char>, keys: Seq<char>, i: int) -> (
    KeywordTrieNode,
    Seq<char>,
    Seq<char>,
)
    decreases i,
{
    if i <= 0 {
        (root, Seq::<char>::empty(), Seq::<char>::empty())
    } else {
        let (cur, buf, out) = replace_scan(root, raws, keys, i - 1);
        match cur.spec_get(keys[i - 1]) {
            Some(next) => match next.spec_word() {
                Some(w) => (next, w, out),
                None => (next, buf.push(raws[i - 1]), out),
            },
            None => (root, Seq::<char>::empty(), out + buf.push(raws[i - 1])),
        }
    }
}

/// The rewritten text the replacement scan produces over all of `raws`:
/// the flushed output followed by whatever the buffer still holds.
pub open spec fn replace_spec(root: KeywordTrieNode, raws: Seq<char>, keys: Seq<char>) -> Seq<
    char,
> {
    let (cur, buf, out) = replace_scan(root, raws, keys, raws.len() as int);
    out + buf
}

} // verus!
