//! General properties of the two scans, proved once over every trie.
//!
//! Each law is stated over the specification state machines of [`crate::scan`]
//! and the path view of [`crate::trienode`]; the contracts of
//! [`crate::KeywordProcessor`]'s methods connect them to the executable
//! matcher.

use vstd::prelude::*;

use crate::fold::{fold_seq, lemma_fold_seq_pointwise};
use crate::scan::{find_scan, find_spec, replace_scan, replace_spec};
use crate::trienode::{
    descend, lemma_descend_push, lemma_descend_split, word_at, KeywordTrieNode,
};

verus! {

/// Whether one sequence is a prefix or a suffix of the other.
pub open spec fn shares_affix(a: Seq<char>, b: Seq<char>) -> bool {
    a.is_prefix_of(b) || b.is_prefix_of(a) || a.is_suffix_of(b) || b.is_suffix_of(a)
}

/// After `i` characters of a scan that never meets a keyword, nothing has
/// been collected and the cursor sits at the end of some suffix of the
/// consumed input that started at the root.
proof fn lemma_quiet_scan(root: KeywordTrieNode, keys: Seq<char>, i: int)
    requires
        0 <= i <= keys.len(),
        forall|a: int, b: int|
            0 <= a <= b <= keys.len() ==> #[trigger] word_at(root, keys.subrange(a, b)) is None,
    ensures
        find_scan(root, keys, i).1 == Set::<Seq<char>>::empty(),
        exists|s: int|
            0 <= s <= i && #[trigger] descend(root, keys.subrange(s, i)) == Some(
                find_scan(root, keys, i).0,
            ),
    decreases i,
{
    if i == 0 {
        assert(keys.subrange(0, 0) =~= Seq::<char>::empty());
        assert(descend(root, keys.subrange(0, 0)) == Some(find_scan(root, keys, 0).0));
    } else {
        lemma_quiet_scan(root, keys, i - 1);
        let cur = find_scan(root, keys, i - 1).0;
        let s = choose|s: int|
            0 <= s <= i - 1 && #[trigger] descend(root, keys.subrange(s, i - 1)) == Some(cur);
        match cur.spec_get(keys[i - 1]) {
            Some(next) => {
                assert(keys.subrange(s, i) =~= keys.subrange(s, i - 1).push(keys[i - 1]));
                lemma_descend_push(root, keys.subrange(s, i - 1), keys[i - 1]);
                assert(descend(root, keys.subrange(s, i)) == Some(next));
                assert(word_at(root, keys.subrange(s, i)) is None);
            },
            None => {
                assert(keys.subrange(i, i) =~= Seq::<char>::empty());
                assert(descend(root, keys.subrange(i, i)) == Some(find_scan(root, keys, i).0));
            },
        }
    }
}

/// An input none of whose substrings is a registered keyword is scanned
/// without finding anything.
pub proof fn lemma_no_match_find_empty(root: KeywordTrieNode, keys: Seq<char>)
    requires
        forall|a: int, b: int|
            0 <= a <= b <= keys.len() ==> #[trigger] word_at(root, keys.subrange(a, b)) is None,
    ensures
        find_spec(root, keys) == Set::<Seq<char>>::empty(),
{
    lemma_quiet_scan(root, keys, keys.len() as int);
}

/// A registered keyword that shares no prefix or suffix relationship with
/// any other registered keyword is, scanned on its own, found exactly: the
/// scan reports its replacement text and nothing else.
pub proof fn lemma_isolated_keyword_found(root: KeywordTrieNode, k: Seq<char>, rep: Seq<char>)
    requires
        k.len() > 0,
        word_at(root, k) == Some(rep),
        forall|q: Seq<char>|
            #[trigger] word_at(root, q) is Some && q != k ==> !shares_affix(q, k),
    ensures
        find_spec(root, k) == set![rep],
{
    lemma_isolated_scan(root, k, rep, k.len() as int);
}

/// The induction behind `lemma_isolated_keyword_found`: the scan follows
/// the keyword's own path and collects nothing until its final character.
proof fn lemma_isolated_scan(root: KeywordTrieNode, k: Seq<char>, rep: Seq<char>, i: int)
    requires
        k.len() > 0,
        word_at(root, k) == Some(rep),
        forall|q: Seq<char>|
            #[trigger] word_at(root, q) is Some && q != k ==> !shares_affix(q, k),
        0 <= i <= k.len(),
    ensures
        descend(root, k.take(i)) == Some(find_scan(root, k, i).0),
        find_scan(root, k, i).1 == (if i == k.len() {
            set![rep]
        } else {
            Set::<Seq<char>>::empty()
        }),
    decreases i,
{
    if i == 0 {
        assert(k.take(0) =~= Seq::<char>::empty());
        assert(descend(root, k.take(0)) == Some(root));
    } else {
        lemma_isolated_scan(root, k, rep, i - 1);
        let cur = find_scan(root, k, i - 1).0;
        lemma_descend_split(root, k, i);
        lemma_descend_push(root, k.take(i - 1), k[i - 1]);
        assert(k.take(i) =~= k.take(i - 1).push(k[i - 1]));
        assert(descend(root, k.take(i)) == cur.spec_get(k[i - 1]));
        let next = descend(root, k.take(i))->Some_0;
        if i < k.len() {
            assert(k.take(i).len() < k.len());
            if word_at(root, k.take(i)) is Some {
                assert(k.take(i).is_prefix_of(k));
                assert(false);
            }
        } else {
            assert(k.take(i) =~= k);
            assert(next.spec_word() == Some(rep));
            assert(Set::<Seq<char>>::empty().insert(rep) =~= set![rep]);
        }
    }
}

/// The discovery scan is sound: every word it reports is the emitted text
/// of a keyword registered under some substring of the scanned input. In a
/// matcher that compares characters exactly, text whose casing differs from
/// every registered keyword therefore never produces a match.
pub proof fn lemma_found_words_occur(root: KeywordTrieNode, keys: Seq<char>)
    ensures
        forall|w: Seq<char>|
            #[trigger] find_spec(root, keys).contains(w) ==> exists|a: int, b: int|
                0 <= a <= b <= keys.len() && word_at(root, keys.subrange(a, b)) == Some(w),
{
    lemma_sound_scan(root, keys, keys.len() as int);
}

/// The induction behind `lemma_found_words_occur`.
proof fn lemma_sound_scan(root: KeywordTrieNode, keys: Seq<char>, i: int)
    requires
        0 <= i <= keys.len(),
    ensures
        forall|w: Seq<char>|
            #[trigger] find_scan(root, keys, i).1.contains(w) ==> exists|a: int, b: int|
                0 <= a <= b <= i && word_at(root, keys.subrange(a, b)) == Some(w),
        exists|s: int|
            0 <= s <= i && #[trigger] descend(root, keys.subrange(s, i)) == Some(
                find_scan(root, keys, i).0,
            ),
    decreases i,
{
    if i == 0 {
        assert(keys.subrange(0, 0) =~= Seq::<char>::empty());
        assert(descend(root, keys.subrange(0, 0)) == Some(find_scan(root, keys, 0).0));
    } else {
        lemma_sound_scan(root, keys, i - 1);
        let cur = find_scan(root, keys, i - 1).0;
        let s = choose|s: int|
            0 <= s <= i - 1 && #[trigger] descend(root, keys.subrange(s, i - 1)) == Some(cur);
        match cur.spec_get(keys[i - 1]) {
            Some(next) => {
                assert(keys.subrange(s, i) =~= keys.subrange(s, i - 1).push(keys[i - 1]));
                lemma_descend_push(root, keys.subrange(s, i - 1), keys[i - 1]);
                assert(descend(root, keys.subrange(s, i)) == Some(next));
                match next.spec_word() {
                    Some(w) => {
                        assert(word_at(root, keys.subrange(s, i)) == Some(w));
                    },
                    None => {},
                }
            },
            None => {
                assert(keys.subrange(i, i) =~= Seq::<char>::empty());
                assert(descend(root, keys.subrange(i, i)) == Some(find_scan(root, keys, i).0));
            },
        }
    }
}

/// A case-insensitive matcher scans two inputs that agree character by
/// character up to ASCII case with the same keys, and so finds them alike.
pub proof fn lemma_find_case_insensitive(root: KeywordTrieNode, a: Seq<char>, b: Seq<char>)
    requires
        a.len() == b.len(),
        forall|i: int|
            0 <= i < a.len() ==> crate::fold::fold_char(a[i]) == crate::fold::fold_char(b[i]),
    ensures
        find_spec(root, fold_seq(a)) == find_spec(root, fold_seq(b)),
{
    lemma_fold_seq_pointwise(a, b);
}

/// Registering the same path twice keeps only the latest replacement: two
/// successive registration updates of one path compose to the second alone,
/// and whatever was registered first no longer shows anywhere.
pub proof fn lemma_latest_registration_wins(
    before: KeywordTrieNode,
    middle: KeywordTrieNode,
    after: KeywordTrieNode,
    w: Seq<char>,
    r1: Seq<char>,
    r2: Seq<char>,
)
    requires
        forall|p: Seq<char>|
            #![trigger word_at(middle, p)]
            word_at(middle, p) == (if p == w {
                Some(r1)
            } else {
                word_at(before, p)
            }),
        forall|p: Seq<char>|
            #![trigger word_at(after, p)]
            word_at(after, p) == (if p == w {
                Some(r2)
            } else {
                word_at(middle, p)
            }),
    ensures
        forall|p: Seq<char>|
            #![trigger word_at(after, p)]
            word_at(after, p) == (if p == w {
                Some(r2)
            } else {
                word_at(before, p)
            }),
{
}

/// After `i` characters of a rewrite that never meets a keyword, the output
/// so far and the pending buffer together are exactly the consumed input.
proof fn lemma_quiet_replace_scan(
    root: KeywordTrieNode,
    raws: Seq<char>,
    keys: Seq<char>,
    i: int,
)
    requires
        raws.len() == keys.len(),
        0 <= i <= keys.len(),
        forall|a: int, b: int|
            0 <= a <= b <= keys.len() ==> #[trigger] word_at(root, keys.subrange(a, b)) is None,
    ensures
        exists|s: int|
            0 <= s <= i && #[trigger] descend(root, keys.subrange(s, i)) == Some(
                replace_scan(root, raws, keys, i).0,
            ) && replace_scan(root, raws, keys, i).1 == raws.subrange(s, i) && replace_scan(
                root,
                raws,
                keys,
                i,
            ).2 == raws.subrange(0, s),
    decreases i,
{
    if i == 0 {
        assert(keys.subrange(0, 0) =~= Seq::<char>::empty());
        assert(raws.subrange(0, 0) =~= Seq::<char>::empty());
        assert(descend(root, keys.subrange(0, 0)) == Some(replace_scan(root, raws, keys, 0).0));
    } else {
        lemma_quiet_replace_scan(root, raws, keys, i - 1);
        let cur = replace_scan(root, raws, keys, i - 1).0;
        let s = choose|s: int|
            0 <= s <= i - 1 && #[trigger] descend(root, keys.subrange(s, i - 1)) == Some(cur)
                && replace_scan(root, raws, keys, i - 1).1 == raws.subrange(s, i - 1)
                && replace_scan(root, raws, keys, i - 1).2 == raws.subrange(0, s);
        match cur.spec_get(keys[i - 1]) {
            Some(next) => {
                assert(keys.subrange(s, i) =~= keys.subrange(s, i - 1).push(keys[i - 1]));
                lemma_descend_push(root, keys.subrange(s, i - 1), keys[i - 1]);
                assert(descend(root, keys.subrange(s, i)) == Some(next));
                assert(word_at(root, keys.subrange(s, i)) is None);
                assert(raws.subrange(s, i) =~= raws.subrange(s, i - 1).push(raws[i - 1]));
            },
            None => {
                assert(keys.subrange(i, i) =~= Seq::<char>::empty());
                assert(raws.subrange(i, i) =~= Seq::<char>::empty());
                assert(descend(root, keys.subrange(i, i)) == Some(
                    replace_scan(root, raws, keys, i).0,
                ));
                assert(raws.subrange(0, s) + raws.subrange(s, i - 1).push(raws[i - 1])
                    =~= raws.subrange(0, i));
            },
        }
    }
}

/// An input none of whose substrings is a registered keyword is rewritten
/// to itself: replacement is the identity where nothing matches.
pub proof fn lemma_no_match_replace_identity(
    root: KeywordTrieNode,
    raws: Seq<char>,
    keys: Seq<char>,
)
    requires
        raws.len() == keys.len(),
        forall|a: int, b: int|
            0 <= a <= b <= keys.len() ==> #[trigger] word_at(root, keys.subrange(a, b)) is None,
    ensures
        replace_spec(root, raws, keys) == raws,
{
    lemma_quiet_replace_scan(root, raws, keys, keys.len() as int);
    let i = keys.len() as int;
    let s = choose|s: int|
        0 <= s <= i && #[trigger] descend(root, keys.subrange(s, i)) == Some(
            replace_scan(root, raws, keys, i).0,
        ) && replace_scan(root, raws, keys, i).1 == raws.subrange(s, i) && replace_scan(
            root,
            raws,
            keys,
            i,
        ).2 == raws.subrange(0, s);
    assert(raws.subrange(0, s) + raws.subrange(s, i) =~= raws);
}

/// A rewrite whose result contains no registered keyword is final: scanning
/// the rewritten text finds nothing, so in particular no substituted
/// keyword is met again. Without the hypothesis this can fail, since a
/// replacement together with the text around it may spell a keyword anew.
pub proof fn lemma_rewritten_text_unmatched(
    root: KeywordTrieNode,
    out_keys: Seq<char>,
    k: Seq<char>,
    rep: Seq<char>,
)
    requires
        forall|a: int, b: int|
            0 <= a <= b <= out_keys.len() ==> #[trigger] word_at(
                root,
                out_keys.subrange(a, b),
            ) is None,
        word_at(root, k) == Some(rep),
    ensures
        !find_spec(root, out_keys).contains(rep),
{
    lemma_no_match_find_empty(root, out_keys);
}

} // verus!
