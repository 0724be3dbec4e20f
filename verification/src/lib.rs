//! Single-pass multi-keyword search and replacement over text.
//!
//! A [`KeywordProcessor`] owns a character trie of registered keywords, each
//! with a replacement string, and scans an input in one left-to-right pass:
//! [`KeywordProcessor::find_keywords`] collects the replacements of the
//! keywords it meets, and [`KeywordProcessor::replace_keywords`] rewrites the
//! input with every met keyword substituted. The scan follows at most one
//! trie edge per character and restarts at the root on a mismatch, without
//! retrying the mismatching character, so the cost of a scan is proportional
//! to the input length alone.

pub mod fold;
pub mod laws;
pub mod scan;
pub mod text;
pub mod trienode;

use vstd::prelude::*;

use std::collections::HashSet;

use crate::fold::{lower_char, scan_keys};
use crate::scan::{find_scan, find_spec, replace_scan, replace_spec};
use crate::text::{fold_chars, fold_string, push_char, str_to_chars};
use crate::trienode::{
    descend, keyword_at, lemma_empty_node, trie_wf, word_at, KeywordTrieNode,
};
use vstd::string::StringExecFns;

verus! {

/// The set of character sequences a string set holds, each string read
/// through its view.
pub open spec fn str_set_view(m: HashSet<String>) -> Set<Seq<char>> {
    Set::new(|w: Seq<char>| exists|s: String| #[trigger] m@.contains(s) && s@ == w)
}

/// Relies on `HashSet::insert`: afterwards the set holds the strings it held
/// before together with `s`, and no others; strings equal character for
/// character count as one element.
#[verifier::external_body]
fn set_insert(m: &mut HashSet<String>, s: String)
    ensures
        str_set_view(*final(m)) == str_set_view(*old(m)).insert(s@),
{
    m.insert(s);
}

/// A matcher: one trie of registered keywords behind a fixed case policy.
///
/// `case_sensitive` governs whether text is folded to a canonical case: when
/// it is clear, every registered keyword, every replacement and every
/// scanned character is folded to ASCII lower case before touching the
/// trie, so matching ignores ASCII case; when it is set, characters are
/// compared exactly as given.
pub struct KeywordProcessor {
    case_sensitive: bool,
    root_node: KeywordTrieNode,
}

impl KeywordProcessor {
    /// The trie root the scans start from.
    pub closed spec fn spec_root(self) -> KeywordTrieNode {
        self.root_node
    }

    /// The case policy fixed at construction.
    pub closed spec fn spec_case_sensitive(self) -> bool {
        self.case_sensitive
    }

    /// A valid matcher: the trie is well formed and its root is not
    /// terminal, so the empty path never counts as a keyword.
    pub closed spec fn wf(self) -> bool {
        &&& trie_wf(self.root_node)
        &&& self.root_node.keyword is None
        &&& self.root_node.clean_name is None
    }

    /// An empty matcher with the given case policy: no path leads to a
    /// keyword.
    pub fn new(case_sensitive: bool) -> (r: KeywordProcessor)
        ensures
            r.wf(),
            r.spec_case_sensitive() == case_sensitive,
            forall|p: Seq<char>| #[trigger] word_at(r.spec_root(), p) is None,
            forall|p: Seq<char>| #[trigger] keyword_at(r.spec_root(), p) is None,
            forall|p: Seq<char>| p.len() > 0 ==> #[trigger] descend(r.spec_root(), p) is None,
    {
        let root_node = KeywordTrieNode::new(None, None, Vec::new());
        proof {
            lemma_empty_node(root_node);
        }
        KeywordProcessor { case_sensitive, root_node }
    }

    /// Register `word` as a keyword that stands for itself: scans that meet
    /// it report or emit the word (folded, when the matcher is case-insensitive)
    /// rather than substituting different text.
    pub fn add_keyword(&mut self, word: &str)
        requires
            old(self).wf(),
        ensures
            final(self).wf(),
            final(self).spec_case_sensitive() == old(self).spec_case_sensitive(),
            word@.len() == 0 ==> final(self).spec_root() == old(self).spec_root(),
            word@.len() > 0 ==> forall|p: Seq<char>|
                #![trigger word_at(final(self).spec_root(), p)]
                word_at(final(self).spec_root(), p) == (if p == scan_keys(
                    word@,
                    old(self).spec_case_sensitive(),
                ) {
                    Some(scan_keys(word@, old(self).spec_case_sensitive()))
                } else {
                    word_at(old(self).spec_root(), p)
                }),
            word@.len() > 0 ==> forall|p: Seq<char>|
                #![trigger keyword_at(final(self).spec_root(), p)]
                keyword_at(final(self).spec_root(), p) == (if p == scan_keys(
                    word@,
                    old(self).spec_case_sensitive(),
                ) {
                    Some(scan_keys(word@, old(self).spec_case_sensitive()))
                } else {
                    keyword_at(old(self).spec_root(), p)
                }),
            word@.len() > 0 ==> forall|p: Seq<char>|
                #![trigger descend(final(self).spec_root(), p)]
                (descend(final(self).spec_root(), p) is Some <==> descend(
                    old(self).spec_root(),
                    p,
                ) is Some || p.is_prefix_of(scan_keys(word@, old(self).spec_case_sensitive()))),
    {
        self.add_keywords(word, word);
    }

    /// Register `word` with the replacement `clean_name`. A case-insensitive
    /// matcher folds both to ASCII lower case first. Exactly the path
    /// spelled by the (folded) word changes: registering a word again
    /// overwrites its replacement, and every other registered keyword,
    /// including one the word is a prefix of, is kept. An empty word is
    /// a no-op.
    pub fn add_keywords(&mut self, word: &str, clean_name: &str)
        requires
            old(self).wf(),
        ensures
            final(self).wf(),
            final(self).spec_case_sensitive() == old(self).spec_case_sensitive(),
            word@.len() == 0 ==> final(self).spec_root() == old(self).spec_root(),
            word@.len() > 0 ==> forall|p: Seq<char>|
                #![trigger word_at(final(self).spec_root(), p)]
                word_at(final(self).spec_root(), p) == (if p == scan_keys(
                    word@,
                    old(self).spec_case_sensitive(),
                ) {
                    Some(scan_keys(clean_name@, old(self).spec_case_sensitive()))
                } else {
                    word_at(old(self).spec_root(), p)
                }),
            word@.len() > 0 ==> forall|p: Seq<char>|
                #![trigger keyword_at(final(self).spec_root(), p)]
                keyword_at(final(self).spec_root(), p) == (if p == scan_keys(
                    word@,
                    old(self).spec_case_sensitive(),
                ) {
                    Some(scan_keys(word@, old(self).spec_case_sensitive()))
                } else {
                    keyword_at(old(self).spec_root(), p)
                }),
            word@.len() > 0 ==> forall|p: Seq<char>|
                #![trigger descend(final(self).spec_root(), p)]
                (descend(final(self).spec_root(), p) is Some <==> descend(
                    old(self).spec_root(),
                    p,
                ) is Some || p.is_prefix_of(scan_keys(word@, old(self).spec_case_sensitive()))),
    {
        let raw = str_to_chars(word);
        if self.case_sensitive {
            self.root_node.add(word, clean_name, &raw);
        } else {
            let path = fold_chars(&raw);
            let folded_word = fold_string(word);
            let folded_rep = fold_string(clean_name);
            self.root_node.add(folded_word.as_str(), folded_rep.as_str(), &path);
        }
        proof {
            if word@.len() > 0 {
                assert(word_at(self.root_node, Seq::<char>::empty()) == word_at(
                    old(self).root_node,
                    Seq::<char>::empty(),
                ));
                assert(descend(self.root_node, Seq::<char>::empty()) == Some(self.root_node));
                assert(descend(old(self).root_node, Seq::<char>::empty()) == Some(
                    old(self).root_node,
                ));
            }
        }
    }

    /// Scan `input` once and collect the replacement text of every keyword
    /// the scan meets, as the discovery state machine over the (possibly
    /// folded) input describes. Unordered, without duplicates; an input
    /// without matches gives the empty set.
    pub fn find_keywords(&self, input: &str) -> (r: HashSet<String>)
        ensures
            str_set_view(r) == find_spec(
                self.spec_root(),
                scan_keys(input@, self.spec_case_sensitive()),
            ),
    {
        let mut found: HashSet<String> = HashSet::new();
        let cs = str_to_chars(input);
        let ghost keys = scan_keys(input@, self.spec_case_sensitive());
        let mut cur: &KeywordTrieNode = &self.root_node;
        let n = cs.len();
        proof {
            assert(str_set_view(found) =~= Set::<Seq<char>>::empty());
        }
        for i in 0..n
            invariant
                n == cs@.len(),
                cs@ == input@,
                keys == scan_keys(input@, self.spec_case_sensitive()),
                keys.len() == n,
                *cur == find_scan(self.spec_root(), keys, i as int).0,
                str_set_view(found) == find_scan(self.spec_root(), keys, i as int).1,
        {
            let raw = cs[i];
            let ch = if self.case_sensitive {
                raw
            } else {
                lower_char(raw)
            };
            proof {
                assert(keys[i as int] == ch);
            }
            match cur.get(ch) {
                Some(next) => {
                    cur = next;
                    match cur.get_word() {
                        Some(w) => {
                            set_insert(&mut found, w);
                            proof {
                                assert(str_set_view(found) == find_scan(
                                    self.spec_root(),
                                    keys,
                                    i + 1,
                                ).1);
                            }
                        },
                        None => {},
                    }
                },
                None => {
                    cur = &self.root_node;
                },
            }
        }
        found
    }

    /// Scan `input` once and rewrite it: every keyword the scan meets is
    /// replaced by its replacement text, matching greedily along one forward
    /// path, and all other characters are emitted unchanged — a
    /// case-insensitive matcher keeps the caller's original casing for them.
    /// The matcher itself is left as it was.
    pub fn replace_keywords(&mut self, input: &str) -> (r: String)
        ensures
            *final(self) == *old(self),
            r@ == replace_spec(
                old(self).spec_root(),
                input@,
                scan_keys(input@, old(self).spec_case_sensitive()),
            ),
    {
        let mut output = String::new();
        let mut buffer = String::new();
        let cs = str_to_chars(input);
        let ghost keys = scan_keys(input@, self.spec_case_sensitive());
        let mut cur: &KeywordTrieNode = &self.root_node;
        let n = cs.len();
        for i in 0..n
            invariant
                n == cs@.len(),
                cs@ == input@,
                keys == scan_keys(input@, self.spec_case_sensitive()),
                keys.len() == n,
                *cur == replace_scan(self.spec_root(), input@, keys, i as int).0,
                buffer@ == replace_scan(self.spec_root(), input@, keys, i as int).1,
                output@ == replace_scan(self.spec_root(), input@, keys, i as int).2,
        {
            let raw = cs[i];
            let ch = if self.case_sensitive {
                raw
            } else {
                lower_char(raw)
            };
            proof {
                assert(keys[i as int] == ch);
                assert(input@[i as int] == raw);
            }
            match cur.get(ch) {
                Some(next) => {
                    cur = next;
                    match cur.get_word() {
                        Some(w) => {
                            buffer = w;
                        },
                        None => {
                            push_char(&mut buffer, raw);
                        },
                    }
                },
                None => {
                    output.append(buffer.as_str());
                    push_char(&mut output, raw);
                    buffer = String::new();
                    cur = &self.root_node;
                },
            }
        }
        output.append(buffer.as_str());
        output
    }
}

} // verus!
