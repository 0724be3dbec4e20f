//! The keyword trie.
//!
//! A [`KeywordTrieNode`] owns a list of children, one per distinct character,
//! and optionally carries terminal data: the registered keyword that ends at
//! this node and the text to substitute for it. The trie only grows; nodes
//! are created lazily along insertion paths and never removed.
//!
//! The specification views the trie through paths: [`descend`] follows a
//! character sequence edge by edge, [`word_at`] and [`keyword_at`] read the
//! terminal data at the end of such a path. A trie is well formed
//! ([`trie_wf`]) when every reachable node keys its children by distinct
//! characters.

use vstd::prelude::*;

verus! {

/// One node of the keyword trie.
pub struct KeywordTrieNode {
    /// The registered keyword that terminates here, if any.
    pub keyword: Option<String>,
    /// The text substituted for that keyword; meaningful only on terminal
    /// nodes, and defaulting to the keyword itself when absent.
    pub clean_name: Option<String>,
    /// The children, keyed by the character labelling the edge.
    pub children: Vec<(char, KeywordTrieNode)>,
}

/// The first entry of `s` labelled `c`, if any.
pub open spec fn seq_get(s: Seq<(char, KeywordTrieNode)>, c: char) -> Option<KeywordTrieNode>
    decreases s.len(),
{
    if s.len() == 0 {
        None
    } else if s[0].0 == c {
        Some(s[0].1)
    } else {
        seq_get(s.drop_first(), c)
    }
}

impl KeywordTrieNode {
    /// The child reached from this node along the edge labelled `c`.
    pub open spec fn spec_get(self, c: char) -> Option<KeywordTrieNode> {
        seq_get(self.children@, c)
    }

    /// The text this node emits when a scan reaches it: the replacement if
    /// one is set, otherwise the keyword itself.
    pub open spec fn spec_word(self) -> Option<Seq<char>> {
        match self.clean_name {
            Some(r) => Some(r@),
            None => match self.keyword {
                Some(k) => Some(k@),
                None => None,
            },
        }
    }

    /// The keyword that terminates at this node, if any.
    pub open spec fn spec_keyword(self) -> Option<Seq<char>> {
        match self.keyword {
            Some(k) => Some(k@),
            None => None,
        }
    }
}

/// The node reached from `n` along the path `p`, if every edge of `p` exists.
pub open spec fn descend(n: KeywordTrieNode, p: Seq<char>) -> Option<KeywordTrieNode>
    decreases p.len(),
{
    if p.len() == 0 {
        Some(n)
    } else {
        match n.spec_get(p[0]) {
            Some(m) => descend(m, p.drop_first()),
            None => None,
        }
    }
}

/// The text emitted for the keyword registered under path `p`, if `p` leads
/// to a terminal node.
pub open spec fn word_at(n: KeywordTrieNode, p: Seq<char>) -> Option<Seq<char>> {
    match descend(n, p) {
        Some(m) => m.spec_word(),
        None => None,
    }
}

/// The keyword registered under path `p`, if `p` leads to a terminal node.
pub open spec fn keyword_at(n: KeywordTrieNode, p: Seq<char>) -> Option<Seq<char>> {
    match descend(n, p) {
        Some(m) => m.spec_keyword(),
        None => None,
    }
}

/// The children of this one node are keyed by distinct characters.
pub open spec fn node_distinct(n: KeywordTrieNode) -> bool {
    forall|i: int, j: int|
        0 <= i < j < n.children@.len() ==> n.children@[i].0 != n.children@[j].0
}

/// Every node reachable from `n` keys its children by distinct characters.
pub open spec fn trie_wf(n: KeywordTrieNode) -> bool {
    forall|p: Seq<char>|
        #[trigger] descend(n, p) matches Some(m) ==> node_distinct(m)
}

/// A first-match lookup that finds nothing means no entry carries the label.
proof fn lemma_seq_get_none(s: Seq<(char, KeywordTrieNode)>, c: char)
    ensures
        seq_get(s, c) is None <==> (forall|i: int| 0 <= i < s.len() ==> s[i].0 != c),
    decreases s.len(),
{
    if s.len() > 0 {
        lemma_seq_get_none(s.drop_first(), c);
        assert forall|i: int| 1 <= i < s.len() implies s[i] == s.drop_first()[i - 1] by {}
    }
}

/// The first-match lookup returns the entry at the lowest index carrying the
/// label.
proof fn lemma_seq_get_first(s: Seq<(char, KeywordTrieNode)>, c: char, j: int)
    requires
        0 <= j < s.len(),
        s[j].0 == c,
        forall|k: int| 0 <= k < j ==> s[k].0 != c,
    ensures
        seq_get(s, c) == Some(s[j].1),
    decreases s.len(),
{
    if j > 0 {
        assert(forall|k: int| 0 <= k < j - 1 ==> s.drop_first()[k] == s[k + 1]);
        assert(s.drop_first()[j - 1] == s[j]);
        lemma_seq_get_first(s.drop_first(), c, j - 1);
    }
}

/// Appending an entry does not change the lookup of any other label.
proof fn lemma_seq_get_push_other(
    s: Seq<(char, KeywordTrieNode)>,
    e: (char, KeywordTrieNode),
    c: char,
)
    requires
        e.0 != c,
    ensures
        seq_get(s.push(e), c) == seq_get(s, c),
    decreases s.len(),
{
    if s.len() == 0 {
        assert(s.push(e)[0] == e);
        assert(s.push(e).drop_first() =~= Seq::<(char, KeywordTrieNode)>::empty());
        assert(seq_get(s.push(e).drop_first(), c) is None);
        assert(seq_get(s.push(e), c) is None);
        assert(seq_get(s, c) is None);
    } else {
        assert(s.push(e)[0] == s[0]);
        assert(s.push(e).drop_first() =~= s.drop_first().push(e));
        lemma_seq_get_push_other(s.drop_first(), e, c);
        if s[0].0 == c {
            assert(seq_get(s, c) == Some(s[0].1));
            assert(seq_get(s.push(e), c) == Some(s.push(e)[0].1));
        } else {
            assert(seq_get(s, c) == seq_get(s.drop_first(), c));
            assert(seq_get(s.push(e), c) == seq_get(s.push(e).drop_first(), c));
        }
    }
}

/// Removing an entry with another label does not change the lookup of `c`.
proof fn lemma_seq_get_remove_other(s: Seq<(char, KeywordTrieNode)>, j: int, c: char)
    requires
        0 <= j < s.len(),
        s[j].0 != c,
    ensures
        seq_get(s.remove(j), c) == seq_get(s, c),
    decreases s.len(),
{
    if j == 0 {
        assert(s.remove(0) =~= s.drop_first());
    } else {
        assert(s.remove(j)[0] == s[0]);
        assert(s.remove(j).drop_first() =~= s.drop_first().remove(j - 1));
        assert(s.drop_first()[j - 1] == s[j]);
        if s[0].0 != c {
            lemma_seq_get_remove_other(s.drop_first(), j - 1, c);
        }
    }
}

/// A well-formed trie keys the children of its root by distinct characters.
pub proof fn lemma_trie_wf_self(n: KeywordTrieNode)
    requires
        trie_wf(n),
    ensures
        node_distinct(n),
{
    assert(descend(n, Seq::<char>::empty()) == Some(n));
}

/// Well-formedness is inherited by every child.
pub proof fn lemma_trie_wf_child(n: KeywordTrieNode, c: char, m: KeywordTrieNode)
    requires
        trie_wf(n),
        n.spec_get(c) == Some(m),
    ensures
        trie_wf(m),
{
    assert forall|p: Seq<char>| #[trigger] descend(m, p) is Some implies node_distinct(
        descend(m, p)->Some_0,
    ) by {
        let q = seq![c] + p;
        assert(q[0] == c);
        assert(q.drop_first() =~= p);
        assert(descend(n, q) == descend(m, p));
    }
}

/// Extending a path by one character descends one further edge.
pub proof fn lemma_descend_push(n: KeywordTrieNode, p: Seq<char>, c: char)
    ensures
        descend(n, p.push(c)) == (match descend(n, p) {
            Some(m) => m.spec_get(c),
            None => None,
        }),
    decreases p.len(),
{
    if p.len() == 0 {
        assert(p.push(c)[0] == c);
        assert(p.push(c).drop_first() =~= Seq::<char>::empty());
        match n.spec_get(c) {
            Some(m) => {
                assert(descend(m, p.push(c).drop_first()) == Some(m));
            },
            None => {},
        }
    } else {
        assert(p.push(c)[0] == p[0]);
        assert(p.push(c).drop_first() =~= p.drop_first().push(c));
        match n.spec_get(p[0]) {
            Some(m) => {
                lemma_descend_push(m, p.drop_first(), c);
                assert(descend(n, p.push(c)) == descend(m, p.drop_first().push(c)));
                assert(descend(n, p) == descend(m, p.drop_first()));
            },
            None => {},
        }
    }
}

/// Descending along a path is descending along a prefix of it and then
/// along the rest.
pub proof fn lemma_descend_split(n: KeywordTrieNode, p: Seq<char>, i: int)
    requires
        0 <= i <= p.len(),
    ensures
        descend(n, p) == (match descend(n, p.take(i)) {
            Some(m) => descend(m, p.skip(i)),
            None => None,
        }),
    decreases i,
{
    if i == 0 {
        assert(p.take(0) =~= Seq::<char>::empty());
        assert(p.skip(0) =~= p);
    } else {
        lemma_descend_split(n, p, i - 1);
        assert(p.take(i) =~= p.take(i - 1).push(p[i - 1]));
        lemma_descend_push(n, p.take(i - 1), p[i - 1]);
        match descend(n, p.take(i - 1)) {
            Some(m) => {
                assert(p.skip(i - 1)[0] == p[i - 1]);
                assert(p.skip(i - 1).drop_first() =~= p.skip(i));
                assert(p.skip(i - 1).len() > 0);
            },
            None => {},
        }
    }
}

/// A nonempty prefix relation steps down with the shared first character.
pub proof fn lemma_prefix_step(p: Seq<char>, q: Seq<char>)
    requires
        p.len() > 0,
        q.len() > 0,
        p[0] == q[0],
    ensures
        p.is_prefix_of(q) <==> p.drop_first().is_prefix_of(q.drop_first()),
{
    let pr = p.drop_first();
    let qr = q.drop_first();
    if p.is_prefix_of(q) {
        assert forall|i: int| 0 <= i < pr.len() implies pr[i] == qr.subrange(
            0,
            pr.len() as int,
        )[i] by {
            assert(pr[i] == p[i + 1]);
            assert(q.subrange(0, p.len() as int)[i + 1] == q[i + 1]);
            assert(qr[i] == q[i + 1]);
        }
        assert(pr =~= qr.subrange(0, pr.len() as int));
    }
    if pr.is_prefix_of(qr) {
        assert forall|i: int| 0 <= i < p.len() implies p[i] == q.subrange(
            0,
            p.len() as int,
        )[i] by {
            if i > 0 {
                assert(p[i] == pr[i - 1]);
                assert(pr[i - 1] == qr.subrange(0, pr.len() as int)[i - 1]);
                assert(qr[i - 1] == q[i]);
            }
        }
        assert(p =~= q.subrange(0, p.len() as int));
    }
}

/// A node without children or terminal data is well formed and carries no
/// keyword under any path.
pub proof fn lemma_empty_node(n: KeywordTrieNode)
    requires
        n.keyword is None,
        n.clean_name is None,
        n.children@.len() == 0,
    ensures
        trie_wf(n),
        forall|p: Seq<char>| #[trigger] word_at(n, p) is None,
        forall|p: Seq<char>| #[trigger] keyword_at(n, p) is None,
        forall|p: Seq<char>| p.len() > 0 ==> #[trigger] descend(n, p) is None,
{
    assert forall|p: Seq<char>| p.len() > 0 implies #[trigger] descend(n, p) is None by {
        assert(seq_get(n.children@, p[0]) is None);
    }
    assert forall|p: Seq<char>| #[trigger] descend(n, p) is Some implies node_distinct(
        descend(n, p)->Some_0,
    ) by {
        if p.len() > 0 {
            assert(seq_get(n.children@, p[0]) is None);
        }
    }
    assert forall|p: Seq<char>| #[trigger] word_at(n, p) is None by {
        if p.len() > 0 {
            assert(seq_get(n.children@, p[0]) is None);
        }
    }
    assert forall|p: Seq<char>| #[trigger] keyword_at(n, p) is None by {
        if p.len() > 0 {
            assert(seq_get(n.children@, p[0]) is None);
        }
    }
}

impl KeywordTrieNode {
    /// Assemble a node from its parts.
    pub fn new(
        keyword: Option<String>,
        clean_name: Option<String>,
        children: Vec<(char, KeywordTrieNode)>,
    ) -> (r: KeywordTrieNode)
        ensures
            r.keyword == keyword,
            r.clean_name == clean_name,
            r.children == children,
    {
        KeywordTrieNode { keyword, clean_name, children }
    }

    /// The index of the first child labelled `c`, if any.
    fn find_child(&self, c: char) -> (r: Option<usize>)
        ensures
            match r {
                Some(j) => {
                    &&& j < self.children@.len()
                    &&& self.children@[j as int].0 == c
                    &&& forall|k: int| 0 <= k < j ==> self.children@[k].0 != c
                },
                None => forall|i: int| 0 <= i < self.children@.len() ==> self.children@[i].0 != c,
            },
    {
        let n = self.children.len();
        for i in 0..n
            invariant
                n == self.children@.len(),
                forall|k: int| 0 <= k < i ==> self.children@[k].0 != c,
        {
            if self.children[i].0 == c {
                return Some(i);
            }
        }
        None
    }

    /// Whether an edge labelled `key` leaves this node.
    pub fn contains(&self, key: char) -> (r: bool)
        ensures
            r == (self.spec_get(key) is Some),
    {
        match self.find_child(key) {
            Some(j) => {
                proof {
                    lemma_seq_get_first(self.children@, key, j as int);
                }
                true
            },
            None => {
                proof {
                    lemma_seq_get_none(self.children@, key);
                }
                false
            },
        }
    }

    /// Whether exactly the keyword `word` terminates at this node.
    pub fn contains_word(&self, word: &str) -> (r: bool)
        ensures
            r == (self.spec_keyword() matches Some(k) && k == word@),
    {
        match &self.keyword {
            Some(k) => {
                let w = word.to_owned();
                *k == w
            },
            None => false,
        }
    }

    /// Whether this node has no children.
    pub fn is_empty(&self) -> (r: bool)
        ensures
            r == (self.children@.len() == 0),
    {
        self.children.len() == 0
    }

    /// The child reached along the edge labelled `c`, if any.
    pub fn get(&self, c: char) -> (r: Option<&KeywordTrieNode>)
        ensures
            match r {
                Some(m) => self.spec_get(c) == Some(*m),
                None => self.spec_get(c) is None,
            },
    {
        match self.find_child(c) {
            Some(j) => {
                proof {
                    lemma_seq_get_first(self.children@, c, j as int);
                }
                Some(&self.children[j].1)
            },
            None => {
                proof {
                    lemma_seq_get_none(self.children@, c);
                }
                None
            },
        }
    }

    /// The text this node emits when a scan reaches it, as `spec_word`
    /// describes.
    pub fn get_word(&self) -> (r: Option<String>)
        ensures
            match r {
                Some(w) => self.spec_word() == Some(w@),
                None => self.spec_word() is None,
            },
    {
        match &self.clean_name {
            Some(r) => Some(r.clone()),
            None => match &self.keyword {
                Some(k) => Some(k.clone()),
                None => None,
            },
        }
    }

    /// Register `word` with replacement `clean_name` under the path spelled
    /// by `characters`, creating missing nodes on the way. Exactly the path's
    /// terminal data changes: every other registered keyword is kept, even
    /// one whose path extends this one. Registering under an already
    /// registered path overwrites its replacement. An empty path leaves the
    /// node untouched, so this node itself never becomes terminal through
    /// insertion.
    pub fn add(&mut self, word: &str, clean_name: &str, characters: &Vec<char>)
        requires
            trie_wf(*old(self)),
        ensures
            trie_wf(*final(self)),
            characters@.len() == 0 ==> *final(self) == *old(self),
            characters@.len() > 0 ==> forall|p: Seq<char>|
                #![trigger word_at(*final(self), p)]
                word_at(*final(self), p) == (if p == characters@ {
                    Some(clean_name@)
                } else {
                    word_at(*old(self), p)
                }),
            characters@.len() > 0 ==> forall|p: Seq<char>|
                #![trigger keyword_at(*final(self), p)]
                keyword_at(*final(self), p) == (if p == characters@ {
                    Some(word@)
                } else {
                    keyword_at(*old(self), p)
                }),
            characters@.len() > 0 ==> forall|p: Seq<char>|
                #![trigger descend(*final(self), p)]
                (descend(*final(self), p) is Some <==> descend(*old(self), p) is Some
                    || p.is_prefix_of(characters@)),
    {
        if characters.len() == 0 {
            return;
        }
        self.add_rec(word, clean_name, characters, 0);
        proof {
            assert(characters@.skip(0) =~= characters@);
        }
    }

    /// Register the path suffix `characters[from..]` below this node.
    fn add_rec(&mut self, word: &str, clean_name: &str, characters: &Vec<char>, from: usize)
        requires
            trie_wf(*old(self)),
            from <= characters@.len(),
        ensures
            trie_wf(*final(self)),
            forall|p: Seq<char>|
                #![trigger word_at(*final(self), p)]
                word_at(*final(self), p) == (if p == characters@.skip(from as int) {
                    Some(clean_name@)
                } else {
                    word_at(*old(self), p)
                }),
            forall|p: Seq<char>|
                #![trigger keyword_at(*final(self), p)]
                keyword_at(*final(self), p) == (if p == characters@.skip(from as int) {
                    Some(word@)
                } else {
                    keyword_at(*old(self), p)
                }),
            forall|p: Seq<char>|
                #![trigger descend(*final(self), p)]
                (descend(*final(self), p) is Some <==> descend(*old(self), p) is Some
                    || p.is_prefix_of(characters@.skip(from as int))),
        decreases characters@.len() - from,
    {
        let ghost old_self = *old(self);
        let ghost suffix = characters@.skip(from as int);
        if from == characters.len() {
            self.keyword = Some(word.to_owned());
            self.clean_name = Some(clean_name.to_owned());
            proof {
                assert(suffix =~= Seq::<char>::empty());
                assert forall|p: Seq<char>| p.len() > 0 implies descend(*self, p) == descend(
                    old_self,
                    p,
                ) by {
                    assert(self.children@ == old_self.children@);
                }
                lemma_trie_wf_self(old_self);
                assert forall|p: Seq<char>| #[trigger] descend(*self, p) is Some implies
                    node_distinct(descend(*self, p)->Some_0) by {
                    if p.len() == 0 {
                        assert(node_distinct(*self));
                    } else {
                        assert(descend(old_self, p) is Some);
                    }
                }
                assert forall|p: Seq<char>|
                    word_at(*self, p) == (if p == suffix {
                        Some(clean_name@)
                    } else {
                        word_at(old_self, p)
                    }) && keyword_at(*self, p) == (if p == suffix {
                        Some(word@)
                    } else {
                        keyword_at(old_self, p)
                    }) by {
                    if p.len() == 0 {
                        assert(p =~= suffix);
                    } else {
                        assert(descend(*self, p) == descend(old_self, p));
                        assert(p != suffix);
                    }
                }
                assert forall|p: Seq<char>|
                    #![trigger descend(*self, p)]
                    (descend(*self, p) is Some <==> descend(old_self, p) is Some
                        || p.is_prefix_of(suffix)) by {
                    if p.len() > 0 {
                        assert(descend(*self, p) == descend(old_self, p));
                    }
                }
            }
        } else {
            let c = characters[from];
            let ghost s0 = self.children@;
            proof {
                lemma_trie_wf_self(old_self);
            }
            let j_opt = self.find_child(c);
            let mut child: KeywordTrieNode;
            match j_opt {
                Some(j) => {
                    let pair = self.children.remove(j);
                    child = pair.1;
                    proof {
                        lemma_seq_get_first(s0, c, j as int);
                        lemma_trie_wf_child(old_self, c, child);
                    }
                },
                None => {
                    child = KeywordTrieNode::new(None, None, Vec::new());
                    proof {
                        lemma_seq_get_none(s0, c);
                        lemma_empty_node(child);
                    }
                },
            }
            let ghost s1 = self.children@;
            let ghost child0 = child;
            proof {
                // No entry of the remaining children carries `c`, and their
                // labels stay distinct.
                match j_opt {
                    Some(j) => {
                        let j = j as int;
                        assert forall|i: int| 0 <= i < s1.len() implies s1[i] == (if i < j {
                            s0[i]
                        } else {
                            s0[i + 1]
                        }) by {}
                        assert forall|i: int| 0 <= i < s1.len() implies s1[i].0 != c by {}
                    },
                    None => {
                        assert(s1 == s0);
                    },
                }
            }
            child.add_rec(word, clean_name, characters, from + 1);
            let ghost child1 = child;
            self.children.push((c, child));
            proof {
                let s2 = self.children@;
                let rest_suffix = characters@.skip(from as int + 1);
                assert(suffix.len() == characters@.len() - from);
                assert(suffix[0] == c);
                assert(suffix.drop_first() =~= rest_suffix);
                // The final children are distinct and look up as the old
                // ones did, except at `c`, which now reaches the new child.
                assert(node_distinct(*self));
                lemma_seq_get_first(s2, c, s2.len() - 1);
                assert(seq_get(s2, c) == Some(child1));
                assert forall|c0: char| c0 != c implies seq_get(s2, c0) == seq_get(s0, c0) by {
                    lemma_seq_get_push_other(s1, (c, child1), c0);
                    match j_opt {
                        Some(j) => {
                            lemma_seq_get_remove_other(s0, j as int, c0);
                        },
                        None => {},
                    }
                }
                assert forall|p: Seq<char>|
                    word_at(*self, p) == (if p == suffix {
                        Some(clean_name@)
                    } else {
                        word_at(old_self, p)
                    }) && keyword_at(*self, p) == (if p == suffix {
                        Some(word@)
                    } else {
                        keyword_at(old_self, p)
                    }) by {
                    if p.len() == 0 {
                        assert(p != suffix);
                    } else {
                        let rest = p.drop_first();
                        if p[0] == c {
                            assert(descend(*self, p) == descend(child1, rest));
                            assert(word_at(*self, p) == word_at(child1, rest));
                            assert(keyword_at(*self, p) == keyword_at(child1, rest));
                            if p == suffix {
                                assert(rest == rest_suffix);
                            } else {
                                assert(rest != rest_suffix) by {
                                    if rest == rest_suffix {
                                        assert forall|i: int| 0 <= i < p.len() implies p[i]
                                            == suffix[i] by {
                                            if i > 0 {
                                                assert(rest[i - 1] == rest_suffix[i - 1]);
                                            }
                                        }
                                        assert(p =~= suffix);
                                    }
                                }
                            }
                            if j_opt is Some {
                                assert(descend(old_self, p) == descend(child0, rest));
                            } else {
                                assert(descend(old_self, p) is None);
                                assert(word_at(child0, rest) is None);
                                assert(keyword_at(child0, rest) is None);
                            }
                        } else {
                            assert(seq_get(s2, p[0]) == seq_get(s0, p[0]));
                            assert(descend(*self, p) == descend(old_self, p));
                            assert(p != suffix);
                        }
                    }
                }
                assert forall|p: Seq<char>| #[trigger] descend(*self, p) is Some implies
                    node_distinct(descend(*self, p)->Some_0) by {
                    if p.len() == 0 {
                    } else {
                        let rest = p.drop_first();
                        if p[0] == c {
                            assert(descend(*self, p) == descend(child1, rest));
                        } else {
                            assert(seq_get(s2, p[0]) == seq_get(s0, p[0]));
                            assert(descend(*self, p) == descend(old_self, p));
                            assert(descend(old_self, p) is Some);
                        }
                    }
                }
                assert forall|p: Seq<char>|
                    #![trigger descend(*self, p)]
                    (descend(*self, p) is Some <==> descend(old_self, p) is Some
                        || p.is_prefix_of(suffix)) by {
                    if p.len() == 0 {
                    } else {
                        let rest = p.drop_first();
                        if p[0] == c {
                            lemma_prefix_step(p, suffix);
                            assert(descend(*self, p) == descend(child1, rest));
                            assert(descend(child1, rest) is Some <==> descend(child0, rest) is Some
                                || rest.is_prefix_of(rest_suffix));
                            if j_opt is Some {
                                assert(descend(old_self, p) == descend(child0, rest));
                            } else {
                                assert(descend(old_self, p) is None);
                                if rest.len() == 0 {
                                    assert(descend(child0, rest) == Some(child0));
                                    assert(rest =~= rest_suffix.subrange(0, 0));
                                } else {
                                    assert(descend(child0, rest) is None);
                                }
                            }
                        } else {
                            assert(seq_get(s2, p[0]) == seq_get(s0, p[0]));
                            assert(descend(*self, p) == descend(old_self, p));
                            if p.is_prefix_of(suffix) {
                                assert(p[0] == suffix.subrange(0, p.len() as int)[0]);
                                assert(false);
                            }
                        }
                    }
                }
            }
        }
    }
}

} // verus!
