//! A prefix tree over a dictionary of words.
//!
//! The tree is modelled by the set of words put into it: a string is a word
//! of the tree when it is in that set, and a prefix when it is empty or some
//! word of the set starts with it.

use std::collections::HashMap;
use vstd::prelude::*;

verus! {

broadcast use vstd::std_specs::hash::group_hash_axioms;

/// One node of the tree: its children, keyed by the code point of the
/// character that leads to each, and whether a word ends here.
pub struct TrieNode {
    children: HashMap<u32, TrieNode>,
    is_word: bool,
}

/// Whether some word of `words` starts with `s`; the empty string is a prefix
/// of every dictionary, the empty one too.
pub open spec fn is_prefix_in(words: Set<Seq<char>>, s: Seq<char>) -> bool {
    s.len() == 0 || exists|w: Seq<char>| words.contains(w) && #[trigger] s.is_prefix_of(w)
}

/// The dictionary that a list of words makes up.
pub open spec fn words_in(list: Seq<&str>) -> Set<Seq<char>> {
    Set::new(|s: Seq<char>| exists|i: int| 0 <= i < list.len() && #[trigger] list[i]@ == s)
}

/// Two characters with the same code point are the same character.
proof fn lemma_code_point_names_char(a: char, b: char)
    requires
        a as u32 == b as u32,
    ensures
        a == b,
{
}

impl TrieNode {
    /// Whether the characters of `s` can be walked from this node, child by
    /// child.
    pub closed spec fn has_path(self, s: Seq<char>) -> bool
        decreases s.len(),
    {
        if s.len() == 0 {
            true
        } else {
            &&& self.children@.contains_key(s[0] as u32)
            &&& self.children@[s[0] as u32].has_path(s.drop_first())
        }
    }

    /// Whether the walk along `s` from this node ends at a node that closes a
    /// word.
    pub closed spec fn has_word(self, s: Seq<char>) -> bool
        decreases s.len(),
    {
        if s.len() == 0 {
            self.is_word
        } else {
            &&& self.children@.contains_key(s[0] as u32)
            &&& self.children@[s[0] as u32].has_word(s.drop_first())
        }
    }

    /// Every start of a word below a node can be walked from that node.
    proof fn lemma_word_start_is_path(self, w: Seq<char>, p: Seq<char>)
        requires
            self.has_word(w),
            p.is_prefix_of(w),
        ensures
            self.has_path(p),
        decreases p.len(),
    {
        if p.len() > 0 {
            self.children@[w[0] as u32].lemma_word_start_is_path(w.drop_first(), p.drop_first());
        }
    }

    /// A node without children at which no word ends.
    pub fn new() -> (node: Self)
        ensures
            forall|s: Seq<char>| !#[trigger] node.has_word(s),
            forall|s: Seq<char>| #[trigger] node.has_path(s) <==> s.len() == 0,
    {
        let node = TrieNode { children: HashMap::new(), is_word: false };
        assert forall|s: Seq<char>| !#[trigger] node.has_word(s) by {
            reveal_with_fuel(TrieNode::has_word, 2);
        }
        assert forall|s: Seq<char>| #[trigger] node.has_path(s) <==> s.len() == 0 by {
            reveal_with_fuel(TrieNode::has_path, 2);
        }
        node
    }

    /// Adds the word `word[at..]` below `node`.
    fn insert_from(node: &mut TrieNode, word: &Vec<char>, at: usize)
        requires
            at <= word.len(),
        ensures
            forall|s: Seq<char>| #[trigger]
                final(node).has_word(s) <==> old(node).has_word(s) || s == word@.skip(at as int),
            forall|s: Seq<char>| #[trigger]
                final(node).has_path(s) <==> old(node).has_path(s) || s.is_prefix_of(
                    word@.skip(at as int),
                ),
        decreases word.len() - at,
    {
        let ghost rest = word@.skip(at as int);
        if at == word.len() {
            node.is_word = true;
            assert forall|s: Seq<char>| #[trigger]
                node.has_word(s) <==> old(node).has_word(s) || s == rest by {
                if s.len() == 0 {
                    assert(s =~= rest);
                }
            }
            assert forall|s: Seq<char>| #[trigger]
                node.has_path(s) <==> old(node).has_path(s) || s.is_prefix_of(rest) by {}
        } else {
            let key = word[at] as u32;
            let ghost tail = word@.skip(at + 1);
            let mut child = match node.children.remove(&key) {
                Some(child) => child,
                None => TrieNode::new(),
            };
            let ghost before = child;
            Self::insert_from(&mut child, word, at + 1);
            node.children.insert(key, child);
            // A string that starts with the character of `key` is looked up
            // below `child`; every other string is looked up where it was.
            assert forall|s: Seq<char>| #[trigger]
                node.has_word(s) <==> old(node).has_word(s) || s == rest by {
                if s.len() > 0 && s[0] as u32 == key {
                    lemma_code_point_names_char(s[0], rest[0]);
                    assert(child.has_word(s.drop_first()) <==> before.has_word(s.drop_first())
                        || s.drop_first() == tail);
                    if s.drop_first() == tail {
                        assert(s =~= seq![s[0]] + s.drop_first());
                        assert(rest =~= seq![rest[0]] + tail);
                    }
                    if s == rest {
                        assert(s.drop_first() =~= tail);
                    }
                }
            }
            assert forall|s: Seq<char>| #[trigger]
                node.has_path(s) <==> old(node).has_path(s) || s.is_prefix_of(rest) by {
                if s.len() > 0 && s[0] as u32 == key {
                    lemma_code_point_names_char(s[0], rest[0]);
                    assert(child.has_path(s.drop_first()) <==> before.has_path(s.drop_first())
                        || s.drop_first().is_prefix_of(tail));
                    if s.drop_first().is_prefix_of(tail) {
                        assert(s =~= seq![s[0]] + s.drop_first());
                        assert(s =~= rest.subrange(0, s.len() as int));
                    }
                }
            }
        }
    }
}

/// A prefix tree; its view is the set of words that were put into it.
pub struct Trie {
    root: TrieNode,
}

impl View for Trie {
    type V = Set<Seq<char>>;

    closed spec fn view(&self) -> Set<Seq<char>> {
        Set::new(|s: Seq<char>| self.root.has_word(s))
    }
}

/// The characters of `text`, in order.
fn chars_of(text: &str) -> (chars: Vec<char>)
    ensures
        chars@ == text@,
{
    let mut chars: Vec<char> = Vec::new();
    for c in it: text.chars()
        invariant
            it.seq() == text@,
            chars@ == text@.subrange(0, it.index() as int),
    {
        chars.push(c);
    }
    chars
}

impl Trie {
    /// Every path of the tree leads towards a word: no branch is left over
    /// that spells the start of nothing.
    #[verifier::type_invariant]
    spec fn inv(self) -> bool {
        forall|p: Seq<char>| #[trigger]
            self.root.has_path(p) ==> is_prefix_in(self@, p)
    }

    /// The tree of the empty dictionary.
    pub fn new() -> (trie: Self)
        ensures
            trie@ == Set::<Seq<char>>::empty(),
    {
        Trie { root: TrieNode::new() }
    }

    /// Puts `word` into the dictionary.
    pub fn insert(&mut self, word: &str)
        ensures
            final(self)@ == old(self)@.insert(word@),
    {
        proof {
            use_type_invariant(&*self);
        }
        let chars = chars_of(word);
        let mut root = TrieNode::new();
        std::mem::swap(&mut root, &mut self.root);
        TrieNode::insert_from(&mut root, &chars, 0);
        assert(chars@.skip(0) =~= word@);
        self.root = root;
        assert forall|p: Seq<char>| #[trigger] self.root.has_path(p) implies is_prefix_in(
            self@,
            p,
        ) by {
            if p.len() > 0 {
                if old(self).root.has_path(p) {
                    let w = choose|w: Seq<char>|
                        old(self)@.contains(w) && #[trigger] p.is_prefix_of(w);
                    assert(self@.contains(w) && p.is_prefix_of(w));
                } else {
                    assert(self@.contains(word@) && p.is_prefix_of(word@));
                }
            }
        }
    }

    /// Puts every word of `words` into the dictionary.
    pub fn insert_words(&mut self, words: &Vec<&str>)
        ensures
            final(self)@ == old(self)@.union(words_in(words@)),
    {
        let mut at: usize = 0;
        while at < words.len()
            invariant
                0 <= at <= words.len(),
                self@ == old(self)@.union(words_in(words@.subrange(0, at as int))),
            decreases words.len() - at,
        {
            let ghost done = words@.subrange(0, at as int);
            let ghost next = words@.subrange(0, at + 1);
            self.insert(words[at]);
            assert(self@ =~= old(self)@.union(words_in(next))) by {
                assert forall|s: Seq<char>| words_in(next).contains(s) <==> words_in(done).contains(
                    s,
                ) || s == words@[at as int]@ by {
                    if words_in(done).contains(s) {
                        let i = choose|i: int| 0 <= i < done.len() && #[trigger] done[i]@ == s;
                        assert(next[i]@ == s);
                    }
                    if s == words@[at as int]@ {
                        assert(next[at as int]@ == s);
                    }
                    if words_in(next).contains(s) {
                        let i = choose|i: int| 0 <= i < next.len() && #[trigger] next[i]@ == s;
                        if i < at {
                            assert(done[i]@ == s);
                        }
                    }
                }
            }
            at += 1;
        }
        assert(words@.subrange(0, at as int) =~= words@);
    }

    /// Whether `word` is a word of the dictionary.
    pub fn search(&self, word: &str) -> (found: bool)
        ensures
            found == self@.contains(word@),
    {
        let mut current_node = &self.root;
        assert(word@.skip(0) =~= word@);
        for c in it: word.chars()
            invariant
                it.seq() == word@,
                self.root.has_word(word@) == current_node.has_word(word@.skip(it.index() as int)),
        {
            let ghost rest = word@.skip(it.index() as int);
            assert(rest.drop_first() =~= word@.skip(it.index() + 1));
            match current_node.children.get(&(c as u32)) {
                Some(next_node) => {
                    current_node = next_node;
                },
                None => {
                    return false;
                },
            }
        }
        current_node.is_word
    }

    /// Whether `prefix` is empty or the start of some word of the dictionary.
    pub fn starts_with(&self, prefix: &str) -> (found: bool)
        ensures
            found == is_prefix_in(self@, prefix@),
    {
        proof {
            use_type_invariant(self);
            if is_prefix_in(self@, prefix@) && prefix@.len() > 0 {
                let w = choose|w: Seq<char>| self@.contains(w) && #[trigger] prefix@.is_prefix_of(w);
                self.root.lemma_word_start_is_path(w, prefix@);
            }
        }
        let mut current_node = &self.root;
        assert(prefix@.skip(0) =~= prefix@);
        for c in it: prefix.chars()
            invariant
                it.seq() == prefix@,
                self.root.has_path(prefix@) <==> is_prefix_in(self@, prefix@),
                self.root.has_path(prefix@) == current_node.has_path(
                    prefix@.skip(it.index() as int),
                ),
        {
            let ghost rest = prefix@.skip(it.index() as int);
            assert(rest.drop_first() =~= prefix@.skip(it.index() + 1));
            match current_node.children.get(&(c as u32)) {
                Some(next_node) => {
                    current_node = next_node;
                },
                None => {
                    return false;
                },
            }
        }
        true
    }
}

/// The empty string is a prefix in every dictionary, and every word of a
/// dictionary is a prefix in it.
pub proof fn lemma_words_are_prefixes(words: Set<Seq<char>>, w: Seq<char>)
    ensures
        is_prefix_in(words, Seq::<char>::empty()),
        words.contains(w) ==> is_prefix_in(words, w),
{
    if words.contains(w) {
        assert(w.is_prefix_of(w));
    }
}

/// Putting a word in a second time changes neither which strings are words
/// nor which are prefixes.
pub proof fn lemma_insert_twice(words: Set<Seq<char>>, w: Seq<char>, s: Seq<char>)
    ensures
        words.insert(w).insert(w) == words.insert(w),
        words.insert(w).insert(w).contains(s) == words.insert(w).contains(s),
        is_prefix_in(words.insert(w).insert(w), s) == is_prefix_in(words.insert(w), s),
{
}

} // verus!
