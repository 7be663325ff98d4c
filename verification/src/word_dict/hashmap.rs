//! A prefix tree whose nodes find their children in a hash map, by the
//! number of the letter that leads to each.
use vstd::prelude::*;
use std::collections::HashMap;
use crate::text::{
    among_prefixes, among_words, begun, chars_of, is_letter_word, is_prefix_of, lemma_prefix_step,
    lemma_same_first_and_rest, letters_only, listed,
};
use crate::word_dict::{lemma_one_more_word, Trie};

verus! {

broadcast use vstd::std_specs::hash::group_hash_axioms;

/// Different characters have different numbers.
proof fn lemma_codes_differ(x: char, c: char)
    requires
        x != c,
    ensures
        x as u32 != c as u32,
{
}

/// A node: its children, each under the number of the letter that leads to
/// it, and a mark that tells whether the letters down to the node are a word.
#[derive(Debug)]
pub struct TrieHashMap {
    next: HashMap<u32, TrieHashMap>,
    is_word: bool,
}

impl TrieHashMap {
    /// The node one step down by `c`, if there is one.
    spec fn child(&self, c: char) -> Option<TrieHashMap> {
        if self.next@.contains_key(c as u32) {
            Some(self.next@[c as u32])
        } else {
            None
        }
    }

    /// The letters of `p` can be followed from this node.
    spec fn below_path(&self, p: Seq<char>) -> bool
        decreases p.len(),
    {
        p.len() == 0 || match self.child(p[0]) {
            Some(n) => n.below_path(p.drop_first()),
            None => false,
        }
    }

    /// The letters of `w` can be followed from this node, and end a word.
    spec fn below_word(&self, w: Seq<char>) -> bool
        decreases w.len(),
    {
        if w.len() == 0 {
            self.is_word
        } else {
            match self.child(w[0]) {
                Some(n) => n.below_word(w.drop_first()),
                None => false,
            }
        }
    }

    /// Where a sequence can be followed, so can whatever it begins with.
    proof fn lemma_below_prefix(&self, p: Seq<char>, q: Seq<char>)
        requires
            self.below_path(p + q),
        ensures
            self.below_path(p),
        decreases p.len(),
    {
        if p.len() > 0 {
            assert((p + q)[0] == p[0]);
            assert((p + q).drop_first() =~= p.drop_first() + q);
            self.child(p[0])->0.lemma_below_prefix(p.drop_first(), q);
        }
    }

    /// A word can be followed letter by letter.
    proof fn lemma_below_word_path(&self, w: Seq<char>)
        requires
            self.below_word(w),
        ensures
            self.below_path(w),
        decreases w.len(),
    {
        if w.len() > 0 {
            self.child(w[0])->0.lemma_below_word_path(w.drop_first());
        }
    }

    /// A node with nothing below it.
    pub fn blank() -> (r: TrieHashMap)
        ensures
            r.wf(),
            forall|p: Seq<char>| #[trigger] r.has_path(p) == (p.len() == 0),
            forall|w: Seq<char>| !#[trigger] r.has_word(w),
    {
        TrieHashMap { next: HashMap::new(), is_word: false }
    }

    /// Adds `word` to the words below this node. A word with a character
    /// that is no letter of the alphabet is left out: nothing changes.
    pub fn add_word(&mut self, word: &str)
        ensures
            final(self).wf(),
            forall|p: Seq<char>| #[trigger]
                final(self).has_path(p) == (old(self).has_path(p) || (is_letter_word(word@)
                    && is_prefix_of(p, word@))),
            forall|w: Seq<char>| #[trigger]
                final(self).has_word(w) == (old(self).has_word(w) || (is_letter_word(word@) && w
                    == word@)),
    {
        let chars = chars_of(word);
        if letters_only(&chars) {
            assert(chars@.skip(0) =~= chars@);
            self.insert(&chars, 0);
        }
    }

    /// The tree of the words of `words` that are made of letters only, added
    /// one after another.
    pub fn from_words(words: &Vec<String>) -> (r: TrieHashMap)
        ensures
            r.wf(),
            forall|p: Seq<char>| #[trigger] r.has_path(p) == begun(words@, p),
            forall|w: Seq<char>| #[trigger] r.has_word(w) == listed(words@, w),
    {
        let mut dict = TrieHashMap::blank();
        let mut n: usize = 0;
        while n < words.len()
            invariant
                n <= words.len(),
                dict.wf(),
                forall|p: Seq<char>| #[trigger]
                    dict.has_path(p) == among_prefixes(words@, n as int, p),
                forall|w: Seq<char>| #[trigger]
                    dict.has_word(w) == among_words(words@, n as int, w),
            decreases words.len() - n,
        {
            let ghost before = dict;
            dict.add_word(words[n].as_str());
            proof {
                lemma_one_more_word(&before, &dict, words@, n as int);
            }
            n += 1;
        }
        dict
    }

    /// Adds what `word` holds from its `i`-th character on below this node.
    fn insert(&mut self, word: &Vec<char>, i: usize)
        requires
            i <= word.len(),
            is_letter_word(word@),
        ensures
            forall|p: Seq<char>| #[trigger]
                final(self).below_path(p) == (old(self).below_path(p) || is_prefix_of(
                    p,
                    word@.skip(i as int),
                )),
            forall|w: Seq<char>| #[trigger]
                final(self).below_word(w) == (old(self).below_word(w) || w == word@.skip(i as int)),
        decreases word.len() - i,
    {
        let ghost rest = word@.skip(i as int);
        if i == word.len() {
            self.is_word = true;
            proof {
                assert forall|w: Seq<char>| #[trigger]
                    self.below_word(w) == (old(self).below_word(w) || w == rest) by {
                    if w.len() == 0 {
                        assert(w =~= rest);
                    }
                }
                assert forall|p: Seq<char>| #[trigger]
                    self.below_path(p) == (old(self).below_path(p) || is_prefix_of(p, rest)) by {
                    if is_prefix_of(p, rest) {
                        assert(p.len() == 0);
                    }
                }
            }
        } else {
            let c = word[i];
            let key = c as u32;
            let ghost was = self.child(c);
            let mut node = match self.next.remove(&key) {
                Some(n) => n,
                None => TrieHashMap::blank(),
            };
            let ghost before = node;
            node.insert(word, i + 1);
            self.next.insert(key, node);
            proof {
                let tail = word@.skip(i + 1);
                assert(rest[0] == c);
                assert(rest.drop_first() =~= tail);
                assert(tail.subrange(0, 0) =~= Seq::<char>::empty());
                assert(self.child(c) == Some(node));
                assert(old(self).child(c) == was);
                assert forall|x: char| x != c implies #[trigger] self.child(x) == old(self).child(
                    x,
                ) by {
                    lemma_codes_differ(x, c);
                }
                assert forall|p: Seq<char>| #[trigger]
                    self.below_path(p) == (old(self).below_path(p) || is_prefix_of(p, rest)) by {
                    if p.len() > 0 {
                        lemma_prefix_step(p, rest);
                        let q = p.drop_first();
                        if p[0] == c {
                            assert(node.below_path(q) == (before.below_path(q) || is_prefix_of(
                                q,
                                tail,
                            )));
                            if was is None {
                                assert(before.has_path(q) == (q.len() == 0));
                                if q.len() == 0 {
                                    assert(q =~= Seq::<char>::empty());
                                }
                            }
                        }
                    } else {
                        assert(rest.subrange(0, 0) =~= p);
                    }
                }
                assert forall|w: Seq<char>| #[trigger]
                    self.below_word(w) == (old(self).below_word(w) || w == rest) by {
                    if w.len() > 0 {
                        let q = w.drop_first();
                        if w[0] == c {
                            assert(node.below_word(q) == (before.below_word(q) || q == tail));
                            if was is None {
                                assert(!before.has_word(q));
                            }
                            if q == tail {
                                lemma_same_first_and_rest(w, rest);
                            }
                        }
                    }
                }
            }
        }
    }
}

impl Trie for TrieHashMap {
    closed spec fn wf(&self) -> bool {
        true
    }

    closed spec fn has_path(&self, p: Seq<char>) -> bool {
        self.below_path(p)
    }

    closed spec fn has_word(&self, w: Seq<char>) -> bool {
        self.below_word(w)
    }

    proof fn lemma_empty_path(&self) {
    }

    proof fn lemma_path_prefix(&self, p: Seq<char>, q: Seq<char>) {
        self.lemma_below_prefix(p, q);
    }

    proof fn lemma_word_path(&self, w: Seq<char>) {
        self.lemma_below_word_path(w);
    }

    fn descend_one(&self, letter: char) -> (r: Option<&Self>) {
        let ghost one = seq![letter];
        proof {
            assert(one.drop_first() =~= Seq::<char>::empty());
        }
        let key = letter as u32;
        let r = self.next.get(&key);
        proof {
            assert(one[0] == letter);
            if let Some(n) = r {
                assert(self.child(letter) == Some(*n));
                assert(n.below_path(one.drop_first()));
                assert forall|s: Seq<char>| #[trigger]
                    n.has_path(s) == self.has_path(one + s) by {
                    assert((one + s).drop_first() =~= s);
                }
                assert forall|s: Seq<char>| #[trigger]
                    n.has_word(s) == self.has_word(one + s) by {
                    assert((one + s).drop_first() =~= s);
                }
            } else {
                assert(self.child(letter) is None);
            }
        }
        r
    }

    fn is_word(&self) -> (r: bool) {
        self.is_word
    }
}

} // verus!
