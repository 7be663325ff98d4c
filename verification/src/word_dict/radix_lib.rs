//! The words in a radix tree of the crate `radix_trie`, each as a key with
//! the value `true`.
use vstd::prelude::*;
use crate::text::{
    among_words, chars_of, is_letter_word, lemma_among_words_step, letters_only, listed,
};
use radix_trie::Trie as Radix;

verus! {

/// The radix tree of `radix_trie`, of which nothing is seen here but what
/// `radix_entries` names.
#[verifier::external_type_specification]
#[verifier::external_body]
#[verifier::reject_recursive_types(K)]
#[verifier::reject_recursive_types(V)]
pub struct ExRadix<K, V>(Radix<K, V>);

/// What a radix tree holds: its keys, each with its value.
pub uninterp spec fn radix_entries(trie: Radix<String, bool>) -> Map<Seq<char>, bool>;

/// A radix tree without keys. This is `Trie::new` of `radix_trie`, which
/// makes a tree of length zero with a root that has neither value nor child.
#[verifier::external_body]
fn radix_new() -> (r: Radix<String, bool>)
    ensures
        radix_entries(r).dom() == Set::<Seq<char>>::empty(),
{
    Radix::new()
}

/// Puts `key` with `value` into the tree. This is `Trie::insert` of
/// `radix_trie`: afterwards the key has the value, every other key is as it
/// was, and what comes back is the value that the key had before, if it had
/// one.
#[verifier::external_body]
fn radix_insert(trie: &mut Radix<String, bool>, key: String, value: bool) -> (was:
    Option<bool>)
    ensures
        radix_entries(*final(trie)) == radix_entries(*old(trie)).insert(key@, value),
        was == (if radix_entries(*old(trie)).contains_key(key@) {
            Some(radix_entries(*old(trie))[key@])
        } else {
            None
        }),
{
    trie.insert(key, value)
}

/// The value of `key` in the tree, if the tree has the key. This is
/// `Trie::get` of `radix_trie`, with the value copied out.
#[verifier::external_body]
fn radix_get(trie: &Radix<String, bool>, key: &str) -> (value: Option<bool>)
    ensures
        value == (if radix_entries(*trie).contains_key(key@) {
            Some(radix_entries(*trie)[key@])
        } else {
            None
        }),
{
    trie.get(key).copied()
}

/// The words as the keys of a radix tree.
#[derive(Debug)]
pub struct TrieRadix {
    trie: Radix<String, bool>,
}

impl TrieRadix {
    /// `w` is one of the words.
    pub closed spec fn holds(&self, w: Seq<char>) -> bool {
        radix_entries(self.trie).contains_key(w) && radix_entries(self.trie)[w]
    }

    /// A tree without words. The character is not used: the root of a radix
    /// tree carries no letter.
    pub fn blank(c: char) -> (r: TrieRadix)
        ensures
            forall|w: Seq<char>| !#[trigger] r.holds(w),
    {
        TrieRadix { trie: radix_new() }
    }

    /// Adds `word` to the words. A word with a character that is no letter
    /// of the alphabet is left out: nothing changes.
    pub fn add_word(&mut self, word: &str)
        ensures
            forall|w: Seq<char>| #[trigger]
                final(self).holds(w) == (old(self).holds(w) || (is_letter_word(word@) && w
                    == word@)),
    {
        let chars = chars_of(word);
        if letters_only(&chars) {
            let _ = radix_insert(&mut self.trie, word.to_owned(), true);
        }
    }

    /// The tree of the words of `words` that are made of letters only.
    pub fn from_words(words: &Vec<String>) -> (r: TrieRadix)
        ensures
            forall|w: Seq<char>| #[trigger] r.holds(w) == listed(words@, w),
    {
        let mut dict = TrieRadix::blank(' ');
        let mut n: usize = 0;
        while n < words.len()
            invariant
                n <= words.len(),
                forall|w: Seq<char>| #[trigger] dict.holds(w) == among_words(words@, n as int, w),
            decreases words.len() - n,
        {
            let ghost before = dict;
            dict.add_word(words[n].as_str());
            proof {
                assert forall|w: Seq<char>| #[trigger]
                    dict.holds(w) == among_words(words@, n + 1, w) by {
                    assert(dict.holds(w) == (before.holds(w) || (is_letter_word(words@[n as int]@)
                        && w == words@[n as int]@)));
                    lemma_among_words_step(words@, n as int, w);
                }
            }
            n += 1;
        }
        dict
    }

    /// Whether `word` is one of the words.
    pub fn is_word(&self, word: &str) -> (r: bool)
        ensures
            r == self.holds(word@),
    {
        match radix_get(&self.trie, word) {
            Some(v) => v,
            None => false,
        }
    }
}

} // verus!
