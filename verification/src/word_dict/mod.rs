//! Prefix trees over the dictionary, and what every one of them promises.
use vstd::prelude::*;
use crate::text::{
    among_prefixes, among_words, chars_of, is_letter_word, is_prefix_of,
    lemma_among_prefixes_step, lemma_among_words_step, listed,
};

pub mod double_array;
pub mod hashmap;
pub mod linkedlist;
pub mod linkedlist_typedarena;
pub mod naive;
pub mod radix_lib;
pub mod vec;

verus! {

/// A node of a prefix tree.
///
/// A node stands for the letters that lead to it from the root. What it
/// holds is told by two predicates: `has_path`, the letter sequences that
/// can be followed downwards from it, and `has_word`, those among them that
/// complete a word of the dictionary.
pub trait Trie: Sized {
    /// The representation is in order.
    spec fn wf(&self) -> bool;

    /// The letters of `p` can be followed from this node, one after another.
    spec fn has_path(&self, p: Seq<char>) -> bool;

    /// The letters that lead to this node, followed by `w`, are a word.
    spec fn has_word(&self, w: Seq<char>) -> bool;

    /// Every node can be reached from itself.
    proof fn lemma_empty_path(&self)
        requires
            self.wf(),
        ensures
            self.has_path(Seq::<char>::empty()),
    ;

    /// Where a sequence can be followed, so can whatever it begins with.
    proof fn lemma_path_prefix(&self, p: Seq<char>, q: Seq<char>)
        requires
            self.wf(),
            self.has_path(p + q),
        ensures
            self.has_path(p),
    ;

    /// A word can be followed letter by letter.
    proof fn lemma_word_path(&self, w: Seq<char>)
        requires
            self.wf(),
            self.has_word(w),
        ensures
            self.has_path(w),
    ;

    /// The node one letter further down, if there is one.
    fn descend_one(&self, letter: char) -> (r: Option<&Self>)
        requires
            self.wf(),
        ensures
            r is Some <==> self.has_path(seq![letter]),
            r matches Some(n) ==> n.wf() && (forall|s: Seq<char>| #[trigger]
                n.has_path(s) == self.has_path(seq![letter] + s)) && (forall|s: Seq<char>|
                #[trigger] n.has_word(s) == self.has_word(seq![letter] + s)),
    ;

    /// The node reached by the letters of `word`, if all of them can be followed.
    fn traverse(&self, word: &str) -> (r: Option<&Self>)
        requires
            self.wf(),
        ensures
            r is Some <==> self.has_path(word@),
            r matches Some(n) ==> n.wf() && (forall|s: Seq<char>| #[trigger]
                n.has_path(s) == self.has_path(word@ + s)) && (forall|s: Seq<char>| #[trigger]
                n.has_word(s) == self.has_word(word@ + s)),
    {
        let chars = chars_of(word);
        let mut cursor: &Self = self;
        let mut i: usize = 0;
        proof {
            self.lemma_empty_path();
            assert(chars@.take(0) =~= Seq::<char>::empty());
        }
        while i < chars.len()
            invariant
                i <= chars.len(),
                chars@ == word@,
                self.wf(),
                cursor.wf(),
                self.has_path(chars@.take(i as int)),
                forall|s: Seq<char>| #[trigger]
                    cursor.has_path(s) == self.has_path(chars@.take(i as int) + s),
                forall|s: Seq<char>| #[trigger]
                    cursor.has_word(s) == self.has_word(chars@.take(i as int) + s),
            decreases chars.len() - i,
        {
            let ghost seen = chars@.take(i as int);
            let ghost one = seq![chars@[i as int]];
            proof {
                assert(seen + one =~= chars@.take(i + 1));
                assert(cursor.has_path(one) == self.has_path(seen + one));
            }
            match cursor.descend_one(chars[i]) {
                Some(next) => {
                    proof {
                        assert forall|s: Seq<char>| #[trigger]
                            next.has_path(s) == self.has_path(chars@.take(i + 1) + s) by {
                            assert(next.has_path(s) == cursor.has_path(one + s));
                            assert(seen + (one + s) =~= chars@.take(i + 1) + s);
                        }
                        assert forall|s: Seq<char>| #[trigger]
                            next.has_word(s) == self.has_word(chars@.take(i + 1) + s) by {
                            assert(next.has_word(s) == cursor.has_word(one + s));
                            assert(seen + (one + s) =~= chars@.take(i + 1) + s);
                        }
                    }
                    cursor = next;
                },
                None => {
                    proof {
                        if self.has_path(word@) {
                            assert(chars@.take(i + 1) + chars@.skip(i + 1) =~= word@);
                            self.lemma_path_prefix(chars@.take(i + 1), chars@.skip(i + 1));
                        }
                    }
                    return None;
                },
            }
            i += 1;
        }
        proof {
            assert(chars@.take(i as int) =~= word@);
        }
        Some(cursor)
    }

    /// Whether `word` is a word below this node: whether its letters can be
    /// followed one after another, and the node they lead to ends a word.
    fn contains_word(&self, word: &str) -> (r: bool)
        requires
            self.wf(),
        ensures
            r == self.has_word(word@),
    {
        proof {
            assert(word@ + Seq::<char>::empty() =~= word@);
            if self.has_word(word@) {
                self.lemma_word_path(word@);
            }
        }
        match self.traverse(word) {
            Some(node) => node.is_word(),
            None => false,
        }
    }

    /// Whether the letters that lead to this node are a word.
    fn is_word(&self) -> (r: bool)
        requires
            self.wf(),
        ensures
            r == self.has_word(Seq::<char>::empty()),
    ;
}

/// What a tree holds once it has taken in one more of `words`: `before`
/// holds the first `n` of them, and `after` holds what `before` holds and
/// the word that comes next.
pub proof fn lemma_one_more_word<T: Trie>(before: &T, after: &T, words: Seq<String>, n: int)
    requires
        0 <= n < words.len(),
        forall|p: Seq<char>| #[trigger] before.has_path(p) == among_prefixes(words, n, p),
        forall|w: Seq<char>| #[trigger] before.has_word(w) == among_words(words, n, w),
        forall|p: Seq<char>| #[trigger]
            after.has_path(p) == (before.has_path(p) || (is_letter_word(words[n]@)
                && is_prefix_of(p, words[n]@))),
        forall|w: Seq<char>| #[trigger]
            after.has_word(w) == (before.has_word(w) || (is_letter_word(words[n]@) && w
                == words[n]@)),
    ensures
        forall|p: Seq<char>| #[trigger] after.has_path(p) == among_prefixes(words, n + 1, p),
        forall|w: Seq<char>| #[trigger] after.has_word(w) == among_words(words, n + 1, w),
{
    assert forall|p: Seq<char>| #[trigger]
        after.has_path(p) == among_prefixes(words, n + 1, p) by {
        assert(before.has_path(p) == among_prefixes(words, n, p));
        lemma_among_prefixes_step(words, n, p);
    }
    assert forall|w: Seq<char>| #[trigger] after.has_word(w) == among_words(words, n + 1, w) by {
        assert(before.has_word(w) == among_words(words, n, w));
        lemma_among_words_step(words, n, w);
    }
}

/// The way there and back: in a tree that holds the words of a list, the
/// letters of a string lead to a node that ends a word exactly if the
/// string is one of the list's words. `node` is where the letters of `s`
/// lead from `root`, as `traverse` tells it.
pub proof fn lemma_round_trip<T: Trie>(root: &T, node: Option<&T>, words: Seq<String>, s: Seq<char>)
    requires
        root.wf(),
        forall|w: Seq<char>| #[trigger] root.has_word(w) == listed(words, w),
        node is Some <==> root.has_path(s),
        node matches Some(n) ==> forall|t: Seq<char>| #[trigger]
            n.has_word(t) == root.has_word(s + t),
    ensures
        listed(words, s) <==> (node matches Some(n) && n.has_word(Seq::<char>::empty())),
{
    assert(s + Seq::<char>::empty() =~= s);
    assert(root.has_word(s) == listed(words, s));
    if root.has_word(s) {
        root.lemma_word_path(s);
    }
}

/// A descent that has failed stays failed, whatever letters follow: where
/// `p` cannot be followed from a node, nothing that begins with `p` can.
pub proof fn lemma_failed_descent_is_final<T: Trie>(node: &T, p: Seq<char>, longer: Seq<char>)
    requires
        node.wf(),
        !node.has_path(p),
        is_prefix_of(p, longer),
    ensures
        !node.has_path(longer),
        !node.has_word(longer),
{
    let rest = longer.skip(p.len() as int);
    assert(p + rest =~= longer);
    if node.has_path(longer) {
        node.lemma_path_prefix(p, rest);
    }
    if node.has_word(longer) {
        node.lemma_word_path(longer);
    }
}

} // verus!
