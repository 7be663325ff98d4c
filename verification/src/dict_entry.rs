//! The entry of a dictionary: a letter, a mark that tells whether the letters
//! down to it are a word, the first of the entries one letter further down,
//! and the next of the entries that share its place. Entries that share a
//! place rise in their letters.
use vstd::prelude::*;
use crate::text::{
    among_prefixes, among_words, begun, chars_of, is_letter_word, is_prefix_of, lemma_prefix_step,
    lemma_same_first_and_rest, letters_only, listed,
};
use crate::word_dict::{lemma_one_more_word, Trie};

verus! {

/// An entry: its letter, its mark, the first of the entries one letter
/// further down and the next of the entries that share its place.
#[derive(Debug)]
pub struct DictEntry {
    child: Option<Box<DictEntry>>,
    sibling: Option<Box<DictEntry>>,
    letter: char,
    /// Whether the letters that lead to this entry are a word.
    pub is_word: bool,
}

impl DictEntry {
    /// The letter on the link that leads to this entry.
    pub closed spec fn spec_letter(&self) -> char {
        self.letter
    }

    /// From this entry on, the siblings rise in their letters, and so do the
    /// children of each and all that is below them.
    spec fn chain_sorted(&self) -> bool
        decreases self,
    {
        &&& match self.sibling {
            Some(s) => self.letter < s.letter && s.chain_sorted(),
            None => true,
        }
        &&& match self.child {
            Some(c) => c.chain_sorted(),
            None => true,
        }
    }

    /// The letters of `p`, at least one, can be followed if the first of them
    /// is looked for among this entry and the siblings after it.
    spec fn chain_path(&self, p: Seq<char>) -> bool
        decreases self,
    {
        p.len() > 0 && if p[0] == self.letter {
            p.len() == 1 || match self.child {
                Some(c) => c.chain_path(p.drop_first()),
                None => false,
            }
        } else {
            match self.sibling {
                Some(s) => s.chain_path(p),
                None => false,
            }
        }
    }

    /// As `chain_path`, and the entry that the last letter leads to ends a word.
    spec fn chain_word(&self, w: Seq<char>) -> bool
        decreases self,
    {
        w.len() > 0 && if w[0] == self.letter {
            if w.len() == 1 {
                self.is_word
            } else {
                match self.child {
                    Some(c) => c.chain_word(w.drop_first()),
                    None => false,
                }
            }
        } else {
            match self.sibling {
                Some(s) => s.chain_word(w),
                None => false,
            }
        }
    }

    /// `chain_path` of the first entry of a chain that may be empty.
    spec fn opt_path(chain: Option<Box<DictEntry>>, p: Seq<char>) -> bool {
        match chain {
            Some(n) => n.chain_path(p),
            None => false,
        }
    }

    /// `chain_word` of the first entry of a chain that may be empty.
    spec fn opt_word(chain: Option<Box<DictEntry>>, w: Seq<char>) -> bool {
        match chain {
            Some(n) => n.chain_word(w),
            None => false,
        }
    }

    /// `chain_sorted` of the first entry of a chain that may be empty.
    spec fn opt_sorted(chain: Option<Box<DictEntry>>) -> bool {
        match chain {
            Some(n) => n.chain_sorted(),
            None => true,
        }
    }

    /// No entry of a sorted chain carries a letter below that of its first entry.
    proof fn lemma_chain_floor(&self, p: Seq<char>)
        requires
            self.chain_sorted(),
            p.len() > 0,
            p[0] < self.letter,
        ensures
            !self.chain_path(p),
            !self.chain_word(p),
        decreases self,
    {
        match self.sibling {
            Some(s) => {
                s.lemma_chain_floor(p);
            },
            None => {},
        }
    }

    /// Where a sequence can be followed along a chain, so can whatever it
    /// begins with, if that has a letter.
    proof fn lemma_chain_prefix(&self, p: Seq<char>, q: Seq<char>)
        requires
            p.len() > 0,
            self.chain_path(p + q),
        ensures
            self.chain_path(p),
        decreases self,
    {
        assert((p + q)[0] == p[0]);
        if p[0] == self.letter {
            if p.len() > 1 {
                assert((p + q).drop_first() =~= p.drop_first() + q);
                match self.child {
                    Some(c) => {
                        c.lemma_chain_prefix(p.drop_first(), q);
                    },
                    None => {},
                }
            }
        } else {
            match self.sibling {
                Some(s) => {
                    s.lemma_chain_prefix(p, q);
                },
                None => {},
            }
        }
    }

    /// A word below a chain can be followed letter by letter.
    proof fn lemma_chain_word_path(&self, w: Seq<char>)
        requires
            self.chain_word(w),
        ensures
            self.chain_path(w),
        decreases self,
    {
        if w[0] == self.letter {
            if w.len() > 1 {
                match self.child {
                    Some(c) => {
                        c.lemma_chain_word_path(w.drop_first());
                    },
                    None => {},
                }
            }
        } else {
            match self.sibling {
                Some(s) => {
                    s.lemma_chain_word_path(w);
                },
                None => {},
            }
        }
    }

    /// An entry with nothing below it and nothing after it.
    pub fn blank(c: char) -> (r: DictEntry)
        ensures
            r.wf(),
            r.spec_letter() == c,
            forall|p: Seq<char>| #[trigger] r.has_path(p) == (p.len() == 0),
            forall|w: Seq<char>| !#[trigger] r.has_word(w),
    {
        DictEntry { child: None, sibling: None, is_word: false, letter: c }
    }

    /// Adds `word` to the words below this entry. A word with a character
    /// that is no letter of the alphabet is left out: nothing changes.
    pub fn add_word(&mut self, word: String)
        requires
            old(self).wf(),
        ensures
            final(self).wf(),
            final(self).spec_letter() == old(self).spec_letter(),
            forall|p: Seq<char>| #[trigger]
                final(self).has_path(p) == (old(self).has_path(p) || (is_letter_word(word@)
                    && is_prefix_of(p, word@))),
            forall|w: Seq<char>| #[trigger]
                final(self).has_word(w) == (old(self).has_word(w) || (is_letter_word(word@) && w
                    == word@)),
    {
        let chars = chars_of(word.as_str());
        if letters_only(&chars) {
            assert(chars@.skip(0) =~= chars@);
            self.insert(&chars, 0);
        }
    }

    /// The tree of the words of `words` that are made of letters only, added
    /// one after another.
    pub fn from_words(words: &Vec<String>) -> (r: DictEntry)
        ensures
            r.wf(),
            forall|p: Seq<char>| #[trigger] r.has_path(p) == begun(words@, p),
            forall|w: Seq<char>| #[trigger] r.has_word(w) == listed(words@, w),
    {
        let mut dict = DictEntry::blank(' ');
        let mut n: usize = 0;
        while n < words.len()
            invariant
                n <= words.len(),
                dict.wf(),
                forall|p: Seq<char>| #[trigger]
                    dict.has_path(p) == among_prefixes(words@, n as int, p),
                forall|w: Seq<char>| #[trigger]
                    dict.has_word(w) == among_words(words@, n as int, w),
            decreases words.len() - n,
        {
            let ghost before = dict;
            dict.add_word(words[n].clone());
            proof {
                lemma_one_more_word(&before, &dict, words@, n as int);
            }
            n += 1;
        }
        dict
    }

    /// The entry reached by the letters of `word`, if all of them can be followed.
    pub fn traverse(&self, word: &str) -> (r: Option<&DictEntry>)
        requires
            self.wf(),
        ensures
            r is Some <==> self.has_path(word@),
            r matches Some(n) ==> n.wf() && (forall|s: Seq<char>| #[trigger]
                n.has_path(s) == self.has_path(word@ + s)) && (forall|s: Seq<char>| #[trigger]
                n.has_word(s) == self.has_word(word@ + s)),
    {
        Trie::traverse(self, word)
    }

    /// Adds what `word` holds from its `i`-th character on below this entry.
    fn insert(&mut self, word: &Vec<char>, i: usize)
        requires
            old(self).wf(),
            i <= word.len(),
        ensures
            final(self).wf(),
            final(self).letter == old(self).letter,
            final(self).sibling == old(self).sibling,
            forall|p: Seq<char>| #[trigger]
                final(self).has_path(p) == (old(self).has_path(p) || is_prefix_of(
                    p,
                    word@.skip(i as int),
                )),
            forall|w: Seq<char>| #[trigger]
                final(self).has_word(w) == (old(self).has_word(w) || w == word@.skip(i as int)),
        decreases word.len() - i, *old(self),
    {
        let ghost rest = word@.skip(i as int);
        if i == word.len() {
            self.is_word = true;
            assert forall|w: Seq<char>| #[trigger]
                self.has_word(w) == (old(self).has_word(w) || w == rest) by {
                if w.len() == 0 {
                    assert(w =~= rest);
                }
            }
            assert forall|p: Seq<char>| #[trigger]
                self.has_path(p) == (old(self).has_path(p) || is_prefix_of(p, rest)) by {
                if is_prefix_of(p, rest) {
                    assert(p.len() == 0);
                }
            }
        } else {
            let chain = self.child.take();
            let grown = Self::insert_chain(chain, word, i);
            self.child = Some(grown);
            assert forall|p: Seq<char>| #[trigger]
                self.has_path(p) == (old(self).has_path(p) || is_prefix_of(p, rest)) by {
                if p.len() == 0 {
                    assert(rest.subrange(0, 0) =~= p);
                }
            }
        }
    }

    /// Adds what `word` holds from its `i`-th character on to a chain of
    /// siblings, and gives back the chain's new first entry.
    fn insert_chain(chain: Option<Box<DictEntry>>, word: &Vec<char>, i: usize) -> (r: Box<
        DictEntry,
    >)
        requires
            Self::opt_sorted(chain),
            i < word.len(),
        ensures
            r.chain_sorted(),
            r.letter == word[i as int] || (chain matches Some(n) && r.letter == n.letter),
            forall|p: Seq<char>| #[trigger]
                r.chain_path(p) == (Self::opt_path(chain, p) || (p.len() > 0 && is_prefix_of(
                    p,
                    word@.skip(i as int),
                ))),
            forall|w: Seq<char>| #[trigger]
                r.chain_word(w) == (Self::opt_word(chain, w) || w == word@.skip(i as int)),
        decreases word.len() - i, chain,
    {
        let c = word[i];
        let ghost rest = word@.skip(i as int);
        let ghost tail = word@.skip(i + 1);
        proof {
            assert(rest[0] == c);
            assert(rest.drop_first() =~= tail);
        }
        match chain {
            None => {
                let mut entry = Box::new(
                    DictEntry { child: None, sibling: None, letter: c, is_word: false },
                );
                let ghost before = *entry;
                entry.insert(word, i + 1);
                proof {
                    Self::lemma_grown(before, *entry, None, rest);
                    assert forall|p: Seq<char>| #[trigger]
                        before.chain_path(p) implies is_prefix_of(p, rest) by {
                        lemma_prefix_step(p, rest);
                        assert(tail.subrange(0, 0) =~= p.drop_first());
                    }
                }
                entry
            },
            Some(mut head) => {
                if head.letter == c {
                    let ghost before = *head;
                    head.insert(word, i + 1);
                    proof {
                        Self::lemma_grown(before, *head, before.sibling, rest);
                    }
                    head
                } else if head.letter > c {
                    let mut entry = Box::new(
                        DictEntry {
                            child: None,
                            sibling: Some(head),
                            letter: c,
                            is_word: false,
                        },
                    );
                    let ghost before = *entry;
                    entry.insert(word, i + 1);
                    proof {
                        Self::lemma_grown(before, *entry, before.sibling, rest);
                        assert forall|p: Seq<char>| #[trigger]
                            before.chain_path(p) == (Self::opt_path(chain, p) || (p.len() == 1
                                && is_prefix_of(p, rest))) by {
                            if p.len() > 0 {
                                lemma_prefix_step(p, rest);
                                if p[0] == c {
                                    head.lemma_chain_floor(p);
                                    assert(tail.subrange(0, 0) =~= Seq::<char>::empty());
                                    if p.len() == 1 {
                                        assert(p.drop_first() =~= Seq::<char>::empty());
                                    }
                                }
                            }
                        }
                        assert forall|w: Seq<char>| #[trigger]
                            before.chain_word(w) == Self::opt_word(chain, w) by {
                            if w.len() > 0 && w[0] == c {
                                head.lemma_chain_floor(w);
                            }
                        }
                    }
                    entry
                } else {
                    let ghost before = *head;
                    let after = head.sibling.take();
                    let grown = Self::insert_chain(after, word, i);
                    head.sibling = Some(grown);
                    proof {
                        assert forall|p: Seq<char>| #[trigger]
                            head.chain_path(p) == (before.chain_path(p) || (p.len() > 0
                                && is_prefix_of(p, rest))) by {
                            if p.len() > 0 {
                                lemma_prefix_step(p, rest);
                                assert(grown.chain_path(p) == (Self::opt_path(after, p) || (p.len()
                                    > 0 && is_prefix_of(p, rest))));
                            }
                        }
                        assert forall|w: Seq<char>| #[trigger]
                            head.chain_word(w) == (before.chain_word(w) || w == rest) by {
                            assert(grown.chain_word(w) == (Self::opt_word(after, w) || w == rest));
                        }
                    }
                    head
                }
            },
        }
    }

    /// What a chain holds once the entry at its head, which carries the first
    /// letter of `rest`, has taken in what follows that letter.
    proof fn lemma_grown(
        before: DictEntry,
        after: DictEntry,
        sibling: Option<Box<DictEntry>>,
        rest: Seq<char>,
    )
        requires
            rest.len() > 0,
            before.letter == rest[0],
            after.letter == rest[0],
            before.sibling == sibling,
            after.sibling == sibling,
            before.chain_sorted(),
            after.wf(),
            forall|p: Seq<char>| #[trigger]
                after.has_path(p) == (before.has_path(p) || is_prefix_of(p, rest.drop_first())),
            forall|w: Seq<char>| #[trigger]
                after.has_word(w) == (before.has_word(w) || w == rest.drop_first()),
        ensures
            after.chain_sorted(),
            forall|p: Seq<char>| #[trigger]
                after.chain_path(p) == (before.chain_path(p) || (p.len() > 0 && is_prefix_of(
                    p,
                    rest,
                ))),
            forall|w: Seq<char>| #[trigger]
                after.chain_word(w) == (before.chain_word(w) || w == rest),
    {
        let tail = rest.drop_first();
        assert forall|p: Seq<char>| #[trigger]
            after.chain_path(p) == (before.chain_path(p) || (p.len() > 0 && is_prefix_of(
                p,
                rest,
            ))) by {
            if p.len() > 0 {
                let q = p.drop_first();
                lemma_prefix_step(p, rest);
                if p[0] == rest[0] {
                    assert(after.has_path(q) == (before.has_path(q) || is_prefix_of(q, tail)));
                    if q.len() == 0 {
                        assert(tail.subrange(0, 0) =~= q);
                    }
                }
            }
        }
        assert forall|w: Seq<char>| #[trigger]
            after.chain_word(w) == (before.chain_word(w) || w == rest) by {
            if w.len() > 0 {
                let q = w.drop_first();
                if w[0] == rest[0] {
                    assert(after.has_word(q) == (before.has_word(q) || q == tail));
                    if q == tail {
                        lemma_same_first_and_rest(w, rest);
                    }
                }
            }
        }
    }
}

impl Trie for DictEntry {
    closed spec fn wf(&self) -> bool {
        Self::opt_sorted(self.child)
    }

    closed spec fn has_path(&self, p: Seq<char>) -> bool {
        p.len() == 0 || Self::opt_path(self.child, p)
    }

    closed spec fn has_word(&self, w: Seq<char>) -> bool {
        if w.len() == 0 {
            self.is_word
        } else {
            Self::opt_word(self.child, w)
        }
    }


    proof fn lemma_empty_path(&self) {
    }

    proof fn lemma_path_prefix(&self, p: Seq<char>, q: Seq<char>) {
        if p.len() > 0 {
            match self.child {
                Some(c) => {
                    c.lemma_chain_prefix(p, q);
                },
                None => {},
            }
        }
    }

    proof fn lemma_word_path(&self, w: Seq<char>) {
        if w.len() > 0 {
            match self.child {
                Some(c) => {
                    c.lemma_chain_word_path(w);
                },
                None => {},
            }
        }
    }

    fn descend_one(&self, letter: char) -> (r: Option<&Self>) {
        let ghost one = seq![letter];
        let mut cursor: &DictEntry = match &self.child {
            Some(c) => c,
            None => {
                return None;
            },
        };
        loop
            invariant
                cursor.chain_sorted(),
                one == seq![letter],
                forall|s: Seq<char>| #[trigger]
                    cursor.chain_path(one + s) == self.has_path(one + s),
                forall|s: Seq<char>| #[trigger]
                    cursor.chain_word(one + s) == self.has_word(one + s),
            decreases cursor,
        {
            if cursor.letter == letter {
                proof {
                    assert(one + Seq::<char>::empty() =~= one);
                    assert(cursor.chain_path(one + Seq::<char>::empty()));
                    assert forall|s: Seq<char>| #[trigger]
                        cursor.has_path(s) == self.has_path(one + s) by {
                        assert((one + s).drop_first() =~= s);
                        assert(cursor.chain_path(one + s) == self.has_path(one + s));
                    }
                    assert forall|s: Seq<char>| #[trigger]
                        cursor.has_word(s) == self.has_word(one + s) by {
                        assert((one + s).drop_first() =~= s);
                        assert(cursor.chain_word(one + s) == self.has_word(one + s));
                    }
                }
                return Some(cursor);
            }
            if cursor.letter > letter {
                proof {
                    assert(one + Seq::<char>::empty() =~= one);
                    cursor.lemma_chain_floor(one);
                    assert(!cursor.chain_path(one + Seq::<char>::empty()));
                }
                return None;
            }
            match &cursor.sibling {
                Some(s) => {
                    proof {
                        assert forall|t: Seq<char>| #[trigger]
                            s.chain_path(one + t) == self.has_path(one + t) by {
                            assert((one + t)[0] == letter);
                            assert(cursor.chain_path(one + t) == self.has_path(one + t));
                        }
                        assert forall|t: Seq<char>| #[trigger]
                            s.chain_word(one + t) == self.has_word(one + t) by {
                            assert((one + t)[0] == letter);
                            assert(cursor.chain_word(one + t) == self.has_word(one + t));
                        }
                    }
                    cursor = s;
                },
                None => {
                    proof {
                        assert(one + Seq::<char>::empty() =~= one);
                        assert(!cursor.chain_path(one + Seq::<char>::empty()));
                    }
                    return None;
                },
            }
        }
    }

    fn is_word(&self) -> (r: bool) {
        self.is_word
    }
}

} // verus!
