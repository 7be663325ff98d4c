//! A prefix tree of nodes with a link to the first child and one to the next
//! sibling, as in `linkedlist`, but with all nodes below the root in one
//! arena. A node in the arena is never changed. To add a word is to put new
//! nodes into the arena: one for each node that the word passes, one for each
//! sibling that stands before such a node, and one for each letter that was
//! not there. They are linked to what was there before where the word does
//! not pass. Siblings fall in their letters, so that a node for a letter
//! greater than all before it comes first: of a list of words that comes in
//! the order of a dictionary no sibling is ever put in anew.
use vstd::prelude::*;
use crate::text::{
    among_prefixes, among_words, begun, chars_of, is_letter_word, is_prefix_of, lemma_prefix_step,
    lemma_same_first_and_rest, letters_only, listed,
};
use crate::text::push_char;
use crate::word_dict::{lemma_one_more_word, Trie};
use vstd::string::StringExecFns;
use typed_arena::Arena;

verus! {

/// The arena of `typed_arena`. It is only handed on to `place`.
#[verifier::external_type_specification]
#[verifier::external_body]
#[verifier::reject_recursive_types(T)]
pub struct ExArena<T>(Arena<T>);

/// Puts `node` into `arena`. This is `Arena::alloc` of the crate
/// `typed_arena`, which moves the value into the arena and hands out a
/// reference to it there: what is referred to is the value that was given.
#[verifier::external_body]
fn place<'a>(arena: &'a Arena<TrieLinkedListArena<'a>>, node: TrieLinkedListArena<'a>) -> (r:
    &'a TrieLinkedListArena<'a>)
    ensures
        *r == node,
{
    arena.alloc(node)
}

/// A node: the letter that leads to it, a mark that tells whether the
/// letters down to it are a word, and its first child and its next sibling,
/// both in the arena.
pub struct TrieLinkedListArena<'a> {
    child: Option<&'a TrieLinkedListArena<'a>>,
    sibling: Option<&'a TrieLinkedListArena<'a>>,
    letter: char,
    is_word: bool,
}

impl<'a> TrieLinkedListArena<'a> {
    /// The letter on the link that leads to this node.
    pub closed spec fn spec_letter(&self) -> char {
        self.letter
    }

    /// From this node on, the siblings fall in their letters, and so do the
    /// children of each and all that is below them.
    spec fn chain_sorted(&self) -> bool
        decreases self,
    {
        &&& match self.sibling {
            Some(s) => self.letter > s.letter && s.chain_sorted(),
            None => true,
        }
        &&& match self.child {
            Some(c) => c.chain_sorted(),
            None => true,
        }
    }

    /// The letters of `p`, at least one, can be followed if the first of them
    /// is looked for among this node and the siblings after it.
    spec fn chain_path(&self, p: Seq<char>) -> bool
        decreases self,
    {
        p.len() > 0 && if p[0] == self.letter {
            p.len() == 1 || match self.child {
                Some(c) => c.chain_path(p.drop_first()),
                None => false,
            }
        } else {
            match self.sibling {
                Some(s) => s.chain_path(p),
                None => false,
            }
        }
    }

    /// As `chain_path`, and the node that the last letter leads to ends a word.
    spec fn chain_word(&self, w: Seq<char>) -> bool
        decreases self,
    {
        w.len() > 0 && if w[0] == self.letter {
            if w.len() == 1 {
                self.is_word
            } else {
                match self.child {
                    Some(c) => c.chain_word(w.drop_first()),
                    None => false,
                }
            }
        } else {
            match self.sibling {
                Some(s) => s.chain_word(w),
                None => false,
            }
        }
    }

    /// `chain_path` of the first node of a chain that may be empty.
    spec fn opt_path(chain: Option<&'a TrieLinkedListArena<'a>>, p: Seq<char>) -> bool {
        match chain {
            Some(n) => n.chain_path(p),
            None => false,
        }
    }

    /// `chain_word` of the first node of a chain that may be empty.
    spec fn opt_word(chain: Option<&'a TrieLinkedListArena<'a>>, w: Seq<char>) -> bool {
        match chain {
            Some(n) => n.chain_word(w),
            None => false,
        }
    }

    /// `chain_sorted` of the first node of a chain that may be empty.
    spec fn opt_sorted(chain: Option<&'a TrieLinkedListArena<'a>>) -> bool {
        match chain {
            Some(n) => n.chain_sorted(),
            None => true,
        }
    }

    /// No node of a sorted chain carries a letter above that of its first node.
    proof fn lemma_chain_floor(&self, p: Seq<char>)
        requires
            self.chain_sorted(),
            p.len() > 0,
            p[0] > self.letter,
        ensures
            !self.chain_path(p),
            !self.chain_word(p),
        decreases self,
    {
        match self.sibling {
            Some(s) => {
                s.lemma_chain_floor(p);
            },
            None => {},
        }
    }

    /// Where a sequence can be followed along a chain, so can whatever it
    /// begins with, if that has a letter.
    proof fn lemma_chain_prefix(&self, p: Seq<char>, q: Seq<char>)
        requires
            p.len() > 0,
            self.chain_path(p + q),
        ensures
            self.chain_path(p),
        decreases self,
    {
        assert((p + q)[0] == p[0]);
        if p[0] == self.letter {
            if p.len() > 1 {
                assert((p + q).drop_first() =~= p.drop_first() + q);
                match self.child {
                    Some(c) => {
                        c.lemma_chain_prefix(p.drop_first(), q);
                    },
                    None => {},
                }
            }
        } else {
            match self.sibling {
                Some(s) => {
                    s.lemma_chain_prefix(p, q);
                },
                None => {},
            }
        }
    }

    /// A word below a chain can be followed letter by letter.
    proof fn lemma_chain_word_path(&self, w: Seq<char>)
        requires
            self.chain_word(w),
        ensures
            self.chain_path(w),
        decreases self,
    {
        if w[0] == self.letter {
            if w.len() > 1 {
                match self.child {
                    Some(c) => {
                        c.lemma_chain_word_path(w.drop_first());
                    },
                    None => {},
                }
            }
        } else {
            match self.sibling {
                Some(s) => {
                    s.lemma_chain_word_path(w);
                },
                None => {},
            }
        }
    }

    /// The letters of the nodes of a chain of siblings, in their order.
    pub closed spec fn letters_from(chain: Option<&TrieLinkedListArena>) -> Seq<char>
        decreases chain,
    {
        match chain {
            Some(t) => seq![t.letter] + Self::letters_from(t.sibling),
            None => Seq::empty(),
        }
    }

    /// What `describe` tells of a node.
    pub closed spec fn description(&self) -> Seq<char> {
        seq![self.letter] + "=>"@ + Self::letters_from(self.sibling) + "\n \\"@
            + Self::letters_from(self.child)
    }

    /// The node in a line and a half: its letter, an arrow, the letters of
    /// the siblings after it, and below them the letters of its children.
    pub fn describe(&self) -> (r: String)
        ensures
            r@ == self.description(),
    {
        let mut r = String::new();
        push_char(&mut r, self.letter);
        r.append("=>");
        r.append(print_siblings(self.sibling).as_str());
        r.append("\n \\");
        r.append(print_siblings(self.child).as_str());
        proof {
            assert(r@ =~= self.description());
        }
        r
    }

    /// A node with nothing below it and nothing after it.
    pub fn blank(c: char) -> (r: TrieLinkedListArena<'a>)
        ensures
            r.wf(),
            r.spec_letter() == c,
            forall|p: Seq<char>| #[trigger] r.has_path(p) == (p.len() == 0),
            forall|w: Seq<char>| !#[trigger] r.has_word(w),
    {
        TrieLinkedListArena { child: None, sibling: None, is_word: false, letter: c }
    }

    /// Adds `word` to the words below this node. The nodes that the word
    /// changes are not touched: copies of them with the change are put into
    /// `arena`, and only this node is given a new first child. A word with a
    /// character that is no letter of the alphabet is left out, and so is a
    /// word that is there already: nothing changes.
    pub fn add_word(&mut self, arena: &'a Arena<TrieLinkedListArena<'a>>, word: &str)
        requires
            old(self).wf(),
        ensures
            final(self).wf(),
            final(self).spec_letter() == old(self).spec_letter(),
            forall|p: Seq<char>| #[trigger]
                final(self).has_path(p) == (old(self).has_path(p) || (is_letter_word(word@)
                    && is_prefix_of(p, word@))),
            forall|w: Seq<char>| #[trigger]
                final(self).has_word(w) == (old(self).has_word(w) || (is_letter_word(word@) && w
                    == word@)),
    {
        let chars = chars_of(word);
        if !letters_only(&chars) {
            return ;
        }
        match self.traverse(word) {
            Some(n) => {
                if n.is_word() {
                    proof {
                        assert(word@ + Seq::<char>::empty() =~= word@);
                        assert(self.has_word(word@));
                        assert forall|p: Seq<char>| is_prefix_of(p, word@) implies #[trigger]
                            self.has_path(p) by {
                            assert(p + word@.skip(p.len() as int) =~= word@);
                            self.lemma_path_prefix(p, word@.skip(p.len() as int));
                        }
                    }
                    return ;
                }
            },
            None => {},
        }
        let ghost before = *self;
        let (child, is_word) = Self::grow(arena, self.child, self.is_word, &chars, 0);
        self.child = child;
        self.is_word = is_word;
        proof {
            assert(chars@.skip(0) =~= chars@);
            assert forall|w: Seq<char>| #[trigger]
                self.has_word(w) == (before.has_word(w) || w == word@) by {
                if w.len() == 0 && word@.len() == 0 {
                    assert(w =~= word@);
                }
            }
            assert forall|p: Seq<char>| #[trigger]
                self.has_path(p) == (before.has_path(p) || is_prefix_of(p, word@)) by {
                if p.len() == 0 {
                    assert(word@.subrange(0, 0) =~= p);
                }
            }
        }
    }

    /// The tree of the words of `words` that are made of letters only, added
    /// one after another.
    pub fn from_words(words: &Vec<String>, arena: &'a Arena<TrieLinkedListArena<'a>>) -> (r:
        TrieLinkedListArena<'a>)
        ensures
            r.wf(),
            forall|p: Seq<char>| #[trigger] r.has_path(p) == begun(words@, p),
            forall|w: Seq<char>| #[trigger] r.has_word(w) == listed(words@, w),
    {
        let mut dict = TrieLinkedListArena::blank(' ');
        let mut n: usize = 0;
        while n < words.len()
            invariant
                n <= words.len(),
                dict.wf(),
                forall|p: Seq<char>| #[trigger]
                    dict.has_path(p) == among_prefixes(words@, n as int, p),
                forall|w: Seq<char>| #[trigger]
                    dict.has_word(w) == among_words(words@, n as int, w),
            decreases words.len() - n,
        {
            let ghost before = dict;
            dict.add_word(arena, words[n].as_str());
            proof {
                lemma_one_more_word(&before, &dict, words@, n as int);
            }
            n += 1;
        }
        dict
    }

    /// What a node with the first child `child` and the mark `is_word` gets
    /// in their place when it takes in what `word` holds from its `i`-th
    /// character on.
    fn grow(
        arena: &'a Arena<TrieLinkedListArena<'a>>,
        child: Option<&'a TrieLinkedListArena<'a>>,
        is_word: bool,
        word: &Vec<char>,
        i: usize,
    ) -> (r: (Option<&'a TrieLinkedListArena<'a>>, bool))
        requires
            Self::opt_sorted(child),
            i <= word.len(),
        ensures
            Self::opt_sorted(r.0),
            forall|p: Seq<char>| #[trigger]
                Self::opt_path(r.0, p) == (Self::opt_path(child, p) || (p.len() > 0
                    && is_prefix_of(p, word@.skip(i as int)))),
            forall|w: Seq<char>| #[trigger]
                Self::opt_word(r.0, w) == (Self::opt_word(child, w) || (w.len() > 0 && w
                    == word@.skip(i as int))),
            r.1 == (is_word || i == word.len()),
        decreases word.len() - i, 1int,
    {
        if i == word.len() {
            proof {
                assert forall|p: Seq<char>| p.len() > 0 implies !is_prefix_of(
                    p,
                    word@.skip(i as int),
                ) by {}
            }
            (child, true)
        } else {
            let grown = Self::insert_chain(arena, child, word, i);
            (Some(grown), is_word)
        }
    }

    /// Adds what `word` holds from its `i`-th character on to a chain of
    /// siblings, and gives back the first node of the chain that comes of it.
    fn insert_chain(
        arena: &'a Arena<TrieLinkedListArena<'a>>,
        chain: Option<&'a TrieLinkedListArena<'a>>,
        word: &Vec<char>,
        i: usize,
    ) -> (r: &'a TrieLinkedListArena<'a>)
        requires
            Self::opt_sorted(chain),
            i < word.len(),
        ensures
            r.chain_sorted(),
            r.letter == word[i as int] || (chain matches Some(n) && r.letter == n.letter),
            forall|p: Seq<char>| #[trigger]
                r.chain_path(p) == (Self::opt_path(chain, p) || (p.len() > 0 && is_prefix_of(
                    p,
                    word@.skip(i as int),
                ))),
            forall|w: Seq<char>| #[trigger]
                r.chain_word(w) == (Self::opt_word(chain, w) || w == word@.skip(i as int)),
        decreases word.len() - i, 0int, chain,
    {
        let c = word[i];
        let ghost rest = word@.skip(i as int);
        let ghost tail = word@.skip(i + 1);
        proof {
            assert(rest[0] == c);
            assert(rest.drop_first() =~= tail);
        }
        let fresh = match chain {
            Some(head) => head.letter < c,
            None => true,
        };
        if fresh {
            let (child, is_word) = Self::grow(arena, None, false, word, i + 1);
            let node = place(
                arena,
                TrieLinkedListArena { child, sibling: chain, letter: c, is_word },
            );
            proof {
                let before = TrieLinkedListArena {
                    child: None,
                    sibling: chain,
                    letter: c,
                    is_word: false,
                };
                assert(chain matches Some(h) ==> h.letter < c && h.chain_sorted());
                Self::lemma_fresh(chain, c);
                assert forall|w: Seq<char>| #[trigger]
                    node.has_word(w) == (before.has_word(w) || w == tail) by {
                    if w.len() == 0 && tail.len() == 0 {
                        assert(w =~= tail);
                    }
                }
                Self::lemma_grown(before, *node, chain, rest);
                assert forall|p: Seq<char>| #[trigger]
                    before.chain_path(p) == (Self::opt_path(chain, p) || (p.len() == 1
                        && is_prefix_of(p, rest))) by {
                    if p.len() > 0 {
                        lemma_prefix_step(p, rest);
                        if p[0] == c {
                            assert(tail.subrange(0, 0) =~= Seq::<char>::empty());
                            if p.len() == 1 {
                                assert(p.drop_first() =~= Seq::<char>::empty());
                            }
                        }
                    }
                }
            }
            node
        } else {
            let head = chain.unwrap();
            if head.letter == c {
                let (child, is_word) = Self::grow(arena, head.child, head.is_word, word, i + 1);
                let node = place(
                    arena,
                    TrieLinkedListArena { child, sibling: head.sibling, letter: c, is_word },
                );
                proof {
                    assert forall|w: Seq<char>| #[trigger]
                        node.has_word(w) == (head.has_word(w) || w == tail) by {
                        if w.len() == 0 && tail.len() == 0 {
                            assert(w =~= tail);
                        }
                    }
                    Self::lemma_grown(*head, *node, head.sibling, rest);
                }
                node
            } else {
                let grown = Self::insert_chain(arena, head.sibling, word, i);
                let node = place(
                    arena,
                    TrieLinkedListArena {
                        child: head.child,
                        sibling: Some(grown),
                        letter: head.letter,
                        is_word: head.is_word,
                    },
                );
                proof {
                    assert forall|p: Seq<char>| #[trigger]
                        node.chain_path(p) == (head.chain_path(p) || (p.len() > 0 && is_prefix_of(
                            p,
                            rest,
                        ))) by {
                        if p.len() > 0 {
                            lemma_prefix_step(p, rest);
                            assert(grown.chain_path(p) == (Self::opt_path(head.sibling, p) || (
                            p.len() > 0 && is_prefix_of(p, rest))));
                        }
                    }
                    assert forall|w: Seq<char>| #[trigger]
                        node.chain_word(w) == (head.chain_word(w) || w == rest) by {
                        assert(grown.chain_word(w) == (Self::opt_word(head.sibling, w) || w
                            == rest));
                    }
                }
                node
            }
        }
    }

    /// A node that holds no word yet, put before a chain of lesser letters.
    proof fn lemma_fresh(chain: Option<&'a TrieLinkedListArena<'a>>, c: char)
        requires
            Self::opt_sorted(chain),
            chain matches Some(h) ==> c > h.letter,
        ensures
            ({
                let node = TrieLinkedListArena {
                    child: None,
                    sibling: chain,
                    letter: c,
                    is_word: false,
                };
                &&& node.chain_sorted()
                &&& forall|p: Seq<char>|
                    p.len() != 1 || p[0] != c ==> #[trigger] node.chain_path(p) == Self::opt_path(
                        chain,
                        p,
                    )
                &&& forall|p: Seq<char>| p.len() == 1 && p[0] == c ==> #[trigger] node.chain_path(p)
                &&& forall|w: Seq<char>| #[trigger] node.chain_word(w) == Self::opt_word(chain, w)
            }),
    {
        let node = TrieLinkedListArena { child: None, sibling: chain, letter: c, is_word: false };
        assert forall|p: Seq<char>| p.len() > 0 && p[0] == c implies !Self::opt_path(chain, p)
            && !Self::opt_word(chain, p) by {
            if let Some(head) = chain {
                head.lemma_chain_floor(p);
            }
        }
    }

    /// What a chain holds once the node at its head, which carries the first
    /// letter of `rest`, has taken in what follows that letter.
    proof fn lemma_grown(
        before: TrieLinkedListArena<'a>,
        after: TrieLinkedListArena<'a>,
        sibling: Option<&'a TrieLinkedListArena<'a>>,
        rest: Seq<char>,
    )
        requires
            rest.len() > 0,
            before.letter == rest[0],
            after.letter == rest[0],
            before.sibling == sibling,
            after.sibling == sibling,
            before.chain_sorted(),
            after.wf(),
            forall|p: Seq<char>| #[trigger]
                after.has_path(p) == (before.has_path(p) || is_prefix_of(p, rest.drop_first())),
            forall|w: Seq<char>| #[trigger]
                after.has_word(w) == (before.has_word(w) || w == rest.drop_first()),
        ensures
            after.chain_sorted(),
            forall|p: Seq<char>| #[trigger]
                after.chain_path(p) == (before.chain_path(p) || (p.len() > 0 && is_prefix_of(
                    p,
                    rest,
                ))),
            forall|w: Seq<char>| #[trigger]
                after.chain_word(w) == (before.chain_word(w) || w == rest),
    {
        let tail = rest.drop_first();
        assert forall|p: Seq<char>| #[trigger]
            after.chain_path(p) == (before.chain_path(p) || (p.len() > 0 && is_prefix_of(
                p,
                rest,
            ))) by {
            if p.len() > 0 {
                let q = p.drop_first();
                lemma_prefix_step(p, rest);
                if p[0] == rest[0] {
                    assert(after.has_path(q) == (before.has_path(q) || is_prefix_of(q, tail)));
                    if q.len() == 0 {
                        assert(tail.subrange(0, 0) =~= q);
                    }
                }
            }
        }
        assert forall|w: Seq<char>| #[trigger]
            after.chain_word(w) == (before.chain_word(w) || w == rest) by {
            if w.len() > 0 {
                let q = w.drop_first();
                if w[0] == rest[0] {
                    assert(after.has_word(q) == (before.has_word(q) || q == tail));
                    if q == tail {
                        lemma_same_first_and_rest(w, rest);
                    }
                }
            }
        }
    }
}

/// The letters of a chain of siblings, from `trie` on, as a string.
pub fn print_siblings(trie: Option<&TrieLinkedListArena>) -> (r: String)
    ensures
        r@ == TrieLinkedListArena::letters_from(trie),
{
    let mut r = String::new();
    let mut cursor = trie;
    loop
        invariant
            r@ + TrieLinkedListArena::letters_from(cursor) == TrieLinkedListArena::letters_from(
                trie,
            ),
        decreases cursor,
    {
        match cursor {
            Some(t) => {
                let ghost so_far = r@;
                push_char(&mut r, t.letter);
                proof {
                    assert(r@ + TrieLinkedListArena::letters_from(t.sibling) =~= so_far + (
                    seq![t.letter] + TrieLinkedListArena::letters_from(t.sibling)));
                }
                cursor = t.sibling;
            },
            None => {
                proof {
                    assert(r@ + Seq::<char>::empty() =~= r@);
                }
                return r;
            },
        }
    }
}

impl<'a> Trie for TrieLinkedListArena<'a> {
    closed spec fn wf(&self) -> bool {
        Self::opt_sorted(self.child)
    }

    closed spec fn has_path(&self, p: Seq<char>) -> bool {
        p.len() == 0 || Self::opt_path(self.child, p)
    }

    closed spec fn has_word(&self, w: Seq<char>) -> bool {
        if w.len() == 0 {
            self.is_word
        } else {
            Self::opt_word(self.child, w)
        }
    }

    proof fn lemma_empty_path(&self) {
    }

    proof fn lemma_path_prefix(&self, p: Seq<char>, q: Seq<char>) {
        if p.len() > 0 {
            match self.child {
                Some(c) => {
                    c.lemma_chain_prefix(p, q);
                },
                None => {},
            }
        }
    }

    proof fn lemma_word_path(&self, w: Seq<char>) {
        if w.len() > 0 {
            match self.child {
                Some(c) => {
                    c.lemma_chain_word_path(w);
                },
                None => {},
            }
        }
    }

    fn descend_one(&self, letter: char) -> (r: Option<&Self>) {
        let ghost one = seq![letter];
        let mut cursor: &TrieLinkedListArena<'a> = match &self.child {
            Some(c) => c,
            None => {
                return None;
            },
        };
        loop
            invariant
                cursor.chain_sorted(),
                one == seq![letter],
                forall|s: Seq<char>| #[trigger]
                    cursor.chain_path(one + s) == self.has_path(one + s),
                forall|s: Seq<char>| #[trigger]
                    cursor.chain_word(one + s) == self.has_word(one + s),
            decreases cursor,
        {
            if cursor.letter == letter {
                proof {
                    assert(one + Seq::<char>::empty() =~= one);
                    assert(cursor.chain_path(one + Seq::<char>::empty()));
                    assert forall|s: Seq<char>| #[trigger]
                        cursor.has_path(s) == self.has_path(one + s) by {
                        assert((one + s).drop_first() =~= s);
                        assert(cursor.chain_path(one + s) == self.has_path(one + s));
                    }
                    assert forall|s: Seq<char>| #[trigger]
                        cursor.has_word(s) == self.has_word(one + s) by {
                        assert((one + s).drop_first() =~= s);
                        assert(cursor.chain_word(one + s) == self.has_word(one + s));
                    }
                }
                return Some(cursor);
            }
            if cursor.letter < letter {
                proof {
                    assert(one + Seq::<char>::empty() =~= one);
                    cursor.lemma_chain_floor(one);
                    assert(!cursor.chain_path(one + Seq::<char>::empty()));
                }
                return None;
            }
            match &cursor.sibling {
                Some(s) => {
                    proof {
                        assert forall|t: Seq<char>| #[trigger]
                            s.chain_path(one + t) == self.has_path(one + t) by {
                            assert((one + t)[0] == letter);
                            assert(cursor.chain_path(one + t) == self.has_path(one + t));
                        }
                        assert forall|t: Seq<char>| #[trigger]
                            s.chain_word(one + t) == self.has_word(one + t) by {
                            assert((one + t)[0] == letter);
                            assert(cursor.chain_word(one + t) == self.has_word(one + t));
                        }
                    }
                    cursor = s;
                },
                None => {
                    proof {
                        assert(one + Seq::<char>::empty() =~= one);
                        assert(!cursor.chain_path(one + Seq::<char>::empty()));
                    }
                    return None;
                },
            }
        }
    }

    fn is_word(&self) -> (r: bool) {
        self.is_word
    }
}

} // verus!
