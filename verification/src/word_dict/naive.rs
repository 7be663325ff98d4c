//! Not a tree at all: the words in one sorted list, searched by halving.
use vstd::prelude::*;
use crate::text::{
    among_words, chars_of, is_letter_word, is_prefix_of, lemma_among_words_step, lemma_prefix_step,
    lemma_same_first_and_rest, letters_only, listed,
};

verus! {

/// `a` comes before `b` in the order of a dictionary, or is `b`.
pub open spec fn in_order(a: Seq<char>, b: Seq<char>) -> bool
    decreases a.len(),
{
    if a.len() == 0 {
        true
    } else if b.len() == 0 {
        false
    } else if a[0] != b[0] {
        a[0] < b[0]
    } else {
        in_order(a.drop_first(), b.drop_first())
    }
}

/// A word is in order with itself.
pub proof fn lemma_in_order_reflexive(a: Seq<char>)
    ensures
        in_order(a, a),
    decreases a.len(),
{
    if a.len() > 0 {
        lemma_in_order_reflexive(a.drop_first());
    }
}

/// What is in order with a word is in order with all that the word is in
/// order with.
pub proof fn lemma_in_order_transitive(a: Seq<char>, b: Seq<char>, c: Seq<char>)
    requires
        in_order(a, b),
        in_order(b, c),
    ensures
        in_order(a, c),
    decreases a.len(),
{
    if a.len() > 0 && a[0] == b[0] && b[0] == c[0] {
        lemma_in_order_transitive(a.drop_first(), b.drop_first(), c.drop_first());
    }
}

/// Of two words one is in order with the other.
pub proof fn lemma_in_order_total(a: Seq<char>, b: Seq<char>)
    ensures
        in_order(a, b) || in_order(b, a),
    decreases a.len(),
{
    if a.len() > 0 && b.len() > 0 && a[0] == b[0] {
        lemma_in_order_total(a.drop_first(), b.drop_first());
    }
}

/// Two words that are in order either way are one word.
pub proof fn lemma_in_order_both_ways(a: Seq<char>, b: Seq<char>)
    requires
        in_order(a, b),
        in_order(b, a),
    ensures
        a == b,
    decreases a.len(),
{
    if a.len() > 0 {
        lemma_in_order_both_ways(a.drop_first(), b.drop_first());
        lemma_same_first_and_rest(a, b);
    } else {
        assert(a =~= b);
    }
}

/// A word comes after whatever it begins with.
pub proof fn lemma_prefix_in_order(p: Seq<char>, w: Seq<char>)
    requires
        is_prefix_of(p, w),
    ensures
        in_order(p, w),
    decreases p.len(),
{
    if p.len() > 0 {
        lemma_prefix_step(p, w);
        lemma_prefix_in_order(p.drop_first(), w.drop_first());
    }
}

/// What stands between `p` and a word that begins with `p` begins with `p` too.
pub proof fn lemma_prefix_between(p: Seq<char>, x: Seq<char>, w: Seq<char>)
    requires
        is_prefix_of(p, w),
        in_order(p, x),
        in_order(x, w),
    ensures
        is_prefix_of(p, x),
    decreases p.len(),
{
    if p.len() > 0 {
        lemma_prefix_step(p, w);
        lemma_prefix_step(p, x);
        lemma_prefix_between(p.drop_first(), x.drop_first(), w.drop_first());
    } else {
        assert(x.subrange(0, 0) =~= p);
    }
}

/// Whether `a` comes before `b` in the order of a dictionary, or is `b`.
pub fn comes_first(a: &Vec<char>, b: &Vec<char>) -> (r: bool)
    ensures
        r == in_order(a@, b@),
{
    let mut i: usize = 0;
    proof {
        assert(a@.skip(0) =~= a@);
        assert(b@.skip(0) =~= b@);
    }
    while i < a.len()
        invariant
            i <= a.len(),
            i <= b.len(),
            in_order(a@, b@) == in_order(a@.skip(i as int), b@.skip(i as int)),
        decreases a.len() - i,
    {
        proof {
            assert(a@.skip(i as int).drop_first() =~= a@.skip(i + 1));
            assert(b@.skip(i as int).len() == 0 || b@.skip(i as int).drop_first() =~= b@.skip(
                i + 1,
            ));
        }
        if i >= b.len() {
            return false;
        }
        if a[i] != b[i] {
            return a[i] < b[i];
        }
        i += 1;
    }
    true
}

/// Whether `w` begins with `p`.
pub fn starts_with(w: &Vec<char>, p: &Vec<char>) -> (r: bool)
    ensures
        r == is_prefix_of(p@, w@),
{
    if p.len() > w.len() {
        return false;
    }
    let mut i: usize = 0;
    while i < p.len()
        invariant
            i <= p.len() <= w.len(),
            forall|k: int| 0 <= k < i ==> p@[k] == w@[k],
        decreases p.len() - i,
    {
        if p[i] != w[i] {
            proof {
                if is_prefix_of(p@, w@) {
                    assert(w@.subrange(0, p@.len() as int)[i as int] == p@[i as int]);
                }
            }
            return false;
        }
        i += 1;
    }
    proof {
        assert(w@.subrange(0, p@.len() as int) =~= p@);
    }
    true
}

/// Each word of `list` comes before those after it, and is none of them.
pub open spec fn rising(list: Seq<Seq<char>>) -> bool {
    forall|i: int, j: int|
        0 <= i < j < list.len() ==> in_order(#[trigger] list[i], #[trigger] list[j]) && list[i]
            != list[j]
}

/// The words, each once, in the order of a dictionary.
#[derive(Debug)]
pub struct TrieNaive {
    vec: Vec<Vec<char>>,
}

impl TrieNaive {
    /// The words, in the order in which they are kept.
    pub closed spec fn list(&self) -> Seq<Seq<char>> {
        Seq::new(self.vec@.len(), |i: int| self.vec@[i]@)
    }

    /// The words stand in the order of a dictionary, each once.
    #[verifier::type_invariant]
    spec fn sorted(&self) -> bool {
        rising(self.list())
    }

    /// `w` is one of the words.
    pub open spec fn holds(&self, w: Seq<char>) -> bool {
        self.list().contains(w)
    }

    /// A list without words.
    pub fn blank() -> (r: TrieNaive)
        ensures
            r.list().len() == 0,
    {
        TrieNaive { vec: Vec::new() }
    }

    /// The words, in the order in which they are kept.
    pub fn words(&self) -> (r: &Vec<Vec<char>>)
        ensures
            rising(self.list()),
            r@.len() == self.list().len(),
            forall|i: int| 0 <= i < r@.len() ==> (#[trigger] r@[i])@ == self.list()[i],
    {
        proof {
            use_type_invariant(self);
        }
        &self.vec
    }

    /// The place of the first word that does not come before `word`.
    fn lower_bound(&self, word: &Vec<char>) -> (at: usize)
        ensures
            at <= self.list().len(),
            forall|k: int| 0 <= k < at ==> !in_order(word@, #[trigger] self.list()[k]),
            forall|k: int|
                at <= k < self.list().len() ==> in_order(word@, #[trigger] self.list()[k]),
    {
        proof {
            use_type_invariant(self);
        }
        let ghost list = self.list();
        let mut lo: usize = 0;
        let mut hi: usize = self.vec.len();
        while lo < hi
            invariant
                lo <= hi <= list.len(),
                list == self.list(),
                list.len() == self.vec@.len(),
                rising(list),
                forall|k: int| 0 <= k < lo ==> !in_order(word@, #[trigger] list[k]),
                forall|k: int| hi <= k < list.len() ==> in_order(word@, #[trigger] list[k]),
            decreases hi - lo,
        {
            let mid = lo + (hi - lo) / 2;
            assert(self.vec@[mid as int]@ == list[mid as int]);
            if comes_first(word, &self.vec[mid]) {
                proof {
                    assert forall|k: int| mid <= k < list.len() implies in_order(
                        word@,
                        #[trigger] list[k],
                    ) by {
                        if k > mid {
                            lemma_in_order_transitive(word@, list[mid as int], list[k]);
                        }
                    }
                }
                hi = mid;
            } else {
                proof {
                    assert forall|k: int| 0 <= k < mid + 1 implies !in_order(
                        word@,
                        #[trigger] list[k],
                    ) by {
                        if k < mid && in_order(word@, list[k]) {
                            lemma_in_order_transitive(word@, list[k], list[mid as int]);
                        }
                    }
                }
                lo = mid + 1;
            }
        }
        lo
    }

    /// Adds `word` to the words, unless it is one of them. A word with a
    /// character that is no letter of the alphabet is left out: nothing
    /// changes.
    pub fn add_word(&mut self, word: &str)
        ensures
            forall|w: Seq<char>| #[trigger]
                final(self).holds(w) == (old(self).holds(w) || (is_letter_word(word@) && w
                    == word@)),
    {
        let chars = chars_of(word);
        if !letters_only(&chars) {
            return ;
        }
        proof {
            use_type_invariant(&*self);
        }
        let ghost before = self.list();
        let at = self.lower_bound(&chars);
        if at < self.vec.len() {
            assert(self.vec@[at as int]@ == before[at as int]);
            if comes_first(&self.vec[at], &chars) {
                proof {
                    lemma_in_order_both_ways(chars@, before[at as int]);
                }
                return ;
            }
        }
        let mut list: Vec<Vec<char>> = Vec::new();
        std::mem::swap(&mut self.vec, &mut list);
        list.insert(at, chars);
        proof {
            let after = Seq::new(list@.len(), |i: int| list@[i]@);
            assert forall|k: int| 0 <= k < after.len() implies (#[trigger] after[k]) == (if k < at {
                before[k]
            } else if k == at {
                word@
            } else {
                before[k - 1]
            }) by {
                if k < at {
                    assert(old(self).vec@[k]@ == before[k]);
                } else if k > at {
                    assert(old(self).vec@[k - 1]@ == before[k - 1]);
                }
            }
            assert forall|i: int, j: int| 0 <= i < j < after.len() implies in_order(
                #[trigger] after[i],
                #[trigger] after[j],
            ) && after[i] != after[j] by {
                if i == at {
                    assert(in_order(word@, before[j - 1]));
                    if j - 1 == at {
                        if word@ == before[at as int] {
                            lemma_in_order_reflexive(word@);
                        }
                    } else {
                        if word@ == before[j - 1] {
                            assert(in_order(before[at as int], before[j - 1]));
                            lemma_in_order_both_ways(word@, before[at as int]);
                            lemma_in_order_reflexive(word@);
                        }
                    }
                } else if j == at {
                    assert(!in_order(word@, before[i]));
                    lemma_in_order_total(word@, before[i]);
                    if word@ == before[i] {
                        lemma_in_order_reflexive(word@);
                    }
                } else {
                    let a = if i < at {
                        i
                    } else {
                        i - 1
                    };
                    let b = if j < at {
                        j
                    } else {
                        j - 1
                    };
                    assert(in_order(before[a], before[b]) && before[a] != before[b]);
                }
            }
            assert forall|w: Seq<char>| #[trigger]
                after.contains(w) == (old(self).holds(w) || w == word@) by {
                if old(self).holds(w) {
                    let k = choose|k: int| 0 <= k < before.len() && before[k] == w;
                    let k2 = if k < at {
                        k
                    } else {
                        k + 1
                    };
                    assert(after[k2] == w);
                }
                if w == word@ {
                    assert(after[at as int] == w);
                }
                if after.contains(w) {
                    let k = choose|k: int| 0 <= k < after.len() && after[k] == w;
                    if k < at {
                        assert(before[k] == w);
                    } else if k > at {
                        assert(before[k - 1] == w);
                    }
                }
            }
        }
        let ghost grown = Seq::new(list@.len(), |i: int| list@[i]@);
        std::mem::swap(&mut self.vec, &mut list);
        proof {
            assert(self.list() =~= grown);
        }
    }

    /// The list of the words of `words` that are made of letters only.
    pub fn from_words(words: &Vec<String>) -> (r: TrieNaive)
        ensures
            forall|w: Seq<char>| #[trigger] r.holds(w) == listed(words@, w),
    {
        let mut dict = TrieNaive::blank();
        let mut n: usize = 0;
        while n < words.len()
            invariant
                n <= words.len(),
                forall|w: Seq<char>| #[trigger] dict.holds(w) == among_words(words@, n as int, w),
            decreases words.len() - n,
        {
            let ghost before = dict;
            dict.add_word(words[n].as_str());
            proof {
                assert forall|w: Seq<char>| #[trigger]
                    dict.holds(w) == among_words(words@, n + 1, w) by {
                    assert(dict.holds(w) == (before.holds(w) || (is_letter_word(words@[n as int]@)
                        && w == words@[n as int]@)));
                    lemma_among_words_step(words@, n as int, w);
                }
            }
            n += 1;
        }
        dict
    }

    /// Whether `word` is one of the words.
    pub fn is_word(&self, word: &str) -> (r: bool)
        ensures
            r == self.holds(word@),
    {
        proof {
            use_type_invariant(self);
        }
        let ghost list = self.list();
        let chars = chars_of(word);
        let at = self.lower_bound(&chars);
        if at >= self.vec.len() {
            proof {
                if self.holds(word@) {
                    let k = choose|k: int| 0 <= k < list.len() && list[k] == word@;
                    lemma_in_order_reflexive(word@);
                }
            }
            return false;
        }
        assert(self.vec@[at as int]@ == list[at as int]);
        let r = comes_first(&self.vec[at], &chars);
        proof {
            if r {
                lemma_in_order_both_ways(chars@, list[at as int]);
            }
            if self.holds(word@) {
                let k = choose|k: int| 0 <= k < list.len() && list[k] == word@;
                lemma_in_order_reflexive(word@);
                assert(at <= k);
                if at < k {
                    assert(in_order(list[at as int], list[k]));
                }
            }
        }
        r
    }

    /// Whether one of the words begins with `word`.
    pub fn is_prefix(&self, word: &str) -> (r: bool)
        ensures
            r == exists|w: Seq<char>| #[trigger] self.holds(w) && is_prefix_of(word@, w),
    {
        proof {
            use_type_invariant(self);
        }
        let ghost list = self.list();
        let chars = chars_of(word);
        let at = self.lower_bound(&chars);
        if at >= self.vec.len() {
            proof {
                if exists|w: Seq<char>| #[trigger] self.holds(w) && is_prefix_of(word@, w) {
                    let w = choose|w: Seq<char>| #[trigger] self.holds(w) && is_prefix_of(word@, w);
                    let k = choose|k: int| 0 <= k < list.len() && list[k] == w;
                    lemma_prefix_in_order(word@, w);
                }
            }
            return false;
        }
        assert(self.vec@[at as int]@ == list[at as int]);
        let r = starts_with(&self.vec[at], &chars);
        proof {
            if r {
                assert(self.holds(list[at as int]));
            }
            if exists|w: Seq<char>| #[trigger] self.holds(w) && is_prefix_of(word@, w) {
                let w = choose|w: Seq<char>| #[trigger] self.holds(w) && is_prefix_of(word@, w);
                let k = choose|k: int| 0 <= k < list.len() && list[k] == w;
                lemma_prefix_in_order(word@, w);
                assert(at <= k);
                if at < k {
                    assert(in_order(list[at as int], list[k]));
                } else {
                    lemma_in_order_reflexive(w);
                }
                lemma_prefix_between(word@, list[at as int], w);
            }
        }
        r
    }
}

} // verus!
