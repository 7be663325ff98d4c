//! Letters and words as sequences of characters.
use vstd::prelude::*;

verus! {

/// The alphabet of the dictionary: the lower-case letters `a` to `z`.
pub open spec fn is_letter(c: char) -> bool {
    'a' <= c && c <= 'z'
}

/// A word of the dictionary's alphabet: every character is a letter.
pub open spec fn is_letter_word(w: Seq<char>) -> bool {
    forall|i: int| 0 <= i < w.len() ==> is_letter(#[trigger] w[i])
}

/// `p` is what `w` begins with.
pub open spec fn is_prefix_of(p: Seq<char>, w: Seq<char>) -> bool {
    p.len() <= w.len() && w.subrange(0, p.len() as int) == p
}

/// `w` is made of letters only and is one of the first `n` of `words`.
pub open spec fn among_words(words: Seq<String>, n: int, w: Seq<char>) -> bool {
    is_letter_word(w) && exists|i: int| 0 <= i < n && (#[trigger] words[i])@ == w
}

/// `p` is empty, or one of the first `n` of `words` is made of letters only
/// and begins with `p`.
pub open spec fn among_prefixes(words: Seq<String>, n: int, p: Seq<char>) -> bool {
    p.len() == 0 || exists|i: int|
        0 <= i < n && is_letter_word((#[trigger] words[i])@) && is_prefix_of(p, words[i]@)
}

/// `w` is made of letters only and is one of `words`.
pub open spec fn listed(words: Seq<String>, w: Seq<char>) -> bool {
    among_words(words, words.len() as int, w)
}

/// `p` is empty, or one of `words` is made of letters only and begins with `p`.
pub open spec fn begun(words: Seq<String>, p: Seq<char>) -> bool {
    among_prefixes(words, words.len() as int, p)
}

/// What one more word adds to `among_words`.
pub proof fn lemma_among_words_step(words: Seq<String>, n: int, w: Seq<char>)
    requires
        0 <= n < words.len(),
    ensures
        among_words(words, n + 1, w) == (among_words(words, n, w) || (is_letter_word(words[n]@)
            && w == words[n]@)),
{
    if among_words(words, n, w) {
        let i = choose|i: int| 0 <= i < n && (#[trigger] words[i])@ == w;
        assert(0 <= i < n + 1 && words[i]@ == w);
    }
    if is_letter_word(words[n]@) && w == words[n]@ {
        assert(0 <= n < n + 1 && words[n]@ == w);
    }
    if among_words(words, n + 1, w) {
        let i = choose|i: int| 0 <= i < n + 1 && (#[trigger] words[i])@ == w;
        if i < n {
            assert(among_words(words, n, w));
        }
    }
}

/// What one more word adds to `among_prefixes`.
pub proof fn lemma_among_prefixes_step(words: Seq<String>, n: int, p: Seq<char>)
    requires
        0 <= n < words.len(),
    ensures
        among_prefixes(words, n + 1, p) == (among_prefixes(words, n, p) || (is_letter_word(
            words[n]@,
        ) && is_prefix_of(p, words[n]@))),
{
    if p.len() > 0 {
        if among_prefixes(words, n, p) {
            let i = choose|i: int|
                0 <= i < n && is_letter_word((#[trigger] words[i])@) && is_prefix_of(p, words[i]@);
            assert(0 <= i < n + 1 && is_letter_word(words[i]@) && is_prefix_of(p, words[i]@));
        }
        if is_letter_word(words[n]@) && is_prefix_of(p, words[n]@) {
            assert(0 <= n < n + 1 && is_letter_word(words[n]@) && is_prefix_of(p, words[n]@));
        }
        if among_prefixes(words, n + 1, p) {
            let i = choose|i: int|
                0 <= i < n + 1 && is_letter_word((#[trigger] words[i])@) && is_prefix_of(
                    p,
                    words[i]@,
                );
            if i < n {
                assert(among_prefixes(words, n, p));
            }
        }
    }
}

/// A sequence is told by its first element and what follows it.
pub proof fn lemma_same_first_and_rest(a: Seq<char>, b: Seq<char>)
    requires
        a.len() > 0,
        b.len() > 0,
        a[0] == b[0],
        a.drop_first() == b.drop_first(),
    ensures
        a == b,
{
    assert(a.len() == b.len()) by {
        assert(a.drop_first().len() == a.len() - 1);
        assert(b.drop_first().len() == b.len() - 1);
    }
    assert forall|k: int| 0 <= k < a.len() implies a[k] == b[k] by {
        if k > 0 {
            assert(a[k] == a.drop_first()[k - 1]);
            assert(b[k] == b.drop_first()[k - 1]);
        }
    }
    assert(a =~= b);
}

/// A sequence with at least one element begins `w` exactly if `w` starts
/// with the same element and goes on with what follows it in the sequence.
pub proof fn lemma_prefix_step(p: Seq<char>, w: Seq<char>)
    requires
        p.len() > 0,
    ensures
        is_prefix_of(p, w) <==> (w.len() > 0 && p[0] == w[0] && is_prefix_of(
            p.drop_first(),
            w.drop_first(),
        )),
{
    let n = p.len() as int;
    if is_prefix_of(p, w) {
        assert(w.subrange(0, n)[0] == p[0]);
        assert(w.drop_first().subrange(0, n - 1) =~= w.subrange(0, n).drop_first());
    }
    if w.len() > 0 && p[0] == w[0] && is_prefix_of(p.drop_first(), w.drop_first()) {
        assert(w.subrange(0, n).drop_first() =~= w.drop_first().subrange(0, n - 1));
        lemma_same_first_and_rest(w.subrange(0, n), p);
    }
}

/// Whether `c` is a letter of the alphabet.
pub fn letter(c: char) -> (r: bool)
    ensures
        r == is_letter(c),
{
    'a' <= c && c <= 'z'
}

/// Whether every character of `word` is a letter of the alphabet.
pub fn letters_only(word: &Vec<char>) -> (r: bool)
    ensures
        r == is_letter_word(word@),
{
    let mut i: usize = 0;
    while i < word.len()
        invariant
            i <= word.len(),
            forall|k: int| 0 <= k < i ==> is_letter(#[trigger] word@[k]),
        decreases word.len() - i,
    {
        if !letter(word[i]) {
            return false;
        }
        i += 1;
    }
    true
}

/// Appends `c` to `s`. This is `String::push` of the standard library, of
/// which it is taken on trust that the string afterwards holds the
/// characters it held before, followed by `c`, and nothing else.
#[verifier::external_body]
pub(crate) fn push_char(s: &mut String, c: char)
    ensures
        final(s)@ == old(s)@.push(c),
{
    s.push(c)
}

/// The characters of `s`, one by one.
pub fn chars_of(s: &str) -> (v: Vec<char>)
    ensures
        v@ == s@,
{
    let mut v: Vec<char> = Vec::new();
    proof {
        broadcast use vstd::string::group_string_axioms;
    }
    for c in it: s.chars()
        invariant
            it.seq() == s@,
            v@ == it.seq().subrange(0, it.index() as int),
    {
        v.push(c);
    }
    v
}

} // verus!
