//! The words in a double array of the crate `yada`: one block of bytes that
//! is built once, from the sorted words, and then only searched.
use vstd::prelude::*;
use yada::builder::DoubleArrayBuilder;
use yada::errors::YadaError;
use yada::DoubleArray;
use crate::text::{among_words, chars_of, is_letter, is_letter_word, letters_only};
use crate::word_dict::naive::{in_order, rising, TrieNaive};

verus! {

/// The double array of `yada`, of which nothing is seen here but the names
/// below.
#[verifier::external_type_specification]
#[verifier::external_body]
#[verifier::reject_recursive_types(T)]
pub struct ExDoubleArray<T: core::ops::Deref<Target = [u8]>>(DoubleArray<T>);

/// The error of `yada`, which is handed to `fault_of` as it comes.
#[verifier::external_type_specification]
#[verifier::external_body]
pub struct ExYadaError(YadaError);

/// The bytes that `DoubleArrayBuilder::build` makes of a list of keys with
/// their values; `None` where it turns the list down.
pub uninterp spec fn double_array_built(keys: Seq<(Seq<u8>, u32)>) -> Option<Seq<u8>>;

/// Whether `DoubleArray::new` takes `bytes` for a double array.
pub uninterp spec fn double_array_accepted(bytes: Seq<u8>) -> bool;

/// The bytes that a double array holds.
pub uninterp spec fn double_array_image(array: DoubleArray<Vec<u8>>) -> Seq<u8>;

/// What `DoubleArray::exact_match_search` finds for `key` in a double array
/// with the bytes `image`.
pub uninterp spec fn double_array_found(image: Seq<u8>, key: Seq<u8>) -> Option<u32>;

/// The keys and values of `keyset` as plain values.
pub open spec fn keyset_view(keyset: Seq<(Vec<u8>, u32)>) -> Seq<(Seq<u8>, u32)> {
    Seq::new(keyset.len(), |i: int| (keyset[i].0@, keyset[i].1))
}

/// Why no double array came of a list of words: the errors of `yada`, by
/// their names there.
#[derive(Debug, Clone, Copy, PartialEq, Eq)]
pub enum YadaFault {
    /// There is no key.
    EmptyKeyset,
    /// A key has no byte.
    EmptyKey,
    /// A key has a zero byte.
    NullByte,
    /// A key comes twice.
    DuplicateKey,
    /// The keys are not in order.
    UnsortedKeyset,
    /// A value is too large.
    ValueTooLarge,
    /// The double array would be too large.
    TooManyUnits,
    /// The bytes are none.
    EmptyDoubleArray,
    /// The bytes are no whole number of units.
    UnalignedDoubleArray,
    /// The units are no whole number of blocks.
    UnalignedDoubleArrayBlocks,
    /// A unit points outside the bytes.
    InvalidDoubleArrayUnit,
}

/// The bytes of a double array for `keyset`. This is
/// `DoubleArrayBuilder::build` of `yada`, a function of the keys and values
/// alone. Nothing is claimed of when it fails or of what the bytes are but
/// that they are the ones named `double_array_built`.
#[verifier::external_body]
fn build_bytes(keyset: &Vec<(Vec<u8>, u32)>) -> (r: Result<Vec<u8>, YadaError>)
    ensures
        r is Ok <==> double_array_built(keyset_view(keyset@)) is Some,
        r matches Ok(bytes) ==> double_array_built(keyset_view(keyset@)) == Some(bytes@),
{
    DoubleArrayBuilder::build(keyset.as_slice())
}

/// A double array over `bytes`. This is `DoubleArray::new` of `yada`, which
/// checks the bytes and, if it takes them, wraps them as they are.
#[verifier::external_body]
fn open_bytes(bytes: Vec<u8>) -> (r: Result<DoubleArray<Vec<u8>>, YadaError>)
    ensures
        r is Ok <==> double_array_accepted(bytes@),
        r matches Ok(array) ==> double_array_image(array) == bytes@,
{
    DoubleArray::new(bytes)
}

/// The value of `key` in `array`. This is `DoubleArray::exact_match_search`
/// of `yada`. It stops the program on a zero byte in the key and on an
/// array that is not in order inside: so the key has no zero byte, and the
/// array holds bytes that came of `DoubleArrayBuilder::build`.
#[verifier::external_body]
fn search_bytes(array: &DoubleArray<Vec<u8>>, key: &Vec<u8>) -> (r: Option<u32>)
    requires
        forall|i: int| 0 <= i < key@.len() ==> key@[i] != 0,
        exists|keys: Seq<(Seq<u8>, u32)>|
            #[trigger] double_array_built(keys) == Some(double_array_image(*array)),
    ensures
        r == double_array_found(double_array_image(*array), key@),
{
    array.exact_match_search(key.as_slice())
}

/// Which of `yada`'s errors `e` is.
#[verifier::external_body]
fn fault_of(e: YadaError) -> (r: YadaFault) {
    match e {
        YadaError::EmptyKeyset => YadaFault::EmptyKeyset,
        YadaError::EmptyKey => YadaFault::EmptyKey,
        YadaError::NullByte => YadaFault::NullByte,
        YadaError::DuplicateKey => YadaFault::DuplicateKey,
        YadaError::UnsortedKeyset => YadaFault::UnsortedKeyset,
        YadaError::ValueTooLarge { .. } => YadaFault::ValueTooLarge,
        YadaError::TooManyUnits { .. } => YadaFault::TooManyUnits,
        YadaError::EmptyDoubleArray => YadaFault::EmptyDoubleArray,
        YadaError::UnalignedDoubleArray { .. } => YadaFault::UnalignedDoubleArray,
        YadaError::UnalignedDoubleArrayBlocks { .. } => YadaFault::UnalignedDoubleArrayBlocks,
        YadaError::InvalidDoubleArrayUnit { .. } => YadaFault::InvalidDoubleArrayUnit,
    }
}

/// The letters of `w` as bytes.
pub open spec fn bytes_of(w: Seq<char>) -> Seq<u8> {
    Seq::new(w.len(), |i: int| w[i] as u8)
}

/// The keys that are handed to `yada` for a list of words: each word as
/// bytes, with the value 1.
pub open spec fn keyset_of(list: Seq<Seq<char>>) -> Seq<(Seq<u8>, u32)> {
    Seq::new(list.len(), |i: int| (bytes_of(list[i]), 1u32))
}

/// `list` holds the words of `words` that are made of letters only and have
/// at least one, each once, in the order of a dictionary.
pub open spec fn is_word_list(words: Seq<String>, list: Seq<Seq<char>>) -> bool {
    &&& rising(list)
    &&& forall|w: Seq<char>| #[trigger]
        list.contains(w) == (w.len() > 0 && among_words(words, words.len() as int, w))
}

/// The letters of `word` as bytes.
fn to_bytes(word: &Vec<char>) -> (r: Vec<u8>)
    requires
        is_letter_word(word@),
    ensures
        r@ == bytes_of(word@),
        forall|i: int| 0 <= i < r@.len() ==> r@[i] != 0,
{
    let mut r: Vec<u8> = Vec::with_capacity(word.len());
    let mut i: usize = 0;
    while i < word.len()
        invariant
            i <= word.len(),
            is_letter_word(word@),
            r@ == bytes_of(word@.take(i as int)),
            forall|k: int| 0 <= k < r@.len() ==> r@[k] != 0,
        decreases word.len() - i,
    {
        let c = word[i];
        assert(is_letter(word@[i as int]));
        r.push(c as u8);
        proof {
            assert(r@ =~= bytes_of(word@.take(i + 1)));
        }
        i += 1;
    }
    proof {
        assert(word@.take(word.len() as int) =~= word@);
    }
    r
}

/// The words as the keys of a double array.
pub struct TrieYada {
    trie: DoubleArray<Vec<u8>>,
}

impl TrieYada {
    /// The bytes of the double array.
    pub closed spec fn image(&self) -> Seq<u8> {
        double_array_image(self.trie)
    }

    /// The bytes came of a list of keys.
    #[verifier::type_invariant]
    spec fn built(&self) -> bool {
        exists|keys: Seq<(Seq<u8>, u32)>|
            #[trigger] double_array_built(keys) == Some(double_array_image(self.trie))
    }

    /// The double array of the words of `words` that are made of letters
    /// only and have at least one. The words are sorted, each is kept once
    /// and gets the value 1. Where no word is left, there is nothing to
    /// build. Else what `yada` builds of the list is taken as it comes, and
    /// a fault of `yada` is handed on.
    pub fn from_words(words: Vec<String>) -> (r: Result<TrieYada, YadaFault>)
        ensures
            exists|list: Seq<Seq<char>>|
                #![trigger keyset_of(list)]
                {
                    &&& is_word_list(words@, list)
                    &&& r is Ok <==> list.len() > 0 && (double_array_built(
                        keyset_of(list),
                    ) matches Some(bytes) && double_array_accepted(bytes))
                    &&& r matches Ok(t) ==> Some(t.image()) == double_array_built(keyset_of(list))
                    &&& list.len() == 0 ==> r == Err::<TrieYada, YadaFault>(YadaFault::EmptyKeyset)
                },
    {
        let sorted = TrieNaive::from_words(&words);
        let entries = sorted.words();
        let ghost all = sorted.list();
        let start: usize = if entries.len() > 0 && entries[0].len() == 0 {
            1
        } else {
            0
        };
        let ghost list = all.skip(start as int);
        proof {
            assert forall|w: Seq<char>| #[trigger]
                list.contains(w) == (w.len() > 0 && among_words(
                    words@,
                    words@.len() as int,
                    w,
                )) by {
                assert(sorted.holds(w) == among_words(words@, words@.len() as int, w));
                if list.contains(w) {
                    let k = choose|k: int| 0 <= k < list.len() && list[k] == w;
                    assert(all[k + start] == w);
                    if k + start > 0 {
                        assert(in_order(all[0], all[k + start]) && all[0] != all[k + start]);
                        if w.len() == 0 {
                            assert(all[0] =~= w);
                        }
                    }
                }
                if w.len() > 0 && all.contains(w) {
                    let k = choose|k: int| 0 <= k < all.len() && all[k] == w;
                    assert(list[k - start] == w);
                }
            }
            assert forall|i: int, j: int| 0 <= i < j < list.len() implies in_order(
                #[trigger] list[i],
                #[trigger] list[j],
            ) && list[i] != list[j] by {
                assert(in_order(all[i + start], all[j + start]) && all[i + start] != all[j
                    + start]);
            }
        }
        proof {
            assert forall|w: Seq<char>| #[trigger] all.contains(w) implies is_letter_word(w) by {
                assert(sorted.holds(w) == among_words(words@, words@.len() as int, w));
            }
        }
        let mut keyset: Vec<(Vec<u8>, u32)> = Vec::new();
        let mut i: usize = start;
        while i < entries.len()
            invariant
                start <= i <= entries@.len(),
                entries@.len() == all.len(),
                forall|k: int| 0 <= k < entries@.len() ==> (#[trigger] entries@[k])@ == all[k],
                forall|w: Seq<char>| #[trigger] all.contains(w) ==> is_letter_word(w),
                list == all.skip(start as int),
                keyset_view(keyset@) == keyset_of(list.take(i - start)),
            decreases entries.len() - i,
        {
            assert(all.contains(all[i as int]));
            assert(entries@[i as int]@ == all[i as int]);
            let ghost before = keyset@;
            let key = to_bytes(&entries[i]);
            keyset.push((key, 1));
            proof {
                let now = keyset_view(keyset@);
                let goal = keyset_of(list.take(i + 1 - start));
                assert(list.len() == all.len() - start);
                assert(keyset_view(before).len() == before.len());
                assert(keyset_of(list.take(i - start)).len() == i - start);
                assert(now.len() == goal.len());
                assert forall|k: int| 0 <= k < now.len() implies now[k] == goal[k] by {
                    if k < i - start {
                        assert(keyset_view(before)[k] == keyset_of(list.take(i - start))[k]);
                        assert(keyset@[k] == before[k]);
                    } else {
                        assert(list[k] == all[i as int]);
                    }
                }
                assert(now =~= goal);
            }
            i += 1;
        }
        proof {
            assert(list.take(list.len() as int) =~= list);
            assert(is_word_list(words@, list));
            assert(keyset_of(list) == keyset_view(keyset@));
        }
        if keyset.len() == 0 {
            return Err(YadaFault::EmptyKeyset);
        }
        let r = match build_bytes(&keyset) {
            Err(e) => Err(fault_of(e)),
            Ok(bytes) => match open_bytes(bytes) {
                Err(e) => Err(fault_of(e)),
                Ok(trie) => Ok(TrieYada { trie }),
            },
        };
        r
    }

    /// Whether the double array has `word` as a key: whether `yada` finds a
    /// value for its bytes. A word with a character that is no letter, or
    /// with no character at all, is none of the keys.
    pub fn is_word(&self, word: &str) -> (r: bool)
        ensures
            r == (is_letter_word(word@) && word@.len() > 0 && double_array_found(
                self.image(),
                bytes_of(word@),
            ) is Some),
    {
        let chars = chars_of(word);
        if chars.len() == 0 || !letters_only(&chars) {
            return false;
        }
        let key = to_bytes(&chars);
        proof {
            use_type_invariant(self);
        }
        search_bytes(&self.trie, &key).is_some()
    }
}

} // verus!
