use word_search::word_dict::double_array::{TrieYada, YadaFault};

fn strings(words: &[&str]) -> Vec<String> {
    words.iter().map(|s| s.to_string()).collect()
}

#[test]
fn yada_simple_test() {
    let mut dict = TrieYada::from_words(
        vec![
            "hell",
            "abc",
            "hello",
            "spoon",
            "spoonlike",
            "spoony",
            "spoonmaker",
            "spoonmaking",
            "spoons",
        ]
        .iter()
        .map(|s| s.to_string())
        .collect(),
    )
    .unwrap();
    let _ = &mut dict;
}

#[test]
fn double_array_finds_its_words() {
    let dict = TrieYada::from_words(strings(&[
        "hell",
        "abc",
        "hello",
        "spoon",
        "spoonlike",
        "spoony",
        "spoonmaker",
        "spoonmaking",
        "spoons",
    ]))
    .unwrap();
    for w in ["hell", "abc", "hello", "spoon", "spoonlike", "spoony", "spoonmaker", "spoons"] {
        assert!(dict.is_word(w), "{}", w);
    }
    for w in ["he", "spoonm", "fjidso", "", "hellos", "ab", "Hello", "a\0"] {
        assert!(!dict.is_word(w), "{:?}", w);
    }
}

#[test]
fn double_array_sorts_and_sifts_the_words() {
    // Out of order, twice, empty, and not of letters only.
    let dict = TrieYada::from_words(strings(&["pear", "", "fig", "apple", "fig", "Kiwi", "a b"]))
        .unwrap();
    assert!(dict.is_word("apple"));
    assert!(dict.is_word("fig"));
    assert!(dict.is_word("pear"));
    assert!(!dict.is_word("Kiwi"));
    assert!(!dict.is_word("a b"));
    assert!(!dict.is_word(""));
}

#[test]
fn double_array_of_no_words_is_turned_down() {
    assert_eq!(TrieYada::from_words(vec![]).err(), Some(YadaFault::EmptyKeyset));
    assert_eq!(
        TrieYada::from_words(strings(&["", "NO", "n0"])).err(),
        Some(YadaFault::EmptyKeyset)
    );
}
