use typed_arena::Arena;
use word_search::dict_entry::DictEntry;
use word_search::word_dict::hashmap::TrieHashMap;
use word_search::word_dict::linkedlist_typedarena::{print_siblings, TrieLinkedListArena};
use word_search::word_dict::naive::{comes_first, starts_with, TrieNaive};
use word_search::word_dict::radix_lib::TrieRadix;
use word_search::word_dict::linkedlist::TrieLinkedList;
use word_search::word_dict::vec::{char_to_index, TrieVec};
use word_search::word_dict::Trie;

#[test]
fn hashmap_simple_test() {
    let mut dict = TrieHashMap::blank();
    dict.add_word("hell");
    dict.add_word("abc");
    dict.add_word("hello");
    assert_eq!(dict.traverse("abc").unwrap().is_word(), true);
    assert_eq!(dict.traverse("hello").unwrap().is_word(), true);
    assert_eq!(dict.traverse("he").unwrap().is_word(), false);
    assert_eq!(dict.traverse("fjidso").is_none(), true);
}

#[test]
fn linkedlist_simple_test() {
    let mut dict = TrieLinkedList::blank(' ');
    dict.add_word("hell");
    dict.add_word("abc");
    dict.add_word("hello");
    assert_eq!(dict.traverse("abc").unwrap().is_word(), true);
    assert_eq!(dict.traverse("hello").unwrap().is_word(), true);
    assert_eq!(dict.traverse("he").unwrap().is_word(), false);
    assert_eq!(dict.traverse("fjidso").is_none(), true);
}

#[test]
fn vec_simple_test() {
    let mut dict = TrieVec::blank();
    dict.add_word("hell");
    dict.add_word("abc");
    dict.add_word("hello");
    assert_eq!(dict.traverse("abc").unwrap().is_word(), true);
    assert_eq!(dict.traverse("hello").unwrap().is_word(), true);
    assert_eq!(dict.traverse("he").unwrap().is_word(), false);
    assert_eq!(dict.traverse("fjidso").is_none(), true);
}

#[test]
fn char_to_index_counts_from_a() {
    assert_eq!(char_to_index('a'), 0);
    assert_eq!(char_to_index('h'), 7);
    assert_eq!(char_to_index('z'), 25);
}

#[test]
fn linkedlist_keeps_siblings_in_order() {
    // Later words come before, between and after the letters already there.
    let mut dict = TrieLinkedList::blank(' ');
    for w in ["mat", "cat", "zoo", "dog", "map", "man", "mad", "a"] {
        dict.add_word(w);
    }
    for w in ["mat", "cat", "zoo", "dog", "map", "man", "mad", "a"] {
        assert!(dict.traverse(w).unwrap().is_word(), "{}", w);
    }
    assert!(!dict.traverse("ma").unwrap().is_word());
    assert!(dict.traverse("mb").is_none());
    assert!(dict.traverse("b").is_none());
    assert!(dict.traverse("zz").is_none());
    assert!(dict.traverse("").is_some());
    assert!(!dict.traverse("").unwrap().is_word());
}

#[test]
fn descend_one_goes_one_letter_down() {
    let mut dict = TrieHashMap::blank();
    dict.add_word("ab");
    let a = dict.descend_one('a').unwrap();
    assert!(!a.is_word());
    assert!(a.descend_one('a').is_none());
    assert!(a.descend_one('b').unwrap().is_word());
    assert!(dict.descend_one('b').is_none());
}

#[test]
fn adding_a_word_twice_changes_nothing() {
    let mut dict = TrieVec::blank();
    dict.add_word("tree");
    dict.add_word("tree");
    assert!(dict.traverse("tree").unwrap().is_word());
    assert!(!dict.traverse("tre").unwrap().is_word());
    assert!(dict.traverse("trees").is_none());
}

#[test]
fn words_with_other_characters_are_left_out() {
    let mut a = TrieVec::blank();
    let mut b = TrieHashMap::blank();
    let mut c = TrieLinkedList::blank(' ');
    for w in ["Hello", "it's", "na\u{ef}ve", "two words", "x1"] {
        a.add_word(w);
        b.add_word(w);
        c.add_word(w);
    }
    for p in ["H", "i", "n", "t", "x"] {
        assert!(a.traverse(p).is_none());
        assert!(b.traverse(p).is_none());
        assert!(c.traverse(p).is_none());
    }
    assert!(a.descend_one('A').is_none());
    assert!(a.descend_one('{').is_none());
    assert!(a.descend_one('`').is_none());
}

#[test]
fn the_empty_word_ends_at_the_root() {
    let mut dict = TrieLinkedList::blank(' ');
    assert!(!dict.is_word());
    dict.add_word("");
    assert!(dict.is_word());
    assert!(dict.traverse("").unwrap().is_word());
}

#[test]
fn a_failed_descent_stays_failed() {
    let mut dict = TrieHashMap::blank();
    dict.add_word("hello");
    assert!(dict.traverse("hex").is_none());
    assert!(dict.traverse("hexa").is_none());
    assert!(dict.traverse("hexagon").is_none());
}

#[test]
fn word_dict_simple_test() {
    let mut dict = DictEntry::blank(' ');
    dict.add_word("hell".to_string());
    dict.add_word("abc".to_string());
    dict.add_word("hello".to_string());
    assert_eq!(dict.traverse("abc").unwrap().is_word, true);
    assert_eq!(dict.traverse("hello").unwrap().is_word, true);
    assert_eq!(dict.traverse("he").unwrap().is_word, false);
    assert_eq!(dict.traverse("fjidso").is_none(), true);
}

#[test]
fn linkedlist_typedarena_simple_test() {
    let arena = Arena::new();
    let mut dict = TrieLinkedListArena::blank(' ');
    dict.add_word(&arena, "hell");
    dict.add_word(&arena, "abc");
    dict.add_word(&arena, "hello");
    dict.add_word(&arena, "spoon");
    dict.add_word(&arena, "spoonlike");
    dict.add_word(&arena, "spoony");
    dict.add_word(&arena, "spoonmaker");
    dict.add_word(&arena, "spoonmaking");
    dict.add_word(&arena, "spoons");
    assert_eq!(dict.traverse("abc").unwrap().is_word(), true);
    assert_eq!(dict.traverse("hello").unwrap().is_word(), true);
    assert_eq!(dict.traverse("he").unwrap().is_word(), false);
    assert_eq!(dict.traverse("fjidso").is_none(), true);
    assert_eq!(dict.traverse("spoonlike").unwrap().is_word(), true);
    assert_eq!(dict.traverse("spoonmaker").unwrap().is_word(), true);
    assert_eq!(dict.traverse("spoonmaking").unwrap().is_word(), true);
    assert_eq!(dict.traverse("spoons").unwrap().is_word(), true);
    assert_eq!(dict.traverse("spoonm").unwrap().is_word(), false);
}

#[test]
fn radix_lib_simple_test() {
    let mut dict = TrieRadix::blank(' ');
    dict.add_word("hell");
    dict.add_word("abc");
    dict.add_word("hello");
    dict.add_word("spoon");
    dict.add_word("spoonlike");
    dict.add_word("spoony");
    dict.add_word("spoonmaker");
    dict.add_word("spoonmaking");
    dict.add_word("spoons");
}

#[test]
fn radix_tree_tells_its_words() {
    let mut dict = TrieRadix::blank(' ');
    assert!(!dict.is_word("hell"));
    dict.add_word("hell");
    dict.add_word("hello");
    dict.add_word("two words");
    assert!(dict.is_word("hell"));
    assert!(dict.is_word("hello"));
    assert!(!dict.is_word("he"));
    assert!(!dict.is_word("hellos"));
    assert!(!dict.is_word("two words"));
    assert!(!dict.is_word(""));
    let words: Vec<String> = ["spoon", "Fork", "spoons"].iter().map(|s| s.to_string()).collect();
    let dict = TrieRadix::from_words(&words);
    assert!(dict.is_word("spoon"));
    assert!(dict.is_word("spoons"));
    assert!(!dict.is_word("Fork"));
    assert!(!dict.is_word("spo"));
}

#[test]
fn arena_takes_a_copy_of_what_is_put_in() {
    // A word goes in, and the ones before it stay.
    let arena = Arena::new();
    let mut dict = TrieLinkedListArena::blank(' ');
    for w in ["mat", "cat", "zoo", "map", "a", "mat"] {
        dict.add_word(&arena, w);
    }
    assert!(arena.len() > 0);
    for w in ["mat", "cat", "zoo", "map", "a"] {
        assert!(dict.traverse(w).unwrap().is_word(), "{}", w);
    }
    assert!(!dict.traverse("ma").unwrap().is_word());
    assert!(dict.traverse("mb").is_none());
    let t = dict.descend_one('m').unwrap().descend_one('a').unwrap();
    assert!(t.descend_one('p').unwrap().is_word());
    assert!(t.descend_one('t').unwrap().is_word());
    assert!(t.descend_one('q').is_none());
    let before = arena.len();
    dict.add_word(&arena, "zoo");
    dict.add_word(&arena, "Zoo");
    assert_eq!(arena.len(), before);
}

#[test]
fn sorted_list_tells_words_and_prefixes() {
    let mut dict = TrieNaive::blank();
    for w in ["hello", "abc", "hell", "spoon", "abc", "Spoon", ""] {
        dict.add_word(w);
    }
    assert!(dict.is_word("abc"));
    assert!(dict.is_word("hell"));
    assert!(dict.is_word("hello"));
    assert!(dict.is_word(""));
    assert!(!dict.is_word("he"));
    assert!(!dict.is_word("Spoon"));
    assert!(!dict.is_word("zebra"));
    assert!(dict.is_prefix("he"));
    assert!(dict.is_prefix("hello"));
    assert!(dict.is_prefix("spo"));
    assert!(dict.is_prefix(""));
    assert!(!dict.is_prefix("hellos"));
    assert!(!dict.is_prefix("b"));
    assert!(!dict.is_prefix("zz"));
    let none = TrieNaive::blank();
    assert!(!none.is_word(""));
    assert!(!none.is_prefix(""));
    assert!(!none.is_prefix("a"));
}

#[test]
fn sorted_list_from_words() {
    let words: Vec<String> = ["pear", "apple", "fig", "apple", "Kiwi"]
        .iter()
        .map(|s| s.to_string())
        .collect();
    let dict = TrieNaive::from_words(&words);
    assert!(dict.is_word("apple"));
    assert!(dict.is_word("fig"));
    assert!(dict.is_word("pear"));
    assert!(!dict.is_word("Kiwi"));
    assert!(dict.is_prefix("pe"));
    assert!(!dict.is_prefix("K"));
}

fn cs(s: &str) -> Vec<char> {
    s.chars().collect()
}

#[test]
fn order_of_the_dictionary() {
    assert!(comes_first(&cs(""), &cs("")));
    assert!(comes_first(&cs(""), &cs("a")));
    assert!(!comes_first(&cs("a"), &cs("")));
    assert!(comes_first(&cs("ab"), &cs("abc")));
    assert!(!comes_first(&cs("abc"), &cs("ab")));
    assert!(comes_first(&cs("abc"), &cs("abd")));
    assert!(!comes_first(&cs("b"), &cs("abd")));
    assert!(comes_first(&cs("abc"), &cs("abc")));
    assert!(starts_with(&cs("abc"), &cs("ab")));
    assert!(starts_with(&cs("abc"), &cs("")));
    assert!(starts_with(&cs("abc"), &cs("abc")));
    assert!(!starts_with(&cs("abc"), &cs("abcd")));
    assert!(!starts_with(&cs("abc"), &cs("b")));
}

#[test]
fn entries_rise_in_their_letters() {
    let mut dict = DictEntry::blank(' ');
    for w in ["mat", "cat", "zoo", "dog", "map", "man", "mad", "a"] {
        dict.add_word(w.to_string());
    }
    for w in ["mat", "cat", "zoo", "dog", "map", "man", "mad", "a"] {
        assert!(dict.traverse(w).unwrap().is_word, "{}", w);
    }
    assert!(!dict.traverse("ma").unwrap().is_word);
    assert!(dict.traverse("mb").is_none());
}

fn strings(words: &[&str]) -> Vec<String> {
    words.iter().map(|s| s.to_string()).collect()
}

#[test]
fn trees_from_a_list_of_words() {
    let list = strings(&["pear", "apple", "fig", "apple", "Kiwi", "figs"]);
    let arena = Arena::new();
    let a = TrieLinkedList::from_words(&list);
    let b = TrieHashMap::from_words(&list);
    let c = TrieVec::from_words(&list);
    let d = TrieLinkedListArena::from_words(&list, &arena);
    let e = DictEntry::from_words(&list);
    for w in ["pear", "apple", "fig", "figs"] {
        assert!(a.contains_word(w) && b.contains_word(w) && c.contains_word(w));
        assert!(d.contains_word(w) && e.contains_word(w));
    }
    for w in ["", "p", "pea", "pears", "Kiwi", "kiwi", "x"] {
        assert!(!a.contains_word(w) && !b.contains_word(w) && !c.contains_word(w));
        assert!(!d.contains_word(w) && !e.contains_word(w));
    }
    for p in ["", "p", "pea", "app", "fig"] {
        assert!(a.traverse(p).is_some() && b.traverse(p).is_some() && c.traverse(p).is_some());
        assert!(d.traverse(p).is_some() && e.traverse(p).is_some());
    }
    for p in ["K", "pearl", "b", "fix"] {
        assert!(a.traverse(p).is_none() && b.traverse(p).is_none() && c.traverse(p).is_none());
        assert!(d.traverse(p).is_none() && e.traverse(p).is_none());
    }
}

#[test]
fn every_word_put_in_is_found_again() {
    let list = [
        "a", "ab", "abc", "b", "ba", "zebra", "zeal", "zest", "quiz", "quit", "quite", "m",
    ];
    let mut dict = TrieLinkedList::blank(' ');
    for (n, w) in list.iter().enumerate() {
        dict.add_word(w);
        for (k, v) in list.iter().enumerate() {
            assert_eq!(dict.contains_word(v), k <= n, "{} after {}", v, w);
        }
    }
    for w in ["", "z", "ze", "zebr", "zebras", "qui", "c", "abcd"] {
        assert!(!dict.contains_word(w));
    }
}

#[test]
fn arena_node_in_words() {
    let arena = Arena::new();
    let mut dict = TrieLinkedListArena::blank('-');
    for w in ["cat", "cow", "dog", "ape"] {
        dict.add_word(&arena, w);
    }
    assert_eq!(dict.describe(), "-=>\n \\dca");
    let c = dict.descend_one('c').unwrap();
    assert_eq!(c.describe(), "c=>a\n \\oa");
    assert_eq!(print_siblings(Some(c)), "ca");
    assert_eq!(print_siblings(dict.descend_one('d')), "dca");
    assert_eq!(print_siblings(dict.descend_one('a')), "a");
    assert_eq!(print_siblings(None), "");
    let leaf = dict.traverse("cat").unwrap();
    assert_eq!(leaf.describe(), "t=>\n \\");
}

#[test]
fn sorted_list_keeps_its_words_in_order() {
    let dict = TrieNaive::from_words(&strings(&["pear", "apple", "", "fig", "apple", "app"]));
    let kept: Vec<String> = dict.words().iter().map(|w| w.iter().collect()).collect();
    assert_eq!(kept, ["", "app", "apple", "fig", "pear"]);
}

#[test]
fn arena_gets_one_node_for_each_step_of_a_sorted_word() {
    let arena = Arena::new();
    let mut dict = TrieLinkedListArena::blank(' ');
    dict.add_word(&arena, "a");
    assert_eq!(arena.len(), 1);
    dict.add_word(&arena, "ab");
    assert_eq!(arena.len(), 3);
    dict.add_word(&arena, "abc");
    assert_eq!(arena.len(), 6);
    dict.add_word(&arena, "b");
    assert_eq!(arena.len(), 7);
    // A letter that goes behind another takes a new node for the one before it.
    dict.add_word(&arena, "aa");
    assert_eq!(arena.len(), 11);
    for w in ["a", "ab", "abc", "b", "aa"] {
        assert!(dict.contains_word(w));
    }
}
