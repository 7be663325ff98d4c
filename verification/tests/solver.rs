use word_search::solver::{check_board, find_best, find_longest_word, neighbors, BoardError};
use typed_arena::Arena;
use word_search::dict_entry::DictEntry;
use word_search::word_dict::hashmap::TrieHashMap;
use word_search::word_dict::linkedlist_typedarena::TrieLinkedListArena;
use word_search::word_dict::linkedlist::TrieLinkedList;
use word_search::word_dict::vec::TrieVec;
use word_search::word_dict::Trie;

fn rows(lines: &[&str]) -> Vec<Vec<char>> {
    lines.iter().map(|l| l.chars().collect()).collect()
}

#[test]
fn it_works() {
    let arena = Arena::with_capacity(64);
    let list: Vec<String> = ["hell", "he", "hello", "ell", "lo", "yo", "quo"]
        .iter()
        .map(|s| s.to_string())
        .collect();
    let words = TrieLinkedListArena::from_words(&list, &arena);
    let board = vec![
        vec!['x', 'y', 'q'],
        vec!['h', ' ', 'o'],
        vec!['e', 'l', 'l'],
    ];
    assert_eq!(
        find_best(&words, &board),
        ("hello".to_string(), vec![(1, 0), (2, 0), (2, 1), (2, 2), (1, 2)])
    );
}

#[test]
fn hello_with_only_hello() {
    let mut words = TrieVec::blank();
    words.add_word("hello");
    let board = rows(&["xyq", "h o", "ell"]);
    assert_eq!(
        find_best(&words, &board),
        ("hello".to_string(), vec![(1, 0), (2, 0), (2, 1), (2, 2), (1, 2)])
    );
}

#[test]
fn first_found_word_wins_a_tie() {
    let mut words = TrieHashMap::blank();
    words.add_word("cat");
    words.add_word("dog");
    let board = rows(&["cat", "dog"]);
    assert_eq!(
        find_best(&words, &board),
        ("cat".to_string(), vec![(0, 0), (0, 1), (0, 2)])
    );
    let board = rows(&["dog", "cat"]);
    assert_eq!(
        find_best(&words, &board),
        ("dog".to_string(), vec![(0, 0), (0, 1), (0, 2)])
    );
}

#[test]
fn first_found_neighbour_wins_a_tie() {
    // From the `a` in the middle both `b`s make "ab"; the one on the left is tried first.
    let mut words = TrieLinkedList::blank(' ');
    words.add_word("ab");
    let board = rows(&["   ", "bab", "   "]);
    assert_eq!(find_best(&words, &board), ("ab".to_string(), vec![(1, 1), (1, 0)]));
    // Up-left comes before up-right, and both before down.
    let board = rows(&["b b", " a ", " b "]);
    assert_eq!(find_best(&words, &board), ("ab".to_string(), vec![(1, 1), (0, 0)]));
    let board = rows(&["  b", " a ", " b "]);
    assert_eq!(find_best(&words, &board), ("ab".to_string(), vec![(1, 1), (0, 2)]));
}

#[test]
fn nothing_to_find() {
    let mut words = TrieLinkedList::blank(' ');
    words.add_word("hello");
    let board = rows(&["   ", "   "]);
    assert_eq!(find_best(&words, &board), (String::new(), vec![]));
    let board = rows(&["xyz", "zyx"]);
    assert_eq!(find_best(&words, &board), (String::new(), vec![]));
    let empty = TrieLinkedList::blank(' ');
    let board = rows(&["hello"]);
    assert_eq!(find_best(&empty, &board), (String::new(), vec![]));
}

#[test]
fn a_cell_is_used_once() {
    let mut words = TrieVec::blank();
    words.add_word("aa");
    words.add_word("aaa");
    let board = rows(&["a ", " a"]);
    assert_eq!(find_best(&words, &board), ("aa".to_string(), vec![(0, 0), (1, 1)]));
}

#[test]
fn longer_word_beats_earlier_word() {
    let mut words = TrieHashMap::blank();
    for w in ["ab", "cde", "c"] {
        words.add_word(w);
    }
    let board = rows(&["ab ", "cde"]);
    assert_eq!(
        find_best(&words, &board),
        ("cde".to_string(), vec![(1, 0), (1, 1), (1, 2)])
    );
}

#[test]
fn walks_go_sideways_in_the_first_row() {
    let mut words = TrieVec::blank();
    words.add_word("abc");
    words.add_word("cba");
    let board = rows(&["abc"]);
    assert_eq!(
        find_best(&words, &board),
        ("abc".to_string(), vec![(0, 0), (0, 1), (0, 2)])
    );
}

#[test]
fn upper_case_cells_are_blocked() {
    let mut words = TrieHashMap::blank();
    words.add_word("ab");
    let board = rows(&["Ab", "aB"]);
    assert_eq!(find_best(&words, &board), ("ab".to_string(), vec![(1, 0), (0, 1)]));
}

#[test]
fn neighbors_in_order() {
    let board = rows(&["abc", "def", "ghi"]);
    assert_eq!(
        neighbors(&board, (1, 1)),
        vec![(0, 0), (1, 0), (0, 2), (1, 2), (0, 1), (2, 0), (2, 2), (2, 1)]
    );
    assert_eq!(neighbors(&board, (0, 0)), vec![(0, 1), (1, 1), (1, 0)]);
    assert_eq!(neighbors(&board, (2, 2)), vec![(1, 1), (2, 1), (1, 2)]);
    assert_eq!(neighbors(&board, (0, 1)), vec![(0, 0), (0, 2), (1, 0), (1, 2), (1, 1)]);
    assert_eq!(neighbors(&board, (1, 2)), vec![(0, 1), (1, 1), (0, 2), (2, 1), (2, 2)]);
    let one = rows(&["a"]);
    assert_eq!(neighbors(&one, (0, 0)), vec![]);
}

#[test]
fn faulty_boards_are_turned_down() {
    let words = TrieLinkedList::blank(' ');
    let none: Vec<Vec<char>> = vec![];
    assert_eq!(check_board(&none), Err(BoardError::NoRows));
    assert_eq!(check_board(&vec![vec![], vec!['a']]), Err(BoardError::NoColumns));
    assert_eq!(
        check_board(&rows(&["ab", "cd", "e", "f"])),
        Err(BoardError::UnevenRow(2))
    );
    assert_eq!(check_board(&rows(&["ab", "cd"])), Ok(()));
    assert_eq!(find_longest_word(&words, &none), Err(BoardError::NoRows));
    assert_eq!(
        find_longest_word(&words, &rows(&["ab", "c"])),
        Err(BoardError::UnevenRow(1))
    );
    assert_eq!(BoardError::NoRows.describe(), "the board has no rows");
    assert_eq!(
        BoardError::NoColumns.describe(),
        "the first row of the board is empty"
    );
    assert_eq!(
        BoardError::UnevenRow(3).describe(),
        "a row of the board is not as long as the first"
    );
}

#[test]
fn checked_search_finds_the_word() {
    let mut words = TrieLinkedList::blank(' ');
    words.add_word("hello");
    let board = rows(&["xyq", "h o", "ell"]);
    assert_eq!(
        find_longest_word(&words, &board),
        Ok(("hello".to_string(), vec![(1, 0), (2, 0), (2, 1), (2, 2), (1, 2)]))
    );
}

/// Every walk over the board, by brute force, that spells a word of `dict`.
fn longest_by_brute_force(dict: &[&str], board: &Vec<Vec<char>>) -> usize {
    fn go(
        dict: &[&str],
        board: &Vec<Vec<char>>,
        path: &mut Vec<(usize, usize)>,
        word: &mut String,
        best: &mut usize,
    ) {
        if dict.contains(&word.as_str()) && path.len() > *best {
            *best = path.len();
        }
        let h = board.len() as i64;
        let w = board[0].len() as i64;
        let (r, c) = *path.last().unwrap();
        for dr in -1i64..=1 {
            for dc in -1i64..=1 {
                let (nr, nc) = (r as i64 + dr, c as i64 + dc);
                if (dr, dc) == (0, 0) || nr < 0 || nc < 0 || nr >= h || nc >= w {
                    continue;
                }
                let p = (nr as usize, nc as usize);
                let ch = board[p.0][p.1];
                if path.contains(&p) || !ch.is_ascii_lowercase() {
                    continue;
                }
                path.push(p);
                word.push(ch);
                go(dict, board, path, word, best);
                word.pop();
                path.pop();
            }
        }
    }
    let mut best = 0;
    for r in 0..board.len() {
        for c in 0..board[0].len() {
            let ch = board[r][c];
            if ch.is_ascii_lowercase() {
                go(dict, board, &mut vec![(r, c)], &mut ch.to_string(), &mut best);
            }
        }
    }
    best
}

#[test]
fn result_is_a_longest_walk() {
    let dict = [
        "a", "at", "tea", "eat", "ate", "seat", "east", "tease", "steam", "team", "meat", "mate",
        "teams", "stem", "set", "met", "mast", "same", "seam", "teas", "mates",
    ];
    let mut words = TrieLinkedList::blank(' ');
    for w in dict {
        words.add_word(w);
    }
    for lines in [
        ["tea", "sm ", "ate"],
        ["eat", "ste", "ams"],
        ["mas", "tet", "  e"],
        ["ttt", "tet", "ata"],
    ] {
        let board = rows(&lines);
        let (word, path) = find_best(&words, &board);
        assert_eq!(path.len(), longest_by_brute_force(&dict, &board));
        assert_eq!(word.chars().count(), path.len());
        if !path.is_empty() {
            assert!(dict.contains(&word.as_str()));
        }
        for (i, p) in path.iter().enumerate() {
            assert_eq!(board[p.0][p.1], word.chars().nth(i).unwrap());
            assert!(!path[..i].contains(p));
            if i > 0 {
                let q = path[i - 1];
                assert!(p.0.abs_diff(q.0) <= 1 && p.1.abs_diff(q.1) <= 1);
            }
        }
    }
}

#[test]
fn every_tree_gives_the_same_answer() {
    let list: Vec<String> = ["tea", "eat", "ate", "seat", "east", "teas", "set"]
        .iter()
        .map(|s| s.to_string())
        .collect();
    let board = rows(&["eat", "ste", "ams"]);
    let expected = find_best(&TrieLinkedList::from_words(&list), &board);
    assert_eq!(expected.1.len(), 4);
    assert_eq!(find_best(&TrieHashMap::from_words(&list), &board), expected);
    assert_eq!(find_best(&TrieVec::from_words(&list), &board), expected);
    assert_eq!(find_best(&DictEntry::from_words(&list), &board), expected);
    let arena = Arena::new();
    assert_eq!(
        find_best(&TrieLinkedListArena::from_words(&list, &arena), &board),
        expected
    );
}

#[test]
fn search_from_below_the_root() {
    // A node further down finds what completes a word from there.
    let mut words = TrieLinkedList::blank(' ');
    words.add_word("stone");
    let board = rows(&["one", "   "]);
    assert_eq!(find_best(&words, &board), (String::new(), vec![]));
    let below = words.traverse("st").unwrap();
    assert_eq!(
        find_best(below, &board),
        ("one".to_string(), vec![(0, 0), (0, 1), (0, 2)])
    );
}

/// The eight steps in the order in which the search takes them.
const STEPS: [(i64, i64); 8] = [(-1, -1), (0, -1), (-1, 1), (0, 1), (-1, 0), (1, -1), (1, 1), (1, 0)];

/// All walks that spell a word of `dict`, in the order in which the search comes upon them.
fn all_word_walks(dict: &[&str], board: &Vec<Vec<char>>) -> Vec<Vec<(usize, usize)>> {
    fn go(
        dict: &[&str],
        board: &Vec<Vec<char>>,
        path: &mut Vec<(usize, usize)>,
        word: &mut String,
        out: &mut Vec<Vec<(usize, usize)>>,
    ) {
        let (r, c) = *path.last().unwrap();
        for (dr, dc) in STEPS {
            let (nr, nc) = (r as i64 + dr, c as i64 + dc);
            if nr < 0 || nc < 0 || nr >= board.len() as i64 || nc >= board[0].len() as i64 {
                continue;
            }
            let p = (nr as usize, nc as usize);
            let ch = board[p.0][p.1];
            if path.contains(&p) || !ch.is_ascii_lowercase() {
                continue;
            }
            path.push(p);
            word.push(ch);
            go(dict, board, path, word, out);
            word.pop();
            path.pop();
        }
        if dict.contains(&word.as_str()) {
            out.push(path.clone());
        }
    }
    let mut out = Vec::new();
    for r in 0..board.len() {
        for c in 0..board[0].len() {
            let ch = board[r][c];
            if ch.is_ascii_lowercase() {
                go(dict, board, &mut vec![(r, c)], &mut ch.to_string(), &mut out);
            }
        }
    }
    out
}

#[test]
fn result_is_the_first_of_the_longest_walks() {
    let dict = [
        "a", "ab", "ba", "abc", "cab", "bca", "abca", "caba", "bacab", "cc", "ccc", "acca", "b",
        "abba", "baab", "cabbac",
    ];
    let mut words = TrieHashMap::blank();
    for w in dict {
        words.add_word(w);
    }
    let letters = ['a', 'b', 'c', ' ', 'a', 'b'];
    let mut seed: u32 = 12345;
    for round in 0..60 {
        let h = 1 + round % 3;
        let w = 1 + (round / 3) % 4;
        let mut board = vec![vec![' '; w]; h];
        for row in board.iter_mut() {
            for cell in row.iter_mut() {
                seed = seed.wrapping_mul(1664525).wrapping_add(1013904223);
                *cell = letters[(seed >> 24) as usize % letters.len()];
            }
        }
        let walks = all_word_walks(&dict, &board);
        let longest = walks.iter().map(|p| p.len()).max().unwrap_or(0);
        // Within one start the search keeps the first of the longest that it comes upon on
        // its way down, which is the first in the order of the steps taken.
        let mut expected: Vec<(usize, usize)> = vec![];
        for p in walks.iter().filter(|p| p.len() == longest) {
            let steps = |q: &Vec<(usize, usize)>| -> Vec<usize> {
                let mut v = vec![q[0].0, q[0].1];
                for i in 1..q.len() {
                    let d = (q[i].0 as i64 - q[i - 1].0 as i64, q[i].1 as i64 - q[i - 1].1 as i64);
                    v.push(STEPS.iter().position(|s| *s == d).unwrap());
                }
                v
            };
            if expected.is_empty() || steps(p) < steps(&expected) {
                expected = p.clone();
            }
        }
        let spelled: String = expected.iter().map(|p| board[p.0][p.1]).collect();
        assert_eq!(find_best(&words, &board), (spelled, expected), "{:?}", board);
    }
}
