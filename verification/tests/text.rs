use rust_study::sort::selection_sort;
use rust_study::words::{is_whitespace, longest_word, same_str, split_whitespace};

#[test]
fn selection_sort_sorts() {
    let mut v = vec![2, 4, 5, 1];
    selection_sort(&mut v);
    assert_eq!(v, vec![1, 2, 4, 5]);
    let mut w = vec![3, -1, 3, 0, -7, 3];
    selection_sort(&mut w);
    assert_eq!(w, vec![-7, -1, 0, 3, 3, 3]);
    let mut one = vec![42];
    selection_sort(&mut one);
    assert_eq!(one, vec![42]);
}

#[test]
fn longest_word_of_sentence() {
    assert_eq!(longest_word("Rust is system programming language"), "programming");
    assert_eq!(longest_word(""), "");
    assert_eq!(longest_word("   \t\n "), "");
    assert_eq!(longest_word("ab cd ef"), "ab");
    assert_eq!(longest_word("a bb cc"), "bb");
}

#[test]
fn longest_word_counts_bytes() {
    // "é" takes two bytes, so "éé" (4 bytes) beats "abc" (3 bytes).
    assert_eq!(longest_word("abc éé"), "éé");
}

#[test]
fn split_whitespace_like_std() {
    for s in ["", " a  b ", "x", "a\u{3000}b\u{85}c", "\u{a0}lead trail\t"] {
        let ours = split_whitespace(s);
        let theirs: Vec<&str> = s.split_whitespace().collect();
        assert_eq!(ours, theirs);
    }
}

#[test]
fn whitespace_matches_std() {
    for c in ['\t', '\n', ' ', '\u{85}', '\u{a0}', '\u{2000}', '\u{200a}', '\u{3000}', 'a', '0', '\u{200b}'] {
        assert_eq!(is_whitespace(c), c.is_whitespace());
    }
}

#[test]
fn same_str_compares_characters() {
    assert!(same_str("exit", "exit"));
    assert!(!same_str("exit", "exi"));
    assert!(!same_str("fg", "cd"));
    assert!(same_str("", ""));
}
