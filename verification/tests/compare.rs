use optimo::compare::{
    collapse_whitespace, contains_word, distinct_words, keep_word_chars, normalize_for_compare,
    normalize_lowered, similarity, Similarity,
};

fn word(s: &str) -> Vec<char> {
    s.chars().collect()
}

#[test]
fn normalize_lowers_filters_and_collapses() {
    assert_eq!(normalize_for_compare("  Hello,   WORLD!! "), "hello world");
    assert_eq!(normalize_for_compare("Total: 42,00 EUR"), "total 4200 eur");
    assert_eq!(normalize_for_compare(""), "");
    assert_eq!(normalize_for_compare("?!...  --"), "");
}

#[test]
fn normalize_lowers_beyond_ascii() {
    assert_eq!(normalize_for_compare("\u{c9}T\u{c9} \u{3a9}MEGA"), "\u{e9}t\u{e9} \u{3c9}mega");
}

#[test]
fn normalize_drops_white_space_other_than_the_space() {
    assert_eq!(normalize_for_compare("a\tb"), "ab");
    assert_eq!(normalize_for_compare("a \t b"), "a b");
}

#[test]
fn normalize_lowered_leaves_case_alone() {
    assert_eq!(normalize_lowered("Hello,  World"), "Hello World");
}

#[test]
fn keep_word_chars_keeps_letters_numbers_and_spaces() {
    assert_eq!(keep_word_chars("a-b c_d  9!"), "ab cd  9");
    assert_eq!(keep_word_chars("\u{663}\u{be}\u{85e4} ok"), "\u{663}\u{be}\u{85e4} ok");
}

#[test]
fn collapse_whitespace_leaves_single_spaces() {
    assert_eq!(collapse_whitespace("  a \n\t b   c "), "a b c");
    assert_eq!(collapse_whitespace("   "), "");
}

#[test]
fn distinct_words_holds_each_word_once() {
    let mut words = distinct_words("b a b c a");
    words.sort();
    assert_eq!(words, vec![word("a"), word("b"), word("c")]);
    assert!(contains_word(&distinct_words("x y"), &word("y")));
    assert!(!contains_word(&distinct_words("x y"), &word("z")));
}

#[test]
fn similarity_counts_shared_and_all_words() {
    assert_eq!(similarity("a b c", "b c d"), Similarity { shared: 2, total: 4 });
    assert_eq!(similarity("a a b", "a"), Similarity { shared: 1, total: 2 });
    assert_eq!(similarity("a b", "c d"), Similarity { shared: 0, total: 4 });
    assert_eq!(similarity("same words", "words same"), Similarity { shared: 2, total: 2 });
}

#[test]
fn similarity_of_nothing_is_nothing_of_nothing() {
    assert_eq!(similarity("", ""), Similarity { shared: 0, total: 0 });
    assert!(!similarity("", "").is_duplicate());
    assert_eq!(similarity("", "a"), Similarity { shared: 0, total: 1 });
    assert!(!similarity("  ", "a").is_duplicate());
}

#[test]
fn similarity_is_symmetric() {
    let pairs = [("a b c", "b c d"), ("", "x"), ("one two two", "two"), ("k", "k")];
    for (a, b) in pairs {
        assert_eq!(similarity(a, b), similarity(b, a));
        assert_eq!(similarity(a, b).is_duplicate(), similarity(b, a).is_duplicate());
    }
}

#[test]
fn seven_of_ten_words_merge() {
    let a = "w1 w2 w3 w4 w5 w6 w7 a8";
    let b = "w1 w2 w3 w4 w5 w6 w7 b9 b10";
    let sim = similarity(a, b);
    assert_eq!(sim, Similarity { shared: 7, total: 10 });
    assert!(sim.is_duplicate());
}

#[test]
fn six_of_nine_words_do_not_merge() {
    let a = "w1 w2 w3 w4 w5 w6 a7";
    let b = "w1 w2 w3 w4 w5 w6 b8 b9";
    let sim = similarity(a, b);
    assert_eq!(sim, Similarity { shared: 6, total: 9 });
    assert!(!sim.is_duplicate());
}

#[test]
fn threshold_is_exact_at_any_size() {
    assert!(Similarity { shared: 7, total: 10 }.is_duplicate());
    assert!(!Similarity { shared: 69, total: 99 }.is_duplicate());
    assert!(Similarity { shared: 70, total: 100 }.is_duplicate());
    assert!(!Similarity { shared: 6_999_999, total: 10_000_000 }.is_duplicate());
    assert!(Similarity { shared: 7_000_000, total: 10_000_000 }.is_duplicate());
    assert!(Similarity { shared: usize::MAX, total: usize::MAX }.is_duplicate());
    assert!(!Similarity { shared: 0, total: usize::MAX }.is_duplicate());
    assert!(!Similarity { shared: 0, total: 0 }.is_duplicate());
    assert!(Similarity { shared: 1, total: 1 }.is_duplicate());
}

#[test]
fn normalize_lowers_as_std_does_where_a_letter_depends_on_its_place() {
    let word = "\u{1f48}\u{394}\u{3a5}\u{3a3}\u{3a3}\u{395}\u{38e}\u{3a3}";
    let lowered = normalize_for_compare(word);
    assert_eq!(lowered, word.to_lowercase());
    assert!(lowered.ends_with('\u{3c2}'));
    assert_ne!(lowered, word);
}
