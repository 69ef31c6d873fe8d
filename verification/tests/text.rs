use optimo::text::{
    char_is_whitespace, chars_of, join_words, push_decimal, same_chars, split_words, trim,
    trim_buffer, trimmed_lines,
};

fn chars(s: &str) -> Vec<char> {
    s.chars().collect()
}

const SAMPLES: [&str; 14] = [
    "",
    "\n",
    "a",
    "a\n",
    "a\n\n",
    " a \r\n b\t\n\nc ",
    "a\rb",
    "a\r",
    "\r\n",
    "\r",
    "a\n  ",
    "\u{a0}x\u{3000}\n\u{2003}y z\u{85}",
    "   ",
    "one two\tthree\u{2028}four",
];

#[test]
fn whitespace_agrees_with_std_for_every_char() {
    for n in 0u32..=0x10ffff {
        if let Some(c) = char::from_u32(n) {
            assert_eq!(char_is_whitespace(c), c.is_whitespace(), "U+{:04X}", n);
        }
    }
}

#[test]
fn whitespace_of_named_characters() {
    assert!(char_is_whitespace(' '));
    assert!(char_is_whitespace('\n'));
    assert!(char_is_whitespace('\r'));
    assert!(char_is_whitespace('\t'));
    assert!(char_is_whitespace('\u{a0}'));
    assert!(!char_is_whitespace('a'));
    assert!(!char_is_whitespace('0'));
    assert!(!char_is_whitespace('\u{200b}'));
    assert!(!char_is_whitespace('\u{180e}'));
}

#[test]
fn trim_removes_white_space_at_both_ends_only() {
    assert_eq!(trim("  a b  "), "a b");
    assert_eq!(trim("\t\r\n x \u{a0}"), "x");
    assert_eq!(trim("x"), "x");
    assert_eq!(trim(""), "");
    assert_eq!(trim(" \n "), "");
    assert_eq!(trim_buffer(&chars("  inner  space  ")), "inner  space");
}

#[test]
fn trim_agrees_with_std() {
    for s in SAMPLES {
        assert_eq!(trim(s), s.trim(), "{:?}", s);
    }
}

#[test]
fn trimmed_lines_of_a_text() {
    assert_eq!(trimmed_lines(" a \r\n b\t\n\nc "), vec!["a", "b", "", "c"]);
    assert_eq!(trimmed_lines("a\n"), vec!["a"]);
    assert_eq!(trimmed_lines("a\n\n"), vec!["a", ""]);
    assert_eq!(trimmed_lines("\n"), vec![""]);
    assert_eq!(trimmed_lines(""), Vec::<String>::new());
}

#[test]
fn trimmed_lines_agree_with_std_lines() {
    for s in SAMPLES {
        let want: Vec<String> = s.lines().map(|l| l.trim().to_string()).collect();
        assert_eq!(trimmed_lines(s), want, "{:?}", s);
    }
}

#[test]
fn split_words_cuts_at_white_space() {
    assert_eq!(split_words("  one two\tthree\n"), vec![chars("one"), chars("two"), chars("three")]);
    assert_eq!(split_words(""), Vec::<Vec<char>>::new());
    assert_eq!(split_words(" \n\t"), Vec::<Vec<char>>::new());
    assert_eq!(split_words("x"), vec![chars("x")]);
}

#[test]
fn split_words_agrees_with_std() {
    for s in SAMPLES {
        let want: Vec<Vec<char>> = s.split_whitespace().map(|w| w.chars().collect()).collect();
        assert_eq!(split_words(s), want, "{:?}", s);
    }
}

#[test]
fn join_words_puts_one_space_between() {
    assert_eq!(join_words(&vec![chars("a"), chars("bc"), chars("d")]), "a bc d");
    assert_eq!(join_words(&vec![chars("solo")]), "solo");
    assert_eq!(join_words(&Vec::new()), "");
}

#[test]
fn decimal_digits_of_numbers() {
    for n in [0u128, 7, 9, 10, 11, 99, 100, 12345, 1_000_000, u64::MAX as u128, u128::MAX] {
        let mut s = String::from("n=");
        push_decimal(&mut s, n);
        assert_eq!(s, format!("n={}", n));
    }
}

#[test]
fn every_digit_is_written() {
    let mut s = String::new();
    push_decimal(&mut s, 9_876_543_210);
    assert_eq!(s, "9876543210");
}

#[test]
fn buffers_and_strings_convert() {
    assert_eq!(chars_of("h\u{e9}llo"), vec!['h', '\u{e9}', 'l', 'l', 'o']);
    assert!(same_chars(&chars("abc"), &chars("abc")));
    assert!(!same_chars(&chars("abc"), &chars("abd")));
    assert!(!same_chars(&chars("abc"), &chars("ab")));
    assert!(same_chars(&chars(""), &chars("")));
}
