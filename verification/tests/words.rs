use stacks::words::{is_word_char, joins_word, split_words, Words};
use std::collections::VecDeque;

fn assert_words(input: &str, expected_words: &[&str]) {
    let mut words = Words::new(is_word_char);
    let mut actual_words: Vec<String> = Vec::new();
    for line in input.lines() {
        words.feed(line);
        while let Some(word) = words.next() {
            actual_words.push(word);
        }
    }
    let expected_words: Vec<String> = expected_words.iter().map(|&s| s.to_owned()).collect();
    assert_eq!(actual_words, expected_words);
}

#[test]
fn hello_world() {
    assert_words("hello world", &["hello", "world"]);
    assert_words("hello, world", &["hello", "world"]);
    assert_words("   hello, world!   ", &["hello", "world"]);
}

#[test]
fn empty() {
    assert_words("", &[]);
    assert_words("  ", &[]);
    assert_words(" - ", &[]);
}

#[test]
fn several_lines() {
    assert_words("one two\nthree\n\n  four", &["one", "two", "three", "four"]);
}

#[test]
fn apostrophes_stay_in_the_word() {
    assert_words("don't stop", &["don't", "stop"]);
    assert_words("it\u{2019}s fine", &["it\u{2019}s", "fine"]);
    assert_words("'quoted'", &["'quoted'"]);
}

#[test]
fn letters_and_digits_of_any_script() {
    assert_words("caf\u{e9} 42 \u{4e16}\u{754c}!", &["caf\u{e9}", "42", "\u{4e16}\u{754c}"]);
}

#[test]
fn word_chars() {
    assert!(is_word_char('a'));
    assert!(is_word_char('Z'));
    assert!(is_word_char('7'));
    assert!(is_word_char('\u{e9}'));
    assert!(is_word_char('\''));
    assert!(is_word_char('\u{2019}'));
    assert!(!is_word_char(' '));
    assert!(!is_word_char('-'));
    assert!(!is_word_char(','));
    assert!(!is_word_char('\u{2018}'));
    assert!(!is_word_char('\n'));
}

#[test]
fn joins_word_on_given_answers() {
    assert!(joins_word('x', true));
    assert!(joins_word('-', true));
    assert!(!joins_word('x', false));
    assert!(!joins_word('-', false));
    assert!(joins_word('\'', false));
    assert!(joins_word('\u{2019}', false));
}

#[test]
fn split_words_with_another_test() {
    let mut found = VecDeque::new();
    found.push_back(String::from("before"));
    split_words("a1b22c333", &|c: char| c.is_ascii_digit(), &mut found);
    let found: Vec<String> = found.into_iter().collect();
    assert_eq!(found, vec!["before", "1", "22", "333"]);
}

#[test]
fn a_word_at_either_end() {
    let mut found = VecDeque::new();
    split_words("ab cd", &is_word_char, &mut found);
    split_words("x", &is_word_char, &mut found);
    split_words("", &is_word_char, &mut found);
    let found: Vec<String> = found.into_iter().collect();
    assert_eq!(found, vec!["ab", "cd", "x"]);
}

#[test]
fn words_wait_in_order() {
    let mut words = Words::new(|c: char| c != ' ');
    assert_eq!(words.next(), None);
    words.feed("a b");
    words.feed("c");
    assert_eq!(words.next(), Some(String::from("a")));
    words.feed("d e");
    assert_eq!(words.next(), Some(String::from("b")));
    assert_eq!(words.next(), Some(String::from("c")));
    assert_eq!(words.next(), Some(String::from("d")));
    assert_eq!(words.next(), Some(String::from("e")));
    assert_eq!(words.next(), None);
    assert_eq!(words.next(), None);
}
