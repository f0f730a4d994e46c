use wordplay::normalized_word::NormalizedChar;
use wordplay::normalized_word::NormalizedWord;
use wordplay::normalized_word::ALPHABET_SIZE;

use NormalizedChar::{A, B, C};

#[test]
fn normalized_word_creates_from_ascii_uppercase() {
    let nw = NormalizedWord::from_str_safe("ABC");

    let expected = NormalizedWord::new(vec![A, B, C]);

    assert_eq!(nw, expected);
}

#[test]
fn normalized_word_creates_from_ascii_lowercase() {
    let nw = NormalizedWord::from_str_safe("abc");

    let expected = NormalizedWord::new(vec![A, B, C]);

    assert_eq!(nw, expected);
}

#[test]
fn normalized_word_ignores_non_letters() {
    let nw = NormalizedWord::from_str_safe("A1B2C3");

    let expected = NormalizedWord::new(vec![A, B, C]);

    assert_eq!(nw, expected);
}

#[test]
fn normalized_word_marshalls_accented_letters() {
    let cases = [
        ("áÁâÂäÄàÀãÃåÅ", "AAAAAAAAAAAA"),
        ("çÇ", "CC"),
        ("éÉêÊëËèÈ", "EEEEEEEE"),
        ("íÍîÎïÏìÌ", "IIIIIIII"),
        ("ñÑ", "NN"),
        ("óÓôÔöÖòÒõÕ", "OOOOOOOOOO"),
        ("úÚûÛüÜùÙ", "UUUUUUUU"),
        ("ýÝ", "YY"),
    ];
    for (input, expected) in cases.iter() {
        assert_eq!(
            NormalizedWord::from_str_safe(input),
            NormalizedWord::from_str_safe(expected)
        );
    }
}

fn mk(s: &str) -> NormalizedWord {
    NormalizedWord::from_str_safe(s)
}

#[test]
fn normalized_word_is_palindrome_returns_true_for_empty() {
    let nw = mk("");

    assert!(nw.is_palindrome())
}

#[test]
fn normalized_word_is_palindrome_returns_true_for_single() {
    let nw = mk("A");

    assert!(nw.is_palindrome())
}

#[test]
fn normalized_word_is_palindrome_returns_true_for_double() {
    let nw = mk("AA");

    assert!(nw.is_palindrome())
}

#[test]
fn normalized_word_is_palindrome_returns_true_for_triple() {
    let nw = mk("AAA");

    assert!(nw.is_palindrome())
}

#[test]
fn normalized_word_is_palindrome_returns_true_for_even() {
    let nw = mk("ABBA");

    assert!(nw.is_palindrome())
}

#[test]
fn normalized_word_is_palindrome_returns_true_for_odd() {
    let nw = mk("ABA");

    assert!(nw.is_palindrome())
}

#[test]
fn normalized_word_is_palindrome_returns_false_for_even() {
    let nw = mk("ABBC");

    assert!(!nw.is_palindrome())
}

#[test]
fn normalized_word_is_palindrome_returns_false_for_odd() {
    let nw = mk("ABC");

    assert!(!nw.is_palindrome())
}

#[test]
fn normalized_word_chars_can_be_iterated() {
    let len = NormalizedChar::all().len();

    assert_eq!(len, ALPHABET_SIZE)
}

#[test]
fn normalized_word_push_appends_letter() {
    let mut nw = mk("AB");
    nw.push(C);

    assert_eq!(nw, mk("ABC"));
    assert_eq!(nw.len(), 3);
    assert!(!nw.is_empty());
}

#[test]
fn normalized_word_from_char_maps_case_insensitively() {
    assert_eq!(NormalizedChar::from_char('a'), Some(A));
    assert_eq!(NormalizedChar::from_char('A'), Some(A));
    assert_eq!(NormalizedChar::from_char('z'), Some(NormalizedChar::Z));
    assert_eq!(NormalizedChar::from_char('7'), None);
    assert_eq!(NormalizedChar::from_char(' '), None);
    assert_eq!(NormalizedChar::from_char('ç'), Some(C));
}
