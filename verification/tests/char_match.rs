use wordplay::char_match::CharMatch;
use wordplay::normalized_word::NormalizedChar;

use NormalizedChar::{A, B};

#[test]
fn wildcard_characters_match_any_letter() {
    for wildcard in [' ', '.', '?'] {
        let m = CharMatch::from_char(wildcard).unwrap();
        assert_eq!(m, CharMatch::Any);
        assert!(m.matches(&A));
        assert!(m.matches(&NormalizedChar::Z));
    }
}

#[test]
fn letters_match_only_themselves() {
    let m = CharMatch::from_char('a').unwrap();
    assert_eq!(m, CharMatch::Only(A));
    assert!(m.matches(&A));
    assert!(!m.matches(&B));
}

#[test]
fn unusable_characters_give_no_constraint() {
    assert_eq!(CharMatch::from_char('7'), None);
    assert_eq!(CharMatch::from_char('!'), None);
}
