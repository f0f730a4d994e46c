use wordplay::anagram_number::AnagramComparison;
use wordplay::anagram_number::AnagramNumber;
use wordplay::anagram_number::AnagramNumberOverflow;
use wordplay::normalized_word::NormalizedWord;

use AnagramComparison::{Exact, Subset, Superset, Unrelated};

fn get_anag_num(s: &str) -> AnagramNumber {
    AnagramNumber::try_from(&NormalizedWord::from_str_safe(s)).unwrap()
}

#[test]
fn small_words_are_equal() {
    let a = get_anag_num("CAT");
    let b = get_anag_num("ACT");

    let res = a.compare(b);

    assert_eq!(res, Exact)
}

#[test]
fn small_words_are_not_equal() {
    let a = get_anag_num("BAT");
    let b = get_anag_num("ACT");

    let res = a.compare(b);

    assert_eq!(res, Unrelated)
}

#[test]
fn word_is_anagram_superset() {
    let a = get_anag_num("AT");
    let b = get_anag_num("CAT");

    let res = a.compare(b);

    assert_eq!(res, Superset)
}

#[test]
fn word_is_anagram_subset() {
    let a = get_anag_num("CAT");
    let b = get_anag_num("AT");

    let res = a.compare(b);

    assert_eq!(res, Subset)
}

#[test]
fn nineteen_letter_word_supported() {
    let n = get_anag_num("zzzzzzzzzzzzzzzzzzz");

    assert_eq!(n.value(), 120810895044353150938886048668570711901u128)
}

#[test]
fn worst_case_twenty_letter_word_unsupported() {
    let n = AnagramNumber::try_from(&NormalizedWord::from_str_safe("zzzzzzzzzzzzzzzzzzzz"));

    assert_eq!(n, Err(AnagramNumberOverflow))
}

#[test]
fn empty_word_encodes_as_one() {
    let n = get_anag_num("");

    assert_eq!(n.value(), 1);
}

#[test]
fn single_letters_take_their_primes() {
    assert_eq!(get_anag_num("e").value(), 2);
    assert_eq!(get_anag_num("t").value(), 3);
    assert_eq!(get_anag_num("a").value(), 5);
    assert_eq!(get_anag_num("z").value(), 101);
    assert_eq!(get_anag_num("cat").value(), 41 * 5 * 3);
}

#[test]
fn divisible_words_relate_as_sub_and_superset() {
    // "ate" strictly contains the letters of "at".
    let small = get_anag_num("at");
    let large = get_anag_num("ate");

    assert_eq!(small.compare(large), Superset);
    assert_eq!(large.compare(small), Subset);
}
