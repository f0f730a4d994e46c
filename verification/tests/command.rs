use std::cmp::Ordering;

use wordplay::anagram_number::AnagramNumber;
use wordplay::char_freq::CharFreq;
use wordplay::command::parse_line;
use wordplay::command::Command;
use wordplay::command::Sort;
use wordplay::command::SortAspect;
use wordplay::command::SortDirection;
use wordplay::dictionary::DictIterItem;
use wordplay::dictionary::WordPredicate;
use wordplay::normalized_word::NormalizedWord;

fn anag(s: &str) -> AnagramNumber {
    AnagramNumber::try_from(&NormalizedWord::from_str_safe(s)).unwrap()
}

#[test]
fn parses_quit_commands() {
    assert_eq!(parse_line("q"), Some(Command::Quit));
    assert_eq!(parse_line("quit"), Some(Command::Quit));
}

#[test]
fn rejects_unknown_commands() {
    assert_eq!(parse_line(""), None);
    assert_eq!(parse_line("hello"), None);
    assert_eq!(parse_line("find x"), None);
}

#[test]
fn parses_find_with_prefix() {
    let parsed = parse_line("f p ab");

    let expected = Command::Find {
        prefix: vec!['a', 'b'],
        predicate: WordPredicate::All(vec![]),
        sort: None,
    };
    assert_eq!(parsed, Some(expected));
}

#[test]
fn parses_find_with_anagram_clauses_and_sort() {
    let parsed = parse_line("f p ca, a tab, a+ at, a- bait, sort len-");

    let expected = Command::Find {
        prefix: vec!['c', 'a'],
        predicate: WordPredicate::All(vec![
            WordPredicate::AnagramOf(anag("tab")),
            WordPredicate::SuperanagramOf(anag("at")),
            WordPredicate::SubanagramOf(anag("bait")),
        ]),
        sort: Some(Sort(SortAspect::Length, SortDirection::Descending)),
    };
    assert_eq!(parsed, Some(expected));
}

#[test]
fn ignores_malformed_clauses() {
    let parsed = parse_line("f p a b, sort sideways, p xy");

    let expected = Command::Find {
        prefix: vec!['x', 'y'],
        predicate: WordPredicate::All(vec![]),
        sort: None,
    };
    assert_eq!(parsed, Some(expected));
}

fn item<'a>(word: &str, cf: &'a CharFreq, original: &'a String) -> DictIterItem<'a> {
    DictIterItem {
        normalized: NormalizedWord::from_str_safe(word),
        char_freq: cf,
        anag_num: None,
        original,
    }
}

#[test]
fn sort_compare_orders_by_length_and_alphabet() {
    let cf = CharFreq::new_empty();
    let s = String::from("x");
    let short = item("at", &cf, &s);
    let long = item("cat", &cf, &s);

    let by_len = Sort(SortAspect::Length, SortDirection::Ascending);
    assert_eq!(by_len.compare(&short, &long), Ordering::Less);
    assert_eq!(by_len.compare(&long, &short), Ordering::Greater);

    let by_len_desc = Sort(SortAspect::Length, SortDirection::Descending);
    assert_eq!(by_len_desc.compare(&short, &long), Ordering::Greater);

    let alpha = Sort(SortAspect::Alphabetical, SortDirection::Ascending);
    assert_eq!(alpha.compare(&short, &long), Ordering::Less);
    assert_eq!(alpha.compare(&long, &long), Ordering::Equal);

    let alpha_desc = Sort(SortAspect::Alphabetical, SortDirection::Descending);
    assert_eq!(alpha_desc.compare(&short, &long), Ordering::Greater);
}

#[test]
fn parses_find_with_no_clauses() {
    let parsed = parse_line("f ");

    let expected = Command::Find {
        prefix: vec![],
        predicate: WordPredicate::All(vec![]),
        sort: None,
    };
    assert_eq!(parsed, Some(expected));
}
