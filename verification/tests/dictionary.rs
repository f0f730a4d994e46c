use wordplay::dictionary::DictSearch;
use wordplay::dictionary::Dictionary;
use wordplay::normalized_word::NormalizedWord;

#[test]
fn dictionary_insert() {
    let mut dict: Dictionary = Default::default();
    dict.insert("test");

    let nw = NormalizedWord::from_str_safe("test");
    let res = dict.find(&nw);
    assert!(res.is_some())
}

#[test]
fn dictionary_extend() {
    let mut dict: Dictionary = Default::default();
    dict.extend(vec!["test", "foo"]);

    let nw = NormalizedWord::from_str_safe("test");
    let res = dict.find(&nw);
    assert!(res.is_some());

    let nw = NormalizedWord::from_str_safe("foo");
    let res = dict.find(&nw);
    assert!(res.is_some())
}

#[test]
fn dictionary_from_iter() {
    let dict = Dictionary::from_iter(vec!["test", "foo"]);

    let nw = NormalizedWord::from_str_safe("test");
    let res = dict.find(&nw);
    assert!(res.is_some());

    let nw = NormalizedWord::from_str_safe("foo");
    let res = dict.find(&nw);
    assert!(res.is_some())
}

#[test]
fn search_anagram() {
    let dict = Dictionary::from_iter(vec!["cat", "bat", "bait", "at"]);

    let search = DictSearch::anagram_of("tab");
    let mut it = dict.iter_search(search);
    let mut res: Vec<String> = Vec::new();
    while let Some(item) = it.next() {
        res.push(item.original.clone());
    }

    assert_eq!(res, vec!["bat"])
}

#[test]
fn lookup_is_case_insensitive() {
    let mut dict: Dictionary = Default::default();
    dict.insert("TEST");

    let lower = dict.find(&NormalizedWord::from_str_safe("test"));
    let upper = dict.find(&NormalizedWord::from_str_safe("TEST"));
    let mixed = dict.find(&NormalizedWord::from_str_safe("Test"));

    assert!(lower.is_some());
    assert_eq!(lower, upper);
    assert_eq!(lower, mixed);
    assert_eq!(lower.unwrap().len(), 1);
}

#[test]
fn search_twice_yields_identical_results() {
    let dict = Dictionary::from_iter(vec!["cat", "bat", "bait", "at"]);

    let mut first: Vec<String> = Vec::new();
    let mut it = dict.iter_search(DictSearch::from_pattern("?at"));
    while let Some(item) = it.next() {
        first.push(item.original.clone());
    }

    let mut second: Vec<String> = Vec::new();
    let mut it = dict.iter_search(DictSearch::from_pattern("?at"));
    while let Some(item) = it.next() {
        second.push(item.original.clone());
    }

    assert_eq!(first, vec!["bat", "cat"]);
    assert_eq!(first, second);
}

#[test]
fn iter_enumerates_in_normalized_order() {
    let dict = Dictionary::from_iter(vec!["b", "a", "ab"]);

    let mut res: Vec<String> = Vec::new();
    let mut it = dict.iter();
    while let Some(item) = it.next() {
        res.push(item.original.clone());
    }

    assert_eq!(res, vec!["a", "ab", "b"]);
}

#[test]
fn overflowing_word_is_stored_without_anagram_number() {
    let mut dict: Dictionary = Default::default();
    dict.insert("zzzzzzzzzzzzzzzzzzzz");
    dict.insert("zzzzzzzzzzzzzzzzzzz");

    let long = dict.find(&NormalizedWord::from_str_safe("zzzzzzzzzzzzzzzzzzzz")).unwrap();
    assert!(long[0].anag_num.is_none());

    let just_fits = dict.find(&NormalizedWord::from_str_safe("zzzzzzzzzzzzzzzzzzz")).unwrap();
    assert!(just_fits[0].anag_num.is_some());
}
