use wordplay::corpus::Corpus;
use wordplay::normalized_word::NormalizedWord;

#[test]
fn corpus_builds() {
    assert_eq!(1, 1)
}

#[test]
fn corpus_stores_and_finds_words() {
    let mut corpus = Corpus::new();
    corpus.add(String::from("Cat"));
    corpus.add(String::from("cat"));

    let hit = corpus.find(&NormalizedWord::from_str_safe("CAT"));
    let entries = hit.unwrap();
    assert_eq!(entries.len(), 2);
    assert_eq!(entries[0].original(), "Cat");
    assert_eq!(entries[1].original(), "cat");

    let miss = corpus.find(&NormalizedWord::from_str_safe("dog"));
    assert!(miss.is_none());
}
