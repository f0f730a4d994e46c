//! The two letter-multiset representations agree: the prime-product
//! comparison and the letter-frequency comparison classify every pair
//! the same way.

use wordplay::anagram_number::AnagramComparison;
use wordplay::anagram_number::AnagramNumber;
use wordplay::char_freq::CharFreq;
use wordplay::char_freq::CharFreqComparisonResult;
use wordplay::normalized_word::NormalizedWord;

fn number_of(s: &str) -> AnagramNumber {
    AnagramNumber::try_from(&NormalizedWord::from_str_safe(s)).unwrap()
}

fn freq(s: &str) -> CharFreq {
    CharFreq::from(&NormalizedWord::from_str_safe(s))
}

#[test]
fn exact_comparison_agrees_with_equal_frequency_vectors() {
    let pairs = [
        ("cat", "act", true),
        ("listen", "silent", true),
        ("cat", "bat", false),
        ("aab", "abb", false),
        ("", "", true),
    ];
    for (w1, w2, same) in pairs {
        let exact = number_of(w1).compare(number_of(w2)) == AnagramComparison::Exact;
        let freqs_equal = matches!(freq(w1).compare(&freq(w2)), CharFreqComparisonResult::Same);
        assert_eq!(exact, same);
        assert_eq!(freqs_equal, same);
    }
}

#[test]
fn subset_and_superset_classifications_agree() {
    let pairs = [
        ("at", "cat"),
        ("anna", "banana"),
        ("", "a"),
        ("tab", "bait"),
    ];
    for (small, large) in pairs {
        // The number of the smaller word divides the larger word's.
        assert_eq!(number_of(small).compare(number_of(large)), AnagramComparison::Superset);
        assert_eq!(number_of(large).compare(number_of(small)), AnagramComparison::Subset);
        assert!(matches!(
            freq(small).compare(&freq(large)),
            CharFreqComparisonResult::Subset { .. }
        ));
        assert!(matches!(
            freq(large).compare(&freq(small)),
            CharFreqComparisonResult::Superset { .. }
        ));
    }
}

#[test]
fn unrelated_words_are_unrelated_in_both_representations() {
    let pairs = [("cat", "bat"), ("ab", "cd"), ("aab", "abb")];
    for (w1, w2) in pairs {
        assert_eq!(number_of(w1).compare(number_of(w2)), AnagramComparison::Unrelated);
        assert!(matches!(
            freq(w1).compare(&freq(w2)),
            CharFreqComparisonResult::Unrelated
        ));
    }
}
