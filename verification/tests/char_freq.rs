use wordplay::char_freq::CharFreq;
use wordplay::char_freq::CharFreqComparisonResult;
use wordplay::normalized_word::NormalizedChar;
use wordplay::normalized_word::NormalizedWord;

use CharFreqComparisonResult::{Same, Subset, Superset, Unrelated};
use NormalizedChar::{A, Z};

fn to_charfreq(word: &str) -> CharFreq {
    let asc = NormalizedWord::from_str_safe(word);
    CharFreq::from(&asc)
}

#[test]
fn charfreq_counts_a_once() {
    let freqs = to_charfreq("A");
    let mut expected = CharFreq::new_empty();
    expected.set(A, 1);
    assert_eq!(freqs, expected);
}

#[test]
fn charfreq_counts_z_once() {
    let freqs = to_charfreq("Z");
    let mut expected = CharFreq::new_empty();
    expected.set(Z, 1);
    assert_eq!(freqs, expected);
}

#[test]
fn charfreq_ignores_non_letter() {
    let freqs = to_charfreq("@");
    let expected = CharFreq::new_empty();
    assert_eq!(freqs, expected);
}

#[test]
fn charfreq_comparison_identifies_same() {
    let a = to_charfreq("CAT");
    let b = to_charfreq("CAT");

    let res = a.compare(&b);

    assert_eq!(res, Same);
}

#[test]
fn charfreq_comparison_identifies_same_scrambled() {
    let a = to_charfreq("CAT");
    let b = to_charfreq("ACT");

    let res = a.compare(&b);

    assert_eq!(res, Same);
}

#[test]
fn charfreq_comparison_identifies_subset() {
    let a = to_charfreq("AT");
    let b = to_charfreq("CAT");

    let diff = to_charfreq("C");

    let res = a.compare(&b);

    assert_eq!(res, Subset { diff })
}

#[test]
fn charfreq_comparison_identifies_subset_repeated() {
    let a = to_charfreq("ANNA");
    let b = to_charfreq("BANANA");

    let diff = to_charfreq("BA");

    let res = a.compare(&b);

    assert_eq!(res, Subset { diff })
}

#[test]
fn charfreq_comparison_identifies_superset() {
    let a = to_charfreq("CAT");
    let b = to_charfreq("AT");

    let diff = to_charfreq("C");

    let res = a.compare(&b);

    assert_eq!(res, Superset { diff })
}

#[test]
fn charfreq_comparison_identifies_superset_repeated() {
    let a = to_charfreq("BANANA");
    let b = to_charfreq("ANNA");

    let diff = to_charfreq("BA");

    let res = a.compare(&b);

    assert_eq!(res, Superset { diff })
}

#[test]
fn charfreq_comparison_identifies_unrelated() {
    let a = to_charfreq("CAT");
    let b = to_charfreq("BAT");

    let res = a.compare(&b);

    assert_eq!(res, Unrelated)
}

#[test]
fn charfreq_get_set_update_roundtrip() {
    let mut f = CharFreq::new_empty();
    assert_eq!(f.get(A), 0);
    f.set(A, 3);
    assert_eq!(f.get(A), 3);
    f.update(A);
    assert_eq!(f.get(A), 4);
    assert_eq!(f.get(Z), 0);
}
