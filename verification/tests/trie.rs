use wordplay::normalized_word::NormalizedWord;
use wordplay::trie::Trie;
use wordplay::trie::TrieSearch;

fn collect_words<T: Clone>(trie: &Trie<T>, search: TrieSearch) -> Vec<(NormalizedWord, T)> {
    let mut it = trie.iter_search(search);
    let mut res = Vec::new();
    while let Some((word, value)) = it.next() {
        res.push((word, value.clone()));
    }
    res
}

fn nw(s: &str) -> NormalizedWord {
    NormalizedWord::from_str_safe(s)
}

#[test]
fn default_is_empty() {
    let trie: Trie<i32> = Default::default();

    let mut it = trie.iter();
    let mut count = 0;
    while it.next().is_some() {
        count += 1;
    }
    assert_eq!(count, 0)
}

#[test]
fn add_single() {
    let mut trie: Trie<i32> = Default::default();

    let key = nw("ABC");
    trie.add(&key, 1);

    let res = trie.get(&key);

    assert_eq!(res, Some(&vec![1]))
}

#[test]
fn add_multiple() {
    let mut trie: Trie<i32> = Default::default();

    let key = nw("ABC");
    trie.add(&key, 1);
    trie.add(&key, 2);

    let res = trie.get(&key);

    assert_eq!(res, Some(&vec![1, 2]))
}

#[test]
fn iterate_single() {
    let trie = Trie::from_iter(vec![("A", 1)]);

    let mut it = trie.iter();
    let mut res = Vec::new();
    while let Some((word, value)) = it.next() {
        res.push((word, value));
    }

    assert_eq!(res, [(nw("A"), &1)])
}

#[test]
fn iterate_multiple() {
    let trie = Trie::from_iter(vec![("A", 1), ("AB", 2), ("B", 3)]);

    let mut it = trie.iter();
    let mut res = Vec::new();
    while let Some((word, value)) = it.next() {
        res.push((word, value));
    }

    assert_eq!(res, [(nw("A"), &1), (nw("AB"), &2), (nw("B"), &3)])
}

#[test]
fn iterate_many() {
    let trie = Trie::from_iter(vec![("A", 1), ("AB", 2), ("B", 3), ("CDE", 4), ("CDE", 5)]);

    let mut it = trie.iter();
    let mut res = Vec::new();
    while let Some((word, value)) = it.next() {
        res.push((word, value));
    }

    assert_eq!(
        res,
        [
            (nw("A"), &1),
            (nw("AB"), &2),
            (nw("B"), &3),
            (nw("CDE"), &4),
            (nw("CDE"), &5),
        ]
    )
}

#[test]
fn iterate_bound() {
    let trie = Trie::from_iter(vec![("A", 1), ("AB", 2), ("ABC", 3)]);

    let mut it = trie.iter_range(2, 2);
    let mut res = Vec::new();
    while let Some((word, value)) = it.next() {
        res.push((word, value));
    }

    assert_eq!(res, [(nw("AB"), &2)])
}

#[test]
fn iterate_prefix_search() {
    let trie = Trie::from_iter(vec![("BAT", ()), ("CAR", ()), ("CAT", ())]);

    let search = TrieSearch::from_prefix("CA");
    let res = collect_words(&trie, search);

    assert_eq!(res, [(nw("CAR"), ()), (nw("CAT"), ())])
}

#[test]
fn iterate_prefix_exclude_shorter() {
    let trie = Trie::from_iter(vec![("C", ()), ("CAR", ())]);

    let search = TrieSearch::from_prefix("CA");
    let res = collect_words(&trie, search);

    assert_eq!(res, [(nw("CAR"), ())])
}

#[test]
fn iterate_wildcard_match() {
    let trie = Trie::from_iter(vec![("BAT", ()), ("CAR", ()), ("COT", ())]);

    let search = TrieSearch::from_prefix("?A");
    let res = collect_words(&trie, search);

    assert_eq!(res, [(nw("BAT"), ()), (nw("CAR"), ())])
}

#[test]
fn search_twice_yields_identical_sequences() {
    let trie = Trie::from_iter(vec![("BAT", 1), ("CAR", 2), ("CAT", 3), ("C", 4)]);

    let first = collect_words(&trie, TrieSearch::from_prefix("?A"));
    let second = collect_words(&trie, TrieSearch::from_prefix("?A"));

    assert_eq!(first, second);
}

#[test]
fn exact_length_search_bounds_depth() {
    let trie = Trie::from_iter(vec![("CAR", 1), ("CART", 2), ("CA", 3)]);

    let search = TrieSearch::exactly("???");
    let res = collect_words(&trie, search);

    assert_eq!(res, [(nw("CAR"), 1)]);
}

#[test]
fn empty_pattern_with_zero_depth_yields_root_terminals() {
    let mut trie: Trie<i32> = Trie::empty();
    trie.add(&nw(""), 9);
    trie.add(&nw("A"), 1);

    let search = TrieSearch::exactly("");
    let res = collect_words(&trie, search);

    assert_eq!(res, [(nw(""), 9)]);
}

#[test]
fn get_distinguishes_absent_node_from_empty_terminals() {
    let mut trie: Trie<i32> = Trie::empty();
    trie.add(&nw("AB"), 1);

    assert_eq!(trie.get(&nw("A")), Some(&vec![]));
    assert_eq!(trie.get(&nw("B")), None);
}

#[test]
fn pattern_longer_than_any_word_yields_nothing() {
    let trie = Trie::from_iter(vec![("CAT", 1), ("CAR", 2)]);

    let search = TrieSearch::from_prefix("CATS");
    let res = collect_words(&trie, search);

    assert_eq!(res, []);
}
