//! The dictionary facade: normalized insertion, exact lookup, and
//! predicate-filtered lazy search over the trie.

use vstd::prelude::*;

use crate::anagram_number::AnagramComparison;
use crate::anagram_number::AnagramNumber;
use crate::char_freq::letter_count;
use crate::char_freq::CharFreq;
use crate::char_match::CharMatch;
use crate::normalized_word::normalize_seq;
use crate::normalized_word::NormalizedChar;
use crate::normalized_word::NormalizedWord;
use crate::primes::word_product;
use crate::trie::any_prefix;
use crate::trie::pattern_ok;
use crate::trie::pattern_spec;
use crate::trie::Trie;
use crate::trie::TrieIter;
use crate::trie::TriePrefix;
use crate::trie::TrieSearch;

verus! {

/// One indexed word: the spelling as inserted, its letter-frequency
/// vector, and its anagram number where the encoding did not
/// overflow — all computed once at insertion.
#[derive(Debug, PartialEq)]
pub struct DictEntry {
    pub char_freq: CharFreq,
    pub anag_num: Option<AnagramNumber>,
    pub original: String,
}

impl DictEntry {
    /// The normalized spelling this entry is indexed under.
    pub open spec fn norm(self) -> Seq<NormalizedChar> {
        normalize_seq(self.original@)
    }

    /// The frequency vector counts the normalized spelling, and the
    /// anagram number encodes it exactly when it fits the integer
    /// width.
    pub open spec fn wf(self) -> bool {
        &&& self.char_freq.wf()
        &&& forall|i: int|
            0 <= i < 26 ==> #[trigger] self.char_freq@[i] == letter_count(self.norm(), i)
        &&& match self.anag_num {
            Some(n) => n.val() == word_product(self.norm()) && word_product(self.norm())
                <= u128::MAX,
            None => word_product(self.norm()) > u128::MAX,
        }
    }
}

/// One search hit: the normalized word the traversal reached, with
/// the matching entry's data borrowed from the index.
pub struct DictIterItem<'a> {
    pub normalized: NormalizedWord,
    pub char_freq: &'a CharFreq,
    pub anag_num: Option<AnagramNumber>,
    pub original: &'a String,
}

/// A word index over normalized spellings.
pub struct Dictionary {
    trie: Trie<DictEntry>,
}

impl Dictionary {
    /// The entries stored under one normalized spelling, in
    /// insertion order.
    pub closed spec fn entries_at(self, k: Seq<NormalizedChar>) -> Seq<DictEntry> {
        self.trie.terminals_at(k)
    }

    /// Whether the index has a node for this normalized spelling.
    pub closed spec fn has_word(self, k: Seq<NormalizedChar>) -> bool {
        self.trie.has_node(k)
    }

    /// The trie's enumeration for a search, before predicate
    /// filtering.
    pub closed spec fn search_space(
        self,
        prefix: Seq<CharMatch>,
        maxd: Option<usize>,
    ) -> Seq<(Seq<NormalizedChar>, DictEntry)> {
        self.trie.search_results(prefix, maxd)
    }

    /// Well-formedness: a sound tree whose every entry sits under its
    /// own normalized spelling with consistent precomputed data.
    pub closed spec fn wf(self) -> bool {
        &&& self.trie.wf()
        &&& forall|k: Seq<NormalizedChar>, j: int|
            0 <= j < self.trie.terminals_at(k).len() ==> ((#[trigger] self.trie.terminals_at(
                k,
            )[j]).wf() && self.trie.terminals_at(k)[j].norm() == k)
    }

    /// An empty index.
    pub fn new() -> (d: Dictionary)
        ensures
            d.wf(),
            forall|k: Seq<NormalizedChar>| #[trigger] d.has_word(k) <==> k.len() == 0,
            forall|k: Seq<NormalizedChar>| #[trigger] d.entries_at(k) == Seq::<DictEntry>::empty(),
    {
        Dictionary { trie: Trie::empty() }
    }

    /// Indexes one spelling: normalizes it, computes its
    /// letter-frequency vector and (where it fits) its anagram
    /// number, and appends the entry under the normalized word.
    /// Every other word keeps its entries untouched; duplicates of
    /// the same spelling accumulate in insertion order.  The
    /// frequency counters are one byte wide, so a spelling may fold
    /// onto at most 255 letters.
    pub fn insert(&mut self, original: &str)
        requires
            old(self).wf(),
            normalize_seq(original@).len() <= 255,
        ensures
            final(self).wf(),
            forall|k: Seq<NormalizedChar>|
                #[trigger] final(self).has_word(k) <==> (old(self).has_word(k) || k.is_prefix_of(
                    normalize_seq(original@),
                )),
            final(self).entries_at(normalize_seq(original@)).len() == old(self).entries_at(
                normalize_seq(original@),
            ).len() + 1,
            final(self).entries_at(normalize_seq(original@)).last().original@ == original@,
            final(self).entries_at(normalize_seq(original@)).drop_last() == old(self).entries_at(
                normalize_seq(original@),
            ),
            forall|k: Seq<NormalizedChar>|
                k != normalize_seq(original@) ==> #[trigger] final(self).entries_at(k) == old(
                    self,
                ).entries_at(k),
    {
        let normalized = NormalizedWord::from_str_safe(original);
        let char_freq = CharFreq::from(&normalized);
        let anag_num = match AnagramNumber::try_from(&normalized) {
            Ok(n) => Some(n),
            Err(_) => None,
        };
        let entry = DictEntry { char_freq, anag_num, original: original.to_owned() };
        proof {
            assert(entry.wf());
        }
        let ghost nw = normalized@;
        let ghost pre = self.trie;
        self.trie.add(&normalized, entry);
        proof {
            assert(final(self).trie.terminals_at(nw) == pre.terminals_at(nw).push(entry));
            assert(final(self).trie.terminals_at(nw).drop_last() =~= pre.terminals_at(nw));
            let post = *final(self);
            assert forall|k: Seq<NormalizedChar>, j: int|
                0 <= j < post.trie.terminals_at(k).len() implies ((#[trigger] post.trie.terminals_at(
                k,
            )[j]).wf() && post.trie.terminals_at(k)[j].norm() == k) by {
                if k == nw {
                    if j < pre.terminals_at(nw).len() {
                        assert(pre.terminals_at(k)[j].wf());
                    } else {
                        assert(post.trie.terminals_at(k)[j] == entry);
                    }
                } else {
                    assert(post.trie.terminals_at(k) == pre.terminals_at(k));
                    assert(pre.terminals_at(k)[j].wf());
                }
            }
            assert(post.wf());
        }
    }

    /// Looks up the exact normalized spelling: its entry list where
    /// the word's node exists, distinct from a node with no entries.
    pub fn find(&self, word: &NormalizedWord) -> (r: Option<&Vec<DictEntry>>)
        requires
            self.wf(),
        ensures
            match r {
                Some(v) => self.has_word(word@) && v@ == self.entries_at(word@),
                None => !self.has_word(word@),
            },
    {
        self.trie.get(word)
    }

    /// Inserts each spelling in order: under every normalized word,
    /// the entries already present stay put, and the given spellings
    /// that normalize to it are appended, in order.
    pub fn extend(&mut self, words: Vec<&str>)
        requires
            old(self).wf(),
            forall|i: int|
                0 <= i < words@.len() ==> #[trigger] normalize_seq(words@[i]@).len() <= 255,
        ensures
            final(self).wf(),
            forall|i: int|
                0 <= i < words@.len() ==> #[trigger] final(self).has_word(
                    normalize_seq(words@[i]@),
                ),
            forall|k: Seq<NormalizedChar>|
                old(self).has_word(k) ==> #[trigger] final(self).has_word(k),
            forall|k: Seq<NormalizedChar>|
                (#[trigger] final(self).entries_at(k)).len() == old(self).entries_at(k).len()
                    + matching_spellings(spellings(words@), k).len(),
            forall|k: Seq<NormalizedChar>, t: int|
                0 <= t < old(self).entries_at(k).len() ==> #[trigger] final(self).entries_at(
                    k,
                )[t] == old(self).entries_at(k)[t],
            forall|k: Seq<NormalizedChar>, t: int|
                0 <= t < matching_spellings(spellings(words@), k).len() ==> (
                #[trigger] final(self).entries_at(k)[old(self).entries_at(k).len() + t]).original@
                    == matching_spellings(spellings(words@), k)[t],
    {
        let ghost all = spellings(words@);
        let n = words.len();
        let mut i: usize = 0;
        while i < n
            invariant
                i <= n,
                n == words@.len(),
                all == spellings(words@),
                self.wf(),
                forall|t: int|
                    0 <= t < words@.len() ==> #[trigger] normalize_seq(words@[t]@).len() <= 255,
                forall|t: int|
                    0 <= t < i ==> #[trigger] self.has_word(normalize_seq(words@[t]@)),
                forall|k: Seq<NormalizedChar>|
                    old(self).has_word(k) ==> #[trigger] self.has_word(k),
                forall|k: Seq<NormalizedChar>|
                    (#[trigger] self.entries_at(k)).len() == old(self).entries_at(k).len()
                        + matching_spellings(all.take(i as int), k).len(),
                forall|k: Seq<NormalizedChar>, t: int|
                    0 <= t < old(self).entries_at(k).len() ==> #[trigger] self.entries_at(k)[t]
                        == old(self).entries_at(k)[t],
                forall|k: Seq<NormalizedChar>, t: int|
                    0 <= t < matching_spellings(all.take(i as int), k).len() ==> (
                    #[trigger] self.entries_at(k)[old(self).entries_at(k).len() + t]).original@
                        == matching_spellings(all.take(i as int), k)[t],
            decreases n - i,
        {
            let ghost mid = *self;
            self.insert(words[i]);
            proof {
                let w = all[i as int];
                let nw = normalize_seq(w);
                assert(nw.is_prefix_of(nw));
                assert(all.take(i + 1).drop_last() =~= all.take(i as int));
                assert(all.take(i + 1).last() == w);
                assert forall|t: int| 0 <= t < i + 1 implies #[trigger] self.has_word(
                    normalize_seq(words@[t]@),
                ) by {
                    if t < i {
                        assert(mid.has_word(normalize_seq(words@[t]@)));
                    }
                }
                assert forall|k: Seq<NormalizedChar>|
                    (#[trigger] self.entries_at(k)).len() == old(self).entries_at(k).len()
                        + matching_spellings(all.take(i + 1), k).len() by {
                    if k != nw {
                        assert(self.entries_at(k) == mid.entries_at(k));
                        assert(matching_spellings(all.take(i + 1), k) == matching_spellings(
                            all.take(i as int),
                            k,
                        ));
                    }
                }
                assert forall|k: Seq<NormalizedChar>, t: int|
                    0 <= t < old(self).entries_at(k).len() implies #[trigger] self.entries_at(
                    k,
                )[t] == old(self).entries_at(k)[t] by {
                    assert(mid.entries_at(k)[t] == old(self).entries_at(k)[t]);
                    if k == nw {
                        assert(self.entries_at(k).drop_last() == mid.entries_at(k));
                        assert(self.entries_at(k)[t] == self.entries_at(k).drop_last()[t]);
                    } else {
                        assert(self.entries_at(k) == mid.entries_at(k));
                    }
                }
                assert forall|k: Seq<NormalizedChar>, t: int|
                    0 <= t < matching_spellings(all.take(i + 1), k).len() implies (
                #[trigger] self.entries_at(k)[old(self).entries_at(k).len() + t]).original@
                    == matching_spellings(all.take(i + 1), k)[t] by {
                    let pos = old(self).entries_at(k).len() + t;
                    if k == nw {
                        let prev = matching_spellings(all.take(i as int), k);
                        assert(matching_spellings(all.take(i + 1), k) == prev + seq![w]);
                        if t < prev.len() {
                            assert(mid.entries_at(k)[pos].original@ == prev[t]);
                            assert(self.entries_at(k).drop_last() == mid.entries_at(k));
                            assert(self.entries_at(k)[pos] == self.entries_at(k).drop_last()[
                                pos
                            ]);
                            assert(matching_spellings(all.take(i + 1), k)[t] == prev[t]);
                        } else {
                            assert(t == prev.len());
                            assert(pos == self.entries_at(k).len() - 1);
                            assert(self.entries_at(k).last().original@ == w);
                            assert(matching_spellings(all.take(i + 1), k)[t] == w);
                        }
                    } else {
                        assert(matching_spellings(all.take(i + 1), k) == matching_spellings(
                            all.take(i as int),
                            k,
                        ));
                        assert(mid.entries_at(k)[pos].original@ == matching_spellings(
                            all.take(i as int),
                            k,
                        )[t]);
                        assert(self.entries_at(k) == mid.entries_at(k));
                    }
                }
            }
            i += 1;
        }
        proof {
            assert(all.take(n as int) =~= all);
        }
    }

    /// Builds an index from a list of spellings.
    pub fn from_iter(words: Vec<&str>) -> (d: Dictionary)
        requires
            forall|i: int|
                0 <= i < words@.len() ==> #[trigger] normalize_seq(words@[i]@).len() <= 255,
        ensures
            d.wf(),
            forall|i: int|
                0 <= i < words@.len() ==> #[trigger] d.has_word(normalize_seq(words@[i]@)),
            forall|k: Seq<NormalizedChar>|
                (#[trigger] d.entries_at(k)).len() == matching_spellings(
                    spellings(words@),
                    k,
                ).len(),
            forall|k: Seq<NormalizedChar>, t: int|
                0 <= t < matching_spellings(spellings(words@), k).len() ==> (
                #[trigger] d.entries_at(k)[t]).original@ == matching_spellings(
                    spellings(words@),
                    k,
                )[t],
    {
        let mut d = Dictionary::new();
        let ghost base = d;
        d.extend(words);
        proof {
            assert forall|k: Seq<NormalizedChar>, t: int|
                0 <= t < matching_spellings(spellings(words@), k).len() implies (
            #[trigger] d.entries_at(k)[t]).original@ == matching_spellings(
                spellings(words@),
                k,
            )[t] by {
                assert(base.entries_at(k).len() == 0);
                assert(d.entries_at(k)[base.entries_at(k).len() + t].original@
                    == matching_spellings(spellings(words@), k)[t]);
            }
        }
        d
    }

    /// Enumerates the whole index lazily, in normalized
    /// lexicographic order.
    pub fn iter(&self) -> (it: DictIter)
        requires
            self.wf(),
        ensures
            it.wf(),
            it.remaining() == self.search_space(Seq::<CharMatch>::empty(), None),
    {
        let search = TrieSearch::new(TriePrefix::new(Vec::new()), None);
        let inner = self.trie.iter_search(search);
        let it = DictIter { inner, predicate: WordPredicate::Always };
        proof {
            assert(search.prefix_spec() =~= Seq::<CharMatch>::empty());
            lemma_filtered_none(it.inner.remaining());
        }
        it
    }

    /// Enumerates the index under a search descriptor: the trie
    /// prunes by position and depth, then the predicate filters each
    /// candidate.
    pub fn iter_search(&self, search: DictSearch) -> (it: DictIter)
        requires
            self.wf(),
        ensures
            it.wf(),
            it.remaining() == filtered(
                self.search_space(search.prefix_spec(), search.max_depth_spec()),
                search.predicate_spec(),
            ),
    {
        let DictSearch { trie_search, predicate } = search;
        let ts = match trie_search {
            Some(ts) => ts,
            None => TrieSearch::new(TriePrefix::new(Vec::new()), None),
        };
        proof {
            assert(ts.prefix_spec() =~= search.prefix_spec());
        }
        let inner = self.trie.iter_search(ts);
        DictIter { inner, predicate }
    }
}

impl Dictionary {
    /// Soundness of a search: every hit names a word the index
    /// really stores, whose entry is consistent and sits under that
    /// word, which satisfies every positional constraint, is at
    /// least as long as the fixed pattern, and respects the depth
    /// bound.
    pub proof fn lemma_search_space_sound(
        self,
        prefix: Seq<CharMatch>,
        maxd: Option<usize>,
        i: int,
    )
        requires
            self.wf(),
            0 <= i < self.search_space(prefix, maxd).len(),
        ensures
            ({
                let e = self.search_space(prefix, maxd)[i];
                &&& prefix.len() <= e.0.len()
                &&& (forall|d: int|
                    0 <= d < e.0.len() ==> (#[trigger] crate::trie::restriction_spec(
                        prefix,
                        d,
                    )).matches_spec(e.0[d]))
                &&& (match maxd {
                    Some(m) => e.0.len() <= m,
                    None => true,
                })
                &&& self.has_word(e.0)
                &&& self.entries_at(e.0).contains(e.1)
                &&& e.1.wf()
                &&& e.1.norm() == e.0
            }),
    {
        crate::trie::lemma_search_results_sound(self.trie, prefix, maxd, i);
        let e = self.search_space(prefix, maxd)[i];
        let j = choose|j: int|
            0 <= j < self.trie.terminals_at(e.0).len() && self.trie.terminals_at(e.0)[j] == e.1;
        assert(self.trie.terminals_at(e.0)[j].wf());
    }

    /// Completeness of a search: every entry stored under a word the
    /// constraints admit appears among the hits, tagged with its
    /// word.
    pub proof fn lemma_search_space_complete(
        self,
        prefix: Seq<CharMatch>,
        maxd: Option<usize>,
        w: Seq<NormalizedChar>,
        j: int,
    )
        requires
            self.wf(),
            prefix.len() <= w.len(),
            forall|d: int|
                0 <= d < w.len() ==> (#[trigger] crate::trie::restriction_spec(
                    prefix,
                    d,
                )).matches_spec(w[d]),
            match maxd {
                Some(m) => w.len() <= m,
                None => true,
            },
            0 <= j < self.entries_at(w).len(),
        ensures
            self.search_space(prefix, maxd).contains((w, self.entries_at(w)[j])),
    {
        crate::trie::lemma_search_results_complete(self.trie, prefix, maxd, w, j);
    }

    /// Ordering of a search: hits come in ascending lexicographic
    /// order of normalized spelling.
    pub proof fn lemma_search_space_ordered(self, prefix: Seq<CharMatch>, maxd: Option<usize>)
        requires
            self.wf(),
        ensures
            forall|a: int, b: int|
                0 <= a < b < self.search_space(prefix, maxd).len()
                    ==> crate::normalized_word::lex_leq(
                    (#[trigger] self.search_space(prefix, maxd)[a]).0,
                    (#[trigger] self.search_space(prefix, maxd)[b]).0,
                ),
    {
        crate::trie::lemma_search_results_ordered(self.trie, prefix, maxd);
        assert forall|a: int, b: int|
            0 <= a < b < self.search_space(prefix, maxd).len()
                implies crate::normalized_word::lex_leq(
            (#[trigger] self.search_space(prefix, maxd)[a]).0,
            (#[trigger] self.search_space(prefix, maxd)[b]).0,
        ) by {
            assert(self.search_space(prefix, maxd)[a] == self.trie.search_results(
                prefix,
                maxd,
            )[a]);
            assert(self.search_space(prefix, maxd)[b] == self.trie.search_results(
                prefix,
                maxd,
            )[b]);
        }
    }
}

impl Dictionary {
    /// The anagram query, end to end: every hit that survives an
    /// exact-anagram predicate is a true anagram of the query word —
    /// each canonical letter occurs in the hit's normalized spelling
    /// exactly as often as in the query.
    pub proof fn lemma_anagram_hits_are_anagrams(
        self,
        prefix: Seq<CharMatch>,
        maxd: Option<usize>,
        n: AnagramNumber,
        q: Seq<NormalizedChar>,
        i: int,
    )
        requires
            self.wf(),
            n.val() == word_product(q),
            0 <= i < filtered(
                self.search_space(prefix, maxd),
                WordPredicate::AnagramOf(n),
            ).len(),
        ensures
            ({
                let e = filtered(self.search_space(prefix, maxd), WordPredicate::AnagramOf(n))[i];
                forall|c: int|
                    0 <= c < 26 ==> #[trigger] letter_count(e.1.norm(), c) == letter_count(q, c)
            }),
    {
        let space = self.search_space(prefix, maxd);
        let p = WordPredicate::AnagramOf(n);
        lemma_filtered_sound(space, p, i);
        let j = choose|j: int|
            0 <= j < space.len() && space[j] == filtered(space, p)[i] && p.matches_spec(
                space[j].1.anag_num,
            );
        self.lemma_search_space_sound(prefix, maxd, j);
        let e = space[j];
        let x = e.1.anag_num->0;
        assert(x.val() == word_product(e.1.norm()));
        crate::anagram_number::lemma_exact_iff_equal_counts(e.1.norm(), q);
    }
}

/// Every element the predicate filter keeps comes from the
/// unfiltered sequence and satisfies the predicate.
proof fn lemma_filtered_sound(
    s: Seq<(Seq<NormalizedChar>, DictEntry)>,
    p: WordPredicate,
    i: int,
)
    requires
        0 <= i < filtered(s, p).len(),
    ensures
        exists|j: int|
            0 <= j < s.len() && s[j] == filtered(s, p)[i] && p.matches_spec(
                (#[trigger] s[j]).1.anag_num,
            ),
    decreases s.len(),
{
    if s.len() > 0 {
        if p.matches_spec(s[0].1.anag_num) && i == 0 {
            assert(filtered(s, p)[0] == s[0]);
        } else {
            let i2 = if p.matches_spec(s[0].1.anag_num) {
                i - 1
            } else {
                i
            };
            lemma_filtered_sound(s.drop_first(), p, i2);
            let j2 = choose|j2: int|
                0 <= j2 < s.drop_first().len() && s.drop_first()[j2] == filtered(
                    s.drop_first(),
                    p,
                )[i2] && p.matches_spec((#[trigger] s.drop_first()[j2]).1.anag_num);
            assert(s[j2 + 1] == s.drop_first()[j2]);
            assert(filtered(s, p)[i] == filtered(s.drop_first(), p)[i2]);
        }
    }
}

impl Default for Dictionary {
    /// The empty index.
    fn default() -> (d: Dictionary)
        ensures
            d.wf(),
            forall|k: Seq<NormalizedChar>| #[trigger] d.has_word(k) <==> k.len() == 0,
            forall|k: Seq<NormalizedChar>| #[trigger] d.entries_at(k) == Seq::<DictEntry>::empty(),
    {
        Dictionary::new()
    }
}

/// A boolean combination of anagram relations, evaluated against a
/// candidate entry's anagram number.
#[derive(Debug, PartialEq)]
pub enum WordPredicate {
    AnagramOf(AnagramNumber),
    SubanagramOf(AnagramNumber),
    SuperanagramOf(AnagramNumber),
    All(Vec<WordPredicate>),
    Any(Vec<WordPredicate>),
    Always,
}

impl WordPredicate {
    /// What the predicate accepts, given a candidate's anagram
    /// number.  A candidate without one fails an exact anagram test
    /// and passes the sub- and super-anagram tests, whose outcome the
    /// encoding cannot decide there.
    pub open spec fn matches_spec(self, anag: Option<AnagramNumber>) -> bool
        decreases self, 0int,
        via Self::matches_spec_decreases
    {
        match self {
            WordPredicate::AnagramOf(a) => match anag {
                Some(x) => a.val() == x.val(),
                None => false,
            },
            WordPredicate::SubanagramOf(a) => match anag {
                Some(x) => a.val() > x.val() && a.val() % x.val() == 0,
                None => true,
            },
            WordPredicate::SuperanagramOf(a) => match anag {
                Some(x) => a.val() < x.val() && x.val() % a.val() == 0,
                None => true,
            },
            WordPredicate::All(ps) => all_match_from(ps@, anag, 0),
            WordPredicate::Any(ps) => any_match_from(ps@, anag, 0),
            WordPredicate::Always => true,
        }
    }

    #[via_fn]
    proof fn matches_spec_decreases(self, anag: Option<AnagramNumber>) {
        match self {
            WordPredicate::All(ps) => {
                assert(decreases_to!(self => ps));
                assert(decreases_to!(ps => ps@));
            },
            WordPredicate::Any(ps) => {
                assert(decreases_to!(self => ps));
                assert(decreases_to!(ps => ps@));
            },
            _ => {},
        }
    }

    /// Evaluates the predicate against one search hit.
    pub fn matches(&self, entry: &DictIterItem) -> (b: bool)
        ensures
            b == self.matches_spec(entry.anag_num),
        decreases self, 0int,
    {
        match self {
            WordPredicate::AnagramOf(a) => match entry.anag_num {
                Some(x) => {
                    let c = a.compare(x);
                    c == AnagramComparison::Exact
                },
                None => false,
            },
            WordPredicate::SubanagramOf(a) => match entry.anag_num {
                Some(x) => {
                    let c = a.compare(x);
                    c == AnagramComparison::Subset
                },
                None => true,
            },
            WordPredicate::SuperanagramOf(a) => match entry.anag_num {
                Some(x) => {
                    let c = a.compare(x);
                    c == AnagramComparison::Superset
                },
                None => true,
            },
            WordPredicate::All(ps) => {
                let mut j: usize = 0;
                let n = ps.len();
                while j < n
                    invariant
                        j <= n,
                        n == ps@.len(),
                        *self == WordPredicate::All(*ps),
                        forall|t: int| 0 <= t < j ==> #[trigger] ps@[t].matches_spec(
                            entry.anag_num,
                        ),
                    decreases n - j,
                {
                    proof {
                        assert(*self == WordPredicate::All(*ps));
                        assert(decreases_to!(*self => (*self)->All_0));
                        assert(decreases_to!(*ps => ps@));
                        assert(decreases_to!(ps@ => ps@[j as int]));
                    }
                    if !ps[j].matches(entry) {
                        proof {
                            lemma_all_match_iff(ps@, entry.anag_num, 0);
                            assert(!all_match_from(ps@, entry.anag_num, 0));
                            assert(self.matches_spec(entry.anag_num) == all_match_from(
                                ps@,
                                entry.anag_num,
                                0,
                            ));
                        }
                        return false;
                    }
                    j += 1;
                }
                proof {
                    lemma_all_match_iff(ps@, entry.anag_num, 0);
                    assert(all_match_from(ps@, entry.anag_num, 0));
                }
                true
            },
            WordPredicate::Any(ps) => {
                let mut j: usize = 0;
                let n = ps.len();
                while j < n
                    invariant
                        j <= n,
                        n == ps@.len(),
                        *self == WordPredicate::Any(*ps),
                        forall|t: int| 0 <= t < j ==> !(#[trigger] ps@[t].matches_spec(
                            entry.anag_num,
                        )),
                    decreases n - j,
                {
                    proof {
                        assert(*self == WordPredicate::Any(*ps));
                        assert(decreases_to!(*self => (*self)->Any_0));
                        assert(decreases_to!(*ps => ps@));
                        assert(decreases_to!(ps@ => ps@[j as int]));
                    }
                    if ps[j].matches(entry) {
                        proof {
                            lemma_any_match_iff(ps@, entry.anag_num, 0);
                            assert(j <= j < ps@.len() && ps@[j as int].matches_spec(
                                entry.anag_num,
                            ));
                            assert(any_match_from(ps@, entry.anag_num, 0));
                        }
                        return true;
                    }
                    j += 1;
                }
                proof {
                    lemma_any_match_iff(ps@, entry.anag_num, 0);
                    assert(!any_match_from(ps@, entry.anag_num, 0));
                }
                false
            },
            WordPredicate::Always => true,
        }
    }
}

impl Default for WordPredicate {
    /// The predicate that accepts everything.
    fn default() -> (r: WordPredicate)
        ensures
            r == WordPredicate::Always,
    {
        WordPredicate::Always
    }
}

/// Whether every predicate from position `i` on accepts the
/// candidate.
pub open spec fn all_match_from(
    ps: Seq<WordPredicate>,
    anag: Option<AnagramNumber>,
    i: int,
) -> bool
    decreases ps, ps.len() - i,
    via all_match_from_decreases
{
    if i < 0 || i >= ps.len() {
        true
    } else {
        ps[i].matches_spec(anag) && all_match_from(ps, anag, i + 1)
    }
}

#[via_fn]
proof fn all_match_from_decreases(ps: Seq<WordPredicate>, anag: Option<AnagramNumber>, i: int) {
    if 0 <= i < ps.len() {
        assert(decreases_to!(ps => ps[i]));
    }
}

/// Whether some predicate from position `i` on accepts the
/// candidate.
pub open spec fn any_match_from(
    ps: Seq<WordPredicate>,
    anag: Option<AnagramNumber>,
    i: int,
) -> bool
    decreases ps, ps.len() - i,
    via any_match_from_decreases
{
    if i < 0 || i >= ps.len() {
        false
    } else {
        ps[i].matches_spec(anag) || any_match_from(ps, anag, i + 1)
    }
}

#[via_fn]
proof fn any_match_from_decreases(ps: Seq<WordPredicate>, anag: Option<AnagramNumber>, i: int) {
    if 0 <= i < ps.len() {
        assert(decreases_to!(ps => ps[i]));
    }
}

/// The recursive conjunction agrees with its pointwise reading.
proof fn lemma_all_match_iff(ps: Seq<WordPredicate>, anag: Option<AnagramNumber>, i: int)
    requires
        0 <= i <= ps.len(),
    ensures
        all_match_from(ps, anag, i) <==> (forall|t: int|
            i <= t < ps.len() ==> #[trigger] ps[t].matches_spec(anag)),
    decreases ps.len() - i,
{
    if i < ps.len() {
        lemma_all_match_iff(ps, anag, i + 1);
        if all_match_from(ps, anag, i) {
            assert forall|t: int| i <= t < ps.len() implies #[trigger] ps[t].matches_spec(
                anag,
            ) by {
                if t > i {
                    assert(all_match_from(ps, anag, i + 1));
                }
            }
        }
        if forall|t: int| i <= t < ps.len() ==> #[trigger] ps[t].matches_spec(anag) {
            assert(ps[i].matches_spec(anag));
        }
    }
}

/// The recursive disjunction agrees with its pointwise reading.
proof fn lemma_any_match_iff(ps: Seq<WordPredicate>, anag: Option<AnagramNumber>, i: int)
    requires
        0 <= i <= ps.len(),
    ensures
        any_match_from(ps, anag, i) <==> (exists|t: int|
            i <= t < ps.len() && #[trigger] ps[t].matches_spec(anag)),
    decreases ps.len() - i,
{
    if i < ps.len() {
        lemma_any_match_iff(ps, anag, i + 1);
        if ps[i].matches_spec(anag) {
            assert(i <= i < ps.len() && ps[i].matches_spec(anag));
        }
    }
}

/// The raw character sequences of a list of spellings.
pub open spec fn spellings(words: Seq<&str>) -> Seq<Seq<char>> {
    words.map_values(|w: &str| w@)
}

/// The spellings that normalize to `k`, in their given order.
pub open spec fn matching_spellings(words: Seq<Seq<char>>, k: Seq<NormalizedChar>) -> Seq<
    Seq<char>,
>
    decreases words.len(),
{
    if words.len() == 0 {
        Seq::empty()
    } else if normalize_seq(words.last()) == k {
        matching_spellings(words.drop_last(), k) + seq![words.last()]
    } else {
        matching_spellings(words.drop_last(), k)
    }
}

/// The subsequence of search hits a predicate accepts, in order.
pub open spec fn filtered(
    s: Seq<(Seq<NormalizedChar>, DictEntry)>,
    p: WordPredicate,
) -> Seq<(Seq<NormalizedChar>, DictEntry)>
    decreases s.len(),
{
    if s.len() == 0 {
        Seq::empty()
    } else if p.matches_spec(s[0].1.anag_num) {
        seq![s[0]] + filtered(s.drop_first(), p)
    } else {
        filtered(s.drop_first(), p)
    }
}

/// The always-true predicate filters nothing out.
proof fn lemma_filtered_none(s: Seq<(Seq<NormalizedChar>, DictEntry)>)
    ensures
        filtered(s, WordPredicate::Always) == s,
    decreases s.len(),
{
    if s.len() > 0 {
        lemma_filtered_none(s.drop_first());
        assert(seq![s[0]] + s.drop_first() =~= s);
    }
}

/// A full search request: an optional positional descriptor for the
/// trie plus a predicate over each candidate.  Nothing is mutated
/// after construction.
#[derive(Debug, PartialEq)]
pub struct DictSearch {
    trie_search: Option<TrieSearch>,
    predicate: WordPredicate,
}

impl DictSearch {
    /// The positional constraints handed to the trie: none means an
    /// unconstrained walk.
    pub closed spec fn prefix_spec(self) -> Seq<CharMatch> {
        match self.trie_search {
            Some(ts) => ts.prefix_spec(),
            None => Seq::empty(),
        }
    }

    /// The depth bound handed to the trie.
    pub closed spec fn max_depth_spec(self) -> Option<usize> {
        match self.trie_search {
            Some(ts) => ts.max_depth_spec(),
            None => None,
        }
    }

    /// The per-candidate predicate.
    pub closed spec fn predicate_spec(self) -> WordPredicate {
        self.predicate
    }

    /// Combines a positional descriptor and a predicate.
    pub fn new(trie_search: Option<TrieSearch>, predicate: WordPredicate) -> (r: Self)
        ensures
            trie_search matches Some(ts) ==> r.prefix_spec() == ts.prefix_spec()
                && r.max_depth_spec() == ts.max_depth_spec(),
            trie_search is None ==> r.prefix_spec() == Seq::<CharMatch>::empty()
                && r.max_depth_spec() is None,
            r.predicate_spec() == predicate,
    {
        Self { trie_search, predicate }
    }

    /// A pattern search: the pattern's constraints, bounded to
    /// exactly the pattern's length, with no predicate.
    pub fn from_pattern(pattern: &str) -> (r: DictSearch)
        requires
            pattern_ok(pattern@),
        ensures
            r.prefix_spec() == pattern_spec(pattern@),
            r.max_depth_spec() == Some(pattern@.len() as usize),
            r.predicate_spec() == WordPredicate::Always,
    {
        let prefix = TriePrefix::from_pattern(pattern);
        let max_length = prefix.len();
        let trie_search = Some(TrieSearch::new(prefix, Some(max_length)));
        DictSearch { trie_search, predicate: WordPredicate::Always }
    }

    /// An anagram search: any letters, exactly as many as the query
    /// word has, filtered to exact anagrams of it.  The query's own
    /// encoding must fit the integer width.
    pub fn anagram_of(s: &str) -> (r: DictSearch)
        requires
            word_product(normalize_seq(s@)) <= u128::MAX,
        ensures
            r.prefix_spec() == any_prefix(normalize_seq(s@).len() as int),
            r.max_depth_spec() == Some(normalize_seq(s@).len() as usize),
            r.predicate_spec() matches WordPredicate::AnagramOf(n) && n.val() == word_product(
                normalize_seq(s@),
            ),
    {
        let word = NormalizedWord::from_str_safe(s);
        let anagram = match AnagramNumber::try_from(&word) {
            Ok(n) => n,
            Err(_) => vstd::pervasive::unreached(),
        };
        let len = word.len();
        let prefix = TriePrefix::any_with_length(len);
        proof {
            assert(prefix@ =~= any_prefix(normalize_seq(s@).len() as int));
        }
        let trie_search = Some(TrieSearch::new(prefix, Some(len)));
        DictSearch { trie_search, predicate: WordPredicate::AnagramOf(anagram) }
    }
}

/// A lazy, predicate-filtered enumeration of search hits.
pub struct DictIter<'a> {
    inner: TrieIter<'a, DictEntry>,
    predicate: WordPredicate,
}

impl<'a> DictIter<'a> {
    /// Everything this enumeration has yet to yield, in order.
    pub closed spec fn remaining(self) -> Seq<(Seq<NormalizedChar>, DictEntry)> {
        filtered(self.inner.remaining(), self.predicate)
    }

    /// The underlying traversal is sound.
    pub closed spec fn wf(self) -> bool {
        self.inner.wf()
    }

    /// Yields the next accepted hit, or `None` once the traversal is
    /// exhausted.  Candidates the predicate rejects are skipped; each
    /// call still does work bounded by the index size.
    pub fn next(&mut self) -> (r: Option<DictIterItem<'a>>)
        requires
            old(self).wf(),
        ensures
            final(self).wf(),
            match r {
                Some(item) => {
                    &&& old(self).remaining().len() > 0
                    &&& item.normalized@ == old(self).remaining()[0].0
                    &&& *item.char_freq == old(self).remaining()[0].1.char_freq
                    &&& item.anag_num == old(self).remaining()[0].1.anag_num
                    &&& item.original@ == old(self).remaining()[0].1.original@
                    &&& final(self).remaining() == old(self).remaining().drop_first()
                },
                None => old(self).remaining().len() == 0 && final(self).remaining().len() == 0,
            },
    {
        loop
            invariant
                self.wf(),
                self.predicate == old(self).predicate,
                filtered(self.inner.remaining(), self.predicate) == old(self).remaining(),
            decreases self.inner.remaining().len(),
        {
            let ghost pre_rem = self.inner.remaining();
            match self.inner.next() {
                Some(pair) => {
                    let (w, e) = pair;
                    let item = DictIterItem {
                        normalized: w,
                        char_freq: &e.char_freq,
                        anag_num: e.anag_num,
                        original: &e.original,
                    };
                    proof {
                        assert(pre_rem[0].1 == *e);
                    }
                    if self.predicate.matches(&item) {
                        proof {
                            assert(filtered(pre_rem, self.predicate) == seq![pre_rem[0]]
                                + filtered(pre_rem.drop_first(), self.predicate));
                            assert(old(self).remaining()[0] == pre_rem[0]);
                            assert((seq![pre_rem[0]] + filtered(
                                pre_rem.drop_first(),
                                self.predicate,
                            )).drop_first() =~= filtered(pre_rem.drop_first(), self.predicate));
                        }
                        return Some(item);
                    } else {
                        proof {
                            assert(filtered(pre_rem, self.predicate) == filtered(
                                pre_rem.drop_first(),
                                self.predicate,
                            ));
                        }
                    }
                },
                None => {
                    return None;
                },
            }
        }
    }
}

} // verus!
