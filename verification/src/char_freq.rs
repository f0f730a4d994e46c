//! Letter-frequency vectors and their three-way comparison.

use vstd::prelude::*;

use crate::char_map::CharMap;
use crate::normalized_word::NormalizedChar;
use crate::normalized_word::NormalizedWord;

verus! {

/// How often the letter at canonical position `i` occurs in `w`.
pub open spec fn letter_count(w: Seq<NormalizedChar>, i: int) -> nat
    decreases w.len(),
{
    if w.len() == 0 {
        0
    } else {
        letter_count(w.drop_last(), i) + if w.last().idx() == i {
            1nat
        } else {
            0nat
        }
    }
}

/// No letter occurs more often than the word is long.
pub proof fn lemma_letter_count_le_len(w: Seq<NormalizedChar>, i: int)
    ensures
        letter_count(w, i) <= w.len(),
    decreases w.len(),
{
    if w.len() > 0 {
        lemma_letter_count_le_len(w.drop_last(), i);
    }
}

/// Counts of each canonical letter in a word.
///
/// The view is the sequence of 26 per-letter counts; `wf` says the
/// table is complete.  The sum of the counts equals the length of the
/// word the vector was taken from.
#[derive(Debug, PartialEq, Eq)]
pub struct CharFreq {
    freqs: CharMap<u8>,
}

impl View for CharFreq {
    type V = Seq<u8>;

    closed spec fn view(&self) -> Seq<u8> {
        self.freqs@
    }
}

/// The outcome of comparing two letter-frequency vectors: equal,
/// strictly below with the missing letters, strictly above with the
/// surplus letters, or ordered in neither direction.
#[derive(Debug, PartialEq, Eq)]
pub enum CharFreqComparisonResult {
    Same,
    Unrelated,
    Subset { diff: CharFreq },
    Superset { diff: CharFreq },
}

/// Every count in `a` is at or below its counterpart in `b`.
pub open spec fn counts_le(a: Seq<u8>, b: Seq<u8>) -> bool {
    forall|i: int| 0 <= i < 26 ==> #[trigger] a[i] <= b[i]
}

/// Some count in `a` is strictly below its counterpart in `b`.
pub open spec fn counts_lt_somewhere(a: Seq<u8>, b: Seq<u8>) -> bool {
    exists|i: int| 0 <= i < 26 && #[trigger] a[i] < b[i]
}

impl CharFreq {
    /// Well-formedness: one count per canonical letter.
    pub open spec fn wf(&self) -> bool {
        self@.len() == 26
    }

    /// Wraps a complete per-letter table of counts.
    pub fn new(freqs: CharMap<u8>) -> (r: CharFreq)
        requires
            freqs.wf(),
        ensures
            r@ == freqs@,
            r.wf(),
    {
        CharFreq { freqs }
    }

    /// The all-zero vector.
    pub fn new_empty() -> (r: CharFreq)
        ensures
            r.wf(),
            forall|i: int| 0 <= i < 26 ==> r@[i] == 0u8,
    {
        CharFreq { freqs: CharMap::new_zero() }
    }

    /// The count of one letter.
    pub fn get(&self, ch: NormalizedChar) -> (n: u8)
        requires
            self.wf(),
        ensures
            n == self@[ch.idx()],
    {
        *self.freqs.get(ch)
    }

    /// Replaces the count of one letter.
    pub fn set(&mut self, ch: NormalizedChar, value: u8)
        requires
            old(self).wf(),
        ensures
            final(self)@ == old(self)@.update(ch.idx(), value),
            final(self).wf(),
    {
        self.freqs.set(ch, value);
    }

    /// Raises the count of one letter by one.
    pub fn update(&mut self, ch: NormalizedChar)
        requires
            old(self).wf(),
            old(self)@[ch.idx()] < 255,
        ensures
            final(self)@ == old(self)@.update(ch.idx(), (old(self)@[ch.idx()] + 1) as u8),
            final(self).wf(),
    {
        let n = self.get(ch);
        self.set(ch, n + 1);
    }

    /// Counts every letter of a word.  The counters are one byte
    /// wide, so the word may hold at most 255 letters.
    pub fn from(word: &NormalizedWord) -> (r: CharFreq)
        requires
            word@.len() <= 255,
        ensures
            r.wf(),
            forall|i: int| 0 <= i < 26 ==> #[trigger] r@[i] == letter_count(word@, i),
    {
        let mut res = CharFreq::new_empty();
        let n = word.len();
        let mut k: usize = 0;
        while k < n
            invariant
                k <= n,
                n == word@.len() <= 255,
                res.wf(),
                forall|i: int|
                    0 <= i < 26 ==> #[trigger] res@[i] == letter_count(word@.take(k as int), i),
            decreases n - k,
        {
            let ch = word.char_at(k);
            proof {
                assert(word@.take(k + 1).drop_last() =~= word@.take(k as int));
                assert(word@.take(k + 1).last() == word@[k as int]);
                lemma_letter_count_le_len(word@.take(k as int), ch.idx());
            }
            let cur = res.get(ch);
            res.set(ch, cur + 1);
            proof {
                assert forall|i: int| 0 <= i < 26 implies #[trigger] res@[i] == letter_count(
                    word@.take(k + 1),
                    i,
                ) by {
                    assert(letter_count(word@.take(k + 1), i) == letter_count(
                        word@.take(k as int),
                        i,
                    ) + if ch.idx() == i {
                        1nat
                    } else {
                        0nat
                    });
                }
            }
            k += 1;
        }
        proof {
            assert(word@.take(n as int) =~= word@);
        }
        res
    }

    /// Compares two vectors in one pass over the 26 letters.
    ///
    /// `Same` when every count agrees; `Subset` when this vector sits
    /// pointwise at or below `other` and strictly below somewhere, with
    /// the pointwise difference attached; `Superset` in the mirrored
    /// case; `Unrelated` as soon as both a lower and a higher count
    /// have been seen.
    pub fn compare(self, other: &CharFreq) -> (r: CharFreqComparisonResult)
        requires
            self.wf(),
            other.wf(),
        ensures
            (r is Same) <==> self@ == other@,
            (r is Subset) <==> (counts_le(self@, other@) && counts_lt_somewhere(self@, other@)),
            (r is Superset) <==> (counts_le(other@, self@) && counts_lt_somewhere(other@, self@)),
            (r is Unrelated) <==> (counts_lt_somewhere(self@, other@) && counts_lt_somewhere(
                other@,
                self@,
            )),
            r matches CharFreqComparisonResult::Subset { diff } ==> diff.wf() && (forall|i: int|
                0 <= i < 26 ==> #[trigger] diff@[i] == other@[i] - self@[i]),
            r matches CharFreqComparisonResult::Superset { diff } ==> diff.wf() && (forall|i: int|
                0 <= i < 26 ==> #[trigger] diff@[i] == self@[i] - other@[i]),
    {
        let mut seen_less = false;
        let mut seen_greater = false;
        let mut diff = CharFreq::new_empty();
        let mut k: usize = 0;
        while k < 26
            invariant
                k <= 26,
                self.wf(),
                other.wf(),
                diff.wf(),
                seen_less == (exists|i: int| 0 <= i < k && #[trigger] self@[i] < other@[i]),
                seen_greater == (exists|i: int| 0 <= i < k && #[trigger] self@[i] > other@[i]),
                !(seen_less && seen_greater),
                seen_less ==> forall|i: int|
                    0 <= i < 26 ==> #[trigger] diff@[i] == if i < k {
                        (other@[i] - self@[i]) as int
                    } else {
                        0
                    },
                seen_greater ==> forall|i: int|
                    0 <= i < 26 ==> #[trigger] diff@[i] == if i < k {
                        (self@[i] - other@[i]) as int
                    } else {
                        0
                    },
                !seen_less && !seen_greater ==> forall|i: int|
                    0 <= i < 26 ==> #[trigger] diff@[i] == 0,
                !seen_less && !seen_greater ==> forall|i: int|
                    0 <= i < k ==> #[trigger] self@[i] == other@[i],
            decreases 26 - k,
        {
            let ch = NormalizedChar::from_index(k);
            let a = self.get(ch);
            let b = other.get(ch);
            if a < b {
                if seen_greater {
                    return CharFreqComparisonResult::Unrelated;
                }
                seen_less = true;
                diff.set(ch, b - a);
            } else if a > b {
                if seen_less {
                    return CharFreqComparisonResult::Unrelated;
                }
                seen_greater = true;
                diff.set(ch, a - b);
            }
            k += 1;
        }
        if seen_less {
            assert(self@ != other@) by {
                let i = choose|i: int| 0 <= i < 26 && #[trigger] self@[i] < other@[i];
                assert(self@[i] != other@[i]);
            }
            CharFreqComparisonResult::Subset { diff }
        } else if seen_greater {
            assert(self@ != other@) by {
                let i = choose|i: int| 0 <= i < 26 && #[trigger] self@[i] > other@[i];
                assert(self@[i] != other@[i]);
            }
            CharFreqComparisonResult::Superset { diff }
        } else {
            assert(self@ =~= other@);
            CharFreqComparisonResult::Same
        }
    }
}

} // verus!
