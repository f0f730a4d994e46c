//! The anagram-number encoding: a word as the product of its
//! letters' primes.
//!
//! Equal products mean equal letter multisets, and divisibility means
//! multiset inclusion; both facts are proved here from unique
//! factorization.  Construction detects overflow instead of wrapping.

use vstd::prelude::*;

use crate::char_freq::letter_count;
use crate::normalized_word::NormalizedChar;
use crate::normalized_word::NormalizedWord;
use crate::primes::counts_of;
use crate::primes::counts_product;
use crate::primes::lemma_counts_le_divides;
use crate::primes::lemma_counts_product_divides_le;
use crate::primes::lemma_counts_product_gt_one;
use crate::primes::lemma_counts_product_injective;
use crate::primes::lemma_counts_product_pos;
use crate::primes::lemma_word_product_grouped;
use crate::primes::prime_for;
use crate::primes::prime_of;
use crate::primes::word_product;

verus! {

use vstd::arithmetic::div_mod::lemma_fundamental_div_mod;
use vstd::arithmetic::div_mod::lemma_mod_multiples_basic;

/// A word's letter multiset, encoded as one unsigned integer: the
/// product of the per-letter primes over the word's letters.
#[derive(Debug, PartialEq, Eq, Structural, Clone, Copy)]
pub struct AnagramNumber(u128);

/// How two anagram numbers relate: the same multiset, one a strict
/// sub-multiset of the other, or neither.  `Superset` says the other
/// word's letters strictly contain this word's.
#[derive(Debug, PartialEq, Eq, Structural, Clone, Copy)]
pub enum AnagramComparison {
    Exact,
    Unrelated,
    Subset,
    Superset,
}

/// Construction failed: the word's prime product exceeds the integer
/// width.  The word has no anagram number; callers fall back to the
/// letter-frequency vector.
#[derive(Debug, PartialEq, Eq, Structural, Clone, Copy)]
pub struct AnagramNumberOverflow;

impl AnagramNumber {
    /// The encoded product.
    pub closed spec fn val(self) -> u128 {
        self.0
    }

    /// Every anagram number is a product of primes, so at least one.
    #[verifier::type_invariant]
    spec fn type_inv(self) -> bool {
        self.0 >= 1
    }

    /// The anagram number holding a given encoded value.
    pub closed spec fn of_val(v: u128) -> AnagramNumber {
        AnagramNumber(v)
    }

    /// `of_val` names the number by its value.
    pub proof fn lemma_of_val(v: u128)
        ensures
            AnagramNumber::of_val(v).val() == v,
    {
    }

    /// The encoded value determines the number.
    pub proof fn lemma_val_injective(a: AnagramNumber, b: AnagramNumber)
        requires
            a.val() == b.val(),
        ensures
            a == b,
    {
    }

    /// The encoded product, as an executable value.
    pub fn value(&self) -> (v: u128)
        ensures
            v == self.val(),
    {
        self.0
    }

    /// Encodes a word, multiplying one prime per letter under checked
    /// arithmetic.  Returns the overflow signal exactly when the full
    /// product exceeds the integer width; the limit depends on the
    /// word's letters, not on a fixed length.
    pub fn try_from(word: &NormalizedWord) -> (r: Result<AnagramNumber, AnagramNumberOverflow>)
        ensures
            match r {
                Ok(n) => {
                    &&& n.val() == word_product(word@)
                    &&& word_product(word@) <= u128::MAX
                },
                Err(_) => word_product(word@) > u128::MAX,
            },
    {
        let mut x: u128 = 1;
        let n = word.len();
        proof {
            assert(word@.take(0) =~= Seq::<NormalizedChar>::empty());
        }
        let mut k: usize = 0;
        while k < n
            invariant
                k <= n,
                n == word@.len(),
                x == word_product(word@.take(k as int)),
                x >= 1,
            decreases n - k,
        {
            let ch = word.char_at(k);
            let p = prime_of(ch);
            proof {
                lemma_word_product_take_succ(word@, k as int);
                crate::primes::lemma_prime_for_bounds(ch.idx());
            }
            match x.checked_mul(p) {
                Some(y) => {
                    proof {
                        assert(y >= 1) by (nonlinear_arith)
                            requires
                                y == x * p,
                                x >= 1,
                                p >= 2,
                        ;
                    }
                    x = y;
                },
                None => {
                    proof {
                        lemma_word_product_ge(word@, k + 1);
                    }
                    return Err(AnagramNumberOverflow);
                },
            }
            k += 1;
        }
        proof {
            assert(word@.take(n as int) =~= word@);
        }
        Ok(AnagramNumber(x))
    }

    /// Compares two encoded words by three integer operations:
    /// equality means the same letter multiset; a divisor is a
    /// sub-multiset, a multiple a super-multiset; anything else is
    /// unrelated.
    pub fn compare(&self, other: AnagramNumber) -> (r: AnagramComparison)
        ensures
            (r is Exact) <==> self.val() == other.val(),
            (r is Superset) <==> (self.val() < other.val() && other.val() % self.val() == 0),
            (r is Subset) <==> (self.val() > other.val() && self.val() % other.val() == 0),
            (r is Unrelated) <==> !(self.val() == other.val() || (self.val() < other.val()
                && other.val() % self.val() == 0) || (self.val() > other.val() && self.val()
                % other.val() == 0)),
    {
        proof {
            use_type_invariant(self);
            use_type_invariant(other);
        }
        if self.0 == other.0 {
            AnagramComparison::Exact
        } else if self.0 < other.0 && other.0 % self.0 == 0 {
            AnagramComparison::Superset
        } else if self.0 > other.0 && self.0 % other.0 == 0 {
            AnagramComparison::Subset
        } else {
            AnagramComparison::Unrelated
        }
    }
}

/// One more letter multiplies the running product by its prime.
proof fn lemma_word_product_take_succ(w: Seq<NormalizedChar>, k: int)
    requires
        0 <= k < w.len(),
    ensures
        word_product(w.take(k + 1)) == word_product(w.take(k)) * prime_for(w[k].idx()),
{
    assert(w.take(k + 1).drop_last() =~= w.take(k));
    assert(w.take(k + 1).last() == w[k]);
}

/// Products of primes are positive.
pub proof fn lemma_word_product_pos(w: Seq<NormalizedChar>)
    ensures
        word_product(w) >= 1,
    decreases w.len(),
{
    if w.len() > 0 {
        lemma_word_product_pos(w.drop_last());
        crate::primes::lemma_prime_for_bounds(w.last().idx());
        let a = word_product(w.drop_last());
        let p = prime_for(w.last().idx());
        assert(a * p >= 1) by (nonlinear_arith)
            requires
                a >= 1,
                p >= 2,
        ;
    }
}

/// A word's product is no smaller than any prefix's product.
proof fn lemma_word_product_ge(w: Seq<NormalizedChar>, k: int)
    requires
        0 <= k <= w.len(),
    ensures
        word_product(w) >= word_product(w.take(k)),
    decreases w.len() - k,
{
    if k < w.len() {
        lemma_word_product_take_succ(w, k);
        lemma_word_product_ge(w, k + 1);
        lemma_word_product_pos(w.take(k));
        crate::primes::lemma_prime_for_bounds(w[k].idx());
        let a = word_product(w.take(k));
        let p = prime_for(w[k].idx());
        assert(a * p >= a) by (nonlinear_arith)
            requires
                a >= 1,
                p >= 2,
        ;
    } else {
        assert(w.take(k) =~= w);
    }
}

/// Two words' prime products are equal exactly when every canonical
/// letter occurs equally often in both: the anagram-number encoding
/// and the letter-frequency vector agree on "same multiset".
pub proof fn lemma_exact_iff_equal_counts(w1: Seq<NormalizedChar>, w2: Seq<NormalizedChar>)
    ensures
        (word_product(w1) == word_product(w2)) <==> (forall|i: int|
            0 <= i < 26 ==> #[trigger] letter_count(w1, i) == letter_count(w2, i)),
{
    lemma_word_product_grouped(w1);
    lemma_word_product_grouped(w2);
    if word_product(w1) == word_product(w2) {
        lemma_counts_product_injective(counts_of(w1), counts_of(w2));
        assert forall|i: int| 0 <= i < 26 implies #[trigger] letter_count(w1, i) == letter_count(
            w2,
            i,
        ) by {
            assert(counts_of(w1)[i] == counts_of(w2)[i]);
        }
    }
    if forall|i: int| 0 <= i < 26 ==> #[trigger] letter_count(w1, i) == letter_count(w2, i) {
        assert(counts_of(w1) =~= counts_of(w2));
    }
}

/// One word's prime product strictly divides another's exactly when
/// its letters form a strict sub-multiset: the divisibility test and
/// the letter-frequency comparison classify sub- and super-anagrams
/// alike.
pub proof fn lemma_divides_iff_counts_below(w1: Seq<NormalizedChar>, w2: Seq<NormalizedChar>)
    ensures
        (word_product(w1) < word_product(w2) && word_product(w2) % word_product(w1) == 0) <==> ((
        forall|i: int| 0 <= i < 26 ==> #[trigger] letter_count(w1, i) <= letter_count(w2, i)) && (
        exists|i: int| 0 <= i < 26 && #[trigger] letter_count(w1, i) < letter_count(w2, i))),
{
    lemma_word_product_grouped(w1);
    lemma_word_product_grouped(w2);
    let c1 = counts_of(w1);
    let c2 = counts_of(w2);
    lemma_counts_product_pos(c1, 0);
    lemma_counts_product_pos(c2, 0);
    if word_product(w1) < word_product(w2) && word_product(w2) % word_product(w1) == 0 {
        lemma_counts_product_divides_le(c1, c2);
        assert forall|i: int| 0 <= i < 26 implies #[trigger] letter_count(w1, i) <= letter_count(
            w2,
            i,
        ) by {
            assert(c1[i] <= c2[i]);
        }
        assert(exists|i: int| 0 <= i < 26 && #[trigger] letter_count(w1, i) < letter_count(w2, i))
            by {
            if forall|i: int| 0 <= i < 26 ==> #[trigger] letter_count(w1, i) >= letter_count(
                w2,
                i,
            ) {
                assert(c1 =~= c2);
                assert(word_product(w1) == word_product(w2));
            }
        }
    }
    if ((forall|i: int| 0 <= i < 26 ==> #[trigger] letter_count(w1, i) <= letter_count(w2, i)) && (
    exists|i: int| 0 <= i < 26 && #[trigger] letter_count(w1, i) < letter_count(w2, i))) {
        assert forall|k: int| 0 <= k < 26 implies #[trigger] c1[k] <= c2[k] by {
            assert(letter_count(w1, k) <= letter_count(w2, k));
        }
        lemma_counts_le_divides(c1, c2, 0);
        let d = Seq::new(26, |k: int| (c2[k] - c1[k]) as nat);
        let j = choose|i: int| 0 <= i < 26 && #[trigger] letter_count(w1, i) < letter_count(w2, i);
        assert(d[j] > 0);
        lemma_counts_product_gt_one(d, j, 0);
        let dp = crate::primes::counts_product_from(d, 0);
        assert(counts_product(c2) % counts_product(c1) == 0) by {
            assert(counts_product(c1) * dp == dp * counts_product(c1)) by (nonlinear_arith);
            lemma_mod_multiples_basic(dp, counts_product(c1));
        }
        assert(counts_product(c2) > counts_product(c1)) by (nonlinear_arith)
            requires
                counts_product(c2) == counts_product(c1) * crate::primes::counts_product_from(
                    d,
                    0,
                ),
                counts_product(c1) >= 1,
                crate::primes::counts_product_from(d, 0) >= 2,
        ;
    }
}

} // verus!
