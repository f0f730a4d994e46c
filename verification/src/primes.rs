//! The per-letter primes and the arithmetic facts behind the
//! anagram-number encoding.
//!
//! Each canonical letter owns a fixed prime; a word encodes as the
//! product of its letters' primes.  Unique factorization makes the
//! encoding injective over letter multisets: the proofs here build
//! that up from Bezout coefficients and Euclid's lemma.

use vstd::prelude::*;

use crate::char_freq::letter_count;
use crate::normalized_word::NormalizedChar;

verus! {

use vstd::arithmetic::div_mod::lemma_fundamental_div_mod;
use vstd::arithmetic::div_mod::lemma_mod_division_less_than_divisor;
use vstd::arithmetic::div_mod::lemma_mod_multiples_basic;
use vstd::arithmetic::div_mod::lemma_mod_self_0;
use vstd::arithmetic::div_mod::lemma_small_mod;
use vstd::arithmetic::power::lemma_pow_adds;
use vstd::arithmetic::power::lemma_pow_positive;
use vstd::arithmetic::power::pow;

/// The prime assigned to the letter at canonical position `i`.
/// More frequent English letters take smaller primes, so common
/// words stay far from overflow.
pub open spec fn prime_for(i: int) -> int {
    if i == 0 {
        5  // A
    } else if i == 1 {
        71  // B
    } else if i == 2 {
        41  // C
    } else if i == 3 {
        29  // D
    } else if i == 4 {
        2  // E
    } else if i == 5 {
        47  // F
    } else if i == 6 {
        61  // G
    } else if i == 7 {
        23  // H
    } else if i == 8 {
        11  // I
    } else if i == 9 {
        97  // J
    } else if i == 10 {
        79  // K
    } else if i == 11 {
        31  // L
    } else if i == 12 {
        43  // M
    } else if i == 13 {
        13  // N
    } else if i == 14 {
        7  // O
    } else if i == 15 {
        67  // P
    } else if i == 16 {
        89  // Q
    } else if i == 17 {
        19  // R
    } else if i == 18 {
        17  // S
    } else if i == 19 {
        3  // T
    } else if i == 20 {
        37  // U
    } else if i == 21 {
        73  // V
    } else if i == 22 {
        59  // W
    } else if i == 23 {
        83  // X
    } else if i == 24 {
        53  // Y
    } else {
        101  // Z
    }
}

/// The prime of one letter, as an executable value.
pub fn prime_of(ch: NormalizedChar) -> (p: u128)
    ensures
        p == prime_for(ch.idx()),
{
    let table: [u128; 26] = [
        5, 71, 41, 29, 2, 47, 61, 23, 11, 97, 79, 31, 43, 13, 7, 67, 89, 19, 17, 3, 37, 73, 59,
        83, 53, 101,
    ];
    let i = ch.as_index();
    table[i]
}

/// Primality over the integers: at least two, no divisor between
/// one and itself.
pub open spec fn is_prime(p: int) -> bool {
    p >= 2 && forall|d: int| 1 < d < p ==> #[trigger] (p % d) != 0
}

/// Every prime of the table is between 2 and 101.
pub proof fn lemma_prime_for_bounds(i: int)
    ensures
        2 <= prime_for(i) <= 101,
{
}

/// Every entry of the table is prime.
pub proof fn lemma_prime_for_prime(i: int)
    ensures
        is_prime(prime_for(i)),
{
    let p = prime_for(i);
    assert(p == 2 || p == 3 || p == 5 || p == 7 || p == 11 || p == 13 || p == 17 || p == 19 || p
        == 23 || p == 29 || p == 31 || p == 37 || p == 41 || p == 43 || p == 47 || p == 53 || p
        == 59 || p == 61 || p == 67 || p == 71 || p == 73 || p == 79 || p == 83 || p == 89 || p
        == 97 || p == 101);
    assert(forall|q: u8, d: u8|
        ((q == 2 || q == 3 || q == 5 || q == 7 || q == 11 || q == 13 || q == 17 || q == 19 || q
            == 23 || q == 29 || q == 31 || q == 37 || q == 41 || q == 43 || q == 47 || q == 53
            || q == 59 || q == 61 || q == 67 || q == 71 || q == 73 || q == 79 || q == 83 || q
            == 89 || q == 97 || q == 101) && 1 < d && d < q) ==> #[trigger] (q % d) != 0)
        by (bit_vector);
    assert forall|d: int| 1 < d < p implies #[trigger] (p % d) != 0 by {
        let qu = p as u8;
        let du = d as u8;
        assert(qu % du != 0);
        assert(qu == p);
        assert(du == d);
    }
}

/// Distinct table positions carry distinct primes.
pub proof fn lemma_prime_for_distinct(i: int, j: int)
    requires
        0 <= i < 26,
        0 <= j < 26,
        i != j,
    ensures
        prime_for(i) != prime_for(j),
{
}

/// A linear combination of two multiples of `g` is a multiple of `g`.
proof fn lemma_linear_divides(g: int, m: int, n: int, k: int, l: int)
    requires
        g > 0,
        m % g == 0,
        n % g == 0,
    ensures
        (m * k + n * l) % g == 0,
{
    lemma_fundamental_div_mod(m, g);
    lemma_fundamental_div_mod(n, g);
    let a = m / g;
    let b = n / g;
    assert(m * k + n * l == (a * k + b * l) * g) by (nonlinear_arith)
        requires
            m == g * a,
            n == g * b,
    ;
    lemma_mod_multiples_basic(a * k + b * l, g);
}

/// Bezout's identity, by the Euclidean recursion: the returned
/// `(g, x, y)` has `g` a positive common divisor of `a` and `b`
/// with `g == a*x + b*y`.
proof fn lemma_bezout(a: int, b: int) -> (r: (int, int, int))
    requires
        a > 0,
        b >= 0,
    ensures
        r.0 > 0,
        a % r.0 == 0,
        b % r.0 == 0,
        r.0 == a * r.1 + b * r.2,
    decreases b,
{
    if b == 0 {
        lemma_mod_self_0(a);
        assert(0int % a == 0) by {
            lemma_small_mod(0, a as nat);
        }
        assert(a == a * 1 + b * 0) by (nonlinear_arith)
            requires
                b == 0,
        ;
        (a, 1, 0)
    } else {
        lemma_fundamental_div_mod(a, b);
        lemma_mod_division_less_than_divisor(a, b);
        let q = a / b;
        let rem = a % b;
        let (g, x, y) = lemma_bezout(b, rem);
        // g divides b and rem, so it divides a == q*b + rem.
        assert(a % g == 0) by {
            lemma_linear_divides(g, b, rem, q, 1);
            assert(b * q + rem * 1 == a);
        }
        // g == b*x + rem*y and rem == a - q*b give the new coefficients.
        assert(g == a * y + b * (x - q * y)) by (nonlinear_arith)
            requires
                g == b * x + rem * y,
                rem == a - q * b,
        ;
        (g, y, x - q * y)
    }
}

/// A positive divisor of a prime is one or the prime itself.
proof fn lemma_prime_divisors(p: int, g: int)
    requires
        is_prime(p),
        g > 0,
        p % g == 0,
    ensures
        g == 1 || g == p,
{
    if g > p {
        lemma_small_mod(p as nat, g as nat);
    }
}

/// Euclid's lemma: a prime dividing a product divides a factor.
pub proof fn lemma_euclid(p: int, a: int, b: int)
    requires
        is_prime(p),
        a >= 0,
        b >= 0,
        (a * b) % p == 0,
    ensures
        a % p == 0 || b % p == 0,
{
    if a % p != 0 {
        let (g, x, y) = lemma_bezout(p, a);
        lemma_prime_divisors(p, g);
        if g == p {
            // p would divide a, against the case assumption.
            assert(a % p == 0);
        }
        assert(g == 1);
        // b == p*(b*x) + (a*b)*y, and p divides both terms.
        lemma_fundamental_div_mod(a * b, p);
        let k = (a * b) / p;
        assert(b == p * (b * x + k * y)) by (nonlinear_arith)
            requires
                1 == p * x + a * y,
                a * b == p * k,
        ;
        lemma_mod_multiples_basic(b * x + k * y, p);
        assert((b * x + k * y) * p == p * (b * x + k * y)) by (nonlinear_arith);
    }
}

/// Distinct primes do not divide each other.
proof fn lemma_distinct_primes(p: int, q: int)
    requires
        is_prime(p),
        is_prime(q),
        p != q,
    ensures
        q % p != 0,
{
    if p < q {
        assert(q % p != 0);
    } else {
        lemma_small_mod(q as nat, p as nat);
    }
}

/// A prime never divides a power of a different prime.
proof fn lemma_prime_not_divides_pow(p: int, q: int, e: nat)
    requires
        is_prime(p),
        is_prime(q),
        p != q,
    ensures
        pow(q, e) % p != 0,
        pow(q, e) >= 1,
    decreases e,
{
    lemma_pow_positive(q, e);
    if e == 0 {
        reveal(pow);
        lemma_small_mod(1, p as nat);
    } else {
        lemma_prime_not_divides_pow(p, q, (e - 1) as nat);
        reveal(pow);
        assert(pow(q, e) == q * pow(q, (e - 1) as nat));
        if pow(q, e) % p == 0 {
            lemma_euclid(p, q, pow(q, (e - 1) as nat));
            lemma_distinct_primes(p, q);
        }
    }
}


/// The product of the letters' primes over a word, one factor per
/// occurrence: the anagram-number encoding, over the unbounded
/// integers.
pub open spec fn word_product(w: Seq<NormalizedChar>) -> int
    decreases w.len(),
{
    if w.len() == 0 {
        1
    } else {
        word_product(w.drop_last()) * prime_for(w.last().idx())
    }
}

/// The same product grouped by letter: primes raised to the letter
/// counts, over table positions `i` and beyond.
pub open spec fn counts_product_from(c: Seq<nat>, i: int) -> int
    decreases 26 - i,
{
    if i < 0 || i >= 26 {
        1
    } else {
        pow(prime_for(i), c[i]) * counts_product_from(c, i + 1)
    }
}

/// The grouped product over the whole table.
pub open spec fn counts_product(c: Seq<nat>) -> int {
    counts_product_from(c, 0)
}

/// The per-letter counts of a word, as one sequence.
pub open spec fn counts_of(w: Seq<NormalizedChar>) -> Seq<nat> {
    Seq::new(26, |i: int| letter_count(w, i))
}

/// Grouped products are positive.
pub proof fn lemma_counts_product_pos(c: Seq<nat>, i: int)
    ensures
        counts_product_from(c, i) >= 1,
    decreases 26 - i,
{
    if 0 <= i < 26 {
        lemma_counts_product_pos(c, i + 1);
        lemma_prime_for_bounds(i);
        lemma_pow_positive(prime_for(i), c[i]);
        let a = pow(prime_for(i), c[i]);
        let b = counts_product_from(c, i + 1);
        assert(a * b >= 1) by (nonlinear_arith)
            requires
                a >= 1,
                b >= 1,
        ;
    }
}

/// Raising the count of one letter multiplies the grouped product by
/// that letter's prime.
proof fn lemma_counts_product_incr(c: Seq<nat>, j: int, i: int)
    requires
        0 <= j < 26,
        c.len() == 26,
    ensures
        0 <= i <= j ==> counts_product_from(c.update(j, c[j] + 1), i) == counts_product_from(
            c,
            i,
        ) * prime_for(j),
        i > j || i < 0 ==> counts_product_from(c.update(j, c[j] + 1), i) == counts_product_from(
            c,
            i,
        ),
    decreases 26 - i,
{
    let c2 = c.update(j, c[j] + 1);
    if i < 0 || i >= 26 {
    } else {
        lemma_counts_product_incr(c, j, i + 1);
        if i == j {
            assert(c2[i] == c[i] + 1);
            assert(pow(prime_for(i), c[i] + 1) == pow(prime_for(i), c[i]) * prime_for(i)) by {
                lemma_pow_adds(prime_for(i), c[i], 1);
                vstd::arithmetic::power::lemma_pow1(prime_for(i));
            }
            assert(counts_product_from(c2, i) == (pow(prime_for(i), c[i]) * prime_for(i))
                * counts_product_from(c, i + 1));
            assert((pow(prime_for(i), c[i]) * prime_for(i)) * counts_product_from(c, i + 1) == (
            pow(prime_for(i), c[i]) * counts_product_from(c, i + 1)) * prime_for(j))
                by (nonlinear_arith)
                requires
                    i == j,
            ;
        } else if i < j {
            assert(c2[i] == c[i]);
            let a = pow(prime_for(i), c[i]);
            let b = counts_product_from(c, i + 1);
            assert(a * (b * prime_for(j)) == (a * b) * prime_for(j)) by (nonlinear_arith);
        } else {
            assert(c2[i] == c[i]);
        }
    }
}

/// A word's ungrouped and grouped products agree.
pub proof fn lemma_word_product_grouped(w: Seq<NormalizedChar>)
    ensures
        word_product(w) == counts_product(counts_of(w)),
    decreases w.len(),
{
    if w.len() == 0 {
        lemma_counts_product_zero(counts_of(w), 0);
    } else {
        let v = w.drop_last();
        let j = w.last().idx();
        lemma_word_product_grouped(v);
        assert(counts_of(w) =~= counts_of(v).update(j, counts_of(v)[j] + 1));
        lemma_counts_product_incr(counts_of(v), j, 0);
    }
}

/// The grouped product of all-zero counts is one.
proof fn lemma_counts_product_zero(c: Seq<nat>, i: int)
    requires
        forall|k: int| 0 <= k < 26 ==> #[trigger] c[k] == 0,
    ensures
        counts_product_from(c, i) == 1,
    decreases 26 - i,
{
    if 0 <= i < 26 {
        lemma_counts_product_zero(c, i + 1);
        reveal(pow);
    }
}

/// Where a letter occurs, its prime divides the grouped product.
proof fn lemma_counts_product_factor(c: Seq<nat>, j: int, i: int)
    requires
        0 <= i <= j < 26,
        c[j] > 0,
    ensures
        counts_product_from(c, i) % prime_for(j) == 0,
    decreases 26 - i,
{
    let p = prime_for(j);
    lemma_prime_for_bounds(j);
    if i == j {
        vstd::arithmetic::power::lemma_pow_mod(p as nat, c[j]);
        lemma_fundamental_div_mod(pow(p, c[j]), p);
        let k = pow(p, c[j]) / p;
        let rest = counts_product_from(c, i + 1);
        assert(pow(p, c[j]) * rest == (k * rest) * p) by (nonlinear_arith)
            requires
                pow(p, c[j]) == p * k,
        ;
        lemma_mod_multiples_basic(k * rest, p);
    } else {
        lemma_counts_product_factor(c, j, i + 1);
        lemma_fundamental_div_mod(counts_product_from(c, i + 1), p);
        let k = counts_product_from(c, i + 1) / p;
        let a = pow(prime_for(i), c[i]);
        assert(a * counts_product_from(c, i + 1) == (a * k) * p) by (nonlinear_arith)
            requires
                counts_product_from(c, i + 1) == p * k,
        ;
        lemma_mod_multiples_basic(a * k, p);
    }
}

/// Where a letter does not occur at or after position `i`, its prime
/// does not divide that part of the grouped product.
proof fn lemma_counts_product_no_factor(c: Seq<nat>, j: int, i: int)
    requires
        0 <= j < 26,
        c[j] == 0 || j < i,
    ensures
        counts_product_from(c, i) % prime_for(j) != 0,
        counts_product_from(c, i) >= 1,
    decreases 26 - i,
{
    let p = prime_for(j);
    lemma_prime_for_prime(j);
    lemma_counts_product_pos(c, i);
    if i < 0 || i >= 26 {
        lemma_small_mod(1, p as nat);
    } else {
        lemma_counts_product_no_factor(c, j, i + 1);
        let a = pow(prime_for(i), c[i]);
        let rest = counts_product_from(c, i + 1);
        if i == j {
            // c[j] == 0 here, so this factor is one.
            reveal(pow);
            assert(a == 1);
            assert(counts_product_from(c, i) == rest) by (nonlinear_arith)
                requires
                    counts_product_from(c, i) == a * rest,
                    a == 1,
            ;
        } else {
            lemma_prime_for_prime(i);
            lemma_prime_for_distinct(i, j);
            lemma_prime_not_divides_pow(p, prime_for(i), c[i]);
            if counts_product_from(c, i) % p == 0 {
                lemma_euclid(p, a, rest);
            }
        }
    }
}

/// The total count of letters, over table positions `i` and beyond.
pub open spec fn counts_sum_from(c: Seq<nat>, i: int) -> nat
    decreases 26 - i,
{
    if i < 0 || i >= 26 {
        0
    } else {
        c[i] + counts_sum_from(c, i + 1)
    }
}

/// A count vector with zero total is zero everywhere.
proof fn lemma_counts_sum_zero(c: Seq<nat>, i: int, j: int)
    requires
        counts_sum_from(c, i) == 0,
        i <= j < 26,
        0 <= i,
    ensures
        c[j] == 0,
    decreases 26 - i,
{
    if i < j {
        lemma_counts_sum_zero(c, i + 1, j);
    }
}

/// Decrementing a positive count divides the sum and the product by
/// the letter's contribution.
proof fn lemma_counts_sum_decr(c: Seq<nat>, j: int, i: int)
    requires
        0 <= j < 26,
        c.len() == 26,
        c[j] > 0,
    ensures
        0 <= i <= j ==> counts_sum_from(c.update(j, (c[j] - 1) as nat), i) == counts_sum_from(
            c,
            i,
        ) - 1,
        i > j || i < 0 ==> counts_sum_from(c.update(j, (c[j] - 1) as nat), i) == counts_sum_from(
            c,
            i,
        ),
    decreases 26 - i,
{
    if 0 <= i < 26 {
        lemma_counts_sum_decr(c, j, i + 1);
    }
}

/// Raising one count raises the total by one.
proof fn lemma_counts_sum_incr(c: Seq<nat>, j: int, i: int)
    requires
        0 <= j < 26,
        c.len() == 26,
    ensures
        0 <= i <= j ==> counts_sum_from(c.update(j, c[j] + 1), i) == counts_sum_from(c, i) + 1,
        i > j || i < 0 ==> counts_sum_from(c.update(j, c[j] + 1), i) == counts_sum_from(c, i),
    decreases 26 - i,
{
    if 0 <= i < 26 {
        lemma_counts_sum_incr(c, j, i + 1);
    }
}

/// The total of a word's letter counts is the word's length.
pub proof fn lemma_counts_sum_is_len(w: Seq<NormalizedChar>)
    ensures
        counts_sum_from(counts_of(w), 0) == w.len(),
    decreases w.len(),
{
    if w.len() == 0 {
        lemma_counts_sum_all_zero(counts_of(w), 0);
    } else {
        let v = w.drop_last();
        let j = w.last().idx();
        lemma_counts_sum_is_len(v);
        assert(counts_of(w) =~= counts_of(v).update(j, counts_of(v)[j] + 1));
        lemma_counts_sum_incr(counts_of(v), j, 0);
    }
}

/// All-zero counts total zero.
proof fn lemma_counts_sum_all_zero(c: Seq<nat>, i: int)
    requires
        forall|k: int| 0 <= k < 26 ==> #[trigger] c[k] == 0,
    ensures
        counts_sum_from(c, i) == 0,
    decreases 26 - i,
{
    if 0 <= i < 26 {
        lemma_counts_sum_all_zero(c, i + 1);
    }
}

/// If one grouped product divides another, the counts lie pointwise
/// at or below: the heart of unique factorization, by induction on
/// the total count of the divisor.
pub proof fn lemma_counts_product_divides_le(a: Seq<nat>, b: Seq<nat>)
    requires
        a.len() == 26,
        b.len() == 26,
        counts_product(b) % counts_product(a) == 0,
    ensures
        forall|i: int| 0 <= i < 26 ==> #[trigger] a[i] <= b[i],
    decreases counts_sum_from(a, 0),
{
    lemma_counts_product_pos(a, 0);
    lemma_counts_product_pos(b, 0);
    if counts_sum_from(a, 0) == 0 {
        assert forall|i: int| 0 <= i < 26 implies #[trigger] a[i] <= b[i] by {
            lemma_counts_sum_zero(a, 0, i);
        }
    } else {
        let j = choose|j: int| 0 <= j < 26 && a[j] > 0;
        assert(exists|j: int| 0 <= j < 26 && a[j] > 0) by {
            lemma_counts_sum_nonzero_witness(a, 0);
        }
        let p = prime_for(j);
        lemma_prime_for_bounds(j);
        // p divides the divisor, hence the dividend, hence b[j] > 0.
        lemma_counts_product_factor(a, j, 0);
        assert(counts_product(b) % p == 0) by {
            lemma_fundamental_div_mod(counts_product(b), counts_product(a));
            lemma_fundamental_div_mod(counts_product(a), p);
            let m = counts_product(b) / counts_product(a);
            let k = counts_product(a) / p;
            assert(counts_product(b) == (k * m) * p) by (nonlinear_arith)
                requires
                    counts_product(b) == counts_product(a) * m,
                    counts_product(a) == p * k,
            ;
            lemma_mod_multiples_basic(k * m, p);
        }
        if b[j] == 0 {
            lemma_counts_product_no_factor(b, j, 0);
        }
        assert(b[j] > 0);
        // Cancel one occurrence of p on both sides and recurse.
        let a2 = a.update(j, (a[j] - 1) as nat);
        let b2 = b.update(j, (b[j] - 1) as nat);
        assert(a =~= a2.update(j, a2[j] + 1));
        assert(b =~= b2.update(j, b2[j] + 1));
        lemma_counts_product_incr(a2, j, 0);
        lemma_counts_product_incr(b2, j, 0);
        lemma_counts_product_pos(a2, 0);
        lemma_counts_product_pos(b2, 0);
        assert(counts_product(b2) % counts_product(a2) == 0) by {
            lemma_fundamental_div_mod(counts_product(b), counts_product(a));
            let m = counts_product(b) / counts_product(a);
            assert(counts_product(b2) * p == (counts_product(a2) * m) * p) by (nonlinear_arith)
                requires
                    counts_product(b2) * p == counts_product(b),
                    counts_product(a2) * p == counts_product(a),
                    counts_product(b) == counts_product(a) * m,
            ;
            assert(counts_product(b2) == counts_product(a2) * m) by (nonlinear_arith)
                requires
                    counts_product(b2) * p == (counts_product(a2) * m) * p,
                    p >= 2,
            ;
            assert(counts_product(a2) * m == m * counts_product(a2)) by (nonlinear_arith);
            lemma_mod_multiples_basic(m, counts_product(a2));
        }
        lemma_counts_sum_decr(a, j, 0);
        lemma_counts_product_divides_le(a2, b2);
        assert forall|i: int| 0 <= i < 26 implies #[trigger] a[i] <= b[i] by {
            assert(a2[i] <= b2[i]);
        }
    }
}

/// A nonzero total has a positive entry.
proof fn lemma_counts_sum_nonzero_witness(c: Seq<nat>, i: int)
    requires
        0 <= i <= 26,
        counts_sum_from(c, i) > 0,
    ensures
        exists|j: int| i <= j < 26 && c[j] > 0,
    decreases 26 - i,
{
    if i < 26 {
        if c[i] > 0 {
            assert(i <= i < 26 && c[i] > 0);
        } else {
            lemma_counts_sum_nonzero_witness(c, i + 1);
            let j = choose|j: int| i + 1 <= j < 26 && c[j] > 0;
            assert(i <= j < 26 && c[j] > 0);
        }
    }
}

/// Equal grouped products mean equal counts.
pub proof fn lemma_counts_product_injective(a: Seq<nat>, b: Seq<nat>)
    requires
        a.len() == 26,
        b.len() == 26,
        counts_product(a) == counts_product(b),
    ensures
        a =~= b,
{
    lemma_counts_product_pos(a, 0);
    lemma_counts_product_pos(b, 0);
    lemma_mod_self_0(counts_product(a));
    lemma_counts_product_divides_le(a, b);
    lemma_counts_product_divides_le(b, a);
}

/// Pointwise-lower counts make the grouped product a divisor, with
/// the difference vector as the quotient.
pub proof fn lemma_counts_le_divides(a: Seq<nat>, b: Seq<nat>, i: int)
    requires
        a.len() == 26,
        b.len() == 26,
        forall|k: int| 0 <= k < 26 ==> #[trigger] a[k] <= b[k],
    ensures
        counts_product_from(b, i) == counts_product_from(a, i) * counts_product_from(
            Seq::new(26, |k: int| (b[k] - a[k]) as nat),
            i,
        ),
    decreases 26 - i,
{
    let d = Seq::new(26, |k: int| (b[k] - a[k]) as nat);
    if i < 0 || i >= 26 {
    } else {
        lemma_counts_le_divides(a, b, i + 1);
        let p = prime_for(i);
        lemma_pow_adds(p, a[i], d[i]);
        assert(b[i] == a[i] + d[i]);
        let pa = pow(p, a[i]);
        let pd = pow(p, d[i]);
        let ra = counts_product_from(a, i + 1);
        let rd = counts_product_from(d, i + 1);
        assert((pa * pd) * (ra * rd) == (pa * ra) * (pd * rd)) by (nonlinear_arith);
    }
}

/// A grouped product with any positive count is at least two.
pub proof fn lemma_counts_product_gt_one(c: Seq<nat>, j: int, i: int)
    requires
        0 <= i <= j < 26,
        c[j] > 0,
    ensures
        counts_product_from(c, i) >= 2,
    decreases 26 - i,
{
    lemma_prime_for_bounds(i);
    lemma_prime_for_bounds(j);
    lemma_counts_product_pos(c, i + 1);
    lemma_pow_positive(prime_for(i), c[i]);
    if i == j {
        let p = prime_for(i);
        assert(pow(p, c[i]) >= p) by {
            vstd::arithmetic::power::lemma_pow_increases(p as nat, 1, c[i]);
            vstd::arithmetic::power::lemma_pow1(p);
        }
        let a = pow(p, c[i]);
        let b = counts_product_from(c, i + 1);
        assert(a * b >= 2) by (nonlinear_arith)
            requires
                a >= 2,
                b >= 1,
        ;
    } else {
        lemma_counts_product_gt_one(c, j, i + 1);
        let a = pow(prime_for(i), c[i]);
        let b = counts_product_from(c, i + 1);
        assert(a * b >= 2) by (nonlinear_arith)
            requires
                a >= 1,
                b >= 2,
        ;
    }
}

} // verus!
