//! An in-memory word index.
//!
//! Words are folded onto a 26-letter canonical alphabet and stored in a
//! 26-ary prefix tree.  Two query families are supported: pattern-constrained
//! lookup (exact letters and single-letter wildcards) and anagram-relationship
//! queries, answered through a prime-product encoding of each word's letter
//! multiset with a letter-frequency vector as the overflow fallback.

pub mod anagram_number;
pub mod char_freq;
pub mod char_map;
pub mod char_match;
pub mod command;
pub mod corpus;
pub mod dictionary;
pub mod normalized_word;
pub mod primes;
pub mod trie;
