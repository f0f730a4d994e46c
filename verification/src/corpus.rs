//! A lighter word store: spellings with their letter-frequency
//! vectors, indexed by normalized form.

use vstd::prelude::*;

use crate::char_freq::letter_count;
use crate::char_freq::CharFreq;
use crate::normalized_word::normalize_seq;
use crate::normalized_word::NormalizedChar;
use crate::normalized_word::NormalizedWord;
use crate::trie::Trie;

verus! {

/// One stored spelling with its precomputed letter counts.
pub struct CorpusEntry {
    char_freq: CharFreq,
    original: String,
}

impl CorpusEntry {
    /// The normalized spelling this entry is indexed under.
    pub closed spec fn norm(self) -> Seq<NormalizedChar> {
        normalize_seq(self.original@)
    }

    /// The stored spelling.
    pub closed spec fn original_spec(self) -> Seq<char> {
        self.original@
    }

    /// The frequency vector counts the normalized spelling.
    pub closed spec fn wf(self) -> bool {
        &&& self.char_freq.wf()
        &&& forall|i: int|
            0 <= i < 26 ==> #[trigger] self.char_freq@[i] == letter_count(self.norm(), i)
    }

    /// The stored spelling.
    pub fn original(&self) -> (s: &String)
        ensures
            s@ == self.original_spec(),
    {
        &self.original
    }

    /// The per-letter counts of the normalized spelling.
    pub fn char_freq(&self) -> (f: &CharFreq)
        requires
            self.wf(),
        ensures
            f.wf(),
            forall|i: int| 0 <= i < 26 ==> #[trigger] f@[i] == letter_count(self.norm(), i),
    {
        &self.char_freq
    }
}

/// A collection of spellings, indexed by normalized form.
pub struct Corpus {
    trie: Trie<CorpusEntry>,
}

impl Corpus {
    /// The entries stored under one normalized spelling.
    pub closed spec fn entries_at(self, k: Seq<NormalizedChar>) -> Seq<CorpusEntry> {
        self.trie.terminals_at(k)
    }

    /// Whether the store has a node for this normalized spelling.
    pub closed spec fn has_word(self, k: Seq<NormalizedChar>) -> bool {
        self.trie.has_node(k)
    }

    /// Well-formedness: every entry sits under its own normalized
    /// spelling with consistent counts.
    pub closed spec fn wf(self) -> bool {
        &&& self.trie.wf()
        &&& forall|k: Seq<NormalizedChar>, j: int|
            0 <= j < self.trie.terminals_at(k).len() ==> ((#[trigger] self.trie.terminals_at(
                k,
            )[j]).wf() && self.trie.terminals_at(k)[j].norm() == k)
    }

    /// An empty store.
    pub fn new() -> (c: Corpus)
        ensures
            c.wf(),
            forall|k: Seq<NormalizedChar>|
                #[trigger] c.entries_at(k) == Seq::<CorpusEntry>::empty(),
    {
        Corpus { trie: Trie::empty() }
    }

    /// Stores one spelling under its normalized form, appending to
    /// any entries already there.
    pub fn add(&mut self, original: String)
        requires
            old(self).wf(),
            normalize_seq(original@).len() <= 255,
        ensures
            final(self).wf(),
            final(self).entries_at(normalize_seq(original@)).len() == old(self).entries_at(
                normalize_seq(original@),
            ).len() + 1,
            final(self).entries_at(normalize_seq(original@)).last().original_spec() == original@,
            forall|k: Seq<NormalizedChar>|
                k != normalize_seq(original@) ==> #[trigger] final(self).entries_at(k) == old(
                    self,
                ).entries_at(k),
    {
        let normalized = NormalizedWord::from_str(original.as_str());
        let char_freq = CharFreq::from(&normalized);
        let entry = CorpusEntry { char_freq, original };
        proof {
            assert(entry.wf());
        }
        let ghost nw = normalized@;
        let ghost pre = self.trie;
        self.trie.add(&normalized, entry);
        proof {
            let post = *final(self);
            assert forall|k: Seq<NormalizedChar>, j: int|
                0 <= j < post.trie.terminals_at(k).len() implies ((
            #[trigger] post.trie.terminals_at(k)[j]).wf() && post.trie.terminals_at(k)[j].norm()
                == k) by {
                if k == nw {
                    if j < pre.terminals_at(nw).len() {
                        assert(pre.terminals_at(k)[j].wf());
                    }
                } else {
                    assert(post.trie.terminals_at(k) == pre.terminals_at(k));
                    assert(pre.terminals_at(k)[j].wf());
                }
            }
            assert(post.wf());
        }
    }

    /// Looks up the exact normalized spelling.
    pub fn find(&self, word: &NormalizedWord) -> (r: Option<&Vec<CorpusEntry>>)
        requires
            self.wf(),
        ensures
            match r {
                Some(v) => self.has_word(word@) && v@ == self.entries_at(word@),
                None => !self.has_word(word@),
            },
    {
        self.trie.get(word)
    }
}

} // verus!
