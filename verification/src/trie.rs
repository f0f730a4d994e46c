//! The 26-ary prefix tree and its lazy, constraint-pruned traversal.

use vstd::prelude::*;

use crate::char_match::CharMatch;
use crate::normalized_word::NormalizedChar;
use crate::normalized_word::NormalizedWord;

verus! {

use vstd::pervasive::VecAdditionalExecFns;

/// A prefix tree keyed by canonical letters.
///
/// Each node owns up to 26 children, one per canonical letter, and an
/// ordered list of payloads ("terminals") for the words ending there.
/// The same spelling may be inserted many times; its payloads keep
/// insertion order.  Nodes are never removed.
#[derive(Debug, PartialEq)]
pub struct Trie<T> {
    children: Vec<Option<Box<Trie<T>>>>,
    terminals: Vec<T>,
}

impl<T> Trie<T> {
    /// Well-formedness: every node of the tree holds one child slot
    /// per canonical letter.
    pub closed spec fn wf(self) -> bool
        decreases self,
    {
        &&& self.children@.len() == 26
        &&& forall|i: int|
            0 <= i < 26 ==> match #[trigger] self.children@[i] {
                Some(c) => c.wf(),
                None => true,
            }
    }

    /// The node that `key` leads to, walking one child per letter.
    pub closed spec fn subtrie(self, key: Seq<NormalizedChar>) -> Option<Trie<T>>
        decreases key.len(),
    {
        if key.len() == 0 {
            Some(self)
        } else {
            match self.children@[key[0].idx()] {
                None => None,
                Some(c) => c.subtrie(key.drop_first()),
            }
        }
    }

    /// Whether the tree has a node at exactly this key.
    pub closed spec fn has_node(self, key: Seq<NormalizedChar>) -> bool {
        self.subtrie(key) is Some
    }

    /// The payloads stored at this key, in insertion order; empty
    /// where no node exists.
    pub closed spec fn terminals_at(self, key: Seq<NormalizedChar>) -> Seq<T> {
        match self.subtrie(key) {
            None => Seq::empty(),
            Some(t) => t.terminals@,
        }
    }

    /// A tree of one empty node: no terminals anywhere, no children.
    pub fn empty() -> (r: Trie<T>)
        ensures
            r.wf(),
            forall|k: Seq<NormalizedChar>| #[trigger] r.has_node(k) <==> k.len() == 0,
            forall|k: Seq<NormalizedChar>| #[trigger] r.terminals_at(k) == Seq::<T>::empty(),
    {
        let mut children: Vec<Option<Box<Trie<T>>>> = Vec::new();
        let mut i: usize = 0;
        while i < 26
            invariant
                i <= 26,
                children@.len() == i,
                forall|j: int| 0 <= j < i ==> children@[j] is None,
            decreases 26 - i,
        {
            children.push(None);
            i += 1;
        }
        let r = Trie { children, terminals: Vec::new() };
        proof {
            assert forall|k: Seq<NormalizedChar>| r.has_node(k) <==> k.len() == 0 by {
                if k.len() > 0 {
                    assert(r.children@[k[0].idx()] is None);
                }
            }
            assert forall|k: Seq<NormalizedChar>| r.terminals_at(k) == Seq::<T>::empty() by {
                if k.len() > 0 {
                    assert(r.children@[k[0].idx()] is None);
                }
                assert(r.terminals@ =~= Seq::<T>::empty());
            }
        }
        r
    }

    /// Inserts `value` at the end of the terminal list of `key`,
    /// creating the path where it is missing.  Every other key keeps
    /// its node and its payloads untouched.
    pub fn add(&mut self, key: &NormalizedWord, value: T)
        requires
            old(self).wf(),
        ensures
            final(self).wf(),
            forall|k: Seq<NormalizedChar>|
                #[trigger] final(self).has_node(k) <==> (old(self).has_node(k) || k.is_prefix_of(
                    key@,
                )),
            final(self).terminals_at(key@) == old(self).terminals_at(key@).push(value),
            forall|k: Seq<NormalizedChar>|
                k != key@ ==> #[trigger] final(self).terminals_at(k) == old(self).terminals_at(k),
    {
        self.add_rec(key, 0, value);
        proof {
            assert(key@.skip(0) =~= key@);
            assert forall|k: Seq<NormalizedChar>|
                final(self).has_node(k) <==> (old(self).has_node(k) || k.is_prefix_of(key@)) by {
                assert(final(self).has_node(k) <==> (old(self).has_node(k) || k.is_prefix_of(
                    key@.skip(0),
                )));
            }
            assert forall|k: Seq<NormalizedChar>| k != key@ implies final(self).terminals_at(k)
                == old(self).terminals_at(k) by {
                assert(k != key@.skip(0));
            }
        }
    }

    /// Inserts a raw spelling: the word is normalized first.
    pub fn add_string(&mut self, s: &str, value: T)
        requires
            old(self).wf(),
        ensures
            final(self).wf(),
            forall|k: Seq<NormalizedChar>|
                #[trigger] final(self).has_node(k) <==> (old(self).has_node(k) || k.is_prefix_of(
                    crate::normalized_word::normalize_seq(s@),
                )),
            final(self).terminals_at(crate::normalized_word::normalize_seq(s@)) == old(
                self,
            ).terminals_at(crate::normalized_word::normalize_seq(s@)).push(value),
            forall|k: Seq<NormalizedChar>|
                k != crate::normalized_word::normalize_seq(s@)
                    ==> #[trigger] final(self).terminals_at(k) == old(self).terminals_at(k),
    {
        let nw = NormalizedWord::from_str_safe(s);
        self.add(&nw, value);
        proof {
            let w = crate::normalized_word::normalize_seq(s@);
            assert forall|k: Seq<NormalizedChar>|
                final(self).has_node(k) <==> (old(self).has_node(k) || k.is_prefix_of(w)) by {
                assert(final(self).has_node(k) <==> (old(self).has_node(k) || k.is_prefix_of(
                    nw@,
                )));
            }
            assert forall|k: Seq<NormalizedChar>| k != w implies final(self).terminals_at(k)
                == old(self).terminals_at(k) by {
                assert(k != nw@);
            }
        }
    }

    /// The recursion behind `add`: inserts at the key suffix that
    /// starts at position `i`.
    fn add_rec(&mut self, key: &NormalizedWord, i: usize, value: T)
        requires
            old(self).wf(),
            i <= key@.len(),
        ensures
            final(self).wf(),
            forall|k: Seq<NormalizedChar>|
                #[trigger] final(self).has_node(k) <==> (old(self).has_node(k) || k.is_prefix_of(
                    key@.skip(i as int),
                )),
            final(self).terminals_at(key@.skip(i as int)) == old(self).terminals_at(
                key@.skip(i as int),
            ).push(value),
            forall|k: Seq<NormalizedChar>|
                k != key@.skip(i as int)
                    ==> #[trigger] final(self).terminals_at(k) == old(self).terminals_at(k),
        decreases key@.len() - i,
    {
        let ghost suffix = key@.skip(i as int);
        if i == key.len() {
            self.terminals.push(value);
            proof {
                assert(suffix =~= Seq::<NormalizedChar>::empty());
                assert forall|k: Seq<NormalizedChar>|
                    final(self).has_node(k) <==> (old(self).has_node(k) || k.is_prefix_of(
                        suffix,
                    )) by {
                    lemma_subtrie_same_shape(*old(self), *final(self), k);
                    if k.is_prefix_of(suffix) {
                        assert(k.len() == 0);
                    }
                }
                assert forall|k: Seq<NormalizedChar>| k != suffix implies final(self).terminals_at(
                    k,
                ) == old(self).terminals_at(k) by {
                    if k.len() == 0 {
                        assert(k =~= suffix);
                    }
                    lemma_subtrie_same_shape(*old(self), *final(self), k);
                }
                assert(final(self).terminals_at(suffix) =~= old(self).terminals_at(suffix).push(
                    value,
                ));
            }
        } else {
            let ch = key.char_at(i);
            let idx = ch.as_index();
            let mut child_slot: Option<Box<Trie<T>>> = None;
            self.children.set_and_swap(idx, &mut child_slot);
            let mut child: Box<Trie<T>> = match child_slot {
                Some(c) => c,
                None => Box::new(Trie::empty()),
            };
            let ghost old_child = *child;
            (&mut *child).add_rec(key, i + 1, value);
            self.children.set(idx, Some(child));
            proof {
                let ghost sub = key@.skip(i + 1);
                assert(suffix[0] == ch);
                assert(suffix.drop_first() =~= sub);
                assert(suffix =~= seq![ch] + sub);
                assert(final(self).children@ =~= old(self).children@.update(
                    ch.idx(),
                    final(self).children@[ch.idx()],
                ));
                lemma_add_step(*old(self), *final(self), old_child, ch, sub, value, key@, i as int);
            }
        }
    }

    /// Looks up the exact spelling: the payload list where the key's
    /// node exists, distinguishing an absent node from a node with no
    /// payloads.
    pub fn get(&self, key: &NormalizedWord) -> (r: Option<&Vec<T>>)
        requires
            self.wf(),
        ensures
            match r {
                Some(v) => self.has_node(key@) && v@ == self.terminals_at(key@),
                None => !self.has_node(key@),
            },
    {
        let mut node: &Trie<T> = self;
        let n = key.len();
        proof {
            assert(key@.skip(0) =~= key@);
        }
        let mut i: usize = 0;
        while i < n
            invariant
                i <= n,
                n == key@.len(),
                node.wf(),
                self.subtrie(key@) == node.subtrie(key@.skip(i as int)),
            decreases n - i,
        {
            let ghost suffix = key@.skip(i as int);
            let ch = key.char_at(i);
            let idx = ch.as_index();
            proof {
                assert(suffix[0] == ch);
                assert(suffix.drop_first() =~= key@.skip(i + 1));
            }
            match &node.children[idx] {
                None => {
                    return None;
                },
                Some(c) => {
                    node = &*c;
                },
            }
            i += 1;
        }
        proof {
            assert(key@.skip(n as int) =~= Seq::<NormalizedChar>::empty());
        }
        Some(&node.terminals)
    }
}

/// Two trees with the same children everywhere have the same nodes;
/// their terminals can differ only at the root.
proof fn lemma_subtrie_same_shape<T>(a: Trie<T>, b: Trie<T>, k: Seq<NormalizedChar>)
    requires
        a.children@ == b.children@,
    ensures
        a.has_node(k) <==> b.has_node(k),
        k.len() > 0 ==> a.terminals_at(k) == b.terminals_at(k),
    decreases k.len(),
{
    if k.len() > 0 {
        match a.children@[k[0].idx()] {
            None => {},
            Some(c) => {
                assert(a.subtrie(k) == c.subtrie(k.drop_first()));
                assert(b.subtrie(k) == c.subtrie(k.drop_first()));
            },
        }
    }
}

/// How one `add_rec` step at child `ch` changes the tree: keys that
/// do not pass through `ch` are untouched, and keys that do inherit
/// the child's change.
proof fn lemma_add_step<T>(
    pre: Trie<T>,
    post: Trie<T>,
    old_child: Trie<T>,
    ch: NormalizedChar,
    sub: Seq<NormalizedChar>,
    value: T,
    key: Seq<NormalizedChar>,
    i: int,
)
    requires
        pre.wf(),
        post.children@.len() == 26,
        post.terminals@ == pre.terminals@,
        0 <= i < key.len(),
        key[i] == ch,
        sub == key.skip(i + 1),
        key.skip(i) == seq![ch] + sub,
        post.children@ == pre.children@.update(ch.idx(), post.children@[ch.idx()]),
        post.children@[ch.idx()] is Some,
        (post.children@[ch.idx()]->0).wf(),
        pre.children@[ch.idx()] is Some ==> old_child == *(pre.children@[ch.idx()]->0),
        pre.children@[ch.idx()] is None ==> (old_child.children@.len() == 26 && (forall|
            k: Seq<NormalizedChar>,
        |
            old_child.has_node(k) <==> k.len() == 0) && (forall|k: Seq<NormalizedChar>|
            old_child.terminals_at(k) == Seq::<T>::empty())),
        forall|k: Seq<NormalizedChar>|
            (post.children@[ch.idx()]->0).has_node(k) <==> (old_child.has_node(k)
                || k.is_prefix_of(sub)),
        (post.children@[ch.idx()]->0).terminals_at(sub) == old_child.terminals_at(sub).push(value),
        forall|k: Seq<NormalizedChar>|
            k != sub ==> (post.children@[ch.idx()]->0).terminals_at(k) == old_child.terminals_at(
                k,
            ),
    ensures
        post.wf(),
        forall|k: Seq<NormalizedChar>|
            #[trigger] post.has_node(k) <==> (pre.has_node(k) || k.is_prefix_of(key.skip(i))),
        post.terminals_at(key.skip(i)) == pre.terminals_at(key.skip(i)).push(value),
        forall|k: Seq<NormalizedChar>|
            k != key.skip(i) ==> #[trigger] post.terminals_at(k) == pre.terminals_at(k),
{
    let suffix = key.skip(i);
    let new_child = post.children@[ch.idx()]->0;
    assert(post.wf()) by {
        assert forall|j: int| 0 <= j < 26 implies match #[trigger] post.children@[j] {
            Some(c) => c.wf(),
            None => true,
        } by {
            if j != ch.idx() {
                assert(post.children@[j] == pre.children@[j]);
            }
        }
    }
    assert(suffix.len() > 0);
    assert(suffix[0] == ch);
    assert(suffix.drop_first() =~= sub);

    // Walks on `post` versus `pre`, key by key.
    assert forall|k: Seq<NormalizedChar>| #![trigger post.subtrie(k)]
        post.has_node(k) <==> (pre.has_node(k) || k.is_prefix_of(suffix)) by {
        if k.len() == 0 {
            assert(k.is_prefix_of(suffix));
        } else {
            let j = k[0].idx();
            if j == ch.idx() {
                assert(post.subtrie(k) == new_child.subtrie(k.drop_first()));
                assert(new_child.has_node(k.drop_first()) <==> (old_child.has_node(k.drop_first())
                    || k.drop_first().is_prefix_of(sub)));
                if pre.children@[j] is Some {
                    assert(pre.subtrie(k) == old_child.subtrie(k.drop_first()));
                } else {
                    assert(!pre.has_node(k));
                    assert(old_child.has_node(k.drop_first()) <==> k.drop_first().len() == 0);
                    if k.drop_first().len() == 0 {
                        assert(k =~= seq![k[0]]);
                        assert(k.is_prefix_of(suffix));
                    }
                }
                assert(k.is_prefix_of(suffix) <==> k.drop_first().is_prefix_of(sub)) by {
                    if k.is_prefix_of(suffix) {
                        assert(k.drop_first() =~= k.skip(1));
                        assert(suffix.take(k.len() as int).drop_first() =~= sub.take(
                            k.len() - 1,
                        ));
                        assert(k.drop_first().is_prefix_of(sub));
                    }
                    if k.drop_first().is_prefix_of(sub) {
                        assert(k =~= seq![k[0]] + k.drop_first());
                        assert(suffix.take(k.len() as int) =~= seq![ch] + sub.take(k.len() - 1));
                        assert(k.is_prefix_of(suffix));
                    }
                }
            } else {
                assert(post.children@[j] == pre.children@[j]);
                assert(post.subtrie(k) == pre.subtrie(k));
                assert(!k.is_prefix_of(suffix)) by {
                    if k.is_prefix_of(suffix) {
                        assert(k[0] == suffix[0]);
                    }
                }
            }
        }
    }
    assert forall|k: Seq<NormalizedChar>| #![trigger post.terminals_at(k)] k != suffix
        implies post.terminals_at(k) == pre.terminals_at(k) by {
        if k.len() == 0 {
            assert(post.subtrie(k) == Some(post));
            assert(pre.subtrie(k) == Some(pre));
        } else {
            let j = k[0].idx();
            if j == ch.idx() {
                assert(post.subtrie(k) == new_child.subtrie(k.drop_first()));
                assert(k.drop_first() != sub) by {
                    if k.drop_first() == sub {
                        assert(k =~= seq![k[0]] + k.drop_first());
                        assert(k =~= suffix);
                    }
                }
                assert(new_child.terminals_at(k.drop_first()) == old_child.terminals_at(
                    k.drop_first(),
                ));
                if pre.children@[j] is Some {
                    assert(pre.subtrie(k) == old_child.subtrie(k.drop_first()));
                } else {
                    assert(!pre.has_node(k));
                    assert(old_child.terminals_at(k.drop_first()) == Seq::<T>::empty());
                    assert(pre.terminals_at(k) =~= Seq::<T>::empty());
                }
            } else {
                assert(post.children@[j] == pre.children@[j]);
                assert(post.subtrie(k) == pre.subtrie(k));
            }
        }
    }
    assert(post.terminals_at(suffix) == pre.terminals_at(suffix).push(value)) by {
        assert(post.subtrie(suffix) == new_child.subtrie(sub));
        assert(new_child.terminals_at(sub) == old_child.terminals_at(sub).push(value));
        if pre.children@[ch.idx()] is Some {
            assert(pre.subtrie(suffix) == old_child.subtrie(sub));
            if old_child.subtrie(sub) is None {
                assert(pre.terminals_at(suffix) =~= Seq::<T>::empty());
                assert(old_child.terminals_at(sub) =~= Seq::<T>::empty());
                assert(new_child.has_node(sub));
            }
        } else {
            assert(!pre.has_node(suffix));
            assert(pre.terminals_at(suffix) =~= Seq::<T>::empty());
            assert(old_child.terminals_at(sub) =~= Seq::<T>::empty());
        }
    }
    assert forall|k: Seq<NormalizedChar>|
        post.has_node(k) <==> (pre.has_node(k) || k.is_prefix_of(key.skip(i))) by {
        assert(post.has_node(k) <==> (pre.has_node(k) || k.is_prefix_of(suffix)));
    }
    assert forall|k: Seq<NormalizedChar>| k != key.skip(i) implies post.terminals_at(k)
        == pre.terminals_at(k) by {
        assert(k != suffix);
        assert(post.terminals_at(k) == pre.terminals_at(k));
    }
    assert(post.terminals_at(key.skip(i)) == pre.terminals_at(key.skip(i)).push(value));
}


/// The fixed part of a search pattern: one constraint per position.
/// Past its own length the pattern allows any letter.
#[derive(Debug, PartialEq, Eq)]
pub struct TriePrefix {
    chars: Vec<CharMatch>,
}

impl View for TriePrefix {
    type V = Seq<CharMatch>;

    closed spec fn view(&self) -> Seq<CharMatch> {
        self.chars@
    }
}

impl Clone for TriePrefix {
    fn clone(&self) -> (r: Self)
        ensures
            r@ == self@,
    {
        let mut chars: Vec<CharMatch> = Vec::new();
        let mut i: usize = 0;
        while i < self.chars.len()
            invariant
                i <= self.chars.len(),
                chars@ =~= self.chars@.take(i as int),
            decreases self.chars.len() - i,
        {
            chars.push(self.chars[i]);
            i += 1;
        }
        assert(chars@ =~= self.chars@);
        TriePrefix { chars }
    }
}

/// The constraint a pattern places on position `depth`: its own
/// entry inside the pattern, any letter beyond it.
pub open spec fn restriction_spec(prefix: Seq<CharMatch>, depth: int) -> CharMatch {
    if 0 <= depth < prefix.len() {
        prefix[depth]
    } else {
        CharMatch::Any
    }
}

/// What every position of a valid pattern string must satisfy:
/// a wildcard character or a letter the alphabet can fold.
pub open spec fn pattern_ok(s: Seq<char>) -> bool {
    forall|i: int| 0 <= i < s.len() ==> #[trigger] CharMatch::from_char_spec(s[i]) is Some
}

/// The constraint sequence a valid pattern string denotes.
pub open spec fn pattern_spec(s: Seq<char>) -> Seq<CharMatch> {
    Seq::new(s.len(), |i: int| CharMatch::from_char_spec(s[i])->0)
}

impl TriePrefix {
    /// Wraps an explicit constraint sequence.
    pub fn new(chars: Vec<CharMatch>) -> (r: Self)
        ensures
            r@ == chars@,
    {
        TriePrefix { chars }
    }

    /// `len` positions that each allow any letter.
    pub fn any_with_length(len: usize) -> (r: Self)
        ensures
            r@.len() == len,
            forall|i: int| 0 <= i < len ==> r@[i] == CharMatch::Any,
    {
        let mut chars: Vec<CharMatch> = Vec::new();
        let mut i: usize = 0;
        while i < len
            invariant
                i <= len,
                chars@.len() == i,
                forall|j: int| 0 <= j < i ==> chars@[j] == CharMatch::Any,
            decreases len - i,
        {
            chars.push(CharMatch::Any);
            i += 1;
        }
        TriePrefix { chars }
    }

    /// How many positions the fixed part of the pattern covers.
    pub fn len(&self) -> (n: usize)
        ensures
            n == self@.len(),
    {
        self.chars.len()
    }

    /// Whether the fixed part is empty.
    pub fn is_empty(&self) -> (b: bool)
        ensures
            b == (self@.len() == 0),
    {
        self.chars.len() == 0
    }

    /// Reads a pattern string: wildcard characters allow any letter,
    /// letters constrain their position exactly.  Valid patterns only;
    /// an interpreter validates before it builds a descriptor.
    pub fn from_pattern(s: &str) -> (r: Self)
        requires
            pattern_ok(s@),
        ensures
            r@ == pattern_spec(s@),
    {
        let chars_vec = crate::normalized_word::str_chars(s);
        let mut chars: Vec<CharMatch> = Vec::new();
        let mut i: usize = 0;
        while i < chars_vec.len()
            invariant
                i <= chars_vec.len(),
                chars_vec@ == s@,
                pattern_ok(s@),
                chars@.len() == i,
                forall|j: int| 0 <= j < i ==> chars@[j] == CharMatch::from_char_spec(s@[j])->0,
            decreases chars_vec.len() - i,
        {
            match CharMatch::from_char(chars_vec[i]) {
                Some(cm) => {
                    chars.push(cm);
                },
                None => {
                    proof {
                        assert(CharMatch::from_char_spec(s@[i as int]) is Some);
                    }
                },
            }
            i += 1;
        }
        assert(chars@ =~= pattern_spec(s@));
        TriePrefix { chars }
    }

    /// The constraint for position `depth`.
    pub fn get_char_restriction(&self, depth: usize) -> (r: CharMatch)
        ensures
            r == restriction_spec(self@, depth as int),
    {
        if depth < self.chars.len() {
            self.chars[depth]
        } else {
            CharMatch::Any
        }
    }
}

/// A full search descriptor: the positional pattern plus an optional
/// inclusive depth bound.  No field changes after construction; one
/// descriptor serves any number of searches.
#[derive(Debug, PartialEq, Eq)]
pub struct TrieSearch {
    prefix: TriePrefix,
    max_depth: Option<usize>,
}

impl Clone for TrieSearch {
    fn clone(&self) -> (r: Self)
        ensures
            r.prefix_spec() == self.prefix_spec(),
            r.max_depth_spec() == self.max_depth_spec(),
    {
        TrieSearch { prefix: self.prefix.clone(), max_depth: self.max_depth }
    }
}

/// Whether a node at `depth` may still push children under the bound.
pub open spec fn below_max_spec(max_depth: Option<usize>, depth: int) -> bool {
    match max_depth {
        None => true,
        Some(m) => depth < m,
    }
}

impl TrieSearch {
    /// The descriptor's positional constraints.
    pub closed spec fn prefix_spec(self) -> Seq<CharMatch> {
        self.prefix@
    }

    /// The descriptor's depth bound, where it has one.
    pub closed spec fn max_depth_spec(self) -> Option<usize> {
        self.max_depth
    }

    /// Combines a pattern and an optional depth bound.
    pub fn new(prefix: TriePrefix, max_depth: Option<usize>) -> (r: Self)
        ensures
            r.prefix_spec() == prefix@,
            r.max_depth_spec() == max_depth,
    {
        TrieSearch { prefix, max_depth }
    }

    /// A pattern with no depth bound: every word extending it matches.
    pub fn from_prefix(s: &str) -> (r: Self)
        requires
            pattern_ok(s@),
        ensures
            r.prefix_spec() == pattern_spec(s@),
            r.max_depth_spec() is None,
    {
        TrieSearch { prefix: TriePrefix::from_pattern(s), max_depth: None }
    }

    /// A pattern bounded to exactly its own length.
    pub fn exactly(s: &str) -> (r: Self)
        requires
            pattern_ok(s@),
        ensures
            r.prefix_spec() == pattern_spec(s@),
            r.max_depth_spec() == Some(s@.len() as usize),
    {
        let search = TrieSearch::from_prefix(s);
        let len = search.prefix.len();
        search.with_max(len)
    }

    /// The same pattern under a new depth bound.
    pub fn with_max(&self, max: usize) -> (r: Self)
        ensures
            r.prefix_spec() == self.prefix_spec(),
            r.max_depth_spec() == Some(max),
    {
        TrieSearch { prefix: self.prefix.clone(), max_depth: Some(max) }
    }

    /// Whether a node at `depth` may still descend.
    pub fn below_max(&self, depth: usize) -> (b: bool)
        ensures
            b == below_max_spec(self.max_depth_spec(), depth as int),
    {
        match self.max_depth {
            None => true,
            Some(m) => depth < m,
        }
    }

    /// The constraint for position `depth`.
    pub fn get_char_restriction(&self, depth: usize) -> (r: CharMatch)
        ensures
            r == restriction_spec(self.prefix_spec(), depth as int),
    {
        self.prefix.get_char_restriction(depth)
    }
}

impl<T> Trie<T> {
    /// The (word, payload) pairs this node itself contributes: all its
    /// terminals, tagged with the accumulated word, once the fixed part
    /// of the pattern (length `plen`) is fully consumed.
    spec fn enum_terms(self, word: Seq<NormalizedChar>, plen: int) -> Seq<
        (Seq<NormalizedChar>, T),
    > {
        if plen <= word.len() {
            self.terminals@.map(|j: int, v: T| (word, v))
        } else {
            Seq::empty()
        }
    }

    /// Everything a search emits from this node's subtree, in order:
    /// the node's own qualifying terminals first, then each child
    /// subtree in ascending canonical-letter order.
    spec fn enum_node(
        self,
        word: Seq<NormalizedChar>,
        prefix: Seq<CharMatch>,
        maxd: Option<usize>,
    ) -> Seq<(Seq<NormalizedChar>, T)>
        decreases self, 27int,
    {
        self.enum_terms(word, prefix.len() as int) + self.enum_children(word, prefix, maxd, 0)
    }

    /// The tail of `enum_node`: the subtrees of the children at
    /// canonical positions `i` and beyond, where the depth bound and
    /// the positional constraint let the search descend.
    spec fn enum_children(
        self,
        word: Seq<NormalizedChar>,
        prefix: Seq<CharMatch>,
        maxd: Option<usize>,
        i: int,
    ) -> Seq<(Seq<NormalizedChar>, T)>
        decreases self, 26 - i,
        via Self::enum_children_decreases
    {
        if i < 0 || i >= 26 || i >= self.children@.len() {
            Seq::empty()
        } else {
            let c = NormalizedChar::from_idx(i);
            let head: Seq<(Seq<NormalizedChar>, T)> = if below_max_spec(maxd, word.len() as int)
                && restriction_spec(prefix, word.len() as int).matches_spec(c) {
                match self.children@[i] {
                    Some(child) => child.enum_node(word.push(c), prefix, maxd),
                    None => Seq::empty(),
                }
            } else {
                Seq::empty()
            };
            head + self.enum_children(word, prefix, maxd, i + 1)
        }
    }

    /// The full, ordered sequence of (word, payload) pairs that a
    /// search with these constraints enumerates over this tree.
    pub closed spec fn search_results(
        self,
        prefix: Seq<CharMatch>,
        maxd: Option<usize>,
    ) -> Seq<(Seq<NormalizedChar>, T)> {
        self.enum_node(Seq::empty(), prefix, maxd)
    }

    /// How many nodes the subtree holds, this node included.
    spec fn size(self) -> nat
        decreases self, 27int,
    {
        1 + self.size_children(0)
    }

    /// The node count of the children at positions `i` and beyond.
    spec fn size_children(self, i: int) -> nat
        decreases self, 26 - i,
        via Self::size_children_decreases
    {
        if i < 0 || i >= 26 || i >= self.children@.len() {
            0
        } else {
            (match self.children@[i] {
                Some(child) => child.size(),
                None => 0,
            }) + self.size_children(i + 1)
        }
    }

    #[via_fn]
    proof fn enum_children_decreases(
        self,
        word: Seq<NormalizedChar>,
        prefix: Seq<CharMatch>,
        maxd: Option<usize>,
        i: int,
    ) {
        if 0 <= i < 26 && i < self.children@.len() && self.children@[i] is Some {
            assert(decreases_to!(self => self.children));
            assert(decreases_to!(self.children => self.children@));
            assert(decreases_to!(self.children@ => self.children@[i]));
            assert(decreases_to!(self.children@[i] => self.children@[i]->0));
            assert(decreases_to!(self => self.children@[i]->0));
        }
    }

    #[via_fn]
    proof fn size_children_decreases(self, i: int) {
        if 0 <= i < 26 && i < self.children@.len() && self.children@[i] is Some {
            assert(decreases_to!(self => self.children));
            assert(decreases_to!(self.children => self.children@));
            assert(decreases_to!(self.children@ => self.children@[i]));
            assert(decreases_to!(self.children@[i] => self.children@[i]->0));
            assert(decreases_to!(self => self.children@[i]->0));
        }
    }

    /// Starts a lazy enumeration of the whole tree.
    pub fn iter(&self) -> (it: TrieIter<T>)
        requires
            self.wf(),
        ensures
            it.wf(),
            it.remaining() == self.search_results(Seq::<CharMatch>::empty(), None),
    {
        let search = TrieSearch::new(TriePrefix::new(Vec::new()), None);
        let it = TrieIter::new(self, search);
        proof {
            assert(search.prefix_spec() =~= Seq::<CharMatch>::empty());
        }
        it
    }

    /// Starts a lazy enumeration of the words whose length lies
    /// between `min` and `max`, both inclusive.
    pub fn iter_range(&self, min: usize, max: usize) -> (it: TrieIter<T>)
        requires
            self.wf(),
        ensures
            it.wf(),
            it.remaining() == self.search_results(any_prefix(min as int), Some(max)),
    {
        let search = TrieSearch::new(TriePrefix::any_with_length(min), Some(max));
        let it = TrieIter::new(self, search);
        proof {
            assert(search.prefix_spec() =~= any_prefix(min as int));
        }
        it
    }

    /// Starts a lazy enumeration of the words matching `search`.
    pub fn iter_search(&self, search: TrieSearch) -> (it: TrieIter<T>)
        requires
            self.wf(),
        ensures
            it.wf(),
            it.remaining() == self.search_results(search.prefix_spec(), search.max_depth_spec()),
    {
        TrieIter::new(self, search)
    }
}

/// The (normalized spelling, payload) pairs a list of raw items
/// denotes.
pub open spec fn items_view<T>(items: Seq<(&str, T)>) -> Seq<(Seq<char>, T)> {
    items.map_values(|p: (&str, T)| (p.0@, p.1))
}

/// The payloads of the items whose spelling normalizes to `k`, in
/// their given order.
pub open spec fn matching_payloads<T>(items: Seq<(Seq<char>, T)>, k: Seq<NormalizedChar>) -> Seq<
    T,
>
    decreases items.len(),
{
    if items.len() == 0 {
        Seq::empty()
    } else if crate::normalized_word::normalize_seq(items.last().0) == k {
        matching_payloads(items.drop_last(), k) + seq![items.last().1]
    } else {
        matching_payloads(items.drop_last(), k)
    }
}

impl<T> Trie<T> {
    /// Inserts each (spelling, payload) pair in order: under every
    /// normalized spelling, the payloads already stored stay put and
    /// the given pairs that normalize to it append their payloads,
    /// in order.
    pub fn extend(&mut self, items: Vec<(&str, T)>)
        requires
            old(self).wf(),
        ensures
            final(self).wf(),
            forall|k: Seq<NormalizedChar>|
                #[trigger] final(self).terminals_at(k) == old(self).terminals_at(k)
                    + matching_payloads(items_view(items@), k),
            forall|k: Seq<NormalizedChar>|
                #[trigger] final(self).has_node(k) <==> (old(self).has_node(k) || exists|t: int|
                    0 <= t < items@.len() && k.is_prefix_of(
                        crate::normalized_word::normalize_seq((#[trigger] items@[t]).0@),
                    )),
    {
        let ghost all = items_view(items@);
        let ghost orig_items = items@;
        let mut items = items;
        let n = items.len();
        let mut i: usize = 0;
        while items.len() > 0
            invariant
                n == all.len(),
                n == orig_items.len(),
                all == items_view(orig_items),
                i + items@.len() == n,
                items@ == orig_items.skip(i as int),
                self.wf(),
                forall|k: Seq<NormalizedChar>|
                    #[trigger] self.terminals_at(k) == old(self).terminals_at(k)
                        + matching_payloads(all.take(i as int), k),
                forall|k: Seq<NormalizedChar>|
                    #[trigger] self.has_node(k) <==> (old(self).has_node(k) || exists|t: int|
                        0 <= t < i && k.is_prefix_of(
                            crate::normalized_word::normalize_seq((#[trigger] orig_items[t]).0@),
                        )),
            decreases items@.len(),
        {
            let ghost mid = *self;
            let pair = items.remove(0);
            let (s, value) = pair;
            proof {
                assert(orig_items.skip(i as int)[0] == orig_items[i as int]);
                assert(orig_items.skip(i as int).remove(0) =~= orig_items.skip(i + 1));
                assert(all[i as int] == (s@, value));
            }
            self.add_string(s, value);
            proof {
                let nw = crate::normalized_word::normalize_seq(s@);
                assert(nw.is_prefix_of(nw));
                assert(all.take(i + 1).drop_last() =~= all.take(i as int));
                assert(all.take(i + 1).last() == (s@, value));
                assert forall|k: Seq<NormalizedChar>|
                    #[trigger] self.terminals_at(k) == old(self).terminals_at(k)
                        + matching_payloads(all.take(i + 1), k) by {
                    if k == nw {
                        assert(self.terminals_at(k) == mid.terminals_at(k).push(value));
                        assert(matching_payloads(all.take(i + 1), k) == matching_payloads(
                            all.take(i as int),
                            k,
                        ) + seq![value]);
                        assert(old(self).terminals_at(k) + (matching_payloads(
                            all.take(i as int),
                            k,
                        ) + seq![value]) =~= (old(self).terminals_at(k) + matching_payloads(
                            all.take(i as int),
                            k,
                        )).push(value));
                    } else {
                        assert(self.terminals_at(k) == mid.terminals_at(k));
                        assert(matching_payloads(all.take(i + 1), k) == matching_payloads(
                            all.take(i as int),
                            k,
                        ));
                    }
                }
                assert forall|k: Seq<NormalizedChar>|
                    #[trigger] self.has_node(k) <==> (old(self).has_node(k) || exists|t: int|
                        0 <= t < i + 1 && k.is_prefix_of(
                            crate::normalized_word::normalize_seq((#[trigger] orig_items[t]).0@),
                        )) by {
                    if self.has_node(k) {
                        if !mid.has_node(k) {
                            assert(k.is_prefix_of(nw));
                            assert(0 <= i < i + 1 && k.is_prefix_of(
                                crate::normalized_word::normalize_seq(orig_items[i as int].0@),
                            ));
                        }
                    }
                    if exists|t: int|
                        0 <= t < i + 1 && k.is_prefix_of(
                            crate::normalized_word::normalize_seq((#[trigger] orig_items[t]).0@),
                        ) {
                        let t = choose|t: int|
                            0 <= t < i + 1 && k.is_prefix_of(
                                crate::normalized_word::normalize_seq(
                                    (#[trigger] orig_items[t]).0@,
                                ),
                            );
                        if t < i {
                            assert(mid.has_node(k));
                        } else {
                            assert(k.is_prefix_of(nw));
                        }
                    }
                }
            }
            i += 1;
        }
        proof {
            assert(all.take(n as int) =~= all);
        }
    }

    /// Builds a tree from (spelling, payload) pairs.
    pub fn from_iter(items: Vec<(&str, T)>) -> (r: Trie<T>)
        ensures
            r.wf(),
            forall|k: Seq<NormalizedChar>|
                #[trigger] r.terminals_at(k) == matching_payloads(items_view(items@), k),
            forall|k: Seq<NormalizedChar>|
                #[trigger] r.has_node(k) <==> (k.len() == 0 || exists|t: int|
                    0 <= t < items@.len() && k.is_prefix_of(
                        crate::normalized_word::normalize_seq((#[trigger] items@[t]).0@),
                    )),
    {
        let mut r = Trie::empty();
        let ghost base = r;
        r.extend(items);
        proof {
            assert forall|k: Seq<NormalizedChar>|
                #[trigger] r.terminals_at(k) == matching_payloads(items_view(items@), k) by {
                assert(base.terminals_at(k) == Seq::<T>::empty());
                assert(base.terminals_at(k) + matching_payloads(items_view(items@), k)
                    =~= matching_payloads(items_view(items@), k));
            }
        }
        r
    }
}

impl<T> Default for Trie<T> {
    /// A tree of one empty node.
    fn default() -> (r: Trie<T>)
        ensures
            r.wf(),
            forall|k: Seq<NormalizedChar>| #[trigger] r.has_node(k) <==> k.len() == 0,
            forall|k: Seq<NormalizedChar>| #[trigger] r.terminals_at(k) == Seq::<T>::empty(),
    {
        Trie::empty()
    }
}

/// `n` pattern positions that each allow any letter.
pub open spec fn any_prefix(n: int) -> Seq<CharMatch> {
    Seq::new(n as nat, |i: int| CharMatch::Any)
}

/// What a search may emit, relative to the node it started from:
/// the emitted word extends the accumulated one within the depth
/// bound, every new position obeys its constraint, the fixed pattern
/// is consumed, and the payload really is stored at that word.
spec fn emitted_ok<T>(
    t: Trie<T>,
    word: Seq<NormalizedChar>,
    prefix: Seq<CharMatch>,
    maxd: Option<usize>,
    e: (Seq<NormalizedChar>, T),
) -> bool {
    &&& word.is_prefix_of(e.0)
    &&& prefix.len() <= e.0.len()
    &&& (forall|d: int|
        word.len() <= d < e.0.len() ==> (#[trigger] restriction_spec(prefix, d)).matches_spec(
            e.0[d],
        ))
    &&& (match maxd {
        Some(m) => e.0.len() <= m,
        None => true,
    })
    &&& t.has_node(e.0.skip(word.len() as int))
    &&& t.terminals_at(e.0.skip(word.len() as int)).contains(e.1)
}

/// Every pair of a node's enumeration satisfies `emitted_ok`.
proof fn lemma_enum_node_sound<T>(
    t: Trie<T>,
    word: Seq<NormalizedChar>,
    prefix: Seq<CharMatch>,
    maxd: Option<usize>,
)
    requires
        t.wf(),
        match maxd {
            Some(m) => word.len() <= m,
            None => true,
        },
    ensures
        forall|i: int|
            0 <= i < t.enum_node(word, prefix, maxd).len() ==> emitted_ok(
                t,
                word,
                prefix,
                maxd,
                #[trigger] t.enum_node(word, prefix, maxd)[i],
            ),
    decreases t, 27int,
{
    let full = t.enum_node(word, prefix, maxd);
    let terms = t.enum_terms(word, prefix.len() as int);
    lemma_enum_children_sound(t, word, prefix, maxd, 0);
    assert forall|i: int| 0 <= i < full.len() implies emitted_ok(
        t,
        word,
        prefix,
        maxd,
        #[trigger] full[i],
    ) by {
        if i < terms.len() {
            let e = terms[i];
            assert(e == (word, t.terminals@[i]));
            assert(word.is_prefix_of(word)) by {
                assert(word.take(word.len() as int) =~= word);
            }
            assert(word.skip(word.len() as int) =~= Seq::<NormalizedChar>::empty());
            assert(t.subtrie(Seq::<NormalizedChar>::empty()) == Some(t));
            assert(t.terminals_at(Seq::<NormalizedChar>::empty()).contains(e.1)) by {
                assert(t.terminals_at(Seq::<NormalizedChar>::empty()) == t.terminals@);
            }
        } else {
            assert(full[i] == t.enum_children(word, prefix, maxd, 0)[i - terms.len()]);
        }
    }
}

/// Every pair of the children's enumeration satisfies `emitted_ok`.
proof fn lemma_enum_children_sound<T>(
    t: Trie<T>,
    word: Seq<NormalizedChar>,
    prefix: Seq<CharMatch>,
    maxd: Option<usize>,
    i: int,
)
    requires
        t.wf(),
        match maxd {
            Some(m) => word.len() <= m,
            None => true,
        },
    ensures
        forall|j: int|
            0 <= j < t.enum_children(word, prefix, maxd, i).len() ==> emitted_ok(
                t,
                word,
                prefix,
                maxd,
                #[trigger] t.enum_children(word, prefix, maxd, i)[j],
            ),
    decreases t, 26 - i,
{
    if i < 0 || i >= 26 {
    } else {
        lemma_enum_children_sound(t, word, prefix, maxd, i + 1);
        let c = NormalizedChar::from_idx(i);
        let seq_here = t.enum_children(word, prefix, maxd, i);
        let rest = t.enum_children(word, prefix, maxd, i + 1);
        if below_max_spec(maxd, word.len() as int) && restriction_spec(
            prefix,
            word.len() as int,
        ).matches_spec(c) && t.children@[i] is Some {
            let child = *(t.children@[i]->0);
            let cword = word.push(c);
            assert(child.wf());
            assert(match maxd {
                Some(m) => cword.len() <= m,
                None => true,
            });
            lemma_enum_node_sound(child, cword, prefix, maxd);
            let head = child.enum_node(cword, prefix, maxd);
            assert forall|j: int| 0 <= j < seq_here.len() implies emitted_ok(
                t,
                word,
                prefix,
                maxd,
                #[trigger] seq_here[j],
            ) by {
                if j < head.len() {
                    let e = head[j];
                    assert(emitted_ok(child, cword, prefix, maxd, e));
                    // Lift the child's guarantee one edge up.
                    assert(cword.is_prefix_of(e.0));
                    assert(word.is_prefix_of(e.0)) by {
                        assert(cword.take(word.len() as int) =~= word);
                        assert(e.0.take(cword.len() as int).take(word.len() as int) =~= e.0.take(
                            word.len() as int,
                        ));
                    }
                    assert forall|d: int| word.len() <= d < e.0.len() implies (
                    #[trigger] restriction_spec(prefix, d)).matches_spec(e.0[d]) by {
                        if d == word.len() {
                            assert(e.0[d] == e.0.take(cword.len() as int)[d]);
                            assert(e.0[d] == c);
                        }
                    }
                    let sub = e.0.skip(cword.len() as int);
                    let wsub = e.0.skip(word.len() as int);
                    assert(wsub[0] == e.0[word.len() as int]);
                    assert(e.0[word.len() as int] == c) by {
                        assert(e.0.take(cword.len() as int)[word.len() as int] == c);
                    }
                    assert(wsub.drop_first() =~= sub);
                    assert(t.subtrie(wsub) == child.subtrie(sub));
                    assert(t.has_node(wsub));
                    assert(t.terminals_at(wsub).contains(e.1));
                } else {
                    assert(seq_here[j] == rest[j - head.len()]);
                }
            }
        } else {
            assert(seq_here =~= rest);
            assert forall|j: int| 0 <= j < seq_here.len() implies emitted_ok(
                t,
                word,
                prefix,
                maxd,
                #[trigger] seq_here[j],
            ) by {
                assert(seq_here[j] == rest[j]);
            }
        }
    }
}

/// Soundness of the traversal: every (word, payload) pair a search
/// enumerates names a word stored in the tree, whose payload sits in
/// that word's terminal list, whose every position satisfies the
/// pattern, which is at least as long as the fixed pattern, and which
/// respects the depth bound.  A too-short word never satisfies a
/// longer pattern, and nothing outside the constraint is emitted.
pub proof fn lemma_search_results_sound<T>(
    t: Trie<T>,
    prefix: Seq<CharMatch>,
    maxd: Option<usize>,
    i: int,
)
    requires
        t.wf(),
        0 <= i < t.search_results(prefix, maxd).len(),
    ensures
        ({
            let e = t.search_results(prefix, maxd)[i];
            &&& prefix.len() <= e.0.len()
            &&& (forall|d: int|
                0 <= d < e.0.len() ==> (#[trigger] restriction_spec(prefix, d)).matches_spec(
                    e.0[d],
                ))
            &&& (match maxd {
                Some(m) => e.0.len() <= m,
                None => true,
            })
            &&& t.has_node(e.0)
            &&& t.terminals_at(e.0).contains(e.1)
        }),
{
    lemma_enum_node_sound(t, Seq::empty(), prefix, maxd);
    let e = t.search_results(prefix, maxd)[i];
    assert(emitted_ok(t, Seq::<NormalizedChar>::empty(), prefix, maxd, e));
    assert(e.0.skip(0) =~= e.0);
}

/// A proper prefix comes strictly first in lexicographic order.
proof fn lemma_lex_prefix_less(p: Seq<NormalizedChar>, w: Seq<NormalizedChar>)
    requires
        p.is_prefix_of(w),
        w.len() > p.len(),
    ensures
        crate::normalized_word::lex_cmp(p, w) == core::cmp::Ordering::Less,
{
    let sw = w.skip(p.len() as int);
    assert(w =~= p + sw);
    assert(p =~= p + Seq::<NormalizedChar>::empty());
    crate::normalized_word::lemma_lex_cmp_common_prefix(p, Seq::empty(), sw);
}

/// After a shared prefix, the smaller next letter decides the order.
proof fn lemma_lex_branch_less(
    p: Seq<NormalizedChar>,
    a: Seq<NormalizedChar>,
    b: Seq<NormalizedChar>,
)
    requires
        p.is_prefix_of(a),
        p.is_prefix_of(b),
        a.len() > p.len(),
        b.len() > p.len(),
        a[p.len() as int].idx() < b[p.len() as int].idx(),
    ensures
        crate::normalized_word::lex_cmp(a, b) == core::cmp::Ordering::Less,
{
    let sa = a.skip(p.len() as int);
    let sb = b.skip(p.len() as int);
    assert(a =~= p + sa);
    assert(b =~= p + sb);
    assert(sa[0] == a[p.len() as int]);
    assert(sb[0] == b[p.len() as int]);
    crate::normalized_word::lemma_lex_cmp_common_prefix(p, sa, sb);
}

/// A node's enumeration is lexicographically ascending, and every
/// word in it extends the accumulated word.
proof fn lemma_enum_node_ordered<T>(
    t: Trie<T>,
    word: Seq<NormalizedChar>,
    prefix: Seq<CharMatch>,
    maxd: Option<usize>,
)
    requires
        t.wf(),
    ensures
        forall|a: int, b: int|
            0 <= a < b < t.enum_node(word, prefix, maxd).len()
                ==> crate::normalized_word::lex_leq(
                (#[trigger] t.enum_node(word, prefix, maxd)[a]).0,
                (#[trigger] t.enum_node(word, prefix, maxd)[b]).0,
            ),
        forall|i: int|
            0 <= i < t.enum_node(word, prefix, maxd).len() ==> word.is_prefix_of(
                (#[trigger] t.enum_node(word, prefix, maxd)[i]).0,
            ),
    decreases t, 27int,
{
    let full = t.enum_node(word, prefix, maxd);
    let terms = t.enum_terms(word, prefix.len() as int);
    let kids = t.enum_children(word, prefix, maxd, 0);
    lemma_enum_children_ordered(t, word, prefix, maxd, 0);
    assert(word.is_prefix_of(word)) by {
        assert(word.take(word.len() as int) =~= word);
    }
    assert(crate::normalized_word::lex_cmp(word, word) == core::cmp::Ordering::Equal) by {
        assert(word =~= word + Seq::<NormalizedChar>::empty());
        crate::normalized_word::lemma_lex_cmp_common_prefix(word, Seq::empty(), Seq::empty());
    }
    assert forall|i: int| 0 <= i < full.len() implies word.is_prefix_of(
        (#[trigger] full[i]).0,
    ) by {
        if i < terms.len() {
            assert(full[i].0 == word);
        } else {
            assert(full[i] == kids[i - terms.len()]);
        }
    }
    assert forall|a: int, b: int|
        0 <= a < b < full.len() implies crate::normalized_word::lex_leq(
        (#[trigger] full[a]).0,
        (#[trigger] full[b]).0,
    ) by {
        if b < terms.len() {
            assert(full[a].0 == word);
            assert(full[b].0 == word);
        } else if a < terms.len() {
            assert(full[a].0 == word);
            assert(full[b] == kids[b - terms.len()]);
            lemma_lex_prefix_less(word, full[b].0);
        } else {
            assert(full[a] == kids[a - terms.len()]);
            assert(full[b] == kids[b - terms.len()]);
        }
    }
}

/// The children's enumeration is ascending; each of its words
/// strictly extends the accumulated word through a letter at
/// canonical position `i` or later.
proof fn lemma_enum_children_ordered<T>(
    t: Trie<T>,
    word: Seq<NormalizedChar>,
    prefix: Seq<CharMatch>,
    maxd: Option<usize>,
    i: int,
)
    requires
        t.wf(),
    ensures
        forall|a: int, b: int|
            0 <= a < b < t.enum_children(word, prefix, maxd, i).len()
                ==> crate::normalized_word::lex_leq(
                (#[trigger] t.enum_children(word, prefix, maxd, i)[a]).0,
                (#[trigger] t.enum_children(word, prefix, maxd, i)[b]).0,
            ),
        forall|j: int|
            0 <= j < t.enum_children(word, prefix, maxd, i).len() ==> {
                let w = (#[trigger] t.enum_children(word, prefix, maxd, i)[j]).0;
                &&& word.is_prefix_of(w)
                &&& w.len() > word.len()
                &&& w[word.len() as int].idx() >= i
            },
    decreases t, 26 - i,
{
    if i < 0 || i >= 26 {
    } else {
        lemma_enum_children_ordered(t, word, prefix, maxd, i + 1);
        let c = NormalizedChar::from_idx(i);
        let seq_here = t.enum_children(word, prefix, maxd, i);
        let rest = t.enum_children(word, prefix, maxd, i + 1);
        if below_max_spec(maxd, word.len() as int) && restriction_spec(
            prefix,
            word.len() as int,
        ).matches_spec(c) && t.children@[i] is Some {
            let child = *(t.children@[i]->0);
            let cword = word.push(c);
            lemma_enum_node_ordered(child, cword, prefix, maxd);
            let head = child.enum_node(cword, prefix, maxd);
            assert forall|j: int| 0 <= j < seq_here.len() implies {
                let w = (#[trigger] seq_here[j]).0;
                &&& word.is_prefix_of(w)
                &&& w.len() > word.len()
                &&& w[word.len() as int].idx() >= i
            } by {
                if j < head.len() {
                    let w = head[j].0;
                    assert(cword.is_prefix_of(w));
                    assert(w.take(cword.len() as int) == cword);
                    assert(word.is_prefix_of(w)) by {
                        assert(w.take(word.len() as int) =~= cword.take(word.len() as int));
                        assert(cword.take(word.len() as int) =~= word);
                    }
                    assert(w[word.len() as int] == c) by {
                        assert(w.take(cword.len() as int)[word.len() as int] == c);
                    }
                } else {
                    assert(seq_here[j] == rest[j - head.len()]);
                }
            }
            assert forall|a: int, b: int|
                0 <= a < b < seq_here.len() implies crate::normalized_word::lex_leq(
                (#[trigger] seq_here[a]).0,
                (#[trigger] seq_here[b]).0,
            ) by {
                if b < head.len() {
                    assert(seq_here[a] == head[a]);
                    assert(seq_here[b] == head[b]);
                } else if a < head.len() {
                    assert(seq_here[a] == head[a]);
                    assert(seq_here[b] == rest[b - head.len()]);
                    let wa = seq_here[a].0;
                    let wb = seq_here[b].0;
                    assert(wa[word.len() as int] == c) by {
                        assert(wa.take(cword.len() as int)[word.len() as int] == c);
                    }
                    assert(wb[word.len() as int].idx() >= i + 1);
                    lemma_lex_branch_less(word, wa, wb);
                } else {
                    assert(seq_here[a] == rest[a - head.len()]);
                    assert(seq_here[b] == rest[b - head.len()]);
                }
            }
        } else {
            assert(seq_here =~= rest);
            assert forall|j: int| 0 <= j < seq_here.len() implies {
                let w = (#[trigger] seq_here[j]).0;
                &&& word.is_prefix_of(w)
                &&& w.len() > word.len()
                &&& w[word.len() as int].idx() >= i
            } by {
                assert(seq_here[j] == rest[j]);
            }
            assert forall|a: int, b: int|
                0 <= a < b < seq_here.len() implies crate::normalized_word::lex_leq(
                (#[trigger] seq_here[a]).0,
                (#[trigger] seq_here[b]).0,
            ) by {
                assert(seq_here[a] == rest[a]);
                assert(seq_here[b] == rest[b]);
            }
        }
    }
}

/// The enumeration order: a search yields its words in ascending
/// lexicographic order of normalized spelling, payloads of one
/// spelling staying together.
pub proof fn lemma_search_results_ordered<T>(t: Trie<T>, prefix: Seq<CharMatch>, maxd: Option<
    usize,
>)
    requires
        t.wf(),
    ensures
        forall|a: int, b: int|
            0 <= a < b < t.search_results(prefix, maxd).len()
                ==> crate::normalized_word::lex_leq(
                (#[trigger] t.search_results(prefix, maxd)[a]).0,
                (#[trigger] t.search_results(prefix, maxd)[b]).0,
            ),
{
    lemma_enum_node_ordered(t, Seq::empty(), prefix, maxd);
    assert forall|a: int, b: int|
        0 <= a < b < t.search_results(prefix, maxd).len()
            implies crate::normalized_word::lex_leq(
        (#[trigger] t.search_results(prefix, maxd)[a]).0,
        (#[trigger] t.search_results(prefix, maxd)[b]).0,
    ) by {
        let e = t.enum_node(Seq::<NormalizedChar>::empty(), prefix, maxd);
        assert(t.search_results(prefix, maxd)[a] == e[a]);
        assert(t.search_results(prefix, maxd)[b] == e[b]);
    }
}

/// A pair enumerated under child `idx` is enumerated by the whole
/// children walk from any earlier position.
proof fn lemma_enum_children_contains<T>(
    t: Trie<T>,
    word: Seq<NormalizedChar>,
    prefix: Seq<CharMatch>,
    maxd: Option<usize>,
    i: int,
    idx: int,
    x: (Seq<NormalizedChar>, T),
)
    requires
        t.wf(),
        0 <= i <= idx < 26,
        below_max_spec(maxd, word.len() as int),
        restriction_spec(prefix, word.len() as int).matches_spec(NormalizedChar::from_idx(idx)),
        t.children@[idx] is Some,
        (t.children@[idx]->0).enum_node(
            word.push(NormalizedChar::from_idx(idx)),
            prefix,
            maxd,
        ).contains(x),
    ensures
        t.enum_children(word, prefix, maxd, i).contains(x),
    decreases idx - i,
{
    let seq_here = t.enum_children(word, prefix, maxd, i);
    if i == idx {
        let head = (t.children@[idx]->0).enum_node(
            word.push(NormalizedChar::from_idx(idx)),
            prefix,
            maxd,
        );
        let k = choose|k: int| 0 <= k < head.len() && head[k] == x;
        assert(seq_here[k] == x);
    } else {
        lemma_enum_children_contains(t, word, prefix, maxd, i + 1, idx, x);
        let rest = t.enum_children(word, prefix, maxd, i + 1);
        let k = choose|k: int| 0 <= k < rest.len() && rest[k] == x;
        assert(seq_here[seq_here.len() - rest.len() + k] == x);
    }
}

/// Every payload stored under a word the constraints admit is
/// enumerated, tagged with that word.
proof fn lemma_enum_node_complete<T>(
    t: Trie<T>,
    word: Seq<NormalizedChar>,
    prefix: Seq<CharMatch>,
    maxd: Option<usize>,
    p: Seq<NormalizedChar>,
    j: int,
)
    requires
        t.wf(),
        prefix.len() <= word.len() + p.len(),
        forall|d: int|
            word.len() <= d < word.len() + p.len() ==> (#[trigger] restriction_spec(
                prefix,
                d,
            )).matches_spec(p[d - word.len()]),
        match maxd {
            Some(m) => word.len() + p.len() <= m,
            None => true,
        },
        0 <= j < t.terminals_at(p).len(),
    ensures
        t.enum_node(word, prefix, maxd).contains((word + p, t.terminals_at(p)[j])),
    decreases p.len(),
{
    let full = t.enum_node(word, prefix, maxd);
    let terms = t.enum_terms(word, prefix.len() as int);
    if p.len() == 0 {
        assert(t.subtrie(p) == Some(t));
        assert(t.terminals_at(p) == t.terminals@);
        assert(word + p =~= word);
        assert(terms[j] == (word, t.terminals@[j]));
        assert(full[j] == (word + p, t.terminals_at(p)[j]));
    } else {
        let c = p[0];
        let idx = c.idx();
        assert(t.subtrie(p) is Some);
        assert(t.children@[idx] is Some);
        let child = *(t.children@[idx]->0);
        assert(child.subtrie(p.drop_first()) == t.subtrie(p));
        let cword = word.push(c);
        assert(restriction_spec(prefix, word.len() as int).matches_spec(c)) by {
            assert(p[word.len() - word.len()] == c);
        }
        assert(below_max_spec(maxd, word.len() as int));
        assert forall|d: int|
            cword.len() <= d < cword.len() + p.drop_first().len() implies (
        #[trigger] restriction_spec(prefix, d)).matches_spec(p.drop_first()[d - cword.len()]) by {
            assert(p.drop_first()[d - cword.len()] == p[d - word.len()]);
        }
        lemma_enum_node_complete(child, cword, prefix, maxd, p.drop_first(), j);
        assert(cword + p.drop_first() =~= word + p);
        assert(NormalizedChar::from_idx(idx) == c);
        lemma_enum_children_contains(
            t,
            word,
            prefix,
            maxd,
            0,
            idx,
            (word + p, t.terminals_at(p)[j]),
        );
        let kids = t.enum_children(word, prefix, maxd, 0);
        let k = choose|k: int|
            0 <= k < kids.len() && kids[k] == (word + p, t.terminals_at(p)[j]);
        assert(full[terms.len() + k] == (word + p, t.terminals_at(p)[j]));
    }
}

/// Completeness of the traversal: every payload stored under a word
/// that is at least as long as the fixed pattern, satisfies every
/// positional constraint and respects the depth bound appears in the
/// enumeration, tagged with its word.
pub proof fn lemma_search_results_complete<T>(
    t: Trie<T>,
    prefix: Seq<CharMatch>,
    maxd: Option<usize>,
    w: Seq<NormalizedChar>,
    j: int,
)
    requires
        t.wf(),
        prefix.len() <= w.len(),
        forall|d: int|
            0 <= d < w.len() ==> (#[trigger] restriction_spec(prefix, d)).matches_spec(w[d]),
        match maxd {
            Some(m) => w.len() <= m,
            None => true,
        },
        0 <= j < t.terminals_at(w).len(),
    ensures
        t.search_results(prefix, maxd).contains((w, t.terminals_at(w)[j])),
{
    assert forall|d: int|
        Seq::<NormalizedChar>::empty().len() <= d < Seq::<NormalizedChar>::empty().len()
            + w.len() implies (#[trigger] restriction_spec(prefix, d)).matches_spec(
        w[d - Seq::<NormalizedChar>::empty().len()],
    ) by {
        assert(restriction_spec(prefix, d).matches_spec(w[d]));
    }
    lemma_enum_node_complete(t, Seq::empty(), prefix, maxd, w, j);
    assert(Seq::<NormalizedChar>::empty() + w =~= w);
}

/// Searching an unchanged tree twice with equal descriptors
/// enumerates identical sequences.
pub proof fn lemma_search_deterministic<T>(
    t: Trie<T>,
    p1: Seq<CharMatch>,
    m1: Option<usize>,
    p2: Seq<CharMatch>,
    m2: Option<usize>,
)
    requires
        p1 == p2,
        m1 == m2,
    ensures
        t.search_results(p1, m1) == t.search_results(p2, m2),
{
}

/// Below the depth bound nothing descends: no child contributes.
proof fn lemma_enum_children_blocked<T>(
    t: Trie<T>,
    word: Seq<NormalizedChar>,
    prefix: Seq<CharMatch>,
    maxd: Option<usize>,
    i: int,
)
    requires
        !below_max_spec(maxd, word.len() as int),
        0 <= i <= 26,
    ensures
        t.enum_children(word, prefix, maxd, i) == Seq::<(Seq<NormalizedChar>, T)>::empty(),
    decreases 26 - i,
{
    if i < 26 {
        lemma_enum_children_blocked(t, word, prefix, maxd, i + 1);
        assert(t.enum_children(word, prefix, maxd, i) =~= Seq::<
            (Seq<NormalizedChar>, T),
        >::empty());
    }
}

/// The traversal engine: a pull-based, finite enumeration of the
/// (word, payload) pairs a search admits.
///
/// State: a LIFO worklist of nodes still to visit, each tagged with
/// its accumulated word, and a FIFO buffer of terminals already
/// admitted.  Each `next` call does a bounded amount of work; stopping
/// early never forces the rest of the enumeration.
pub struct TrieIter<'a, T> {
    search: TrieSearch,
    node_queue: Vec<(NormalizedWord, &'a Trie<T>)>,
    terminal_queue: Vec<(NormalizedWord, &'a T)>,
}

impl<'a, T> TrieIter<'a, T> {
    /// The pairs a sequence of buffered terminals stands for.
    spec fn term_map(q: Seq<(NormalizedWord, &'a T)>) -> Seq<(Seq<NormalizedChar>, T)> {
        q.map(|j: int, p: (NormalizedWord, &'a T)| (p.0@, *p.1))
    }

    /// The pairs a node worklist still yields: the top of the stack
    /// enumerates first.
    spec fn queue_enum(
        q: Seq<(NormalizedWord, &'a Trie<T>)>,
        prefix: Seq<CharMatch>,
        maxd: Option<usize>,
    ) -> Seq<(Seq<NormalizedChar>, T)>
        decreases q.len(),
    {
        if q.len() == 0 {
            Seq::empty()
        } else {
            q.last().1.enum_node(q.last().0@, prefix, maxd) + Self::queue_enum(
                q.drop_last(),
                prefix,
                maxd,
            )
        }
    }

    /// The total node count still on the worklist.
    spec fn queue_size(q: Seq<(NormalizedWord, &'a Trie<T>)>) -> nat
        decreases q.len(),
    {
        if q.len() == 0 {
            0
        } else {
            q.last().1.size() + Self::queue_size(q.drop_last())
        }
    }

    /// Everything this enumeration has yet to yield, in order.
    pub closed spec fn remaining(self) -> Seq<(Seq<NormalizedChar>, T)> {
        Self::term_map(self.terminal_queue@) + Self::queue_enum(
            self.node_queue@,
            self.search.prefix_spec(),
            self.search.max_depth_spec(),
        )
    }

    /// Every node still on the worklist is a well-formed tree.
    pub closed spec fn wf(self) -> bool {
        forall|j: int|
            0 <= j < self.node_queue@.len() ==> (#[trigger] self.node_queue@[j]).1.wf()
    }

    /// Seeds the worklist with the root under the empty word.
    fn new(root: &'a Trie<T>, search: TrieSearch) -> (r: TrieIter<'a, T>)
        requires
            root.wf(),
        ensures
            r.wf(),
            r.remaining() == root.search_results(search.prefix_spec(), search.max_depth_spec()),
    {
        let mut node_queue: Vec<(NormalizedWord, &'a Trie<T>)> = Vec::new();
        node_queue.push((NormalizedWord::empty(), root));
        let r = TrieIter { search, node_queue, terminal_queue: Vec::new() };
        proof {
            let prefix = search.prefix_spec();
            let maxd = search.max_depth_spec();
            let q = r.node_queue@;
            assert(q.drop_last() =~= Seq::<(NormalizedWord, &'a Trie<T>)>::empty());
            assert(Self::queue_enum(q.drop_last(), prefix, maxd) =~= Seq::<
                (Seq<NormalizedChar>, T),
            >::empty());
            assert(q.last().0@ =~= Seq::<NormalizedChar>::empty());
            assert(Self::queue_enum(q, prefix, maxd) == root.enum_node(
                Seq::<NormalizedChar>::empty(),
                prefix,
                maxd,
            ) + Self::queue_enum(q.drop_last(), prefix, maxd));
            assert(Self::term_map(r.terminal_queue@) =~= Seq::<(Seq<NormalizedChar>, T)>::empty());
            assert(r.remaining() =~= root.search_results(prefix, maxd));
        }
        r
    }

    /// Visits one node: admits its terminals where the fixed pattern
    /// is consumed, then stacks its admissible children in reverse
    /// canonical order, so they pop in ascending order.
    fn visit(&mut self, word: NormalizedWord, node: &'a Trie<T>)
        requires
            old(self).wf(),
            node.wf(),
        ensures
            final(self).wf(),
            final(self).search == old(self).search,
            Self::term_map(final(self).terminal_queue@) == Self::term_map(
                old(self).terminal_queue@,
            ) + node.enum_terms(word@, old(self).search.prefix_spec().len() as int),
            Self::queue_enum(
                final(self).node_queue@,
                old(self).search.prefix_spec(),
                old(self).search.max_depth_spec(),
            ) == node.enum_children(
                word@,
                old(self).search.prefix_spec(),
                old(self).search.max_depth_spec(),
                0,
            ) + Self::queue_enum(
                old(self).node_queue@,
                old(self).search.prefix_spec(),
                old(self).search.max_depth_spec(),
            ),
            Self::queue_size(final(self).node_queue@) <= Self::queue_size(old(self).node_queue@)
                + node.size_children(0),
    {
        let ghost prefix = self.search.prefix_spec();
        let ghost maxd = self.search.max_depth_spec();
        let ghost orig_terms = self.terminal_queue@;
        let ghost orig_nodes = self.node_queue@;
        let depth = word.len();
        let prefix_len = self.search.prefix.len();

        if prefix_len <= depth {
            let terms: &'a Vec<T> = &node.terminals;
            let mut j: usize = 0;
            while j < terms.len()
                invariant
                    j <= terms.len(),
                    terms@ == node.terminals@,
                    prefix.len() <= word@.len(),
                    self.search == old(self).search,
                    prefix == self.search.prefix_spec(),
                    self.node_queue@ == orig_nodes,
                    Self::term_map(self.terminal_queue@) =~= Self::term_map(orig_terms)
                        + terms@.take(j as int).map(|i: int, v: T| (word@, v)),
                decreases terms.len() - j,
            {
                let w = word.clone();
                let ghost pre_terms = self.terminal_queue@;
                self.terminal_queue.push((w, &terms[j]));
                proof {
                    let f = |i: int, v: T| (word@, v);
                    assert(Self::term_map(self.terminal_queue@) =~= Self::term_map(
                        pre_terms,
                    ).push((word@, terms@[j as int])));
                    assert(terms@.take(j + 1).map(f) =~= terms@.take(j as int).map(f).push(
                        (word@, terms@[j as int]),
                    ));
                    assert(Self::term_map(self.terminal_queue@) =~= Self::term_map(orig_terms)
                        + terms@.take(j + 1).map(f));
                }
                j += 1;
            }
            proof {
                assert(terms@.take(terms@.len() as int) =~= terms@);
                assert(Self::term_map(self.terminal_queue@) =~= Self::term_map(orig_terms)
                    + node.enum_terms(word@, prefix.len() as int));
            }
        } else {
            proof {
                assert(node.enum_terms(word@, prefix.len() as int) =~= Seq::<
                    (Seq<NormalizedChar>, T),
                >::empty());
                assert(Self::term_map(self.terminal_queue@) =~= Self::term_map(orig_terms)
                    + node.enum_terms(word@, prefix.len() as int));
            }
        }

        let ghost done_terms = self.terminal_queue@;
        if self.search.below_max(depth) {
            let restriction = self.search.get_char_restriction(depth);
            let mut i: usize = 26;
            while i > 0
                invariant
                    i <= 26,
                    node.wf(),
                    restriction == restriction_spec(prefix, word@.len() as int),
                    below_max_spec(maxd, word@.len() as int),
                    self.search == old(self).search,
                    prefix == self.search.prefix_spec(),
                    maxd == self.search.max_depth_spec(),
                    self.terminal_queue@ == done_terms,
                    forall|j: int|
                        0 <= j < self.node_queue@.len() ==> (
                        #[trigger] self.node_queue@[j]).1.wf(),
                    Self::queue_enum(self.node_queue@, prefix, maxd) =~= node.enum_children(
                        word@,
                        prefix,
                        maxd,
                        i as int,
                    ) + Self::queue_enum(orig_nodes, prefix, maxd),
                    Self::queue_size(self.node_queue@) <= node.size_children(i as int)
                        + Self::queue_size(orig_nodes),
                decreases i,
            {
                i -= 1;
                let ghost pre_queue = self.node_queue@;
                match &node.children[i] {
                    Some(c) => {
                        let letter = NormalizedChar::from_index(i);
                        if restriction.matches(&letter) {
                            let mut child_word = word.clone();
                            child_word.push(letter);
                            let child_ref: &'a Trie<T> = &**c;
                            self.node_queue.push((child_word, child_ref));
                            proof {
                                let q = self.node_queue@;
                                assert(q.drop_last() =~= pre_queue);
                                assert(q.last().1 == child_ref);
                                assert(q.last().0@ == word@.push(letter));
                                assert(Self::queue_enum(q, prefix, maxd) == child_ref.enum_node(
                                    word@.push(letter),
                                    prefix,
                                    maxd,
                                ) + Self::queue_enum(pre_queue, prefix, maxd));
                                assert(node.enum_children(word@, prefix, maxd, i as int)
                                    == child_ref.enum_node(word@.push(letter), prefix, maxd)
                                    + node.enum_children(word@, prefix, maxd, i + 1));
                                assert(Self::queue_enum(q, prefix, maxd) =~= node.enum_children(
                                    word@,
                                    prefix,
                                    maxd,
                                    i as int,
                                ) + Self::queue_enum(orig_nodes, prefix, maxd));
                                assert(node.size_children(i as int) == c.size()
                                    + node.size_children(i + 1));
                                assert(Self::queue_size(q) == c.size() + Self::queue_size(
                                    pre_queue,
                                ));
                            }
                        } else {
                            proof {
                                assert(node.enum_children(word@, prefix, maxd, i as int)
                                    =~= node.enum_children(word@, prefix, maxd, i + 1));
                                assert(node.size_children(i as int) >= node.size_children(i + 1));
                            }
                        }
                    },
                    None => {
                        proof {
                            assert(node.enum_children(word@, prefix, maxd, i as int)
                                =~= node.enum_children(word@, prefix, maxd, i + 1));
                            assert(node.size_children(i as int) >= node.size_children(i + 1));
                        }
                    },
                }
            }
        } else {
            proof {
                lemma_enum_children_blocked(*node, word@, prefix, maxd, 0);
                assert(Self::queue_enum(self.node_queue@, prefix, maxd) =~= node.enum_children(
                    word@,
                    prefix,
                    maxd,
                    0,
                ) + Self::queue_enum(orig_nodes, prefix, maxd));
            }
        }
    }

    /// Yields the next (word, payload) pair of the enumeration, or
    /// `None` once it is exhausted.  Draining the terminal buffer
    /// comes first; otherwise one pending node is visited and the
    /// attempt repeats.
    pub fn next(&mut self) -> (r: Option<(NormalizedWord, &'a T)>)
        requires
            old(self).wf(),
        ensures
            final(self).wf(),
            match r {
                Some(p) => {
                    &&& old(self).remaining().len() > 0
                    &&& p.0@ == old(self).remaining()[0].0
                    &&& *p.1 == old(self).remaining()[0].1
                    &&& final(self).remaining() == old(self).remaining().drop_first()
                },
                None => old(self).remaining().len() == 0 && final(self).remaining().len() == 0,
            },
    {
        loop
            invariant
                self.wf(),
                self.remaining() == old(self).remaining(),
            decreases Self::queue_size(self.node_queue@),
        {
            let ghost prefix = self.search.prefix_spec();
            let ghost maxd = self.search.max_depth_spec();
            let ghost pre = *self;
            if self.terminal_queue.len() > 0 {
                let p = self.terminal_queue.remove(0);
                proof {
                    let tq = pre.terminal_queue@;
                    assert(self.terminal_queue@ =~= tq.drop_first());
                    assert(Self::term_map(tq.drop_first()) =~= Self::term_map(tq).drop_first());
                    assert(Self::term_map(tq).len() > 0);
                    assert(pre.remaining()[0] == Self::term_map(tq)[0]);
                    assert(self.remaining() =~= pre.remaining().drop_first());
                }
                return Some(p);
            }
            match self.node_queue.pop() {
                Some(pair) => {
                    let (w, n) = pair;
                    let ghost popped = *self;
                    proof {
                        assert(pre.node_queue@.drop_last() =~= popped.node_queue@);
                        assert(pre.node_queue@.last() == (w, n));
                        assert(n.wf()) by {
                            assert(pre.node_queue@[pre.node_queue@.len() - 1].1.wf());
                        }
                        assert forall|j: int|
                            0 <= j < popped.node_queue@.len() implies (
                        #[trigger] popped.node_queue@[j]).1.wf() by {
                            assert(pre.node_queue@[j].1.wf());
                        }
                        assert(Self::queue_enum(pre.node_queue@, prefix, maxd) == n.enum_node(
                            w@,
                            prefix,
                            maxd,
                        ) + Self::queue_enum(popped.node_queue@, prefix, maxd));
                        assert(Self::queue_size(pre.node_queue@) == n.size() + Self::queue_size(
                            popped.node_queue@,
                        ));
                        assert(pre.terminal_queue@ =~= Seq::<(NormalizedWord, &'a T)>::empty());
                        assert(Self::term_map(pre.terminal_queue@) =~= Seq::<
                            (Seq<NormalizedChar>, T),
                        >::empty());
                    }
                    self.visit(w, n);
                    proof {
                        assert(n.size() == 1 + n.size_children(0));
                        assert(Self::queue_size(self.node_queue@) < Self::queue_size(
                            pre.node_queue@,
                        ));
                        assert(n.enum_node(w@, prefix, maxd) == n.enum_terms(
                            w@,
                            prefix.len() as int,
                        ) + n.enum_children(w@, prefix, maxd, 0));
                        assert(self.remaining() =~= pre.remaining());
                    }
                },
                None => {
                    proof {
                        assert(self.node_queue@.len() == 0);
                        assert(Self::queue_enum(self.node_queue@, prefix, maxd) =~= Seq::<
                            (Seq<NormalizedChar>, T),
                        >::empty());
                        assert(self.terminal_queue@.len() == 0);
                        assert(self.remaining() =~= Seq::<(Seq<NormalizedChar>, T)>::empty());
                    }
                    return None;
                },
            }
        }
    }
}

} // verus!
