//! The canonical 26-letter alphabet and words over it.
//!
//! Every input character is folded onto one of 26 canonical letters:
//! ASCII letters case-insensitively, a fixed table of Latin-1 accented
//! variants onto their base letter, and everything else is dropped.

use vstd::prelude::*;

verus! {

use vstd::std_specs::iter::IteratorSpec;

broadcast use vstd::string::next_postcondition, vstd::string::axiom_spec_iter;

/// One of the 26 canonical letters.
#[derive(Debug, PartialEq, Eq, Structural, Clone, Copy)]
pub enum NormalizedChar {
    A,
    B,
    C,
    D,
    E,
    F,
    G,
    H,
    I,
    J,
    K,
    L,
    M,
    N,
    O,
    P,
    Q,
    R,
    S,
    T,
    U,
    V,
    W,
    X,
    Y,
    Z,
}

pub const ALPHABET_SIZE: usize = 26;

impl NormalizedChar {
    /// The position of this letter in the canonical order: `A` is 0, `Z` is 25.
    pub open spec fn idx(self) -> int {
        match self {
            NormalizedChar::A => 0,
            NormalizedChar::B => 1,
            NormalizedChar::C => 2,
            NormalizedChar::D => 3,
            NormalizedChar::E => 4,
            NormalizedChar::F => 5,
            NormalizedChar::G => 6,
            NormalizedChar::H => 7,
            NormalizedChar::I => 8,
            NormalizedChar::J => 9,
            NormalizedChar::K => 10,
            NormalizedChar::L => 11,
            NormalizedChar::M => 12,
            NormalizedChar::N => 13,
            NormalizedChar::O => 14,
            NormalizedChar::P => 15,
            NormalizedChar::Q => 16,
            NormalizedChar::R => 17,
            NormalizedChar::S => 18,
            NormalizedChar::T => 19,
            NormalizedChar::U => 20,
            NormalizedChar::V => 21,
            NormalizedChar::W => 22,
            NormalizedChar::X => 23,
            NormalizedChar::Y => 24,
            NormalizedChar::Z => 25,
        }
    }

    /// The canonical letter standing at position `i`; `A` for anything out of range.
    pub open spec fn from_idx(i: int) -> NormalizedChar {
        if i == 0 {
            NormalizedChar::A
        } else if i == 1 {
            NormalizedChar::B
        } else if i == 2 {
            NormalizedChar::C
        } else if i == 3 {
            NormalizedChar::D
        } else if i == 4 {
            NormalizedChar::E
        } else if i == 5 {
            NormalizedChar::F
        } else if i == 6 {
            NormalizedChar::G
        } else if i == 7 {
            NormalizedChar::H
        } else if i == 8 {
            NormalizedChar::I
        } else if i == 9 {
            NormalizedChar::J
        } else if i == 10 {
            NormalizedChar::K
        } else if i == 11 {
            NormalizedChar::L
        } else if i == 12 {
            NormalizedChar::M
        } else if i == 13 {
            NormalizedChar::N
        } else if i == 14 {
            NormalizedChar::O
        } else if i == 15 {
            NormalizedChar::P
        } else if i == 16 {
            NormalizedChar::Q
        } else if i == 17 {
            NormalizedChar::R
        } else if i == 18 {
            NormalizedChar::S
        } else if i == 19 {
            NormalizedChar::T
        } else if i == 20 {
            NormalizedChar::U
        } else if i == 21 {
            NormalizedChar::V
        } else if i == 22 {
            NormalizedChar::W
        } else if i == 23 {
            NormalizedChar::X
        } else if i == 24 {
            NormalizedChar::Y
        } else {
            NormalizedChar::Z
        }
    }

    /// The canonical position, as an executable index.
    pub fn as_index(self) -> (i: usize)
        ensures
            i == self.idx(),
            i < 26,
    {
        match self {
            NormalizedChar::A => 0,
            NormalizedChar::B => 1,
            NormalizedChar::C => 2,
            NormalizedChar::D => 3,
            NormalizedChar::E => 4,
            NormalizedChar::F => 5,
            NormalizedChar::G => 6,
            NormalizedChar::H => 7,
            NormalizedChar::I => 8,
            NormalizedChar::J => 9,
            NormalizedChar::K => 10,
            NormalizedChar::L => 11,
            NormalizedChar::M => 12,
            NormalizedChar::N => 13,
            NormalizedChar::O => 14,
            NormalizedChar::P => 15,
            NormalizedChar::Q => 16,
            NormalizedChar::R => 17,
            NormalizedChar::S => 18,
            NormalizedChar::T => 19,
            NormalizedChar::U => 20,
            NormalizedChar::V => 21,
            NormalizedChar::W => 22,
            NormalizedChar::X => 23,
            NormalizedChar::Y => 24,
            NormalizedChar::Z => 25,
        }
    }

    /// The letter at canonical position `i`.
    pub fn from_index(i: usize) -> (c: NormalizedChar)
        requires
            i < 26,
        ensures
            c == NormalizedChar::from_idx(i as int),
            c.idx() == i,
    {
        let letters = NormalizedChar::all();
        letters[i]
    }

    /// All 26 canonical letters, in canonical order.
    pub fn all() -> (v: Vec<NormalizedChar>)
        ensures
            v@.len() == 26,
            forall|i: int| 0 <= i < 26 ==> v@[i] == NormalizedChar::from_idx(i),
            forall|i: int| 0 <= i < 26 ==> (#[trigger] v@[i]).idx() == i,
    {
        let v: Vec<NormalizedChar> = vec![
            NormalizedChar::A,
            NormalizedChar::B,
            NormalizedChar::C,
            NormalizedChar::D,
            NormalizedChar::E,
            NormalizedChar::F,
            NormalizedChar::G,
            NormalizedChar::H,
            NormalizedChar::I,
            NormalizedChar::J,
            NormalizedChar::K,
            NormalizedChar::L,
            NormalizedChar::M,
            NormalizedChar::N,
            NormalizedChar::O,
            NormalizedChar::P,
            NormalizedChar::Q,
            NormalizedChar::R,
            NormalizedChar::S,
            NormalizedChar::T,
            NormalizedChar::U,
            NormalizedChar::V,
            NormalizedChar::W,
            NormalizedChar::X,
            NormalizedChar::Y,
            NormalizedChar::Z,
        ];
        assert forall|i: int| 0 <= i < 26 implies v@[i] == NormalizedChar::from_idx(i) by {
        }
        v
    }

    /// What `from_char` returns: the accent-folding table, after the ASCII ranges.
    pub open spec fn fold_accent(ch: char) -> Option<NormalizedChar> {
        match ch {
            '\u{e1}' | '\u{c1}' | '\u{e2}' | '\u{c2}' | '\u{e4}' | '\u{c4}' | '\u{e0}'
                | '\u{c0}' | '\u{e3}' | '\u{c3}' | '\u{e5}' | '\u{c5}' => Some(NormalizedChar::A),
            '\u{e7}' | '\u{c7}' => Some(NormalizedChar::C),
            '\u{e9}' | '\u{c9}' | '\u{ea}' | '\u{ca}' | '\u{eb}' | '\u{cb}' | '\u{e8}'
                | '\u{c8}' => Some(NormalizedChar::E),
            '\u{ed}' | '\u{cd}' | '\u{ee}' | '\u{ce}' | '\u{ef}' | '\u{cf}' | '\u{ec}'
                | '\u{cc}' => Some(NormalizedChar::I),
            '\u{f1}' | '\u{d1}' => Some(NormalizedChar::N),
            '\u{f3}' | '\u{d3}' | '\u{f4}' | '\u{d4}' | '\u{f6}' | '\u{d6}' | '\u{f2}'
                | '\u{d2}' | '\u{f5}' | '\u{d5}' => Some(NormalizedChar::O),
            '\u{fa}' | '\u{da}' | '\u{fb}' | '\u{db}' | '\u{fc}' | '\u{dc}' | '\u{f9}'
                | '\u{d9}' => Some(NormalizedChar::U),
            '\u{fd}' | '\u{dd}' => Some(NormalizedChar::Y),
            _ => None,
        }
    }

    /// What `from_char` returns on any character.
    pub open spec fn from_char_spec(ch: char) -> Option<NormalizedChar> {
        if 'A' <= ch && ch <= 'Z' {
            Some(NormalizedChar::from_idx(ch as int - 'A' as int))
        } else if 'a' <= ch && ch <= 'z' {
            Some(NormalizedChar::from_idx(ch as int - 'a' as int))
        } else {
            NormalizedChar::fold_accent(ch)
        }
    }

    /// Folds one character onto the canonical alphabet: ASCII letters
    /// case-insensitively, the fixed accent table onto base letters,
    /// everything else to `None`.
    pub fn from_char(ch: char) -> (r: Option<NormalizedChar>)
        ensures
            r == NormalizedChar::from_char_spec(ch),
    {
        if 'A' <= ch && ch <= 'Z' {
            let off = ch as u32 - 'A' as u32;
            Some(NormalizedChar::from_index(off as usize))
        } else if 'a' <= ch && ch <= 'z' {
            let off = ch as u32 - 'a' as u32;
            Some(NormalizedChar::from_index(off as usize))
        } else {
            match ch {
                '\u{e1}' | '\u{c1}' | '\u{e2}' | '\u{c2}' | '\u{e4}' | '\u{c4}' | '\u{e0}'
                    | '\u{c0}' | '\u{e3}' | '\u{c3}' | '\u{e5}' | '\u{c5}' => Some(
                    NormalizedChar::A,
                ),
                '\u{e7}' | '\u{c7}' => Some(NormalizedChar::C),
                '\u{e9}' | '\u{c9}' | '\u{ea}' | '\u{ca}' | '\u{eb}' | '\u{cb}' | '\u{e8}'
                    | '\u{c8}' => Some(NormalizedChar::E),
                '\u{ed}' | '\u{cd}' | '\u{ee}' | '\u{ce}' | '\u{ef}' | '\u{cf}' | '\u{ec}'
                    | '\u{cc}' => Some(NormalizedChar::I),
                '\u{f1}' | '\u{d1}' => Some(NormalizedChar::N),
                '\u{f3}' | '\u{d3}' | '\u{f4}' | '\u{d4}' | '\u{f6}' | '\u{d6}' | '\u{f2}'
                    | '\u{d2}' | '\u{f5}' | '\u{d5}' => Some(NormalizedChar::O),
                '\u{fa}' | '\u{da}' | '\u{fb}' | '\u{db}' | '\u{fc}' | '\u{dc}' | '\u{f9}'
                    | '\u{d9}' => Some(NormalizedChar::U),
                '\u{fd}' | '\u{dd}' => Some(NormalizedChar::Y),
                _ => None,
            }
        }
    }
}

/// Collects the characters of a string, in order.
pub fn str_chars(s: &str) -> (v: Vec<char>)
    ensures
        v@ == s@,
{
    let mut v: Vec<char> = Vec::new();
    let mut it = s.chars();
    loop
        invariant
            it.obeys_prophetic_iter_laws(),
            it.decrease() is Some,
            v@ + it.remaining() == s@,
        decreases it.decrease()->0,
    {
        match it.next() {
            Some(ch) => {
                v.push(ch);
                proof {
                    assert(v@ + it.remaining() =~= s@);
                }
            },
            None => {
                proof {
                    assert(v@ =~= s@);
                }
                return v;
            },
        }
    }
}

/// The sequence of canonical letters that a sequence of raw characters
/// folds onto: mapped where `from_char_spec` maps, dropped where it does not.
pub open spec fn normalize_seq(s: Seq<char>) -> Seq<NormalizedChar>
    decreases s.len(),
{
    if s.len() == 0 {
        Seq::empty()
    } else {
        match NormalizedChar::from_char_spec(s[0]) {
            Some(c) => seq![c] + normalize_seq(s.drop_first()),
            None => normalize_seq(s.drop_first()),
        }
    }
}

/// Normalization distributes over concatenation.
pub proof fn lemma_normalize_seq_append(a: Seq<char>, b: Seq<char>)
    ensures
        normalize_seq(a + b) == normalize_seq(a) + normalize_seq(b),
    decreases a.len(),
{
    if a.len() == 0 {
        assert(a + b =~= b);
        assert(normalize_seq(a) + normalize_seq(b) =~= normalize_seq(b));
    } else {
        assert((a + b).drop_first() =~= a.drop_first() + b);
        lemma_normalize_seq_append(a.drop_first(), b);
        match NormalizedChar::from_char_spec(a[0]) {
            Some(c) => {
                assert(normalize_seq(a + b) == seq![c] + (normalize_seq(a.drop_first())
                    + normalize_seq(b)));
                assert(seq![c] + (normalize_seq(a.drop_first()) + normalize_seq(b)) =~= (seq![c]
                    + normalize_seq(a.drop_first())) + normalize_seq(b));
            },
            None => {},
        }
    }
}

/// Lexicographic order on canonical letter sequences, by canonical
/// letter position; a proper prefix comes first.
pub open spec fn lex_cmp(a: Seq<NormalizedChar>, b: Seq<NormalizedChar>) -> core::cmp::Ordering
    decreases a.len(),
{
    if a.len() == 0 && b.len() == 0 {
        core::cmp::Ordering::Equal
    } else if a.len() == 0 {
        core::cmp::Ordering::Less
    } else if b.len() == 0 {
        core::cmp::Ordering::Greater
    } else if a[0].idx() < b[0].idx() {
        core::cmp::Ordering::Less
    } else if a[0].idx() > b[0].idx() {
        core::cmp::Ordering::Greater
    } else {
        lex_cmp(a.drop_first(), b.drop_first())
    }
}

/// Whether `a` comes no later than `b` in lexicographic order.
pub open spec fn lex_leq(a: Seq<NormalizedChar>, b: Seq<NormalizedChar>) -> bool {
    lex_cmp(a, b) != core::cmp::Ordering::Greater
}

/// Comparing under a shared prefix compares the remainders.
pub proof fn lemma_lex_cmp_common_prefix(
    p: Seq<NormalizedChar>,
    a: Seq<NormalizedChar>,
    b: Seq<NormalizedChar>,
)
    ensures
        lex_cmp(p + a, p + b) == lex_cmp(a, b),
    decreases p.len(),
{
    if p.len() == 0 {
        assert(p + a =~= a);
        assert(p + b =~= b);
    } else {
        assert((p + a).len() > 0);
        assert((p + a)[0] == p[0]);
        assert((p + b)[0] == p[0]);
        assert((p + a).drop_first() =~= p.drop_first() + a);
        assert((p + b).drop_first() =~= p.drop_first() + b);
        lemma_lex_cmp_common_prefix(p.drop_first(), a, b);
    }
}

/// An ordered sequence of canonical letters.
#[derive(Debug, PartialEq, Eq)]
pub struct NormalizedWord {
    chars: Vec<NormalizedChar>,
}

impl View for NormalizedWord {
    type V = Seq<NormalizedChar>;

    closed spec fn view(&self) -> Seq<NormalizedChar> {
        self.chars@
    }
}

impl Clone for NormalizedWord {
    fn clone(&self) -> (r: Self)
        ensures
            r@ == self@,
    {
        let mut chars: Vec<NormalizedChar> = Vec::new();
        let mut i: usize = 0;
        while i < self.chars.len()
            invariant
                i <= self.chars.len(),
                chars@ =~= self.chars@.take(i as int),
            decreases self.chars.len() - i,
        {
            chars.push(self.chars[i]);
            i += 1;
        }
        assert(chars@ =~= self.chars@);
        NormalizedWord { chars }
    }
}

impl Default for NormalizedWord {
    /// The empty word.
    fn default() -> (r: NormalizedWord)
        ensures
            r@ == Seq::<NormalizedChar>::empty(),
    {
        NormalizedWord::empty()
    }
}

impl NormalizedWord {
    /// Wraps an already-canonical letter sequence.
    pub fn new(chars: Vec<NormalizedChar>) -> (r: NormalizedWord)
        ensures
            r@ == chars@,
    {
        NormalizedWord { chars }
    }

    /// The empty word.
    pub fn empty() -> (r: NormalizedWord)
        ensures
            r@ == Seq::<NormalizedChar>::empty(),
    {
        NormalizedWord { chars: Vec::new() }
    }

    /// Folds a raw string onto the canonical alphabet, dropping
    /// every character the alphabet has no slot for.
    pub fn from_str_safe(s: &str) -> (r: NormalizedWord)
        ensures
            r@ == normalize_seq(s@),
    {
        let mut chars: Vec<NormalizedChar> = Vec::new();
        let mut it = s.chars();
        loop
            invariant
                it.obeys_prophetic_iter_laws(),
                it.decrease() is Some,
                chars@ + normalize_seq(it.remaining()) == normalize_seq(s@),
            decreases it.decrease()->0,
        {
            let ghost prev = it.remaining();
            match it.next() {
                Some(ch) => {
                    proof {
                        assert(prev =~= seq![prev[0]] + prev.drop_first());
                        lemma_normalize_seq_append(seq![prev[0]], prev.drop_first());
                        assert(seq![prev[0]].drop_first() =~= Seq::<char>::empty());
                    }
                    match NormalizedChar::from_char(ch) {
                        Some(c) => {
                            chars.push(c);
                            proof {
                                assert(normalize_seq(seq![prev[0]]) =~= seq![c]);
                                assert(chars@ + normalize_seq(it.remaining()) =~= normalize_seq(
                                    s@,
                                ));
                            }
                        },
                        None => {
                            proof {
                                assert(normalize_seq(seq![prev[0]]) =~= Seq::<
                                    NormalizedChar,
                                >::empty());
                                assert(chars@ + normalize_seq(it.remaining()) =~= normalize_seq(
                                    s@,
                                ));
                            }
                        },
                    }
                },
                None => {
                    proof {
                        assert(chars@ =~= normalize_seq(s@));
                    }
                    return NormalizedWord { chars };
                },
            }
        }
    }

    /// Folds a range of an already-collected character sequence.
    pub fn from_char_range(v: &Vec<char>, lo: usize, hi: usize) -> (r: NormalizedWord)
        requires
            lo <= hi <= v@.len(),
        ensures
            r@ == normalize_seq(v@.subrange(lo as int, hi as int)),
    {
        let mut chars: Vec<NormalizedChar> = Vec::new();
        let mut i: usize = lo;
        while i < hi
            invariant
                lo <= i <= hi <= v@.len(),
                chars@ == normalize_seq(v@.subrange(lo as int, i as int)),
            decreases hi - i,
        {
            proof {
                assert(v@.subrange(lo as int, i + 1) =~= v@.subrange(lo as int, i as int)
                    + seq![v@[i as int]]);
                lemma_normalize_seq_append(v@.subrange(lo as int, i as int), seq![v@[i as int]]);
                assert(seq![v@[i as int]].drop_first() =~= Seq::<char>::empty());
                assert(normalize_seq(Seq::<char>::empty()) =~= Seq::<NormalizedChar>::empty());
                assert(seq![v@[i as int]][0] == v@[i as int]);
            }
            match NormalizedChar::from_char(v[i]) {
                Some(c) => {
                    chars.push(c);
                    proof {
                        assert(normalize_seq(seq![v@[i as int]]) =~= seq![c]);
                        assert(chars@ =~= normalize_seq(v@.subrange(lo as int, i + 1)));
                    }
                },
                None => {
                    proof {
                        assert(normalize_seq(seq![v@[i as int]]) =~= Seq::<
                            NormalizedChar,
                        >::empty());
                        assert(chars@ =~= normalize_seq(v@.subrange(lo as int, i + 1)));
                    }
                },
            }
            i += 1;
        }
        proof {
            assert(chars@ =~= normalize_seq(v@.subrange(lo as int, hi as int)));
        }
        NormalizedWord { chars }
    }

    /// The same folding, under the name the earlier revision used.
    pub fn from_str(s: &str) -> (r: NormalizedWord)
        ensures
            r@ == normalize_seq(s@),
    {
        NormalizedWord::from_str_safe(s)
    }

    /// How many canonical letters the word holds.
    pub fn len(&self) -> (n: usize)
        ensures
            n == self@.len(),
    {
        self.chars.len()
    }

    /// Whether the word holds no letters.
    pub fn is_empty(&self) -> (b: bool)
        ensures
            b == (self@.len() == 0),
    {
        self.chars.len() == 0
    }

    /// Appends one letter.
    pub fn push(&mut self, ch: NormalizedChar)
        ensures
            final(self)@ == old(self)@.push(ch),
    {
        self.chars.push(ch);
    }

    /// The letter at position `i`.
    pub fn char_at(&self, i: usize) -> (c: NormalizedChar)
        requires
            i < self@.len(),
        ensures
            c == self@[i as int],
    {
        self.chars[i]
    }

    /// The word's letters, in order.
    pub fn iter_chars(&self) -> (v: &Vec<NormalizedChar>)
        ensures
            v@ == self@,
    {
        &self.chars
    }

    /// Whether the word reads the same in both directions.
    pub open spec fn palindrome_spec(s: Seq<NormalizedChar>) -> bool {
        forall|i: int| 0 <= i < s.len() ==> #[trigger] s[i] == s[s.len() - 1 - i]
    }

    /// Whether the word reads the same in both directions.
    pub fn is_palindrome(self) -> (b: bool)
        ensures
            b == NormalizedWord::palindrome_spec(self@),
    {
        if self.chars.len() == 0 {
            return true;
        }
        let mut i: usize = 0;
        let mut j: usize = self.chars.len() - 1;
        while i < j
            invariant
                0 <= i,
                i + j == self@.len() - 1,
                j < self@.len(),
                forall|k: int| 0 <= k < i ==> #[trigger] self@[k] == self@[self@.len() - 1 - k],
            decreases j,
        {
            if self.chars[i] != self.chars[j] {
                assert(!NormalizedWord::palindrome_spec(self@));
                return false;
            }
            i += 1;
            j -= 1;
        }
        assert forall|k: int| 0 <= k < self@.len() implies #[trigger] self@[k] == self@[self@.len()
            - 1 - k] by {
            if k < i {
            } else {
                let m = self@.len() - 1 - k;
                assert(m < i || m == k);
            }
        }
        true
    }
}

} // verus!
