//! The textual command grammar and result ordering of the
//! interactive front end: parsing a command line into a search
//! request, and comparing search hits for presentation.

use vstd::prelude::*;

use crate::anagram_number::AnagramNumber;
use crate::dictionary::DictIterItem;
use crate::dictionary::WordPredicate;
use crate::normalized_word::lex_cmp;
use crate::normalized_word::normalize_seq;
use crate::normalized_word::str_chars;
use crate::normalized_word::NormalizedChar;
use crate::normalized_word::NormalizedWord;
use crate::primes::word_product;

verus! {

use core::cmp::Ordering;

/// What a result list is ordered by.
#[derive(Debug, PartialEq, Eq, Structural, Clone, Copy)]
pub enum SortAspect {
    Length,
    Alphabetical,
}

/// Which way the order runs.
#[derive(Debug, PartialEq, Eq, Structural, Clone, Copy)]
pub enum SortDirection {
    Ascending,
    Descending,
}

/// A sort request: an aspect and a direction.
#[derive(Debug, PartialEq, Eq, Structural, Clone, Copy)]
pub struct Sort(pub SortAspect, pub SortDirection);

/// The opposite ordering.
pub open spec fn reverse_ord(o: Ordering) -> Ordering {
    match o {
        Ordering::Less => Ordering::Greater,
        Ordering::Equal => Ordering::Equal,
        Ordering::Greater => Ordering::Less,
    }
}

impl Sort {
    /// How this sort orders two normalized words.
    pub open spec fn compare_spec(self, a: Seq<NormalizedChar>, b: Seq<NormalizedChar>) -> Ordering {
        let base = match self.0 {
            SortAspect::Length => if a.len() < b.len() {
                Ordering::Less
            } else if a.len() > b.len() {
                Ordering::Greater
            } else {
                Ordering::Equal
            },
            SortAspect::Alphabetical => lex_cmp(a, b),
        };
        match self.1 {
            SortDirection::Ascending => base,
            SortDirection::Descending => reverse_ord(base),
        }
    }

    /// Orders two search hits by their normalized words.
    pub fn compare(&self, a: &DictIterItem, b: &DictIterItem) -> (r: Ordering)
        ensures
            r == self.compare_spec(a.normalized@, b.normalized@),
    {
        let base = match self.0 {
            SortAspect::Length => {
                let la = a.normalized.len();
                let lb = b.normalized.len();
                if la < lb {
                    Ordering::Less
                } else if la > lb {
                    Ordering::Greater
                } else {
                    Ordering::Equal
                }
            },
            SortAspect::Alphabetical => lex_compare(&a.normalized, &b.normalized),
        };
        match self.1 {
            SortDirection::Ascending => base,
            SortDirection::Descending => match base {
                Ordering::Less => Ordering::Greater,
                Ordering::Equal => Ordering::Equal,
                Ordering::Greater => Ordering::Less,
            },
        }
    }
}

/// Compares two normalized words lexicographically.
fn lex_compare(a: &NormalizedWord, b: &NormalizedWord) -> (r: Ordering)
    ensures
        r == lex_cmp(a@, b@),
{
    let la = a.len();
    let lb = b.len();
    proof {
        assert(a@.skip(0) =~= a@);
        assert(b@.skip(0) =~= b@);
    }
    let mut i: usize = 0;
    loop
        invariant
            i <= la,
            i <= lb,
            la == a@.len(),
            lb == b@.len(),
            lex_cmp(a@, b@) == lex_cmp(a@.skip(i as int), b@.skip(i as int)),
        decreases la - i,
    {
        let ghost sa = a@.skip(i as int);
        let ghost sb = b@.skip(i as int);
        if i == la || i == lb {
            if la == lb {
                return Ordering::Equal;
            } else if i == la {
                return Ordering::Less;
            } else {
                return Ordering::Greater;
            }
        }
        let ca = a.char_at(i);
        let cb = b.char_at(i);
        proof {
            assert(sa[0] == a@[i as int]);
            assert(sb[0] == b@[i as int]);
            assert(sa.drop_first() =~= a@.skip(i + 1));
            assert(sb.drop_first() =~= b@.skip(i + 1));
        }
        let ia = ca.as_index();
        let ib = cb.as_index();
        if ia < ib {
            return Ordering::Less;
        } else if ia > ib {
            return Ordering::Greater;
        }
        i += 1;
    }
}

/// One parsed command: a search to run, with an optional result
/// order, or the request to quit.
#[derive(Debug, PartialEq)]
pub enum Command {
    Find { prefix: Vec<char>, predicate: WordPredicate, sort: Option<Sort> },
    Quit,
}

/// What one comma-separated clause of a find command asks for.
pub enum Clause {
    Prefix(Seq<char>),
    Anagram(Seq<char>),
    Superanagram(Seq<char>),
    Subanagram(Seq<char>),
    SortKey(Sort),
    Other,
}

/// The position of the first `sep` in `s`, or `s.len()` where none
/// occurs.
pub open spec fn first_sep(s: Seq<char>, sep: char) -> int
    decreases s.len(),
{
    if s.len() == 0 {
        0
    } else if s[0] == sep {
        0
    } else {
        1 + first_sep(s.drop_first(), sep)
    }
}

/// What `first_sep` finds: the first occurrence, nothing before it.
pub proof fn lemma_first_sep(s: Seq<char>, sep: char)
    ensures
        0 <= first_sep(s, sep) <= s.len(),
        first_sep(s, sep) < s.len() ==> s[first_sep(s, sep)] == sep,
        forall|j: int| 0 <= j < first_sep(s, sep) ==> s[j] != sep,
    decreases s.len(),
{
    if s.len() > 0 && s[0] != sep {
        lemma_first_sep(s.drop_first(), sep);
        assert forall|j: int| 0 <= j < first_sep(s, sep) implies s[j] != sep by {
            if j > 0 {
                assert(s.drop_first()[j - 1] != sep);
            }
        }
    }
}

/// Any index with those properties is `first_sep`.
pub proof fn lemma_first_sep_from(s: Seq<char>, sep: char, i: int)
    requires
        0 <= i <= s.len(),
        i < s.len() ==> s[i] == sep,
        forall|j: int| 0 <= j < i ==> s[j] != sep,
    ensures
        first_sep(s, sep) == i,
    decreases s.len(),
{
    if s.len() > 0 && s[0] != sep {
        assert forall|j: int| 0 <= j < i - 1 implies s.drop_first()[j] != sep by {
            assert(s[j + 1] != sep);
        }
        lemma_first_sep_from(s.drop_first(), sep, i - 1);
    }
}

/// The comma-separated pieces of a string, in order; separators are
/// dropped, empty pieces kept.
pub open spec fn split_on(s: Seq<char>, sep: char) -> Seq<Seq<char>>
    decreases s.len(),
    via split_on_decreases
{
    let i = first_sep(s, sep);
    if i >= s.len() {
        seq![s]
    } else {
        seq![s.take(i)] + split_on(s.skip(i + 1), sep)
    }
}

#[via_fn]
proof fn split_on_decreases(s: Seq<char>, sep: char) {
    lemma_first_sep(s, sep);
}

/// The string without leading spaces.
pub open spec fn trim_front(s: Seq<char>) -> Seq<char>
    decreases s.len(),
{
    if s.len() > 0 && s[0] == ' ' {
        trim_front(s.drop_first())
    } else {
        s
    }
}

/// The string without trailing spaces.
pub open spec fn trim_back(s: Seq<char>) -> Seq<char>
    decreases s.len(),
{
    if s.len() > 0 && s.last() == ' ' {
        trim_back(s.drop_last())
    } else {
        s
    }
}

/// The string without leading or trailing spaces.
pub open spec fn trim_spec(s: Seq<char>) -> Seq<char> {
    trim_back(trim_front(s))
}

/// Reads one clause: the trimmed piece split at its single space
/// into a keyword and an operand.  A piece without exactly one
/// space, or with an unknown keyword or sort key, asks for nothing.
pub open spec fn clause_of(piece: Seq<char>) -> Clause {
    let t = trim_spec(piece);
    let i = first_sep(t, ' ');
    if i >= t.len() {
        Clause::Other
    } else {
        let key = t.take(i);
        let op = t.skip(i + 1);
        if first_sep(op, ' ') < op.len() {
            Clause::Other
        } else if key == seq!['p'] {
            Clause::Prefix(op)
        } else if key == seq!['a'] {
            Clause::Anagram(op)
        } else if key == seq!['a', '+'] {
            Clause::Superanagram(op)
        } else if key == seq!['a', '-'] {
            Clause::Subanagram(op)
        } else if key == seq!['s', 'o', 'r', 't'] {
            if op == seq!['l', 'e', 'n'] {
                Clause::SortKey(Sort(SortAspect::Length, SortDirection::Ascending))
            } else if op == seq!['l', 'e', 'n', '-'] {
                Clause::SortKey(Sort(SortAspect::Length, SortDirection::Descending))
            } else if op == seq!['a', 'l', 'p', 'h'] {
                Clause::SortKey(Sort(SortAspect::Alphabetical, SortDirection::Ascending))
            } else if op == seq!['a', 'l', 'p', 'h', '-'] {
                Clause::SortKey(Sort(SortAspect::Alphabetical, SortDirection::Descending))
            } else {
                Clause::Other
            }
        } else {
            Clause::Other
        }
    }
}

/// The predicate one anagram clause contributes.
pub open spec fn pred_of_clause(c: Clause) -> Seq<WordPredicate> {
    match c {
        Clause::Anagram(op) => seq![
            WordPredicate::AnagramOf(
                AnagramNumber::of_val(word_product(normalize_seq(op)) as u128),
            ),
        ],
        Clause::Superanagram(op) => seq![
            WordPredicate::SuperanagramOf(
                AnagramNumber::of_val(word_product(normalize_seq(op)) as u128),
            ),
        ],
        Clause::Subanagram(op) => seq![
            WordPredicate::SubanagramOf(
                AnagramNumber::of_val(word_product(normalize_seq(op)) as u128),
            ),
        ],
        _ => Seq::empty(),
    }
}

/// The prefix a sequence of clauses leaves behind: the last prefix
/// clause wins; none leaves it empty.
pub open spec fn prefix_result(pieces: Seq<Seq<char>>) -> Seq<char>
    decreases pieces.len(),
{
    if pieces.len() == 0 {
        Seq::empty()
    } else {
        match clause_of(pieces.last()) {
            Clause::Prefix(op) => op,
            _ => prefix_result(pieces.drop_last()),
        }
    }
}

/// The predicates the clauses contribute, in order.
pub open spec fn preds_result(pieces: Seq<Seq<char>>) -> Seq<WordPredicate>
    decreases pieces.len(),
{
    if pieces.len() == 0 {
        Seq::empty()
    } else {
        preds_result(pieces.drop_last()) + pred_of_clause(clause_of(pieces.last()))
    }
}

/// The sort the clauses leave behind: the last recognized sort
/// clause wins.
pub open spec fn sort_result(pieces: Seq<Seq<char>>) -> Option<Sort>
    decreases pieces.len(),
{
    if pieces.len() == 0 {
        Option::<Sort>::None
    } else {
        match clause_of(pieces.last()) {
            Clause::SortKey(srt) => Some(srt),
            _ => sort_result(pieces.drop_last()),
        }
    }
}

/// Whether a line asks to quit.
pub open spec fn is_quit_spec(s: Seq<char>) -> bool {
    s == seq!['q'] || s == seq!['q', 'u', 'i', 't']
}

/// Whether a line has the find shape: `f `, then clauses.
pub open spec fn is_find_spec(s: Seq<char>) -> bool {
    s.len() >= 2 && s[0] == 'f' && s[1] == ' '
}

/// Whether an anagram clause's operand can be encoded: the grammar
/// has no answer for one that cannot.
pub open spec fn clause_safe(piece: Seq<char>) -> bool {
    match clause_of(piece) {
        Clause::Anagram(op) => word_product(normalize_seq(op)) <= u128::MAX,
        Clause::Superanagram(op) => word_product(normalize_seq(op)) <= u128::MAX,
        Clause::Subanagram(op) => word_product(normalize_seq(op)) <= u128::MAX,
        _ => true,
    }
}

/// Every anagram operand of a find line can be encoded.
pub open spec fn parse_line_safe(s: Seq<char>) -> bool {
    is_find_spec(s) ==> forall|i: int|
        0 <= i < split_on(s.skip(2), ',').len() ==> clause_safe(
            #[trigger] split_on(s.skip(2), ',')[i],
        )
}

/// Parses one command line: `q` or `quit` asks to quit; `f ` starts
/// a find whose comma-separated clauses set the prefix (`p`), add
/// anagram predicates (`a`, `a+`, `a-`) and pick a sort (`sort`);
/// anything else is not a command.
pub fn parse_line(line: &str) -> (r: Option<Command>)
    requires
        parse_line_safe(line@),
    ensures
        is_quit_spec(line@) ==> r == Some(Command::Quit),
        !is_quit_spec(line@) && !is_find_spec(line@) ==> r is None,
        !is_quit_spec(line@) && is_find_spec(line@) ==> (r matches Some(c) && (c matches
        Command::Find { prefix, predicate, sort } && prefix@ == prefix_result(
            split_on(line@.skip(2), ','),
        ) && (predicate matches WordPredicate::All(ps) && ps@ == preds_result(
            split_on(line@.skip(2), ','),
        )) && sort == sort_result(split_on(line@.skip(2), ',')))),
{
    let v = str_chars(line);
    let n = v.len();
    if n == 1 && v[0] == 'q' {
        proof {
            assert(line@ =~= seq!['q']);
        }
        return Some(Command::Quit);
    }
    if n == 4 && v[0] == 'q' && v[1] == 'u' && v[2] == 'i' && v[3] == 't' {
        proof {
            assert(line@ =~= seq!['q', 'u', 'i', 't']);
        }
        return Some(Command::Quit);
    }
    proof {
        assert(!is_quit_spec(line@)) by {
            if line@ == seq!['q'] {
                assert(n == 1 && v@[0] == 'q');
            }
            if line@ == seq!['q', 'u', 'i', 't'] {
                assert(n == 4);
            }
        }
    }
    if n < 2 || v[0] != 'f' || v[1] != ' ' {
        return Option::<Command>::None;
    }
    let ghost rest = line@.skip(2);
    let mut prefix: Vec<char> = Vec::new();
    let mut predicates: Vec<WordPredicate> = Vec::new();
    let mut sort: Option<Sort> = Option::<Sort>::None;
    let mut pos: usize = 2;
    let ghost mut done: Seq<Seq<char>> = Seq::empty();
    loop
        invariant
            2 <= pos <= n,
            n == v@.len(),
            v@ == line@,
            parse_line_safe(line@),
            is_find_spec(line@),
            rest == line@.skip(2),
            split_on(rest, ',') == done + split_on(v@.skip(pos as int), ','),
            prefix@ == prefix_result(done),
            predicates@ == preds_result(done),
            sort == sort_result(done),
        decreases n - pos,
    {
        let mut c = pos;
        while c < n && v[c] != ','
            invariant
                pos <= c <= n,
                n == v@.len(),
                forall|j: int| pos <= j < c ==> v@[j] != ',',
            decreases n - c,
        {
            c += 1;
        }
        let ghost suffix = v@.skip(pos as int);
        let ghost piece = v@.subrange(pos as int, c as int);
        proof {
            assert forall|j: int| 0 <= j < c - pos implies suffix[j] != ',' by {
                assert(v@[pos + j] != ',');
            }
            if c < n {
                assert(suffix[c - pos] == ',');
            }
            lemma_first_sep_from(suffix, ',', c - pos);
            assert(suffix.take(c - pos) =~= piece);
            if c == n {
                assert(split_on(suffix, ',') == seq![suffix]);
                assert(suffix =~= piece);
            } else {
                assert(split_on(suffix, ',') == seq![piece] + split_on(suffix.skip(c - pos + 1), ','));
                assert(suffix.skip(c - pos + 1) =~= v@.skip(c + 1));
            }
            assert(clause_safe(piece)) by {
                let full = split_on(rest, ',');
                assert(full[done.len() as int] == piece);
            }
        }
        apply_clause(&v, pos, c, &mut prefix, &mut predicates, &mut sort);
        proof {
            let prev_done = done;
            done = done.push(piece);
            assert(done.drop_last() =~= prev_done);
            assert(done.last() == piece);
            assert(prefix@ == prefix_result(done));
            assert(predicates@ == preds_result(done));
            assert(sort == sort_result(done));
        }
        if c == n {
            proof {
                assert(done =~= split_on(rest, ','));
            }
            return Some(
                Command::Find { prefix, predicate: WordPredicate::All(predicates), sort },
            );
        }
        pos = c + 1;
        proof {
            assert(split_on(rest, ',') == done + split_on(v@.skip(pos as int), ','));
        }
    }
}

/// Applies one clause of a find command to the running state, as
/// `clause_of` reads it.
fn apply_clause(
    v: &Vec<char>,
    lo: usize,
    hi: usize,
    prefix: &mut Vec<char>,
    predicates: &mut Vec<WordPredicate>,
    sort: &mut Option<Sort>,
)
    requires
        lo <= hi <= v@.len(),
        clause_safe(v@.subrange(lo as int, hi as int)),
    ensures
        ({
            let cl = clause_of(v@.subrange(lo as int, hi as int));
            &&& (match cl {
                Clause::Prefix(op) => final(prefix)@ == op,
                _ => final(prefix)@ == old(prefix)@,
            })
            &&& final(predicates)@ == old(predicates)@ + pred_of_clause(cl)
            &&& (match cl {
                Clause::SortKey(srt) => *final(sort) == Some(srt),
                _ => *final(sort) == *old(sort),
            })
        }),
{
    let ghost piece = v@.subrange(lo as int, hi as int);
    // Trim spaces off both ends.
    let mut a = lo;
    while a < hi && v[a] == ' '
        invariant
            lo <= a <= hi <= v@.len(),
            trim_front(piece) == trim_front(v@.subrange(a as int, hi as int)),
        decreases hi - a,
    {
        proof {
            let cur = v@.subrange(a as int, hi as int);
            assert(cur[0] == ' ');
            assert(cur.drop_first() =~= v@.subrange(a + 1, hi as int));
        }
        a += 1;
    }
    proof {
        let cur = v@.subrange(a as int, hi as int);
        if cur.len() > 0 {
            assert(cur[0] == v@[a as int]);
        }
        assert(trim_front(piece) == cur);
    }
    let mut b = hi;
    while b > a && v[b - 1] == ' '
        invariant
            lo <= a <= b <= hi <= v@.len(),
            trim_front(piece) == v@.subrange(a as int, hi as int),
            trim_back(v@.subrange(a as int, hi as int)) == trim_back(
                v@.subrange(a as int, b as int),
            ),
        decreases b,
    {
        proof {
            let cur = v@.subrange(a as int, b as int);
            assert(cur.last() == ' ');
            assert(cur.drop_last() =~= v@.subrange(a as int, b - 1));
        }
        b -= 1;
    }
    let ghost t = v@.subrange(a as int, b as int);
    proof {
        if t.len() > 0 {
            assert(t.last() == v@[b - 1]);
        }
        assert(trim_back(v@.subrange(a as int, b as int)) == t);
        assert(trim_spec(piece) == t);
    }
    // Find the single space separating keyword and operand.
    let mut s1 = a;
    while s1 < b && v[s1] != ' '
        invariant
            a <= s1 <= b <= v@.len(),
            forall|j: int| a <= j < s1 ==> v@[j] != ' ',
        decreases b - s1,
    {
        s1 += 1;
    }
    proof {
        assert forall|j: int| 0 <= j < s1 - a implies t[j] != ' ' by {
            assert(v@[a + j] != ' ');
        }
        if s1 < b {
            assert(t[s1 - a] == ' ');
        }
        lemma_first_sep_from(t, ' ', s1 - a);
    }
    if s1 == b {
        proof {
            assert(clause_of(piece) is Other);
        }
        return ;
    }
    // The operand must hold no further space.
    let ghost key = t.take(s1 - a);
    let ghost op = t.skip(s1 - a + 1);
    proof {
        assert(key =~= v@.subrange(a as int, s1 as int));
        assert(op =~= v@.subrange(s1 + 1, b as int));
    }
    let mut s2 = s1 + 1;
    while s2 < b && v[s2] != ' '
        invariant
            s1 + 1 <= s2 <= b <= v@.len(),
            forall|j: int| s1 + 1 <= j < s2 ==> v@[j] != ' ',
        decreases b - s2,
    {
        s2 += 1;
    }
    if s2 < b {
        proof {
            assert(op[s2 - s1 - 1] == ' ');
            lemma_first_sep(op, ' ');
            assert(first_sep(op, ' ') < op.len()) by {
                if first_sep(op, ' ') > s2 - s1 - 1 {
                    assert(op[s2 - s1 - 1] != ' ');
                }
            }
            assert(clause_of(piece) is Other);
        }
        return ;
    }
    proof {
        assert forall|j: int| 0 <= j < op.len() implies op[j] != ' ' by {
            assert(v@[s1 + 1 + j] != ' ');
        }
        lemma_first_sep_from(op, ' ', op.len() as int);
    }
    let klen = s1 - a;
    let olen = b - (s1 + 1);
    if klen == 1 && v[a] == 'p' {
        proof {
            assert(key =~= seq!['p']);
        }
        let mut new_prefix: Vec<char> = Vec::new();
        let mut i = s1 + 1;
        while i < b
            invariant
                s1 + 1 <= i <= b <= v@.len(),
                new_prefix@ =~= v@.subrange(s1 + 1, i as int),
            decreases b - i,
        {
            new_prefix.push(v[i]);
            proof {
                assert(v@.subrange(s1 + 1, i + 1) =~= v@.subrange(s1 + 1, i as int).push(
                    v@[i as int],
                ));
            }
            i += 1;
        }
        *prefix = new_prefix;
        proof {
            assert(final(prefix)@ == op);
        }
    } else if klen == 1 && v[a] == 'a' {
        proof {
            assert(key =~= seq!['a']);
        }
        let word = NormalizedWord::from_char_range(v, s1 + 1, b);
        let num = match AnagramNumber::try_from(&word) {
            Ok(x) => x,
            Err(_) => vstd::pervasive::unreached(),
        };
        proof {
            AnagramNumber::lemma_of_val(num.val());
            AnagramNumber::lemma_val_injective(
                num,
                AnagramNumber::of_val(word_product(normalize_seq(op)) as u128),
            );
        }
        predicates.push(WordPredicate::AnagramOf(num));
    } else if klen == 2 && v[a] == 'a' && v[a + 1] == '+' {
        proof {
            assert(key =~= seq!['a', '+']);
        }
        let word = NormalizedWord::from_char_range(v, s1 + 1, b);
        let num = match AnagramNumber::try_from(&word) {
            Ok(x) => x,
            Err(_) => vstd::pervasive::unreached(),
        };
        proof {
            AnagramNumber::lemma_of_val(num.val());
            AnagramNumber::lemma_val_injective(
                num,
                AnagramNumber::of_val(word_product(normalize_seq(op)) as u128),
            );
        }
        predicates.push(WordPredicate::SuperanagramOf(num));
    } else if klen == 2 && v[a] == 'a' && v[a + 1] == '-' {
        proof {
            assert(key =~= seq!['a', '-']);
        }
        let word = NormalizedWord::from_char_range(v, s1 + 1, b);
        let num = match AnagramNumber::try_from(&word) {
            Ok(x) => x,
            Err(_) => vstd::pervasive::unreached(),
        };
        proof {
            AnagramNumber::lemma_of_val(num.val());
            AnagramNumber::lemma_val_injective(
                num,
                AnagramNumber::of_val(word_product(normalize_seq(op)) as u128),
            );
        }
        predicates.push(WordPredicate::SubanagramOf(num));
    } else if klen == 4 && v[a] == 's' && v[a + 1] == 'o' && v[a + 2] == 'r' && v[a + 3] == 't' {
        proof {
            assert(key =~= seq!['s', 'o', 'r', 't']);
        }
        if olen == 3 && v[s1 + 1] == 'l' && v[s1 + 2] == 'e' && v[s1 + 3] == 'n' {
            proof {
                assert(op =~= seq!['l', 'e', 'n']);
            }
            *sort = Some(Sort(SortAspect::Length, SortDirection::Ascending));
        } else if olen == 4 && v[s1 + 1] == 'l' && v[s1 + 2] == 'e' && v[s1 + 3] == 'n' && v[s1
            + 4] == '-' {
            proof {
                assert(op =~= seq!['l', 'e', 'n', '-']);
            }
            *sort = Some(Sort(SortAspect::Length, SortDirection::Descending));
        } else if olen == 4 && v[s1 + 1] == 'a' && v[s1 + 2] == 'l' && v[s1 + 3] == 'p' && v[s1
            + 4] == 'h' {
            proof {
                assert(op =~= seq!['a', 'l', 'p', 'h']);
            }
            *sort = Some(Sort(SortAspect::Alphabetical, SortDirection::Ascending));
        } else if olen == 5 && v[s1 + 1] == 'a' && v[s1 + 2] == 'l' && v[s1 + 3] == 'p' && v[s1
            + 4] == 'h' && v[s1 + 5] == '-' {
            proof {
                assert(op =~= seq!['a', 'l', 'p', 'h', '-']);
            }
            *sort = Some(Sort(SortAspect::Alphabetical, SortDirection::Descending));
        } else {
            proof {
                lemma_op_not_sort_key(op, v@, s1 as int, b as int);
            }
        }
    } else {
        proof {
            assert(clause_of(piece) is Other) by {
                if key == seq!['p'] {
                    assert(klen == 1 && v@[a as int] == 'p');
                }
                if key == seq!['a'] {
                    assert(klen == 1 && v@[a as int] == 'a');
                }
                if key == seq!['a', '+'] {
                    assert(klen == 2 && v@[a as int] == 'a' && v@[a + 1] == '+');
                }
                if key == seq!['a', '-'] {
                    assert(klen == 2 && v@[a as int] == 'a' && v@[a + 1] == '-');
                }
                if key == seq!['s', 'o', 'r', 't'] {
                    assert(klen == 4 && v@[a as int] == 's' && v@[a + 1] == 'o' && v@[a + 2] == 'r'
                        && v@[a + 3] == 't');
                }
            }
        }
    }
}

/// An operand that matches none of the four sort keys names no sort.
proof fn lemma_op_not_sort_key(op: Seq<char>, v: Seq<char>, s1: int, b: int)
    requires
        0 <= s1,
        s1 + 1 <= b <= v.len(),
        op == v.subrange(s1 + 1, b),
        !(b - (s1 + 1) == 3 && v[s1 + 1] == 'l' && v[s1 + 2] == 'e' && v[s1 + 3] == 'n'),
        !(b - (s1 + 1) == 4 && v[s1 + 1] == 'l' && v[s1 + 2] == 'e' && v[s1 + 3] == 'n' && v[s1
            + 4] == '-'),
        !(b - (s1 + 1) == 4 && v[s1 + 1] == 'a' && v[s1 + 2] == 'l' && v[s1 + 3] == 'p' && v[s1
            + 4] == 'h'),
        !(b - (s1 + 1) == 5 && v[s1 + 1] == 'a' && v[s1 + 2] == 'l' && v[s1 + 3] == 'p' && v[s1
            + 4] == 'h' && v[s1 + 5] == '-'),
    ensures
        op != seq!['l', 'e', 'n'],
        op != seq!['l', 'e', 'n', '-'],
        op != seq!['a', 'l', 'p', 'h'],
        op != seq!['a', 'l', 'p', 'h', '-'],
{
    if op == seq!['l', 'e', 'n'] {
        assert(op.len() == 3 && op[0] == 'l' && op[1] == 'e' && op[2] == 'n');
    }
    if op == seq!['l', 'e', 'n', '-'] {
        assert(op.len() == 4 && op[0] == 'l' && op[1] == 'e' && op[2] == 'n' && op[3] == '-');
    }
    if op == seq!['a', 'l', 'p', 'h'] {
        assert(op.len() == 4 && op[0] == 'a' && op[1] == 'l' && op[2] == 'p' && op[3] == 'h');
    }
    if op == seq!['a', 'l', 'p', 'h', '-'] {
        assert(op.len() == 5 && op[0] == 'a' && op[1] == 'l' && op[2] == 'p' && op[3] == 'h'
            && op[4] == '-');
    }
}

} // verus!
