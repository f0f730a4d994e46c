//! A single-position match constraint: one exact letter, or any letter.

use vstd::prelude::*;

use crate::normalized_word::NormalizedChar;

verus! {

/// What one position of a pattern demands: a fixed canonical letter,
/// or any letter at all.
#[derive(Debug, PartialEq, Eq, Structural, Copy, Clone)]
pub enum CharMatch {
    Only(NormalizedChar),
    Any,
}

impl CharMatch {
    /// Whether `ch` satisfies this constraint.
    pub open spec fn matches_spec(self, ch: NormalizedChar) -> bool {
        match self {
            CharMatch::Only(exp) => exp == ch,
            CharMatch::Any => true,
        }
    }

    /// Whether `ch` satisfies this constraint.
    pub fn matches(&self, ch: &NormalizedChar) -> (b: bool)
        ensures
            b == self.matches_spec(*ch),
    {
        match self {
            CharMatch::Only(exp) => *exp == *ch,
            CharMatch::Any => true,
        }
    }

    /// What `from_char` returns: the wildcard characters give `Any`,
    /// a character the alphabet can fold gives its exact letter, and
    /// anything else gives nothing.
    pub open spec fn from_char_spec(ch: char) -> Option<CharMatch> {
        if ch == ' ' || ch == '.' || ch == '?' {
            Some(CharMatch::Any)
        } else {
            match NormalizedChar::from_char_spec(ch) {
                Some(c) => Some(CharMatch::Only(c)),
                None => None,
            }
        }
    }

    /// Reads one pattern character: `' '`, `'.'` and `'?'` are the
    /// single-letter wildcard, any foldable letter is an exact
    /// constraint, and an unusable character gives `None`.
    pub fn from_char(ch: char) -> (r: Option<CharMatch>)
        ensures
            r == CharMatch::from_char_spec(ch),
    {
        if ch == ' ' || ch == '.' || ch == '?' {
            Some(CharMatch::Any)
        } else {
            match NormalizedChar::from_char(ch) {
                Some(c) => Some(CharMatch::Only(c)),
                None => None,
            }
        }
    }
}

} // verus!
