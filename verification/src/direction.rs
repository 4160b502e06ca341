//! Which side of an entry is shown and which is asked for.

use vstd::prelude::*;
use vstd::std_specs::ops::BitAndSpecImpl;

verus! {

/// The direction in which an entry is quizzed.
#[derive(Debug, Clone, Copy, PartialEq, Eq, Structural)]
pub enum WordsDirection {
    /// Automatic, determined by list
    Auto,
    /// Term => definition
    TD,
    /// Definition => term
    DT,
    /// Both ways
    Both,
}

/// The direction that results when a session asks for `session` and the word
/// itself asks for `word`.
///
/// `Auto` defers to the other side. Otherwise `Both` wins over everything,
/// and `DT` wins over `TD`.
pub open spec fn merged(session: WordsDirection, word: WordsDirection) -> WordsDirection {
    match (session, word) {
        (WordsDirection::Auto, e) => e,
        (e, WordsDirection::Auto) => e,
        (WordsDirection::TD, WordsDirection::DT) => WordsDirection::DT,
        (WordsDirection::DT, WordsDirection::TD) => WordsDirection::DT,
        (WordsDirection::TD, WordsDirection::TD) => WordsDirection::TD,
        (WordsDirection::DT, WordsDirection::DT) => WordsDirection::DT,
        (_, WordsDirection::Both) => WordsDirection::Both,
        (WordsDirection::Both, _) => WordsDirection::Both,
    }
}

/// How strongly a direction asserts itself when two are merged.
pub open spec fn rank(d: WordsDirection) -> nat {
    match d {
        WordsDirection::Auto => 0,
        WordsDirection::TD => 1,
        WordsDirection::DT => 2,
        WordsDirection::Both => 3,
    }
}

/// The words by which a direction is shown to the user.
pub open spec fn label(d: WordsDirection) -> Seq<char> {
    match d {
        WordsDirection::Auto => "automatic"@,
        WordsDirection::TD => "term -> definition"@,
        WordsDirection::DT => "definition -> term"@,
        WordsDirection::Both => "both"@,
    }
}

impl Default for WordsDirection {
    fn default() -> (r: Self)
        ensures
            r == WordsDirection::TD,
    {
        WordsDirection::TD
    }
}

impl core::ops::BitAnd for WordsDirection {
    type Output = Self;

    /// Merges the direction of a session (left) with that of a word (right).
    fn bitand(self, rhs: Self) -> (r: Self) {
        match (self, rhs) {
            (WordsDirection::Auto, e) | (e, WordsDirection::Auto) => e,
            (WordsDirection::TD, WordsDirection::DT) => WordsDirection::DT,
            (WordsDirection::DT, WordsDirection::TD) => WordsDirection::DT,
            (WordsDirection::TD, WordsDirection::TD) => WordsDirection::TD,
            (WordsDirection::DT, WordsDirection::DT) => WordsDirection::DT,
            (_, WordsDirection::Both) | (WordsDirection::Both, _) => WordsDirection::Both,
        }
    }
}

impl BitAndSpecImpl for WordsDirection {
    open spec fn obeys_bitand_spec() -> bool {
        true
    }

    open spec fn bitand_req(self, rhs: Self) -> bool {
        true
    }

    open spec fn bitand_spec(self, rhs: Self) -> Self {
        merged(self, rhs)
    }
}

impl WordsDirection {
    /// The words by which this direction is shown to the user.
    pub fn to_string(&self) -> (r: String)
        ensures
            r@ == label(*self),
    {
        match self {
            WordsDirection::Auto => "automatic".to_owned(),
            WordsDirection::TD => "term -> definition".to_owned(),
            WordsDirection::DT => "definition -> term".to_owned(),
            WordsDirection::Both => "both".to_owned(),
        }
    }
}

/// Merging picks the operand of higher rank.
pub proof fn law_merged_is_the_stronger(a: WordsDirection, b: WordsDirection)
    ensures
        merged(a, b) == (if rank(a) >= rank(b) {
            a
        } else {
            b
        }),
{
}

/// `Auto` is the identity of merging.
pub proof fn law_auto_is_identity(a: WordsDirection)
    ensures
        merged(WordsDirection::Auto, a) == a,
        merged(a, WordsDirection::Auto) == a,
{
}

/// `Both` absorbs whatever it is merged with.
pub proof fn law_both_dominates(a: WordsDirection)
    ensures
        merged(WordsDirection::Both, a) == WordsDirection::Both,
        merged(a, WordsDirection::Both) == WordsDirection::Both,
{
}

/// Merging is commutative, associative and idempotent.
pub proof fn law_merging_is_a_semilattice(a: WordsDirection, b: WordsDirection, c: WordsDirection)
    ensures
        merged(a, b) == merged(b, a),
        merged(merged(a, b), c) == merged(a, merged(b, c)),
        merged(a, a) == a,
{
}

} // verus!
