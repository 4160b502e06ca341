//! The boundary to the `regex` crate.
//!
//! Nothing in this module is proved. Each item states, for one function of
//! `regex`, what the rest of the library relies on; the matching rules built
//! on top are proved against these statements.

use vstd::prelude::*;

verus! {

/// `regex::Regex`: a compiled expression. Nothing inside it is visible
/// here.
#[verifier::external_type_specification]
#[verifier::external_body]
pub struct ExRegex(regex::Regex);

/// `regex::Error`: why a pattern does not compile. Nothing inside it is
/// visible here.
#[verifier::external_type_specification]
#[verifier::external_body]
pub struct ExRegexError(regex::Error);

/// Whether `regex::Regex::new` accepts `pattern`. Compilation reads nothing
/// but the pattern, so the answer is a function of the pattern alone.
pub uninterp spec fn pattern_compiles(pattern: Seq<char>) -> bool;

/// The pattern that a compiled expression stands for: for an expression
/// made by `regex::Regex::new`, the pattern that it was given.
pub uninterp spec fn pattern_text(re: regex::Regex) -> Seq<char>;

/// The text that `regex::Regex::replace_all` returns when an expression
/// compiled from `pattern` replaces every non-overlapping match in
/// `haystack` by `with`.
pub uninterp spec fn replaced_all(pattern: Seq<char>, haystack: Seq<char>, with: Seq<char>) -> Seq<
    char,
>;

/// `regex::Regex::new`: compiles `pattern`. Claimed: whether it succeeds
/// depends on the pattern alone, and the compiled expression stands for the
/// pattern that was given.
#[verifier::external_body]
pub(crate) fn compile(pattern: &str) -> (r: Result<regex::Regex, regex::Error>)
    ensures
        r is Ok <==> pattern_compiles(pattern@),
        r matches Ok(re) ==> pattern_text(re) == pattern@,
{
    regex::Regex::new(pattern)
}

/// `regex::Regex::replace_all`: replaces every non-overlapping match of `re`
/// in `haystack` by `with`. Claimed: the result is determined by the pattern
/// that `re` stands for, the haystack and the replacement.
#[verifier::external_body]
pub(crate) fn replace_all(re: &regex::Regex, haystack: &str, with: &str) -> (r: String)
    ensures
        r@ == replaced_all(pattern_text(*re), haystack@, with@),
{
    re.replace_all(haystack, with).into_owned()
}

} // verus!
