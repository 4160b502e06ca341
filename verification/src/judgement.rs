//! Deciding whether a typed answer counts as correct.

use crate::pattern::{compile, pattern_compiles, pattern_text, replace_all, replaced_all};
use crate::text::{
    chars_of, eq_ignore_ascii_case, join, joined, same_chars, same_ignoring_ascii_case, texts,
    trim, trim_chars, trimmed, Text,
};
use vstd::pervasive::unreached;
use vstd::prelude::*;

verus! {

/// How the user answers a question.
#[derive(Debug, Clone, Copy, PartialEq, Eq, Structural)]
pub enum TryMethod {
    /// Literally type the definition
    Write,
    /// Multiple choice (choose 1, 2, 3, 4)
    Mpc,
}

/// The pattern for a parenthesized remark: an opening parenthesis, anything
/// on the same line, a closing parenthesis.
pub open spec fn parenthesized_pattern() -> Seq<char> {
    seq!['\\', '(', '.', '*', '\\', ')']
}

/// What separates the acceptable answers when all of them are given at once.
pub open spec fn answer_separator() -> Seq<char> {
    seq![',', ' ']
}

/// The characters that the most lenient reading of a candidate leaves out.
pub open spec fn is_paren_or_space(c: char) -> bool {
    c == '(' || c == ')' || c == ' '
}

/// `s` without parentheses and spaces.
pub open spec fn without_parens_and_spaces(s: Seq<char>) -> Seq<char>
    decreases s.len(),
{
    if s.len() == 0 {
        s
    } else if is_paren_or_space(s.last()) {
        without_parens_and_spaces(s.drop_last())
    } else {
        without_parens_and_spaces(s.drop_last()).push(s.last())
    }
}

/// `candidate` with its parenthesized remarks removed.
pub open spec fn without_parenthesized(candidate: Seq<char>) -> Seq<char> {
    replaced_all(parenthesized_pattern(), candidate, Seq::empty())
}

/// Whether a written `input` matches `candidate`, where `stripped` is the
/// trimmed candidate with its parenthesized remarks removed: up to ASCII case
/// and surrounding whitespace, the input is the candidate, or the candidate
/// without its remarks, or the candidate without parentheses and spaces.
pub open spec fn written_matches(input: Seq<char>, candidate: Seq<char>, stripped: Seq<char>) -> bool {
    let given = trimmed(input);
    let plain = trimmed(candidate);
    ||| eq_ignore_ascii_case(given, plain)
    ||| eq_ignore_ascii_case(given, trimmed(stripped))
    ||| eq_ignore_ascii_case(given, trimmed(without_parens_and_spaces(plain)))
}

/// Whether `input` matches the single acceptable answer `candidate`.
pub open spec fn matches_candidate(method: TryMethod, input: Seq<char>, candidate: Seq<char>) -> bool {
    match method {
        TryMethod::Write => written_matches(
            input,
            candidate,
            without_parenthesized(trimmed(candidate)),
        ),
        TryMethod::Mpc => input == candidate,
    }
}

/// Whether `input` matches one of `candidates`.
pub open spec fn matches_any(method: TryMethod, input: Seq<char>, candidates: Seq<Seq<char>>) -> bool {
    exists|k: int| 0 <= k < candidates.len() && matches_candidate(method, input, #[trigger] candidates[k])
}

/// Whether `input` is a correct answer: there is something to check against,
/// and the input matches one acceptable answer or all of them given at once,
/// joined by a comma and a space.
pub open spec fn is_correct(method: TryMethod, input: Seq<char>, acceptable: Seq<Seq<char>>) -> bool {
    &&& acceptable.len() > 0
    &&& (matches_any(method, input, acceptable) || matches_candidate(
        method,
        input,
        joined(acceptable, answer_separator()),
    ))
}

/// The pattern for a parenthesized remark.
fn parenthesized() -> (r: &'static str)
    ensures
        r@ == parenthesized_pattern(),
{
    let p = "\\(.*\\)";
    proof {
        reveal_strlit("\\(.*\\)");
        assert(p@ =~= parenthesized_pattern());
    }
    p
}

/// The empty text.
fn nothing() -> (r: &'static str)
    ensures
        r@ == Seq::<char>::empty(),
{
    let e = "";
    proof {
        reveal_strlit("");
        assert(e@ =~= Seq::<char>::empty());
    }
    e
}

/// A comma and a space.
fn separator() -> (r: &'static str)
    ensures
        r@ == answer_separator(),
{
    let s = ", ";
    proof {
        reveal_strlit(", ");
        assert(s@ =~= answer_separator());
    }
    s
}

/// `cs` without parentheses and spaces.
fn strip_parens_and_spaces(cs: &Vec<char>) -> (r: Vec<char>)
    ensures
        r@ == without_parens_and_spaces(cs@),
{
    let mut out: Vec<char> = Vec::new();
    let mut i: usize = 0;
    while i < cs.len()
        invariant
            i <= cs.len(),
            out@ == without_parens_and_spaces(cs@.take(i as int)),
        decreases cs.len() - i,
    {
        let c = cs[i];
        assert(cs@.take(i + 1).drop_last() == cs@.take(i as int));
        if !(c == '(' || c == ')' || c == ' ') {
            out.push(c);
        }
        i = i + 1;
    }
    assert(cs@.take(cs.len() as int) == cs@);
    out
}

/// Whether a written `input` matches `candidate`, given the trimmed
/// candidate with its parenthesized remarks removed.
pub fn written_answer_matches(input: &str, candidate: &str, stripped: &str) -> (r: bool)
    ensures
        r == written_matches(input@, candidate@, stripped@),
{
    let given = trim_chars(&chars_of(input));
    let plain = trim_chars(&chars_of(candidate));
    if same_ignoring_ascii_case(&given, &plain) {
        return true;
    }
    let bare = trim_chars(&chars_of(stripped));
    if same_ignoring_ascii_case(&given, &bare) {
        return true;
    }
    let dense = trim_chars(&strip_parens_and_spaces(&plain));
    same_ignoring_ascii_case(&given, &dense)
}

/// Judges answers. Holds the compiled pattern for parenthesized remarks, so
/// that it is compiled once for a whole session.
pub struct AnswerJudge {
    remark: regex::Regex,
}

impl AnswerJudge {
    #[verifier::type_invariant]
    spec fn remark_is_compiled_pattern(self) -> bool {
        pattern_text(self.remark) == parenthesized_pattern()
    }

    /// A judge, if the pattern for parenthesized remarks compiles.
    pub fn new() -> (r: Option<AnswerJudge>)
        ensures
            r is Some <==> pattern_compiles(parenthesized_pattern()),
    {
        match compile(parenthesized()) {
            Ok(remark) => Some(AnswerJudge { remark }),
            Err(_) => None,
        }
    }

    /// Whether `input` matches the single acceptable answer `candidate`.
    pub fn matches(&self, method: &TryMethod, input: &str, candidate: &str) -> (r: bool)
        ensures
            r == matches_candidate(*method, input@, candidate@),
    {
        proof {
            use_type_invariant(self);
        }
        match method {
            TryMethod::Write => {
                let stripped = replace_all(&self.remark, trim(candidate), nothing());
                written_answer_matches(input, candidate, stripped.as_str())
            },
            TryMethod::Mpc => same_chars(&chars_of(input), &chars_of(candidate)),
        }
    }

    /// Whether `input` matches one of `candidates`.
    pub fn matches_one_of<S: Text>(&self, method: &TryMethod, input: &str, candidates: &[S]) -> (r:
        bool)
        ensures
            r == matches_any(*method, input@, texts(candidates@)),
    {
        let mut i: usize = 0;
        while i < candidates.len()
            invariant
                i <= candidates.len(),
                forall|k: int|
                    0 <= k < i ==> !matches_candidate(
                        *method,
                        input@,
                        #[trigger] texts(candidates@)[k],
                    ),
            decreases candidates.len() - i,
        {
            if self.matches(method, input, candidates[i].as_text()) {
                assert(matches_candidate(*method, input@, texts(candidates@)[i as int]));
                return true;
            }
            i = i + 1;
        }
        false
    }

    /// Whether `input` is a correct answer where `acceptable` lists the
    /// answers that count.
    pub fn check<S: Text>(&self, method: &TryMethod, input: &str, acceptable: &[S]) -> (r: bool)
        ensures
            r == is_correct(*method, input@, texts(acceptable@)),
    {
        if acceptable.len() == 0 {
            return false;
        }
        if self.matches_one_of(method, input, acceptable) {
            return true;
        }
        let all = join(acceptable, separator());
        self.matches(method, input, all.as_str())
    }
}

/// Whether `input` is a correct answer where `check` lists the answers that
/// count. The pattern for parenthesized remarks has to compile; see
/// [`try_check_word`] for callers that cannot know.
pub fn check_word<S: Text>(method: &TryMethod, input: &str, check: &[S]) -> (r: bool)
    requires
        pattern_compiles(parenthesized_pattern()),
    ensures
        r == is_correct(*method, input@, texts(check@)),
{
    match AnswerJudge::new() {
        Some(judge) => judge.check(method, input, check),
        None => unreached(),
    }
}

/// Whether `input` is a correct answer where `check` lists the answers that
/// count, or `None` where the pattern for parenthesized remarks does not
/// compile.
pub fn try_check_word<S: Text>(method: &TryMethod, input: &str, check: &[S]) -> (r: Option<bool>)
    ensures
        r is Some <==> pattern_compiles(parenthesized_pattern()),
        r matches Some(b) ==> b == is_correct(*method, input@, texts(check@)),
{
    match AnswerJudge::new() {
        Some(_) => Some(check_word(method, input, check)),
        None => None,
    }
}

} // verus!
