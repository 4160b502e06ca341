//! What holds of every answer, of every session and of the index, proved
//! from the definitions of the judge, of the scheduler and of the store.

use crate::direction::WordsDirection;
use crate::judgement::{is_correct, matches_candidate, TryMethod};
use crate::model::{WordsEntryView, WordsMeta};
use crate::permutation::{as_map, is_permutation, lemma_map_round_trip};
use crate::scheduler::{
    correct_among, lacking, lemma_begin_is_wf, lemma_lacking_bounds, lemma_lacking_concat,
    lemma_step_keeps_wf, planned_frontier, plans_order, Review, MASTERY, WINDOW,
};
use crate::store::{removed_in_turn, strictly_descending};
use crate::text::{
    eq_ignore_ascii_case, is_blank, lemma_eq_ignore_ascii_case_reflexive,
    lemma_trimmed_ignores_surrounding_whitespace, lemma_trimmed_respects_ascii_case, trimmed,
};
use vstd::prelude::*;

verus! {

/// Nothing is a correct answer where no answer is acceptable, not even the
/// empty answer.
pub proof fn law_nothing_is_correct_without_answers(method: TryMethod, input: Seq<char>)
    ensures
        !is_correct(method, input, Seq::<Seq<char>>::empty()),
{
}

/// A written answer is correct if, up to ASCII case and surrounding
/// whitespace, it is one of the acceptable answers.
pub proof fn law_written_answer_is_correct(input: Seq<char>, acceptable: Seq<Seq<char>>, k: int)
    requires
        0 <= k < acceptable.len(),
        eq_ignore_ascii_case(trimmed(input), trimmed(acceptable[k])),
    ensures
        is_correct(TryMethod::Write, input, acceptable),
{
    assert(matches_candidate(TryMethod::Write, input, acceptable[k]));
}

/// A written answer is correct if it is one of the acceptable answers in
/// another ASCII case, with any whitespace before and after it.
pub proof fn law_case_and_surrounding_whitespace_are_ignored(
    before: Seq<char>,
    answer: Seq<char>,
    after: Seq<char>,
    acceptable: Seq<Seq<char>>,
    k: int,
)
    requires
        0 <= k < acceptable.len(),
        is_blank(before),
        is_blank(after),
        eq_ignore_ascii_case(answer, acceptable[k]),
    ensures
        is_correct(TryMethod::Write, before + answer + after, acceptable),
{
    lemma_trimmed_ignores_surrounding_whitespace(before, answer, after);
    lemma_trimmed_respects_ascii_case(answer, acceptable[k]);
    law_written_answer_is_correct(before + answer + after, acceptable, k);
}

/// Each acceptable answer is a correct answer, whatever the method.
pub proof fn law_acceptable_answer_is_correct(
    method: TryMethod,
    acceptable: Seq<Seq<char>>,
    k: int,
)
    requires
        0 <= k < acceptable.len(),
    ensures
        is_correct(method, acceptable[k], acceptable),
{
    lemma_eq_ignore_ascii_case_reflexive(trimmed(acceptable[k]));
    assert(matches_candidate(method, acceptable[k], acceptable[k]));
}

/// A session starts in a well-formed state.
pub proof fn law_begin_is_well_formed(
    words: Seq<WordsEntryView>,
    direction: WordsDirection,
    permutation: Seq<usize>,
    frontier: nat,
)
    requires
        permutation.len() == words.len(),
        is_permutation(permutation),
        frontier <= words.len(),
    ensures
        Review::begin(words, direction, permutation, frontier).wf(),
{
    lemma_begin_is_wf(words, direction, permutation, frontier);
}

/// At every step the rotation holds no more words than the window allows,
/// and no more than are left to retire.
pub proof fn law_rotation_is_bounded(s: Review)
    requires
        s.wf(),
    ensures
        s.rotation.len() <= WINDOW,
        s.rotation.len() <= s.total() - s.frontier,
{
}

/// A word is retired by the answer that completes its `MASTERY` correct
/// answers, and by no other: a wrong answer sends it to the back with its
/// progress as it was, a correct one that does not complete them with its
/// progress raised by one.
pub proof fn law_retired_at_mastery(s: Review, correct: bool)
    requires
        s.wf(),
        !s.finished(),
    ensures
        s.step(correct).frontier == s.frontier + if correct && s.rotation[0].1 + 1 == MASTERY {
            1nat
        } else {
            0nat
        },
        !correct ==> s.step(correct).rotation.last() == s.rotation[0],
        correct && s.rotation[0].1 + 1 < MASTERY ==> s.step(correct).rotation.last() == (
            s.rotation[0].0,
            (s.rotation[0].1 + 1) as usize,
        ),
{
}

/// A correct answer brings the end of the session one answer closer; a
/// wrong answer leaves it where it was.
pub proof fn law_step_counts_down(s: Review, correct: bool)
    requires
        s.wf(),
        !s.finished(),
    ensures
        s.step(correct).outstanding() == s.outstanding() - if correct {
            1int
        } else {
            0int
        },
{
    let (index, progress) = s.rotation[0];
    let rest = s.rotation.drop_first();
    assert(s.rotation == seq![(index, progress)] + rest);
    lemma_lacking_concat(seq![(index, progress)], rest);
    assert(lacking(seq![(index, progress)]) == MASTERY - progress) by {
        let one = seq![(index, progress)];
        assert(one.drop_last() =~= Seq::<(usize, usize)>::empty());
        assert(lacking(one.drop_last()) == 0);
        assert(one.last() == (index, progress));
    }
    let t = s.step(correct);
    if !correct {
        assert(t.rotation.drop_last() == rest);
    } else if progress + 1 < MASTERY {
        assert(t.rotation.drop_last() == rest);
    } else if s.admitted() < s.total() {
        assert(t.rotation.drop_last() == rest);
        assert(s.rotation[0].1 < MASTERY);
    } else {
        assert(s.rotation[0].1 < MASTERY);
    }
}

/// The session is over exactly when no correct answer is outstanding.
pub proof fn law_finished_when_nothing_outstanding(s: Review)
    requires
        s.wf(),
    ensures
        s.outstanding() >= 0,
        s.finished() <==> s.outstanding() == 0,
{
    lemma_lacking_bounds(s.rotation);
    if s.finished() {
        assert(s.rotation.len() == 0);
    }
    assert(MASTERY * (s.total() - s.admitted()) >= 0) by (nonlinear_arith)
        requires
            s.total() - s.admitted() >= 0,
    ;
    if s.outstanding() == 0 {
        assert(s.total() - s.admitted() == 0) by (nonlinear_arith)
            requires
                MASTERY * (s.total() - s.admitted()) == 0,
                MASTERY == 3,
        ;
    }
}

/// Words that have no progress yet lack `MASTERY` correct answers each.
proof fn lemma_lacking_without_progress(rotation: Seq<(usize, usize)>)
    requires
        forall|i: int| 0 <= i < rotation.len() ==> (#[trigger] rotation[i]).1 == 0,
    ensures
        lacking(rotation) == MASTERY * rotation.len(),
    decreases rotation.len(),
{
    if rotation.len() > 0 {
        let front = rotation.drop_last();
        assert forall|i: int| 0 <= i < front.len() implies (#[trigger] front[i]).1 == 0 by {
            assert(front[i] == rotation[i]);
        }
        lemma_lacking_without_progress(front);
    }
}

/// When a session starts, `MASTERY` correct answers are outstanding for
/// each word at and after the frontier.
pub proof fn law_begin_outstanding(
    words: Seq<WordsEntryView>,
    direction: WordsDirection,
    permutation: Seq<usize>,
    frontier: nat,
)
    requires
        permutation.len() == words.len(),
        is_permutation(permutation),
        frontier <= words.len(),
    ensures
        Review::begin(words, direction, permutation, frontier).outstanding() == MASTERY * (
        words.len() - frontier),
{
    let s = Review::begin(words, direction, permutation, frontier);
    lemma_lacking_without_progress(s.rotation);
}

/// Termination: whatever the order of the session, it ends once as many
/// correct answers have been given as were outstanding at its start, and
/// not before. Wrong answers neither help nor harm.
pub proof fn law_session_ends(s: Review, answers: Seq<bool>)
    requires
        s.wf(),
    ensures
        s.after(answers).wf(),
        s.after(answers).finished() <==> correct_among(answers) >= s.outstanding(),
        !s.after(answers).finished() ==> s.after(answers).outstanding() == s.outstanding()
            - correct_among(answers),
    decreases answers.len(),
{
    law_finished_when_nothing_outstanding(s);
    if answers.len() == 0 || s.finished() {
    } else {
        let t = s.step(answers[0]);
        lemma_step_keeps_wf(s, answers[0]);
        law_step_counts_down(s, answers[0]);
        law_session_ends(t, answers.drop_first());
    }
}

/// The count of correct answers of a word never decreases in a session: it
/// grows by one with every correct answer to that word and by nothing
/// else. The rest of the entry stays as it is.
pub proof fn law_correct_answers_are_counted(s: Review, answers: Seq<bool>, index: int)
    requires
        s.wf(),
        0 <= index < s.total(),
    ensures
        s.after(answers).words.len() == s.words.len(),
        s.after(answers).words[index] == (WordsEntryView {
            times_answered_correctly: s.words[index].times_answered_correctly + s.credit(
                answers,
                index,
            ),
            ..s.words[index]
        }),
        s.after(answers).words[index].times_answered_correctly
            >= s.words[index].times_answered_correctly,
    decreases answers.len(),
{
    if answers.len() == 0 || s.finished() {
    } else {
        let t = s.step(answers[0]);
        lemma_step_keeps_wf(s, answers[0]);
        assert(s.rotation[0].0 < s.total());
        law_correct_answers_are_counted(t, answers.drop_first(), index);
    }
}

/// Resuming a cancelled session: what `save_progress` leaves in the
/// metadata makes a session resume at the frontier and in the order of the
/// cancelled one, whether or not a shuffle is asked for.
pub proof fn law_resume_continues(s: Review, saved: WordsMeta, shuffle: bool, order: Seq<usize>)
    requires
        s.wf(),
        s.total() <= usize::MAX,
        saved.progress == Some(s.frontier as usize),
        saved.shuffle_map matches Some(map) && map@ == as_map(s.permutation),
        plans_order(saved, shuffle, true, s.total(), order),
    ensures
        saved.resumable(s.total()),
        planned_frontier(saved, true) == s.frontier,
        order == s.permutation,
        Review::begin(s.words, s.direction, order, planned_frontier(saved, true)).wf(),
{
    lemma_map_round_trip(s.permutation);
}

/// No word comes back: a word that is not pending stays so, and the word
/// that is asked is always a pending one.
pub proof fn law_only_pending_words_are_asked(s: Review, answers: Seq<bool>, index: usize)
    requires
        s.wf(),
        !s.pending(index),
    ensures
        !s.after(answers).pending(index),
        !s.after(answers).finished() ==> s.after(answers).question().index != index,
    decreases answers.len(),
{
    if answers.len() == 0 || s.finished() {
        if !s.finished() {
            assert(s.rotation[0].0 != index);
        }
    } else {
        let t = s.step(answers[0]);
        lemma_step_keeps_wf(s, answers[0]);
        assert(!t.pending(index)) by {
            let rest = s.rotation.drop_first();
            assert forall|i: int| 0 <= i < t.rotation.len() implies (#[trigger] t.rotation[i]).0
                != index by {
                if i < rest.len() {
                    assert(t.rotation[i] == s.rotation[i + 1]);
                } else if t.rotation[i].0 == s.rotation[0].0 {
                } else {
                    assert(t.rotation[i].0 == s.permutation[s.admitted() as int]);
                }
            }
            assert forall|p: int| t.admitted() <= p < t.total() implies #[trigger] t.permutation[p]
                != index by {
                assert(s.admitted() <= p < s.total());
            }
        }
        law_only_pending_words_are_asked(t, answers.drop_first(), index);
    }
}

/// When a session starts, the pending words are those at and after its
/// frontier, in the order of the session.
pub proof fn law_begin_pends_from_frontier(
    words: Seq<WordsEntryView>,
    direction: WordsDirection,
    permutation: Seq<usize>,
    frontier: nat,
    index: usize,
)
    requires
        permutation.len() == words.len(),
        is_permutation(permutation),
        frontier <= words.len(),
    ensures
        Review::begin(words, direction, permutation, frontier).pending(index) <==> exists|p: int|
            frontier <= p < words.len() && #[trigger] permutation[p] == index,
{
    let s = Review::begin(words, direction, permutation, frontier);
    if s.pending(index) {
        if exists|i: int| 0 <= i < s.rotation.len() && (#[trigger] s.rotation[i]).0 == index {
            let i = choose|i: int| 0 <= i < s.rotation.len() && (#[trigger] s.rotation[i]).0 == index;
            assert(permutation[frontier + i] == index);
        } else {
            let p = choose|p: int|
                s.admitted() <= p < s.total() && #[trigger] s.permutation[p] == index;
            assert(permutation[p] == index);
        }
    }
    if exists|p: int| frontier <= p < words.len() && #[trigger] permutation[p] == index {
        let p = choose|p: int| frontier <= p < words.len() && #[trigger] permutation[p] == index;
        if p < s.admitted() {
            assert(s.rotation[p - frontier].0 == index);
        } else {
            assert(s.permutation[p] == index);
        }
    }
}

/// A resumed session asks no word again that the cancelled session had
/// retired, provided that the word was retired in the order of the
/// session: it stands before the frontier at which the session was
/// cancelled.
pub proof fn law_resumed_session_skips_retired_words(
    start: Review,
    answers: Seq<bool>,
    further: Seq<bool>,
    index: usize,
)
    requires
        start.wf(),
        start.retired(answers).contains(index),
        exists|p: int|
            0 <= p < start.after(answers).frontier && #[trigger] start.permutation[p] == index,
    ensures
        ({
            let cancelled = start.after(answers);
            let resumed = Review::begin(
                cancelled.words,
                cancelled.direction,
                cancelled.permutation,
                cancelled.frontier,
            );
            &&& resumed.wf()
            &&& !resumed.after(further).pending(index)
            &&& !resumed.after(further).finished() ==> resumed.after(further).question().index
                != index
        }),
{
    let cancelled = start.after(answers);
    law_session_ends(start, answers);
    lemma_after_keeps_order(start, answers);
    let resumed = Review::begin(
        cancelled.words,
        cancelled.direction,
        cancelled.permutation,
        cancelled.frontier,
    );
    lemma_begin_is_wf(
        cancelled.words,
        cancelled.direction,
        cancelled.permutation,
        cancelled.frontier,
    );
    law_begin_pends_from_frontier(
        cancelled.words,
        cancelled.direction,
        cancelled.permutation,
        cancelled.frontier,
        index,
    );
    let before = choose|p: int|
        0 <= p < cancelled.frontier && #[trigger] start.permutation[p] == index;
    assert(!resumed.pending(index)) by {
        if resumed.pending(index) {
            let p = choose|p: int|
                cancelled.frontier <= p < cancelled.words.len()
                    && #[trigger] cancelled.permutation[p] == index;
            assert(cancelled.permutation[before] == cancelled.permutation[p]);
        }
    }
    law_only_pending_words_are_asked(resumed, further, index);
}

/// A word that is retired while an earlier one is still in rotation stands
/// at or after the frontier: the frontier counts the retired words, it
/// does not name them. A resumed session has such a word pending again.
pub proof fn law_resumed_session_asks_again_beyond_frontier(
    start: Review,
    answers: Seq<bool>,
    index: usize,
)
    requires
        start.wf(),
        exists|p: int|
            start.after(answers).frontier <= p < start.total() && #[trigger] start.permutation[p]
                == index,
    ensures
        ({
            let cancelled = start.after(answers);
            Review::begin(
                cancelled.words,
                cancelled.direction,
                cancelled.permutation,
                cancelled.frontier,
            ).pending(index)
        }),
{
    let cancelled = start.after(answers);
    law_session_ends(start, answers);
    lemma_after_keeps_order(start, answers);
    law_begin_pends_from_frontier(
        cancelled.words,
        cancelled.direction,
        cancelled.permutation,
        cancelled.frontier,
        index,
    );
    let p = choose|p: int|
        cancelled.frontier <= p < start.total() && #[trigger] start.permutation[p] == index;
    assert(cancelled.permutation[p] == index);
}

/// The order and the number of words stay as they are throughout a
/// session.
pub proof fn lemma_after_keeps_order(s: Review, answers: Seq<bool>)
    requires
        s.wf(),
    ensures
        s.after(answers).permutation == s.permutation,
        s.after(answers).direction == s.direction,
        s.after(answers).total() == s.total(),
        s.after(answers).frontier >= s.frontier,
    decreases answers.len(),
{
    if answers.len() == 0 || s.finished() {
    } else {
        lemma_step_keeps_wf(s, answers[0]);
        lemma_after_keeps_order(s.step(answers[0]), answers.drop_first());
    }
}

/// What a word lacks is read off the one place where the word stands.
pub proof fn lemma_lacks_by_place(s: Review, index: usize)
    requires
        s.wf(),
    ensures
        forall|i: int|
            0 <= i < s.rotation.len() && (#[trigger] s.rotation[i]).0 == index ==> s.lacks(index)
                == MASTERY - s.rotation[i].1,
        !s.rotates(index) && s.awaits(index) ==> s.lacks(index) == MASTERY,
        !s.pending(index) ==> s.lacks(index) == 0,
        0 <= s.lacks(index) <= MASTERY,
        s.lacks(index) > 0 <==> s.pending(index),
{
    if s.rotates(index) {
        let chosen = choose|i: int|
            0 <= i < s.rotation.len() && (#[trigger] s.rotation[i]).0 == index;
        assert forall|i: int|
            0 <= i < s.rotation.len() && (#[trigger] s.rotation[i]).0 == index implies s.lacks(index)
            == MASTERY - s.rotation[i].1 by {
            if i < chosen {
                assert(s.rotation[i].0 != s.rotation[chosen].0);
            } else if chosen < i {
                assert(s.rotation[chosen].0 != s.rotation[i].0);
            }
        }
        assert(s.rotation[chosen].1 < MASTERY);
    }
}

/// What a word lacks goes down by one with each correct answer to it, and
/// changes with nothing else.
pub proof fn lemma_step_lacks(s: Review, correct: bool, index: usize)
    requires
        s.wf(),
        !s.finished(),
    ensures
        s.lacks(index) - s.step(correct).lacks(index) == (if correct && s.rotation[0].0 == index {
            1int
        } else {
            0int
        }),
{
    let t = s.step(correct);
    lemma_step_keeps_wf(s, correct);
    lemma_lacks_by_place(s, index);
    lemma_lacks_by_place(t, index);
    let rest = s.rotation.drop_first();
    let n = rest.len() as int;
    let front = s.rotation[0];
    assert(front.1 < MASTERY);
    assert forall|i: int| 0 <= i < n implies #[trigger] t.rotation[i] == s.rotation[i + 1] by {
        assert(rest[i] == s.rotation[i + 1]);
    }
    let retires = correct && front.1 + 1 >= MASTERY;
    let admits = retires && s.admitted() < s.total();
    if front.0 == index {
        assert(s.lacks(index) == MASTERY - front.1);
        if !retires {
            assert(t.rotation[n].0 == index);
        } else {
            // retired: the word is neither in rotation nor yet to come
            assert(!t.rotates(index)) by {
                if t.rotates(index) {
                    let i = choose|i: int|
                        0 <= i < t.rotation.len() && (#[trigger] t.rotation[i]).0 == index;
                    if i < n {
                        assert(s.rotation[0].0 != s.rotation[i + 1].0);
                    } else {
                        assert(s.rotation[0].0 != s.permutation[s.admitted() as int]);
                    }
                }
            }
            assert(!t.awaits(index)) by {
                if t.awaits(index) {
                    let p = choose|p: int|
                        t.admitted() <= p < t.total() && #[trigger] t.permutation[p] == index;
                    assert(s.rotation[0].0 != s.permutation[p]);
                }
            }
        }
    } else if s.rotates(index) {
        let i = choose|i: int| 0 <= i < s.rotation.len() && (#[trigger] s.rotation[i]).0 == index;
        assert(i > 0);
        assert(t.rotation[i - 1] == s.rotation[i]);
    } else if s.awaits(index) {
        let p = choose|p: int|
            s.admitted() <= p < s.total() && #[trigger] s.permutation[p] == index;
        if admits && p == s.admitted() {
            assert(t.rotation[n] == (index, 0usize));
        } else {
            assert(!t.rotates(index)) by {
                if t.rotates(index) {
                    let i = choose|i: int|
                        0 <= i < t.rotation.len() && (#[trigger] t.rotation[i]).0 == index;
                    if i < n {
                        assert(s.rotation[i + 1].0 == index);
                    } else if admits {
                        assert(s.permutation[s.admitted() as int] != s.permutation[p]);
                    }
                }
            }
            assert(t.permutation[p] == index);
            assert(t.awaits(index));
        }
    } else {
        law_only_pending_words_are_asked(s, seq![correct], index);
        assert(s.after(seq![correct]) == t) by {
            assert(seq![correct].drop_first() =~= Seq::<bool>::empty());
            assert(seq![correct][0] == correct);
            assert(t.after(Seq::<bool>::empty()) == t);
        }
    }
}

/// Every correct answer to a word is one of those that the word lacked: the
/// correct answers counted for a word in a session are what it lacked at
/// the start less what it lacks at the end, and the word is retired in the
/// session exactly if it lacked something and lacks nothing any more.
pub proof fn law_credit_is_progress(s: Review, answers: Seq<bool>, index: usize)
    requires
        s.wf(),
    ensures
        s.after(answers).wf(),
        s.credit(answers, index as int) == s.lacks(index) - s.after(answers).lacks(index),
        s.retired(answers).contains(index) <==> s.lacks(index) > 0 && s.after(answers).lacks(
            index,
        ) == 0,
    decreases answers.len(),
{
    lemma_lacks_by_place(s, index);
    if answers.len() == 0 || s.finished() {
    } else {
        let t = s.step(answers[0]);
        lemma_step_keeps_wf(s, answers[0]);
        lemma_step_lacks(s, answers[0], index);
        lemma_lacks_by_place(t, index);
        law_credit_is_progress(t, answers.drop_first(), index);
        lemma_lacks_by_place(t.after(answers.drop_first()), index);
        assert(s.rotation[0].1 < MASTERY);
        if answers[0] && s.rotation[0].1 + 1 >= MASTERY && s.rotation[0].0 == index {
            assert(s.lacks(index) == 1);
        }
    }
}

/// From the start of a session, a word is retired when it has been answered
/// correctly `MASTERY` times, and not before; no word is answered correctly
/// more often than that. Wrong answers do not count against it.
pub proof fn law_retired_after_mastery(
    words: Seq<WordsEntryView>,
    direction: WordsDirection,
    permutation: Seq<usize>,
    frontier: nat,
    answers: Seq<bool>,
    index: usize,
)
    requires
        permutation.len() == words.len(),
        is_permutation(permutation),
        frontier <= words.len(),
    ensures
        ({
            let start = Review::begin(words, direction, permutation, frontier);
            &&& start.credit(answers, index as int) <= MASTERY
            &&& start.retired(answers).contains(index) <==> start.credit(answers, index as int)
                == MASTERY
        }),
{
    let start = Review::begin(words, direction, permutation, frontier);
    lemma_begin_is_wf(words, direction, permutation, frontier);
    law_credit_is_progress(start, answers, index);
    lemma_lacks_by_place(start, index);
    lemma_lacks_by_place(start.after(answers), index);
    if start.rotates(index) {
        let i = choose|i: int|
            0 <= i < start.rotation.len() && (#[trigger] start.rotation[i]).0 == index;
        assert(start.rotation[i].1 == 0);
    }
}

/// When a session has ended, every word that was pending at its start is
/// retired and has been answered correctly `MASTERY` times in the session;
/// no correct answer is counted for any other word.
pub proof fn law_finished_session_has_mastered_every_word(
    words: Seq<WordsEntryView>,
    direction: WordsDirection,
    permutation: Seq<usize>,
    frontier: nat,
    answers: Seq<bool>,
    index: usize,
)
    requires
        permutation.len() == words.len(),
        is_permutation(permutation),
        frontier <= words.len(),
        Review::begin(words, direction, permutation, frontier).after(answers).finished(),
    ensures
        ({
            let start = Review::begin(words, direction, permutation, frontier);
            &&& start.retired(answers).contains(index) <==> start.pending(index)
            &&& start.credit(answers, index as int) == (if start.pending(index) {
                MASTERY as int
            } else {
                0
            })
        }),
{
    let start = Review::begin(words, direction, permutation, frontier);
    let end = start.after(answers);
    lemma_begin_is_wf(words, direction, permutation, frontier);
    law_credit_is_progress(start, answers, index);
    lemma_lacks_by_place(start, index);
    lemma_lacks_by_place(end, index);
    assert(end.rotation.len() == 0);
    assert(!end.pending(index));
    if start.rotates(index) {
        let i = choose|i: int|
            0 <= i < start.rotation.len() && (#[trigger] start.rotation[i]).0 == index;
        assert(start.rotation[i].1 == 0);
    }
}

/// Removing lists from the highest ID down moves no list that is yet to be
/// removed: each removal takes out the list that had the ID from the
/// start, and the lists below all removed IDs keep theirs.
pub proof fn law_descending_removal_hits_the_named_lists(lists: Seq<WordsMeta>, ids: Seq<usize>)
    requires
        strictly_descending(ids),
        forall|k: int| 0 <= k < ids.len() ==> 1 <= #[trigger] ids[k] <= lists.len(),
    ensures
        removed_in_turn(lists, ids).len() == lists.len() - ids.len(),
        forall|k: int|
            0 <= k < ids.len() ==> ids[k] <= removed_in_turn(lists, #[trigger] ids.take(k)).len()
                && removed_in_turn(lists, ids.take(k))[ids[k] - 1] == lists[ids[k] - 1],
        forall|q: int|
            ids.len() > 0 && 0 <= q < ids.last() - 1 ==> #[trigger] removed_in_turn(lists, ids)[q]
                == lists[q],
{
    lemma_descending_removal_spares_lower_ids(lists, ids, 0);
    assert forall|k: int| 0 <= k < ids.len() implies ids[k] <= removed_in_turn(
        lists,
        #[trigger] ids.take(k),
    ).len() && removed_in_turn(lists, ids.take(k))[ids[k] - 1] == lists[ids[k] - 1] by {
        let first = ids.take(k);
        assert forall|i: int, j: int| 0 <= i < j < first.len() implies first[i] > first[j] by {
            assert(first[i] == ids[i] && first[j] == ids[j]);
        }
        assert forall|i: int| 0 <= i < first.len() implies 1 <= #[trigger] first[i]
            <= lists.len() && first[i] > ids[k] by {
            assert(first[i] == ids[i]);
        }
        lemma_descending_removal_spares_lower_ids(lists, first, ids[k] as int);
        let left = removed_in_turn(lists, first);
        assert(left.take(ids[k] as int)[ids[k] - 1] == lists.take(ids[k] as int)[ids[k] - 1]);
    }
    if ids.len() > 0 {
        lemma_descending_removal_spares_lower_ids(lists, ids, ids.last() - 1);
        assert forall|q: int| 0 <= q < ids.last() - 1 implies #[trigger] removed_in_turn(
            lists,
            ids,
        )[q] == lists[q] by {
            assert(removed_in_turn(lists, ids).take(ids.last() - 1)[q] == lists.take(
                ids.last() - 1,
            )[q]);
        }
    }
}

/// Removing lists with IDs above `below`, from the highest down, leaves the
/// first `below` lists where they are.
proof fn lemma_descending_removal_spares_lower_ids(
    lists: Seq<WordsMeta>,
    ids: Seq<usize>,
    below: int,
)
    requires
        strictly_descending(ids),
        0 <= below <= lists.len(),
        forall|k: int| 0 <= k < ids.len() ==> below < #[trigger] ids[k] <= lists.len(),
    ensures
        removed_in_turn(lists, ids).len() == lists.len() - ids.len(),
        below <= removed_in_turn(lists, ids).len(),
        removed_in_turn(lists, ids).take(below) == lists.take(below),
    decreases ids.len(),
{
    if ids.len() > 0 {
        let shorter = lists.remove(ids[0] - 1);
        let rest = ids.drop_first();
        assert forall|i: int, j: int| 0 <= i < j < rest.len() implies rest[i] > rest[j] by {
            assert(rest[i] == ids[i + 1] && rest[j] == ids[j + 1]);
        }
        assert forall|k: int| 0 <= k < rest.len() implies below < #[trigger] rest[k]
            <= shorter.len() by {
            assert(rest[k] == ids[k + 1]);
            assert(ids[0] > ids[k + 1]);
        }
        lemma_descending_removal_spares_lower_ids(shorter, rest, below);
        assert(shorter.take(below) =~= lists.take(below));
    }
}

} // verus!
