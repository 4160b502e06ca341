//! The order in which the words of a list are asked.
//!
//! A bounded number of words is in rotation at any time. The word at the
//! front of the rotation is asked; after the answer it goes to the back,
//! unless it has now been answered correctly often enough: then it is
//! retired, and the next word of the list takes its place. The session is
//! over when every word is retired.
//!
//! [`Review`] is the mathematical state of a session and says what a step
//! does. [`ReviewScheduler`] is the executable state; every operation on it
//! is tied to the corresponding operation on its view.

use crate::direction::{merged, WordsDirection};
use crate::model::{WordsEntry, WordsEntryView, WordsList, WordsMeta};
use crate::permutation::{
    as_map, from_map, from_shuffle_map, identity, identity_permutation, is_permutation,
    lemma_identity_is_permutation, random_permutation, to_shuffle_map,
};
use std::collections::VecDeque;
use vstd::pervasive::unreached;
use vstd::prelude::*;

verus! {

/// How many words are in rotation at most.
pub const WINDOW: usize = 10;

/// How many correct answers retire a word.
pub const MASTERY: usize = 3;

/// The progress beyond which a word that goes both ways is asked in reverse.
pub const SWAP_AFTER: usize = MASTERY / 2;

/// Whether a word with the given progress is asked in reverse (the
/// definition is shown, the term is asked for) under `direction`.
pub open spec fn asks_in_reverse(direction: WordsDirection, progress: nat) -> bool {
    direction == WordsDirection::DT || (direction == WordsDirection::Both && progress > SWAP_AFTER)
}

/// What is asked next.
#[derive(Debug, Clone, Copy, PartialEq, Eq, Structural)]
pub struct Question {
    /// The index of the word in the list.
    pub index: usize,
    /// How often the word was answered correctly since it came into
    /// rotation.
    pub progress: usize,
    /// The direction that the session and the word agree on.
    pub direction: WordsDirection,
    /// Whether the definition is shown and the term is asked for.
    pub reversed: bool,
}

/// `entry` with one more correct answer to its name.
pub open spec fn credited(entry: WordsEntryView) -> WordsEntryView {
    WordsEntryView { times_answered_correctly: entry.times_answered_correctly + 1, ..entry }
}

/// The correct answers that the words in `rotation` still lack.
pub open spec fn lacking(rotation: Seq<(usize, usize)>) -> int
    decreases rotation.len(),
{
    if rotation.len() == 0 {
        0
    } else {
        lacking(rotation.drop_last()) + (MASTERY - rotation.last().1)
    }
}

/// How many of `answers` are correct.
pub open spec fn correct_among(answers: Seq<bool>) -> nat
    decreases answers.len(),
{
    if answers.len() == 0 {
        0
    } else {
        correct_among(answers.drop_first()) + if answers[0] {
            1nat
        } else {
            0nat
        }
    }
}

/// The state of a session.
pub struct Review {
    /// The words of the list.
    pub words: Seq<WordsEntryView>,
    /// The direction asked for by the session.
    pub direction: WordsDirection,
    /// The order of the session: at each position, the index of a word.
    pub permutation: Seq<usize>,
    /// How many words are retired.
    pub frontier: nat,
    /// The words in rotation, front first, each with its progress.
    pub rotation: Seq<(usize, usize)>,
}

impl Review {
    /// The number of words.
    pub open spec fn total(self) -> nat {
        self.words.len()
    }

    /// How many words have come into rotation so far, retired ones
    /// included.
    pub open spec fn admitted(self) -> nat {
        self.frontier + self.rotation.len()
    }

    /// How many words are in rotation when `frontier` of `total` are
    /// retired: as many as are left, up to the window.
    pub open spec fn window(total: nat, frontier: nat) -> nat {
        if total - frontier < WINDOW {
            (total - frontier) as nat
        } else {
            WINDOW as nat
        }
    }

    /// What holds of every state that a session passes through: the order
    /// is a permutation of the words; the rotation is as long as the window
    /// and the words left allow; every word in rotation is a word of the
    /// list, short of mastery; no word is in rotation twice, and none that
    /// has yet to come into rotation is in it already.
    pub open spec fn wf(self) -> bool {
        &&& self.permutation.len() == self.total()
        &&& is_permutation(self.permutation)
        &&& self.frontier <= self.total()
        &&& self.rotation.len() == Self::window(self.total(), self.frontier)
        &&& forall|i: int|
            0 <= i < self.rotation.len() ==> (#[trigger] self.rotation[i]).0 < self.total()
                && self.rotation[i].1 < MASTERY
        &&& forall|i: int, j: int|
            0 <= i < j < self.rotation.len() ==> (#[trigger] self.rotation[i]).0 != (
            #[trigger] self.rotation[j]).0
        &&& forall|i: int, p: int|
            0 <= i < self.rotation.len() && self.admitted() <= p < self.total() ==> (
            #[trigger] self.rotation[i]).0 != #[trigger] self.permutation[p]
    }

    /// The state in which a session starts: `frontier` words count as
    /// retired, and the words that follow them in the order of the session
    /// are in rotation, none of them answered yet.
    pub open spec fn begin(
        words: Seq<WordsEntryView>,
        direction: WordsDirection,
        permutation: Seq<usize>,
        frontier: nat,
    ) -> Review {
        Review {
            words,
            direction,
            permutation,
            frontier,
            rotation: Seq::new(
                Self::window(words.len(), frontier),
                |i: int| (permutation[frontier + i], 0usize),
            ),
        }
    }

    /// Whether every word is retired.
    pub open spec fn finished(self) -> bool {
        self.frontier == self.total()
    }

    /// What is asked next.
    pub open spec fn question(self) -> Question {
        let (index, progress) = self.rotation[0];
        let direction = merged(self.direction, self.words[index as int].direction);
        Question { index, progress, direction, reversed: asks_in_reverse(direction, progress as nat) }
    }

    /// The state after the word at the front has been answered.
    ///
    /// A wrong answer sends the word to the back as it is. A correct answer
    /// is credited to the word and adds to its progress; with `MASTERY`
    /// correct answers the word is retired and, while words are left that
    /// have not been in rotation, the next of them comes in at the back.
    pub open spec fn step(self, correct: bool) -> Review {
        let (index, progress) = self.rotation[0];
        let rest = self.rotation.drop_first();
        if !correct {
            Review { rotation: rest.push((index, progress)), ..self }
        } else {
            let words = self.words.update(index as int, credited(self.words[index as int]));
            if progress + 1 < MASTERY {
                Review { words, rotation: rest.push((index, (progress + 1) as usize)), ..self }
            } else if self.admitted() < self.total() {
                Review {
                    words,
                    frontier: self.frontier + 1,
                    rotation: rest.push((self.permutation[self.admitted() as int], 0usize)),
                    ..self
                }
            } else {
                Review { words, frontier: self.frontier + 1, rotation: rest, ..self }
            }
        }
    }

    /// How many correct answers are still needed to retire every word.
    pub open spec fn outstanding(self) -> int {
        MASTERY * (self.total() - self.admitted()) + lacking(self.rotation)
    }

    /// The state after `answers` have been judged in turn. Answers that
    /// come after the last word is retired are not looked at.
    pub open spec fn after(self, answers: Seq<bool>) -> Review
        decreases answers.len(),
    {
        if answers.len() == 0 || self.finished() {
            self
        } else {
            self.step(answers[0]).after(answers.drop_first())
        }
    }

    /// The words that are retired while `answers` are judged in turn.
    pub open spec fn retired(self, answers: Seq<bool>) -> Set<usize>
        decreases answers.len(),
    {
        if answers.len() == 0 || self.finished() {
            Set::empty()
        } else {
            let later = self.step(answers[0]).retired(answers.drop_first());
            if answers[0] && self.rotation[0].1 + 1 >= MASTERY {
                later.insert(self.rotation[0].0)
            } else {
                later
            }
        }
    }

    /// Whether the word at `index` may still be asked: it is in rotation,
    /// or it has yet to come into rotation.
    pub open spec fn pending(self, index: usize) -> bool {
        self.rotates(index) || self.awaits(index)
    }

    /// Whether the word at `index` is in rotation.
    pub open spec fn rotates(self, index: usize) -> bool {
        exists|i: int| 0 <= i < self.rotation.len() && (#[trigger] self.rotation[i]).0 == index
    }

    /// Whether the word at `index` has yet to come into rotation.
    pub open spec fn awaits(self, index: usize) -> bool {
        exists|p: int|
            self.admitted() <= p < self.total() && #[trigger] self.permutation[p] == index
    }

    /// How many correct answers the word at `index` lacks until it is
    /// retired: what is missing of its progress while it is in rotation,
    /// all of them while it has yet to come, none otherwise.
    pub open spec fn lacks(self, index: usize) -> int {
        if self.rotates(index) {
            let i = choose|i: int|
                0 <= i < self.rotation.len() && (#[trigger] self.rotation[i]).0 == index;
            MASTERY - self.rotation[i].1
        } else if self.awaits(index) {
            MASTERY as int
        } else {
            0
        }
    }

    /// How often the word at `index` is answered correctly while `answers`
    /// are judged in turn.
    pub open spec fn credit(self, answers: Seq<bool>, index: int) -> nat
        decreases answers.len(),
    {
        if answers.len() == 0 || self.finished() {
            0
        } else {
            let now: nat = if answers[0] && self.rotation[0].0 == index {
                1
            } else {
                0
            };
            now + self.step(answers[0]).credit(answers.drop_first(), index)
        }
    }
}

/// The executable state of a session. It owns the words while the session
/// lasts and hands them back at the end.
pub struct ReviewScheduler {
    words: WordsList,
    direction: WordsDirection,
    permutation: Vec<usize>,
    frontier: usize,
    rotation: VecDeque<(usize, usize)>,
}

impl View for ReviewScheduler {
    type V = Review;

    closed spec fn view(&self) -> Review {
        Review {
            words: self.words@,
            direction: self.direction,
            permutation: self.permutation@,
            frontier: self.frontier as nat,
            rotation: self.rotation@,
        }
    }
}

impl ReviewScheduler {
    /// The words as they stand.
    pub closed spec fn list(&self) -> WordsList {
        self.words
    }

    /// The view shows the words that `list` holds.
    pub broadcast proof fn lemma_view_shows_list(&self)
        ensures
            #[trigger] self@.words == self.list()@,
    {
    }

    /// A session over `words` in the given order, with the first `frontier`
    /// words of that order counted as retired.
    pub fn with_order(
        words: WordsList,
        direction: WordsDirection,
        permutation: Vec<usize>,
        frontier: usize,
    ) -> (r: ReviewScheduler)
        requires
            permutation@.len() == words.0@.len(),
            is_permutation(permutation@),
            frontier <= words.0@.len(),
        ensures
            r@ == Review::begin(words@, direction, permutation@, frontier as nat),
            r@.wf(),
            r.list() == words,
    {
        let total: usize = words.0.len();
        let mut rotation: VecDeque<(usize, usize)> = VecDeque::new();
        let mut position: usize = frontier;
        while position < total && position - frontier < WINDOW
            invariant
                frontier <= position <= total == permutation@.len(),
                position - frontier <= WINDOW,
                is_permutation(permutation@),
                rotation@ == Seq::new(
                    (position - frontier) as nat,
                    |i: int| (permutation@[frontier + i], 0usize),
                ),
            decreases total - position,
        {
            rotation.push_back((permutation[position], 0));
            position = position + 1;
        }
        let r = ReviewScheduler { words, direction, permutation, frontier, rotation };
        proof {
            let want = Review::begin(words@, direction, permutation@, frontier as nat);
            assert(r@.rotation =~= want.rotation);
            lemma_begin_is_wf(words@, direction, permutation@, frontier as nat);
        }
        r
    }

    /// A session over `words`.
    ///
    /// With `resume`, the session goes on where `meta` says that a
    /// cancelled one stopped, in the order saved there. Without `resume`,
    /// or where nothing is saved, it starts at the first word, in a random
    /// order with `shuffle` and in the order of the list without.
    pub fn new(
        words: WordsList,
        meta: &WordsMeta,
        direction: WordsDirection,
        shuffle: bool,
        resume: bool,
    ) -> (r: ReviewScheduler)
        requires
            resume ==> meta.resumable(words.0@.len()),
        ensures
            r@.wf(),
            r.list() == words,
            r@ == Review::begin(
                words@,
                direction,
                r@.permutation,
                planned_frontier(*meta, resume),
            ),
            plans_order(*meta, shuffle, resume, words.0@.len(), r@.permutation),
    {
        let total: usize = words.0.len();
        let frontier: usize = match (resume, meta.progress) {
            (true, Some(done)) => done,
            _ => 0,
        };
        let saved: Option<Vec<usize>> = if resume {
            match &meta.shuffle_map {
                Some(order) => Some(from_shuffle_map(order, total)),
                None => None,
            }
        } else {
            None
        };
        let permutation: Vec<usize> = match saved {
            Some(order) => order,
            None => {
                if shuffle {
                    random_permutation(total)
                } else {
                    proof {
                        lemma_identity_is_permutation(total as nat);
                    }
                    identity_permutation(total)
                }
            },
        };
        ReviewScheduler::with_order(words, direction, permutation, frontier)
    }

    /// Whether every word is retired.
    pub fn is_finished(&self) -> (r: bool)
        requires
            self@.wf(),
        ensures
            r == self@.finished(),
    {
        self.frontier == self.words.0.len()
    }

    /// How many words are retired.
    pub fn frontier(&self) -> (r: usize)
        ensures
            r == self@.frontier,
    {
        self.frontier
    }

    /// The number of words.
    pub fn total(&self) -> (r: usize)
        requires
            self@.wf(),
        ensures
            r == self@.total(),
    {
        self.words.0.len()
    }

    /// How many words are in rotation.
    pub fn in_rotation(&self) -> (r: usize)
        ensures
            r == self@.rotation.len(),
    {
        self.rotation.len()
    }

    /// The order of the session: at each position, the index of a word.
    pub fn permutation(&self) -> (r: &Vec<usize>)
        ensures
            r@ == self@.permutation,
    {
        &self.permutation
    }

    /// The words as they stand.
    pub fn words(&self) -> (r: &WordsList)
        ensures
            *r == self.list(),
    {
        &self.words
    }

    /// What is asked next.
    pub fn question(&self) -> (r: Question)
        requires
            self@.wf(),
            !self@.finished(),
        ensures
            r == self@.question(),
            r.index < self.list().0@.len(),
    {
        let (index, progress) = self.rotation[0];
        assert(self@.rotation[0].0 < self@.total());
        let direction = self.direction & self.words.0[index].direction;
        let reversed = match direction {
            WordsDirection::DT => true,
            WordsDirection::Both => progress > SWAP_AFTER,
            _ => false,
        };
        Question { index, progress, direction, reversed }
    }

    /// Takes note of the answer to the question: `correct` says whether it
    /// was judged correct.
    pub fn record(&mut self, correct: bool)
        requires
            old(self)@.wf(),
            !old(self)@.finished(),
            correct ==> old(self)@.words[old(self)@.question().index as int].times_answered_correctly
                < usize::MAX,
        ensures
            final(self)@ == old(self)@.step(correct),
            final(self)@.wf(),
            final(self).list().0@.len() == old(self).list().0@.len(),
            forall|i: int|
                0 <= i < old(self).list().0@.len() ==> same_but_count(
                    old(self).list().0@[i],
                    #[trigger] final(self).list().0@[i],
                ),
    {
        let ghost before = self@;
        let total: usize = self.words.0.len();
        proof {
            lemma_step_keeps_wf(before, correct);
        }
        let (index, progress) = match self.rotation.pop_front() {
            Some(front) => front,
            None => unreached(),
        };
        assert(self.rotation@ == before.rotation.drop_first());
        assert(before.rotation[0].0 < before.total());
        if correct {
            let entry = &mut self.words.0[index];
            entry.times_answered_correctly = entry.times_answered_correctly + 1;
            assert(self.words@ =~= before.words.update(index as int, credited(before.words[index as int])));
            let progress: usize = progress + 1;
            if progress == MASTERY {
                assert(self.frontier < total);
                assert(self.rotation@.len() < WINDOW);
                self.frontier = self.frontier + 1;
                let next: usize = self.frontier + self.rotation.len();
                if next < self.permutation.len() {
                    self.rotation.push_back((self.permutation[next], 0));
                }
            } else {
                self.rotation.push_back((index, progress));
            }
        } else {
            self.rotation.push_back((index, progress));
            assert(self.words@ =~= before.words);
        }
        assert(self@.rotation =~= before.step(correct).rotation);
    }

    /// Saves in `meta` where the session stands, so that it can be resumed:
    /// the number of retired words and the order of the session.
    pub fn save_progress(&self, meta: &mut WordsMeta)
        requires
            self@.wf(),
        ensures
            *final(meta) == (WordsMeta {
                progress: Some(self@.frontier as usize),
                shuffle_map: final(meta).shuffle_map,
                ..*old(meta)
            }),
            final(meta).shuffle_map matches Some(order) && order@ == as_map(self@.permutation),
    {
        meta.progress = Some(self.frontier);
        meta.shuffle_map = Some(to_shuffle_map(&self.permutation));
    }

    /// Ends the session and hands the words back.
    pub fn into_words(self) -> (r: WordsList)
        ensures
            r == self.list(),
    {
        self.words
    }
}

/// Whether `after` is `before` with nothing changed but, possibly, the
/// count of correct answers.
pub open spec fn same_but_count(before: WordsEntry, after: WordsEntry) -> bool {
    &&& after.terms == before.terms
    &&& after.definitions == before.definitions
    &&& after.direction == before.direction
}

/// How many words count as retired when a session starts.
pub open spec fn planned_frontier(meta: WordsMeta, resume: bool) -> nat {
    match meta.progress {
        Some(done) if resume => done as nat,
        _ => 0,
    }
}

/// Whether `order` is an order that a session over `total` words may start
/// with: the saved one when the session resumes and one is saved; else any
/// permutation with `shuffle`, and the order of the list without.
pub open spec fn plans_order(
    meta: WordsMeta,
    shuffle: bool,
    resume: bool,
    total: nat,
    order: Seq<usize>,
) -> bool {
    match meta.shuffle_map {
        Some(saved) if resume => order == from_map(saved@, total),
        _ => if shuffle {
            order.len() == total && is_permutation(order)
        } else {
            order == identity(total)
        },
    }
}

/// The words in `a + b` lack what those in `a` and those in `b` lack.
pub proof fn lemma_lacking_concat(a: Seq<(usize, usize)>, b: Seq<(usize, usize)>)
    ensures
        lacking(a + b) == lacking(a) + lacking(b),
    decreases b.len(),
{
    if b.len() == 0 {
        assert(a + b == a);
    } else {
        assert((a + b).drop_last() == a + b.drop_last());
        lemma_lacking_concat(a, b.drop_last());
    }
}

/// A word in rotation lacks at least one correct answer.
pub proof fn lemma_lacking_bounds(rotation: Seq<(usize, usize)>)
    requires
        forall|i: int| 0 <= i < rotation.len() ==> (#[trigger] rotation[i]).1 < MASTERY,
    ensures
        rotation.len() <= lacking(rotation) <= MASTERY * rotation.len(),
    decreases rotation.len(),
{
    if rotation.len() > 0 {
        let front = rotation.drop_last();
        assert forall|i: int| 0 <= i < front.len() implies (#[trigger] front[i]).1 < MASTERY by {
            assert(front[i] == rotation[i]);
        }
        lemma_lacking_bounds(front);
    }
}

/// A session starts in a well-formed state.
pub proof fn lemma_begin_is_wf(
    words: Seq<WordsEntryView>,
    direction: WordsDirection,
    permutation: Seq<usize>,
    frontier: nat,
)
    requires
        permutation.len() == words.len(),
        is_permutation(permutation),
        frontier <= words.len(),
    ensures
        Review::begin(words, direction, permutation, frontier).wf(),
{
    let s = Review::begin(words, direction, permutation, frontier);
    assert forall|i: int, j: int| 0 <= i < j < s.rotation.len() implies (#[trigger] s.rotation[i]).0
        != (#[trigger] s.rotation[j]).0 by {
        assert(permutation[frontier + i] != permutation[frontier + j]);
    }
    assert forall|i: int, p: int|
        0 <= i < s.rotation.len() && s.admitted() <= p < s.total() implies (
    #[trigger] s.rotation[i]).0 != #[trigger] s.permutation[p] by {
        assert(permutation[frontier + i] != permutation[p]);
    }
}

/// A step leads from one well-formed state to another.
pub proof fn lemma_step_keeps_wf(s: Review, correct: bool)
    requires
        s.wf(),
        !s.finished(),
    ensures
        s.step(correct).wf(),
        s.step(correct).total() == s.total(),
        s.step(correct).permutation == s.permutation,
        s.step(correct).direction == s.direction,
{
    let t = s.step(correct);
    let rest = s.rotation.drop_first();
    let n = rest.len() as int;
    assert(s.rotation[0].0 < s.total());
    if correct && s.rotation[0].1 + 1 >= MASTERY && s.admitted() < s.total() {
        assert(s.permutation[s.admitted() as int] < s.total());
    }
    assert forall|i: int| 0 <= i < n implies #[trigger] t.rotation[i] == s.rotation[i + 1] by {
        assert(rest[i] == s.rotation[i + 1]);
    }
    assert forall|i: int| 0 <= i < t.rotation.len() implies (#[trigger] t.rotation[i]).0 < t.total()
        && t.rotation[i].1 < MASTERY by {
        if i < n {
            assert(t.rotation[i] == s.rotation[i + 1]);
        }
    }
    assert forall|i: int, j: int| 0 <= i < j < t.rotation.len() implies (#[trigger] t.rotation[i]).0
        != (#[trigger] t.rotation[j]).0 by {
        assert(t.rotation[i] == s.rotation[i + 1]);
        if j < n {
            assert(t.rotation[j] == s.rotation[j + 1]);
        } else if t.rotation[j].0 == s.rotation[0].0 {
            assert(s.rotation[0].0 != s.rotation[i + 1].0);
        } else {
            assert(t.rotation[j].0 == s.permutation[s.admitted() as int]);
            assert(s.rotation[i + 1].0 != s.permutation[s.admitted() as int]);
        }
    }
    assert forall|i: int, p: int|
        0 <= i < t.rotation.len() && t.admitted() <= p < t.total() implies (
    #[trigger] t.rotation[i]).0 != #[trigger] t.permutation[p] by {
        if i < n {
            assert(t.rotation[i] == s.rotation[i + 1]);
            assert(s.rotation[i + 1].0 != s.permutation[p]);
        } else if t.rotation[i].0 == s.rotation[0].0 {
            assert(s.rotation[0].0 != s.permutation[p]);
        } else {
            assert(t.rotation[i].0 == s.permutation[s.admitted() as int]);
            assert(s.permutation[s.admitted() as int] != s.permutation[p]);
        }
    }
}

} // verus!
