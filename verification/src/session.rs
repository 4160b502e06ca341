//! A review session from its start to its end.
//!
//! A [`Session`] is driven from outside: the caller shows each [`Prompt`],
//! hands the typed answer to [`Session::submit`], and closes the session
//! when it is finished or the user gives up. The session itself neither
//! reads nor writes anything.

use crate::error::WordsError;
use crate::judgement::{is_correct, AnswerJudge, TryMethod};
use crate::direction::WordsDirection;
use crate::model::{WordsList, WordsMeta};
use crate::permutation::as_map;
use crate::scheduler::{
    planned_frontier, plans_order, same_but_count, Question, Review, ReviewScheduler,
};
use crate::text::texts;
use vstd::prelude::*;

verus! {

broadcast use ReviewScheduler::lemma_view_shows_list;

/// What the user is asked: one side of an entry is shown, the other is
/// the answer.
pub struct Prompt<'a> {
    /// The side that is shown.
    pub ask: &'a Vec<String>,
    /// The side that is asked for: the answers that count.
    pub answers: &'a Vec<String>,
    /// Which word is asked, and in which direction.
    pub question: Question,
    /// How many words are retired.
    pub done: usize,
    /// How many words the list has.
    pub total: usize,
}

/// A review session: the schedule of the words, the judge of the answers,
/// and the way in which the user answers.
pub struct Session {
    scheduler: ReviewScheduler,
    judge: AnswerJudge,
    method: TryMethod,
}

impl View for Session {
    type V = Review;

    closed spec fn view(&self) -> Review {
        self.scheduler@
    }
}

impl Session {
    /// The way in which the user answers.
    pub closed spec fn method(&self) -> TryMethod {
        self.method
    }

    /// The words as they stand.
    pub closed spec fn list(&self) -> WordsList {
        self.scheduler.list()
    }

    /// The view shows the words that `list` holds.
    pub broadcast proof fn lemma_view_shows_list(&self)
        ensures
            #[trigger] self@.words == self.list()@,
    {
    }

    /// The answers that count for the question that is asked next.
    pub open spec fn expected(&self) -> Seq<Seq<char>> {
        let q = self@.question();
        if q.reversed {
            self@.words[q.index as int].terms
        } else {
            self@.words[q.index as int].definitions
        }
    }

    /// Starts a session over `words`, the words of the list that `meta`
    /// describes.
    ///
    /// With `reset`, what `meta` remembers of a cancelled session is
    /// forgotten first. Otherwise the session resumes where the cancelled
    /// one stopped, in its order.
    pub fn start(
        words: WordsList,
        meta: &mut WordsMeta,
        judge: AnswerJudge,
        method: TryMethod,
        direction: WordsDirection,
        shuffle: bool,
        reset: bool,
    ) -> (r: Session)
        requires
            !reset ==> old(meta).resumable(words.0@.len()),
        ensures
            *final(meta) == (if reset {
                WordsMeta { progress: None, shuffle_map: None, ..*old(meta) }
            } else {
                *old(meta)
            }),
            r@.wf(),
            r.list() == words,
            r.method() == method,
            r@ == Review::begin(
                words@,
                direction,
                r@.permutation,
                planned_frontier(*final(meta), true),
            ),
            plans_order(*final(meta), shuffle, true, words.0@.len(), r@.permutation),
    {
        if reset {
            meta.clear_progress();
        }
        let scheduler = ReviewScheduler::new(words, meta, direction, shuffle, true);
        Session { scheduler, judge, method }
    }

    /// Whether every word is retired.
    pub fn is_finished(&self) -> (r: bool)
        requires
            self@.wf(),
        ensures
            r == self@.finished(),
    {
        self.scheduler.is_finished()
    }

    /// The words as they stand.
    pub fn words(&self) -> (r: &WordsList)
        ensures
            *r == self.list(),
    {
        self.scheduler.words()
    }

    /// What to ask the user next, or `None` when every word is retired.
    pub fn prompt(&self) -> (r: Option<Prompt<'_>>)
        requires
            self@.wf(),
        ensures
            r is None <==> self@.finished(),
            r matches Some(p) ==> {
                let entry = self.list().0@[p.question.index as int];
                &&& p.question == self@.question()
                &&& p.question.index < self.list().0@.len()
                &&& *p.ask == (if p.question.reversed {
                    entry.definitions
                } else {
                    entry.terms
                })
                &&& *p.answers == (if p.question.reversed {
                    entry.terms
                } else {
                    entry.definitions
                })
                &&& texts(p.answers@) == self.expected()
                &&& p.done == self@.frontier
                &&& p.total == self@.total()
            },
    {
        if self.scheduler.is_finished() {
            return None;
        }
        let question = self.scheduler.question();
        let entry = &self.scheduler.words().0[question.index];
        let (ask, answers) = if question.reversed {
            (&entry.definitions, &entry.terms)
        } else {
            (&entry.terms, &entry.definitions)
        };
        Some(
            Prompt {
                ask,
                answers,
                question,
                done: self.scheduler.frontier(),
                total: self.scheduler.total(),
            },
        )
    }

    /// Judges `input` as the answer to the question asked and moves the
    /// session on. Returns whether the answer was correct.
    pub fn submit(&mut self, input: &str) -> (r: bool)
        requires
            old(self)@.wf(),
            !old(self)@.finished(),
            old(self)@.words[old(self)@.question().index as int].times_answered_correctly
                < usize::MAX,
        ensures
            r == is_correct(old(self).method(), input@, old(self).expected()),
            final(self)@ == old(self)@.step(r),
            final(self)@.wf(),
            final(self).method() == old(self).method(),
            final(self).list().0@.len() == old(self).list().0@.len(),
            forall|i: int|
                0 <= i < old(self).list().0@.len() ==> same_but_count(
                    old(self).list().0@[i],
                    #[trigger] final(self).list().0@[i],
                ),
    {
        let question = self.scheduler.question();
        let entry = &self.scheduler.words().0[question.index];
        let correct = if question.reversed {
            self.judge.check(&self.method, input, entry.terms.as_slice())
        } else {
            self.judge.check(&self.method, input, entry.definitions.as_slice())
        };
        self.scheduler.record(correct);
        correct
    }

    /// Ends the session and hands back the words, to be stored, and the
    /// result of the session.
    ///
    /// A session that is `cancelled` leaves in `meta` where it stood, so
    /// that it can be resumed, and ends in `WordsError::Cancelled`. A session
    /// that is not cancelled leaves `meta` as it is.
    pub fn close(self, cancelled: bool, meta: &mut WordsMeta) -> (r: (WordsList, Result<(), WordsError>))
        requires
            self@.wf(),
        ensures
            r.0 == self.list(),
            r.1 == (if cancelled {
                Err::<(), WordsError>(WordsError::Cancelled)
            } else {
                Ok::<(), WordsError>(())
            }),
            !cancelled ==> *final(meta) == *old(meta),
            cancelled ==> {
                &&& *final(meta) == (WordsMeta {
                    progress: Some(self@.frontier as usize),
                    shuffle_map: final(meta).shuffle_map,
                    ..*old(meta)
                })
                &&& final(meta).shuffle_map matches Some(order) && order@ == as_map(
                    self@.permutation,
                )
            },
    {
        if cancelled {
            self.scheduler.save_progress(meta);
            (self.scheduler.into_words(), Err(WordsError::Cancelled))
        } else {
            (self.scheduler.into_words(), Ok(()))
        }
    }
}

} // verus!
