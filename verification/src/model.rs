//! The data that a list of words consists of.
//!
//! An index holds one [`WordsMeta`] per list; the position of a list in the
//! index, counted from one, is the ID by which the user names it. The words
//! of a list are kept apart from its metadata, as a [`WordsList`], under the
//! list's `uuid`.

use crate::chance::random_bytes;
use crate::ident::{
    hyphenated, is_version4, lemma_version4_is_marked, version4, version4_of, write_hyphenated,
};
use crate::clock::{now, Timestamp};
use crate::direction::WordsDirection;
use crate::permutation::{from_map, is_permutation, is_valid_permutation, from_shuffle_map};
use crate::text::{join, joined, texts};
use std::collections::HashMap;
use vstd::prelude::*;
use vstd::string::*;

verus! {

/// The language of one side of a list, if it is known.
#[derive(Debug, Clone, PartialEq, Eq)]
pub struct Language(pub Option<String>);

/// One entry of a list: a term with its synonyms, the definitions that
/// count as its meaning, and what is known of the user's progress.
#[derive(Debug, Clone, PartialEq, Eq)]
pub struct WordsEntry {
    pub terms: Vec<String>,
    pub definitions: Vec<String>,
    pub direction: WordsDirection,
    pub times_answered_correctly: usize,
}

/// What an entry says, apart from how it is stored.
pub struct WordsEntryView {
    pub terms: Seq<Seq<char>>,
    pub definitions: Seq<Seq<char>>,
    pub direction: WordsDirection,
    pub times_answered_correctly: nat,
}

impl View for WordsEntry {
    type V = WordsEntryView;

    open spec fn view(&self) -> WordsEntryView {
        WordsEntryView {
            terms: texts(self.terms@),
            definitions: texts(self.definitions@),
            direction: self.direction,
            times_answered_correctly: self.times_answered_correctly as nat,
        }
    }
}

impl WordsEntry {
    /// Whether the entry can be asked in both directions: it has at least
    /// one term and at least one definition.
    pub open spec fn is_complete(&self) -> bool {
        self.terms@.len() > 0 && self.definitions@.len() > 0
    }

    /// Whether the entry has at least one term and at least one definition.
    pub fn has_both_sides(&self) -> (r: bool)
        ensures
            r == self.is_complete(),
    {
        self.terms.len() > 0 && self.definitions.len() > 0
    }
}

/// The words of one list, in the order in which they were entered.
#[derive(Debug, Clone, PartialEq, Eq)]
pub struct WordsList(pub Vec<WordsEntry>);

impl View for WordsList {
    type V = Seq<WordsEntryView>;

    open spec fn view(&self) -> Seq<WordsEntryView> {
        Seq::new(self.0@.len(), |i: int| self.0@[i]@)
    }
}

impl WordsList {
    /// Whether every entry has at least one term and one definition.
    pub open spec fn is_complete(&self) -> bool {
        forall|i: int| 0 <= i < self.0@.len() ==> (#[trigger] self.0@[i]).is_complete()
    }

    /// Whether every entry has at least one term and one definition.
    pub fn has_only_complete_entries(&self) -> (r: bool)
        ensures
            r == self.is_complete(),
    {
        let mut i: usize = 0;
        while i < self.0.len()
            invariant
                i <= self.0.len(),
                forall|k: int| 0 <= k < i ==> (#[trigger] self.0@[k]).is_complete(),
            decreases self.0.len() - i,
        {
            if !self.0[i].has_both_sides() {
                return false;
            }
            i = i + 1;
        }
        true
    }
}

/// An entry laid out for display: each side on one line.
#[derive(Debug, Clone)]
pub struct PrintableWordsEntry {
    pub term: String,
    pub definitions: String,
    pub direction: WordsDirection,
    pub times_correct: usize,
}

impl PrintableWordsEntry {
    /// Lays `w` out for display: the terms and the definitions each joined
    /// by a comma and a space.
    pub fn of(w: &WordsEntry) -> (r: PrintableWordsEntry)
        ensures
            r.term@ == joined(w@.terms, seq![',', ' ']),
            r.definitions@ == joined(w@.definitions, seq![',', ' ']),
            r.direction == w.direction,
            r.times_correct == w.times_answered_correctly,
    {
        let sep = ", ";
        proof {
            reveal_strlit(", ");
            assert(sep@ =~= seq![',', ' ']);
        }
        PrintableWordsEntry {
            term: join(w.terms.as_slice(), sep),
            definitions: join(w.definitions.as_slice(), sep),
            direction: w.direction,
            times_correct: w.times_answered_correctly,
        }
    }
}

/// What is known of a list besides its words.
#[derive(Debug, Clone, PartialEq, Eq)]
pub struct WordsMeta {
    pub name: String,
    /// Names the file that holds the words. Made once, never changed.
    pub uuid: u128,
    pub terms: Language,
    pub definition: Language,
    pub created_at: Timestamp,
    pub last_modified: Timestamp,
    pub folder: Option<String>,
    /// Where a cancelled session stopped: the number of words done.
    pub progress: Option<usize>,
    /// The order in which a cancelled session asked the words: from the
    /// position in that order to the index of the word.
    pub shuffle_map: Option<HashMap<usize, usize>>,
}

impl WordsMeta {
    /// Whether a session over `total` words can be resumed from what is
    /// saved here: the saved progress does not exceed the number of words,
    /// and the saved order is a permutation of them.
    pub open spec fn resumable(&self, total: nat) -> bool {
        &&& self.progress matches Some(done) ==> done <= total
        &&& self.shuffle_map matches Some(order) ==> is_permutation(from_map(order@, total))
    }

    /// The metadata of a list that has just been made at `created_at` under
    /// the identifier `uuid`: never modified since, with no session to
    /// resume.
    pub fn assemble(
        name: String,
        terms: Option<String>,
        definition: Option<String>,
        folder: Option<String>,
        uuid: u128,
        created_at: Timestamp,
    ) -> (r: WordsMeta)
        ensures
            r == (WordsMeta {
                name,
                uuid,
                terms: Language(terms),
                definition: Language(definition),
                created_at,
                last_modified: created_at,
                folder,
                progress: None,
                shuffle_map: None,
            }),
    {
        WordsMeta {
            name,
            uuid,
            terms: Language(terms),
            definition: Language(definition),
            created_at,
            last_modified: created_at,
            folder,
            progress: None,
            shuffle_map: None,
        }
    }

    /// The metadata of a list made at `created_at`, under the identifier
    /// that the sixteen bytes of `random` give.
    pub fn identified(
        name: String,
        terms: Option<String>,
        definition: Option<String>,
        folder: Option<String>,
        random: [u8; 16],
        created_at: Timestamp,
    ) -> (r: WordsMeta)
        ensures
            r == (WordsMeta {
                name,
                uuid: version4_of(random@),
                terms: Language(terms),
                definition: Language(definition),
                created_at,
                last_modified: created_at,
                folder,
                progress: None,
                shuffle_map: None,
            }),
            is_version4(r.uuid),
    {
        proof {
            lemma_version4_is_marked(random@);
        }
        WordsMeta::assemble(name, terms, definition, folder, version4(random), created_at)
    }

    /// The metadata of a new list, made now, under a fresh random
    /// identifier.
    pub fn new(
        name: String,
        terms: Option<String>,
        definition: Option<String>,
        folder: Option<String>,
    ) -> (r: WordsMeta)
        ensures
            r.name == name,
            r.terms == Language(terms),
            r.definition == Language(definition),
            r.folder == folder,
            r.last_modified == r.created_at,
            r.progress is None,
            r.shuffle_map is None,
            is_version4(r.uuid),
    {
        WordsMeta::identified(name, terms, definition, folder, random_bytes(), now())
    }

    /// The name of the file that holds the words of the list: the
    /// identifier of the list, with the extension `.ron`.
    pub fn words_file_name(&self) -> (r: String)
        ensures
            r@ == hyphenated(self.uuid) + seq!['.', 'r', 'o', 'n'],
    {
        let extension = ".ron";
        proof {
            reveal_strlit(".ron");
            assert(extension@ =~= seq!['.', 'r', 'o', 'n']);
        }
        write_hyphenated(self.uuid).concat(extension)
    }

    /// Forgets where a cancelled session stopped.
    pub fn clear_progress(&mut self)
        ensures
            *final(self) == (WordsMeta { progress: None, shuffle_map: None, ..*old(self) }),
    {
        self.progress = None;
        self.shuffle_map = None;
    }

    /// Whether a session over `total` words can be resumed from what is
    /// saved here.
    pub fn can_resume(&self, total: usize) -> (r: bool)
        ensures
            r == self.resumable(total as nat),
    {
        let progress_fits = match self.progress {
            Some(done) => done <= total,
            None => true,
        };
        let order_fits = match &self.shuffle_map {
            Some(order) => is_valid_permutation(&from_shuffle_map(order, total)),
            None => true,
        };
        progress_fits && order_fits
    }
}

} // verus!
