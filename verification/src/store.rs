//! The index of all lists.
//!
//! The ID of a list is its position in the index, counted from one. IDs are
//! therefore not stable: removing a list moves every later list one ID
//! down.

use crate::error::WordsError;
use crate::ident::is_version4;
use crate::import::{as_entries, parse_text, PrimitiveWordsList};
use crate::model::{Language, WordsList, WordsMeta};
use vstd::prelude::*;

verus! {

/// The metadata of every list, in the order of their IDs.
#[derive(Debug, Clone, PartialEq, Eq)]
pub struct WordsIndex {
    pub lists: Vec<WordsMeta>,
}

impl Default for WordsIndex {
    fn default() -> (r: Self)
        ensures
            r.lists@.len() == 0,
    {
        WordsIndex { lists: Vec::new() }
    }
}

/// What `id` leads to in an index of `len` lists: the position of the list,
/// or the reason why there is none.
pub open spec fn locate(id: usize, len: nat) -> Result<int, WordsError> {
    if id == 0 {
        Err(WordsError::IdUnderflow)
    } else if id > len {
        Err(WordsError::NotFound { id })
    } else {
        Ok(id - 1)
    }
}

impl WordsIndex {
    /// The position of the list with the given ID.
    fn position(&self, id: usize) -> (r: Result<usize, WordsError>)
        ensures
            match locate(id, self.lists@.len()) {
                Ok(at) => r == Ok::<usize, WordsError>(at as usize),
                Err(e) => r == Err::<usize, WordsError>(e),
            },
    {
        if id == 0 {
            Err(WordsError::IdUnderflow)
        } else if id > self.lists.len() {
            Err(WordsError::NotFound { id })
        } else {
            Ok(id - 1)
        }
    }

    /// The metadata of the list with the given ID.
    pub fn get(&self, id: usize) -> (r: Result<&WordsMeta, WordsError>)
        ensures
            match locate(id, self.lists@.len()) {
                Ok(at) => r == Ok::<&WordsMeta, WordsError>(&self.lists@[at]),
                Err(e) => r == Err::<&WordsMeta, WordsError>(e),
            },
    {
        match self.position(id) {
            Ok(at) => Ok(&self.lists[at]),
            Err(e) => Err(e),
        }
    }

    /// Takes the list with the given ID out of the index. Every list with a
    /// higher ID moves one ID down. Where there is no such list, the index
    /// stays as it is.
    pub fn remove(&mut self, id: usize) -> (r: Result<WordsMeta, WordsError>)
        ensures
            match locate(id, old(self).lists@.len()) {
                Ok(at) => {
                    &&& r == Ok::<WordsMeta, WordsError>(old(self).lists@[at])
                    &&& final(self).lists@ == old(self).lists@.remove(at)
                    &&& forall|k: int| 0 <= k < at ==> final(self).lists@[k] == old(self).lists@[k]
                    &&& forall|k: int|
                        at < k < old(self).lists@.len() ==> final(self).lists@[k - 1] == old(
                            self,
                        ).lists@[k]
                },
                Err(e) => {
                    &&& r == Err::<WordsMeta, WordsError>(e)
                    &&& *final(self) == *old(self)
                },
            },
    {
        match self.position(id) {
            Ok(at) => Ok(self.lists.remove(at)),
            Err(e) => Err(e),
        }
    }

    /// Reads `data` as a list of words and enters a new list under `name`
    /// at the end of the index. Returns the ID of the new list and its
    /// words, which are yet to be stored under the `uuid` of the list.
    ///
    /// Where `data` cannot be read, the index stays as it is.
    pub fn import_list(
        &mut self,
        name: String,
        data: &str,
        term_lang: Option<String>,
        def_lang: Option<String>,
        dir: Option<String>,
    ) -> (r: Result<(usize, WordsList), WordsError>)
        ensures
            match parse_text(data@) {
                Ok(entries) => {
                    &&& r matches Ok((id, words))
                    &&& id == old(self).lists@.len() + 1
                    &&& words@ == as_entries(entries)
                    &&& final(self).lists@.len() == id
                    &&& final(self).lists@.drop_last() == old(self).lists@
                    &&& imported_as(final(self).lists@.last(), name, term_lang, def_lang, dir)
                },
                Err(line) => {
                    &&& r == Err::<(usize, WordsList), WordsError>(
                        WordsError::Parse { line: line as usize },
                    )
                    &&& *final(self) == *old(self)
                },
            },
    {
        let parsed = match PrimitiveWordsList::parse(data) {
            Ok(parsed) => parsed,
            Err(e) => {
                return Err(e);
            },
        };
        let words = WordsList::of(parsed);
        let meta = WordsMeta::new(name, term_lang, def_lang, dir);
        self.lists.push(meta);
        assert(self.lists@.drop_last() =~= old(self).lists@);
        Ok((self.lists.len(), words))
    }
}

/// Whether `ids` is strictly descending.
pub open spec fn strictly_descending(ids: Seq<usize>) -> bool {
    forall|i: int, j: int| 0 <= i < j < ids.len() ==> ids[i] > ids[j]
}

/// What is left of `lists` when the lists with the given IDs are removed one
/// after the other.
pub open spec fn removed_in_turn(lists: Seq<WordsMeta>, ids: Seq<usize>) -> Seq<WordsMeta>
    decreases ids.len(),
{
    if ids.len() == 0 {
        lists
    } else {
        removed_in_turn(lists.remove(ids[0] - 1), ids.drop_first())
    }
}

/// The IDs of the lists whose words are missing, highest first, where
/// `present` says of each list, in the order of the index, whether its
/// words are there.
pub fn ids_without_words(present: &Vec<bool>) -> (r: Vec<usize>)
    ensures
        strictly_descending(r@),
        forall|id: usize|
            r@.contains(id) <==> 1 <= id <= present@.len() && !present@[id - 1],
{
    let mut out: Vec<usize> = Vec::new();
    let mut id: usize = present.len();
    while id > 0
        invariant
            id <= present@.len(),
            strictly_descending(out@),
            forall|k: int| 0 <= k < out@.len() ==> out@[k] > id,
            forall|x: usize|
                out@.contains(x) <==> id < x <= present@.len() && !present@[x - 1],
        decreases id,
    {
        let ghost before = out@;
        if !present[id - 1] {
            out.push(id);
            proof {
                assert forall|x: usize|
                    out@.contains(x) <==> id - 1 < x <= present@.len() && !present@[x - 1] by {
                    if out@.contains(x) {
                        let k = choose|k: int| 0 <= k < out@.len() && out@[k] == x;
                        if k < before.len() {
                            assert(before[k] == x);
                            assert(before.contains(x));
                        }
                    }
                    if before.contains(x) {
                        let k = choose|k: int| 0 <= k < before.len() && before[k] == x;
                        assert(out@[k] == x);
                    }
                    if x == id {
                        assert(out@[before.len() as int] == x);
                    }
                }
            }
        }
        id = id - 1;
    }
    out
}

/// Whether `meta` is the metadata of a list that has just been imported
/// under the given name, languages and folder.
pub open spec fn imported_as(
    meta: WordsMeta,
    name: String,
    term_lang: Option<String>,
    def_lang: Option<String>,
    dir: Option<String>,
) -> bool {
    &&& meta.name == name
    &&& meta.terms == Language(term_lang)
    &&& meta.definition == Language(def_lang)
    &&& meta.folder == dir
    &&& meta.last_modified == meta.created_at
    &&& meta.progress is None
    &&& meta.shuffle_map is None
    &&& is_version4(meta.uuid)
}

} // verus!
