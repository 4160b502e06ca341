//! What the user can ask for on the command line, as plain data, and the
//! small decisions that follow from it.

use crate::direction::WordsDirection;
use crate::judgement::TryMethod;
use crate::model::WordsMeta;
use crate::store::strictly_descending;
use vstd::prelude::*;

verus! {

/// The command line as a whole.
#[derive(Debug, Clone)]
pub struct Cli {
    pub command: Command,
}

/// What to do.
#[derive(Debug, Clone)]
pub enum Command {
    /// Create a new words list
    New(NewArgs),
    /// Import an existing words list (tsv or ron)
    Import(ImportArgs),
    /// List all existing words lists
    Ls(ListArgs),
    /// Show all information about a words list by ID
    Show(ShowArgs),
    /// Edit an existing words list by ID
    Edit { id: usize },
    /// Learn word list by ID
    Try(TryArgs),
    /// Delete word list by ID
    Rm(RmArgs),
    /// Removes all words lists in the store that are not currently in the index
    GarbageCollect(GCArgs),
}

#[derive(Debug, Clone)]
pub struct ShowArgs {
    pub ids: Vec<usize>,
    pub porcelain: bool,
}

#[derive(Debug, Clone, Copy)]
pub struct GCArgs {
    pub dry_run: bool,
}

#[derive(Debug, Clone)]
pub struct RmArgs {
    pub ids: Vec<usize>,
    pub force: bool,
}

#[derive(Debug, Clone)]
pub struct NewArgs {
    pub name: String,
    pub term_lang: String,
    pub def_lang: String,
    pub dir: Option<String>,
}

#[derive(Debug, Clone)]
pub struct ImportArgs {
    pub filename: String,
    pub term_lang: Option<String>,
    pub def_lang: Option<String>,
    pub dir: Option<String>,
}

#[derive(Debug, Clone)]
pub struct TryArgs {
    pub id: usize,
    pub method: TryMethod,
    pub direction: Option<WordsDirection>,
    pub shuffle: bool,
    pub reset: bool,
}

#[derive(Debug, Clone)]
pub struct ListArgs {
    /// Optional filter by language
    pub filter: Option<String>,
}

/// Whether `filter` lets a list with the given languages through: there is
/// no filter, or it names one of the two languages.
pub open spec fn passes(
    filter: Option<Seq<char>>,
    terms: Option<Seq<char>>,
    definition: Option<Seq<char>>,
) -> bool {
    filter is None || filter == terms || filter == definition
}

/// The text of a string, if there is one.
pub open spec fn text_of(s: Option<String>) -> Option<Seq<char>> {
    match s {
        Some(s) => Some(s@),
        None => None,
    }
}

/// Whether two strings, each of which may be missing, say the same.
fn same_text(a: &Option<String>, b: &Option<String>) -> (r: bool)
    ensures
        r == (text_of(*a) == text_of(*b)),
{
    match (a, b) {
        (Some(x), Some(y)) => *x == *y,
        (None, None) => true,
        _ => false,
    }
}

impl TryArgs {
    /// The direction asked for, or `Auto` where none is.
    pub fn direction_or_auto(&self) -> (r: WordsDirection)
        ensures
            r == (match self.direction {
                Some(d) => d,
                None => WordsDirection::Auto,
            }),
    {
        match self.direction {
            Some(d) => d,
            None => WordsDirection::Auto,
        }
    }
}

impl ListArgs {
    /// Whether the list that `meta` describes is to be shown.
    pub fn shows(&self, meta: &WordsMeta) -> (r: bool)
        ensures
            r == passes(text_of(self.filter), text_of(meta.terms.0), text_of(meta.definition.0)),
    {
        self.filter.is_none() || same_text(&self.filter, &meta.terms.0) || same_text(
            &self.filter,
            &meta.definition.0,
        )
    }
}

impl RmArgs {
    /// The IDs to remove, each once, highest first: removing them in this
    /// order, no removal moves a list that is yet to be removed.
    pub fn removal_order(&self) -> (r: Vec<usize>)
        ensures
            strictly_descending(r@),
            r@.to_set() == self.ids@.to_set(),
    {
        let mut out: Vec<usize> = Vec::new();
        let mut i: usize = 0;
        assert(out@.to_set() =~= self.ids@.take(0).to_set());
        while i < self.ids.len()
            invariant
                i <= self.ids.len(),
                strictly_descending(out@),
                out@.to_set() == self.ids@.take(i as int).to_set(),
            decreases self.ids.len() - i,
        {
            let id: usize = self.ids[i];
            let mut at: usize = 0;
            while at < out.len() && out[at] > id
                invariant
                    at <= out.len(),
                    strictly_descending(out@),
                    forall|k: int| 0 <= k < at ==> out@[k] > id,
                decreases out.len() - at,
            {
                at = at + 1;
            }
            let ghost before = out@;
            let ghost seen = self.ids@.take(i as int);
            let ghost more = self.ids@.take(i + 1);
            proof {
                assert(more =~= seen.push(id));
                assert forall|x: usize| more.to_set().contains(x) <==> (seen.to_set().contains(x)
                    || x == id) by {
                    if more.contains(x) {
                        let k = choose|k: int| 0 <= k < more.len() && more[k] == x;
                        if k < seen.len() {
                            assert(seen[k] == x);
                        }
                    }
                    if seen.contains(x) {
                        let k = choose|k: int| 0 <= k < seen.len() && seen[k] == x;
                        assert(more[k] == x);
                    }
                    if x == id {
                        assert(more[i as int] == x);
                    }
                }
            }
            if at < out.len() && out[at] == id {
                proof {
                    assert(before.contains(id));
                    assert(out@.to_set() =~= more.to_set());
                }
            } else {
                out.insert(at, id);
                proof {
                    assert(out@ == before.insert(at as int, id));
                    assert forall|a: int, b: int| 0 <= a < b < out@.len() implies out@[a]
                        > out@[b] by {
                        let from_a = if a < at {
                            a
                        } else {
                            a - 1
                        };
                        let from_b = if b < at {
                            b
                        } else {
                            b - 1
                        };
                        if a != at && b != at {
                            assert(out@[a] == before[from_a] && out@[b] == before[from_b]);
                        } else if a == at {
                            assert(out@[b] == before[from_b]);
                            if from_b > at {
                                assert(before[at as int] > before[from_b]);
                            }
                        } else {
                            assert(out@[a] == before[from_a]);
                        }
                    }
                    assert forall|x: usize| out@.to_set().contains(x) <==> (before.to_set().contains(
                        x,
                    ) || x == id) by {
                        if out@.contains(x) {
                            let k = choose|k: int| 0 <= k < out@.len() && out@[k] == x;
                            if k < at {
                                assert(before[k] == x);
                            } else if k > at {
                                assert(before[k - 1] == x);
                            }
                        }
                        if before.contains(x) {
                            let k = choose|k: int| 0 <= k < before.len() && before[k] == x;
                            if k < at {
                                assert(out@[k] == x);
                            } else {
                                assert(out@[k + 1] == x);
                            }
                        }
                        if x == id {
                            assert(out@[at as int] == x);
                        }
                    }
                    assert forall|x: usize| out@.to_set().contains(x) == more.to_set().contains(
                        x,
                    ) by {
                        assert(before.to_set().contains(x) == seen.to_set().contains(x));
                    }
                    assert(out@.to_set() =~= more.to_set());
                }
            }
            i = i + 1;
        }
        assert(self.ids@.take(self.ids.len() as int) == self.ids@);
        out
    }
}

} // verus!
