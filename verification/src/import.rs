//! Reading a list of words from plain text.
//!
//! The text has one entry per line: a term, a tab or an equals sign, and the
//! definitions separated by commas or slashes.
//!
//! ```text
//! bank<TAB>sofa, bank
//! ```
//!
//! The term and each definition are trimmed. A line that has no tab and no
//! equals sign is an error. A term may come on several lines; its
//! definitions are then collected in the order of the lines.

use crate::direction::WordsDirection;
use crate::error::WordsError;
use crate::model::{WordsEntry, WordsEntryView, WordsList};
use crate::text::{chars_of, texts, trim_range, trimmed};
use vstd::prelude::*;
use vstd::string::*;

verus! {

/// The characters at which the text is cut into pieces.
#[derive(Debug, Clone, Copy, PartialEq, Eq, Structural)]
pub enum Separator {
    /// Between entries: a line feed.
    Line,
    /// Between the term and its definitions: a tab or an equals sign.
    Field,
    /// Between definitions: a comma or a slash.
    Value,
}

impl Separator {
    /// Whether `c` is a separator of this kind.
    pub open spec fn separates(self, c: char) -> bool {
        match self {
            Separator::Line => c == '\n',
            Separator::Field => c == '\t' || c == '=',
            Separator::Value => c == ',' || c == '/',
        }
    }

    /// Whether `c` is a separator of this kind.
    pub fn is(self, c: char) -> (r: bool)
        ensures
            r == self.separates(c),
    {
        match self {
            Separator::Line => c == '\n',
            Separator::Field => c == '\t' || c == '=',
            Separator::Value => c == ',' || c == '/',
        }
    }
}

/// A term with the definitions collected for it.
pub type Collected = (Seq<char>, Seq<Seq<char>>);

/// The pieces into which the separators cut `s`. There is always at least
/// one piece; two separators in a row have an empty piece between them.
pub open spec fn split(s: Seq<char>, by: Separator) -> Seq<Seq<char>>
    decreases s.len(),
{
    if s.len() == 0 {
        seq![Seq::empty()]
    } else {
        let front = split(s.drop_last(), by);
        if by.separates(s.last()) {
            front.push(Seq::empty())
        } else {
            front.drop_last().push(front.last().push(s.last()))
        }
    }
}

/// The pieces into which the separators cut `s`, where a separator at the
/// very end ends the last piece rather than starting an empty one.
pub open spec fn split_terminator(s: Seq<char>, by: Separator) -> Seq<Seq<char>> {
    let pieces = split(s, by);
    if pieces.last().len() == 0 {
        pieces.drop_last()
    } else {
        pieces
    }
}

/// Every piece trimmed.
pub open spec fn all_trimmed(pieces: Seq<Seq<char>>) -> Seq<Seq<char>> {
    Seq::new(pieces.len(), |i: int| trimmed(pieces[i]))
}

/// The term and the definitions on one line, or `None` where the line has
/// no separator between a term and definitions. What follows a second such
/// separator is not read.
pub open spec fn parse_line(line: Seq<char>) -> Option<Collected> {
    let fields = split(line, Separator::Field);
    if fields.len() < 2 {
        None
    } else {
        Some((trimmed(fields[0]), all_trimmed(split_terminator(fields[1], Separator::Value))))
    }
}

/// `entries` with `values` added to the definitions of `key`: at the end of
/// those that `key` has already, or as a new entry at the end.
pub open spec fn with_definitions(
    entries: Seq<Collected>,
    key: Seq<char>,
    values: Seq<Seq<char>>,
) -> Seq<Collected>
    decreases entries.len(),
{
    if entries.len() == 0 {
        seq![(key, values)]
    } else if entries[0].0 == key {
        seq![(key, entries[0].1 + values)] + entries.drop_first()
    } else {
        seq![entries[0]] + with_definitions(entries.drop_first(), key, values)
    }
}

/// What the lines say together, or the number (from one) of the first line
/// that cannot be read.
pub open spec fn parse_lines(lines: Seq<Seq<char>>) -> Result<Seq<Collected>, nat>
    decreases lines.len(),
{
    if lines.len() == 0 {
        Ok(Seq::empty())
    } else {
        match parse_lines(lines.drop_last()) {
            Err(line) => Err(line),
            Ok(entries) => match parse_line(lines.last()) {
                None => Err(lines.len()),
                Some((key, values)) => Ok(with_definitions(entries, key, values)),
            },
        }
    }
}

/// What `text` says, or the number (from one) of the first line that cannot
/// be read.
pub open spec fn parse_text(text: Seq<char>) -> Result<Seq<Collected>, nat> {
    parse_lines(split_terminator(text, Separator::Line))
}

/// Whether no term comes twice.
pub open spec fn terms_are_distinct(entries: Seq<Collected>) -> bool {
    forall|i: int, j: int|
        0 <= i < j < entries.len() ==> (#[trigger] entries[i]).0 != (#[trigger] entries[j]).0
}

/// The entries of a list made of what was collected: each with its one
/// term, asked from term to definition, never answered yet.
pub open spec fn as_entries(entries: Seq<Collected>) -> Seq<WordsEntryView> {
    Seq::new(
        entries.len(),
        |i: int|
            WordsEntryView {
                terms: seq![entries[i].0],
                definitions: entries[i].1,
                direction: WordsDirection::TD,
                times_answered_correctly: 0,
            },
    )
}

/// The pieces of `cs` that the ranges mark.
pub open spec fn marked(cs: Seq<char>, ranges: Seq<(usize, usize)>) -> Seq<Seq<char>> {
    Seq::new(ranges.len(), |k: int| cs.subrange(ranges[k].0 as int, ranges[k].1 as int))
}

/// Whether every range lies between `from` and `to`.
pub open spec fn within(ranges: Seq<(usize, usize)>, from: int, to: int) -> bool {
    forall|k: int|
        0 <= k < ranges.len() ==> from <= (#[trigger] ranges[k]).0 <= ranges[k].1 <= to
}

/// What is collected, apart from how it is stored.
pub open spec fn collected(stored: Seq<(String, Vec<String>)>) -> Seq<Collected> {
    Seq::new(stored.len(), |i: int| (stored[i].0@, texts(stored[i].1@)))
}

/// Adding definitions keeps the terms distinct, and adds an entry only for a
/// new term.
pub proof fn lemma_with_definitions_keeps_distinct(
    entries: Seq<Collected>,
    key: Seq<char>,
    values: Seq<Seq<char>>,
)
    requires
        terms_are_distinct(entries),
    ensures
        terms_are_distinct(with_definitions(entries, key, values)),
        forall|i: int|
            0 <= i < entries.len() ==> (#[trigger] with_definitions(entries, key, values)[i]).0
                == entries[i].0,
        entries.len() <= with_definitions(entries, key, values).len() <= entries.len() + 1,
        with_definitions(entries, key, values).len() == entries.len() + 1 ==> with_definitions(
            entries,
            key,
            values,
        ).last().0 == key,
    decreases entries.len(),
{
    let out = with_definitions(entries, key, values);
    if entries.len() == 0 {
    } else if entries[0].0 == key {
        assert forall|i: int, j: int| 0 <= i < j < out.len() implies (#[trigger] out[i]).0 != (
        #[trigger] out[j]).0 by {
            assert(out[j] == entries[j]);
            if i > 0 {
                assert(out[i] == entries[i]);
            }
        }
    } else {
        let rest = entries.drop_first();
        assert forall|i: int, j: int| 0 <= i < j < rest.len() implies (#[trigger] rest[i]).0 != (
        #[trigger] rest[j]).0 by {
            assert(rest[i] == entries[i + 1] && rest[j] == entries[j + 1]);
        }
        lemma_with_definitions_keeps_distinct(rest, key, values);
        let tail = with_definitions(rest, key, values);
        assert forall|i: int| 0 <= i < entries.len() implies (#[trigger] out[i]).0
            == entries[i].0 by {
            if i > 0 {
                assert(out[i] == tail[i - 1]);
                assert(rest[i - 1] == entries[i]);
            }
        }
        assert forall|i: int, j: int| 0 <= i < j < out.len() implies (#[trigger] out[i]).0 != (
        #[trigger] out[j]).0 by {
            assert(out[j] == tail[j - 1]);
            if i > 0 {
                assert(out[i] == tail[i - 1]);
            } else {
                if j - 1 < rest.len() {
                    assert(tail[j - 1].0 == rest[j - 1].0);
                    assert(rest[j - 1] == entries[j]);
                } else {
                    assert(tail.last().0 == key);
                }
            }
        }
    }
}

/// In what is read from lines, no term comes twice.
pub proof fn lemma_parsed_terms_are_distinct(lines: Seq<Seq<char>>)
    ensures
        parse_lines(lines) matches Ok(entries) ==> terms_are_distinct(entries),
    decreases lines.len(),
{
    if lines.len() > 0 {
        lemma_parsed_terms_are_distinct(lines.drop_last());
        match parse_lines(lines.drop_last()) {
            Err(_) => {},
            Ok(entries) => match parse_line(lines.last()) {
                None => {},
                Some((key, values)) => {
                    lemma_with_definitions_keeps_distinct(entries, key, values);
                },
            },
        }
    }
}

/// Where the term at `at` is `key` and no earlier term is, the definitions
/// go to the entry at `at`.
proof fn lemma_with_definitions_at(
    entries: Seq<Collected>,
    key: Seq<char>,
    values: Seq<Seq<char>>,
    at: int,
)
    requires
        0 <= at < entries.len(),
        entries[at].0 == key,
        forall|i: int| 0 <= i < at ==> (#[trigger] entries[i]).0 != key,
    ensures
        with_definitions(entries, key, values) == entries.update(
            at,
            (key, entries[at].1 + values),
        ),
    decreases entries.len(),
{
    if at == 0 {
        assert(with_definitions(entries, key, values) =~= entries.update(
            at,
            (key, entries[at].1 + values),
        ));
    } else {
        let rest = entries.drop_first();
        assert(entries[0].0 != key);
        assert(rest[at - 1] == entries[at]);
        assert forall|i: int| 0 <= i < at - 1 implies (#[trigger] rest[i]).0 != key by {
            assert(rest[i] == entries[i + 1]);
        }
        lemma_with_definitions_at(rest, key, values, at - 1);
        assert(with_definitions(entries, key, values) =~= entries.update(
            at,
            (key, entries[at].1 + values),
        ));
    }
}

/// Where no term is `key`, the definitions make a new entry at the end.
proof fn lemma_with_definitions_new(
    entries: Seq<Collected>,
    key: Seq<char>,
    values: Seq<Seq<char>>,
)
    requires
        forall|i: int| 0 <= i < entries.len() ==> (#[trigger] entries[i]).0 != key,
    ensures
        with_definitions(entries, key, values) == entries.push((key, values)),
    decreases entries.len(),
{
    if entries.len() == 0 {
        assert(with_definitions(entries, key, values) =~= entries.push((key, values)));
    } else {
        let rest = entries.drop_first();
        assert(entries[0].0 != key);
        assert forall|i: int| 0 <= i < rest.len() implies (#[trigger] rest[i]).0 != key by {
            assert(rest[i] == entries[i + 1]);
        }
        lemma_with_definitions_new(rest, key, values);
        assert(with_definitions(entries, key, values) =~= entries.push((key, values)));
    }
}

/// The ranges of the pieces into which the separators cut the characters of
/// `cs` between `from` and `to`.
fn split_ranges(cs: &Vec<char>, from: usize, to: usize, by: Separator) -> (r: Vec<(usize, usize)>)
    requires
        from <= to <= cs.len(),
    ensures
        r@.len() > 0,
        within(r@, from as int, to as int),
        marked(cs@, r@) == split(cs@.subrange(from as int, to as int), by),
{
    let mut out: Vec<(usize, usize)> = Vec::new();
    let mut start: usize = from;
    let mut i: usize = from;
    proof {
        assert(cs@.subrange(from as int, from as int) =~= Seq::<char>::empty());
        assert(marked(cs@, out@).push(cs@.subrange(start as int, i as int)) =~= seq![
            Seq::<char>::empty(),
        ]);
    }
    while i < to
        invariant
            from <= start <= i <= to <= cs.len(),
            within(out@, from as int, to as int),
            marked(cs@, out@).push(cs@.subrange(start as int, i as int)) == split(
                cs@.subrange(from as int, i as int),
                by,
            ),
        decreases to - i,
    {
        let ghost seen = cs@.subrange(from as int, i as int);
        let ghost more = cs@.subrange(from as int, i + 1);
        let ghost done = marked(cs@, out@);
        proof {
            assert(more.drop_last() == seen);
            assert(more.last() == cs@[i as int]);
        }
        if by.is(cs[i]) {
            out.push((start, i));
            start = i + 1;
            proof {
                assert(marked(cs@, out@) =~= done.push(cs@.subrange(out@.last().0 as int, i as int)));
                assert(cs@.subrange(start as int, i + 1) =~= Seq::<char>::empty());
            }
        } else {
            proof {
                let current = cs@.subrange(start as int, i as int);
                assert(split(seen, by).last() == current);
                assert(split(seen, by).drop_last() =~= done);
                assert(current.push(cs@[i as int]) =~= cs@.subrange(start as int, i + 1));
            }
        }
        i = i + 1;
    }
    let ghost done = marked(cs@, out@);
    out.push((start, to));
    proof {
        assert(marked(cs@, out@) =~= done.push(cs@.subrange(start as int, to as int)));
    }
    out
}

/// The ranges of the pieces into which the separators cut the characters of
/// `cs` between `from` and `to`, without an empty piece at the end.
fn split_terminator_ranges(cs: &Vec<char>, from: usize, to: usize, by: Separator) -> (r: Vec<
    (usize, usize),
>)
    requires
        from <= to <= cs.len(),
    ensures
        within(r@, from as int, to as int),
        marked(cs@, r@) == split_terminator(cs@.subrange(from as int, to as int), by),
{
    let mut out = split_ranges(cs, from, to, by);
    let ghost pieces = marked(cs@, out@);
    let last = out[out.len() - 1];
    assert(pieces.last() == cs@.subrange(last.0 as int, last.1 as int));
    if last.0 == last.1 {
        out.pop();
        assert(marked(cs@, out@) =~= pieces.drop_last());
    }
    out
}

/// The characters of `s` between `from` and `to`, as a string of their own.
fn text_between(s: &str, from: usize, to: usize) -> (r: String)
    requires
        from <= to <= s@.len(),
    ensures
        r@ == s@.subrange(from as int, to as int),
{
    s.substring_char(from, to).to_owned()
}

/// Adds `values` to the definitions of `key`.
fn add_definitions(entries: &mut Vec<(String, Vec<String>)>, key: String, values: Vec<String>)
    ensures
        collected(final(entries)@) == with_definitions(
            collected(old(entries)@),
            key@,
            texts(values@),
        ),
{
    let ghost before = collected(entries@);
    let ghost adding = values@;
    let mut more = values;
    let mut i: usize = 0;
    while i < entries.len()
        invariant
            i <= entries.len(),
            before == collected(entries@),
            before == collected(old(entries)@),
            more@ == adding,
            adding == values@,
            forall|k: int| 0 <= k < i ==> (#[trigger] before[k]).0 != key@,
        decreases entries.len() - i,
    {
        if entries[i].0 == key {
            proof {
                assert(before[i as int].0 == key@);
                lemma_with_definitions_at(before, key@, texts(adding), i as int);
            }
            let ghost stored = entries@;
            let ghost had = entries@[i as int].1@;
            let entry = &mut entries[i];
            entry.1.append(&mut more);
            proof {
                assert(entries@[i as int].1@ == had + adding);
                assert(entries@[i as int].0 == stored[i as int].0);
                assert(texts(had + adding) =~= texts(had) + texts(adding));
                assert forall|k: int| 0 <= k < entries@.len() && k != i implies collected(
                    entries@,
                )[k] == before[k] by {
                    assert(entries@[k] == stored[k]);
                }
                assert(collected(entries@) =~= before.update(
                    i as int,
                    (key@, before[i as int].1 + texts(adding)),
                ));
            }
            return ;
        }
        i = i + 1;
    }
    proof {
        lemma_with_definitions_new(before, key@, texts(adding));
    }
    entries.push((key, more));
    assert(collected(entries@) =~= before.push((key@, texts(adding))));
}

/// What a text says: terms, each with its definitions, in the order in
/// which the terms first come.
pub struct PrimitiveWordsList(Vec<(String, Vec<String>)>);

impl View for PrimitiveWordsList {
    type V = Seq<Collected>;

    closed spec fn view(&self) -> Seq<Collected> {
        collected(self.0@)
    }
}

impl PrimitiveWordsList {
    /// Reads `s`. Fails on the first line that has a term but no
    /// definition, with its number.
    pub fn parse(s: &str) -> (r: Result<PrimitiveWordsList, WordsError>)
        ensures
            match parse_text(s@) {
                Ok(entries) => r matches Ok(list) && list@ == entries && terms_are_distinct(list@),
                Err(line) => r == Err::<PrimitiveWordsList, WordsError>(
                    WordsError::Parse { line: line as usize },
                ),
            },
    {
        let cs = chars_of(s);
        assert(cs@.subrange(0, cs.len() as int) == cs@);
        let lines = split_terminator_ranges(&cs, 0, cs.len(), Separator::Line);
        let ghost all = marked(cs@, lines@);
        let mut entries: Vec<(String, Vec<String>)> = Vec::new();
        let mut n: usize = 0;
        assert(collected(entries@) =~= Seq::<Collected>::empty());
        while n < lines.len()
            invariant
                n <= lines.len(),
                cs@ == s@,
                within(lines@, 0, cs.len() as int),
                all == marked(cs@, lines@),
                all == split_terminator(s@, Separator::Line),
                parse_lines(all.take(n as int)) == Ok::<Seq<Collected>, nat>(collected(entries@)),
            decreases lines.len() - n,
        {
            let (from, to) = lines[n];
            proof {
                assert(all.take(n + 1).drop_last() == all.take(n as int));
                assert(all.take(n + 1).last() == cs@.subrange(from as int, to as int));
            }
            let fields = split_ranges(&cs, from, to, Separator::Field);
            let ghost pieces = marked(cs@, fields@);
            if fields.len() < 2 {
                proof {
                    assert(parse_line(all.take(n + 1).last()) is None);
                    assert(parse_lines(all.take(n + 1)) == Err::<Seq<Collected>, nat>(
                        (n + 1) as nat,
                    ));
                    lemma_first_failure_stands(all, n + 1);
                }
                return Err(WordsError::Parse { line: n + 1 });
            }
            let (key_from, key_to) = trim_range(&cs, fields[0].0, fields[0].1);
            let key = text_between(s, key_from, key_to);
            assert(key@ == trimmed(pieces[0]));
            let marks = split_terminator_ranges(&cs, fields[1].0, fields[1].1, Separator::Value);
            let ghost raw = marked(cs@, marks@);
            assert(raw == split_terminator(pieces[1], Separator::Value));
            let mut values: Vec<String> = Vec::new();
            let mut k: usize = 0;
            while k < marks.len()
                invariant
                    k <= marks.len(),
                    cs@ == s@,
                    fields@.len() >= 2,
                    within(marks@, fields@[1].0 as int, fields@[1].1 as int),
                    fields@[1].1 <= cs.len(),
                    raw == marked(cs@, marks@),
                    values@.len() == k,
                    texts(values@) == all_trimmed(raw.take(k as int)),
                decreases marks.len() - k,
            {
                let (value_from, value_to) = trim_range(&cs, marks[k].0, marks[k].1);
                let ghost had = values@;
                values.push(text_between(s, value_from, value_to));
                proof {
                    assert(raw[k as int] == cs@.subrange(
                        marks@[k as int].0 as int,
                        marks@[k as int].1 as int,
                    ));
                    assert forall|j: int| 0 <= j < k + 1 implies #[trigger] texts(values@)[j]
                        == trimmed(raw[j]) by {
                        if j < k {
                            assert(texts(had)[j] == all_trimmed(raw.take(k as int))[j]);
                            assert(values@[j] == had[j]);
                        }
                    }
                    assert(texts(values@) =~= all_trimmed(raw.take(k + 1)));
                }
                k = k + 1;
            }
            assert(raw.take(marks.len() as int) == raw);
            add_definitions(&mut entries, key, values);
            n = n + 1;
        }
        proof {
            assert(all.take(lines.len() as int) == all);
            lemma_parsed_terms_are_distinct(all);
        }
        Ok(PrimitiveWordsList(entries))
    }

    /// How many terms there are.
    pub fn len(&self) -> (r: usize)
        ensures
            r == self@.len(),
    {
        self.0.len()
    }
}

/// Once a line cannot be read, the lines that follow do not matter.
proof fn lemma_first_failure_stands(lines: Seq<Seq<char>>, upto: int)
    requires
        0 < upto <= lines.len(),
        parse_lines(lines.take(upto)) is Err,
    ensures
        parse_lines(lines) == parse_lines(lines.take(upto)),
    decreases lines.len() - upto,
{
    if upto < lines.len() {
        assert(lines.take(upto + 1).drop_last() == lines.take(upto));
        lemma_first_failure_stands(lines, upto + 1);
    } else {
        assert(lines.take(upto) == lines);
    }
}

impl WordsList {
    /// The list made of what a text says: one entry per term, asked from
    /// term to definition, never answered yet.
    pub fn of(input: PrimitiveWordsList) -> (r: WordsList)
        ensures
            r@ == as_entries(input@),
    {
        let ghost stored = input.0@;
        let mut out: Vec<WordsEntry> = Vec::new();
        for pair in it: input.0.into_iter()
            invariant
                it.seq() == stored,
                out@.len() == it.index(),
                forall|k: int|
                    0 <= k < out@.len() ==> (#[trigger] out@[k])@ == as_entries(collected(stored))[k],
        {
            let ghost at = out@.len() as int;
            let (term, definitions) = pair;
            let mut terms: Vec<String> = Vec::new();
            terms.push(term);
            let entry = WordsEntry {
                terms,
                definitions,
                direction: WordsDirection::TD,
                times_answered_correctly: 0,
            };
            proof {
                assert(entry@.terms =~= seq![stored[at].0@]);
            }
            out.push(entry);
        }
        let r = WordsList(out);
        proof {
            assert(r@ =~= as_entries(input@));
        }
        r
    }
}

} // verus!
