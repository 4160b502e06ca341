//! Character-level text operations, stated over `Seq<char>`.
//!
//! Strings are viewed as sequences of Unicode scalar values. Every executable
//! function here is tied to a spec function of the same meaning, so that the
//! rules built on top of them (answer matching, import parsing) can be stated
//! without reference to bytes or encodings.

use vstd::prelude::*;
use vstd::string::*;

verus! {

/// Anything that can be read as text: a string slice or an owned string.
pub trait Text {
    /// The characters this value stands for.
    spec fn text(&self) -> Seq<char>;

    /// Borrows the value as a string slice.
    fn as_text(&self) -> (r: &str)
        ensures
            r@ == self.text(),
    ;
}

impl<'a> Text for &'a str {
    open spec fn text(&self) -> Seq<char> {
        (*self)@
    }

    fn as_text(&self) -> (r: &str) {
        *self
    }
}

impl Text for String {
    open spec fn text(&self) -> Seq<char> {
        self@
    }

    fn as_text(&self) -> (r: &str) {
        self.as_str()
    }
}

/// The texts of a sequence of text values, element by element.
pub open spec fn texts<S: Text>(items: Seq<S>) -> Seq<Seq<char>> {
    Seq::new(items.len(), |i: int| items[i].text())
}

/// Unicode `White_Space`: the characters that trimming removes.
pub open spec fn is_whitespace(c: char) -> bool {
    let n = c as u32;
    ||| 0x09 <= n <= 0x0D
    ||| n == 0x20
    ||| n == 0x85
    ||| n == 0xA0
    ||| n == 0x1680
    ||| 0x2000 <= n <= 0x200A
    ||| n == 0x2028
    ||| n == 0x2029
    ||| n == 0x202F
    ||| n == 0x205F
    ||| n == 0x3000
}

/// `s` without its leading whitespace.
pub open spec fn trim_start(s: Seq<char>) -> Seq<char>
    decreases s.len(),
{
    if s.len() > 0 && is_whitespace(s[0]) {
        trim_start(s.subrange(1, s.len() as int))
    } else {
        s
    }
}

/// `s` without its trailing whitespace.
pub open spec fn trim_end(s: Seq<char>) -> Seq<char>
    decreases s.len(),
{
    if s.len() > 0 && is_whitespace(s.last()) {
        trim_end(s.drop_last())
    } else {
        s
    }
}

/// `s` without leading and trailing whitespace.
pub open spec fn trimmed(s: Seq<char>) -> Seq<char> {
    trim_end(trim_start(s))
}

/// The code point of `c`, with `A`..`Z` mapped onto `a`..`z`.
pub open spec fn ascii_fold(c: char) -> int {
    let n = c as u32 as int;
    if 0x41 <= n <= 0x5A {
        n + 0x20
    } else {
        n
    }
}

/// Equality of two texts up to the case of ASCII letters.
pub open spec fn eq_ignore_ascii_case(a: Seq<char>, b: Seq<char>) -> bool {
    &&& a.len() == b.len()
    &&& forall|i: int| 0 <= i < a.len() ==> ascii_fold(#[trigger] a[i]) == ascii_fold(b[i])
}

/// The parts written one after another with `sep` between neighbours.
pub open spec fn joined(parts: Seq<Seq<char>>, sep: Seq<char>) -> Seq<char>
    decreases parts.len(),
{
    if parts.len() == 0 {
        Seq::empty()
    } else if parts.len() == 1 {
        parts[0]
    } else {
        joined(parts.drop_last(), sep) + sep + parts.last()
    }
}

/// Ignoring ASCII case is reflexive.
pub proof fn lemma_eq_ignore_ascii_case_reflexive(a: Seq<char>)
    ensures
        eq_ignore_ascii_case(a, a),
{
}

/// Whether every character of `s` is whitespace.
pub open spec fn is_blank(s: Seq<char>) -> bool {
    forall|i: int| 0 <= i < s.len() ==> is_whitespace(#[trigger] s[i])
}

/// Whitespace in front of a text is trimmed away with the text's own.
pub proof fn lemma_trim_start_skips_blank(blank: Seq<char>, s: Seq<char>)
    requires
        is_blank(blank),
    ensures
        trim_start(blank + s) == trim_start(s),
    decreases blank.len(),
{
    if blank.len() == 0 {
        assert(blank + s == s);
    } else {
        let whole = blank + s;
        assert(whole[0] == blank[0]);
        assert(whole.subrange(1, whole.len() as int) == blank.drop_first() + s);
        assert forall|i: int| 0 <= i < blank.drop_first().len() implies is_whitespace(
            #[trigger] blank.drop_first()[i],
        ) by {
            assert(blank.drop_first()[i] == blank[i + 1]);
        }
        lemma_trim_start_skips_blank(blank.drop_first(), s);
    }
}

/// Whitespace behind a text is trimmed away with the text's own.
pub proof fn lemma_trim_end_skips_blank(s: Seq<char>, blank: Seq<char>)
    requires
        is_blank(blank),
    ensures
        trim_end(s + blank) == trim_end(s),
    decreases blank.len(),
{
    if blank.len() == 0 {
        assert(s + blank == s);
    } else {
        let whole = s + blank;
        assert(whole.last() == blank.last());
        assert(whole.drop_last() == s + blank.drop_last());
        assert forall|i: int| 0 <= i < blank.drop_last().len() implies is_whitespace(
            #[trigger] blank.drop_last()[i],
        ) by {
            assert(blank.drop_last()[i] == blank[i]);
        }
        lemma_trim_end_skips_blank(s, blank.drop_last());
    }
}

/// What is left of a text and of something appended to it when the start
/// is trimmed: the rest of the text with the appendix, or, where the text
/// is blank, the rest of the appendix.
proof fn lemma_trim_start_of_concat(s: Seq<char>, tail: Seq<char>)
    ensures
        trim_start(s).len() > 0 ==> trim_start(s + tail) == trim_start(s) + tail,
        trim_start(s).len() == 0 ==> is_blank(s),
    decreases s.len(),
{
    if s.len() > 0 && is_whitespace(s[0]) {
        let rest = s.subrange(1, s.len() as int);
        assert((s + tail)[0] == s[0]);
        assert((s + tail).subrange(1, (s + tail).len() as int) == rest + tail);
        lemma_trim_start_of_concat(rest, tail);
        if trim_start(s).len() == 0 {
            assert forall|i: int| 0 <= i < s.len() implies is_whitespace(#[trigger] s[i]) by {
                if i > 0 {
                    assert(rest[i - 1] == s[i]);
                }
            }
        }
    } else if s.len() > 0 {
        assert((s + tail)[0] == s[0]);
    }
}

/// A blank text trims to nothing.
proof fn lemma_blank_trims_to_nothing(s: Seq<char>)
    requires
        is_blank(s),
    ensures
        trim_start(s).len() == 0,
        trim_end(s).len() == 0,
    decreases s.len(),
{
    if s.len() > 0 {
        assert(is_whitespace(s[0]) && is_whitespace(s.last()));
        let front = s.drop_last();
        let back = s.subrange(1, s.len() as int);
        assert forall|i: int| 0 <= i < front.len() implies is_whitespace(#[trigger] front[i]) by {
            assert(front[i] == s[i]);
        }
        assert forall|i: int| 0 <= i < back.len() implies is_whitespace(#[trigger] back[i]) by {
            assert(back[i] == s[i + 1]);
        }
        lemma_blank_trims_to_nothing(front);
        lemma_blank_trims_to_nothing(back);
    }
}

/// Trimming does not see the whitespace around a text.
pub proof fn lemma_trimmed_ignores_surrounding_whitespace(
    before: Seq<char>,
    s: Seq<char>,
    after: Seq<char>,
)
    requires
        is_blank(before),
        is_blank(after),
    ensures
        trimmed(before + s + after) == trimmed(s),
{
    assert(before + s + after == before + (s + after));
    lemma_trim_start_skips_blank(before, s + after);
    lemma_trim_start_of_concat(s, after);
    if trim_start(s).len() > 0 {
        lemma_trim_end_skips_blank(trim_start(s), after);
    } else {
        // all of `s + after` is blank
        assert(is_blank(s + after)) by {
            assert forall|i: int| 0 <= i < (s + after).len() implies is_whitespace(
                #[trigger] (s + after)[i],
            ) by {
                if i < s.len() {
                    assert((s + after)[i] == s[i]);
                } else {
                    assert((s + after)[i] == after[i - s.len()]);
                }
            }
        }
        lemma_blank_trims_to_nothing(s + after);
        assert(trim_start(s + after) =~= Seq::<char>::empty());
        assert(trim_start(s) =~= Seq::<char>::empty());
    }
}

/// Two texts that are equal up to ASCII case are still so when both are
/// trimmed: whitespace has no case.
pub proof fn lemma_trimmed_respects_ascii_case(a: Seq<char>, b: Seq<char>)
    requires
        eq_ignore_ascii_case(a, b),
    ensures
        eq_ignore_ascii_case(trimmed(a), trimmed(b)),
{
    lemma_trim_start_respects_ascii_case(a, b);
    lemma_trim_end_respects_ascii_case(trim_start(a), trim_start(b));
}

/// A character that equals a whitespace character up to ASCII case is that
/// character.
proof fn lemma_whitespace_has_no_case(x: char, y: char)
    requires
        ascii_fold(x) == ascii_fold(y),
    ensures
        is_whitespace(x) == is_whitespace(y),
{
}

proof fn lemma_trim_start_respects_ascii_case(a: Seq<char>, b: Seq<char>)
    requires
        eq_ignore_ascii_case(a, b),
    ensures
        eq_ignore_ascii_case(trim_start(a), trim_start(b)),
    decreases a.len(),
{
    if a.len() > 0 {
        assert(ascii_fold(a[0]) == ascii_fold(b[0]));
        lemma_whitespace_has_no_case(a[0], b[0]);
        if is_whitespace(a[0]) {
            let ra = a.subrange(1, a.len() as int);
            let rb = b.subrange(1, b.len() as int);
            assert forall|i: int| 0 <= i < ra.len() implies ascii_fold(#[trigger] ra[i])
                == ascii_fold(rb[i]) by {
                assert(ra[i] == a[i + 1] && rb[i] == b[i + 1]);
                assert(ascii_fold(a[i + 1]) == ascii_fold(b[i + 1]));
            }
            lemma_trim_start_respects_ascii_case(ra, rb);
        }
    }
}

proof fn lemma_trim_end_respects_ascii_case(a: Seq<char>, b: Seq<char>)
    requires
        eq_ignore_ascii_case(a, b),
    ensures
        eq_ignore_ascii_case(trim_end(a), trim_end(b)),
    decreases a.len(),
{
    if a.len() > 0 {
        assert(ascii_fold(a[a.len() - 1]) == ascii_fold(b[a.len() - 1]));
        lemma_whitespace_has_no_case(a.last(), b.last());
        if is_whitespace(a.last()) {
            let ra = a.drop_last();
            let rb = b.drop_last();
            assert forall|i: int| 0 <= i < ra.len() implies ascii_fold(#[trigger] ra[i])
                == ascii_fold(rb[i]) by {
                assert(ra[i] == a[i] && rb[i] == b[i]);
                assert(ascii_fold(a[i]) == ascii_fold(b[i]));
            }
            lemma_trim_end_respects_ascii_case(ra, rb);
        }
    }
}

/// Whether `c` is whitespace.
pub fn is_space(c: char) -> (r: bool)
    ensures
        r == is_whitespace(c),
{
    let n: u32 = c as u32;
    (0x09 <= n && n <= 0x0D) || n == 0x20 || n == 0x85 || n == 0xA0 || n == 0x1680 || (0x2000 <= n
        && n <= 0x200A) || n == 0x2028 || n == 0x2029 || n == 0x202F || n == 0x205F || n == 0x3000
}

/// The characters of `s`, in order.
pub fn chars_of(s: &str) -> (r: Vec<char>)
    ensures
        r@ == s@,
{
    let mut out: Vec<char> = Vec::new();
    for c in it: s.chars()
        invariant
            out@ == it.seq().take(it.index()),
    {
        out.push(c);
    }
    out
}

/// The bounds of what trimming keeps of the characters of `cs` between
/// `from` and `to`.
pub fn trim_range(cs: &Vec<char>, from: usize, to: usize) -> (r: (usize, usize))
    requires
        from <= to <= cs.len(),
    ensures
        from <= r.0 <= r.1 <= to,
        cs@.subrange(r.0 as int, r.1 as int) == trimmed(cs@.subrange(from as int, to as int)),
{
    let ghost whole = cs@.subrange(from as int, to as int);
    let mut lo: usize = from;
    while lo < to && is_space(cs[lo])
        invariant
            from <= lo <= to <= cs.len(),
            whole == cs@.subrange(from as int, to as int),
            trim_start(whole) == trim_start(cs@.subrange(lo as int, to as int)),
        decreases to - lo,
    {
        proof {
            let rest = cs@.subrange(lo as int, to as int);
            assert(rest[0] == cs@[lo as int]);
            assert(rest.subrange(1, rest.len() as int) == cs@.subrange(lo + 1, to as int));
        }
        lo = lo + 1;
    }
    assert(trim_start(whole) == cs@.subrange(lo as int, to as int)) by {
        let rest = cs@.subrange(lo as int, to as int);
        if lo < to {
            assert(rest[0] == cs@[lo as int]);
        }
    }
    let mut hi: usize = to;
    while hi > lo && is_space(cs[hi - 1])
        invariant
            lo <= hi <= to <= cs.len(),
            trimmed(whole) == trim_end(cs@.subrange(lo as int, hi as int)),
        decreases hi,
    {
        proof {
            let rest = cs@.subrange(lo as int, hi as int);
            assert(rest.last() == cs@[hi - 1]);
            assert(rest.drop_last() == cs@.subrange(lo as int, hi - 1));
        }
        hi = hi - 1;
    }
    proof {
        let rest = cs@.subrange(lo as int, hi as int);
        if hi > lo {
            assert(rest.last() == cs@[hi - 1]);
        }
    }
    (lo, hi)
}

/// The bounds `(from, to)` of what trimming keeps of `cs`.
pub fn trim_bounds(cs: &Vec<char>) -> (r: (usize, usize))
    ensures
        r.0 <= r.1 <= cs.len(),
        cs@.subrange(r.0 as int, r.1 as int) == trimmed(cs@),
{
    assert(cs@.subrange(0, cs.len() as int) == cs@);
    trim_range(cs, 0, cs.len())
}

/// `s` without leading and trailing whitespace.
pub fn trim(s: &str) -> (r: &str)
    ensures
        r@ == trimmed(s@),
{
    let cs = chars_of(s);
    let (from, to) = trim_bounds(&cs);
    s.substring_char(from, to)
}

/// The characters of `cs` without leading and trailing whitespace.
pub fn trim_chars(cs: &Vec<char>) -> (r: Vec<char>)
    ensures
        r@ == trimmed(cs@),
{
    let (from, to) = trim_bounds(cs);
    let mut out: Vec<char> = Vec::new();
    let mut i: usize = from;
    while i < to
        invariant
            from <= i <= to <= cs.len(),
            out@ == cs@.subrange(from as int, i as int),
        decreases to - i,
    {
        out.push(cs[i]);
        i = i + 1;
    }
    out
}

/// The code point of `c` with ASCII capitals lowered.
fn fold(c: char) -> (r: u32)
    ensures
        r == ascii_fold(c),
{
    let n: u32 = c as u32;
    if 0x41 <= n && n <= 0x5A {
        n + 0x20
    } else {
        n
    }
}

/// Whether `a` and `b` are equal up to the case of ASCII letters.
pub fn same_ignoring_ascii_case(a: &Vec<char>, b: &Vec<char>) -> (r: bool)
    ensures
        r == eq_ignore_ascii_case(a@, b@),
{
    if a.len() != b.len() {
        return false;
    }
    let mut i: usize = 0;
    while i < a.len()
        invariant
            i <= a.len() == b.len(),
            forall|k: int| 0 <= k < i ==> ascii_fold(#[trigger] a@[k]) == ascii_fold(b@[k]),
        decreases a.len() - i,
    {
        if fold(a[i]) != fold(b[i]) {
            return false;
        }
        i = i + 1;
    }
    true
}

/// Whether `a` and `b` hold the same characters.
pub fn same_chars(a: &Vec<char>, b: &Vec<char>) -> (r: bool)
    ensures
        r == (a@ == b@),
{
    if a.len() != b.len() {
        return false;
    }
    let mut i: usize = 0;
    while i < a.len()
        invariant
            i <= a.len() == b.len(),
            forall|k: int| 0 <= k < i ==> a@[k] == b@[k],
        decreases a.len() - i,
    {
        if a[i] != b[i] {
            return false;
        }
        i = i + 1;
    }
    assert(a@ =~= b@);
    true
}

/// The parts written one after another with `sep` between neighbours.
pub fn join<S: Text>(parts: &[S], sep: &str) -> (r: String)
    ensures
        r@ == joined(texts(parts@), sep@),
{
    let ghost all = texts(parts@);
    let mut out = String::new();
    let mut i: usize = 0;
    while i < parts.len()
        invariant
            i <= parts.len(),
            all == texts(parts@),
            out@ == joined(all.take(i as int), sep@),
        decreases parts.len() - i,
    {
        proof {
            assert(all.take(i + 1).drop_last() == all.take(i as int));
            assert(all.take(i + 1).last() == parts@[i as int].text());
        }
        if i != 0 {
            out.append(sep);
        }
        out.append(parts[i].as_text());
        i = i + 1;
    }
    assert(all.take(parts.len() as int) == all);
    out
}

} // verus!
