use rusty_words::direction::WordsDirection;
use rusty_words::error::WordsError;
use rusty_words::import::{PrimitiveWordsList, Separator};
use rusty_words::model::{WordsEntry, WordsList};

fn entry(term: &str, definitions: &[&str]) -> WordsEntry {
    WordsEntry {
        terms: vec![term.to_string()],
        definitions: definitions.iter().map(|d| d.to_string()).collect(),
        direction: WordsDirection::TD,
        times_answered_correctly: 0,
    }
}

fn read(text: &str) -> Result<Vec<WordsEntry>, WordsError> {
    match PrimitiveWordsList::parse(text) {
        Ok(parsed) => Ok(WordsList::of(parsed).0),
        Err(e) => Err(e),
    }
}

#[test]
fn a_line_is_a_term_and_its_definitions() {
    assert_eq!(read("bank\tsofa, bank"), Ok(vec![entry("bank", &["sofa", "bank"])]));
    assert_eq!(read("huis=house/home"), Ok(vec![entry("huis", &["house", "home"])]));
}

#[test]
fn an_empty_text_is_an_empty_list() {
    assert_eq!(read(""), Ok(vec![]));
}

#[test]
fn a_line_feed_at_the_end_starts_no_entry() {
    assert_eq!(read("a=b\n"), Ok(vec![entry("a", &["b"])]));
    assert_eq!(read("a=b\nc=d\n"), Ok(vec![entry("a", &["b"]), entry("c", &["d"])]));
}

#[test]
fn terms_and_definitions_are_trimmed() {
    assert_eq!(read("  a \t b , c  "), Ok(vec![entry("a", &["b", "c"])]));
    assert_eq!(read("a=b\r\nc=d\r\n"), Ok(vec![entry("a", &["b"]), entry("c", &["d"])]));
}

#[test]
fn both_separators_of_each_kind_are_read() {
    assert_eq!(read("a\tb,c/d"), Ok(vec![entry("a", &["b", "c", "d"])]));
    assert_eq!(read("a=b/c,d"), Ok(vec![entry("a", &["b", "c", "d"])]));
}

#[test]
fn what_follows_a_second_field_separator_is_not_read() {
    assert_eq!(read("a=b=c"), Ok(vec![entry("a", &["b"])]));
    assert_eq!(read("a\tb\tc,d"), Ok(vec![entry("a", &["b"])]));
}

#[test]
fn a_separator_at_the_end_of_the_definitions_adds_none() {
    assert_eq!(read("a=b,"), Ok(vec![entry("a", &["b"])]));
    assert_eq!(read("a=b,,"), Ok(vec![entry("a", &["b", ""])]));
    assert_eq!(read("a=,b"), Ok(vec![entry("a", &["", "b"])]));
    assert_eq!(read("a=,"), Ok(vec![entry("a", &[""])]));
}

#[test]
fn a_term_may_have_no_definition_after_its_separator() {
    assert_eq!(read("a="), Ok(vec![entry("a", &[])]));
    assert_eq!(read("=b"), Ok(vec![entry("", &["b"])]));
}

#[test]
fn a_repeated_term_collects_its_definitions() {
    assert_eq!(read("a=b\na=c"), Ok(vec![entry("a", &["b", "c"])]));
    assert_eq!(
        read("x=1\ny=2\nx=3\ny=4,5"),
        Ok(vec![entry("x", &["1", "3"]), entry("y", &["2", "4", "5"])])
    );
    assert_eq!(read(" a=b\na =c"), Ok(vec![entry("a", &["b", "c"])]));
}

#[test]
fn terms_differing_in_case_are_different_terms() {
    assert_eq!(read("a=b\nA=c"), Ok(vec![entry("a", &["b"]), entry("A", &["c"])]));
}

#[test]
fn a_line_without_separator_is_an_error_with_its_number() {
    assert_eq!(read("noseparator"), Err(WordsError::Parse { line: 1 }));
    assert_eq!(read("a=b\nbad line\nc=d"), Err(WordsError::Parse { line: 2 }));
    assert_eq!(read("a=b\nc=d\nbad"), Err(WordsError::Parse { line: 3 }));
}

#[test]
fn the_first_bad_line_is_reported() {
    assert_eq!(read("a=b\nbad\nworse\nc=d"), Err(WordsError::Parse { line: 2 }));
}

#[test]
fn an_empty_line_is_an_error() {
    assert_eq!(read("a=b\n\nc=d"), Err(WordsError::Parse { line: 2 }));
    assert_eq!(read("\n"), Err(WordsError::Parse { line: 1 }));
    assert_eq!(read("a=b\n\n"), Err(WordsError::Parse { line: 2 }));
}

#[test]
fn the_number_of_terms_is_counted() {
    assert_eq!(PrimitiveWordsList::parse("a=b\nc=d\na=e").map(|p| p.len()), Ok(2));
    assert_eq!(PrimitiveWordsList::parse("").map(|p| p.len()), Ok(0));
}

#[test]
fn separators_are_told_apart() {
    assert!(Separator::Line.is('\n'));
    assert!(!Separator::Line.is('\r'));
    assert!(Separator::Field.is('\t'));
    assert!(Separator::Field.is('='));
    assert!(!Separator::Field.is(','));
    assert!(Separator::Value.is(','));
    assert!(Separator::Value.is('/'));
    assert!(!Separator::Value.is('='));
}

fn by_the_standard_library(s: &str) -> Result<Vec<WordsEntry>, WordsError> {
    let mut out: Vec<(String, Vec<String>)> = Vec::new();
    for (n, line) in s.split_terminator('\n').enumerate() {
        let mut split = line.split(['\t', '=']);
        let key = split.next().unwrap().trim();
        let values = match split.next() {
            Some(values) => values,
            None => return Err(WordsError::Parse { line: n + 1 }),
        };
        let mut values: Vec<String> =
            values.split_terminator([',', '/']).map(|x| x.trim().to_string()).collect();
        match out.iter_mut().find(|(k, _)| k == key) {
            Some((_, collected)) => collected.append(&mut values),
            None => out.push((key.to_string(), values)),
        }
    }
    Ok(out
        .into_iter()
        .map(|(term, definitions)| WordsEntry {
            terms: vec![term],
            definitions,
            direction: WordsDirection::TD,
            times_answered_correctly: 0,
        })
        .collect())
}

#[test]
fn reading_agrees_with_splitting_by_the_standard_library() {
    let texts = [
        "",
        "\n",
        "\n\n",
        "a",
        "a=",
        "=",
        "==",
        "a=b",
        "a=b\n",
        "a=b\n\n",
        "a=b\nc",
        "a\tb\tc",
        "a=b,c/d,,/",
        "a=/",
        "a=,/,",
        " a = b , c \n a=d",
        "a=b\r\na=c\r\n",
        "é=ü, ö/ä\n越=南",
        "a = b = c = d\nb\t\tc",
        "k=v1\nk=v2\nK=v3\n k \t v4 ",
        "x=1,2\ny=3\nno\nz=4",
        "\u{a0}a\u{a0}=\u{3000}b\u{2003}",
    ];
    for text in texts {
        assert_eq!(read(text), by_the_standard_library(text), "{:?}", text);
    }
}
