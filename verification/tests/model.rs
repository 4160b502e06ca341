use rusty_words::clock::Timestamp;
use rusty_words::direction::WordsDirection;
use rusty_words::model::{Language, PrintableWordsEntry, WordsEntry, WordsList, WordsMeta};
use rusty_words::permutation::to_shuffle_map;
use std::collections::HashMap;

fn entry(terms: &[&str], definitions: &[&str]) -> WordsEntry {
    WordsEntry {
        terms: terms.iter().map(|t| t.to_string()).collect(),
        definitions: definitions.iter().map(|d| d.to_string()).collect(),
        direction: WordsDirection::DT,
        times_answered_correctly: 5,
    }
}

#[test]
fn assembled_metadata_holds_what_it_was_given() {
    let at = Timestamp { secs: 12, nanos: 34 };
    let meta = WordsMeta::assemble(
        "name".to_string(),
        Some("nl".to_string()),
        Some("en".to_string()),
        Some("dir".to_string()),
        0xa1a2a3a4b1b2c1c2d1d2d3d4d5d6d7d8,
        at,
    );
    assert_eq!(
        meta,
        WordsMeta {
            name: "name".to_string(),
            uuid: 0xa1a2a3a4b1b2c1c2d1d2d3d4d5d6d7d8,
            terms: Language(Some("nl".to_string())),
            definition: Language(Some("en".to_string())),
            created_at: at,
            last_modified: at,
            folder: Some("dir".to_string()),
            progress: None,
            shuffle_map: None,
        }
    );
}

#[test]
fn new_metadata_has_a_random_identifier_of_version_four() {
    let meta = WordsMeta::new("n".to_string(), None, Some("en".to_string()), None);
    assert_eq!(meta.name, "n");
    assert_eq!(meta.terms, Language(None));
    assert_eq!(meta.definition, Language(Some("en".to_string())));
    assert_eq!(meta.folder, None);
    assert_eq!(meta.created_at, meta.last_modified);
    assert_eq!(meta.progress, None);
    assert_eq!(meta.shuffle_map, None);
    assert_eq!((meta.uuid >> 76) & 0xf, 4);
    assert_eq!((meta.uuid >> 62) & 0x3, 2);
    assert!(meta.created_at.secs > 1_600_000_000);
    let other = WordsMeta::new("n".to_string(), None, None, None);
    assert_ne!(meta.uuid, other.uuid);
}

#[test]
fn clearing_progress_forgets_the_session_only() {
    let mut meta = WordsMeta::assemble("n".to_string(), None, None, None, 9, Timestamp { secs: 1, nanos: 2 });
    let fresh = meta.clone();
    meta.progress = Some(3);
    meta.shuffle_map = Some(to_shuffle_map(&vec![0, 2, 1]));
    meta.clear_progress();
    assert_eq!(meta, fresh);
    meta.clear_progress();
    assert_eq!(meta, fresh);
}

#[test]
fn progress_beyond_the_list_cannot_be_resumed() {
    let mut meta = WordsMeta::assemble("n".to_string(), None, None, None, 9, Timestamp { secs: 1, nanos: 2 });
    assert!(meta.can_resume(0));
    assert!(meta.can_resume(5));
    meta.progress = Some(5);
    assert!(meta.can_resume(5));
    assert!(meta.can_resume(6));
    assert!(!meta.can_resume(4));
}

#[test]
fn a_saved_order_must_be_a_permutation_of_the_list() {
    let mut meta = WordsMeta::assemble("n".to_string(), None, None, None, 9, Timestamp { secs: 1, nanos: 2 });
    meta.shuffle_map = Some(to_shuffle_map(&vec![2, 0, 1]));
    assert!(meta.can_resume(3));
    // read over two words, the order names a third
    assert!(!meta.can_resume(2));
    // read over four words, the fourth keeps its place
    assert!(meta.can_resume(4));
    let mut twice = HashMap::new();
    twice.insert(0, 1);
    twice.insert(1, 1);
    meta.shuffle_map = Some(twice);
    assert!(!meta.can_resume(2));
}

#[test]
fn an_entry_is_laid_out_with_commas() {
    let p = PrintableWordsEntry::of(&entry(&["a", "b"], &["x", "y", "z"]));
    assert_eq!(p.term, "a, b");
    assert_eq!(p.definitions, "x, y, z");
    assert_eq!(p.direction, WordsDirection::DT);
    assert_eq!(p.times_correct, 5);
    let p = PrintableWordsEntry::of(&entry(&["a"], &[]));
    assert_eq!(p.term, "a");
    assert_eq!(p.definitions, "");
}

#[test]
fn an_entry_is_complete_with_a_term_and_a_definition() {
    assert!(entry(&["a"], &["b"]).has_both_sides());
    assert!(!entry(&["a"], &[]).has_both_sides());
    assert!(!entry(&[], &["b"]).has_both_sides());
    assert!(!entry(&[], &[]).has_both_sides());
}

#[test]
fn a_list_is_complete_when_every_entry_is() {
    assert!(WordsList(vec![]).has_only_complete_entries());
    assert!(WordsList(vec![entry(&["a"], &["b"]), entry(&["c", "d"], &["e"])]).has_only_complete_entries());
    assert!(!WordsList(vec![entry(&["a"], &["b"]), entry(&["c"], &[])]).has_only_complete_entries());
}

#[test]
fn an_identifier_is_made_of_random_bytes_and_marks() {
    let at = Timestamp { secs: 1, nanos: 2 };
    let made = |random: [u8; 16]| {
        WordsMeta::identified("n".to_string(), None, None, None, random, at).uuid
    };
    assert_eq!(made([0; 16]), 0x00000000_0000_4000_8000_000000000000);
    assert_eq!(made([0xff; 16]), 0xffffffff_ffff_4fff_bfff_ffffffffffff);
    assert_eq!(
        made([0xa1, 0xa2, 0xa3, 0xa4, 0xb1, 0xb2, 0xc1, 0xc2, 0xd1, 0xd2, 0xd3, 0xd4, 0xd5, 0xd6, 0xd7, 0xd8]),
        0xa1a2a3a4_b1b2_41c2_91d2_d3d4d5d6d7d8
    );
    let meta = WordsMeta::identified("n".to_string(), Some("nl".to_string()), None, None, [7; 16], at);
    assert_eq!(meta.name, "n");
    assert_eq!(meta.terms, Language(Some("nl".to_string())));
    assert_eq!(meta.created_at, at);
    assert_eq!(meta.last_modified, at);
    assert_eq!(meta.progress, None);
}

#[test]
fn the_words_of_a_list_are_kept_under_its_identifier() {
    let at = Timestamp { secs: 1, nanos: 2 };
    let name = |uuid: u128| {
        WordsMeta::assemble("n".to_string(), None, None, None, uuid, at).words_file_name()
    };
    assert_eq!(name(0), "00000000-0000-0000-0000-000000000000.ron");
    assert_eq!(name(u128::MAX), "ffffffff-ffff-ffff-ffff-ffffffffffff.ron");
    assert_eq!(
        name(0xa1a2a3a4b1b241c291d2d3d4d5d6d7d8),
        "a1a2a3a4-b1b2-41c2-91d2-d3d4d5d6d7d8.ron"
    );
    assert_eq!(
        name(0x0123456789abcdef0123456789abcdef),
        "01234567-89ab-cdef-0123-456789abcdef.ron"
    );
}
