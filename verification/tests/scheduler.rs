use rusty_words::clock::Timestamp;
use rusty_words::direction::WordsDirection;
use rusty_words::model::{WordsEntry, WordsList, WordsMeta};
use rusty_words::permutation::{identity_permutation, is_valid_permutation, to_shuffle_map};
use rusty_words::scheduler::{Question, ReviewScheduler, MASTERY, SWAP_AFTER, WINDOW};

fn list(n: usize, direction: WordsDirection) -> WordsList {
    WordsList(
        (0..n)
            .map(|i| WordsEntry {
                terms: vec![format!("t{}", i)],
                definitions: vec![format!("d{}", i)],
                direction,
                times_answered_correctly: 0,
            })
            .collect(),
    )
}

fn meta() -> WordsMeta {
    WordsMeta::assemble(
        "list".to_string(),
        None,
        None,
        None,
        7,
        Timestamp { secs: 0, nanos: 0 },
    )
}

fn bound(s: &ReviewScheduler) -> usize {
    std::cmp::min(WINDOW, s.total() - s.frontier())
}

#[test]
fn the_parameters_are_as_documented() {
    assert_eq!(WINDOW, 10);
    assert_eq!(MASTERY, 3);
    assert_eq!(SWAP_AFTER, 1);
}

#[test]
fn an_empty_list_is_finished_at_once() {
    let s = ReviewScheduler::new(list(0, WordsDirection::TD), &meta(), WordsDirection::Auto, false, false);
    assert!(s.is_finished());
    assert_eq!(s.in_rotation(), 0);
    assert_eq!(s.into_words(), list(0, WordsDirection::TD));
}

#[test]
fn the_rotation_starts_with_the_first_words_up_to_the_window() {
    for (n, expected) in [(1usize, 1usize), (9, 9), (10, 10), (11, 10), (25, 10)] {
        let s = ReviewScheduler::new(list(n, WordsDirection::TD), &meta(), WordsDirection::Auto, false, false);
        assert_eq!(s.in_rotation(), expected);
        assert_eq!(s.frontier(), 0);
        assert_eq!(s.total(), n);
        assert_eq!(s.permutation(), &identity_permutation(n));
        assert_eq!(s.question().index, 0);
        assert_eq!(s.question().progress, 0);
    }
}

#[test]
fn a_session_of_correct_answers_asks_in_rounds() {
    let mut s = ReviewScheduler::new(list(12, WordsDirection::TD), &meta(), WordsDirection::Auto, false, false);
    let mut asked: Vec<(usize, usize)> = Vec::new();
    while !s.is_finished() {
        assert!(s.in_rotation() <= bound(&s));
        let q = s.question();
        asked.push((q.index, q.progress));
        s.record(true);
    }
    let mut expected: Vec<(usize, usize)> = Vec::new();
    for progress in 0..3 {
        for index in 0..10 {
            expected.push((index, progress));
        }
    }
    for progress in 0..3 {
        for index in 10..12 {
            expected.push((index, progress));
        }
    }
    assert_eq!(asked, expected);
    assert_eq!(s.frontier(), 12);
    assert_eq!(s.in_rotation(), 0);
    for entry in s.into_words().0 {
        assert_eq!(entry.times_answered_correctly, 3);
    }
}

#[test]
fn a_session_ends_after_three_correct_answers_per_word() {
    for n in [1usize, 2, 9, 10, 11, 23] {
        let mut s = ReviewScheduler::new(list(n, WordsDirection::TD), &meta(), WordsDirection::Auto, false, false);
        let mut correct = 0;
        let mut step = 0;
        while !s.is_finished() {
            // every third answer is wrong
            let right = step % 3 != 2;
            assert!(s.in_rotation() <= bound(&s));
            s.record(right);
            if right {
                correct += 1;
            }
            step += 1;
        }
        assert_eq!(correct, 3 * n);
        assert_eq!(s.frontier(), n);
        for entry in s.into_words().0 {
            assert_eq!(entry.times_answered_correctly, 3);
        }
    }
}

#[test]
fn a_retired_word_makes_room_for_the_next() {
    let mut s = ReviewScheduler::new(list(12, WordsDirection::TD), &meta(), WordsDirection::Auto, false, false);
    for _ in 0..20 {
        s.record(true);
    }
    // every word of the first ten has two correct answers now
    assert_eq!(s.frontier(), 0);
    assert_eq!(s.question(), Question { index: 0, progress: 2, direction: WordsDirection::TD, reversed: false });
    s.record(true);
    assert_eq!(s.frontier(), 1);
    assert_eq!(s.in_rotation(), 10);
    s.record(true);
    assert_eq!(s.frontier(), 2);
    assert_eq!(s.in_rotation(), 10);
    // all twelve words have been in rotation: from now on it shrinks
    s.record(true);
    assert_eq!(s.frontier(), 3);
    assert_eq!(s.in_rotation(), 9);
    for _ in 0..7 {
        s.record(true);
    }
    assert_eq!(s.frontier(), 10);
    assert_eq!(s.in_rotation(), 2);
    assert_eq!(s.question().index, 10);
    assert_eq!(s.question().progress, 0);
}

#[test]
fn a_wrong_answer_sends_the_word_to_the_back_as_it_is() {
    let mut s = ReviewScheduler::new(list(2, WordsDirection::TD), &meta(), WordsDirection::Auto, false, false);
    s.record(true);
    assert_eq!((s.question().index, s.question().progress), (1, 0));
    s.record(false);
    assert_eq!((s.question().index, s.question().progress), (0, 1));
    s.record(false);
    assert_eq!((s.question().index, s.question().progress), (1, 0));
    s.record(false);
    assert_eq!((s.question().index, s.question().progress), (0, 1));
    s.record(true);
    assert_eq!((s.question().index, s.question().progress), (1, 0));
    s.record(false);
    assert_eq!((s.question().index, s.question().progress), (0, 2));
    assert_eq!(s.frontier(), 0);
    s.record(true);
    assert_eq!(s.frontier(), 1);
    assert_eq!(s.in_rotation(), 1);
    assert_eq!((s.question().index, s.question().progress), (1, 0));
    let words = s.into_words().0;
    assert_eq!(words[0].times_answered_correctly, 3);
    assert_eq!(words[1].times_answered_correctly, 0);
}

#[test]
fn only_correct_answers_are_counted() {
    let mut words = list(3, WordsDirection::TD);
    words.0[1].times_answered_correctly = 40;
    let mut s = ReviewScheduler::new(words, &meta(), WordsDirection::Auto, false, false);
    s.record(false);
    s.record(true);
    s.record(false);
    s.record(false);
    s.record(true);
    let words = s.into_words().0;
    assert_eq!(words[0].times_answered_correctly, 0);
    assert_eq!(words[1].times_answered_correctly, 42);
    assert_eq!(words[2].times_answered_correctly, 0);
    assert_eq!(words[1].terms, vec!["t1".to_string()]);
    assert_eq!(words[1].definitions, vec!["d1".to_string()]);
}

#[test]
fn a_word_that_goes_both_ways_is_reversed_late() {
    let mut s = ReviewScheduler::new(list(1, WordsDirection::Both), &meta(), WordsDirection::Auto, false, false);
    assert_eq!(s.question(), Question { index: 0, progress: 0, direction: WordsDirection::Both, reversed: false });
    s.record(true);
    assert_eq!(s.question(), Question { index: 0, progress: 1, direction: WordsDirection::Both, reversed: false });
    s.record(true);
    assert_eq!(s.question(), Question { index: 0, progress: 2, direction: WordsDirection::Both, reversed: true });
    s.record(false);
    assert_eq!(s.question(), Question { index: 0, progress: 2, direction: WordsDirection::Both, reversed: true });
    s.record(true);
    assert!(s.is_finished());
}

#[test]
fn the_direction_is_merged_from_session_and_word() {
    let cases = [
        (WordsDirection::Auto, WordsDirection::Auto, WordsDirection::Auto, false),
        (WordsDirection::Auto, WordsDirection::TD, WordsDirection::TD, false),
        (WordsDirection::Auto, WordsDirection::DT, WordsDirection::DT, true),
        (WordsDirection::TD, WordsDirection::DT, WordsDirection::DT, true),
        (WordsDirection::DT, WordsDirection::TD, WordsDirection::DT, true),
        (WordsDirection::TD, WordsDirection::TD, WordsDirection::TD, false),
        (WordsDirection::Both, WordsDirection::DT, WordsDirection::Both, false),
        (WordsDirection::DT, WordsDirection::Both, WordsDirection::Both, false),
    ];
    for (session, word, expected, reversed) in cases {
        let s = ReviewScheduler::new(list(1, word), &meta(), session, false, false);
        assert_eq!(s.question(), Question { index: 0, progress: 0, direction: expected, reversed });
    }
}

#[test]
fn a_given_order_is_followed() {
    let order = vec![2, 0, 3, 1];
    let mut s = ReviewScheduler::with_order(list(4, WordsDirection::TD), WordsDirection::Auto, order.clone(), 0);
    assert_eq!(s.permutation(), &order);
    let mut asked = Vec::new();
    for _ in 0..4 {
        asked.push(s.question().index);
        s.record(true);
    }
    assert_eq!(asked, order);
}

#[test]
fn words_before_the_frontier_are_not_asked() {
    let order = vec![2, 0, 3, 1];
    let mut s = ReviewScheduler::with_order(list(4, WordsDirection::TD), WordsDirection::Auto, order, 2);
    assert_eq!(s.frontier(), 2);
    assert_eq!(s.in_rotation(), 2);
    let mut asked = Vec::new();
    while !s.is_finished() {
        asked.push(s.question().index);
        s.record(true);
    }
    assert_eq!(asked, vec![3, 1, 3, 1, 3, 1]);
    let words = s.into_words().0;
    assert_eq!(words[0].times_answered_correctly, 0);
    assert_eq!(words[2].times_answered_correctly, 0);
    assert_eq!(words[1].times_answered_correctly, 3);
    assert_eq!(words[3].times_answered_correctly, 3);
}

#[test]
fn a_session_at_the_end_of_the_list_is_finished() {
    let s = ReviewScheduler::with_order(list(3, WordsDirection::TD), WordsDirection::Auto, vec![0, 1, 2], 3);
    assert!(s.is_finished());
    assert_eq!(s.in_rotation(), 0);
}

#[test]
fn a_shuffled_session_asks_every_word() {
    let mut s = ReviewScheduler::new(list(25, WordsDirection::TD), &meta(), WordsDirection::Auto, true, false);
    assert!(is_valid_permutation(s.permutation()));
    assert_eq!(s.permutation().len(), 25);
    let mut answers = 0;
    while !s.is_finished() {
        assert!(s.in_rotation() <= bound(&s));
        s.record(true);
        answers += 1;
    }
    assert_eq!(answers, 75);
    for entry in s.into_words().0 {
        assert_eq!(entry.times_answered_correctly, 3);
    }
}

#[test]
fn saved_progress_names_the_frontier_and_the_order() {
    let order = vec![1, 2, 0];
    let mut s = ReviewScheduler::with_order(list(3, WordsDirection::TD), WordsDirection::Auto, order.clone(), 0);
    for _ in 0..7 {
        s.record(true);
    }
    assert_eq!(s.frontier(), 1);
    let mut saved = meta();
    s.save_progress(&mut saved);
    assert_eq!(saved.progress, Some(1));
    assert_eq!(saved.shuffle_map, Some(to_shuffle_map(&order)));
    // nothing else is touched
    let mut expected = meta();
    expected.progress = saved.progress;
    expected.shuffle_map = saved.shuffle_map.clone();
    assert_eq!(saved, expected);
}

#[test]
fn a_resumed_session_continues_at_the_frontier_in_the_saved_order() {
    let order = vec![3, 1, 4, 0, 2];
    let mut first = ReviewScheduler::with_order(list(5, WordsDirection::TD), WordsDirection::Auto, order.clone(), 0);
    // retire the first two words of the order
    for _ in 0..12 {
        first.record(true);
    }
    assert_eq!(first.frontier(), 2);
    let mut saved = meta();
    first.save_progress(&mut saved);
    let words = first.into_words();
    assert!(saved.can_resume(5));

    // a shuffle is asked for, but the saved order wins
    let mut second = ReviewScheduler::new(words, &saved, WordsDirection::Auto, true, true);
    assert_eq!(second.frontier(), 2);
    assert_eq!(second.permutation(), &order);
    assert_eq!(second.in_rotation(), 3);
    let mut asked = Vec::new();
    while !second.is_finished() {
        asked.push(second.question().index);
        second.record(true);
    }
    assert_eq!(asked, vec![4, 0, 2, 4, 0, 2, 4, 0, 2]);
    let words = second.into_words().0;
    // the words retired before the cancellation were not asked again
    assert_eq!(words[3].times_answered_correctly, 3);
    assert_eq!(words[1].times_answered_correctly, 3);
    // the others had two correct answers each before, and three after
    assert_eq!(words[4].times_answered_correctly, 5);
    assert_eq!(words[0].times_answered_correctly, 5);
    assert_eq!(words[2].times_answered_correctly, 5);
}

#[test]
fn without_resume_the_saved_state_is_not_read() {
    let mut saved = meta();
    saved.progress = Some(2);
    saved.shuffle_map = Some(to_shuffle_map(&vec![2, 1, 0]));
    let s = ReviewScheduler::new(list(3, WordsDirection::TD), &saved, WordsDirection::Auto, false, false);
    assert_eq!(s.frontier(), 0);
    assert_eq!(s.permutation(), &vec![0, 1, 2]);
    assert_eq!(s.in_rotation(), 3);
}

#[test]
fn the_frontier_counts_the_retired_words_and_does_not_name_them() {
    // the second word is retired while the first is still in rotation
    let mut first = ReviewScheduler::new(list(3, WordsDirection::TD), &meta(), WordsDirection::Auto, false, false);
    for _ in 0..3 {
        first.record(false); // word 0
        first.record(true); // word 1
        first.record(false); // word 2
    }
    assert_eq!(first.frontier(), 1);
    let mut saved = meta();
    first.save_progress(&mut saved);
    let second = ReviewScheduler::new(first.into_words(), &saved, WordsDirection::Auto, false, true);
    // the resumed session starts behind the first position of the order
    assert_eq!(second.frontier(), 1);
    assert_eq!(second.question().index, 1);
    assert_eq!(second.in_rotation(), 2);
}
