use rusty_words::judgement::{
    check_word, try_check_word, written_answer_matches, AnswerJudge, TryMethod,
};

#[test]
fn test_empty() {
    assert!(!check_word::<&str>(&TryMethod::Write, "", &[]));
    assert!(check_word(&TryMethod::Write, "", &[""]));
    assert!(!check_word(&TryMethod::Write, "", &["foo"]));
    assert!(!check_word(&TryMethod::Write, "", &["foo", "bar", "baz"]));

    assert!(!check_word::<&str>(&TryMethod::Mpc, "", &[]));
    assert!(check_word(&TryMethod::Mpc, "", &[""]));
    assert!(!check_word(&TryMethod::Mpc, "", &["foo"]));
    assert!(!check_word(&TryMethod::Mpc, "", &["foo", "bar", "baz"]));
}

#[test]
fn test_single() {
    assert!(check_word(&TryMethod::Write, "foo", &["foo"]));
    assert!(check_word(&TryMethod::Write, "bar", &["bar"]));
    assert!(!check_word(&TryMethod::Write, "barz", &["bar"]));

    assert!(check_word(&TryMethod::Mpc, "foo", &["foo"]));
    assert!(check_word(&TryMethod::Mpc, "bar", &["bar"]));
    assert!(!check_word(&TryMethod::Mpc, "barz", &["bar"]));
}

#[test]
fn test_one_of_multiple() {
    assert!(check_word(&TryMethod::Write, "foo", &["baz", "foo"]));
    assert!(check_word(&TryMethod::Write, "bar", &["baz", "bar", "baz"]));
    assert!(!check_word(
        &TryMethod::Write,
        "barz",
        &["foo", "baz", "bar"]
    ));

    assert!(check_word(&TryMethod::Mpc, "foo", &["baz", "foo"]));
    assert!(check_word(&TryMethod::Mpc, "bar", &["baz", "bar", "baz"]));
    assert!(!check_word(&TryMethod::Mpc, "barz", &["foo", "baz", "bar"]));
}

#[test]
fn test_all_of_multiple() {
    assert!(check_word(&TryMethod::Write, "baz, foo", &["baz", "foo"]));
    assert!(check_word(&TryMethod::Write, "baz,foo", &["baz", "foo"]));
    assert!(check_word(
        &TryMethod::Write,
        "baz, bar, baz",
        &["baz", "bar", "baz"]
    ));

    assert!(check_word(&TryMethod::Mpc, "baz, foo", &["baz", "foo"]));
    assert!(check_word(
        &TryMethod::Mpc,
        "baz, bar, baz",
        &["baz", "bar", "baz"]
    ));
    // In multiple choice mode, only match exactly
    assert!(!check_word(
        &TryMethod::Mpc,
        "baz,bar,baz",
        &["baz", "bar", "baz"]
    ));
    assert!(!check_word(&TryMethod::Mpc, "barz", &["foo", "baz", "bar"]));
}

#[test]
fn test_mixed_case() {
    assert!(check_word(&TryMethod::Write, "fOo", &["foo"]));
    assert!(check_word(&TryMethod::Write, "foo", &["FOO"]));
    assert!(check_word(&TryMethod::Write, "baR", &["bar"]));
    assert!(!check_word(&TryMethod::Write, "BARZ", &["bar"]));

    // In multiple choice mode, only match exactly
    assert!(!check_word(&TryMethod::Mpc, "Foo", &["foo"]));
    assert!(!check_word(&TryMethod::Mpc, "Bar", &["bar"]));
}

#[test]
fn test_sentence() {
    assert!(check_word(
        &TryMethod::Write,
        "the quick brown fox, jumped over the lazy dog.",
        &["The quick brown fox, jumped over the lazy dog."]
    ));

    assert!(!check_word(
        &TryMethod::Mpc,
        "the quick brown fox, jumped over the lazy dog.",
        &["The quick brown fox, jumped over the lazy dog."]
    ));
}

#[test]
fn test_parens() {
    assert!(check_word(
        &TryMethod::Write,
        "Such (optional)",
        &["Such (optional)"]
    ));
    assert!(!check_word(
        &TryMethod::Write,
        "Such (optional)",
        &["Such optional"]
    ));
    assert!(check_word(&TryMethod::Write, "Such", &["Such (optional)"]));

    assert!(check_word(
        &TryMethod::Mpc,
        "Such (optional)",
        &["Such (optional)"]
    ));
    assert!(!check_word(
        &TryMethod::Mpc,
        "Such (optional)",
        &["Such optional"]
    ));
    assert!(!check_word(&TryMethod::Mpc, "Such", &["Such (optional)"]));
}

#[test]
fn test_trailing_spaces() {
    assert!(check_word(&TryMethod::Write, "  foo bar  ", &["foo bar"]));

    assert!(!check_word(&TryMethod::Mpc, "  foo bar  ", &["foo bar"]));
}

#[test]
fn each_acceptable_answer_is_correct_in_any_case_and_with_spaces_around() {
    let acceptable = ["sofa", "Bank", "a b", "x (y)", "", " padded "];
    for candidate in acceptable {
        assert!(check_word(&TryMethod::Write, candidate, &acceptable));
        assert!(check_word(&TryMethod::Write, &candidate.to_uppercase(), &acceptable));
        assert!(check_word(&TryMethod::Write, &candidate.to_lowercase(), &acceptable));
        assert!(check_word(&TryMethod::Write, &format!(" \t{}\n ", candidate), &acceptable));
        assert!(check_word(&TryMethod::Mpc, candidate, &acceptable));
    }
}

#[test]
fn nothing_is_correct_without_acceptable_answers() {
    for method in [TryMethod::Write, TryMethod::Mpc] {
        for input in ["", " ", "foo", ", "] {
            assert!(!check_word::<&str>(&method, input, &[]));
            assert!(!check_word::<String>(&method, input, &[]));
        }
    }
}

#[test]
fn owned_strings_are_judged_like_slices() {
    let acceptable = vec!["baz".to_string(), "foo".to_string()];
    assert!(check_word(&TryMethod::Write, "FOO", &acceptable));
    assert!(check_word(&TryMethod::Write, "baz, foo", &acceptable));
    assert!(check_word(&TryMethod::Mpc, "baz, foo", &acceptable));
    assert!(!check_word(&TryMethod::Mpc, "foo, baz", &acceptable));
}

#[test]
fn only_ascii_case_is_ignored() {
    assert!(!check_word(&TryMethod::Write, "école", &["École"]));
    assert!(check_word(&TryMethod::Write, "École", &["École"]));
    assert!(check_word(&TryMethod::Write, "éCOLE", &["École".replace('É', "é")]));
}

#[test]
fn a_remark_in_parentheses_may_be_left_out() {
    assert!(check_word(&TryMethod::Write, "to go", &["to go (on foot)"]));
    assert!(check_word(&TryMethod::Write, "go", &["(to) go"]));
    // everything between the first opening and the last closing parenthesis goes
    assert!(check_word(&TryMethod::Write, "a  d", &["a (b) c (d) d"]));
    assert!(!check_word(&TryMethod::Write, "a  c  d", &["a (b) c (d) d"]));
    // an unclosed parenthesis is no remark
    assert!(!check_word(&TryMethod::Write, "a", &["a (b"]));
    // a remark ends on its line
    assert!(check_word(&TryMethod::Write, "a \nb", &["a (x)\nb"]));
    assert!(!check_word(&TryMethod::Write, "a d", &["a (b\nc) d"]));
    assert!(check_word(&TryMethod::Write, "a \n d", &["a (b)\n(c) d"]));
}

#[test]
fn parentheses_and_spaces_may_be_left_out() {
    assert!(check_word(&TryMethod::Write, "togo(onfoot)".replace(['(', ')'], "").as_str(), &["to go (on foot)"]));
    assert!(check_word(&TryMethod::Write, "foobar", &["foo bar"]));
    assert!(check_word(&TryMethod::Write, "FooBar", &["(foo) bar"]));
    assert!(!check_word(&TryMethod::Write, "foo  bar", &["foo bar"]));
    // other whitespace than the space stays
    assert!(!check_word(&TryMethod::Write, "foobar", &["foo\tbar"]));
}

#[test]
fn all_answers_at_once_are_joined_by_comma_and_space() {
    let acceptable = ["a", "b (c)", "d"];
    assert!(check_word(&TryMethod::Write, "a, b (c), d", &acceptable));
    assert!(check_word(&TryMethod::Write, "A,BC,D", &acceptable));
    // parentheses are left out of the candidate, not of the answer
    assert!(!check_word(&TryMethod::Write, "a,b(c),d", &acceptable));
    // the joined answers are read as one candidate: a remark may span them
    assert!(check_word(&TryMethod::Write, "a, b , d", &acceptable));
    assert!(!check_word(&TryMethod::Write, "a b d", &acceptable));
    assert!(check_word(&TryMethod::Mpc, "a, b (c), d", &acceptable));
    assert!(!check_word(&TryMethod::Mpc, "a, b (c),d", &acceptable));
    assert!(!check_word(&TryMethod::Mpc, "d, b (c), a", &acceptable));
}

#[test]
fn a_judge_can_be_made_and_judges_like_check_word() {
    let judge = AnswerJudge::new().unwrap();
    let cases: [(&str, &[&str]); 6] = [
        ("", &[]),
        ("", &[""]),
        ("Such", &["Such (optional)"]),
        ("baz,foo", &["baz", "foo"]),
        ("BARZ", &["bar"]),
        ("  foo bar  ", &["foo bar"]),
    ];
    for method in [TryMethod::Write, TryMethod::Mpc] {
        for (input, acceptable) in cases {
            let expected = check_word(&method, input, acceptable);
            assert_eq!(judge.check(&method, input, acceptable), expected);
            assert_eq!(try_check_word(&method, input, acceptable), Some(expected));
        }
    }
}

#[test]
fn a_judge_matches_single_candidates() {
    let judge = AnswerJudge::new().unwrap();
    assert!(judge.matches(&TryMethod::Write, "such", "Such (optional)"));
    assert!(judge.matches(&TryMethod::Write, "suchoptional", "Such (optional)"));
    assert!(!judge.matches(&TryMethod::Write, "such optional", "Such (optional)"));
    assert!(judge.matches(&TryMethod::Mpc, "Such (optional)", "Such (optional)"));
    assert!(!judge.matches(&TryMethod::Mpc, "Such", "Such (optional)"));
    assert!(judge.matches_one_of(&TryMethod::Write, "b", &["a", "b"]));
    assert!(!judge.matches_one_of(&TryMethod::Write, "a, b", &["a", "b"]));
    assert!(!judge.matches_one_of::<&str>(&TryMethod::Write, "", &[]));
}

#[test]
fn a_written_answer_matches_one_of_three_readings() {
    // the candidate itself
    assert!(written_answer_matches(" Such (Optional) ", "Such (optional)", "Such "));
    // the candidate without its remark
    assert!(written_answer_matches("such", "Such (optional)", "Such "));
    // the candidate without parentheses and spaces
    assert!(written_answer_matches("suchoptional", "Such (optional)", "Such "));
    assert!(!written_answer_matches("such optional", "Such (optional)", "Such "));
    // the second reading is whatever it is said to be
    assert!(written_answer_matches("x", "abc", " X "));
    assert!(!written_answer_matches("x", "abc", "abc"));
    assert!(written_answer_matches("", "()", "()"));
}
