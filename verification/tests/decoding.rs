use akira::decoding::{create_stop_regex, StopCondition, StopConditionFactory};
use akira::pattern::build_stop_pattern;
use akira::error::ServiceError;
use akira::text::reverse;

fn words(list: &[&str]) -> Vec<String> {
    list.iter().map(|w| w.to_string()).collect()
}

fn verdicts(cond: &mut StopCondition, deltas: &[&str]) -> Vec<bool> {
    deltas.iter().map(|d| cond.should_stop(d)).collect()
}

#[test]
fn test_it_works() {
    let text = reverse("void write_u32(std::uint32_t val) const {\n        write_raw(&val, sizeof(val));\n    }\n\n    ~llama_file() {\n        if (fp) {\n            std::fclose(fp);\n        }\n    }\n};\n\nvoid");
    assert!(!create_stop_regex(vec!["\n\n".to_owned(), "\n\n  ".to_owned()])
        .unwrap()
        .is_match(&text));
    assert!(create_stop_regex(vec![
        "\n\n".to_owned(),
        "\n\n  ".to_owned(),
        "\nvoid".to_owned()
    ])
    .unwrap()
    .is_match(&text));
}

#[test]
fn reverse_of_ascii() {
    assert_eq!(reverse("abc"), "cba");
    assert_eq!(reverse(""), "");
    assert_eq!(reverse("a"), "a");
}

#[test]
fn reverse_goes_by_characters() {
    assert_eq!(reverse("héllo→"), "→olléh");
    assert_eq!(reverse(&reverse("κόσμε\n\n")), "κόσμε\n\n");
}

#[test]
fn pattern_of_plain_words() {
    assert_eq!(build_stop_pattern(&words(&["ab", "cde"])), r"(?m)\A((ba)|(edc))");
    assert_eq!(build_stop_pattern(&words(&["\n\n", "\n\n  "])), "(?m)\\A((\n\n)|(  \n\n))");
}

#[test]
fn pattern_of_one_word_and_of_none() {
    assert_eq!(build_stop_pattern(&words(&["x"])), r"(?m)\A((x))");
    assert_eq!(build_stop_pattern(&words(&[])), r"(?m)\A(())");
}

#[test]
fn pattern_quotes_meta_characters() {
    assert_eq!(build_stop_pattern(&words(&["a.b"])), r"(?m)\A((b\.a))");
    assert_eq!(build_stop_pattern(&words(&[")|("])), r"(?m)\A((\(\|\)))");
    assert_eq!(
        build_stop_pattern(&words(&["\\.+*?()|[]{}^$#&-~"])),
        r"(?m)\A((\~\-\&\#\$\^\}\{\]\[\|\)\(\?\*\+\.\\))"
    );
    assert_eq!(build_stop_pattern(&words(&["%/!\"e"])), "(?m)\\A((e\"!/%))");
}

#[test]
fn compiled_matcher_reports_its_pattern() {
    let re = create_stop_regex(words(&["a.b", "c"])).unwrap();
    assert_eq!(re.as_str(), r"(?m)\A((b\.a)|(c))");
    let cond = StopCondition::new(Some(re), 8, "");
    assert_eq!(cond.pattern(), Some(r"(?m)\A((b\.a)|(c))".to_string()));
    assert_eq!(StopCondition::new(None, 8, "").pattern(), None);
}

#[test]
fn meta_characters_match_as_themselves() {
    let re = create_stop_regex(words(&["a.b"])).unwrap();
    let mut cond = StopCondition::new(Some(re), 100, "");
    assert_eq!(verdicts(&mut cond, &["a", "x", "b", "a", ".", "b"]), vec![false, false, false, false, false, true]);
}

#[test]
fn a_pattern_too_large_is_invalid() {
    let huge = "a".repeat(1_000_000);
    assert_eq!(create_stop_regex(vec![huge]).err(), Some(ServiceError::InvalidOptions));
}

#[test]
fn example_stop_word_ends_decoding() {
    let re = create_stop_regex(words(&["\n\n"])).unwrap();
    let mut cond = StopCondition::new(Some(re), 256, "");
    assert_eq!(verdicts(&mut cond, &["a", "b", "\n", "\n"]), vec![false, false, false, true]);
    assert_eq!(cond.num_decoded(), 4);
}

#[test]
fn example_budget_ends_decoding() {
    let mut cond = StopCondition::new(None, 3, "");
    assert_eq!(verdicts(&mut cond, &["x", "y", "z"]), vec![false, false, true]);
    assert_eq!(cond.num_decoded(), 3);
    assert_eq!(cond.max_decoding_length(), 3);
}

#[test]
fn budget_of_zero_and_of_one_stop_at_once() {
    assert!(StopCondition::new(None, 0, "").should_stop("x"));
    assert!(StopCondition::new(None, 0, "").should_stop(""));
    assert!(StopCondition::new(None, 1, "").should_stop("x"));
    assert!(StopCondition::new(None, 1, "").should_stop(""));
    let re = create_stop_regex(words(&["zzz"])).unwrap();
    assert!(StopCondition::new(Some(re), 1, "").should_stop("a"));
}

#[test]
fn empty_steps_count_against_the_budget() {
    let mut cond = StopCondition::new(None, 4, "");
    assert_eq!(verdicts(&mut cond, &["", "", "", ""]), vec![false, false, false, true]);
    assert_eq!(cond.num_decoded(), 4);
}

#[test]
fn stop_word_across_steps_and_inside_one() {
    let re = create_stop_regex(words(&["END", "\n\n"])).unwrap();
    let mut cond = StopCondition::new(Some(re.clone()), 256, "");
    assert_eq!(verdicts(&mut cond, &["the E", "N", "", "D"]), vec![false, false, false, true]);
    let mut cond = StopCondition::new(Some(re.clone()), 256, "");
    assert_eq!(verdicts(&mut cond, &["END of", " it", "\n", "x\n\n"]), vec![false, false, false, true]);
    let mut cond = StopCondition::new(Some(re), 256, "");
    assert_eq!(verdicts(&mut cond, &["so it ENDs", "END"]), vec![false, true]);
}

#[test]
fn stop_word_may_begin_in_the_preceding_text() {
    let re = create_stop_regex(words(&["\n\n"])).unwrap();
    let mut cond = StopCondition::new(Some(re), 256, "line\n");
    assert_eq!(verdicts(&mut cond, &["\n"]), vec![true]);
}

#[test]
fn match_comes_before_the_budget_and_counts_its_step() {
    let re = create_stop_regex(words(&["b"])).unwrap();
    let mut cond = StopCondition::new(Some(re), 10, "");
    assert_eq!(verdicts(&mut cond, &["a", "b"]), vec![false, true]);
    assert_eq!(cond.num_decoded(), 2);
}

#[test]
fn record_step_decides_on_match_and_budget() {
    let mut cond = StopCondition::new(None, 2, "");
    assert!(cond.record_step(true));
    assert_eq!(cond.num_decoded(), 1);
    let mut cond = StopCondition::new(None, 2, "");
    assert!(!cond.record_step(false));
    assert!(cond.record_step(false));
    assert_eq!(cond.num_decoded(), 2);
}

#[test]
fn push_text_and_text_matches() {
    let re = create_stop_regex(words(&["ab"])).unwrap();
    let mut cond = StopCondition::new(Some(re), 9, "");
    cond.push_text("xa");
    assert!(!cond.text_matches());
    cond.push_text("");
    assert!(!cond.text_matches());
    cond.push_text("b");
    assert!(cond.text_matches());
    assert_eq!(cond.num_decoded(), 0);
    assert!(!StopCondition::new(None, 9, "ab").text_matches());
}

#[test]
fn same_stop_words_share_one_matcher() {
    let mut factory = StopConditionFactory::default();
    let first = factory.get_or_build(words(&["\n\n", "END"])).unwrap().unwrap();
    let second = factory.get_or_build(words(&["\n\n", "END"])).unwrap().unwrap();
    assert_eq!(first.as_str(), second.as_str());
    assert!(std::ptr::eq(first.as_str(), second.as_str()));
}

#[test]
fn other_stop_words_get_their_own_matcher() {
    let mut factory = StopConditionFactory::default();
    let first = factory.get_or_build(words(&["\n\n", "END"])).unwrap().unwrap();
    let swapped = factory.get_or_build(words(&["END", "\n\n"])).unwrap().unwrap();
    assert_eq!(first.as_str(), "(?m)\\A((\n\n)|(DNE))");
    assert_eq!(swapped.as_str(), "(?m)\\A((DNE)|(\n\n))");
    assert!(!std::ptr::eq(first.as_str(), swapped.as_str()));
    let again = factory.get_or_build(words(&["\n\n", "END"])).unwrap().unwrap();
    assert!(std::ptr::eq(first.as_str(), again.as_str()));
    let swapped_again = factory.get_or_build(words(&["END", "\n\n"])).unwrap().unwrap();
    assert!(std::ptr::eq(swapped.as_str(), swapped_again.as_str()));
}

#[test]
fn no_stop_words_no_matcher() {
    let mut factory = StopConditionFactory::default();
    assert!(factory.get_or_build(Vec::new()).unwrap().is_none());
    let mut cond = factory.create("", 2, Vec::new()).unwrap();
    assert_eq!(cond.pattern(), None);
    assert_eq!(verdicts(&mut cond, &["\n\n", "x"]), vec![false, true]);
}

#[test]
fn factory_makes_fresh_stop_conditions() {
    let mut factory = StopConditionFactory::default();
    let mut one = factory.create("", 5, words(&["."])).unwrap();
    let mut two = factory.create("", 5, words(&["."])).unwrap();
    assert_eq!(verdicts(&mut one, &["a", "b."]), vec![false, true]);
    assert_eq!(two.num_decoded(), 0);
    assert_eq!(verdicts(&mut two, &["a", "b", "c", "d", "e"]), vec![false, false, false, false, true]);
}

#[test]
fn factory_refuses_a_pattern_too_large() {
    let mut factory = StopConditionFactory::default();
    let huge = "a".repeat(1_000_000);
    assert_eq!(factory.create("", 5, vec![huge]).err(), Some(ServiceError::InvalidOptions));
    assert!(factory.get_or_build(words(&["ok"])).unwrap().is_some());
}
