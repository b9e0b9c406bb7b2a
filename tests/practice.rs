use shellingo::practice::{
    get_hardest_questions_in_round, is_attempt_successful, mask_alternate_characters,
    matches_any_lowercased, randomize_questions, reveal_answer, reveal_answer_for_penalty,
    reveal_clue, reveal_clue_for_penalty, validate_attempt, ANSWER_REVEAL_PENALTY,
    CLUE_REVEAL_PENALTY, NO_ANSWER_MESSAGE,
};
use shellingo::question::Question;
use shellingo::text::{clean_lowercased, clean_string, trim_and_lowercase};

fn question(location: &str, text: &str, answer: &str) -> Question {
    Question::new(location.to_string(), text.to_string(), answer.to_string())
}

#[test]
fn randomize_questions_should_return_vector_references_to_the_original_in_random_order() {
    // Given
    let questions = vec![
        question("location_1", "question_1", "answer_1"),
        question("location_2", "question_2", "answer_2"),
        question("location_3", "question_3", "answer_3"),
        question("location_4", "question_4", "answer_4"),
    ];

    // When
    let actual = randomize_questions(&questions);

    // Then
    questions.iter().for_each(|q| {
        assert!(actual.contains(&q));
    });
    assert_eq!(actual.len(), questions.len());
}

#[test]
fn reveal_clue_for_penalty_for_single_answer() {
    // Given
    let mut question = question("location_1", "question_1", "answer_1");
    let expected = "a■s■e■_■".to_string();

    // When
    let actual = reveal_clue_for_penalty(&mut question);

    // Then
    assert_eq!(expected, actual);
    assert!(question.answers.contains(&"answer_1".to_string()), "The original answer remains unchanged");
    assert!(
        question.get_error_count_for_round() == CLUE_REVEAL_PENALTY
            && question.get_error_count_sum() == CLUE_REVEAL_PENALTY
            && question.get_correct_count_for_round() == 0
            && question.get_correct_count_sum() == 0,
        "The clue penalty is applied correctly"
    );
}

#[test]
fn reveal_clue_for_penalty_with_multiple_answers() {
    // Given
    let mut question = question("location_1", "question_1", "placeholder");
    question.answers = vec!["answer_one".to_string(), "answer_two".to_string()];
    let expected = "a■s■e■_■n■ or a■s■e■_■w■".to_string();
    let expected_variant = "a■s■e■_■w■ or a■s■e■_■n■".to_string();

    // When
    let actual = reveal_clue_for_penalty(&mut question);

    // Then
    assert!(expected == actual || expected_variant == actual);
}

#[test]
fn reveal_answer_for_penalty_for_single_answer() {
    // Given
    let mut question = question("location_1", "question_1", "answer_1");
    let expected = "answer_1".to_string();

    // When
    let actual = reveal_answer_for_penalty(&mut question);

    // Then
    assert_eq!(expected, actual);
    assert!(
        question.get_error_count_for_round() == ANSWER_REVEAL_PENALTY
            && question.get_error_count_sum() == ANSWER_REVEAL_PENALTY
            && question.get_correct_count_for_round() == 0
            && question.get_correct_count_sum() == 0,
        "The clue penalty is applied correctly"
    );
}

#[test]
fn reveal_answer_for_penalty_with_multiple_answers() {
    // Given
    let mut question = question("location_1", "question_1", "placeholder");
    question.answers = vec!["answer_one".to_string(), "answer_two".to_string()];
    let expected = "answer_one or answer_two".to_string();
    let expected_variant = "answer_two or answer_one".to_string();

    // When
    let actual = reveal_answer_for_penalty(&mut question);

    // Then
    assert!(expected == actual || expected_variant == actual);
}

#[test]
fn practice_is_attempt_successful_matches_answer() {
    // Given
    let mut question = question("", "q1", "");
    question.answers = vec!["answer one".to_string(), "answer two".to_string()];
    let attempt = "answer one".to_string();

    // When
    let checked = is_attempt_successful(&attempt, &question);
    let actual = validate_attempt(&attempt, &mut question);

    //Then
    assert_eq!(checked, true);
    assert_eq!(actual, true);
    assert_eq!(question.get_correct_count_for_round(), 1);
    assert_eq!(question.get_error_count_for_round(), 0);
}

#[test]
fn practice_is_attempt_successful_no_answer_to_match() {
    // Given
    let mut question = question("", "q1", "");
    question.answers = vec!["answer one".to_string(), "answer two".to_string()];
    let attempt = "something else".to_string();

    // When
    let checked = is_attempt_successful(&attempt, &question);
    let actual = validate_attempt(&attempt, &mut question);

    //Then
    assert_eq!(checked, false);
    assert_eq!(actual, false);
    assert_eq!(question.get_correct_count_for_round(), 0);
    assert_eq!(question.get_error_count_for_round(), 1);
    assert_eq!(question.get_error_count_sum(), 1);
}

#[test]
fn practice_test_clean_string_cases() {
    // Given
    let input = "  Correct Ans?,!.:;Wer  ".to_string();
    let expected = "correct answer".to_string();

    // When
    let actual = clean_string(&input);

    // Then
    assert_eq!(actual, expected);
}

#[test]
fn reveal_clue_for_for_single_answer() {
    // Given
    let mut question = question("location_1", "question_1", "answer_1");
    let expected = "a■s■e■_■".to_string();

    // When
    let actual = reveal_clue(&mut question);

    // Then
    assert_eq!(expected, actual);
    assert!(question.answers.contains(&"answer_1".to_string()), "The original answer remains unchanged");
    assert_eq!(question.get_error_count_for_round(), CLUE_REVEAL_PENALTY);
    assert_eq!(question.get_error_count_sum(), CLUE_REVEAL_PENALTY);
}

#[test]
fn reveal_clue_with_multiple_answers() {
    // Given
    let mut question = question("location_1", "question_1", "placeholder");
    question.answers = vec!["answer_one".to_string(), "answer_two".to_string()];
    let expected = "a■s■e■_■n■ or a■s■e■_■w■".to_string();
    let expected_variant = "a■s■e■_■w■ or a■s■e■_■n■".to_string();

    // When
    let actual = reveal_clue(&mut question);

    // Then
    assert!(expected == actual || expected_variant == actual);
    assert_eq!(question.get_error_count_for_round(), CLUE_REVEAL_PENALTY);
}

#[test]
fn reveal_answer_for_single_answer() {
    // Given
    let mut question = question("location_1", "question_1", "answer_1");
    let expected = "answer_1".to_string();

    // When
    let actual = reveal_answer(&mut question);

    // Then
    assert_eq!(expected, actual);
    assert_eq!(question.get_error_count_for_round(), ANSWER_REVEAL_PENALTY);
}

#[test]
fn reveal_answer_for_with_multiple_answers() {
    // Given
    let mut question = question("location_1", "question_1", "placeholder");
    question.answers = vec!["answer_one".to_string(), "answer_two".to_string()];
    let expected = "answer_one or answer_two".to_string();
    let expected_variant = "answer_two or answer_one".to_string();

    // When
    let actual = reveal_answer(&mut question);

    // Then
    assert!(expected == actual || expected_variant == actual);
    assert_eq!(question.get_error_count_sum(), ANSWER_REVEAL_PENALTY);
}

#[test]
fn test_get_hardest_questions_in_round() {
    // Given
    let q1 = question("", "q1", "");
    let mut q2 = question("", "q2", "");
    let mut q3 = question("", "q3", "");
    let mut q4 = question("", "q3", "");
    // Expected order: q4, q2, q3
    q2.increment_error_count(5);
    q3.increment_error_count(1);
    q4.increment_error_count(10);

    let limit = 3;

    let questions = vec![q1, q2, q3, q4];
    let expected = vec![&questions[3], &questions[1], &questions[2]]; // Will drop q1, due to the limit.

    // When
    let actual = get_hardest_questions_in_round(&questions, limit);

    // Then
    assert_eq!(actual, expected);
    let errors: Vec<u16> = actual.iter().map(|q| q.get_error_count_for_round()).collect();
    assert_eq!(errors, vec![10, 5, 1]);
}

#[test]
fn hardest_keeps_ties_in_order_and_whole_pool_for_large_limits() {
    let mut questions: Vec<Question> = ["a", "b", "c", "d"].iter().map(|t| question("", t, "")).collect();
    questions[1].increment_error_count(2);
    questions[3].increment_error_count(2);
    let actual = get_hardest_questions_in_round(&questions, 10);
    let texts: Vec<&str> = actual.iter().map(|q| q.question.as_str()).collect();
    assert_eq!(texts, vec!["b", "d", "a", "c"]);
    assert!(get_hardest_questions_in_round(&questions, 0).is_empty());
    assert!(get_hardest_questions_in_round(&Vec::new(), 3).is_empty());
}

#[test]
fn case_punctuation_and_spacing_do_not_affect_the_match() {
    let mut q = question("", "q", "answer one");
    assert!(validate_attempt(&"Answer, One!".to_string(), &mut q));
    assert!(is_attempt_successful("  ANSWER   one?? ", &q));
    assert!(is_attempt_successful("answer\tone.", &q));
    assert!(is_attempt_successful("answer ! one", &q));
    assert!(is_attempt_successful(" ; Answer  One ! ", &q));
    assert!(!is_attempt_successful("answerone", &q));
    assert_eq!(q.get_correct_count_sum(), 1);
}

#[test]
fn comparison_form_steps() {
    assert_eq!(trim_and_lowercase("  HeLLo World  "), "hello world");
    assert_eq!(clean_lowercased("a  b;: c?"), "a b c");
    assert_eq!(clean_lowercased("x !"), "x");
    assert_eq!(clean_lowercased("a . b"), "a b");
    assert_eq!(clean_string("Answer !"), "answer");
    assert!(matches_any_lowercased("x, y", &vec!["z".to_string(), "x y".to_string()]));
    assert!(!matches_any_lowercased("x y", &Vec::new()));
}

#[test]
fn reveals_without_answers_give_the_message() {
    let mut q = question("", "q", "");
    q.answers.clear();
    assert_eq!(reveal_clue(&mut q), NO_ANSWER_MESSAGE);
    assert_eq!(reveal_answer(&mut q), NO_ANSWER_MESSAGE);
    assert_eq!(reveal_clue_for_penalty(&mut q), NO_ANSWER_MESSAGE);
    assert_eq!(reveal_answer_for_penalty(&mut q), NO_ANSWER_MESSAGE);
    assert_eq!(q.get_error_count_sum(), 2 * (CLUE_REVEAL_PENALTY + ANSWER_REVEAL_PENALTY));
}

#[test]
fn masking_covers_every_odd_position() {
    assert_eq!(mask_alternate_characters("ab cd"), "a■ ■d");
    assert_eq!(mask_alternate_characters(""), "");
    assert_eq!(mask_alternate_characters("x"), "x");
}

#[test]
fn reset_round_stats_keeps_lifetime_counters() {
    let mut q = question("", "q", "a");
    q.increment_correct_count(3);
    q.increment_error_count(4);
    q.reset_round_stats();
    assert_eq!(q.get_correct_count_for_round(), 0);
    assert_eq!(q.get_error_count_for_round(), 0);
    assert_eq!(q.get_correct_count_sum(), 3);
    assert_eq!(q.get_error_count_sum(), 4);
}

#[test]
fn counters_stop_at_their_maximum() {
    let mut q = question("", "q", "a");
    q.increment_error_count(u16::MAX - 1);
    q.increment_error_count(5);
    assert_eq!(q.get_error_count_for_round(), u16::MAX);
    assert_eq!(q.get_error_count_sum(), u16::MAX);
}

#[test]
fn questions_are_equal_by_text_alone() {
    let a = question("x", "same", "1");
    let b = question("y", "same", "2");
    let c = question("x", "other", "1");
    assert_eq!(a, b);
    assert_ne!(a, c);
}

#[test]
fn a_trailing_symbol_after_a_space_still_matches() {
    let mut q = question("", "q", "answer");
    assert!(validate_attempt(&"Answer !".to_string(), &mut q));
    assert_eq!(q.get_correct_count_for_round(), 1);
}
