use shellingo::groups::{collect_groups_from_multiple_paths, QuestionGroupDetails, ScannedFile};
use shellingo::parser::{
    find_malformed_lines, get_lines_from_string, merge_answers_from_matching_questions,
    parse_question_from_line, read_all_questions_from_paths, ParsedLine, SourceFile,
};
use shellingo::question::Question;
use shellingo::session::decimal_string;
use shellingo::text::{compare_text, remove_extra_whitespaces, trim_white_space};

fn scanned(path: &str) -> ScannedFile {
    let file_name = path.rsplit('/').next().unwrap().to_string();
    ScannedFile { path: path.to_string(), file_name }
}

fn source(path: &str, contents: &str) -> SourceFile {
    SourceFile { path: path.to_string(), contents: contents.to_string() }
}

fn sorted(v: &[String]) -> Vec<String> {
    let mut v = v.to_vec();
    v.sort();
    v
}

fn assert_groups_eq(actual: &[QuestionGroupDetails], expected: &[(&str, Vec<&str>)]) {
    assert_eq!(actual.len(), expected.len());
    for (group, (name, paths)) in actual.iter().zip(expected.iter()) {
        assert_eq!(group.group_name, *name);
        let paths: Vec<String> = paths.iter().map(|p| p.to_string()).collect();
        assert_eq!(group.paths, paths);
        assert!(group.questions.is_empty());
        assert!(!group.is_active);
    }
}

#[test]
fn question_parser_all_groups_are_collected_from_nested_subdirectories_with_mixed_file_types() {
    // Given
    let files = vec![
        scanned("tests/fixtures/nested_with_mixed_files/f0_q1.sll"),
        scanned("tests/fixtures/nested_with_mixed_files/f0_q1.txt"),
        scanned("tests/fixtures/nested_with_mixed_files/f1/f1_q1.sll"),
        scanned("tests/fixtures/nested_with_mixed_files/f1/notes.md"),
    ];

    // When
    let actual = collect_groups_from_multiple_paths(&files);

    // Then
    assert_groups_eq(
        &actual,
        &[
            ("f0_q1", vec!["tests/fixtures/nested_with_mixed_files/f0_q1.sll"]),
            ("f1_q1", vec!["tests/fixtures/nested_with_mixed_files/f1/f1_q1.sll"]),
        ],
    );
}

#[test]
fn question_parser_all_groups_are_collected_from_multiple_paths() {
    // Given: the files found under nested_1, then those under nested_2
    let files = vec![
        scanned("tests/fixtures/duplicate_groups/nested_1/f0_q1.sll"),
        scanned("tests/fixtures/duplicate_groups/nested_1/f1/f1_q1.sll"),
        scanned("tests/fixtures/duplicate_groups/nested_2/f0_q1.sll"),
        scanned("tests/fixtures/duplicate_groups/nested_2/f1/f1_q1.sll"),
    ];

    // When
    let actual = collect_groups_from_multiple_paths(&files);

    // Then
    assert_groups_eq(
        &actual,
        &[
            (
                "f0_q1",
                vec![
                    "tests/fixtures/duplicate_groups/nested_1/f0_q1.sll",
                    "tests/fixtures/duplicate_groups/nested_2/f0_q1.sll",
                ],
            ),
            (
                "f1_q1",
                vec![
                    "tests/fixtures/duplicate_groups/nested_1/f1/f1_q1.sll",
                    "tests/fixtures/duplicate_groups/nested_2/f1/f1_q1.sll",
                ],
            ),
        ],
    );
}

#[test]
fn question_parser_comments_are_skipped() {
    // Given
    let sources = vec![source("tests/fixtures/comment", "# A comment line\nquestion | answer\n")];
    let expected = vec![Question::new(
        "tests/fixtures/comment".to_string(),
        "question".to_string(),
        "answer".to_string(),
    )];

    // When
    let actual = read_all_questions_from_paths(&sources);

    // Then
    assert_eq!(actual, expected);
    assert_eq!(actual[0].answers, vec!["answer".to_string()]);
    assert_eq!(actual[0].locations, vec!["tests/fixtures/comment".to_string()]);
}

#[test]
fn question_parser_same_question_with_different_answers_in_multiple_files_collected_to_a_single_question() {
    // Given
    let sources = vec![
        source("tests/fixtures/collect/f0_q1.sll", "question | f0_q1 answer\n"),
        source("tests/fixtures/collect/f0_q2.sll", "question | f0_q2 answer\n"),
        source("tests/fixtures/collect/f1/f1_q1.sll", "question | f1_q1 answer\n"),
    ];
    let mut question = Question::new("placeholder".to_string(), "question".to_string(), "placeholder ".to_string());
    question.locations = vec![
        "tests/fixtures/collect/f1/f1_q1.sll".to_string(),
        "tests/fixtures/collect/f0_q2.sll".to_string(),
        "tests/fixtures/collect/f0_q1.sll".to_string(),
    ];
    question.answers = vec!["f0_q2 answer".to_string(), "f0_q1 answer".to_string(), "f1_q1 answer".to_string()];
    let expected = vec![question];

    // When
    let actual = read_all_questions_from_paths(&sources);

    // Then
    assert_eq!(expected, actual);
    assert_eq!(sorted(&expected[0].answers), sorted(&actual[0].answers));
    assert_eq!(sorted(&expected[0].locations), sorted(&actual[0].locations));
}

#[test]
fn question_parser_extra_whitespaces_are_removed() {
    // Given
    let input = "     my       question ";
    let expected = "my question".to_owned();
    // When
    let result = remove_extra_whitespaces(input);
    // Then
    assert_eq!(expected, result);
}

#[test]
fn normalize_collapses_inner_runs_and_trims() {
    assert_eq!(remove_extra_whitespaces("  my   question "), "my question");
    assert_eq!(remove_extra_whitespaces("\tlist\u{a0}\u{3000} files \n"), "list files");
    assert_eq!(remove_extra_whitespaces("   "), "");
    assert_eq!(remove_extra_whitespaces(""), "");
}

#[test]
fn comment_and_blank_lines_yield_no_questions() {
    let sources = vec![source("dir/shell.sll", "# comment\nlist files|ls\n\nshow date|date")];
    let actual = read_all_questions_from_paths(&sources);
    assert_eq!(actual.len(), 2);
    assert_eq!(actual[0].question, "list files");
    assert_eq!(actual[0].answers, vec!["ls".to_string()]);
    assert_eq!(actual[1].question, "show date");
    assert_eq!(actual[1].answers, vec!["date".to_string()]);
}

#[test]
fn lines_follow_str_lines() {
    let contents = "a\r\nb\n\nc\r";
    let expected: Vec<String> = contents.lines().map(str::to_owned).collect();
    assert_eq!(get_lines_from_string(contents), expected);
    assert_eq!(get_lines_from_string("x\n"), vec!["x".to_string()]);
    assert!(get_lines_from_string("").is_empty());
    assert_eq!(get_lines_from_string("\n"), vec!["".to_string()]);
}

#[test]
fn a_record_line_gives_its_normalised_parts() {
    match parse_question_from_line("  show   the date |  date  +%s ", "f.sll") {
        ParsedLine::Parsed(q) => {
            assert_eq!(q.question, "show the date");
            assert_eq!(q.answers, vec!["date +%s".to_string()]);
            assert_eq!(q.locations, vec!["f.sll".to_string()]);
            assert_eq!(q.get_error_count_sum(), 0);
        }
        _ => panic!("expected a question"),
    }
}

#[test]
fn lines_without_one_delimiter_are_malformed() {
    assert!(matches!(parse_question_from_line("no delimiter", "f.sll"), ParsedLine::Malformed));
    assert!(matches!(parse_question_from_line("a|b|c", "f.sll"), ParsedLine::Malformed));
    assert!(matches!(parse_question_from_line("a|b|", "f.sll"), ParsedLine::Malformed));
    assert!(matches!(parse_question_from_line("#a|b", "f.sll"), ParsedLine::Ignored));
    assert!(matches!(parse_question_from_line("", "f.sll"), ParsedLine::Ignored));
    assert!(matches!(parse_question_from_line(" \t ", "f.sll"), ParsedLine::Ignored));
    assert!(matches!(parse_question_from_line("|b", "f.sll"), ParsedLine::Parsed(_)));
}

#[test]
fn merge_of_one_text_is_the_union_either_way() {
    let mut a = Question::new("f0.sll".to_string(), "q".to_string(), "x".to_string());
    a.answers.push("y".to_string());
    let b = Question::new("f1.sll".to_string(), "q".to_string(), "y".to_string());
    let ab = merge_answers_from_matching_questions(vec![a.clone()], b.clone());
    let ba = merge_answers_from_matching_questions(vec![b], a);
    assert_eq!(ab.len(), 1);
    assert_eq!(ba.len(), 1);
    assert_eq!(sorted(&ab[0].answers), vec!["x".to_string(), "y".to_string()]);
    assert_eq!(sorted(&ba[0].answers), vec!["x".to_string(), "y".to_string()]);
    assert_eq!(sorted(&ab[0].locations), vec!["f0.sll".to_string(), "f1.sll".to_string()]);
    assert_eq!(sorted(&ba[0].locations), vec!["f0.sll".to_string(), "f1.sll".to_string()]);
}

#[test]
fn merged_questions_are_ordered_by_text() {
    let sources = vec![source("a.sll", "zeta|1\nalpha|2\nmid|3\nalpha|4")];
    let actual = read_all_questions_from_paths(&sources);
    let texts: Vec<&str> = actual.iter().map(|q| q.question.as_str()).collect();
    assert_eq!(texts, vec!["alpha", "mid", "zeta"]);
    assert_eq!(actual[0].answers, vec!["2".to_string(), "4".to_string()]);
}

#[test]
fn distinct_files_give_one_group_and_one_question_each() {
    let names = ["one", "two", "three", "four"];
    let files: Vec<ScannedFile> = names.iter().map(|n| scanned(&format!("root/{n}.sll"))).collect();
    let groups = collect_groups_from_multiple_paths(&files);
    assert_eq!(groups.len(), names.len());
    for group in &groups {
        assert_eq!(group.paths.len(), 1);
        let sources = vec![source(&group.paths[0], &format!("question {}|answer", group.group_name))];
        assert_eq!(read_all_questions_from_paths(&sources).len(), 1);
    }
    let listed: Vec<&str> = groups.iter().map(|g| g.group_name.as_str()).collect();
    assert_eq!(listed, vec!["four", "one", "three", "two"]);
}

#[test]
fn only_the_extension_is_stripped_from_group_names() {
    let files = vec![scanned("x/a.sll.sll"), scanned("x/.sll"), scanned("x/b.SLL"), scanned("x/sll")];
    let groups = collect_groups_from_multiple_paths(&files);
    let listed: Vec<&str> = groups.iter().map(|g| g.group_name.as_str()).collect();
    assert_eq!(listed, vec!["", "a.sll"]);
}

#[test]
fn malformed_lines_are_reported_with_their_file() {
    let sources = vec![
        source("a.sll", "good|one\nno delimiter\n# fine|comment"),
        source("b.sll", "x|y|z\n\nok|two"),
    ];
    let found = find_malformed_lines(&sources);
    let pairs: Vec<(&str, &str)> = found.iter().map(|m| (m.path.as_str(), m.line.as_str())).collect();
    assert_eq!(pairs, vec![("a.sll", "no delimiter"), ("b.sll", "x|y|z")]);
    assert_eq!(read_all_questions_from_paths(&sources).len(), 2);
}

#[test]
fn texts_compare_by_code_point() {
    assert!(compare_text("abc", "abd") < 0);
    assert!(compare_text("abd", "abc") > 0);
    assert_eq!(compare_text("same", "same"), 0);
    assert!(compare_text("ab", "abc") < 0);
    assert!(compare_text("Z", "a") < 0);
    assert!(compare_text("", "a") < 0);
}

#[test]
fn trimming_and_numbers() {
    assert_eq!(trim_white_space("\u{2003} a b \t"), "a b");
    assert_eq!(trim_white_space(" \n "), "");
    assert_eq!(decimal_string(0), "0");
    assert_eq!(decimal_string(907), "907");
    assert_eq!(decimal_string(usize::MAX), usize::MAX.to_string());
}

#[test]
fn reading_files_in_another_order_gives_the_same_questions() {
    let a = source("a.sll", "q|1\nr|2");
    let b = source("b.sll", "r|3\nq|1");
    let forward = read_all_questions_from_paths(&vec![source("a.sll", "q|1\nr|2"), source("b.sll", "r|3\nq|1")]);
    let backward = read_all_questions_from_paths(&vec![b, a]);
    assert_eq!(forward.len(), backward.len());
    for (x, y) in forward.iter().zip(backward.iter()) {
        assert_eq!(x.question, y.question);
        assert_eq!(sorted(&x.answers), sorted(&y.answers));
        assert_eq!(sorted(&x.locations), sorted(&y.locations));
    }
}
