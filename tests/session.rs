use shellingo::groups::ScannedFile;
use shellingo::parser::SourceFile;
use shellingo::session::{AppPhase, AppState, PracticeControlOptions, UiComponent};

fn scanned(path: &str) -> ScannedFile {
    let file_name = path.rsplit('/').next().unwrap().to_string();
    ScannedFile { path: path.to_string(), file_name }
}

fn sources_of(app: &AppState, index: usize, contents: &[&str]) -> Vec<SourceFile> {
    app.question_groups[index]
        .paths
        .iter()
        .zip(contents.iter())
        .map(|(p, c)| SourceFile { path: p.clone(), contents: c.to_string() })
        .collect()
}

fn session() -> AppState {
    let files = vec![scanned("d/git.sll"), scanned("d/shell.sll"), scanned("d/readme.md")];
    let mut app = AppState::new(&files);
    let git = sources_of(&app, 0, &["commit|git commit\nstatus|git status"]);
    app.setup_toggle_group_active_status_and_load_questions(0, &git);
    let shell = sources_of(&app, 1, &["list files|ls\nshow date|date\nprint dir|pwd"]);
    app.setup_toggle_group_active_status_and_load_questions(1, &shell);
    app
}

#[test]
fn groups_are_listed_by_name() {
    let app = session();
    assert_eq!(app.question_groups.len(), 2);
    assert_eq!(app.setup_get_group_name(0).map(|s| s.as_str()), Some("git"));
    assert_eq!(app.setup_get_group_name(1).map(|s| s.as_str()), Some("shell"));
    assert_eq!(app.setup_get_group_name(2), None);
    assert_eq!(app.setup_get_questions_for_selected_group(0).len(), 2);
    assert_eq!(app.setup_get_questions_for_selected_group(1).len(), 3);
    assert!(app.setup_get_questions_for_selected_group(7).is_empty());
}

#[test]
fn toggling_twice_does_not_duplicate_questions() {
    let mut app = session();
    let git = sources_of(&app, 0, &["commit|git commit\nstatus|git status"]);
    app.setup_toggle_group_active_status_and_load_questions(0, &git);
    assert!(!app.question_groups[0].is_active);
    assert!(app.question_groups[0].questions.is_empty());
    assert!(app.setup_get_questions_for_selected_group(0).is_empty());
    app.setup_toggle_group_active_status_and_load_questions(0, &git);
    assert_eq!(app.question_groups[0].questions.len(), 2);
    app.setup_toggle_group_active_status_and_load_questions(9, &git);
    assert_eq!(app.question_groups.len(), 2);
}

#[test]
fn practice_pools_the_active_groups_and_wraps_around() {
    let mut app = session();
    assert!(matches!(app.get_app_phase_for_active_component(), AppPhase::Setup));
    app.setup_navigate_to_practice();
    assert!(matches!(app.get_app_phase_for_active_component(), AppPhase::Practice));
    assert_eq!(app.active_questions.len(), 5);
    assert_eq!(app.round_questions.len(), 5);
    assert_eq!(app.practice_get_round_status_string(), "1/5");
    let mut seen = Vec::new();
    for _ in 0..5 {
        seen.push(app.practice_get_current_question_in_round().unwrap().question.clone());
        app.practice_set_next_question_in_round();
    }
    seen.sort();
    assert_eq!(seen, vec!["commit", "list files", "print dir", "show date", "status"]);
    assert_eq!(app.current_question_index, 0);
}

#[test]
fn hardest_control_narrows_the_round() {
    let mut app = session();
    app.question_groups[1].questions[2].increment_error_count(3);
    app.question_groups[0].questions[0].increment_error_count(1);
    app.setup_navigate_to_practice();
    app.practice_activate_selected_control(3);
    assert_eq!(app.round_questions.len(), 5);
    app.practice_activate_selected_control(2);
    assert_eq!(app.round_questions.len(), 5);
    assert_eq!(app.practice_get_round_status_string(), "1/5");
    app.practice_activate_selected_control(1);
    assert!(app.question_groups.iter().all(|g| g.questions.iter().all(|q| q.get_error_count_for_round() == 0)));
    assert_eq!(app.question_groups[1].questions[2].get_error_count_sum(), 3);
    app.practice_activate_selected_control(99);
    app.practice_activate_selected_control(0);
    assert!(matches!(app.get_active_component(), UiComponent::GroupSelector));
    assert!(app.round_questions.is_empty());
    assert!(app.practice_get_current_question_in_round().is_none());
}

#[test]
fn controls_are_listed_in_order() {
    let labels: Vec<&str> = PracticeControlOptions::variants().iter().map(|c| c.message()).collect();
    assert_eq!(labels, vec!["End Practice", "Reset Stats", "Try All", "Try Hardest 5", "Try Hardest 10"]);
    assert!(PracticeControlOptions::from_index(5).is_none());
}

#[test]
fn exit_popup_keeps_the_phase_it_was_opened_in() {
    let mut app = session();
    app.setup_navigate_to_practice();
    app.practice_toggle_panes();
    assert!(matches!(app.get_active_component(), UiComponent::PracticeMain));
    app.open_exit_popup();
    assert!(matches!(app.get_app_phase_for_active_component(), AppPhase::Practice));
    app.close_exit_popup();
    assert!(matches!(app.get_active_component(), UiComponent::PracticeMain));
    app.practice_navigate_to_setup();
    app.setup_toggle_panes();
    assert!(matches!(app.get_active_component(), UiComponent::QuestionSelector));
    app.open_exit_popup();
    assert!(matches!(app.get_app_phase_for_active_component(), AppPhase::Setup));
}

#[test]
fn an_empty_round_has_no_current_question() {
    let files = vec![scanned("d/git.sll")];
    let mut app = AppState::new(&files);
    app.setup_navigate_to_practice();
    assert!(app.practice_get_current_question_in_round().is_none());
    assert_eq!(app.practice_get_round_status_string(), "1/0");
    app.practice_set_next_question_in_round();
    assert_eq!(app.current_question_index, 0);
}
