use rosin::app::App;
use rosin::parse::ParseError;
use rosin::stage::{Stage, StopTask};
use rosin::style::Stylesheet;

#[test]
fn stage_merge_is_max() {
    assert_eq!(Stage::Idle.max(Stage::Build), Stage::Build);
    assert_eq!(Stage::Build.max(Stage::Idle), Stage::Build);
    assert_eq!(Stage::Paint.max(Stage::Layout), Stage::Layout);
    assert_eq!(Stage::Layout.max(Stage::Paint), Stage::Layout);
    assert_eq!(Stage::Paint.max(Stage::Paint), Stage::Paint);
}

#[test]
fn stage_consumption_subsumes() {
    assert!(Stage::Build.needs_build());
    assert!(Stage::Build.needs_layout());
    assert!(Stage::Build.needs_paint());
    assert!(!Stage::Layout.needs_build());
    assert!(Stage::Layout.needs_layout());
    assert!(Stage::Layout.needs_paint());
    assert!(!Stage::Paint.needs_layout());
    assert!(Stage::Paint.needs_paint());
    assert!(!Stage::Idle.needs_paint());
}

#[test]
fn task_frequency_is_clamped() {
    let mut app = App::new();
    app.add_task(None, 1, 0, 0);
    app.add_task(None, 25, 1, 0);
    assert_eq!(app.tasks[0].frequency, 10);
    assert_eq!(app.tasks[1].frequency, 25);
}

#[test]
fn due_tasks_follow_interval() {
    let mut app = App::new();
    app.add_task(None, 50, 0, 1000);
    assert!(!app.task_due(0, 1000));
    assert!(!app.task_due(0, 1049));
    assert!(app.task_due(0, 1050));
    app.mark_task_run(0, 1050);
    assert!(!app.task_due(0, 1099));
    assert!(app.task_due(0, 1100));
}

#[test]
fn stopped_task_is_removed_at_end_of_tick() {
    let mut app = App::new();
    app.add_task(None, 10, 7, 0);
    app.add_task(None, 10, 8, 0);
    app.apply_task_result(0, Stage::Idle, StopTask::Yes);
    app.apply_task_result(1, Stage::Idle, StopTask::No);
    let next = app.finish_tick();
    assert_eq!(app.task_count(), 1);
    assert_eq!(app.task_callback(0), 8);
    assert_eq!(next, Some(10));
}

#[test]
fn no_tasks_means_wait_for_events() {
    let mut app = App::new();
    let next = app.finish_tick();
    assert_eq!(next, None);
}

#[test]
fn global_task_stage_reaches_every_window() {
    let mut app = App::new();
    app.add_window(1);
    app.add_window(2);
    app.add_task(None, 10, 0, 0);
    app.apply_task_result(0, Stage::Build, StopTask::No);
    app.finish_tick();
    assert_eq!(app.take_stage(1), Stage::Build);
    assert_eq!(app.take_stage(2), Stage::Build);
    // consumption resets the accumulator
    assert_eq!(app.take_stage(1), Stage::Idle);
}

#[test]
fn window_task_stage_stays_on_its_window() {
    let mut app = App::new();
    app.add_window(1);
    app.add_window(2);
    app.add_task(Some(2), 10, 0, 0);
    app.apply_task_result(0, Stage::Paint, StopTask::No);
    app.finish_tick();
    assert_eq!(app.take_stage(1), Stage::Idle);
    assert_eq!(app.take_stage(2), Stage::Paint);
}

#[test]
fn resize_requests_layout() {
    let mut app = App::new();
    app.add_window(1);
    app.window_resized(1);
    let stage = app.take_stage(1);
    assert_eq!(stage, Stage::Layout);
    assert!(stage.needs_layout());
    assert!(stage.needs_paint());
    assert!(!stage.needs_build());
}

#[test]
fn closing_a_window_removes_its_tasks_and_pending_stage() {
    let mut app = App::new();
    app.add_window(1);
    app.add_window(2);
    app.add_task(Some(1), 10, 0, 0);
    app.add_task(None, 10, 1, 0);
    app.update_stage(1, Stage::Build);
    let exit = app.close_window(1);
    assert!(!exit);
    assert_eq!(app.task_count(), 1);
    assert_eq!(app.task_callback(0), 1);
    assert_eq!(app.windows.len(), 1);
    assert_eq!(app.windows[0].id, 2);
    let exit = app.close_window(2);
    assert!(exit);
}

#[test]
fn builder_keeps_stylesheet() {
    let sheet = Stylesheet::new_static(".a { height: 4px; }");
    let app = App::new().use_stylesheet(sheet);
    assert_eq!(app.stylesheet.rules.len(), 1);
    assert_eq!(app.current_window(), None);
}

#[test]
fn parse_reports_each_error() {
    assert!(Stylesheet::parse("").is_ok());
    assert!(Stylesheet::parse("  \n ").is_ok());
    assert_eq!(Stylesheet::parse("foo {").unwrap_err(), ParseError::UnexpectedEnd);
    assert_eq!(Stylesheet::parse("{ }").unwrap_err(), ParseError::UnexpectedToken);
    assert_eq!(Stylesheet::parse("a { b }").unwrap_err(), ParseError::ExpectedColon);
    assert_eq!(Stylesheet::parse("a { b: }").unwrap_err(), ParseError::BadValue);
    assert_eq!(
        Stylesheet::parse("a { b: 12345678901; }").unwrap_err(),
        ParseError::BadValue
    );
    assert_eq!(
        Stylesheet::parse("a { b: 1px }").unwrap_err(),
        ParseError::ExpectedSemicolon
    );
}

#[test]
fn parse_reads_values_and_specificity() {
    let sheet = Stylesheet::parse(".a > b { height: 100px; width: 7px; }").unwrap();
    assert_eq!(sheet.rules.len(), 1);
    assert_eq!(sheet.rules[0].declarations.len(), 2);
    assert_eq!(sheet.rules[0].declarations[0].value, 100);
    assert_eq!(sheet.rules[0].declarations[1].value, 7);
    assert_eq!(sheet.rules[0].selector.specificity(), 2);

    let sheet = Stylesheet::parse("* * a { height: 1px; }").unwrap();
    assert_eq!(sheet.rules[0].selector.specificity(), 1);
}

#[test]
fn malformed_static_stylesheet_is_empty() {
    let sheet = Stylesheet::new_static("not a stylesheet");
    assert_eq!(sheet.rules.len(), 0);
}
