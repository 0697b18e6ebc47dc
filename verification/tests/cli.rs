use std::ops::ControlFlow;
use spadefmt::cli::{choose_mode, protect_stdin, restore_stdin, Mode, UsageError};
use spadefmt::exit::{failure_exit, settle, Action, Exit};
use spadefmt::format::FormatError;

fn strings(args: &[&str]) -> Vec<String> {
    args.iter().map(|arg| arg.to_string()).collect()
}

#[test]
fn dashes_before_the_separator_are_protected() {
    let protected = protect_stdin(&strings(&["-", "--check", "-", "--", "-"]));
    assert_eq!(protected, strings(&["\0", "--check", "\0", "--", "-"]));
}

#[test]
fn arguments_without_dashes_pass_through() {
    let args = strings(&["--config", "a.toml", "main.spade"]);
    assert_eq!(protect_stdin(&args), args);
}

#[test]
fn restore_maps_the_placeholder_back() {
    assert_eq!(restore_stdin("\0".to_string()), "-");
    assert_eq!(restore_stdin("main.spade".to_string()), "main.spade");
}

#[test]
fn mode_follows_the_flags() {
    assert_eq!(choose_mode(false, false, false, 1), Ok(Mode::Stdout));
    assert_eq!(choose_mode(true, false, false, 3), Ok(Mode::Check));
    assert_eq!(choose_mode(false, true, false, 3), Ok(Mode::InPlace));
    assert_eq!(choose_mode(false, false, true, 1), Ok(Mode::Debug));
}

#[test]
fn contradictory_flags_are_usage_errors() {
    assert_eq!(choose_mode(true, true, false, 1), Err(UsageError::CheckWithInPlace));
    assert_eq!(choose_mode(true, false, true, 1), Err(UsageError::DebugWithWrite));
    assert_eq!(choose_mode(false, true, true, 1), Err(UsageError::DebugWithWrite));
    assert_eq!(choose_mode(false, false, false, 0), Err(UsageError::NoInputs));
    assert_eq!(choose_mode(false, false, false, 2), Err(UsageError::OneInputToStdout));
    assert_eq!(choose_mode(false, false, true, 2), Err(UsageError::OneInputToStdout));
}

#[test]
fn usage_error_messages() {
    assert_eq!(UsageError::CheckWithInPlace.message(), "--check and --in-place are mutually exclusive");
    assert_eq!(UsageError::NoInputs.message(), "no input files");
    assert_eq!(
        UsageError::DebugWithWrite.message(),
        "--debug prints to stdout and cannot be combined with --check or --in-place"
    );
    assert_eq!(
        UsageError::OneInputToStdout.message(),
        "formatting to stdout takes exactly one input; use --check or --in-place for several"
    );
}

#[test]
fn check_reports_only_changed_inputs() {
    assert_eq!(settle(Mode::Check, false, true), (Action::ReportUnformatted, Exit::Unformatted));
    assert_eq!(settle(Mode::Check, false, false), (Action::Nothing, Exit::Clean));
}

#[test]
fn in_place_writes_only_changed_files() {
    assert_eq!(settle(Mode::InPlace, false, true), (Action::Write, Exit::Clean));
    assert_eq!(settle(Mode::InPlace, false, false), (Action::Nothing, Exit::Clean));
    assert_eq!(settle(Mode::InPlace, true, false), (Action::Print, Exit::Clean));
}

#[test]
fn stdout_modes_always_print() {
    assert_eq!(settle(Mode::Stdout, true, false), (Action::Print, Exit::Clean));
    assert_eq!(settle(Mode::Debug, false, true), (Action::Print, Exit::Clean));
}

#[test]
fn failures_map_to_their_exit_codes() {
    assert_eq!(failure_exit(&FormatError::Parse { diagnostics: String::new() }), Exit::ParseError);
    assert_eq!(failure_exit(&FormatError::Unsupported { diagnostics: vec![] }), Exit::Unsupported);
    assert_eq!(failure_exit(&FormatError::Print), Exit::Failure);
}

#[test]
fn several_inputs_need_a_mode() {
    let error = choose_mode(false, false, false, 2).unwrap_err();
    assert_eq!(error, UsageError::OneInputToStdout);
    assert!(error.message().contains("--check"));
}

#[test]
fn check_and_in_place_are_exclusive() {
    let error = choose_mode(true, true, false, 1).unwrap_err();
    assert!(error.message().contains("mutually exclusive"));
}

#[test]
fn no_inputs_is_a_usage_error() {
    let error = choose_mode(false, false, false, 0).unwrap_err();
    assert_eq!(error.message(), "no input files");
}

#[test]
fn mixed_inputs_exit_with_the_worst_outcome() {
    let outcomes = [
        ControlFlow::Continue(Exit::Unformatted),
        ControlFlow::Continue(Exit::ParseError),
        ControlFlow::Continue(Exit::Failure),
        ControlFlow::Continue(Exit::Unsupported),
    ];
    let worst = match spadefmt::exit::worst_of(&outcomes) {
        ControlFlow::Continue(exit) | ControlFlow::Break(exit) => exit,
    };
    assert_eq!(worst.code(), 4);
}
