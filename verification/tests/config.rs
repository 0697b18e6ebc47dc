use spadefmt::cli::color_enabled;
use spadefmt::config::{
    string16, to_string, BoundedConfigUsize, BoundedIntegerParseError, Config, CHARACTER_COUNT,
};
use spadefmt::exit::{worst, worst_of, Exit};
use std::ops::ControlFlow;

#[test]
fn string16_round_trips() {
    assert_eq!(to_string(string16("indent")), "indent");
    assert_eq!(to_string(string16("")), "");
    assert_eq!(to_string(string16("character count")), "character count");
}

#[test]
fn character_count_names_its_units() {
    assert_eq!(string16("character count"), CHARACTER_COUNT);
}

#[test]
fn bounded_value_within_bounds_is_kept() {
    let value = BoundedConfigUsize::<1, 5, 1, CHARACTER_COUNT>::try_from(3).unwrap();
    assert_eq!(value.get(), 3);
}

#[test]
fn bounded_value_too_low_is_refused() {
    let error = BoundedConfigUsize::<1, 5, 1, CHARACTER_COUNT>::try_from(0).unwrap_err();
    assert_eq!(error, BoundedIntegerParseError::TooLow(CHARACTER_COUNT, 0, 1));
    assert_eq!(
        error.message(),
        "cannot have character count of 0: 1 is the minimum allowed"
    );
}

#[test]
fn bounded_value_too_high_is_refused() {
    let error = BoundedConfigUsize::<1, 5, 1, CHARACTER_COUNT>::try_from(9).unwrap_err();
    assert_eq!(error, BoundedIntegerParseError::TooHigh(CHARACTER_COUNT, 9, 5));
    assert_eq!(
        error.message(),
        "cannot have character count of 9: 5 is the maximum allowed"
    );
}

#[test]
fn default_config_is_width_100_indent_4() {
    let config = Config::default();
    assert_eq!(config.max_width.get(), 100);
    assert_eq!(config.indent.get(), 4);
    let same = Config::default_config();
    assert_eq!(same.max_width.inner, 100);
}

#[test]
fn exit_codes_follow_severity() {
    assert_eq!(Exit::Clean.code(), 0);
    assert_eq!(Exit::Unformatted.code(), 1);
    assert_eq!(Exit::Failure.code(), 2);
    assert_eq!(Exit::ParseError.code(), 3);
    assert_eq!(Exit::Unsupported.code(), 4);
    assert_eq!(worst(Exit::Unformatted, Exit::Failure), Exit::Failure);
    assert_eq!(worst(Exit::Unsupported, Exit::Clean), Exit::Unsupported);
}

#[test]
fn worst_of_takes_the_most_severe_outcome() {
    let outcomes = [
        ControlFlow::Continue(Exit::Clean),
        ControlFlow::Continue(Exit::ParseError),
        ControlFlow::Continue(Exit::Unformatted),
    ];
    assert_eq!(worst_of(&outcomes), ControlFlow::Continue(Exit::ParseError));
}

#[test]
fn worst_of_stops_at_a_break() {
    let outcomes = [
        ControlFlow::Continue(Exit::Unsupported),
        ControlFlow::Break(Exit::Failure),
        ControlFlow::Continue(Exit::Clean),
    ];
    assert_eq!(worst_of(&outcomes), ControlFlow::Break(Exit::Unsupported));
}

#[test]
fn worst_of_nothing_is_clean() {
    assert_eq!(worst_of(&[]), ControlFlow::Continue(Exit::Clean));
}

#[test]
fn color_follows_flag_environment_and_terminal() {
    assert!(color_enabled(false, None, true));
    assert!(!color_enabled(true, None, true));
    assert!(!color_enabled(false, Some("1"), true));
    assert!(color_enabled(false, Some(""), true));
    assert!(!color_enabled(false, None, false));
}

#[test]
fn to_string_stops_at_the_first_zero_byte() {
    assert_eq!(to_string(0x0062_0061), "a");
    assert_eq!(to_string(0), "");
    assert_eq!(to_string(0x6261), "ab");
}

#[test]
fn messages_spell_the_units() {
    assert_eq!(
        BoundedIntegerParseError::TooLow(string16("character count"), 0, 1).message(),
        "cannot have character count of 0: 1 is the minimum allowed"
    );
    assert_eq!(
        BoundedIntegerParseError::TooHigh(string16("x"), 9, 5).message(),
        "cannot have x of 9: 5 is the maximum allowed"
    );
}
