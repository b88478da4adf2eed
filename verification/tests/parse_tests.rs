use alertbot::parse::{parse_message, Command, ParseError};

#[test]
fn alert_me_is_subscribe() {
    assert!(matches!(parse_message("!alertMe please"), Ok(Command::Subscribe)));
}

#[test]
fn remove_me_is_unsubscribe() {
    assert!(matches!(parse_message("!removeMe now"), Ok(Command::Unsubscribe)));
}

#[test]
fn ping_is_exact() {
    assert!(matches!(parse_message("!ping"), Ok(Command::Ping)));
    assert!(matches!(parse_message("!ping "), Ok(Command::NotACommand)));
    assert!(matches!(parse_message("!pingpong"), Ok(Command::NotACommand)));
}

#[test]
fn messageme_is_direct_message() {
    assert!(matches!(parse_message("!messageme"), Ok(Command::DirectMessageTest)));
}

#[test]
fn plain_text_is_not_a_command() {
    assert!(matches!(parse_message("hello there"), Ok(Command::NotACommand)));
    assert!(matches!(parse_message(""), Ok(Command::NotACommand)));
    assert!(matches!(parse_message("!alertMe"), Ok(Command::NotACommand)));
}

#[test]
fn new_event_with_partial_date() {
    match parse_message("!newEvent Standup 05/03") {
        Ok(Command::CreateEvent { name, day, month, year }) => {
            assert_eq!(name, "Standup");
            assert_eq!(day, 5);
            assert_eq!(month, 3);
            assert_eq!(year, None);
        }
        other => { let _ = other; panic!("expected CreateEvent") },
    }
}

#[test]
fn new_event_with_full_date() {
    match parse_message("!newEvent Party 31/12/26") {
        Ok(Command::CreateEvent { name, day, month, year }) => {
            assert_eq!(name, "Party");
            assert_eq!(day, 31);
            assert_eq!(month, 12);
            assert_eq!(year, Some(2026));
        }
        _ => panic!("expected CreateEvent"),
    }
}

#[test]
fn new_event_bad_dates() {
    assert_eq!(parse_message("!newEvent X 32/01").unwrap_err(), ParseError::BadDate);
    assert_eq!(parse_message("!newEvent X 0/01").unwrap_err(), ParseError::BadDate);
    assert_eq!(parse_message("!newEvent X 10/13").unwrap_err(), ParseError::BadDate);
    assert_eq!(parse_message("!newEvent X 29/02/25").unwrap_err(), ParseError::BadDate);
    assert_eq!(parse_message("!newEvent X 31/04").unwrap_err(), ParseError::BadDate);
    assert_eq!(parse_message("!newEvent X tomorrow").unwrap_err(), ParseError::BadDate);
    assert_eq!(parse_message("!newEvent OnlyName").unwrap_err(), ParseError::BadDate);
}

#[test]
fn new_event_leap_day_with_leap_year() {
    match parse_message("!newEvent Leap 29/02/28") {
        Ok(Command::CreateEvent { day, month, year, .. }) => {
            assert_eq!((day, month, year), (29, 2, Some(2028)));
        }
        _ => panic!("expected CreateEvent"),
    }
}

#[test]
fn new_event_missing_name() {
    assert_eq!(parse_message("!newEvent ").unwrap_err(), ParseError::MissingName);
    assert_eq!(parse_message("!newEvent  05/03").unwrap_err(), ParseError::MissingName);
}

#[test]
fn change_timezone_offsets() {
    match parse_message("!changeTimezone +5") {
        Ok(Command::ChangeTimezone { offset_seconds }) => assert_eq!(offset_seconds, 18000),
        _ => panic!("expected ChangeTimezone"),
    }
    match parse_message("!changeTimezone -3") {
        Ok(Command::ChangeTimezone { offset_seconds }) => assert_eq!(offset_seconds, -10800),
        _ => panic!("expected ChangeTimezone"),
    }
    match parse_message("!changeTimezone +05:30") {
        Ok(Command::ChangeTimezone { offset_seconds }) => assert_eq!(offset_seconds, 19800),
        _ => panic!("expected ChangeTimezone"),
    }
    match parse_message("!changeTimezone 14") {
        Ok(Command::ChangeTimezone { offset_seconds }) => assert_eq!(offset_seconds, 50400),
        _ => panic!("expected ChangeTimezone"),
    }
}

#[test]
fn change_timezone_bad_offsets() {
    assert_eq!(parse_message("!changeTimezone +15").unwrap_err(), ParseError::BadOffset);
    assert_eq!(parse_message("!changeTimezone -13").unwrap_err(), ParseError::BadOffset);
    assert_eq!(parse_message("!changeTimezone abc").unwrap_err(), ParseError::BadOffset);
    assert_eq!(parse_message("!changeTimezone +5:7").unwrap_err(), ParseError::BadOffset);
    assert_eq!(parse_message("!changeTimezone ").unwrap_err(), ParseError::BadOffset);
    assert_eq!(parse_message("!changeTimezone +12:61").unwrap_err(), ParseError::BadOffset);
}
