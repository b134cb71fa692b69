use rdc_notifier::config::{parse_period, InputError, UserInput};

fn names() -> Option<Vec<String>> {
    Some(vec!["SRV1".to_string(), "SRV2".to_string()])
}

fn url() -> Option<String> {
    Some("https://example.invalid/hook".to_string())
}

#[test]
fn period_is_read_as_decimal_seconds() {
    assert_eq!(parse_period("30"), Some(30));
    assert_eq!(parse_period("+30"), Some(30));
    assert_eq!(parse_period("007"), Some(7));
    assert_eq!(parse_period("1"), Some(1));
    assert_eq!(parse_period("18446744073709551615"), Some(u64::MAX));
    assert_eq!(parse_period("000018446744073709551615"), Some(u64::MAX));
}

#[test]
fn period_that_is_no_positive_number_is_refused() {
    assert_eq!(parse_period(""), None);
    assert_eq!(parse_period("+"), None);
    assert_eq!(parse_period("0"), None);
    assert_eq!(parse_period("+000"), None);
    assert_eq!(parse_period("-5"), None);
    assert_eq!(parse_period("++5"), None);
    assert_eq!(parse_period("5+"), None);
    assert_eq!(parse_period(" 5"), None);
    assert_eq!(parse_period("5 "), None);
    assert_eq!(parse_period("5s"), None);
    assert_eq!(parse_period("1_000"), None);
    assert_eq!(parse_period("1.5"), None);
    assert_eq!(parse_period("٣"), None);
    assert_eq!(parse_period("18446744073709551616"), None);
    assert_eq!(parse_period("99999999999999999999999"), None);
}

#[test]
fn complete_input_is_accepted() {
    let input = UserInput::from_values(names(), url(), Some("60")).unwrap();
    assert_eq!(input.servers, vec!["SRV1".to_string(), "SRV2".to_string()]);
    assert_eq!(input.url, "https://example.invalid/hook");
    assert_eq!(input.period, 60);
}

#[test]
fn first_missing_value_is_named() {
    assert_eq!(UserInput::from_values(None, None, None).unwrap_err(), InputError::MissingServer);
    assert_eq!(
        UserInput::from_values(Some(vec![]), url(), Some("60")).unwrap_err(),
        InputError::MissingServer
    );
    assert_eq!(UserInput::from_values(names(), None, None).unwrap_err(), InputError::MissingUrl);
    assert_eq!(
        UserInput::from_values(names(), url(), None).unwrap_err(),
        InputError::MissingPeriod
    );
    assert_eq!(
        UserInput::from_values(names(), url(), Some("soon")).unwrap_err(),
        InputError::InvalidPeriod
    );
    assert_eq!(
        UserInput::from_values(names(), url(), Some("0")).unwrap_err(),
        InputError::InvalidPeriod
    );
}

#[test]
fn errors_read_as_sentences() {
    assert_eq!(InputError::MissingServer.message(), "'server' input is missing");
    assert_eq!(InputError::MissingUrl.message(), "'webhook url' input is missing");
    assert_eq!(InputError::MissingPeriod.message(), "'period' is mandatory");
    assert_eq!(
        InputError::InvalidPeriod.message(),
        "'period' is not a positive number of seconds"
    );
}
