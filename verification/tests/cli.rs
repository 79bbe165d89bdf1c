use rahn::cli::{parse_i64, parse_value, CliError};
use rahn::obs::Value;

#[test]
fn values_parse_by_kind() {
    assert_eq!(parse_value("counter:1500").unwrap(), Value::Counter(1500));
    assert_eq!(parse_value("gauge:-3").unwrap(), Value::Gauge(-3));
    assert_eq!(parse_value("gauge:+7").unwrap(), Value::Gauge(7));
    assert_eq!(
        parse_value("event:link up").unwrap(),
        Value::Event("link up".into())
    );
    assert_eq!(
        parse_value("event:a:b").unwrap(),
        Value::Event("a:b".into())
    );
}

#[test]
fn value_errors_are_explained() {
    assert_eq!(
        parse_value("counter:abc"),
        Err(CliError::Runtime(
            "counter value must be u64, got \"abc\"".into()
        ))
    );
    assert_eq!(
        parse_value("gauge:9223372036854775808"),
        Err(CliError::Runtime(
            "gauge value must be i64, got \"9223372036854775808\"".into()
        ))
    );
    assert_eq!(
        parse_value("rate:5"),
        Err(CliError::Runtime(
            "unknown value kind \"rate\" (expected counter|gauge|event)".into()
        ))
    );
    assert_eq!(
        parse_value("counter"),
        Err(CliError::Runtime(
            "value must be counter:<u64>, gauge:<i64>, or event:<text>".into()
        ))
    );
}

#[test]
fn signed_parse_matches_std() {
    for s in [
        "0", "-0", "+0", "42", "-42", "9223372036854775807", "-9223372036854775808",
        "9223372036854775808", "-9223372036854775809", "", "-", "+", "-+1", "+-1", "1a", " 1",
    ] {
        assert_eq!(parse_i64(s.as_bytes()), s.parse::<i64>().ok(), "{s:?}");
    }
}

#[test]
fn exit_codes() {
    assert_eq!(CliError::Usage("u".into()).exit_code(), 2);
    assert_eq!(CliError::Runtime("r".into()).exit_code(), 1);
}
