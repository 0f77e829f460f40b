//! Timestamps.

use cljrs::crossing::{deserialize, serialize};
use cljrs::instant::{format_rfc3339_millis, parse_rfc3339_millis};
use cljrs::time::{
    builtin_instant, builtin_instant_ms, builtin_instant_now, builtin_instant_q, builtin_nanotime,
};
use cljrs::value::{Value, ValueError};

#[test]
fn roundtrip_epoch() {
    assert_eq!(parse_rfc3339_millis("1970-01-01T00:00:00Z").unwrap(), 0);
    assert_eq!(format_rfc3339_millis(0), "1970-01-01T00:00:00.000-00:00");
}

#[test]
fn parse_variants() {
    assert_eq!(
        parse_rfc3339_millis("2026-08-21T12:34:56.789Z").unwrap(),
        parse_rfc3339_millis("2026-08-21T14:34:56.789+02:00").unwrap(),
    );
    assert_eq!(parse_rfc3339_millis("2026-08-21").unwrap() % 86_400_000, 0);
    // Fraction longer than millis truncates.
    assert_eq!(
        parse_rfc3339_millis("2026-08-21T00:00:00.123456Z").unwrap() % 1000,
        123
    );
    assert!(parse_rfc3339_millis("not-a-date").is_err());
    assert!(parse_rfc3339_millis("2026-13-01").is_err());
}

#[test]
fn format_parse_roundtrip() {
    for millis in [0i64, 1_755_772_496_789, -86_400_000, 253_402_300_799_000] {
        let s = format_rfc3339_millis(millis);
        assert_eq!(parse_rfc3339_millis(&s).unwrap(), millis, "for {s}");
    }
}

#[test]
fn negative_epoch_dates() {
    assert_eq!(
        format_rfc3339_millis(parse_rfc3339_millis("1969-12-31T23:59:59Z").unwrap()),
        "1969-12-31T23:59:59.000-00:00"
    );
}

#[test]
fn a_bad_timestamp_is_quoted_in_the_error() {
    assert_eq!(
        parse_rfc3339_millis("no \"date\"").unwrap_err(),
        "invalid #inst timestamp \"no \\\"date\\\"\""
    );
}

#[test]
fn instant_builtins() {
    let text = Value::Str("2020-01-01T00:00:00Z".to_string());
    let inst = builtin_instant(&[text]).expect("instant");
    assert_eq!(
        builtin_instant_ms(&[inst]).expect("millis"),
        Value::Long(1_577_836_800_000)
    );
    let now = builtin_instant_now(Ok(1_700_000_000_000)).expect("now");
    assert_eq!(builtin_instant_q(&[now]).unwrap(), Value::Bool(true));
    assert_eq!(
        builtin_instant_q(&[Value::Long(5)]).unwrap(),
        Value::Bool(false)
    );
    assert_eq!(
        builtin_instant(&[Value::Long(42)]).unwrap(),
        Value::Instant(42)
    );
}

#[test]
fn bad_inst_is_an_error() {
    let bad = Value::Str("not-a-date".to_string());
    assert!(builtin_instant(&[bad]).is_err());
    assert!(matches!(
        builtin_instant(&[Value::Nil]),
        Err(ValueError::WrongType { .. })
    ));
}

#[test]
fn a_clock_beyond_a_long_is_out_of_range() {
    assert_eq!(
        builtin_nanotime(Ok(i64::MAX as u128)).unwrap(),
        Value::Long(i64::MAX)
    );
    assert!(matches!(
        builtin_nanotime(Ok(i64::MAX as u128 + 1)),
        Err(ValueError::OutOfRange)
    ));
    assert!(matches!(
        builtin_instant_now(Err("clock".to_string())),
        Err(ValueError::Other(_))
    ));
}

#[test]
fn instant_crosses_isolate_serialization() {
    let v = Value::Instant(123_456);
    let wire = serialize(&v).expect("serialize");
    assert_eq!(deserialize(wire), v);
}

#[test]
fn host_objects_do_not_cross() {
    let inner = Value::Vector(vec![Value::Long(1), Value::NativeObject(3)]);
    let err = serialize(&inner).expect_err("a host object inside");
    assert_eq!(err.message(), "is or holds a native-object");
}
