use tpt_yaml::node::ScalarValue;
use tpt_yaml::resolve::resolve_scalar;
use tpt_yaml::version::YamlVersion::{Version11, Version12};

fn s(text: &str) -> ScalarValue {
    ScalarValue::String(text.to_string())
}

#[test]
fn plus_prefixed_int_is_not_negated() {
    assert_eq!(resolve_scalar("+42", Version12, false), ScalarValue::Int(42));
}

#[test]
fn minus_prefixed_int_is_negated() {
    assert_eq!(resolve_scalar("-42", Version12, false), ScalarValue::Int(-42));
}

#[test]
fn i64_min_round_trips_as_int_not_float() {
    assert_eq!(resolve_scalar("-9223372036854775808", Version12, false), ScalarValue::Int(i64::MIN));
}

#[test]
fn i64_max_round_trips_as_int() {
    assert_eq!(resolve_scalar("9223372036854775807", Version12, false), ScalarValue::Int(i64::MAX));
}

#[test]
fn out_of_range_integers_are_strings() {
    assert_eq!(resolve_scalar("9223372036854775808", Version12, false), s("9223372036854775808"));
    assert_eq!(resolve_scalar("-9223372036854775809", Version12, false), ScalarValue::Float("-9223372036854775809".to_string()));
}

#[test]
fn booleans_depend_on_the_version() {
    assert_eq!(resolve_scalar("yes", Version11, false), ScalarValue::Bool(true));
    assert_eq!(resolve_scalar("yes", Version12, false), s("yes"));
    assert_eq!(resolve_scalar("Off", Version11, false), ScalarValue::Bool(false));
    assert_eq!(resolve_scalar("TRUE", Version12, false), ScalarValue::Bool(true));
    assert_eq!(resolve_scalar("true", Version11, false), ScalarValue::Bool(true));
    assert_eq!(resolve_scalar("tRue", Version12, false), s("tRue"));
}

#[test]
fn nulls_and_trimming() {
    assert_eq!(resolve_scalar("", Version12, false), ScalarValue::Null);
    assert_eq!(resolve_scalar("  ~ ", Version12, false), ScalarValue::Null);
    assert_eq!(resolve_scalar("NULL", Version11, false), ScalarValue::Null);
    assert_eq!(resolve_scalar("  hello  ", Version12, false), s("hello"));
}

#[test]
fn octal_forms_per_version() {
    assert_eq!(resolve_scalar("0o17", Version12, false), ScalarValue::Int(15));
    assert_eq!(resolve_scalar("0755", Version11, false), ScalarValue::Int(493));
    assert_eq!(resolve_scalar("0755", Version12, false), s("0755"));
    assert_eq!(resolve_scalar("-0o10", Version12, false), ScalarValue::Int(-8));
    assert_eq!(resolve_scalar("0", Version12, false), ScalarValue::Int(0));
    assert_eq!(resolve_scalar("0x1F", Version12, false), s("0x1F"));
}

#[test]
fn sexagesimal_integers_under_1_1() {
    assert_eq!(resolve_scalar("1:20:30", Version11, false), ScalarValue::Int(4830));
    assert_eq!(resolve_scalar("-1:30", Version11, false), ScalarValue::Int(-90));
    assert_eq!(resolve_scalar("1:60", Version11, false), s("1:60"));
    assert_eq!(resolve_scalar("1:20:30", Version12, false), s("1:20:30"));
    assert_eq!(resolve_scalar("1:20:30.5", Version11, true), ScalarValue::Float("1:20:30.5".to_string()));
}

#[test]
fn floats_keep_their_text() {
    assert_eq!(resolve_scalar("1.5", Version12, false), ScalarValue::Float("1.5".to_string()));
    assert_eq!(resolve_scalar("1,000.5", Version12, false), ScalarValue::Float("1000.5".to_string()));
    assert_eq!(resolve_scalar("-.inf", Version12, false), s("-.inf"));
    assert_eq!(resolve_scalar("-inf", Version12, false), ScalarValue::Float("-inf".to_string()));
    assert_eq!(resolve_scalar("1e5", Version12, false), ScalarValue::Float("1e5".to_string()));
    assert_eq!(resolve_scalar("1e", Version12, false), s("1e"));
    assert_eq!(resolve_scalar("inf", Version12, false), s("inf"));
    assert_eq!(resolve_scalar("+NaN", Version12, false), ScalarValue::Float("+NaN".to_string()));
}

#[test]
fn timestamps() {
    assert_eq!(resolve_scalar("2024-01-15", Version12, false), ScalarValue::Timestamp("2024-01-15".to_string()));
    assert_eq!(resolve_scalar("2024-01-1x", Version12, false), s("2024-01-1x"));
}

#[test]
fn scalar_accessors() {
    assert_eq!(ScalarValue::Int(3).as_i64(), Some(3));
    assert_eq!(ScalarValue::Bool(true).as_bool(), Some(true));
    assert_eq!(s("x").as_str(), Some("x"));
    assert_eq!(ScalarValue::Timestamp("t".to_string()).as_str(), Some("t"));
    assert_eq!(ScalarValue::Null.as_str(), None);
}
