use gonfig::coerce::parse_env_value;
use gonfig::tree::Value;

fn text(s: &str) -> Value {
    Value::Str(s.to_string())
}

#[test]
fn version_string_stays_a_string() {
    assert_eq!(parse_env_value("1.0.0"), text("1.0.0"));
}

#[test]
fn booleans_are_exact_words() {
    assert_eq!(parse_env_value("true"), Value::Bool(true));
    assert_eq!(parse_env_value("false"), Value::Bool(false));
    assert_eq!(parse_env_value("TRUE"), text("TRUE"));
}

#[test]
fn bracketed_json_becomes_an_array() {
    assert_eq!(
        parse_env_value("[1,2,3]"),
        Value::Array(vec![Value::Int(1), Value::Int(2), Value::Int(3)])
    );
    assert_eq!(parse_env_value("[1.5]"), Value::Array(vec![Value::Float("1.5".to_string())]));
    assert_eq!(parse_env_value("[1, 2"), text("[1, 2"));
    assert_eq!(parse_env_value("[not json]"), text("[not json]"));
}

#[test]
fn braced_json_becomes_an_object() {
    assert_eq!(
        parse_env_value(r#"{"a": 1}"#),
        Value::Object(vec![("a".to_string(), Value::Int(1))])
    );
    assert_eq!(parse_env_value("{}"), Value::Object(Vec::new()));
    assert_eq!(parse_env_value("{oops}"), text("{oops}"));
}

#[test]
fn integers_take_an_optional_sign() {
    assert_eq!(parse_env_value("-42"), Value::Int(-42));
    assert_eq!(parse_env_value("+7"), Value::Int(7));
    assert_eq!(parse_env_value("0"), Value::Int(0));
    assert_eq!(parse_env_value("9223372036854775807"), Value::Int(i64::MAX));
}

#[test]
fn integers_beyond_64_bits_are_floats() {
    assert_eq!(
        parse_env_value("9223372036854775808"),
        Value::Float("9223372036854775808".to_string())
    );
}

#[test]
fn float_literals_keep_their_text() {
    for s in ["3.14", "1e5", "2.5E-3", ".5", "5.", "inf", "-Infinity", "NaN", "+1.0e+2"] {
        assert_eq!(parse_env_value(s), Value::Float(s.to_string()), "{}", s);
    }
    for s in [".", "1e", "e5", "1.2.3", "12abc", "--1", "infinit", ""] {
        assert_eq!(parse_env_value(s), text(s), "{}", s);
    }
}

#[test]
fn integer_edges_and_lone_signs() {
    assert_eq!(parse_env_value("-9223372036854775808"), Value::Int(i64::MIN));
    assert_eq!(parse_env_value("-0"), Value::Int(0));
    assert_eq!(parse_env_value("007"), Value::Int(7));
    assert_eq!(parse_env_value("-"), text("-"));
    assert_eq!(parse_env_value("+"), text("+"));
    assert_eq!(parse_env_value("1 "), text("1 "));
}
