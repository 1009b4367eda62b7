use fuzzy_json::json::{Decimal, JSON};
use fuzzy_json::parser::parse_fson;

fn assert_value(code: &str, expected: JSON) {
    assert_eq!(parse_fson(code), Some(expected), "{}", code);
}

fn decimal(negative: bool, whole: &str, fraction: &str) -> Decimal {
    Decimal { negative, whole: String::from(whole), fraction: String::from(fraction) }
}

fn as_double(value: &JSON) -> f64 {
    match value {
        JSON::Float(d) => d.to_text().parse::<f64>().unwrap(),
        other => panic!("not a decimal number: {:?}", other),
    }
}

#[test]
fn test_simple() {
    assert_value("null", JSON::Null);
    assert_value("None", JSON::Null);
    assert_value("NUL.", JSON::Null);
    assert_value("yes.", JSON::Bool(true));
    assert_value("NO NO.", JSON::Bool(false));
    assert_value("This is a NULL.", JSON::Null);
    assert_value("PI is 3.141", JSON::Float(decimal(false, "3", "141")));
    assert_eq!(as_double(&parse_fson("PI is 3.141").unwrap()), 3.141);
    assert_value("PI is 3.", JSON::Int(3));
    assert_value("\"\"", JSON::Str(String::from("")));
    assert_value("''", JSON::Str(String::from("")));
    assert_value("\"dog\"", JSON::Str(String::from("dog")));
    assert_value("\"'\"", JSON::Str(String::from("'")));
    assert_value("'\"'", JSON::Str(String::from("\"")));
}

#[test]
fn test_array() {
    assert_value("[]", JSON::Array(vec![]));
    assert_value("[null]", JSON::Array(vec![JSON::Null]));
    assert_value(
        "[null, 1, []]",
        JSON::Array(vec![JSON::Null, JSON::Int(1), JSON::Array(vec![])]),
    );
}

#[test]
fn test_dict() {
    assert_value("{}", JSON::Dict(vec![]));
    assert_value(
        "{x: 42, \"x 2\": {}}",
        JSON::Dict(vec![
            (String::from("x"), JSON::Int(42)),
            (String::from("x 2"), JSON::Dict(vec![])),
        ]),
    );
}

#[test]
fn test_complex() {
    assert_value(
        r#"
{
  "x": 42,
  'y': {},
  z: [ nil ], // trailing comma!
}.
            "#,
        JSON::Dict(vec![
            (String::from("x"), JSON::Int(42)),
            (String::from("y"), JSON::Dict(vec![])),
            (String::from("z"), JSON::Array(vec![JSON::Null])),
        ]),
    );
}
