use fuzzy_json::fson;
use fuzzy_json::json::{Decimal, JSON};
use fuzzy_json::parser::parse_fson;
use json::JsonValue;

fn float(negative: bool, whole: &str, fraction: &str) -> JSON {
    JSON::Float(Decimal { negative, whole: String::from(whole), fraction: String::from(fraction) })
}

fn entry(key: &str, value: JSON) -> (String, JSON) {
    (String::from(key), value)
}

/// Whether a strict reader's value is the given one, numbers compared as doubles.
fn same(ours: &JSON, strict: &JsonValue) -> bool {
    match ours {
        JSON::Null => strict.is_null(),
        JSON::Bool(b) => strict.as_bool() == Some(*b),
        JSON::Int(x) => strict.is_number() && strict.as_f64() == Some(*x as f64),
        JSON::Float(d) => {
            strict.is_number() && strict.as_f64() == Some(d.to_text().parse::<f64>().unwrap())
        }
        JSON::Str(s) => strict.is_string() && strict.as_str() == Some(s.as_str()),
        JSON::Array(xs) => {
            strict.is_array()
                && strict.len() == xs.len()
                && xs.iter().zip(strict.members()).all(|(x, y)| same(x, y))
        }
        JSON::Dict(es) => {
            strict.is_object()
                && strict.len() == es.len()
                && es.iter().zip(strict.entries()).all(|((k, v), (sk, sv))| k == sk && same(v, sv))
        }
    }
}

#[test]
fn a_strict_reader_reads_the_canonical_text() {
    let values = vec![
        JSON::Null,
        JSON::Bool(true),
        JSON::Bool(false),
        JSON::Int(0),
        JSON::Int(42),
        JSON::Int(-9_007_199_254_740_992),
        float(false, "3", "141"),
        float(false, "", "5"),
        float(true, "", "25"),
        float(false, "12", "50"),
        JSON::Str(String::from("")),
        JSON::Str(String::from("dog")),
        JSON::Str(String::from("tab \t quote \" backslash \\ line \n bell \u{7} del \u{7f}")),
        JSON::Str(String::from("h\u{e9}llo \u{4eac} \u{1f600}")),
        JSON::Array(vec![]),
        JSON::Dict(vec![]),
        JSON::Array(vec![JSON::Null, JSON::Int(1), JSON::Array(vec![])]),
        JSON::Dict(vec![
            entry("x", JSON::Int(42)),
            entry("x 2", JSON::Dict(vec![])),
            entry("a\"b", JSON::Int(1)),
            entry("back\\slash, line\nfeed, bell \u{7}", JSON::Null),
            entry("list", JSON::Array(vec![float(true, "1", "0"), JSON::Str(String::from("a"))])),
        ]),
    ];
    for v in values {
        let text = v.stringify();
        let strict = json::parse(&text).unwrap();
        assert!(same(&v, &strict), "{} read as {:?}", text, strict);
    }
}

#[test]
fn a_strict_reader_agrees_on_what_was_parsed() {
    let texts = [
        "null",
        "PI is 3.141",
        "[null, 1, []]",
        "{x: 42, \"x 2\": {}}",
        "{ 'name': 'it''s', tags: [yes, NO, Nil,], -- done\n }",
        "say 'a \"quoted\" word'",
        "{a: {b: {c: [1_000, -.5, 0.25]}}}",
        "\"line\\nbreak and \\t tab\"",
        "{'a\"b': 1, \"c\\\\d\": [{'e\\nf': no}]}",
    ];
    for text in texts {
        let ours = parse_fson(text).unwrap();
        let strict = json::parse(&fson(text).unwrap()).unwrap();
        assert!(same(&ours, &strict), "{} read as {:?}", text, strict);
    }
}

#[test]
fn strict_text_means_the_same_to_both() {
    let texts = [
        "null",
        "true",
        "false",
        "0",
        "-12",
        "3.5",
        "-0.125",
        "\"\"",
        "\"a b\"",
        "\"quote \\\" backslash \\\\ line \\n tab \\t return \\r\"",
        "[]",
        "{}",
        "[1,2,3]",
        "[ 1 , [ 2 , [ 3 ] ] , \"x\" ]",
        "{\"a\":1,\"b\":[true,false,null],\"c\":{\"d\":\"e\"}}",
        "{\"a\\\"b\":1}",
        "{\"tab\\there\": {\"back\\\\slash\": \"line\\nfeed\"}}",
        "{\n  \"name\": \"fson\",\n  \"size\": 12.50,\n  \"tags\": [\"a\", \"b\"]\n}",
    ];
    for text in texts {
        let strict = json::parse(text).unwrap();
        let ours = parse_fson(text).unwrap();
        assert!(same(&ours, &strict), "{}", text);
        let again = json::parse(&fson(text).unwrap()).unwrap();
        assert!(same(&ours, &again), "{}", text);
    }
}

#[test]
fn strict_text_beyond_the_grammar_is_read_otherwise() {
    assert_eq!(parse_fson("1e3"), Some(JSON::Int(1)));
    assert_eq!(parse_fson("[1e3]"), Some(JSON::Int(1)));
    assert_eq!(parse_fson("\"\\u0041\""), Some(JSON::Int(41)));
    assert_eq!(parse_fson("\"a\\/b\""), None);
}
