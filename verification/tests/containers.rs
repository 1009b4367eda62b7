use fuzzy_json::json::{Decimal, JSON};
use fuzzy_json::parser::{parse_array, parse_data, parse_dict, parse_fson};

fn s(text: &str) -> JSON {
    JSON::Str(String::from(text))
}

fn entry(key: &str, value: JSON) -> (String, JSON) {
    (String::from(key), value)
}

#[test]
fn array_items_are_separated_by_commas() {
    assert_eq!(parse_array("[]"), Some(("", JSON::Array(vec![]))));
    assert_eq!(parse_array("[ ]x"), Some(("x", JSON::Array(vec![]))));
    assert_eq!(parse_array("[1]"), Some(("", JSON::Array(vec![JSON::Int(1)]))));
    assert_eq!(
        parse_array("[1,2 , 3]"),
        Some(("", JSON::Array(vec![JSON::Int(1), JSON::Int(2), JSON::Int(3)])))
    );
    assert_eq!(
        parse_array("[null, yes, 'a', 1.5, -2, [], {}]"),
        Some((
            "",
            JSON::Array(vec![
                JSON::Null,
                JSON::Bool(true),
                s("a"),
                JSON::Float(Decimal {
                    negative: false,
                    whole: String::from("1"),
                    fraction: String::from("5")
                }),
                JSON::Int(-2),
                JSON::Array(vec![]),
                JSON::Dict(vec![]),
            ])
        ))
    );
    assert_eq!(
        parse_array("[[[1]], [[], [2]]]"),
        Some((
            "",
            JSON::Array(vec![
                JSON::Array(vec![JSON::Array(vec![JSON::Int(1)])]),
                JSON::Array(vec![JSON::Array(vec![]), JSON::Array(vec![JSON::Int(2)])]),
            ])
        ))
    );
}

#[test]
fn array_may_end_with_one_comma() {
    let one_two = JSON::Array(vec![JSON::Int(1), JSON::Int(2)]);
    assert_eq!(parse_array("[1, 2]"), Some(("", one_two.clone())));
    assert_eq!(parse_array("[1, 2,]"), Some(("", one_two.clone())));
    assert_eq!(parse_array("[1, 2 , ]"), Some(("", one_two.clone())));
    assert_eq!(parse_array("[1, 2, // no more\n]"), Some(("", one_two)));
    assert_eq!(parse_array("[,]"), Some(("", JSON::Array(vec![]))));
    assert_eq!(parse_array("[ , ]"), Some(("", JSON::Array(vec![]))));
    assert_eq!(parse_array("[1,,]"), None);
    assert_eq!(parse_array("[,,]"), None);
    assert_eq!(parse_array("[,1]"), None);
}

#[test]
fn array_that_is_not_closed_is_none() {
    assert_eq!(parse_array("["), None);
    assert_eq!(parse_array("[1"), None);
    assert_eq!(parse_array("[1,"), None);
    assert_eq!(parse_array("[1 2]"), None);
    assert_eq!(parse_array("[1}"), None);
    assert_eq!(parse_array("[x]"), None);
    assert_eq!(parse_array("[1 // ]"), None);
    assert_eq!(parse_array(" []"), None);
    assert_eq!(parse_array(""), None);
}

#[test]
fn array_holds_comments_and_line_breaks() {
    assert_eq!(
        parse_array("[ // first\n 1 # one\n , ; then\n 2 -- two\n ]"),
        Some(("", JSON::Array(vec![JSON::Int(1), JSON::Int(2)])))
    );
    assert_eq!(parse_array("[\n\t1\n]\n"), Some(("\n", JSON::Array(vec![JSON::Int(1)]))));
}

#[test]
fn dict_keys_are_quoted_or_bare() {
    assert_eq!(parse_dict("{}"), Some(("", JSON::Dict(vec![]))));
    assert_eq!(parse_dict("{a:1}"), Some(("", JSON::Dict(vec![entry("a", JSON::Int(1))]))));
    assert_eq!(
        parse_dict("{ \"a b\" : 1 , 'c' : 2 , d_1 : 3 }"),
        Some((
            "",
            JSON::Dict(vec![
                entry("a b", JSON::Int(1)),
                entry("c", JSON::Int(2)),
                entry("d_1", JSON::Int(3)),
            ])
        ))
    );
    assert_eq!(
        parse_dict("{null: null, true: no}"),
        Some(("", JSON::Dict(vec![entry("null", JSON::Null), entry("true", JSON::Bool(false))])))
    );
    assert_eq!(
        parse_dict("{'': 1, \"a\\nb\": 2}"),
        Some(("", JSON::Dict(vec![entry("", JSON::Int(1)), entry("a\nb", JSON::Int(2))])))
    );
    assert_eq!(parse_dict("{@id: 7}"), Some(("", JSON::Dict(vec![entry("@id", JSON::Int(7))]))));
}

#[test]
fn dict_keeps_every_entry_in_order() {
    assert_eq!(
        parse_dict("{b: 1, a: 2, b: 3, a: 4}"),
        Some((
            "",
            JSON::Dict(vec![
                entry("b", JSON::Int(1)),
                entry("a", JSON::Int(2)),
                entry("b", JSON::Int(3)),
                entry("a", JSON::Int(4)),
            ])
        ))
    );
}

#[test]
fn dict_may_end_with_one_comma() {
    let d = JSON::Dict(vec![entry("a", JSON::Int(1)), entry("b", JSON::Array(vec![]))]);
    assert_eq!(parse_dict("{a: 1, b: []}"), Some(("", d.clone())));
    assert_eq!(parse_dict("{a: 1, b: [],}"), Some(("", d.clone())));
    assert_eq!(parse_dict("{a: 1, b: [,] , }"), Some(("", d)));
    assert_eq!(parse_dict("{,}"), Some(("", JSON::Dict(vec![]))));
    assert_eq!(parse_dict("{a: 1,,}"), None);
    assert_eq!(parse_dict("{,a: 1}"), None);
}

#[test]
fn dict_that_is_malformed_is_none() {
    assert_eq!(parse_dict("{"), None);
    assert_eq!(parse_dict("{a}"), None);
    assert_eq!(parse_dict("{a:}"), None);
    assert_eq!(parse_dict("{a 1}"), None);
    assert_eq!(parse_dict("{a: 1"), None);
    assert_eq!(parse_dict("{a: 1]"), None);
    assert_eq!(parse_dict("{1: 2}"), None);
    assert_eq!(parse_dict("{a: 1 b: 2}"), None);
    assert_eq!(parse_dict("{[1]: 2}"), None);
    assert_eq!(parse_dict(""), None);
}

#[test]
fn dict_key_that_starts_a_comment_is_lost() {
    assert_eq!(parse_dict("{#x: 1}"), None);
    assert_eq!(parse_dict("{#x: 1\n}"), Some(("", JSON::Dict(vec![]))));
    assert_eq!(
        parse_dict("{a#b: 1}"),
        Some(("", JSON::Dict(vec![entry("a#b", JSON::Int(1))])))
    );
}

#[test]
fn data_tries_the_kinds_in_order() {
    assert_eq!(parse_data("{}"), Some(("", JSON::Dict(vec![]))));
    assert_eq!(parse_data("[]"), Some(("", JSON::Array(vec![]))));
    assert_eq!(parse_data("None"), Some(("", JSON::Null)));
    assert_eq!(parse_data("No"), Some(("", JSON::Bool(false))));
    assert_eq!(parse_data("Nothing"), Some(("", JSON::Null)));
    assert_eq!(parse_data("Not"), Some(("t", JSON::Bool(false))));
    assert_eq!(parse_data("'x'"), Some(("", s("x"))));
    assert_eq!(parse_data("12.5"), parse_data("1_2.5"));
    assert_eq!(parse_data("12.x"), Some((".x", JSON::Int(12))));
    assert_eq!(parse_data("-12"), Some(("", JSON::Int(-12))));
    assert_eq!(parse_data(" 1"), None);
    assert_eq!(parse_data("x"), None);
    assert_eq!(parse_data("]"), None);
    assert_eq!(parse_data(""), None);
}

#[test]
fn scan_skips_what_is_no_value() {
    assert_eq!(parse_fson("the answer is 42, I think"), Some(JSON::Int(42)));
    assert_eq!(parse_fson("   [1]   [2]"), Some(JSON::Array(vec![JSON::Int(1)])));
    assert_eq!(parse_fson("x = {a: 1}; y = 2"), Some(JSON::Dict(vec![entry("a", JSON::Int(1))])));
    assert_eq!(parse_fson("\u{e9}\u{e9}\u{e9} 'ok'"), Some(s("ok")));
    assert_eq!(parse_fson("[1, 2"), Some(JSON::Int(1)));
    assert_eq!(parse_fson("{a: }, 5"), Some(JSON::Int(5)));
    assert_eq!(parse_fson("\"open 7"), Some(JSON::Int(7)));
    assert_eq!(parse_fson("// 1\n2"), Some(JSON::Int(1)));
}

#[test]
fn scan_matches_inside_words() {
    assert_eq!(parse_fson("piano"), Some(JSON::Bool(false)));
    assert_eq!(parse_fson("eyes"), Some(JSON::Bool(true)));
    assert_eq!(parse_fson("abc12def"), Some(JSON::Int(12)));
    assert_eq!(parse_fson("v1.5"), parse_fson("1.5"));
    assert_eq!(parse_fson("annul"), None);
    assert_eq!(parse_fson("canNULate"), Some(JSON::Null));
}

#[test]
fn scan_finds_nothing_where_no_value_starts() {
    assert_eq!(parse_fson(""), None);
    assert_eq!(parse_fson("   "), None);
    assert_eq!(parse_fson("hello world"), None);
    assert_eq!(parse_fson("]}),:;!?"), None);
    assert_eq!(parse_fson("- . -. _ -_"), None);
    assert_eq!(parse_fson("{ [ \" '"), None);
    assert_eq!(parse_fson("\u{4eac}\u{90fd} \u{1f600}"), None);
}

#[test]
fn scan_goes_on_where_a_number_does_not_fit() {
    assert_eq!(
        parse_fson("9999999999999999999999999999999999999999"),
        Some(JSON::Int(99_999_999_999_999_999_999_999_999_999_999_999_999))
    );
    assert_eq!(
        parse_fson("170141183460469231731687303715884105728"),
        Some(JSON::Int(70_141_183_460_469_231_731_687_303_715_884_105_728))
    );
}

#[test]
fn deep_nesting_is_read() {
    let depth = 200;
    let mut text = String::new();
    let mut expected = JSON::Int(1);
    for _ in 0..depth {
        text.push('[');
        expected = JSON::Array(vec![expected]);
    }
    text.push('1');
    for _ in 0..depth {
        text.push(']');
    }
    assert_eq!(parse_fson(&text), Some(expected));
}

#[test]
fn scan_is_the_first_rest_that_starts_with_a_value() {
    let texts = [
        "",
        "null",
        "This is a NULL.",
        "PI is 3.141",
        "x = {a: [1, 'two', 3.0,], b: {}}; y = 2",
        "\u{e9}t\u{e9} \u{4eac} [yes] \u{1f600}",
        "\"open {a: 1",
        "[1, 2",
        "hello world",
        "170141183460469231731687303715884105728",
    ];
    for text in texts {
        let by_rests = text
            .char_indices()
            .find_map(|(at, _)| parse_data(&text[at..]).map(|(_, value)| value));
        assert_eq!(parse_fson(text), by_rests, "{:?}", text);
    }
}

#[test]
fn a_value_is_read_alike_wherever_the_text_is_cut_before_it() {
    let text = "say {a: [1, 'two', -3.5, Nothing,], \"b c\": yes} // done";
    let whole = parse_data(&text[4..]).unwrap();
    assert_eq!(whole.0, " // done");
    for cut in 0..=4 {
        let (rest, value) = parse_fson(&text[cut..]).map(|v| ("", v)).unwrap();
        assert_eq!(rest, "");
        assert_eq!(value, whole.1);
    }
}
