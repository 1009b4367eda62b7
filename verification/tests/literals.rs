use fuzzy_json::json::{Decimal, JSON};
use fuzzy_json::parser::{
    commentable_spaces, identifier, parse_bool, parse_float, parse_int, parse_null, parse_str,
    spaces,
};

fn float(negative: bool, whole: &str, fraction: &str) -> JSON {
    JSON::Float(Decimal { negative, whole: String::from(whole), fraction: String::from(fraction) })
}

#[test]
fn null_has_eight_spellings() {
    for word in ["null", "Null", "NULL", "NUL", "Nil", "nil", "None", "Nothing"] {
        assert_eq!(parse_null(word), Some(("", JSON::Null)), "{}", word);
    }
    assert_eq!(parse_null("nULL"), None);
    assert_eq!(parse_null("nothing"), None);
    assert_eq!(parse_null(" null"), None);
    assert_eq!(parse_null(""), None);
}

#[test]
fn null_takes_the_longer_spelling_first() {
    assert_eq!(parse_null("NULL]"), Some(("]", JSON::Null)));
    assert_eq!(parse_null("NUL]"), Some(("]", JSON::Null)));
    assert_eq!(parse_null("NULx"), Some(("x", JSON::Null)));
    assert_eq!(parse_null("nullify"), Some(("ify", JSON::Null)));
}

#[test]
fn bool_has_twelve_spellings() {
    for word in ["true", "True", "TRUE", "yes", "Yes", "YES"] {
        assert_eq!(parse_bool(word), Some(("", JSON::Bool(true))), "{}", word);
    }
    for word in ["false", "False", "FALSE", "no", "No", "NO"] {
        assert_eq!(parse_bool(word), Some(("", JSON::Bool(false))), "{}", word);
    }
    assert_eq!(parse_bool("tRUE"), None);
    assert_eq!(parse_bool("nO"), None);
    assert_eq!(parse_bool("yes."), Some((".", JSON::Bool(true))));
    assert_eq!(parse_bool("None"), Some(("ne", JSON::Bool(false))));
}

#[test]
fn int_reads_digits_and_separators() {
    assert_eq!(parse_int("42"), Some(("", JSON::Int(42))));
    assert_eq!(parse_int("-7 "), Some((" ", JSON::Int(-7))));
    assert_eq!(parse_int("1_000_000"), Some(("", JSON::Int(1_000_000))));
    assert_eq!(parse_int("1__2_x"), Some(("x", JSON::Int(12))));
    assert_eq!(parse_int("007"), Some(("", JSON::Int(7))));
    assert_eq!(parse_int("-0"), Some(("", JSON::Int(0))));
    assert_eq!(parse_int("3."), Some((".", JSON::Int(3))));
    assert_eq!(parse_int("_1"), None);
    assert_eq!(parse_int("-"), None);
    assert_eq!(parse_int("--1"), None);
    assert_eq!(parse_int("+1"), None);
    assert_eq!(parse_int(""), None);
}

#[test]
fn int_must_fit() {
    assert_eq!(
        parse_int("170141183460469231731687303715884105727"),
        Some(("", JSON::Int(i128::MAX)))
    );
    assert_eq!(
        parse_int("-170141183460469231731687303715884105727"),
        Some(("", JSON::Int(-i128::MAX)))
    );
    assert_eq!(parse_int("170141183460469231731687303715884105728"), None);
    assert_eq!(parse_int("-170141183460469231731687303715884105728"), None);
    assert_eq!(parse_int("1701411834604692317316873037158841057270"), None);
    assert_eq!(parse_int("99999999999999999999999999999999999999999999"), None);
    assert_eq!(
        parse_int("000000000000000000000000000000000000000000000001"),
        Some(("", JSON::Int(1)))
    );
}

#[test]
fn float_needs_a_point_and_a_digit_after_it() {
    assert_eq!(parse_float("3.141"), Some(("", float(false, "3", "141"))));
    assert_eq!(parse_float(".5"), Some(("", float(false, "", "5"))));
    assert_eq!(parse_float("-.5"), Some(("", float(true, "", "5"))));
    assert_eq!(parse_float("-0.0"), Some(("", float(true, "", "0"))));
    assert_eq!(parse_float("1_0.2_5_"), Some(("", float(false, "10", "25"))));
    assert_eq!(parse_float("1_.5"), Some(("", float(false, "1", "5"))));
    assert_eq!(parse_float("007.50"), Some(("", float(false, "7", "50"))));
    assert_eq!(parse_float("1.2.3"), Some((".3", float(false, "1", "2"))));
    assert_eq!(parse_float("1.5e3"), Some(("e3", float(false, "1", "5"))));
    assert_eq!(parse_float("3."), None);
    assert_eq!(parse_float("3"), None);
    assert_eq!(parse_float("."), None);
    assert_eq!(parse_float("1._5"), None);
    assert_eq!(parse_float("-"), None);
    assert_eq!(parse_float(""), None);
}

#[test]
fn float_text_has_a_digit_on_each_side() {
    let text = |code: &str| match parse_float(code) {
        Some((_, JSON::Float(d))) => d.to_text(),
        other => panic!("{:?}", other),
    };
    assert_eq!(text("3.141"), "3.141");
    assert_eq!(text(".5"), "0.5");
    assert_eq!(text("-.5"), "-0.5");
    assert_eq!(text("007.50"), "7.50");
    assert_eq!(text("1_000.000_1"), "1000.0001");
    assert_eq!(text("3.141").parse::<f64>().unwrap(), 3.141);
    assert_eq!(text("-.5").parse::<f64>().unwrap(), -0.5);
}

#[test]
fn str_decodes_escapes() {
    let s = |text: &str| JSON::Str(String::from(text));
    assert_eq!(parse_str("\"dog\" cat"), Some((" cat", s("dog"))));
    assert_eq!(parse_str("'dog'"), Some(("", s("dog"))));
    assert_eq!(parse_str("\"\""), Some(("", s(""))));
    assert_eq!(parse_str("''x"), Some(("x", s(""))));
    assert_eq!(parse_str(r#""a\\b""#), Some(("", s("a\\b"))));
    assert_eq!(parse_str(r#""a\"b""#), Some(("", s("a\"b"))));
    assert_eq!(parse_str(r#""a\'b""#), Some(("", s("a'b"))));
    assert_eq!(parse_str(r#"'a\'b'"#), Some(("", s("a'b"))));
    assert_eq!(parse_str(r#"'a\"b'"#), Some(("", s("a\"b"))));
    assert_eq!(parse_str(r#""\n\r\t""#), Some(("", s("\n\r\t"))));
    assert_eq!(parse_str(r#""\\""#), Some(("", s("\\"))));
    assert_eq!(parse_str("\"a'b\""), Some(("", s("a'b"))));
    assert_eq!(parse_str("'a\"b'"), Some(("", s("a\"b"))));
    assert_eq!(parse_str("\"line\nbreak\""), Some(("", s("line\nbreak"))));
    assert_eq!(parse_str("\"h\u{e9}llo \u{1f600}\"!"), Some(("!", s("h\u{e9}llo \u{1f600}"))));
}

#[test]
fn str_rejects_what_it_cannot_decode() {
    assert_eq!(parse_str(r#""a\bc""#), None);
    assert_eq!(parse_str(r#""a\u0041""#), None);
    assert_eq!(parse_str(r#""a\/b""#), None);
    assert_eq!(parse_str(r#""a\0""#), None);
    assert_eq!(parse_str("\"abc"), None);
    assert_eq!(parse_str("\"abc\\"), None);
    assert_eq!(parse_str("\"abc\\\""), None);
    assert_eq!(parse_str("\"abc'"), None);
    assert_eq!(parse_str("'abc\""), None);
    assert_eq!(parse_str("\""), None);
    assert_eq!(parse_str("abc"), None);
    assert_eq!(parse_str(""), None);
}

#[test]
fn identifier_is_a_head_and_a_tail() {
    let id = |rest: &'static str, name: &str| Some((rest, String::from(name)));
    assert_eq!(identifier("abc"), id("", "abc"));
    assert_eq!(identifier("abc1 x"), id(" x", "abc1"));
    assert_eq!(identifier("_a-b"), id("-b", "_a"));
    assert_eq!(identifier("#a@_9:"), id(":", "#a@_9"));
    assert_eq!(identifier("@"), id("", "@"));
    assert_eq!(identifier("x: 1"), id(": 1", "x"));
    assert_eq!(identifier("true"), id("", "true"));
    assert_eq!(identifier("9a"), None);
    assert_eq!(identifier("-a"), None);
    assert_eq!(identifier(" a"), None);
    assert_eq!(identifier(""), None);
}

#[test]
fn identifier_follows_unicode_beyond_ascii() {
    let id = |rest: &'static str, name: &str| Some((rest, String::from(name)));
    assert_eq!(identifier("\u{e9}t\u{e9} x"), id(" x", "\u{e9}t\u{e9}"));
    assert_eq!(identifier("\u{4eac}\u{90fd}:"), id(":", "\u{4eac}\u{90fd}"));
    assert_eq!(identifier("a\u{663}b"), id("", "a\u{663}b"));
    assert_eq!(identifier("\u{663}a"), None);
    assert_eq!(identifier("\u{1f49d}"), None);
    assert_eq!(identifier("a\u{1f49d}"), id("\u{1f49d}", "a"));
}

#[test]
fn spaces_take_white_space_only() {
    assert_eq!(spaces("  \t\r\n x "), Some(("x ", "  \t\r\n ")));
    assert_eq!(spaces("x"), Some(("x", "")));
    assert_eq!(spaces(""), Some(("", "")));
    assert_eq!(spaces("\u{b}\u{c}x"), Some(("x", "\u{b}\u{c}")));
    assert_eq!(spaces("\u{a0}\u{3000}\u{2028}x"), Some(("x", "\u{a0}\u{3000}\u{2028}")));
    assert_eq!(spaces("\u{85}x"), Some(("x", "\u{85}")));
    assert_eq!(spaces("\u{200b}x"), Some(("\u{200b}x", "")));
    assert_eq!(spaces("\u{1c}x"), Some(("\u{1c}x", "")));
    assert_eq!(spaces("// x"), Some(("// x", "")));
}

#[test]
fn comments_run_to_the_end_of_the_line() {
    assert_eq!(commentable_spaces("  x"), Some(("x", ())));
    assert_eq!(commentable_spaces("// c\nx"), Some(("x", ())));
    assert_eq!(commentable_spaces("# c\r\n  x"), Some(("x", ())));
    assert_eq!(commentable_spaces("; c\n; d\n\n-- e\n x"), Some(("x", ())));
    assert_eq!(commentable_spaces(" // c"), Some(("", ())));
    assert_eq!(commentable_spaces("//"), Some(("", ())));
    assert_eq!(commentable_spaces("#\nx"), Some(("x", ())));
    assert_eq!(commentable_spaces("/ x"), Some(("/ x", ())));
    assert_eq!(commentable_spaces("- x"), Some(("- x", ())));
    assert_eq!(commentable_spaces("-1"), Some(("-1", ())));
    assert_eq!(commentable_spaces("--1\n2"), Some(("2", ())));
    assert_eq!(commentable_spaces("x // c"), Some(("x // c", ())));
    assert_eq!(commentable_spaces(""), Some(("", ())));
}

#[test]
fn classes_follow_unicode() {
    let codes = (0u32..0x3100).chain(0xa000..0xa100).chain(0x1_f400..0x1_f500);
    for c in codes.filter_map(char::from_u32) {
        let white = spaces(&format!("{}x", c)).unwrap().1.chars().count() == 1;
        assert_eq!(white, c.is_whitespace(), "{:?}", c);
        let head = identifier(&c.to_string()).is_some();
        assert_eq!(head, c.is_alphabetic() || c == '_' || c == '#' || c == '@', "{:?}", c);
        let tail = identifier(&format!("a{}", c)).unwrap().1.chars().count() == 2;
        assert_eq!(tail, c.is_alphanumeric() || c == '_' || c == '#' || c == '@', "{:?}", c);
    }
}

#[test]
fn white_space_is_twenty_five_characters() {
    let white = |c: char| spaces(&c.to_string()).unwrap().1.len() > 0;
    let expected = |code: u32| {
        (0x9..=0xd).contains(&code)
            || code == 0x20
            || code == 0x85
            || code == 0xa0
            || code == 0x1680
            || (0x2000..=0x200a).contains(&code)
            || code == 0x2028
            || code == 0x2029
            || code == 0x202f
            || code == 0x205f
            || code == 0x3000
    };
    let mut count = 0;
    for code in 0u32..=0x10_ffff {
        if let Some(c) = char::from_u32(code) {
            assert_eq!(white(c), expected(code), "{:x}", code);
            if white(c) {
                count += 1;
            }
        }
    }
    assert_eq!(count, 25);
}
