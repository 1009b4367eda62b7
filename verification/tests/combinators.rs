use fuzzy_json::json::JSON;
use fuzzy_json::parser::{parse_data, parse_fson};
use nom::branch::alt;
use nom::bytes::complete::{escaped_transform, is_not, tag, take_while, take_while1};
use nom::character::complete::{char, one_of};
use nom::combinator::{eof, map_res, opt, recognize, value};
use nom::multi::{many0, many1, separated_list0};
use nom::sequence::{delimited, pair, terminated, tuple};
use nom::IResult;

/// The same grammar, put together from parser combinators, with numbers as
/// the machine holds them.
#[derive(Debug, Clone, PartialEq)]
enum Plain {
    Null,
    Bool(bool),
    Int(i128),
    Float(f64),
    Str(String),
    Array(Vec<Plain>),
    Dict(Vec<(String, Plain)>),
}

fn plain(v: &JSON) -> Plain {
    match v {
        JSON::Null => Plain::Null,
        JSON::Bool(b) => Plain::Bool(*b),
        JSON::Int(x) => Plain::Int(*x),
        JSON::Float(d) => Plain::Float(d.to_text().parse::<f64>().unwrap()),
        JSON::Str(s) => Plain::Str(s.clone()),
        JSON::Array(xs) => Plain::Array(xs.iter().map(plain).collect()),
        JSON::Dict(es) => Plain::Dict(es.iter().map(|(k, v)| (k.clone(), plain(v))).collect()),
    }
}

fn white(input: &str) -> IResult<&str, &str> {
    take_while(|c: char| c.is_whitespace())(input)
}

fn comment(input: &str) -> IResult<&str, &str> {
    let (input, _) = alt((tag("//"), tag("#"), tag(";"), tag("--")))(input)?;
    let (input, _) = opt(is_not("\n\r"))(input)?;
    alt((eof, white))(input)
}

fn blank(input: &str) -> IResult<&str, ()> {
    let (input, _) = white(input)?;
    let (input, _) = many0(tuple((comment, white)))(input)?;
    Ok((input, ()))
}

fn bare_key(input: &str) -> IResult<&str, String> {
    let head = |c: char| c.is_alphabetic() || c == '_' || c == '#' || c == '@';
    let tail = move |c: char| c.is_alphanumeric() || head(c);
    let (input, s) = take_while1(head)(input)?;
    let (input, t) = take_while(tail)(input)?;
    Ok((input, format!("{}{}", s, t)))
}

fn null(input: &str) -> IResult<&str, Plain> {
    value(
        Plain::Null,
        alt((
            tag("null"),
            tag("Null"),
            tag("NULL"),
            tag("NUL"),
            tag("Nil"),
            tag("nil"),
            tag("None"),
            tag("Nothing"),
        )),
    )(input)
}

fn truth(input: &str) -> IResult<&str, Plain> {
    alt((
        value(
            Plain::Bool(true),
            alt((tag("true"), tag("True"), tag("TRUE"), tag("yes"), tag("Yes"), tag("YES"))),
        ),
        value(
            Plain::Bool(false),
            alt((tag("false"), tag("False"), tag("FALSE"), tag("no"), tag("No"), tag("NO"))),
        ),
    ))(input)
}

fn numeral(input: &str) -> IResult<&str, &str> {
    recognize(many1(terminated(one_of("0123456789"), many0(char('_')))))(input)
}

fn digits(text: &str) -> String {
    text.chars().filter(|&c| c != '_').collect()
}

fn integer(input: &str) -> IResult<&str, Plain> {
    map_res(pair(opt(tag("-")), numeral), |(sign, num): (Option<&str>, &str)| {
        digits(num).parse::<i128>().map(|v| Plain::Int(if sign.is_some() { -v } else { v }))
    })(input)
}

fn decimal(input: &str) -> IResult<&str, Plain> {
    nom::combinator::map(
        alt((
            recognize(tuple((opt(char('-')), char('.'), numeral))),
            recognize(tuple((opt(char('-')), numeral, char('.'), numeral))),
        )),
        |text: &str| Plain::Float(digits(text).parse::<f64>().unwrap()),
    )(input)
}

fn escape(input: &str) -> IResult<&str, &str> {
    alt((
        value("\\", tag("\\")),
        value("\"", tag("\"")),
        value("'", tag("'")),
        value("\n", tag("n")),
        value("\r", tag("r")),
        value("\t", tag("t")),
    ))(input)
}

fn string(input: &str) -> IResult<&str, String> {
    alt((
        value(String::new(), tag("\"\"")),
        delimited(tag("\""), escaped_transform(is_not("\"\\"), '\\', escape), tag("\"")),
        value(String::new(), tag("''")),
        delimited(tag("'"), escaped_transform(is_not("'\\"), '\\', escape), tag("'")),
    ))(input)
}

fn comma(input: &str) -> IResult<&str, ()> {
    value((), tuple((tag(","), blank)))(input)
}

fn array(input: &str) -> IResult<&str, Plain> {
    nom::combinator::map(
        tuple((
            tag("["),
            blank,
            separated_list0(comma, terminated(data, blank)),
            opt(comma),
            tag("]"),
        )),
        |(_, _, items, _, _)| Plain::Array(items),
    )(input)
}

fn dict(input: &str) -> IResult<&str, Plain> {
    let entry = nom::combinator::map(
        tuple((alt((string, bare_key)), blank, tag(":"), blank, data, blank)),
        |(key, _, _, _, v, _)| (key, v),
    );
    nom::combinator::map(
        tuple((tag("{"), blank, separated_list0(comma, entry), opt(comma), tag("}"))),
        |(_, _, entries, _, _)| Plain::Dict(entries),
    )(input)
}

fn data(input: &str) -> IResult<&str, Plain> {
    alt((dict, array, null, truth, nom::combinator::map(string, Plain::Str), decimal, integer))(input)
}

fn first(input: &str) -> Option<Plain> {
    for (at, _) in input.char_indices() {
        if let Ok((_, v)) = data(&input[at..]) {
            return Some(v);
        }
    }
    None
}

fn agree(input: &str) {
    let here = parse_data(input).map(|(rest, v)| (rest, plain(&v)));
    let there = data(input).ok();
    assert_eq!(here, there, "at the start of {:?}", input);
    assert_eq!(parse_fson(input).map(|v| plain(&v)), first(input), "in {:?}", input);
}

#[test]
fn combinators_agree_on_examples() {
    let inputs = [
        "",
        " ",
        "null",
        "NULL",
        "NULx",
        "Nothing much",
        "yes.",
        "NO NO.",
        "This is a NULL.",
        "PI is 3.141",
        "PI is 3.",
        "-.5",
        "-0.0",
        "1_0.2_5_",
        "1_.5",
        "1._5",
        "007.50",
        "0.1000000000000000055511151231257827",
        "123456789012345678901234567890.5",
        "1e5",
        "--1",
        "-",
        "1__2_x",
        "170141183460469231731687303715884105727",
        "170141183460469231731687303715884105728",
        "-170141183460469231731687303715884105728",
        "9999999999999999999999999999999999999999",
        "\"\"",
        "''",
        "\"",
        "'",
        "\"dog\"",
        "\"'\"",
        "'\"'",
        "\"a\\\\b\\\"c\\'d\\n\\r\\t\"",
        "'a\\\\b\\\"c\\'d\\n\\r\\t'",
        "\"a\\bc\"",
        "\"a\\u0041\"",
        "\"abc",
        "\"abc\\",
        "\"abc\\\"",
        "\"\\\"\"",
        "\"\\",
        "'\\''",
        "\"h\u{e9}llo \u{1f600}\" tail",
        "[]",
        "[ ]",
        "[,]",
        "[ , ]",
        "[,,]",
        "[1,,]",
        "[,1]",
        "[1]",
        "[1,]",
        "[1 ,2 , 3 , ]",
        "[1 2]",
        "[1",
        "[1,",
        "[null, 1, []]",
        "[[[1]], [[], [2,],],]",
        "[ // first\n 1 # one\n , ; then\n 2 -- two\n ]",
        "[1 // ]",
        "[1 // \n]",
        "[-1,-.5,--2\n]",
        "{}",
        "{,}",
        "{a:1}",
        "{a:1,}",
        "{a:1,,}",
        "{,a:1}",
        "{a}",
        "{a:}",
        "{a 1}",
        "{1:2}",
        "{x: 42, \"x 2\": {}}",
        "{'': 1, \"a\\nb\": 2, a#b: 3, @c: 4, _: 5}",
        "{#x: 1}",
        "{#x: 1\n}",
        "{b: 1, a: 2, b: 3}",
        "{null: null, true: no, NO: yes}",
        "{\u{e9}t\u{e9}: 1, a\u{663}: 2, \u{4eac}: [3]}",
        "{a\u{a0}:\u{3000}1\u{2028},\u{85}}",
        "{a: [1, {b: [2, {c: 3,},],},],}",
        "\n{\n  \"x\": 42,\n  'y': {},\n  z: [ nil ], // trailing comma!\n}.\n",
        "x = {a: 1}; y = 2",
        "piano",
        "eyes",
        "abc12def",
        "annul",
        "hello world",
        "]}),:;!?",
        "- . -. _ -_",
        "{ [ \" '",
        "\u{4eac}\u{90fd} \u{1f600} 7",
        "// 1\n2",
        "# {a: 1}\n{b: 2}",
    ];
    for input in inputs {
        agree(input);
    }
}

#[test]
fn combinators_agree_on_many_short_texts() {
    let alphabet: Vec<char> =
        "[]{},:\"'\\ntrueNOL0123456789._-#/;\n aA\u{e9}\u{a0}".chars().collect();
    let mut state: u64 = 0x2545_f491_4f6c_dd1d;
    let mut step = move || {
        state ^= state << 13;
        state ^= state >> 7;
        state ^= state << 17;
        state
    };
    for _ in 0..20_000 {
        let len = (step() % 14) as usize;
        let input: String =
            (0..len).map(|_| alphabet[(step() % alphabet.len() as u64) as usize]).collect();
        agree(&input);
    }
}

#[test]
fn combinators_agree_on_many_lists() {
    let pieces = [
        "[", "]", "{", "}", ",", ":", " ", "\n", "1", "-2", "3.5", ".5", "1_0", "null", "NUL",
        "yes", "No", "a", "b1", "'s'", "\"t\"", "''", "// c\n", "# c", "; c\n", "--", "\\", "'",
    ];
    let mut state: u64 = 0x9e37_79b9_7f4a_7c15;
    let mut step = move || {
        state ^= state << 13;
        state ^= state >> 7;
        state ^= state << 17;
        state
    };
    for _ in 0..20_000 {
        let len = (step() % 12) as usize;
        let input: String =
            (0..len).map(|_| pieces[(step() % pieces.len() as u64) as usize]).collect();
        agree(&input);
    }
}
