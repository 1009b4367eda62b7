//! The parser: executable recognisers, each proved to compute the function of
//! the grammar that bears its name, and the scan that finds a value in a text.

use vstd::prelude::*;
use vstd::string::*;
use crate::grammar::{
    array_at, blank_end, bool_at, comma_end, comment_mark_at, data_at, dict_at, digits_between,
    digits_value, entries_at, entry_at, false_at, first_value, first_value_from, float_at,
    identifier_at, int_at, item_at, items_at, key_at, lemma_comment_mark_at, lemma_digits_step,
    lemma_digits_value_grows, lemma_leading_zeros_push, null_at, numeral_end, quoted_at, sign_end,
    spaces_end, str_at, str_body_at, true_at, unescaped, without_leading_zeros,
};
use crate::json::{entries_of, values_of, Decimal, Value, JSON};
use crate::laws::{lemma_first_value, lemma_first_value_well_formed, nothing_between};
use crate::text::{chars_of, digit, lemma_run_end, skip_run, string_of, word_end, CharClass};

verus! {

/// Whether what a recogniser returned is what the grammar says.
pub open spec fn agrees(r: Option<(JSON, usize)>, expected: Option<(Value, int)>) -> bool {
    match r {
        Some((v, e)) => expected == Some((v@, e as int)),
        None => expected is None,
    }
}

/// Whether a recogniser that returned went forward, and not past the end.
pub open spec fn advances<T>(r: Option<(T, usize)>, at: usize, len: usize) -> bool {
    r matches Some((_, e)) ==> at < e <= len
}

/// The end of the white space and comments at `at`.
pub fn skip_blank(text: &[char], at: usize) -> (r: usize)
    ensures
        r == blank_end(text@, at as int),
        at <= r,
        at <= text.len() ==> r <= text.len(),
{
    let mut p: usize = at;
    loop
        invariant
            at <= p,
            at <= text.len() ==> p <= text.len(),
            blank_end(text@, at as int) == blank_end(text@, p as int),
        decreases text.len() - p,
    {
        let j = skip_run(text, p, CharClass::Space);
        proof {
            lemma_run_end(text@, p as int, CharClass::Space);
            lemma_comment_mark_at(text@, j as int);
        }
        match skip_comment_mark(text, j) {
            Some(k) => {
                proof {
                    lemma_run_end(text@, k as int, CharClass::LineText);
                }
                p = skip_run(text, k, CharClass::LineText);
            },
            None => {
                return j;
            },
        }
    }
}

/// The end of a comment mark at `at`.
fn skip_comment_mark(text: &[char], at: usize) -> (r: Option<usize>)
    ensures
        match r {
            Some(e) => comment_mark_at(text@, at as int) == Some(e as int),
            None => comment_mark_at(text@, at as int) is None,
        },
{
    if let Some(e) = word_end(text, at, "//") {
        return Some(e);
    }
    if let Some(e) = word_end(text, at, "#") {
        return Some(e);
    }
    if let Some(e) = word_end(text, at, ";") {
        return Some(e);
    }
    word_end(text, at, "--")
}

/// The characters of the text between two positions.
fn copy_range(text: &[char], from: usize, to: usize) -> (v: Vec<char>)
    requires
        from <= to <= text.len(),
    ensures
        v@ == text@.subrange(from as int, to as int),
{
    let mut v: Vec<char> = Vec::new();
    let mut p: usize = from;
    while p < to
        invariant
            from <= p <= to <= text.len(),
            v@ == text@.subrange(from as int, p as int),
        decreases to - p,
    {
        v.push(text[p]);
        p = p + 1;
    }
    v
}

/// An unquoted key at `at`.
pub fn scan_identifier(text: &[char], at: usize) -> (r: Option<(String, usize)>)
    ensures
        match r {
            Some((name, e)) => identifier_at(text@, at as int) == Some((name@, e as int)),
            None => identifier_at(text@, at as int) is None,
        },
        advances(r, at, text.len()),
{
    if at >= text.len() || !CharClass::KeyHead.has(text[at]) {
        return None;
    }
    let j = skip_run(text, at, CharClass::KeyTail);
    proof {
        lemma_run_end(text@, at as int, CharClass::KeyTail);
    }
    let name = copy_range(text, at, j);
    Some((string_of(&name), j))
}

/// A spelling of null at `at`.
pub fn scan_null(text: &[char], at: usize) -> (r: Option<(JSON, usize)>)
    ensures
        agrees(r, null_at(text@, at as int)),
        advances(r, at, text.len()),
{
    proof {
        reveal_strlit("null");
        reveal_strlit("Null");
        reveal_strlit("NULL");
        reveal_strlit("NUL");
        reveal_strlit("Nil");
        reveal_strlit("nil");
        reveal_strlit("None");
        reveal_strlit("Nothing");
    }
    if let Some(e) = word_end(text, at, "null") {
        return Some((JSON::Null, e));
    }
    if let Some(e) = word_end(text, at, "Null") {
        return Some((JSON::Null, e));
    }
    if let Some(e) = word_end(text, at, "NULL") {
        return Some((JSON::Null, e));
    }
    if let Some(e) = word_end(text, at, "NUL") {
        return Some((JSON::Null, e));
    }
    if let Some(e) = word_end(text, at, "Nil") {
        return Some((JSON::Null, e));
    }
    if let Some(e) = word_end(text, at, "nil") {
        return Some((JSON::Null, e));
    }
    if let Some(e) = word_end(text, at, "None") {
        return Some((JSON::Null, e));
    }
    if let Some(e) = word_end(text, at, "Nothing") {
        return Some((JSON::Null, e));
    }
    None
}

/// The end of a spelling of true at `at`.
fn scan_true(text: &[char], at: usize) -> (r: Option<usize>)
    ensures
        match r {
            Some(e) => true_at(text@, at as int) == Some(e as int),
            None => true_at(text@, at as int) is None,
        },
        r matches Some(e) ==> at < e <= text.len(),
{
    proof {
        reveal_strlit("true");
        reveal_strlit("True");
        reveal_strlit("TRUE");
        reveal_strlit("yes");
        reveal_strlit("Yes");
        reveal_strlit("YES");
    }
    if let Some(e) = word_end(text, at, "true") {
        return Some(e);
    }
    if let Some(e) = word_end(text, at, "True") {
        return Some(e);
    }
    if let Some(e) = word_end(text, at, "TRUE") {
        return Some(e);
    }
    if let Some(e) = word_end(text, at, "yes") {
        return Some(e);
    }
    if let Some(e) = word_end(text, at, "Yes") {
        return Some(e);
    }
    word_end(text, at, "YES")
}

/// The end of a spelling of false at `at`.
fn scan_false(text: &[char], at: usize) -> (r: Option<usize>)
    ensures
        match r {
            Some(e) => false_at(text@, at as int) == Some(e as int),
            None => false_at(text@, at as int) is None,
        },
        r matches Some(e) ==> at < e <= text.len(),
{
    proof {
        reveal_strlit("false");
        reveal_strlit("False");
        reveal_strlit("FALSE");
        reveal_strlit("no");
        reveal_strlit("No");
        reveal_strlit("NO");
    }
    if let Some(e) = word_end(text, at, "false") {
        return Some(e);
    }
    if let Some(e) = word_end(text, at, "False") {
        return Some(e);
    }
    if let Some(e) = word_end(text, at, "FALSE") {
        return Some(e);
    }
    if let Some(e) = word_end(text, at, "no") {
        return Some(e);
    }
    if let Some(e) = word_end(text, at, "No") {
        return Some(e);
    }
    word_end(text, at, "NO")
}

/// A truth value at `at`.
pub fn scan_bool(text: &[char], at: usize) -> (r: Option<(JSON, usize)>)
    ensures
        agrees(r, bool_at(text@, at as int)),
        advances(r, at, text.len()),
{
    if let Some(e) = scan_true(text, at) {
        return Some((JSON::Bool(true), e));
    }
    if let Some(e) = scan_false(text, at) {
        return Some((JSON::Bool(false), e));
    }
    None
}

/// The position after an optional minus sign at `at`.
fn skip_sign(text: &[char], at: usize) -> (r: usize)
    ensures
        r == sign_end(text@, at as int),
{
    if at < text.len() && text[at] == '-' {
        at + 1
    } else {
        at
    }
}

/// The end of a numeral at `at`.
fn skip_numeral(text: &[char], at: usize) -> (r: Option<usize>)
    ensures
        match r {
            Some(e) => numeral_end(text@, at as int) == Some(e as int),
            None => numeral_end(text@, at as int) is None,
        },
        r matches Some(e) ==> at < e <= text.len(),
{
    if at < text.len() && digit(text[at]) {
        proof {
            lemma_run_end(text@, at as int + 1, CharClass::Numeral);
        }
        Some(skip_run(text, at, CharClass::Numeral))
    } else {
        None
    }
}

/// An integer at `at`.
pub fn scan_int(text: &[char], at: usize) -> (r: Option<(JSON, usize)>)
    ensures
        agrees(r, int_at(text@, at as int)),
        advances(r, at, text.len()),
{
    let k = skip_sign(text, at);
    let j = match skip_numeral(text, k) {
        Some(j) => j,
        None => {
            return None;
        },
    };
    proof {
        lemma_run_end(text@, k as int, CharClass::Numeral);
    }
    let mut acc: i128 = 0;
    let mut p: usize = k;
    while p < j
        invariant
            k <= p <= j <= text.len(),
            forall|m: int| k <= m < j ==> CharClass::Numeral.holds(#[trigger] text@[m]),
            0 <= acc,
            acc == digits_value(digits_between(text@, k as int, p as int)),
            k == sign_end(text@, at as int),
            numeral_end(text@, k as int) == Some(j as int),
        decreases j - p,
    {
        let c = text[p];
        proof {
            assert(CharClass::Numeral.holds(text@[p as int]));
            lemma_digits_step(text@, k as int, p as int);
            lemma_digits_value_grows(text@, k as int, p + 1, j as int);
        }
        if c != '_' {
            let d: i128 = (c as u32 - 48) as i128;
            let tens = match acc.checked_mul(10) {
                Some(t) => t,
                None => {
                    return None;
                },
            };
            acc = match tens.checked_add(d) {
                Some(a) => a,
                None => {
                    return None;
                },
            };
        }
        p = p + 1;
    }
    if k > at {
        Some((JSON::Int(-acc), j))
    } else {
        Some((JSON::Int(acc), j))
    }
}

/// The digits of the numeral between two positions.
fn copy_digits(text: &[char], from: usize, to: usize) -> (v: Vec<char>)
    requires
        from <= to <= text.len(),
    ensures
        v@ == digits_between(text@, from as int, to as int),
{
    let mut v: Vec<char> = Vec::new();
    let mut p: usize = from;
    while p < to
        invariant
            from <= p <= to <= text.len(),
            v@ == digits_between(text@, from as int, p as int),
        decreases to - p,
    {
        proof {
            lemma_digits_step(text@, from as int, p as int);
        }
        if text[p] != '_' {
            v.push(text[p]);
        }
        p = p + 1;
    }
    v
}

/// The digits of the numeral between two positions, without leading zeros.
fn copy_whole(text: &[char], from: usize, to: usize) -> (v: Vec<char>)
    requires
        from <= to <= text.len(),
    ensures
        v@ == without_leading_zeros(digits_between(text@, from as int, to as int)),
{
    let mut v: Vec<char> = Vec::new();
    let mut p: usize = from;
    while p < to
        invariant
            from <= p <= to <= text.len(),
            v@ == without_leading_zeros(digits_between(text@, from as int, p as int)),
        decreases to - p,
    {
        proof {
            lemma_digits_step(text@, from as int, p as int);
            lemma_leading_zeros_push(digits_between(text@, from as int, p as int), text@[p as int]);
        }
        let c = text[p];
        if c != '_' && !(c == '0' && v.len() == 0) {
            v.push(c);
        }
        p = p + 1;
    }
    v
}

/// A decimal number at `at`.
pub fn scan_float(text: &[char], at: usize) -> (r: Option<(JSON, usize)>)
    ensures
        agrees(r, float_at(text@, at as int)),
        advances(r, at, text.len()),
{
    let k = skip_sign(text, at);
    let m = match skip_numeral(text, k) {
        Some(m) => m,
        None => k,
    };
    if m >= text.len() || text[m] != '.' {
        return None;
    }
    let j = match skip_numeral(text, m + 1) {
        Some(j) => j,
        None => {
            return None;
        },
    };
    let whole = copy_whole(text, k, m);
    let fraction = copy_digits(text, m + 1, j);
    let d = Decimal { negative: k > at, whole: string_of(&whole), fraction: string_of(&fraction) };
    Some((JSON::Float(d), j))
}

/// The character that a backslash and `c` stand for.
fn unescape(c: char) -> (r: Option<char>)
    ensures
        r == unescaped(c),
{
    if c == '\\' || c == '"' || c == '\'' {
        Some(c)
    } else if c == 'n' {
        Some('\n')
    } else if c == 'r' {
        Some('\r')
    } else if c == 't' {
        Some('\t')
    } else {
        None
    }
}

/// The text of a string literal at `at`, between double or single quotes.
pub fn scan_quoted(text: &[char], at: usize) -> (r: Option<(String, usize)>)
    ensures
        match r {
            Some((t, e)) => quoted_at(text@, at as int) == Some((t@, e as int)),
            None => quoted_at(text@, at as int) is None,
        },
        advances(r, at, text.len()),
{
    if at >= text.len() {
        return None;
    }
    let quote = text[at];
    if quote != '"' && quote != '\'' {
        return None;
    }
    let mut out: Vec<char> = Vec::new();
    let mut p: usize = at + 1;
    loop
        invariant
            at < p <= text.len(),
            quoted_at(text@, at as int) == str_body_at(text@, at + 1, quote),
            str_body_at(text@, at + 1, quote) == (match str_body_at(text@, p as int, quote) {
                Some((t, e)) => Some((out@ + t, e)),
                None => None,
            }),
        decreases text.len() - p,
    {
        if p >= text.len() {
            return None;
        }
        let c = text[p];
        if c == quote {
            proof {
                assert(out@ + Seq::<char>::empty() == out@);
            }
            return Some((string_of(&out), p + 1));
        }
        let ghost before = out@;
        if c == '\\' {
            if p + 1 >= text.len() {
                return None;
            }
            match unescape(text[p + 1]) {
                Some(u) => {
                    out.push(u);
                    proof {
                        assert forall|t: Seq<char>| before + (seq![u] + t) == #[trigger] (out@ + t) by {
                            assert(before + (seq![u] + t) =~= out@ + t);
                        }
                    }
                    p = p + 2;
                },
                None => {
                    return None;
                },
            }
        } else {
            out.push(c);
            proof {
                assert forall|t: Seq<char>| before + (seq![c] + t) == #[trigger] (out@ + t) by {
                    assert(before + (seq![c] + t) =~= out@ + t);
                }
            }
            p = p + 1;
        }
    }
}

/// A string at `at`.
pub fn scan_str(text: &[char], at: usize) -> (r: Option<(JSON, usize)>)
    ensures
        agrees(r, str_at(text@, at as int)),
        advances(r, at, text.len()),
{
    match scan_quoted(text, at) {
        Some((t, e)) => Some((JSON::Str(t), e)),
        None => None,
    }
}

/// The position after an optional comma at `at` and the blank behind it.
fn skip_comma(text: &[char], at: usize) -> (r: usize)
    ensures
        r == comma_end(text@, at as int),
        at <= r,
        at <= text.len() ==> r <= text.len(),
{
    if at < text.len() && text[at] == ',' {
        skip_blank(text, at + 1)
    } else {
        at
    }
}

/// What a list is, once some of it has been read: `done` up to `end`, and
/// whatever follows from where the next item is expected.
pub open spec fn extended<T>(done: Seq<T>, end: int, more: (Seq<T>, int)) -> (Seq<T>, int) {
    if more.0.len() > 0 {
        (done + more.0, more.1)
    } else {
        (done, end)
    }
}

/// Any value at `at`.
pub fn scan_data(text: &[char], at: usize) -> (r: Option<(JSON, usize)>)
    ensures
        agrees(r, data_at(text@, at as int)),
        advances(r, at, text.len()),
    decreases text.len() - at, 1nat,
{
    if let Some(found) = scan_dict(text, at) {
        return Some(found);
    }
    if let Some(found) = scan_array(text, at) {
        return Some(found);
    }
    if let Some(found) = scan_null(text, at) {
        return Some(found);
    }
    if let Some(found) = scan_bool(text, at) {
        return Some(found);
    }
    if let Some(found) = scan_str(text, at) {
        return Some(found);
    }
    if let Some(found) = scan_float(text, at) {
        return Some(found);
    }
    scan_int(text, at)
}

/// A value at `at` and the blank behind it.
pub fn scan_item(text: &[char], at: usize) -> (r: Option<(JSON, usize)>)
    ensures
        agrees(r, item_at(text@, at as int)),
        advances(r, at, text.len()),
    decreases text.len() - at, 2nat,
{
    match scan_data(text, at) {
        Some((v, e)) => Some((v, skip_blank(text, e))),
        None => None,
    }
}

/// The items of a list from `at` on, and the position after the last of them.
pub fn scan_items(text: &[char], at: usize) -> (r: (Vec<JSON>, usize))
    ensures
        (values_of(r.0@), r.1 as int) == items_at(text@, at as int),
        at <= r.1,
        at <= text.len() ==> r.1 <= text.len(),
    decreases text.len() - at, 3nat,
{
    let mut items: Vec<JSON> = Vec::new();
    let mut p: usize = at;
    let mut end: usize = at;
    loop
        invariant
            at <= end <= p,
            at <= text.len() ==> p <= text.len(),
            at > text.len() ==> p == at,
            items_at(text@, at as int) == extended(
                values_of(items@),
                end as int,
                items_at(text@, p as int),
            ),
        decreases text.len() - p,
    {
        match scan_item(text, p) {
            None => {
                return (items, end);
            },
            Some((v, e)) => {
                let ghost before = items@;
                items.push(v);
                proof {
                    assert(items@.drop_last() == before);
                    assert(values_of(before) + seq![items@.last()@] == values_of(items@));
                    let more = items_at(text@, blank_end(text@, e + 1));
                    assert(values_of(before) + (seq![items@.last()@] + more.0) == values_of(
                        items@,
                    ) + more.0);
                }
                if e < text.len() && text[e] == ',' {
                    end = e;
                    p = skip_blank(text, e + 1);
                } else {
                    return (items, e);
                }
            },
        }
    }
}

/// An array at `at`.
pub fn scan_array(text: &[char], at: usize) -> (r: Option<(JSON, usize)>)
    ensures
        agrees(r, array_at(text@, at as int)),
        advances(r, at, text.len()),
    decreases text.len() - at, 0nat,
{
    if at >= text.len() || text[at] != '[' {
        return None;
    }
    let p = skip_blank(text, at + 1);
    let (items, e) = scan_items(text, p);
    let c = skip_comma(text, e);
    if c < text.len() && text[c] == ']' {
        Some((JSON::Array(items), c + 1))
    } else {
        None
    }
}

/// A key of a dictionary at `at`: a string, or else an unquoted key.
pub fn scan_key(text: &[char], at: usize) -> (r: Option<(String, usize)>)
    ensures
        match r {
            Some((key, e)) => key_at(text@, at as int) == Some((key@, e as int)),
            None => key_at(text@, at as int) is None,
        },
        advances(r, at, text.len()),
{
    if let Some(found) = scan_quoted(text, at) {
        return Some(found);
    }
    scan_identifier(text, at)
}

/// An entry of a dictionary at `at`, with the blank behind it.
pub fn scan_entry(text: &[char], at: usize) -> (r: Option<((String, JSON), usize)>)
    ensures
        match r {
            Some((kv, e)) => entry_at(text@, at as int) == Some(((kv.0@, kv.1@), e as int)),
            None => entry_at(text@, at as int) is None,
        },
        advances(r, at, text.len()),
    decreases text.len() - at, 2nat,
{
    let (key, e) = match scan_key(text, at) {
        Some(found) => found,
        None => {
            return None;
        },
    };
    let c = skip_blank(text, e);
    if c >= text.len() || text[c] != ':' {
        return None;
    }
    let b = skip_blank(text, c + 1);
    match scan_item(text, b) {
        Some((v, r)) => Some(((key, v), r)),
        None => None,
    }
}

/// The entries of a list from `at` on, and the position after the last of them.
pub fn scan_entries(text: &[char], at: usize) -> (r: (Vec<(String, JSON)>, usize))
    ensures
        (entries_of(r.0@), r.1 as int) == entries_at(text@, at as int),
        at <= r.1,
        at <= text.len() ==> r.1 <= text.len(),
    decreases text.len() - at, 3nat,
{
    let mut entries: Vec<(String, JSON)> = Vec::new();
    let mut p: usize = at;
    let mut end: usize = at;
    loop
        invariant
            at <= end <= p,
            at <= text.len() ==> p <= text.len(),
            at > text.len() ==> p == at,
            entries_at(text@, at as int) == extended(
                entries_of(entries@),
                end as int,
                entries_at(text@, p as int),
            ),
        decreases text.len() - p,
    {
        match scan_entry(text, p) {
            None => {
                return (entries, end);
            },
            Some((kv, e)) => {
                let ghost before = entries@;
                entries.push(kv);
                proof {
                    assert(entries@.drop_last() == before);
                    let last = (entries@.last().0@, entries@.last().1@);
                    assert(entries_of(before) + seq![last] == entries_of(entries@));
                    let more = entries_at(text@, blank_end(text@, e + 1));
                    assert(entries_of(before) + (seq![last] + more.0) == entries_of(entries@)
                        + more.0);
                }
                if e < text.len() && text[e] == ',' {
                    end = e;
                    p = skip_blank(text, e + 1);
                } else {
                    return (entries, e);
                }
            },
        }
    }
}

/// A dictionary at `at`.
pub fn scan_dict(text: &[char], at: usize) -> (r: Option<(JSON, usize)>)
    ensures
        agrees(r, dict_at(text@, at as int)),
        advances(r, at, text.len()),
    decreases text.len() - at, 0nat,
{
    if at >= text.len() || text[at] != '{' {
        return None;
    }
    let p = skip_blank(text, at + 1);
    let (entries, e) = scan_entries(text, p);
    let c = skip_comma(text, e);
    if c < text.len() && text[c] == '}' {
        Some((JSON::Dict(entries), c + 1))
    } else {
        None
    }
}

/// Whether a recogniser applied to a whole text returned what the grammar says
/// of position 0: the value, and the text that follows it.
pub open spec fn recognised<T: View>(
    input: Seq<char>,
    r: Option<(&str, T)>,
    expected: Option<(T::V, int)>,
) -> bool {
    match expected {
        Some((v, e)) => r matches Some((rest, found)) && found@ == v && rest@ == input.subrange(
            e,
            input.len() as int,
        ),
        None => r is None,
    }
}

/// The first value in the text, whatever precedes and follows it: the one that
/// is recognised at the least position at which any is.
pub fn parse_fson(input: &str) -> (r: Option<JSON>)
    ensures
        match r {
            Some(v) => first_value(input@) == Some(v@),
            None => first_value(input@) is None,
        },
        r is None <==> nothing_between(input@, 0, input@.len() as int),
        r matches Some(v) ==> v@.well_formed(),
{
    proof {
        lemma_first_value(input@);
        lemma_first_value_well_formed(input@);
    }
    let chars = chars_of(input);
    let text = chars.as_slice();
    let mut at: usize = 0;
    while at < text.len()
        invariant
            text@ == input@,
            at <= text.len(),
            first_value(input@) == first_value_from(input@, at as int),
            first_value(input@) matches Some(v) ==> v.well_formed(),
        decreases text.len() - at,
    {
        if let Some((v, _)) = scan_data(text, at) {
            return Some(v);
        }
        at = at + 1;
    }
    None
}

/// Any value at the start of the text, and the text after it.
pub fn parse_data(input: &str) -> (r: Option<(&str, JSON)>)
    ensures
        recognised(input@, r, data_at(input@, 0)),
{
    let chars = chars_of(input);
    match scan_data(chars.as_slice(), 0) {
        Some((v, e)) => Some((input.substring_char(e, chars.len()), v)),
        None => None,
    }
}

/// The white space at the start of the text, and the text after it. Never fails.
pub fn spaces(input: &str) -> (r: Option<(&str, &str)>)
    ensures
        r matches Some((rest, taken)) && taken@ == input@.subrange(0, spaces_end(input@, 0))
            && rest@ == input@.subrange(spaces_end(input@, 0), input@.len() as int),
{
    let chars = chars_of(input);
    let e = skip_run(chars.as_slice(), 0, CharClass::Space);
    proof {
        lemma_run_end(input@, 0, CharClass::Space);
    }
    Some((input.substring_char(e, chars.len()), input.substring_char(0, e)))
}

/// The text after the white space and comments at its start. Never fails.
pub fn commentable_spaces(input: &str) -> (r: Option<(&str, ())>)
    ensures
        r matches Some((rest, _)) && rest@ == input@.subrange(
            blank_end(input@, 0),
            input@.len() as int,
        ),
{
    let chars = chars_of(input);
    let e = skip_blank(chars.as_slice(), 0);
    Some((input.substring_char(e, chars.len()), ()))
}

/// An unquoted key at the start of the text, and the text after it.
pub fn identifier(input: &str) -> (r: Option<(&str, String)>)
    ensures
        recognised(input@, r, identifier_at(input@, 0)),
{
    let chars = chars_of(input);
    match scan_identifier(chars.as_slice(), 0) {
        Some((name, e)) => Some((input.substring_char(e, chars.len()), name)),
        None => None,
    }
}

/// A spelling of null at the start of the text, and the text after it.
pub fn parse_null(input: &str) -> (r: Option<(&str, JSON)>)
    ensures
        recognised(input@, r, null_at(input@, 0)),
{
    let chars = chars_of(input);
    match scan_null(chars.as_slice(), 0) {
        Some((v, e)) => Some((input.substring_char(e, chars.len()), v)),
        None => None,
    }
}

/// A truth value at the start of the text, and the text after it.
pub fn parse_bool(input: &str) -> (r: Option<(&str, JSON)>)
    ensures
        recognised(input@, r, bool_at(input@, 0)),
{
    let chars = chars_of(input);
    match scan_bool(chars.as_slice(), 0) {
        Some((v, e)) => Some((input.substring_char(e, chars.len()), v)),
        None => None,
    }
}

/// An integer at the start of the text, and the text after it.
pub fn parse_int(input: &str) -> (r: Option<(&str, JSON)>)
    ensures
        recognised(input@, r, int_at(input@, 0)),
{
    let chars = chars_of(input);
    match scan_int(chars.as_slice(), 0) {
        Some((v, e)) => Some((input.substring_char(e, chars.len()), v)),
        None => None,
    }
}

/// A decimal number at the start of the text, and the text after it.
pub fn parse_float(input: &str) -> (r: Option<(&str, JSON)>)
    ensures
        recognised(input@, r, float_at(input@, 0)),
{
    let chars = chars_of(input);
    match scan_float(chars.as_slice(), 0) {
        Some((v, e)) => Some((input.substring_char(e, chars.len()), v)),
        None => None,
    }
}

/// A string at the start of the text, and the text after it.
pub fn parse_str(input: &str) -> (r: Option<(&str, JSON)>)
    ensures
        recognised(input@, r, str_at(input@, 0)),
{
    let chars = chars_of(input);
    match scan_str(chars.as_slice(), 0) {
        Some((v, e)) => Some((input.substring_char(e, chars.len()), v)),
        None => None,
    }
}

/// An array at the start of the text, and the text after it.
pub fn parse_array(input: &str) -> (r: Option<(&str, JSON)>)
    ensures
        recognised(input@, r, array_at(input@, 0)),
{
    let chars = chars_of(input);
    match scan_array(chars.as_slice(), 0) {
        Some((v, e)) => Some((input.substring_char(e, chars.len()), v)),
        None => None,
    }
}

/// A dictionary at the start of the text, and the text after it.
pub fn parse_dict(input: &str) -> (r: Option<(&str, JSON)>)
    ensures
        recognised(input@, r, dict_at(input@, 0)),
{
    let chars = chars_of(input);
    match scan_dict(chars.as_slice(), 0) {
        Some((v, e)) => Some((input.substring_char(e, chars.len()), v)),
        None => None,
    }
}

} // verus!
