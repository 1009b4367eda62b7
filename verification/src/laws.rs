//! What holds of the grammar as a whole.

use vstd::prelude::*;
use crate::grammar::{
    array_at, blank_end, bool_at, comma_end, data_at, dict_at, entries_at, entry_at, first_value,
    first_value_from, float_at, int_at, item_at, items_at, key_at, lemma_blank_end,
    lemma_digits_step, null_at, numeral_end, quoted_at, sign_end, str_at, str_body_at,
    without_leading_zeros, digits_between,
};
use crate::json::Value;
use crate::locality::{
    lemma_blank_at_closer, lemma_blank_same, lemma_entries_same, lemma_items_same, same_until,
};
use crate::text::{has_prefix, is_digit, lemma_run_end, word_at, CharClass};

verus! {

/// A word that stands in a text starts with the character found there and ends
/// inside the text.
pub proof fn lemma_word_at(s: Seq<char>, i: int, w: Seq<char>)
    requires
        w.len() > 0,
    ensures
        word_at(s, i, w) matches Some(e) ==> 0 <= i < e <= s.len() && e == i + w.len() && s[i]
            == w[0],
{
    if has_prefix(s, i, w) {
        assert(s.subrange(i, i + w.len())[0] == w[0]);
    }
}

/// The characters with which a value can start.
pub open spec fn may_start_value(c: char) -> bool {
    c == '{' || c == '[' || c == '"' || c == '\'' || c == '-' || c == '.' || is_digit(c) || c
        == 'n' || c == 'N' || c == 't' || c == 'T' || c == 'y' || c == 'Y' || c == 'f' || c == 'F'
}

/// A spelling of null spans at least one character and starts with `n` or `N`.
pub proof fn lemma_null_at(s: Seq<char>, i: int)
    ensures
        null_at(s, i) matches Some((_, e)) ==> 0 <= i < e <= s.len() && (s[i] == 'n' || s[i]
            == 'N'),
{
    reveal_strlit("null");
    reveal_strlit("Null");
    reveal_strlit("NULL");
    reveal_strlit("NUL");
    reveal_strlit("Nil");
    reveal_strlit("nil");
    reveal_strlit("None");
    reveal_strlit("Nothing");
    lemma_word_at(s, i, "null"@);
    lemma_word_at(s, i, "Null"@);
    lemma_word_at(s, i, "NULL"@);
    lemma_word_at(s, i, "NUL"@);
    lemma_word_at(s, i, "Nil"@);
    lemma_word_at(s, i, "nil"@);
    lemma_word_at(s, i, "None"@);
    lemma_word_at(s, i, "Nothing"@);
}

/// A truth value spans at least one character and starts with one of
/// `t`, `T`, `y`, `Y`, `f`, `F`, `n`, `N`.
pub proof fn lemma_bool_at(s: Seq<char>, i: int)
    ensures
        bool_at(s, i) matches Some((_, e)) ==> 0 <= i < e <= s.len() && (s[i] == 't' || s[i] == 'T'
            || s[i] == 'y' || s[i] == 'Y' || s[i] == 'f' || s[i] == 'F' || s[i] == 'n' || s[i]
            == 'N'),
{
    reveal_strlit("true");
    reveal_strlit("True");
    reveal_strlit("TRUE");
    reveal_strlit("yes");
    reveal_strlit("Yes");
    reveal_strlit("YES");
    reveal_strlit("false");
    reveal_strlit("False");
    reveal_strlit("FALSE");
    reveal_strlit("no");
    reveal_strlit("No");
    reveal_strlit("NO");
    lemma_word_at(s, i, "true"@);
    lemma_word_at(s, i, "True"@);
    lemma_word_at(s, i, "TRUE"@);
    lemma_word_at(s, i, "yes"@);
    lemma_word_at(s, i, "Yes"@);
    lemma_word_at(s, i, "YES"@);
    lemma_word_at(s, i, "false"@);
    lemma_word_at(s, i, "False"@);
    lemma_word_at(s, i, "FALSE"@);
    lemma_word_at(s, i, "no"@);
    lemma_word_at(s, i, "No"@);
    lemma_word_at(s, i, "NO"@);
}

/// A numeral spans at least one character and ends inside the text.
pub proof fn lemma_numeral_end(s: Seq<char>, i: int)
    ensures
        numeral_end(s, i) matches Some(e) ==> 0 <= i < e <= s.len() && is_digit(s[i]),
{
    if 0 <= i < s.len() && is_digit(s[i]) {
        lemma_run_end(s, i + 1, CharClass::Numeral);
    }
}

/// A number spans at least one character and starts with a minus sign, a point
/// or a digit.
pub proof fn lemma_number_at(s: Seq<char>, i: int)
    ensures
        float_at(s, i) matches Some((_, e)) ==> 0 <= i < e <= s.len() && (s[i] == '-' || s[i] == '.'
            || is_digit(s[i])),
        int_at(s, i) matches Some((_, e)) ==> 0 <= i < e <= s.len() && (s[i] == '-' || is_digit(
            s[i],
        )),
{
    let k = sign_end(s, i);
    lemma_numeral_end(s, k);
    let m = match numeral_end(s, k) {
        Some(m) => m,
        None => k,
    };
    lemma_numeral_end(s, m + 1);
}

/// The rest of a string ends after its start and inside the text.
pub proof fn lemma_str_body_at(s: Seq<char>, i: int, quote: char)
    ensures
        str_body_at(s, i, quote) matches Some((_, e)) ==> 0 <= i < e <= s.len(),
    decreases s.len() - i,
{
    if 0 <= i < s.len() && s[i] != quote {
        if s[i] == '\\' {
            if i + 1 < s.len() {
                lemma_str_body_at(s, i + 2, quote);
            }
        } else {
            lemma_str_body_at(s, i + 1, quote);
        }
    }
}

/// A string spans at least two characters and starts with a quote.
pub proof fn lemma_quoted_at(s: Seq<char>, i: int)
    ensures
        quoted_at(s, i) matches Some((_, e)) ==> 0 <= i < e <= s.len() && (s[i] == '"' || s[i]
            == '\''),
{
    if 0 <= i < s.len() {
        lemma_str_body_at(s, i + 1, s[i]);
    }
}

/// An item ends after its start and inside the text.
pub proof fn lemma_item_at(s: Seq<char>, i: int)
    ensures
        item_at(s, i) matches Some((_, e)) ==> 0 <= i < e <= s.len(),
{
    match data_at(s, i) {
        Some((_, e)) => {
            lemma_blank_end(s, e);
        },
        None => {},
    }
}

/// A list of items ends at or after its start and inside the text.
pub proof fn lemma_items_at(s: Seq<char>, i: int)
    ensures
        i <= items_at(s, i).1,
        0 <= i <= s.len() ==> items_at(s, i).1 <= s.len(),
        items_at(s, i).0.len() == 0 <==> item_at(s, i) is None,
    decreases s.len() - i,
{
    lemma_item_at(s, i);
    match item_at(s, i) {
        Some((_, e)) => {
            if i < e && 0 <= e < s.len() && s[e] == ',' {
                lemma_blank_end(s, e + 1);
                lemma_items_at(s, blank_end(s, e + 1));
            }
        },
        None => {},
    }
}

/// An entry ends after its start and inside the text.
pub proof fn lemma_entry_at(s: Seq<char>, i: int)
    ensures
        entry_at(s, i) matches Some((_, e)) ==> 0 <= i < e <= s.len(),
{
    match key_at(s, i) {
        Some((_, e)) => {
            let c = blank_end(s, e);
            lemma_blank_end(s, e);
            lemma_blank_end(s, c + 1);
            lemma_item_at(s, blank_end(s, c + 1));
        },
        None => {},
    }
}

/// A list of entries ends at or after its start and inside the text.
pub proof fn lemma_entries_at(s: Seq<char>, i: int)
    ensures
        i <= entries_at(s, i).1,
        0 <= i <= s.len() ==> entries_at(s, i).1 <= s.len(),
        entries_at(s, i).0.len() == 0 <==> entry_at(s, i) is None,
    decreases s.len() - i,
{
    lemma_entry_at(s, i);
    match entry_at(s, i) {
        Some((_, e)) => {
            if i < e && 0 <= e < s.len() && s[e] == ',' {
                lemma_blank_end(s, e + 1);
                lemma_entries_at(s, blank_end(s, e + 1));
            }
        },
        None => {},
    }
}

/// The position after an optional comma is at or after the comma, inside the text.
pub proof fn lemma_comma_end(s: Seq<char>, i: int)
    ensures
        i <= comma_end(s, i),
        0 <= i <= s.len() ==> comma_end(s, i) <= s.len(),
{
    lemma_blank_end(s, i + 1);
}

/// Every value spans at least one character of the text, and its first
/// character is one of those a value can start with.
pub proof fn lemma_data_at(s: Seq<char>, i: int)
    ensures
        data_at(s, i) matches Some((_, e)) ==> 0 <= i < e <= s.len() && may_start_value(s[i]),
        item_at(s, i) == (match data_at(s, i) {
            Some((v, e)) => Some((v, blank_end(s, e))),
            None => None,
        }),
{
    lemma_null_at(s, i);
    lemma_bool_at(s, i);
    lemma_quoted_at(s, i);
    lemma_number_at(s, i);
    if 0 <= i < s.len() {
        lemma_blank_end(s, i + 1);
        let p = blank_end(s, i + 1);
        lemma_items_at(s, p);
        lemma_comma_end(s, items_at(s, p).1);
        lemma_entries_at(s, p);
        lemma_comma_end(s, entries_at(s, p).1);
    }
}

/// Whether `v` is the value recognised at position `k`.
pub open spec fn recognised_at(s: Seq<char>, k: int, v: Value) -> bool {
    match data_at(s, k) {
        Some((w, _)) => w == v,
        None => false,
    }
}

/// Whether no value is recognised at any position from `i` up to `k`.
pub open spec fn nothing_between(s: Seq<char>, i: int, k: int) -> bool {
    forall|m: int| i <= m < k ==> (#[trigger] data_at(s, m)) is None
}

/// No value is found exactly when none is recognised at any position; and a
/// value that is found is recognised at some position before which none is.
pub proof fn lemma_first_value_from(s: Seq<char>, i: int)
    requires
        0 <= i,
    ensures
        first_value_from(s, i) is None <==> nothing_between(s, i, s.len() as int),
        first_value_from(s, i) matches Some(v) ==> exists|k: int|
            i <= k < s.len() && #[trigger] recognised_at(s, k, v) && nothing_between(s, i, k),
    decreases s.len() - i,
{
    if i < s.len() {
        lemma_first_value_from(s, i + 1);
        match data_at(s, i) {
            Some((v, _)) => {
                assert(recognised_at(s, i, v) && nothing_between(s, i, i));
            },
            None => {
                if let Some(v) = first_value_from(s, i + 1) {
                    let k = choose|k: int|
                        i + 1 <= k < s.len() && #[trigger] recognised_at(s, k, v)
                            && nothing_between(s, i + 1, k);
                    assert(recognised_at(s, k, v) && nothing_between(s, i, k));
                }
            },
        }
    }
}

/// The value of a text is the one recognised at the least position at which
/// any value is; a text has none exactly when none is recognised anywhere.
pub proof fn lemma_first_value(s: Seq<char>)
    ensures
        first_value(s) is None <==> nothing_between(s, 0, s.len() as int),
        first_value(s) matches Some(v) ==> exists|k: int|
            0 <= k < s.len() && #[trigger] recognised_at(s, k, v) && nothing_between(s, 0, k),
{
    lemma_first_value_from(s, 0);
}

/// A text in which no value is recognised at any position has no value.
pub proof fn lemma_nothing_recognised(s: Seq<char>)
    requires
        nothing_between(s, 0, s.len() as int),
    ensures
        first_value(s) is None,
{
    lemma_first_value_from(s, 0);
}

/// A text without any character that a value can start with has no value.
pub proof fn lemma_nothing_to_start_with(s: Seq<char>)
    requires
        forall|k: int| 0 <= k < s.len() ==> !may_start_value(#[trigger] s[k]),
    ensures
        first_value(s) is None,
{
    assert forall|k: int| 0 <= k < s.len() implies (#[trigger] data_at(s, k)) is None by {
        lemma_data_at(s, k);
    }
    lemma_first_value_from(s, 0);
}

/// The text with a comma put in before position `q`.
pub open spec fn with_comma_before(s: Seq<char>, q: int) -> Seq<char> {
    s.subrange(0, q) + seq![','] + s.subrange(q, s.len() as int)
}

/// The same value, ending one position later.
pub open spec fn one_later(r: Option<(Value, int)>) -> Option<(Value, int)> {
    match r {
        Some((v, e)) => Some((v, e + 1)),
        None => None,
    }
}

/// An array whose last item reaches the closing bracket at `q` is read as the
/// same array when a comma is put in before that bracket.
pub proof fn lemma_array_with_trailing_comma(s: Seq<char>, i: int, q: int)
    requires
        0 <= i,
        array_at(s, i) matches Some((_, e)) && e == q + 1,
        items_at(s, blank_end(s, i + 1)).1 == q,
    ensures
        array_at(with_comma_before(s, q), i) == one_later(array_at(s, i)),
        data_at(with_comma_before(s, q), i) == one_later(data_at(s, i)),
{
    let t = with_comma_before(s, q);
    let p = blank_end(s, i + 1);
    lemma_blank_end(s, i + 1);
    lemma_items_at(s, p);
    lemma_comma_end(s, q);
    assert(s[q] == ']');
    assert(t[q] == ',');
    assert(t[q + 1] == ']');
    assert(same_until(s, t, q));
    lemma_blank_at_closer(t, q + 1);
    lemma_blank_same(s, t, q, i + 1);
    lemma_items_same(s, t, q, p);
}

/// A dictionary whose last entry reaches the closing bracket at `q` is read as
/// the same dictionary when a comma is put in before that bracket.
pub proof fn lemma_dict_with_trailing_comma(s: Seq<char>, i: int, q: int)
    requires
        0 <= i,
        dict_at(s, i) matches Some((_, e)) && e == q + 1,
        entries_at(s, blank_end(s, i + 1)).1 == q,
    ensures
        dict_at(with_comma_before(s, q), i) == one_later(dict_at(s, i)),
        data_at(with_comma_before(s, q), i) == one_later(data_at(s, i)),
{
    let t = with_comma_before(s, q);
    let p = blank_end(s, i + 1);
    lemma_blank_end(s, i + 1);
    lemma_entries_at(s, p);
    lemma_comma_end(s, q);
    assert(s[q] == '}');
    assert(t[q] == ',');
    assert(t[q + 1] == '}');
    assert(same_until(s, t, q));
    lemma_blank_at_closer(t, q + 1);
    lemma_blank_same(s, t, q, i + 1);
    lemma_entries_same(s, t, q, p);
}

/// A text that starts with an array or a dictionary has the same value with
/// and without a comma before the closing bracket.
pub proof fn lemma_trailing_comma(s: Seq<char>, q: int)
    requires
        (array_at(s, 0) matches Some((_, e)) && e == q + 1 && items_at(s, blank_end(s, 1)).1 == q)
            || (dict_at(s, 0) matches Some((_, e)) && e == q + 1 && entries_at(
            s,
            blank_end(s, 1),
        ).1 == q),
    ensures
        first_value(with_comma_before(s, q)) == first_value(s),
        first_value(s) is Some,
{
    if dict_at(s, 0) matches Some((_, e)) && e == q + 1 && entries_at(s, blank_end(s, 1)).1 == q {
        lemma_dict_with_trailing_comma(s, 0, q);
    } else {
        lemma_array_with_trailing_comma(s, 0, q);
    }
}

/// The digits of a numeral are digits, and there is one at least.
pub proof fn lemma_digits_between(s: Seq<char>, i: int, j: int)
    requires
        0 <= i <= j <= s.len(),
        forall|k: int| i <= k < j ==> CharClass::Numeral.holds(#[trigger] s[k]),
    ensures
        forall|k: int|
            0 <= k < digits_between(s, i, j).len() ==> is_digit(#[trigger] digits_between(s, i, j)[k]),
        i < j && is_digit(s[i]) ==> digits_between(s, i, j).len() > 0,
    decreases j - i,
{
    if i < j {
        lemma_digits_between(s, i, j - 1);
        lemma_digits_step(s, i, j - 1);
        assert(CharClass::Numeral.holds(s[j - 1]));
    } else {
        assert(s.subrange(i, j) =~= Seq::<char>::empty());
    }
}

/// What is left of digits without their leading zeros is digits, and does
/// not start with a zero.
pub proof fn lemma_without_leading_zeros(d: Seq<char>)
    requires
        forall|k: int| 0 <= k < d.len() ==> is_digit(#[trigger] d[k]),
    ensures
        forall|k: int|
            0 <= k < without_leading_zeros(d).len() ==> is_digit(
                #[trigger] without_leading_zeros(d)[k],
            ),
        without_leading_zeros(d).len() > 0 ==> without_leading_zeros(d)[0] != '0',
    decreases d.len(),
{
    if d.len() > 0 && d[0] == '0' {
        assert forall|k: int| 0 <= k < d.drop_first().len() implies is_digit(
            #[trigger] d.drop_first()[k],
        ) by {
            assert(d.drop_first()[k] == d[k + 1]);
        }
        lemma_without_leading_zeros(d.drop_first());
    }
}

/// A decimal number that the grammar recognises is well formed.
pub proof fn lemma_float_at_well_formed(s: Seq<char>, i: int)
    ensures
        float_at(s, i) matches Some((v, _)) ==> v.well_formed(),
{
    let k = sign_end(s, i);
    let m = match numeral_end(s, k) {
        Some(m) => m,
        None => k,
    };
    if float_at(s, i) is Some {
        lemma_numeral_end(s, k);
        lemma_numeral_end(s, m + 1);
        let j = numeral_end(s, m + 1).unwrap();
        lemma_run_end(s, m + 1, CharClass::Numeral);
        lemma_digits_between(s, m + 1, j);
        if numeral_end(s, k) is Some {
            lemma_run_end(s, k, CharClass::Numeral);
        } else {
            assert(s.subrange(k, k) =~= Seq::<char>::empty());
        }
        lemma_digits_between(s, k, m);
        lemma_without_leading_zeros(digits_between(s, k, m));
    }
}

/// Whether every decimal number in every item is well formed.
pub open spec fn items_well_formed(xs: Seq<Value>) -> bool {
    forall|k: int| 0 <= k < xs.len() ==> (#[trigger] xs[k]).well_formed()
}

/// Whether every decimal number in the value of every entry is well formed.
pub open spec fn entries_well_formed(es: Seq<(Seq<char>, Value)>) -> bool {
    forall|k: int| 0 <= k < es.len() ==> (#[trigger] es[k]).1.well_formed()
}

/// Every decimal number in a value that the grammar recognises is well formed.
pub proof fn lemma_data_at_well_formed(s: Seq<char>, i: int)
    ensures
        data_at(s, i) matches Some((v, _)) ==> v.well_formed(),
    decreases s.len() - i, 1nat,
{
    lemma_float_at_well_formed(s, i);
    if dict_at(s, i) is Some {
        lemma_blank_end(s, i + 1);
        lemma_entries_at_well_formed(s, blank_end(s, i + 1));
        let es = entries_at(s, blank_end(s, i + 1)).0;
        assert(entries_well_formed(es));
        assert(Value::Dict(es).well_formed());
    } else if array_at(s, i) is Some {
        lemma_blank_end(s, i + 1);
        lemma_items_at_well_formed(s, blank_end(s, i + 1));
        let xs = items_at(s, blank_end(s, i + 1)).0;
        assert(items_well_formed(xs));
        assert(Value::Array(xs).well_formed());
    } else if null_at(s, i) is Some {
    } else if bool_at(s, i) is Some {
    } else if str_at(s, i) is Some {
    } else if float_at(s, i) is Some {
    } else {
    }
}

/// Every decimal number in the items of a list is well formed.
pub proof fn lemma_items_at_well_formed(s: Seq<char>, i: int)
    ensures
        items_well_formed(items_at(s, i).0),
    decreases s.len() - i, 3nat,
{
    lemma_data_at_well_formed(s, i);
    match item_at(s, i) {
        Some((v, e)) => {
            assert(v.well_formed());
            if i < e && 0 <= e < s.len() && s[e] == ',' {
                lemma_blank_end(s, e + 1);
                lemma_items_at_well_formed(s, blank_end(s, e + 1));
                let rest = items_at(s, blank_end(s, e + 1)).0;
                assert forall|k: int| 0 <= k < (seq![v] + rest).len() implies (#[trigger] (seq![v]
                    + rest)[k]).well_formed() by {
                    if k > 0 {
                        assert((seq![v] + rest)[k] == rest[k - 1]);
                    }
                }
            }
        },
        None => {},
    }
}

/// Every decimal number in the entries of a list is well formed.
pub proof fn lemma_entries_at_well_formed(s: Seq<char>, i: int)
    ensures
        entries_well_formed(entries_at(s, i).0),
    decreases s.len() - i, 3nat,
{
    match key_at(s, i) {
        Some((_, e)) => {
            let c = blank_end(s, e);
            if i < e && 0 <= c < s.len() && s[c] == ':' {
                lemma_blank_end(s, e);
                lemma_blank_end(s, c + 1);
                lemma_data_at_well_formed(s, blank_end(s, c + 1));
            }
        },
        None => {},
    }
    match entry_at(s, i) {
        Some((kv, e)) => {
            assert(kv.1.well_formed());
            if i < e && 0 <= e < s.len() && s[e] == ',' {
                lemma_blank_end(s, e + 1);
                lemma_entries_at_well_formed(s, blank_end(s, e + 1));
                let rest = entries_at(s, blank_end(s, e + 1)).0;
                assert forall|k: int| 0 <= k < (seq![kv] + rest).len() implies (#[trigger] (
                seq![kv] + rest)[k]).1.well_formed() by {
                    if k > 0 {
                        assert((seq![kv] + rest)[k] == rest[k - 1]);
                    }
                }
            }
        },
        None => {},
    }
}

/// The value of a text, if it has one, is well formed.
pub proof fn lemma_first_value_well_formed(s: Seq<char>)
    ensures
        first_value(s) matches Some(v) ==> v.well_formed(),
{
    lemma_first_value(s);
    if let Some(v) = first_value(s) {
        let k = choose|k: int|
            0 <= k < s.len() && #[trigger] recognised_at(s, k, v) && nothing_between(s, 0, k);
        lemma_data_at_well_formed(s, k);
    }
}

} // verus!
