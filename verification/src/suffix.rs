//! A recogniser run on what is left of a text from some position on finds what
//! it finds at that position of the whole text.

use vstd::prelude::*;
use crate::grammar::{
    array_at, blank_end, bool_at, comma_end, comment_mark_at, data_at, dict_at, digits_between,
    entries_at, entry_at, float_at, identifier_at, int_at, item_at, items_at, key_at,
    first_value, first_value_from, lemma_blank_end, lemma_comment_mark_at, null_at, numeral_end,
    quoted_at, sign_end, spaces_end, str_at, str_body_at,
};
use crate::laws::{lemma_entry_at, lemma_item_at, lemma_numeral_end, nothing_between};
use crate::text::{lemma_run_end, run_end, word_at, CharClass};

verus! {

/// The text from position `k` on.
pub open spec fn rest_from(s: Seq<char>, k: int) -> Seq<char> {
    s.subrange(k, s.len() as int)
}

/// What was found, with its end counted from `k` on.
pub open spec fn counted_from<T>(r: Option<(T, int)>, k: int) -> Option<(T, int)> {
    match r {
        Some((v, e)) => Some((v, e - k)),
        None => None,
    }
}

/// An end, counted from `k` on.
pub open spec fn end_counted_from(r: Option<int>, k: int) -> Option<int> {
    match r {
        Some(e) => Some(e - k),
        None => None,
    }
}

/// A run in the rest of the text is the run in the text.
pub proof fn lemma_run_end_suffix(s: Seq<char>, k: int, i: int, class: CharClass)
    requires
        0 <= k <= s.len(),
        0 <= i,
    ensures
        run_end(rest_from(s, k), i, class) == run_end(s, k + i, class) - k,
    decreases s.len() - k - i,
{
    let t = rest_from(s, k);
    if i < t.len() && class.holds(t[i]) {
        lemma_run_end_suffix(s, k, i + 1, class);
    }
}

/// A word stands in the rest of the text where it stands in the text.
pub proof fn lemma_word_at_suffix(s: Seq<char>, k: int, i: int, w: Seq<char>)
    requires
        0 <= k <= s.len(),
        0 <= i,
    ensures
        word_at(rest_from(s, k), i, w) == end_counted_from(word_at(s, k + i, w), k),
{
    let t = rest_from(s, k);
    if i + w.len() <= t.len() {
        assert(t.subrange(i, i + w.len()) =~= s.subrange(k + i, k + i + w.len()));
    }
}

/// A part of the rest of the text is a part of the text.
pub proof fn lemma_subrange_suffix(s: Seq<char>, k: int, a: int, b: int)
    requires
        0 <= k <= s.len(),
        0 <= a <= b <= s.len() - k,
    ensures
        rest_from(s, k).subrange(a, b) == s.subrange(k + a, k + b),
{
    assert(rest_from(s, k).subrange(a, b) =~= s.subrange(k + a, k + b));
}

/// A comment mark stands in the rest of the text where it stands in the text.
pub proof fn lemma_comment_mark_at_suffix(s: Seq<char>, k: int, i: int)
    requires
        0 <= k <= s.len(),
        0 <= i,
    ensures
        comment_mark_at(rest_from(s, k), i) == end_counted_from(comment_mark_at(s, k + i), k),
{
    lemma_word_at_suffix(s, k, i, "//"@);
    lemma_word_at_suffix(s, k, i, "#"@);
    lemma_word_at_suffix(s, k, i, ";"@);
    lemma_word_at_suffix(s, k, i, "--"@);
}

/// Blank in the rest of the text is the blank in the text.
pub proof fn lemma_blank_end_suffix(s: Seq<char>, k: int, i: int)
    requires
        0 <= k <= s.len(),
        0 <= i,
    ensures
        blank_end(rest_from(s, k), i) == blank_end(s, k + i) - k,
    decreases s.len() - k - i,
{
    let t = rest_from(s, k);
    let j = spaces_end(t, i);
    lemma_run_end_suffix(s, k, i, CharClass::Space);
    lemma_run_end(t, i, CharClass::Space);
    lemma_comment_mark_at_suffix(s, k, j);
    lemma_comment_mark_at(t, j);
    match comment_mark_at(t, j) {
        Some(m) => {
            lemma_run_end_suffix(s, k, m, CharClass::LineText);
            lemma_run_end(t, m, CharClass::LineText);
            lemma_blank_end_suffix(s, k, run_end(t, m, CharClass::LineText));
        },
        None => {},
    }
}

/// The words, the numbers and the unquoted keys are recognised in the rest of
/// the text as they are in the text.
pub proof fn lemma_literals_suffix(s: Seq<char>, k: int, i: int)
    requires
        0 <= k <= s.len(),
        0 <= i,
    ensures
        null_at(rest_from(s, k), i) == counted_from(null_at(s, k + i), k),
        bool_at(rest_from(s, k), i) == counted_from(bool_at(s, k + i), k),
        int_at(rest_from(s, k), i) == counted_from(int_at(s, k + i), k),
        float_at(rest_from(s, k), i) == counted_from(float_at(s, k + i), k),
        identifier_at(rest_from(s, k), i) == counted_from(identifier_at(s, k + i), k),
{
    let t = rest_from(s, k);
    lemma_word_at_suffix(s, k, i, "null"@);
    lemma_word_at_suffix(s, k, i, "Null"@);
    lemma_word_at_suffix(s, k, i, "NULL"@);
    lemma_word_at_suffix(s, k, i, "NUL"@);
    lemma_word_at_suffix(s, k, i, "Nil"@);
    lemma_word_at_suffix(s, k, i, "nil"@);
    lemma_word_at_suffix(s, k, i, "None"@);
    lemma_word_at_suffix(s, k, i, "Nothing"@);
    lemma_word_at_suffix(s, k, i, "true"@);
    lemma_word_at_suffix(s, k, i, "True"@);
    lemma_word_at_suffix(s, k, i, "TRUE"@);
    lemma_word_at_suffix(s, k, i, "yes"@);
    lemma_word_at_suffix(s, k, i, "Yes"@);
    lemma_word_at_suffix(s, k, i, "YES"@);
    lemma_word_at_suffix(s, k, i, "false"@);
    lemma_word_at_suffix(s, k, i, "False"@);
    lemma_word_at_suffix(s, k, i, "FALSE"@);
    lemma_word_at_suffix(s, k, i, "no"@);
    lemma_word_at_suffix(s, k, i, "No"@);
    lemma_word_at_suffix(s, k, i, "NO"@);
    lemma_numbers_suffix(s, k, i);
    lemma_run_end_suffix(s, k, i, CharClass::KeyTail);
    lemma_run_end(t, i, CharClass::KeyTail);
    if i < t.len() {
        lemma_subrange_suffix(s, k, i, run_end(t, i, CharClass::KeyTail));
    }
}

/// A numeral ends in the rest of the text where it ends in the text, and its
/// characters are the same.
pub proof fn lemma_numeral_end_suffix(s: Seq<char>, k: int, i: int)
    requires
        0 <= k <= s.len(),
        0 <= i,
    ensures
        numeral_end(rest_from(s, k), i) == end_counted_from(numeral_end(s, k + i), k),
        numeral_end(rest_from(s, k), i) matches Some(e) ==> digits_between(rest_from(s, k), i, e)
            == digits_between(s, k + i, k + e),
{
    let t = rest_from(s, k);
    lemma_run_end_suffix(s, k, i, CharClass::Numeral);
    lemma_numeral_end(t, i);
    if let Some(e) = numeral_end(t, i) {
        lemma_subrange_suffix(s, k, i, e);
    }
}

/// Numbers are recognised in the rest of the text as they are in the text.
pub proof fn lemma_numbers_suffix(s: Seq<char>, k: int, i: int)
    requires
        0 <= k <= s.len(),
        0 <= i,
    ensures
        int_at(rest_from(s, k), i) == counted_from(int_at(s, k + i), k),
        float_at(rest_from(s, k), i) == counted_from(float_at(s, k + i), k),
{
    let t = rest_from(s, k);
    let a = sign_end(t, i);
    assert(sign_end(s, k + i) == k + a);
    lemma_numeral_end_suffix(s, k, a);
    lemma_numeral_end(t, a);
    let m = match numeral_end(t, a) {
        Some(m) => m,
        None => a,
    };
    lemma_numeral_end_suffix(s, k, m + 1);
    if a <= t.len() {
        lemma_subrange_suffix(s, k, a, a);
    }
}

/// The rest of a string is read in the rest of the text as it is in the text.
pub proof fn lemma_str_body_at_suffix(s: Seq<char>, k: int, i: int, quote: char)
    requires
        0 <= k <= s.len(),
        0 <= i,
    ensures
        str_body_at(rest_from(s, k), i, quote) == counted_from(str_body_at(s, k + i, quote), k),
    decreases s.len() - k - i,
{
    let t = rest_from(s, k);
    if i < t.len() && t[i] != quote {
        if t[i] == '\\' {
            if i + 1 < t.len() {
                lemma_str_body_at_suffix(s, k, i + 2, quote);
            }
        } else {
            lemma_str_body_at_suffix(s, k, i + 1, quote);
        }
    }
}

/// Strings and keys are recognised in the rest of the text as they are in
/// the text.
pub proof fn lemma_quoted_at_suffix(s: Seq<char>, k: int, i: int)
    requires
        0 <= k <= s.len(),
        0 <= i,
    ensures
        quoted_at(rest_from(s, k), i) == counted_from(quoted_at(s, k + i), k),
        str_at(rest_from(s, k), i) == counted_from(str_at(s, k + i), k),
        key_at(rest_from(s, k), i) == counted_from(key_at(s, k + i), k),
{
    let t = rest_from(s, k);
    if i < t.len() {
        lemma_str_body_at_suffix(s, k, i + 1, t[i]);
    }
    lemma_literals_suffix(s, k, i);
}

/// The position after an optional comma, in the rest of the text and in the text.
pub proof fn lemma_comma_end_suffix(s: Seq<char>, k: int, i: int)
    requires
        0 <= k <= s.len(),
        0 <= i,
    ensures
        comma_end(rest_from(s, k), i) == comma_end(s, k + i) - k,
{
    lemma_blank_end_suffix(s, k, i + 1);
}

/// A value is recognised at a position of the rest of the text as it is at
/// that position of the text.
pub proof fn lemma_data_at_from(s: Seq<char>, k: int, i: int)
    requires
        0 <= k <= s.len(),
        0 <= i,
    ensures
        data_at(rest_from(s, k), i) == counted_from(data_at(s, k + i), k),
    decreases s.len() - k - i, 1nat,
{
    lemma_dict_at_from(s, k, i);
    lemma_array_at_from(s, k, i);
    lemma_literals_suffix(s, k, i);
    lemma_quoted_at_suffix(s, k, i);
}

/// An item is recognised in the rest of the text as it is in the text.
pub proof fn lemma_item_at_from(s: Seq<char>, k: int, i: int)
    requires
        0 <= k <= s.len(),
        0 <= i,
    ensures
        item_at(rest_from(s, k), i) == counted_from(item_at(s, k + i), k),
    decreases s.len() - k - i, 2nat,
{
    let t = rest_from(s, k);
    lemma_data_at_from(s, k, i);
    match data_at(t, i) {
        Some((_, e)) => {
            if i < e <= t.len() {
                lemma_blank_end_suffix(s, k, e);
            }
        },
        None => {},
    }
}

/// The items of a list are recognised in the rest of the text as they are in
/// the text.
pub proof fn lemma_items_at_from(s: Seq<char>, k: int, i: int)
    requires
        0 <= k <= s.len(),
        0 <= i,
    ensures
        items_at(rest_from(s, k), i) == (items_at(s, k + i).0, items_at(s, k + i).1 - k),
    decreases s.len() - k - i, 3nat,
{
    let t = rest_from(s, k);
    lemma_item_at_from(s, k, i);
    lemma_item_at(t, i);
    match item_at(t, i) {
        Some((_, e)) => {
            if i < e && 0 <= e < t.len() && t[e] == ',' {
                lemma_blank_end_suffix(s, k, e + 1);
                lemma_blank_end(t, e + 1);
                lemma_items_at_from(s, k, blank_end(t, e + 1));
            }
        },
        None => {},
    }
}

/// An array is recognised in the rest of the text as it is in the text.
pub proof fn lemma_array_at_from(s: Seq<char>, k: int, i: int)
    requires
        0 <= k <= s.len(),
        0 <= i,
    ensures
        array_at(rest_from(s, k), i) == counted_from(array_at(s, k + i), k),
    decreases s.len() - k - i, 0nat,
{
    let t = rest_from(s, k);
    if i < t.len() && t[i] == '[' {
        lemma_blank_end_suffix(s, k, i + 1);
        lemma_blank_end(t, i + 1);
        let p = blank_end(t, i + 1);
        lemma_items_at_from(s, k, p);
        crate::laws::lemma_items_at(t, p);
        lemma_comma_end_suffix(s, k, items_at(t, p).1);
        crate::laws::lemma_comma_end(t, items_at(t, p).1);
    }
}

/// An entry is recognised in the rest of the text as it is in the text.
pub proof fn lemma_entry_at_from(s: Seq<char>, k: int, i: int)
    requires
        0 <= k <= s.len(),
        0 <= i,
    ensures
        entry_at(rest_from(s, k), i) == counted_from(entry_at(s, k + i), k),
    decreases s.len() - k - i, 2nat,
{
    let t = rest_from(s, k);
    lemma_quoted_at_suffix(s, k, i);
    match key_at(t, i) {
        Some((_, e)) => {
            if i < e {
                lemma_blank_end_suffix(s, k, e);
                lemma_blank_end(t, e);
                let c = blank_end(t, e);
                if 0 <= c < t.len() && t[c] == ':' {
                    lemma_blank_end_suffix(s, k, c + 1);
                    lemma_blank_end(t, c + 1);
                    lemma_item_at_from(s, k, blank_end(t, c + 1));
                }
            }
        },
        None => {},
    }
}

/// The entries of a list are recognised in the rest of the text as they are
/// in the text.
pub proof fn lemma_entries_at_from(s: Seq<char>, k: int, i: int)
    requires
        0 <= k <= s.len(),
        0 <= i,
    ensures
        entries_at(rest_from(s, k), i) == (entries_at(s, k + i).0, entries_at(s, k + i).1 - k),
    decreases s.len() - k - i, 3nat,
{
    let t = rest_from(s, k);
    lemma_entry_at_from(s, k, i);
    lemma_entry_at(t, i);
    match entry_at(t, i) {
        Some((_, e)) => {
            if i < e && 0 <= e < t.len() && t[e] == ',' {
                lemma_blank_end_suffix(s, k, e + 1);
                lemma_blank_end(t, e + 1);
                lemma_entries_at_from(s, k, blank_end(t, e + 1));
            }
        },
        None => {},
    }
}

/// A dictionary is recognised in the rest of the text as it is in the text.
pub proof fn lemma_dict_at_from(s: Seq<char>, k: int, i: int)
    requires
        0 <= k <= s.len(),
        0 <= i,
    ensures
        dict_at(rest_from(s, k), i) == counted_from(dict_at(s, k + i), k),
    decreases s.len() - k - i, 0nat,
{
    let t = rest_from(s, k);
    if i < t.len() && t[i] == '{' {
        lemma_blank_end_suffix(s, k, i + 1);
        lemma_blank_end(t, i + 1);
        let p = blank_end(t, i + 1);
        lemma_entries_at_from(s, k, p);
        crate::laws::lemma_entries_at(t, p);
        lemma_comma_end_suffix(s, k, entries_at(t, p).1);
        crate::laws::lemma_comma_end(t, entries_at(t, p).1);
    }
}

/// What is recognised at the start of the text from position `k` on is what is
/// recognised at position `k` of the whole text, ending as far from `k`.
pub proof fn lemma_data_at_suffix(s: Seq<char>, k: int)
    requires
        0 <= k <= s.len(),
    ensures
        data_at(s.subrange(k, s.len() as int), 0) == (match data_at(s, k) {
            Some((v, e)) => Some((v, e - k)),
            None => None,
        }),
{
    lemma_data_at_from(s, k, 0);
}

/// The value of a text is what is recognised at the start of what is left from
/// the first position from which anything is recognised at the start.
pub proof fn lemma_first_value_by_suffix(s: Seq<char>, k: int)
    requires
        0 <= k < s.len(),
        forall|m: int| 0 <= m < k ==> (#[trigger] data_at(rest_from(s, m), 0)) is None,
        data_at(rest_from(s, k), 0) is Some,
    ensures
        first_value(s) == Some(data_at(rest_from(s, k), 0).unwrap().0),
{
    assert forall|m: int| 0 <= m < k implies (#[trigger] data_at(s, m)) is None by {
        lemma_data_at_from(s, m, 0);
        assert(data_at(rest_from(s, m), 0) is None);
    }
    lemma_data_at_from(s, k, 0);
    lemma_first_value_after(s, 0, k);
}

/// Where nothing is recognised from `i` up to `k` and something is at `k`, the
/// first value from `i` on is the one at `k`.
pub proof fn lemma_first_value_after(s: Seq<char>, i: int, k: int)
    requires
        0 <= i <= k < s.len(),
        nothing_between(s, i, k),
        data_at(s, k) is Some,
    ensures
        first_value_from(s, i) == Some(data_at(s, k).unwrap().0),
    decreases k - i,
{
    if i < k {
        assert(data_at(s, i) is None);
        lemma_first_value_after(s, i + 1, k);
    }
}

} // verus!
