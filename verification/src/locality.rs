//! What is recognised before a closing character does not depend on what
//! follows it.
//!
//! A closer is a comma, `]` or `}`. No word, number, key or white space holds
//! one, so none of them runs across it; strings and comments may hold one.

use vstd::prelude::*;
use crate::grammar::{
    array_at, blank_end, bool_at, comma_end, comment_mark_at, data_at, dict_at, entries_at,
    entry_at, float_at, identifier_at, int_at, item_at, items_at, key_at, lemma_blank_end,
    lemma_comment_mark_at, null_at, numeral_end, quoted_at, sign_end, spaces_end, str_at,
    str_body_at,
};
use crate::laws::{
    lemma_comma_end, lemma_data_at, lemma_entries_at, lemma_entry_at, lemma_item_at, lemma_items_at,
    lemma_number_at, lemma_numeral_end, lemma_quoted_at, lemma_str_body_at, lemma_word_at,
};
use crate::text::{
    has_prefix, is_digit, lemma_run_end, lemma_run_end_is, run_end, word_at, CharClass,
};

verus! {

/// The characters that close an item: the comma and the closing brackets.
pub open spec fn is_closer(c: char) -> bool {
    c == ',' || c == ']' || c == '}'
}

/// Two texts that are the same before `q`, where each of them holds a closer.
pub open spec fn same_until(s: Seq<char>, t: Seq<char>, q: int) -> bool {
    &&& 0 <= q < s.len()
    &&& q < t.len()
    &&& forall|k: int| 0 <= k < q ==> s[k] == t[k]
    &&& is_closer(s[q])
    &&& is_closer(t[q])
}

/// A word without closers.
pub open spec fn closer_free(w: Seq<char>) -> bool {
    forall|k: int| 0 <= k < w.len() ==> !is_closer(#[trigger] w[k])
}

/// A run of anything but line text stops at a character that is not of its class.
pub proof fn lemma_run_stops(s: Seq<char>, i: int, q: int, class: CharClass)
    requires
        0 <= i <= q < s.len(),
        !class.holds(s[q]),
    ensures
        run_end(s, i, class) <= q,
{
    lemma_run_end(s, i, class);
    if run_end(s, i, class) > q {
        assert(class.holds(s[q]));
    }
}

/// A run that ends by `q` is the same in both texts.
pub proof fn lemma_run_same(s: Seq<char>, t: Seq<char>, q: int, i: int, class: CharClass)
    requires
        same_until(s, t, q),
        0 <= i <= q,
        run_end(s, i, class) <= q,
    ensures
        run_end(t, i, class) == run_end(s, i, class),
{
    let j = run_end(s, i, class);
    lemma_run_end(s, i, class);
    assert forall|k: int| i <= k < j implies class.holds(#[trigger] t[k]) by {
        assert(class.holds(s[k]));
    }
    if j == q {
        assert(!class.holds(s[q]));
    }
    lemma_run_end_is(t, i, j, class);
}

/// A word without closers that stands in one text ends by `q` and stands in
/// the other.
proof fn lemma_word_kept(s: Seq<char>, t: Seq<char>, q: int, i: int, w: Seq<char>)
    requires
        same_until(s, t, q),
        0 <= i <= q,
        closer_free(w),
        has_prefix(s, i, w),
    ensures
        i + w.len() <= q,
        has_prefix(t, i, w),
{
    let n = w.len() as int;
    if i + n > q {
        assert(s.subrange(i, i + n)[q - i] == w[q - i]);
    }
    assert forall|m: int| 0 <= m < n implies t.subrange(i, i + n)[m] == w[m] by {
        assert(s.subrange(i, i + n)[m] == w[m]);
    }
    assert(t.subrange(i, i + n) =~= w);
}

/// A word without closers stands in both texts or in neither, and ends by `q`.
pub proof fn lemma_word_same(s: Seq<char>, t: Seq<char>, q: int, i: int, w: Seq<char>)
    requires
        same_until(s, t, q),
        0 <= i <= q,
        closer_free(w),
    ensures
        word_at(t, i, w) == word_at(s, i, w),
        word_at(s, i, w) matches Some(e) ==> e <= q,
{
    if has_prefix(s, i, w) {
        lemma_word_kept(s, t, q, i, w);
    }
    if has_prefix(t, i, w) {
        lemma_word_kept(t, s, q, i, w);
    }
}

/// None of the words of the grammar holds a closer.
pub proof fn lemma_words_closer_free()
    ensures
        closer_free("//"@),
        closer_free("#"@),
        closer_free(";"@),
        closer_free("--"@),
        closer_free("null"@),
        closer_free("Null"@),
        closer_free("NULL"@),
        closer_free("NUL"@),
        closer_free("Nil"@),
        closer_free("nil"@),
        closer_free("None"@),
        closer_free("Nothing"@),
        closer_free("true"@),
        closer_free("True"@),
        closer_free("TRUE"@),
        closer_free("yes"@),
        closer_free("Yes"@),
        closer_free("YES"@),
        closer_free("false"@),
        closer_free("False"@),
        closer_free("FALSE"@),
        closer_free("no"@),
        closer_free("No"@),
        closer_free("NO"@),
{
    reveal_strlit("//");
    reveal_strlit("#");
    reveal_strlit(";");
    reveal_strlit("--");
    reveal_strlit("null");
    reveal_strlit("Null");
    reveal_strlit("NULL");
    reveal_strlit("NUL");
    reveal_strlit("Nil");
    reveal_strlit("nil");
    reveal_strlit("None");
    reveal_strlit("Nothing");
    reveal_strlit("true");
    reveal_strlit("True");
    reveal_strlit("TRUE");
    reveal_strlit("yes");
    reveal_strlit("Yes");
    reveal_strlit("YES");
    reveal_strlit("false");
    reveal_strlit("False");
    reveal_strlit("FALSE");
    reveal_strlit("no");
    reveal_strlit("No");
    reveal_strlit("NO");
}

/// At a closer there is no blank.
pub proof fn lemma_blank_at_closer(s: Seq<char>, p: int)
    requires
        0 <= p < s.len(),
        is_closer(s[p]),
    ensures
        blank_end(s, p) == p,
        data_at(s, p) is None,
        item_at(s, p) is None,
        entry_at(s, p) is None,
{
    reveal_strlit("//");
    reveal_strlit("#");
    reveal_strlit(";");
    reveal_strlit("--");
    lemma_word_at(s, p, "//"@);
    lemma_word_at(s, p, "#"@);
    lemma_word_at(s, p, ";"@);
    lemma_word_at(s, p, "--"@);
    lemma_data_at(s, p);
    lemma_quoted_at(s, p);
}

/// Blank that ends by `q` is the same in both texts.
pub proof fn lemma_blank_same(s: Seq<char>, t: Seq<char>, q: int, i: int)
    requires
        same_until(s, t, q),
        0 <= i,
        blank_end(s, i) <= q,
    ensures
        blank_end(t, i) == blank_end(s, i),
    decreases s.len() - i,
{
    let j = spaces_end(s, i);
    lemma_run_end(s, i, CharClass::Space);
    lemma_blank_end(s, i);
    lemma_comment_mark_at(s, j);
    lemma_words_closer_free();
    match comment_mark_at(s, j) {
        Some(k) => {
            let e = run_end(s, k, CharClass::LineText);
            lemma_run_end(s, k, CharClass::LineText);
            lemma_blank_end(s, e);
            lemma_run_same(s, t, q, i, CharClass::Space);
            lemma_word_same(s, t, q, j, "//"@);
            lemma_word_same(s, t, q, j, "#"@);
            lemma_word_same(s, t, q, j, ";"@);
            lemma_word_same(s, t, q, j, "--"@);
            lemma_run_same(s, t, q, k, CharClass::LineText);
            lemma_blank_same(s, t, q, e);
        },
        None => {
            lemma_run_same(s, t, q, i, CharClass::Space);
            lemma_word_same(s, t, q, j, "//"@);
            lemma_word_same(s, t, q, j, "#"@);
            lemma_word_same(s, t, q, j, ";"@);
            lemma_word_same(s, t, q, j, "--"@);
        },
    }
}

/// The spellings of null and of the truth values are recognised alike in both
/// texts, and end by `q`.
pub proof fn lemma_words_same(s: Seq<char>, t: Seq<char>, q: int, i: int)
    requires
        same_until(s, t, q),
        0 <= i <= q,
    ensures
        null_at(t, i) == null_at(s, i),
        bool_at(t, i) == bool_at(s, i),
        null_at(s, i) matches Some((_, e)) ==> e <= q,
        bool_at(s, i) matches Some((_, e)) ==> e <= q,
{
    lemma_words_closer_free();
    lemma_word_same(s, t, q, i, "null"@);
    lemma_word_same(s, t, q, i, "Null"@);
    lemma_word_same(s, t, q, i, "NULL"@);
    lemma_word_same(s, t, q, i, "NUL"@);
    lemma_word_same(s, t, q, i, "Nil"@);
    lemma_word_same(s, t, q, i, "nil"@);
    lemma_word_same(s, t, q, i, "None"@);
    lemma_word_same(s, t, q, i, "Nothing"@);
    lemma_word_same(s, t, q, i, "true"@);
    lemma_word_same(s, t, q, i, "True"@);
    lemma_word_same(s, t, q, i, "TRUE"@);
    lemma_word_same(s, t, q, i, "yes"@);
    lemma_word_same(s, t, q, i, "Yes"@);
    lemma_word_same(s, t, q, i, "YES"@);
    lemma_word_same(s, t, q, i, "false"@);
    lemma_word_same(s, t, q, i, "False"@);
    lemma_word_same(s, t, q, i, "FALSE"@);
    lemma_word_same(s, t, q, i, "no"@);
    lemma_word_same(s, t, q, i, "No"@);
    lemma_word_same(s, t, q, i, "NO"@);
}

/// A numeral is recognised alike in both texts, and ends by `q`.
pub proof fn lemma_numeral_same(s: Seq<char>, t: Seq<char>, q: int, i: int)
    requires
        same_until(s, t, q),
        0 <= i <= q,
    ensures
        numeral_end(t, i) == numeral_end(s, i),
        numeral_end(s, i) matches Some(e) ==> i < e <= q && s.subrange(i, e) == t.subrange(i, e),
{
    if i < q && is_digit(s[i]) {
        lemma_run_stops(s, i, q, CharClass::Numeral);
        lemma_run_same(s, t, q, i, CharClass::Numeral);
        lemma_numeral_end(s, i);
        let e = run_end(s, i, CharClass::Numeral);
        assert(s.subrange(i, e) =~= t.subrange(i, e));
    }
}

/// Numbers are recognised alike in both texts, and end by `q`.
pub proof fn lemma_numbers_same(s: Seq<char>, t: Seq<char>, q: int, i: int)
    requires
        same_until(s, t, q),
        0 <= i <= q,
    ensures
        int_at(t, i) == int_at(s, i),
        float_at(t, i) == float_at(s, i),
        int_at(s, i) matches Some((_, e)) ==> e <= q,
        float_at(s, i) matches Some((_, e)) ==> e <= q,
{
    let k = sign_end(s, i);
    assert(sign_end(t, i) == k);
    lemma_numeral_same(s, t, q, k);
    let m = match numeral_end(s, k) {
        Some(m) => m,
        None => k,
    };
    if m < q && s[m] == '.' {
        lemma_numeral_same(s, t, q, m + 1);
    }
    assert(s.subrange(k, k) =~= t.subrange(k, k));
}

/// An unquoted key is recognised alike in both texts, and ends by `q`.
pub proof fn lemma_identifier_same(s: Seq<char>, t: Seq<char>, q: int, i: int)
    requires
        same_until(s, t, q),
        0 <= i <= q,
    ensures
        identifier_at(t, i) == identifier_at(s, i),
        identifier_at(s, i) matches Some((_, e)) ==> e <= q,
{
    if i < q && CharClass::KeyHead.holds(s[i]) {
        lemma_run_stops(s, i, q, CharClass::KeyTail);
        lemma_run_same(s, t, q, i, CharClass::KeyTail);
        let e = run_end(s, i, CharClass::KeyTail);
        lemma_run_end(s, i, CharClass::KeyTail);
        assert(s.subrange(i, e) =~= t.subrange(i, e));
    }
}

/// The rest of a string that ends by `q` is the same in both texts.
pub proof fn lemma_str_body_same(s: Seq<char>, t: Seq<char>, q: int, i: int, quote: char)
    requires
        same_until(s, t, q),
        0 <= i,
        str_body_at(s, i, quote) matches Some((_, e)) && e <= q,
    ensures
        str_body_at(t, i, quote) == str_body_at(s, i, quote),
    decreases s.len() - i,
{
    lemma_str_body_at(s, i, quote);
    if s[i] == quote {
    } else if s[i] == '\\' {
        lemma_str_body_at(s, i + 2, quote);
        lemma_str_body_same(s, t, q, i + 2, quote);
    } else {
        lemma_str_body_at(s, i + 1, quote);
        lemma_str_body_same(s, t, q, i + 1, quote);
    }
}

/// A string that ends by `q` is the same in both texts.
pub proof fn lemma_quoted_same(s: Seq<char>, t: Seq<char>, q: int, i: int)
    requires
        same_until(s, t, q),
        0 <= i,
        quoted_at(s, i) matches Some((_, e)) && e <= q,
    ensures
        quoted_at(t, i) == quoted_at(s, i),
{
    lemma_quoted_at(s, i);
    lemma_str_body_at(s, i + 1, s[i]);
    lemma_str_body_same(s, t, q, i + 1, s[i]);
}

/// A key that ends by `q` is the same in both texts.
pub proof fn lemma_key_same(s: Seq<char>, t: Seq<char>, q: int, i: int)
    requires
        same_until(s, t, q),
        0 <= i,
        key_at(s, i) matches Some((_, e)) && e <= q,
    ensures
        key_at(t, i) == key_at(s, i),
{
    lemma_quoted_at(s, i);
    if quoted_at(s, i) is Some {
        lemma_quoted_same(s, t, q, i);
    } else {
        lemma_run_end(s, i, CharClass::KeyTail);
        lemma_identifier_same(s, t, q, i);
    }
}

/// A value that ends by `q` is the same in both texts.
pub proof fn lemma_data_same(s: Seq<char>, t: Seq<char>, q: int, i: int)
    requires
        same_until(s, t, q),
        0 <= i,
        data_at(s, i) matches Some((_, e)) && e <= q,
    ensures
        data_at(t, i) == data_at(s, i),
    decreases s.len() - i, 1nat,
{
    lemma_data_at(s, i);
    lemma_words_same(s, t, q, i);
    lemma_numbers_same(s, t, q, i);
    crate::laws::lemma_null_at(s, i);
    crate::laws::lemma_bool_at(s, i);
    lemma_quoted_at(s, i);
    lemma_number_at(s, i);
    if dict_at(s, i) is Some {
        lemma_dict_same(s, t, q, i);
    } else if array_at(s, i) is Some {
        lemma_array_same(s, t, q, i);
    } else if null_at(s, i) is Some {
    } else if bool_at(s, i) is Some {
    } else if str_at(s, i) is Some {
        lemma_quoted_same(s, t, q, i);
    } else {
    }
}

/// An item that ends by `q` is the same in both texts.
pub proof fn lemma_item_same(s: Seq<char>, t: Seq<char>, q: int, i: int)
    requires
        same_until(s, t, q),
        0 <= i,
        item_at(s, i) matches Some((_, e)) && e <= q,
    ensures
        item_at(t, i) == item_at(s, i),
    decreases s.len() - i, 2nat,
{
    lemma_data_at(s, i);
    let e = data_at(s, i).unwrap().1;
    lemma_blank_end(s, e);
    lemma_data_same(s, t, q, i);
    lemma_blank_same(s, t, q, e);
    lemma_data_at(t, i);
}

/// A list of items that is closed by `q` is the same in both texts, provided
/// that no item follows where a comma stands at `q` in the other text.
pub proof fn lemma_items_same(s: Seq<char>, t: Seq<char>, q: int, i: int)
    requires
        same_until(s, t, q),
        0 <= i,
        comma_end(s, items_at(s, i).1) <= q,
        is_closer(s[comma_end(s, items_at(s, i).1)]),
        items_at(s, i).1 == q && t[q] == ',' ==> item_at(t, blank_end(t, q + 1)) is None,
    ensures
        items_at(t, i) == items_at(s, i),
    decreases s.len() - i, 3nat,
{
    let r = items_at(s, i).1;
    let c = comma_end(s, r);
    lemma_items_at(s, i);
    lemma_comma_end(s, r);
    lemma_item_at(s, i);
    match item_at(s, i) {
        None => {
            lemma_blank_at_closer(t, i);
        },
        Some((v, e)) => {
            if 0 <= e < s.len() && s[e] == ',' {
                let p = blank_end(s, e + 1);
                lemma_blank_end(s, e + 1);
                lemma_items_at(s, p);
                lemma_comma_end(s, items_at(s, p).1);
                lemma_item_same(s, t, q, i);
                lemma_blank_same(s, t, q, e + 1);
                if items_at(s, p).0.len() > 0 {
                    lemma_items_same(s, t, q, p);
                } else {
                    lemma_blank_at_closer(t, p);
                    lemma_items_at(t, p);
                }
            } else {
                lemma_item_same(s, t, q, i);
                if e == q && t[q] == ',' {
                    lemma_items_at(t, blank_end(t, q + 1));
                }
            }
        },
    }
}

/// An array that ends by `q` is the same in both texts.
pub proof fn lemma_array_same(s: Seq<char>, t: Seq<char>, q: int, i: int)
    requires
        same_until(s, t, q),
        0 <= i,
        array_at(s, i) matches Some((_, e)) && e <= q,
    ensures
        array_at(t, i) == array_at(s, i),
    decreases s.len() - i, 0nat,
{
    let p = blank_end(s, i + 1);
    lemma_blank_end(s, i + 1);
    lemma_items_at(s, p);
    let r = items_at(s, p).1;
    lemma_comma_end(s, r);
    lemma_blank_same(s, t, q, i + 1);
    lemma_items_same(s, t, q, p);
    if s[r] == ',' {
        lemma_blank_same(s, t, q, r + 1);
    }
}

/// An entry that ends by `q` is the same in both texts.
pub proof fn lemma_entry_same(s: Seq<char>, t: Seq<char>, q: int, i: int)
    requires
        same_until(s, t, q),
        0 <= i,
        entry_at(s, i) matches Some((_, e)) && e <= q,
    ensures
        entry_at(t, i) == entry_at(s, i),
    decreases s.len() - i, 2nat,
{
    let e = key_at(s, i).unwrap().1;
    let c = blank_end(s, e);
    let b = blank_end(s, c + 1);
    lemma_blank_end(s, e);
    lemma_blank_end(s, c + 1);
    lemma_item_at(s, b);
    lemma_key_same(s, t, q, i);
    lemma_blank_same(s, t, q, e);
    lemma_blank_same(s, t, q, c + 1);
    lemma_item_same(s, t, q, b);
}

/// A list of entries that is closed by `q` is the same in both texts, provided
/// that no entry follows where a comma stands at `q` in the other text.
pub proof fn lemma_entries_same(s: Seq<char>, t: Seq<char>, q: int, i: int)
    requires
        same_until(s, t, q),
        0 <= i,
        comma_end(s, entries_at(s, i).1) <= q,
        is_closer(s[comma_end(s, entries_at(s, i).1)]),
        entries_at(s, i).1 == q && t[q] == ',' ==> entry_at(t, blank_end(t, q + 1)) is None,
    ensures
        entries_at(t, i) == entries_at(s, i),
    decreases s.len() - i, 3nat,
{
    let r = entries_at(s, i).1;
    let c = comma_end(s, r);
    lemma_entries_at(s, i);
    lemma_comma_end(s, r);
    lemma_entry_at(s, i);
    match entry_at(s, i) {
        None => {
            lemma_blank_at_closer(t, i);
        },
        Some((kv, e)) => {
            if 0 <= e < s.len() && s[e] == ',' {
                let p = blank_end(s, e + 1);
                lemma_blank_end(s, e + 1);
                lemma_entries_at(s, p);
                lemma_comma_end(s, entries_at(s, p).1);
                lemma_entry_same(s, t, q, i);
                lemma_blank_same(s, t, q, e + 1);
                if entries_at(s, p).0.len() > 0 {
                    lemma_entries_same(s, t, q, p);
                } else {
                    lemma_blank_at_closer(t, p);
                    lemma_entries_at(t, p);
                }
            } else {
                lemma_entry_same(s, t, q, i);
                if e == q && t[q] == ',' {
                    lemma_entries_at(t, blank_end(t, q + 1));
                }
            }
        },
    }
}

/// A dictionary that ends by `q` is the same in both texts.
pub proof fn lemma_dict_same(s: Seq<char>, t: Seq<char>, q: int, i: int)
    requires
        same_until(s, t, q),
        0 <= i,
        dict_at(s, i) matches Some((_, e)) && e <= q,
    ensures
        dict_at(t, i) == dict_at(s, i),
    decreases s.len() - i, 0nat,
{
    let p = blank_end(s, i + 1);
    lemma_blank_end(s, i + 1);
    lemma_entries_at(s, p);
    let r = entries_at(s, p).1;
    lemma_comma_end(s, r);
    lemma_blank_same(s, t, q, i + 1);
    lemma_entries_same(s, t, q, p);
    if s[r] == ',' {
        lemma_blank_same(s, t, q, r + 1);
    }
}

} // verus!
