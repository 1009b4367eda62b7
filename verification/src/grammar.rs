//! The grammar, as functions of a text and a position in it.
//!
//! Each recogniser looks at the text from a position on and either fails or
//! yields what it read together with the position after it. Nothing here is
//! executable: the parser is proved to compute exactly these functions.

use vstd::prelude::*;
use crate::json::{DecimalText, Value};
use crate::text::{either, is_digit, lemma_run_end, run_end, word_at, CharClass};

verus! {

/// The end of the white space that starts at `i`.
pub open spec fn spaces_end(s: Seq<char>, i: int) -> int {
    run_end(s, i, CharClass::Space)
}

/// The end of the mark that opens a comment at `i`: `//`, `#`, `;` or `--`.
pub open spec fn comment_mark_at(s: Seq<char>, i: int) -> Option<int> {
    either(
        word_at(s, i, "//"@),
        either(word_at(s, i, "#"@), either(word_at(s, i, ";"@), word_at(s, i, "--"@))),
    )
}

/// The end of the white space and comments that start at `i`. A comment runs
/// from its mark to the end of the line or of the text.
pub open spec fn blank_end(s: Seq<char>, i: int) -> int
    decreases s.len() - i,
{
    let j = spaces_end(s, i);
    match comment_mark_at(s, j) {
        Some(k) => {
            proof {
                lemma_comment_mark_at(s, j);
                lemma_run_end(s, i, CharClass::Space);
                lemma_run_end(s, k, CharClass::LineText);
            }
            blank_end(s, run_end(s, k, CharClass::LineText))
        },
        None => j,
    }
}

/// An unquoted key: a head character, then the longest run of tail characters.
pub open spec fn identifier_at(s: Seq<char>, i: int) -> Option<(Seq<char>, int)> {
    if 0 <= i < s.len() && CharClass::KeyHead.holds(s[i]) {
        let j = run_end(s, i, CharClass::KeyTail);
        Some((s.subrange(i, j), j))
    } else {
        None
    }
}

/// One of the spellings of null.
pub open spec fn null_at(s: Seq<char>, i: int) -> Option<(Value, int)> {
    match either(
        word_at(s, i, "null"@),
        either(
            word_at(s, i, "Null"@),
            either(
                word_at(s, i, "NULL"@),
                either(
                    word_at(s, i, "NUL"@),
                    either(
                        word_at(s, i, "Nil"@),
                        either(
                            word_at(s, i, "nil"@),
                            either(word_at(s, i, "None"@), word_at(s, i, "Nothing"@)),
                        ),
                    ),
                ),
            ),
        ),
    ) {
        Some(e) => Some((Value::Null, e)),
        None => None,
    }
}

/// One of the spellings of true.
pub open spec fn true_at(s: Seq<char>, i: int) -> Option<int> {
    either(
        word_at(s, i, "true"@),
        either(
            word_at(s, i, "True"@),
            either(
                word_at(s, i, "TRUE"@),
                either(
                    word_at(s, i, "yes"@),
                    either(word_at(s, i, "Yes"@), word_at(s, i, "YES"@)),
                ),
            ),
        ),
    )
}

/// One of the spellings of false.
pub open spec fn false_at(s: Seq<char>, i: int) -> Option<int> {
    either(
        word_at(s, i, "false"@),
        either(
            word_at(s, i, "False"@),
            either(
                word_at(s, i, "FALSE"@),
                either(
                    word_at(s, i, "no"@),
                    either(word_at(s, i, "No"@), word_at(s, i, "NO"@)),
                ),
            ),
        ),
    )
}

/// A truth value: the spellings of true are tried before those of false.
pub open spec fn bool_at(s: Seq<char>, i: int) -> Option<(Value, int)> {
    match true_at(s, i) {
        Some(e) => Some((Value::Bool(true), e)),
        None => match false_at(s, i) {
            Some(e) => Some((Value::Bool(false), e)),
            None => None,
        },
    }
}

/// The end of a numeral: a digit, then the longest run of digits and `_`.
pub open spec fn numeral_end(s: Seq<char>, i: int) -> Option<int> {
    if 0 <= i < s.len() && is_digit(s[i]) {
        Some(run_end(s, i, CharClass::Numeral))
    } else {
        None
    }
}

/// A text without its separators `_`.
pub open spec fn without_separators(t: Seq<char>) -> Seq<char>
    decreases t.len(),
{
    if t.len() == 0 {
        Seq::empty()
    } else if t.last() == '_' {
        without_separators(t.drop_last())
    } else {
        without_separators(t.drop_last()).push(t.last())
    }
}

/// A text without the zeros it starts with.
pub open spec fn without_leading_zeros(t: Seq<char>) -> Seq<char>
    decreases t.len(),
{
    if t.len() > 0 && t[0] == '0' {
        without_leading_zeros(t.drop_first())
    } else {
        t
    }
}

/// The digits of the numeral between `i` and `j`.
pub open spec fn digits_between(s: Seq<char>, i: int, j: int) -> Seq<char> {
    without_separators(s.subrange(i, j))
}

/// The number that a sequence of decimal digits denotes.
pub open spec fn digits_value(d: Seq<char>) -> int
    decreases d.len(),
{
    if d.len() == 0 {
        0
    } else {
        digits_value(d.drop_last()) * 10 + (d.last() as int - '0' as int)
    }
}

/// The position after an optional minus sign at `i`.
pub open spec fn sign_end(s: Seq<char>, i: int) -> int {
    if 0 <= i < s.len() && s[i] == '-' {
        i + 1
    } else {
        i
    }
}

/// The largest magnitude an integer literal may have.
pub open spec fn max_magnitude() -> int {
    0x7fff_ffff_ffff_ffff_ffff_ffff_ffff_ffff
}

/// An integer: an optional minus sign and a numeral whose magnitude fits.
pub open spec fn int_at(s: Seq<char>, i: int) -> Option<(Value, int)> {
    let k = sign_end(s, i);
    match numeral_end(s, k) {
        Some(j) => {
            let m = digits_value(digits_between(s, k, j));
            if m <= max_magnitude() {
                Some((
                    Value::Int(
                        if k > i {
                            -m
                        } else {
                            m
                        },
                    ),
                    j,
                ))
            } else {
                None
            }
        },
        None => None,
    }
}

/// A decimal number: an optional minus sign, then either a point and a numeral
/// or a numeral, a point and a numeral.
pub open spec fn float_at(s: Seq<char>, i: int) -> Option<(Value, int)> {
    let k = sign_end(s, i);
    let m = match numeral_end(s, k) {
        Some(m) => m,
        None => k,
    };
    if 0 <= m < s.len() && s[m] == '.' {
        match numeral_end(s, m + 1) {
            Some(j) => Some((
                Value::Float(
                    DecimalText {
                        negative: k > i,
                        whole: without_leading_zeros(digits_between(s, k, m)),
                        fraction: digits_between(s, m + 1, j),
                    },
                ),
                j,
            )),
            None => None,
        }
    } else {
        None
    }
}

/// The character that a backslash and `c` stand for inside a string.
pub open spec fn unescaped(c: char) -> Option<char> {
    if c == '\\' || c == '"' || c == '\'' {
        Some(c)
    } else if c == 'n' {
        Some('\n')
    } else if c == 'r' {
        Some('\r')
    } else if c == 't' {
        Some('\t')
    } else {
        None
    }
}

/// The rest of a string from `i` up to its closing quote: the text it denotes
/// and the position after the quote.
pub open spec fn str_body_at(s: Seq<char>, i: int, quote: char) -> Option<(Seq<char>, int)>
    decreases s.len() - i,
{
    if !(0 <= i < s.len()) {
        None
    } else if s[i] == quote {
        Some((Seq::empty(), i + 1))
    } else if s[i] == '\\' {
        if i + 1 < s.len() && unescaped(s[i + 1]) is Some {
            match str_body_at(s, i + 2, quote) {
                Some((t, e)) => Some((seq![unescaped(s[i + 1])->0] + t, e)),
                None => None,
            }
        } else {
            None
        }
    } else {
        match str_body_at(s, i + 1, quote) {
            Some((t, e)) => Some((seq![s[i]] + t, e)),
            None => None,
        }
    }
}

/// The text of a string between double or between single quotes.
pub open spec fn quoted_at(s: Seq<char>, i: int) -> Option<(Seq<char>, int)> {
    if 0 <= i < s.len() && (s[i] == '"' || s[i] == '\'') {
        str_body_at(s, i + 1, s[i])
    } else {
        None
    }
}

/// A string.
pub open spec fn str_at(s: Seq<char>, i: int) -> Option<(Value, int)> {
    match quoted_at(s, i) {
        Some((t, e)) => Some((Value::Str(t), e)),
        None => None,
    }
}

/// A key of a dictionary: a string, or else an unquoted key.
pub open spec fn key_at(s: Seq<char>, i: int) -> Option<(Seq<char>, int)> {
    either(quoted_at(s, i), identifier_at(s, i))
}

/// The position after an optional comma and the blank behind it.
pub open spec fn comma_end(s: Seq<char>, i: int) -> int {
    if 0 <= i < s.len() && s[i] == ',' {
        blank_end(s, i + 1)
    } else {
        i
    }
}

/// Any value: a dictionary, an array, null, a truth value, a string, a decimal
/// number or an integer, whichever is recognised first in this order.
pub open spec fn data_at(s: Seq<char>, i: int) -> Option<(Value, int)>
    decreases s.len() - i, 1nat,
{
    either(
        dict_at(s, i),
        either(
            array_at(s, i),
            either(
                null_at(s, i),
                either(bool_at(s, i), either(str_at(s, i), either(float_at(s, i), int_at(s, i)))),
            ),
        ),
    )
}

/// An item of an array: a value and the blank behind it. (Every value spans at
/// least one character; the comparison serves the termination argument.)
pub open spec fn item_at(s: Seq<char>, i: int) -> Option<(Value, int)>
    decreases s.len() - i, 2nat,
{
    match data_at(s, i) {
        Some((v, e)) => if i < e <= s.len() {
            Some((v, blank_end(s, e)))
        } else {
            None
        },
        None => None,
    }
}

/// The items from `i` on, where a further item is expected: as many as follow
/// one another with a comma and blank between, and the position after the last.
/// A comma that no item follows is not passed.
pub open spec fn items_at(s: Seq<char>, i: int) -> (Seq<Value>, int)
    decreases s.len() - i, 3nat,
{
    match item_at(s, i) {
        Some((v, e)) => if i < e && 0 <= e < s.len() && s[e] == ',' {
            proof {
                lemma_blank_end(s, e + 1);
            }
            let (rest, r) = items_at(s, blank_end(s, e + 1));
            if rest.len() > 0 {
                (seq![v] + rest, r)
            } else {
                (seq![v], e)
            }
        } else {
            (seq![v], e)
        },
        None => (Seq::empty(), i),
    }
}

/// An array: `[`, blank, items, an optional comma with blank, `]`.
pub open spec fn array_at(s: Seq<char>, i: int) -> Option<(Value, int)>
    decreases s.len() - i, 0nat,
{
    if 0 <= i < s.len() && s[i] == '[' {
        proof {
            lemma_blank_end(s, i + 1);
        }
        let (items, e) = items_at(s, blank_end(s, i + 1));
        let c = comma_end(s, e);
        if 0 <= c < s.len() && s[c] == ']' {
            Some((Value::Array(items), c + 1))
        } else {
            None
        }
    } else {
        None
    }
}

/// An entry of a dictionary: a key, blank, `:`, blank, a value, blank.
pub open spec fn entry_at(s: Seq<char>, i: int) -> Option<((Seq<char>, Value), int)>
    decreases s.len() - i, 2nat,
{
    match key_at(s, i) {
        Some((key, e)) => {
            let c = blank_end(s, e);
            if i < e && 0 <= c < s.len() && s[c] == ':' {
                proof {
                    lemma_blank_end(s, e);
                    lemma_blank_end(s, c + 1);
                }
                match item_at(s, blank_end(s, c + 1)) {
                    Some((v, r)) => Some(((key, v), r)),
                    None => None,
                }
            } else {
                None
            }
        },
        None => None,
    }
}

/// The entries from `i` on, as `items_at` gives the items.
pub open spec fn entries_at(s: Seq<char>, i: int) -> (Seq<(Seq<char>, Value)>, int)
    decreases s.len() - i, 3nat,
{
    match entry_at(s, i) {
        Some((kv, e)) => if i < e && 0 <= e < s.len() && s[e] == ',' {
            proof {
                lemma_blank_end(s, e + 1);
            }
            let (rest, r) = entries_at(s, blank_end(s, e + 1));
            if rest.len() > 0 {
                (seq![kv] + rest, r)
            } else {
                (seq![kv], e)
            }
        } else {
            (seq![kv], e)
        },
        None => (Seq::empty(), i),
    }
}

/// A dictionary: `{`, blank, entries, an optional comma with blank, `}`.
pub open spec fn dict_at(s: Seq<char>, i: int) -> Option<(Value, int)>
    decreases s.len() - i, 0nat,
{
    if 0 <= i < s.len() && s[i] == '{' {
        proof {
            lemma_blank_end(s, i + 1);
        }
        let (entries, e) = entries_at(s, blank_end(s, i + 1));
        let c = comma_end(s, e);
        if 0 <= c < s.len() && s[c] == '}' {
            Some((Value::Dict(entries), c + 1))
        } else {
            None
        }
    } else {
        None
    }
}

/// The first value that is recognised at `i` or at a later position.
pub open spec fn first_value_from(s: Seq<char>, i: int) -> Option<Value>
    decreases s.len() - i,
{
    if i >= s.len() {
        None
    } else {
        match data_at(s, i) {
            Some((v, _)) => Some(v),
            None => first_value_from(s, i + 1),
        }
    }
}

/// The value of a text: the one recognised at the least position at which
/// any is, whatever precedes and follows it.
pub open spec fn first_value(s: Seq<char>) -> Option<Value> {
    first_value_from(s, 0)
}

/// A comment mark spans one or two characters of the text.
pub proof fn lemma_comment_mark_at(s: Seq<char>, i: int)
    ensures
        comment_mark_at(s, i) matches Some(k) ==> 0 <= i < k <= i + 2 && k <= s.len(),
{
    reveal_strlit("//");
    reveal_strlit("#");
    reveal_strlit(";");
    reveal_strlit("--");
}

/// Blank ends at or after its start, and inside the text.
pub proof fn lemma_blank_end(s: Seq<char>, i: int)
    ensures
        i <= blank_end(s, i),
        0 <= i <= s.len() ==> blank_end(s, i) <= s.len(),
    decreases s.len() - i,
{
    let j = spaces_end(s, i);
    lemma_run_end(s, i, CharClass::Space);
    match comment_mark_at(s, j) {
        Some(k) => {
            lemma_comment_mark_at(s, j);
            lemma_run_end(s, k, CharClass::LineText);
            lemma_blank_end(s, run_end(s, k, CharClass::LineText));
        },
        None => {},
    }
}

/// The number read from a numeral is never negative, and reading one
/// character further never lowers it.
pub proof fn lemma_digits_value_grows(s: Seq<char>, i: int, p: int, j: int)
    requires
        0 <= i <= p <= j <= s.len(),
        forall|k: int| i <= k < j ==> CharClass::Numeral.holds(#[trigger] s[k]),
    ensures
        0 <= digits_value(digits_between(s, i, p)) <= digits_value(digits_between(s, i, j)),
    decreases j - i,
{
    if i < j {
        lemma_digits_step(s, i, j - 1);
        assert(CharClass::Numeral.holds(s[j - 1]));
        if p < j {
            lemma_digits_value_grows(s, i, p, j - 1);
        } else {
            lemma_digits_value_grows(s, i, p - 1, j - 1);
        }
    } else {
        assert(s.subrange(i, j) =~= Seq::<char>::empty());
    }
}

/// What one more character adds to the digits of a numeral and to their value.
pub proof fn lemma_digits_step(s: Seq<char>, i: int, p: int)
    requires
        0 <= i <= p < s.len(),
    ensures
        s[p] == '_' ==> digits_between(s, i, p + 1) == digits_between(s, i, p),
        s[p] != '_' ==> digits_between(s, i, p + 1) == digits_between(s, i, p).push(s[p]),
        s[p] != '_' ==> digits_value(digits_between(s, i, p + 1)) == digits_value(
            digits_between(s, i, p),
        ) * 10 + (s[p] as int - '0' as int),
{
    assert(s.subrange(i, p + 1).drop_last() == s.subrange(i, p));
    assert(s.subrange(i, p + 1).last() == s[p]);
    if s[p] != '_' {
        let d = digits_between(s, i, p);
        assert(d.push(s[p]).drop_last() == d);
        assert(d.push(s[p]).last() == s[p]);
    }
}

/// Leading zeros, read from the left: a zero after nothing but zeros leaves
/// nothing; any other character is kept.
pub proof fn lemma_leading_zeros_push(d: Seq<char>, c: char)
    ensures
        without_leading_zeros(d.push(c)) == if without_leading_zeros(d).len() == 0 && c == '0' {
            Seq::<char>::empty()
        } else {
            without_leading_zeros(d).push(c)
        },
    decreases d.len(),
{
    if d.len() > 0 && d[0] == '0' {
        assert(d.push(c).drop_first() == d.drop_first().push(c));
        lemma_leading_zeros_push(d.drop_first(), c);
    } else if d.len() == 0 {
        assert(d.push(c).drop_first() == Seq::<char>::empty());
        assert(without_leading_zeros(Seq::<char>::empty()) == Seq::<char>::empty());
    } else {
        assert(d.push(c)[0] == d[0]);
    }
}

} // verus!
