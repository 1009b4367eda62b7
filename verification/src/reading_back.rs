//! The canonical text of a value, read by the grammar, gives the value back.

use vstd::prelude::*;
use crate::grammar::{
    blank_end, data_at, digits_between, digits_value, entries_at, entry_at, first_value, items_at,
    max_magnitude, numeral_end, sign_end, str_body_at, without_leading_zeros, without_separators,
};
use crate::json::{nat_text, render, render_entries, render_entry, render_items, DecimalText, Value};
use crate::laws::{lemma_bool_at, lemma_data_at, lemma_null_at, lemma_word_at};
use crate::locality::is_closer;
use crate::text::{
    escaped, escaped_char, has_prefix, is_digit, is_space, lemma_run_end_is, run_end, CharClass,
};

verus! {

/// Whether the text ends at `e` or holds a closer there.
pub open spec fn closed_at(s: Seq<char>, e: int) -> bool {
    e == s.len() || (0 <= e < s.len() && is_closer(s[e]))
}

/// A text that stands at `i` consists of what stands there first and what
/// stands behind that.
pub proof fn lemma_prefix_split(s: Seq<char>, i: int, a: Seq<char>, b: Seq<char>)
    requires
        has_prefix(s, i, a + b),
    ensures
        has_prefix(s, i, a),
        has_prefix(s, i + a.len(), b),
{
    let n = (a + b).len() as int;
    assert(s.subrange(i, i + a.len()) =~= a) by {
        assert forall|k: int| 0 <= k < a.len() implies s.subrange(i, i + a.len())[k] == a[k] by {
            assert(s.subrange(i, i + n)[k] == (a + b)[k]);
        }
    }
    assert(s.subrange(i + a.len(), i + a.len() + b.len()) =~= b) by {
        assert forall|k: int| 0 <= k < b.len() implies s.subrange(
            i + a.len(),
            i + a.len() + b.len(),
        )[k] == b[k] by {
            assert(s.subrange(i, i + n)[a.len() + k] == (a + b)[a.len() + k]);
        }
    }
}

/// The character at a place inside a text that stands at `i`.
pub proof fn lemma_prefix_char(s: Seq<char>, i: int, a: Seq<char>, k: int)
    requires
        has_prefix(s, i, a),
        0 <= k < a.len(),
    ensures
        i + k < s.len(),
        s[i + k] == a[k],
{
    assert(s.subrange(i, i + a.len())[k] == a[k]);
}

/// A run is as long as a text of its class that stands there, if no
/// character of the class follows.
pub proof fn lemma_run_over(s: Seq<char>, i: int, d: Seq<char>, class: CharClass)
    requires
        has_prefix(s, i, d),
        forall|k: int| 0 <= k < d.len() ==> class.holds(#[trigger] d[k]),
        i + d.len() < s.len() ==> !class.holds(s[i + d.len()]),
    ensures
        run_end(s, i, class) == i + d.len(),
{
    assert forall|k: int| i <= k < i + d.len() implies class.holds(#[trigger] s[k]) by {
        lemma_prefix_char(s, i, d, k - i);
        assert(class.holds(d[k - i]));
    }
    lemma_run_end_is(s, i, i + d.len(), class);
}

/// There is no blank at a character that is neither white space nor the start
/// of a comment mark.
pub proof fn lemma_no_blank_at(s: Seq<char>, p: int)
    requires
        0 <= p,
        p < s.len() ==> !is_space(s[p]) && s[p] != '/' && s[p] != '#' && s[p] != ';' && (s[p] == '-'
            ==> p + 1 < s.len() && s[p + 1] != '-'),
    ensures
        blank_end(s, p) == p,
{
    reveal_strlit("//");
    reveal_strlit("#");
    reveal_strlit(";");
    reveal_strlit("--");
    lemma_word_at(s, p, "//"@);
    lemma_word_at(s, p, "#"@);
    lemma_word_at(s, p, ";"@);
    lemma_word_at(s, p, "--"@);
    if has_prefix(s, p, "--"@) {
        lemma_prefix_char(s, p, "--"@, 1);
    }
}

/// The digits of a natural number: at least one, digits all, and their value is
/// the number.
pub proof fn lemma_nat_text(n: nat)
    ensures
        nat_text(n).len() > 0,
        forall|k: int| 0 <= k < nat_text(n).len() ==> is_digit(#[trigger] nat_text(n)[k]),
        digits_value(nat_text(n)) == n,
    decreases n,
{
    if n < 10 {
        assert(nat_text(n).drop_last() =~= Seq::<char>::empty());
        assert(digits_value(Seq::<char>::empty()) == 0);
    } else {
        lemma_nat_text(n / 10);
        assert(nat_text(n).drop_last() =~= nat_text(n / 10));
    }
}

/// A text without separators is left as it is.
pub proof fn lemma_no_separators(d: Seq<char>)
    requires
        forall|k: int| 0 <= k < d.len() ==> #[trigger] d[k] != '_',
    ensures
        without_separators(d) == d,
    decreases d.len(),
{
    if d.len() > 0 {
        lemma_no_separators(d.drop_last());
        assert(d.drop_last().push(d.last()) =~= d);
    }
}

/// The escaped text, from the front: the first character escaped, then the rest.
pub proof fn lemma_escaped_front(t: Seq<char>)
    requires
        t.len() > 0,
    ensures
        escaped(t) == escaped_char(t[0]) + escaped(t.drop_first()),
    decreases t.len(),
{
    if t.len() == 1 {
        assert(t.drop_last() =~= Seq::<char>::empty());
        assert(t.drop_first() =~= Seq::<char>::empty());
        assert(escaped(Seq::<char>::empty()) =~= Seq::<char>::empty());
        assert(escaped(t) =~= escaped_char(t[0]) + escaped(t.drop_first()));
    } else {
        lemma_escaped_front(t.drop_last());
        assert(t.drop_last().drop_first() =~= t.drop_first().drop_last());
        assert(t.drop_first().last() == t.last());
        assert(escaped(t) =~= escaped_char(t[0]) + escaped(t.drop_first()));
    }
}

/// The characters that the grammar reads back from their escaped form: all
/// but the controls below the space other than tab, line feed and carriage
/// return.
pub open spec fn is_plain_char(c: char) -> bool {
    (c as u32) >= 32 || c == '\t' || c == '\n' || c == '\r'
}

/// A text of plain characters.
pub open spec fn is_plain_text(t: Seq<char>) -> bool {
    forall|k: int| 0 <= k < t.len() ==> is_plain_char(#[trigger] t[k])
}

/// The escaped form of a plain text and a double quote behind it are read as
/// the rest of a string that holds the text.
pub proof fn lemma_escaped_body(s: Seq<char>, p: int, t: Seq<char>)
    requires
        0 <= p,
        has_prefix(s, p, escaped(t) + seq!['"']),
        is_plain_text(t),
    ensures
        str_body_at(s, p, '"') == Some((t, p + escaped(t).len() + 1)),
    decreases t.len(),
{
    if t.len() == 0 {
        assert(escaped(t) + seq!['"'] =~= seq!['"']);
        lemma_prefix_char(s, p, seq!['"'], 0);
    } else {
        let c = t[0];
        let rest = t.drop_first();
        let ec = escaped_char(c);
        lemma_escaped_front(t);
        assert(escaped(t) + seq!['"'] =~= ec + (escaped(rest) + seq!['"']));
        lemma_prefix_split(s, p, ec, escaped(rest) + seq!['"']);
        assert(is_plain_char(t[0]));
        assert(is_plain_text(rest)) by {
            assert forall|k: int| 0 <= k < rest.len() implies is_plain_char(#[trigger] rest[k]) by {
                assert(rest[k] == t[k + 1]);
            }
        }
        lemma_escaped_body(s, p + ec.len(), rest);
        lemma_prefix_char(s, p, ec, 0);
        if ec.len() > 1 {
            lemma_prefix_char(s, p, ec, 1);
        }
        assert(seq![c] + rest =~= t);
    }
}

/// The values whose canonical text the grammar reads back: integers within
/// the magnitude that a literal may have, well-formed decimal numbers, strings
/// and keys of plain characters, and arrays and dictionaries of such.
pub open spec fn readable(v: Value) -> bool
    decreases v,
{
    match v {
        Value::Null => true,
        Value::Bool(_) => true,
        Value::Int(x) => -max_magnitude() <= x <= max_magnitude(),
        Value::Float(d) => d.well_formed(),
        Value::Str(t) => is_plain_text(t),
        Value::Array(xs) => forall|k: int| 0 <= k < xs.len() ==> readable(#[trigger] xs[k]),
        Value::Dict(es) => forall|k: int|
            0 <= k < es.len() ==> is_plain_text((#[trigger] es[k]).0) && readable(es[k].1),
    }
}

/// The canonical text of a readable value starts with a character that is
/// neither white space nor a closer nor the start of a comment.
pub proof fn lemma_render_start(v: Value)
    requires
        readable(v),
    ensures
        render(v).len() > 0,
        !is_space(render(v)[0]),
        !is_closer(render(v)[0]),
        render(v)[0] != '/' && render(v)[0] != '#' && render(v)[0] != ';',
        render(v)[0] == '-' ==> render(v).len() > 1 && is_digit(render(v)[1]),
{
    reveal_strlit("null");
    reveal_strlit("true");
    reveal_strlit("false");
    match v {
        Value::Int(x) => {
            if x < 0 {
                lemma_nat_text((-x) as nat);
                assert(is_digit(nat_text((-x) as nat)[0]));
            } else {
                lemma_nat_text(x as nat);
                assert(is_digit(nat_text(x as nat)[0]));
            }
        },
        Value::Float(d) => {
            if d.whole.len() > 0 {
                assert(is_digit(d.whole[0]));
            }
        },
        _ => {},
    }
}

/// There is no blank where the canonical text of a readable value stands.
pub proof fn lemma_no_blank_before(s: Seq<char>, p: int, v: Value)
    requires
        0 <= p,
        readable(v),
        has_prefix(s, p, render(v)),
    ensures
        blank_end(s, p) == p,
{
    lemma_render_start(v);
    lemma_prefix_char(s, p, render(v), 0);
    if render(v).len() > 1 {
        lemma_prefix_char(s, p, render(v), 1);
    }
    lemma_no_blank_at(s, p);
}

/// There is no blank where the text ends or a closer stands, and no value.
pub proof fn lemma_nothing_at_close(s: Seq<char>, e: int)
    requires
        0 <= e,
        closed_at(s, e),
    ensures
        blank_end(s, e) == e,
        data_at(s, e) is None,
{
    lemma_no_blank_at(s, e);
    lemma_data_at(s, e);
}

/// The canonical text of null reads back.
pub proof fn lemma_null_reads_back(s: Seq<char>, i: int)
    requires
        0 <= i,
        has_prefix(s, i, render(Value::Null)),
    ensures
        data_at(s, i) == Some((Value::Null, i + render(Value::Null).len())),
{
    reveal_strlit("null");
    lemma_prefix_char(s, i, "null"@, 0);
}

/// The canonical text of a truth value reads back.
pub proof fn lemma_bool_reads_back(s: Seq<char>, i: int, b: bool)
    requires
        0 <= i,
        has_prefix(s, i, render(Value::Bool(b))),
    ensures
        data_at(s, i) == Some((Value::Bool(b), i + render(Value::Bool(b)).len())),
{
    reveal_strlit("true");
    reveal_strlit("false");
    reveal_strlit("True");
    reveal_strlit("TRUE");
    reveal_strlit("yes");
    reveal_strlit("Yes");
    reveal_strlit("YES");
    lemma_prefix_char(s, i, render(Value::Bool(b)), 0);
    lemma_null_at(s, i);
    lemma_word_at(s, i, "true"@);
    lemma_word_at(s, i, "True"@);
    lemma_word_at(s, i, "TRUE"@);
    lemma_word_at(s, i, "yes"@);
    lemma_word_at(s, i, "Yes"@);
    lemma_word_at(s, i, "YES"@);
}

/// A text of digits that stands before a closer or the end is a numeral.
pub proof fn lemma_numeral_over(s: Seq<char>, i: int, d: Seq<char>)
    requires
        0 <= i,
        has_prefix(s, i, d),
        d.len() > 0,
        forall|k: int| 0 <= k < d.len() ==> is_digit(#[trigger] d[k]),
        i + d.len() < s.len() ==> !is_digit(s[i + d.len()]) && s[i + d.len()] != '_',
    ensures
        numeral_end(s, i) == Some(i + d.len()),
        digits_between(s, i, i + d.len()) == d,
{
    assert forall|k: int| 0 <= k < d.len() implies CharClass::Numeral.holds(#[trigger] d[k]) by {
        assert(is_digit(d[k]));
    }
    lemma_run_over(s, i, d, CharClass::Numeral);
    lemma_prefix_char(s, i, d, 0);
    assert forall|k: int| 0 <= k < d.len() implies #[trigger] d[k] != '_' by {
        assert(is_digit(d[k]));
    }
    lemma_no_separators(d);
}

/// The canonical text of an integer within the magnitude of a literal reads
/// back.
pub proof fn lemma_int_reads_back(s: Seq<char>, i: int, x: int)
    requires
        0 <= i,
        -max_magnitude() <= x <= max_magnitude(),
        has_prefix(s, i, render(Value::Int(x))),
        closed_at(s, i + render(Value::Int(x)).len()),
    ensures
        data_at(s, i) == Some((Value::Int(x), i + render(Value::Int(x)).len())),
{
    let m: nat = if x < 0 {
        (-x) as nat
    } else {
        x as nat
    };
    let d = nat_text(m);
    lemma_nat_text(m);
    lemma_null_at(s, i);
    lemma_bool_at(s, i);
    lemma_prefix_char(s, i, render(Value::Int(x)), 0);
    assert(is_digit(d[0]));
    let k = if x < 0 {
        i + 1
    } else {
        i
    };
    if x < 0 {
        lemma_prefix_split(s, i, seq!['-'], d);
    }
    assert(sign_end(s, i) == k);
    lemma_numeral_over(s, k, d);
}

/// The canonical text of a well-formed decimal number reads back.
pub proof fn lemma_float_reads_back(s: Seq<char>, i: int, d: DecimalText)
    requires
        0 <= i,
        d.well_formed(),
        has_prefix(s, i, render(Value::Float(d))),
        closed_at(s, i + render(Value::Float(d)).len()),
    ensures
        data_at(s, i) == Some((Value::Float(d), i + render(Value::Float(d)).len())),
{
    let sign: Seq<char> = if d.negative {
        seq!['-']
    } else {
        Seq::empty()
    };
    let whole: Seq<char> = if d.whole.len() == 0 {
        seq!['0']
    } else {
        d.whole
    };
    assert(render(Value::Float(d)) =~= sign + (whole + (seq!['.'] + d.fraction)));
    lemma_prefix_split(s, i, sign, whole + (seq!['.'] + d.fraction));
    let k = i + sign.len();
    lemma_prefix_split(s, k, whole, seq!['.'] + d.fraction);
    let m = k + whole.len();
    lemma_prefix_split(s, m, seq!['.'], d.fraction);
    lemma_prefix_char(s, m, seq!['.'], 0);
    lemma_prefix_char(s, k, whole, 0);
    assert(is_digit(whole[0])) by {
        if d.whole.len() > 0 {
            assert(is_digit(d.whole[0]));
        }
    }
    assert(sign_end(s, i) == k) by {
        if d.negative {
            lemma_prefix_char(s, i, sign, 0);
        }
    }
    assert forall|j: int| 0 <= j < whole.len() implies is_digit(#[trigger] whole[j]) by {
        if d.whole.len() > 0 {
            assert(is_digit(d.whole[j]));
        }
    }
    lemma_numeral_over(s, k, whole);
    lemma_numeral_over(s, m + 1, d.fraction);
    assert(without_leading_zeros(whole) == d.whole) by {
        if d.whole.len() == 0 {
            let none = Seq::<char>::empty();
            assert(whole.drop_first() =~= none);
            assert(d.whole =~= none);
            assert(without_leading_zeros(none) == none);
            assert(without_leading_zeros(whole) == without_leading_zeros(whole.drop_first()));
        } else {
            assert(d.whole[0] != '0');
        }
    }
    lemma_null_at(s, i);
    lemma_bool_at(s, i);
}

/// The canonical text of a string of plain characters reads back.
pub proof fn lemma_str_reads_back(s: Seq<char>, i: int, t: Seq<char>)
    requires
        0 <= i,
        is_plain_text(t),
        has_prefix(s, i, render(Value::Str(t))),
    ensures
        data_at(s, i) == Some((Value::Str(t), i + render(Value::Str(t)).len())),
{
    assert(render(Value::Str(t)) =~= seq!['"'] + (escaped(t) + seq!['"']));
    lemma_prefix_split(s, i, seq!['"'], escaped(t) + seq!['"']);
    lemma_prefix_char(s, i, seq!['"'], 0);
    lemma_escaped_body(s, i + 1, t);
    lemma_null_at(s, i);
    lemma_bool_at(s, i);
}

/// The text of several items, from the front: the first item, a comma, the
/// text of the others.
pub proof fn lemma_render_items_front(xs: Seq<Value>)
    requires
        xs.len() > 1,
    ensures
        render_items(xs) == render(xs[0]) + seq![','] + render_items(xs.drop_first()),
    decreases xs.len(),
{
    let front = xs.drop_last();
    let back = xs.drop_first();
    assert(back.last() == xs.last());
    assert(front[0] == xs[0]);
    assert(render_items(xs) == render_items(front) + seq![','] + render(xs.last()));
    if xs.len() == 2 {
        assert(front.len() == 1 && back.len() == 1);
        assert(back[0] == xs.last());
        assert(render_items(front) == render(xs[0]));
        assert(render_items(back) == render(xs.last()));
    } else {
        lemma_render_items_front(front);
        assert(front.drop_first() =~= back.drop_last());
        assert(back.len() > 1);
        assert(render_items(back) == render_items(back.drop_last()) + seq![','] + render(
            back.last(),
        ));
        assert(render_items(xs) =~= render(xs[0]) + seq![','] + render_items(back));
    }
}

/// The text of several entries, from the front: the first entry, a comma, the
/// text of the others.
pub proof fn lemma_render_entries_front(es: Seq<(Seq<char>, Value)>)
    requires
        es.len() > 1,
    ensures
        render_entries(es) == render_entry(es[0]) + seq![','] + render_entries(es.drop_first()),
    decreases es.len(),
{
    let front = es.drop_last();
    let back = es.drop_first();
    assert(back.last() == es.last());
    assert(front[0] == es[0]);
    assert(render_entries(es) == render_entries(front) + seq![','] + render_entry(es.last()));
    if es.len() == 2 {
        assert(front.len() == 1 && back.len() == 1);
        assert(back[0] == es.last());
        assert(render_entries(front) == render_entry(es[0]));
        assert(render_entries(back) == render_entry(es.last()));
    } else {
        lemma_render_entries_front(front);
        assert(front.drop_first() =~= back.drop_last());
        assert(back.len() > 1);
        assert(render_entries(back) == render_entries(back.drop_last()) + seq![',']
            + render_entry(back.last()));
        assert(render_entries(es) =~= render_entry(es[0]) + seq![','] + render_entries(back));
    }
}

/// The canonical text of a readable value, where it stands before a closer or
/// the end of the text, is read as that value and no further.
pub proof fn lemma_reads_back(s: Seq<char>, i: int, v: Value)
    requires
        0 <= i,
        readable(v),
        has_prefix(s, i, render(v)),
        closed_at(s, i + render(v).len()),
    ensures
        data_at(s, i) == Some((v, i + render(v).len())),
    decreases v, 0nat,
{
    match v {
        Value::Null => {
            lemma_null_reads_back(s, i);
        },
        Value::Bool(b) => {
            lemma_bool_reads_back(s, i, b);
        },
        Value::Int(x) => {
            lemma_int_reads_back(s, i, x);
        },
        Value::Float(d) => {
            lemma_float_reads_back(s, i, d);
        },
        Value::Str(t) => {
            lemma_str_reads_back(s, i, t);
        },
        Value::Array(xs) => {
            let inner = render_items(xs);
            assert(render(v) =~= seq!['['] + (inner + seq![']']));
            lemma_prefix_split(s, i, seq!['['], inner + seq![']']);
            lemma_prefix_char(s, i, seq!['['], 0);
            lemma_prefix_split(s, i + 1, inner, seq![']']);
            lemma_prefix_char(s, i + 1 + inner.len(), seq![']'], 0);
            if xs.len() == 0 {
                lemma_nothing_at_close(s, i + 1);
                assert(xs =~= Seq::<Value>::empty());
            } else {
                lemma_items_read_back(s, i + 1, xs, ']');
            }
        },
        Value::Dict(es) => {
            let inner = render_entries(es);
            assert(render(v) =~= seq!['{'] + (inner + seq!['}']));
            lemma_prefix_split(s, i, seq!['{'], inner + seq!['}']);
            lemma_prefix_char(s, i, seq!['{'], 0);
            lemma_prefix_split(s, i + 1, inner, seq!['}']);
            lemma_prefix_char(s, i + 1 + inner.len(), seq!['}'], 0);
            if es.len() == 0 {
                lemma_nothing_at_close(s, i + 1);
                crate::laws::lemma_quoted_at(s, i + 1);
                assert(es =~= Seq::<(Seq<char>, Value)>::empty());
            } else {
                lemma_entries_read_back(s, i + 1, es, '}');
            }
        },
    }
}

/// The text of readable items, where it stands before a closing bracket, is
/// read as those items, without any blank before them.
pub proof fn lemma_items_read_back(s: Seq<char>, p: int, xs: Seq<Value>, close: char)
    requires
        0 <= p,
        xs.len() > 0,
        forall|k: int| 0 <= k < xs.len() ==> readable(#[trigger] xs[k]),
        has_prefix(s, p, render_items(xs) + seq![close]),
        close == ']' || close == '}',
    ensures
        blank_end(s, p) == p,
        items_at(s, p) == (xs, p + render_items(xs).len()),
    decreases xs, 1nat,
{
    let first = xs[0];
    let e = p + render(first).len();
    assert(readable(first));
    if xs.len() == 1 {
        lemma_prefix_split(s, p, render(first), seq![close]);
        lemma_prefix_char(s, e, seq![close], 0);
        lemma_no_blank_before(s, p, first);
        lemma_reads_back(s, p, first);
        lemma_nothing_at_close(s, e);
        lemma_data_at(s, p);
        assert(seq![first] =~= xs);
    } else {
        let rest = xs.drop_first();
        lemma_render_items_front(xs);
        assert(render_items(xs) + seq![close] =~= render(first) + (seq![','] + (render_items(rest)
            + seq![close])));
        lemma_prefix_split(s, p, render(first), seq![','] + (render_items(rest) + seq![close]));
        lemma_prefix_split(s, e, seq![','], render_items(rest) + seq![close]);
        lemma_prefix_char(s, e, seq![','], 0);
        lemma_no_blank_before(s, p, first);
        lemma_reads_back(s, p, first);
        lemma_nothing_at_close(s, e);
        lemma_data_at(s, p);
        assert forall|k: int| 0 <= k < rest.len() implies readable(#[trigger] rest[k]) by {
            assert(rest[k] == xs[k + 1]);
        }
        lemma_items_read_back(s, e + 1, rest, close);
        assert(seq![first] + rest =~= xs);
    }
}

/// The text of an entry with a key of plain characters and a readable value,
/// where it stands before a closer, is read as that entry.
pub proof fn lemma_entry_reads_back(s: Seq<char>, p: int, kv: (Seq<char>, Value))
    requires
        0 <= p,
        is_plain_text(kv.0),
        readable(kv.1),
        has_prefix(s, p, render_entry(kv)),
        closed_at(s, p + render_entry(kv).len()),
    ensures
        blank_end(s, p) == p,
        entry_at(s, p) == Some((kv, p + render_entry(kv).len())),
    decreases kv, 0nat,
{
    let key = escaped(kv.0);
    let text = render(kv.1);
    assert(render_entry(kv) =~= seq!['"'] + ((key + seq!['"']) + (seq![':'] + text)));
    lemma_prefix_split(s, p, seq!['"'], (key + seq!['"']) + (seq![':'] + text));
    lemma_prefix_char(s, p, seq!['"'], 0);
    lemma_prefix_split(s, p + 1, key + seq!['"'], seq![':'] + text);
    lemma_escaped_body(s, p + 1, kv.0);
    let c = p + 1 + key.len() + 1;
    lemma_prefix_split(s, c, seq![':'], text);
    lemma_prefix_char(s, c, seq![':'], 0);
    lemma_no_blank_at(s, p);
    lemma_no_blank_at(s, c);
    lemma_no_blank_before(s, c + 1, kv.1);
    lemma_reads_back(s, c + 1, kv.1);
    lemma_nothing_at_close(s, c + 1 + text.len());
    lemma_data_at(s, c + 1);
}

/// The text of entries with keys of plain characters and readable values,
/// where it stands before a closing bracket, is read as those entries.
pub proof fn lemma_entries_read_back(
    s: Seq<char>,
    p: int,
    es: Seq<(Seq<char>, Value)>,
    close: char,
)
    requires
        0 <= p,
        es.len() > 0,
        forall|k: int|
            0 <= k < es.len() ==> is_plain_text((#[trigger] es[k]).0) && readable(es[k].1),
        has_prefix(s, p, render_entries(es) + seq![close]),
        close == ']' || close == '}',
    ensures
        blank_end(s, p) == p,
        entries_at(s, p) == (es, p + render_entries(es).len()),
    decreases es, 1nat,
{
    let first = es[0];
    let e = p + render_entry(first).len();
    assert(is_plain_text(first.0) && readable(first.1));
    if es.len() == 1 {
        lemma_prefix_split(s, p, render_entry(first), seq![close]);
        lemma_prefix_char(s, e, seq![close], 0);
        lemma_entry_reads_back(s, p, first);
        assert(seq![first] =~= es);
    } else {
        let rest = es.drop_first();
        lemma_render_entries_front(es);
        assert(render_entries(es) + seq![close] =~= render_entry(first) + (seq![','] + (
        render_entries(rest) + seq![close])));
        lemma_prefix_split(
            s,
            p,
            render_entry(first),
            seq![','] + (render_entries(rest) + seq![close]),
        );
        lemma_prefix_split(s, e, seq![','], render_entries(rest) + seq![close]);
        lemma_prefix_char(s, e, seq![','], 0);
        lemma_entry_reads_back(s, p, first);
        assert forall|k: int| 0 <= k < rest.len() implies is_plain_text((#[trigger] rest[k]).0)
            && readable(rest[k].1) by {
            assert(rest[k] == es[k + 1]);
        }
        lemma_entries_read_back(s, e + 1, rest, close);
        assert(seq![first] + rest =~= es);
    }
}

/// The canonical text of a readable value is read as that value, all of it:
/// the text has the value, and its canonical text is the text itself.
pub proof fn lemma_canonical_text_reads_back(v: Value)
    requires
        readable(v),
    ensures
        data_at(render(v), 0) == Some((v, render(v).len() as int)),
        first_value(render(v)) == Some(v),
{
    let s = render(v);
    lemma_render_start(v);
    assert(s.subrange(0, s.len() as int) =~= s);
    lemma_reads_back(s, 0, v);
}

} // verus!
