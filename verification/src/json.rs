//! The value a text denotes, and its canonical rendering.

use vstd::prelude::*;
use vstd::string::*;
use crate::text::{escaped, is_digit, quote, string_of};

verus! {

/// A decimal number kept exactly as it was written: a sign, the digits before
/// the point and the digits after it.
#[derive(Debug, PartialEq, Eq)]
pub struct Decimal {
    pub negative: bool,
    pub whole: String,
    pub fraction: String,
}

/// What a `Decimal` stands for in contracts.
pub struct DecimalText {
    pub negative: bool,
    pub whole: Seq<char>,
    pub fraction: Seq<char>,
}

impl DecimalText {
    /// Whether both parts are decimal digits, the part after the point has
    /// one at least, and the part before it does not start with a zero.
    pub open spec fn well_formed(self) -> bool {
        &&& forall|k: int| 0 <= k < self.whole.len() ==> is_digit(#[trigger] self.whole[k])
        &&& forall|k: int| 0 <= k < self.fraction.len() ==> is_digit(#[trigger] self.fraction[k])
        &&& self.fraction.len() > 0
        &&& self.whole.len() > 0 ==> self.whole[0] != '0'
    }
}

impl Value {
    /// Whether every decimal number in the value is well formed.
    pub open spec fn well_formed(self) -> bool
        decreases self,
    {
        match self {
            Value::Float(d) => d.well_formed(),
            Value::Array(xs) => forall|k: int|
                0 <= k < xs.len() ==> (#[trigger] xs[k]).well_formed(),
            Value::Dict(es) => forall|k: int|
                0 <= k < es.len() ==> (#[trigger] es[k]).1.well_formed(),
            _ => true,
        }
    }
}

impl View for Decimal {
    type V = DecimalText;

    open spec fn view(&self) -> DecimalText {
        DecimalText { negative: self.negative, whole: self.whole@, fraction: self.fraction@ }
    }
}

/// A value: null, a truth value, an integer, a decimal number, a string, an
/// array of values, or a dictionary, which is a list of keys with values that
/// keeps its order and may hold a key more than once.
#[derive(Debug, PartialEq)]
pub enum JSON {
    Int(i128),
    Float(Decimal),
    Bool(bool),
    Str(String),
    Array(Vec<JSON>),
    Dict(Vec<(String, JSON)>),
    Null,
}

/// The mathematical value behind a `JSON`.
pub enum Value {
    Int(int),
    Float(DecimalText),
    Bool(bool),
    Str(Seq<char>),
    Array(Seq<Value>),
    Dict(Seq<(Seq<char>, Value)>),
    Null,
}

impl JSON {
    /// The value that this tree stands for.
    pub open spec fn value(self) -> Value
        decreases self, 0nat,
    {
        match self {
            JSON::Int(x) => Value::Int(x as int),
            JSON::Float(d) => Value::Float(d@),
            JSON::Bool(b) => Value::Bool(b),
            JSON::Str(s) => Value::Str(s@),
            JSON::Array(xs) => Value::Array(values_of(xs@)),
            JSON::Dict(es) => Value::Dict(entries_of(es@)),
            JSON::Null => Value::Null,
        }
    }
}

/// The values of a sequence of trees, in order.
pub open spec fn values_of(xs: Seq<JSON>) -> Seq<Value>
    decreases xs, 1nat,
{
    if xs.len() == 0 {
        Seq::empty()
    } else {
        values_of(xs.drop_last()).push(xs.last().value())
    }
}

/// The keys and values of a sequence of entries, in order.
pub open spec fn entries_of(es: Seq<(String, JSON)>) -> Seq<(Seq<char>, Value)>
    decreases es, 1nat,
{
    if es.len() == 0 {
        Seq::empty()
    } else {
        entries_of(es.drop_last()).push((es.last().0@, es.last().1.value()))
    }
}

impl View for JSON {
    type V = Value;

    open spec fn view(&self) -> Value {
        self.value()
    }
}

/// `values_of` keeps the length and maps position by position.
pub proof fn lemma_values_of(xs: Seq<JSON>)
    ensures
        values_of(xs).len() == xs.len(),
        forall|k: int| 0 <= k < xs.len() ==> (#[trigger] values_of(xs)[k]) == xs[k]@,
    decreases xs.len(),
{
    if xs.len() > 0 {
        lemma_values_of(xs.drop_last());
    }
}

/// `entries_of` keeps the length and maps position by position.
pub proof fn lemma_entries_of(es: Seq<(String, JSON)>)
    ensures
        entries_of(es).len() == es.len(),
        forall|k: int|
            0 <= k < es.len() ==> (#[trigger] entries_of(es)[k]) == (es[k].0@, es[k].1@),
    decreases es.len(),
{
    if es.len() > 0 {
        lemma_entries_of(es.drop_last());
    }
}

/// The decimal digit for a number below ten.
pub open spec fn digit_char(d: int) -> char {
    ('0' as int + d) as char
}

/// The decimal digits of a natural number, most significant first.
pub open spec fn nat_text(n: nat) -> Seq<char>
    decreases n,
{
    if n < 10 {
        seq![digit_char(n as int)]
    } else {
        nat_text(n / 10).push(digit_char((n % 10) as int))
    }
}

/// The decimal text of an integer: a minus sign for negative numbers, then
/// the digits of its magnitude.
pub open spec fn int_text(x: int) -> Seq<char> {
    if x < 0 {
        seq!['-'] + nat_text((-x) as nat)
    } else {
        nat_text(x as nat)
    }
}

/// The text of a decimal number: a lone point gets a zero in front of it.
pub open spec fn decimal_text(d: DecimalText) -> Seq<char> {
    (if d.negative {
        seq!['-']
    } else {
        Seq::empty()
    }) + (if d.whole.len() == 0 {
        seq!['0']
    } else {
        d.whole
    }) + seq!['.'] + d.fraction
}

/// The canonical text of a value, without any white space.
pub open spec fn render(v: Value) -> Seq<char>
    decreases v, 0nat,
{
    match v {
        Value::Null => "null"@,
        Value::Bool(b) => if b {
            "true"@
        } else {
            "false"@
        },
        Value::Int(x) => int_text(x),
        Value::Float(d) => decimal_text(d),
        Value::Str(s) => seq!['"'] + escaped(s) + seq!['"'],
        Value::Array(xs) => seq!['['] + render_items(xs) + seq![']'],
        Value::Dict(es) => seq!['{'] + render_entries(es) + seq!['}'],
    }
}

/// The texts of the items, with a comma between neighbours.
pub open spec fn render_items(xs: Seq<Value>) -> Seq<char>
    decreases xs, 1nat,
{
    if xs.len() == 0 {
        Seq::empty()
    } else if xs.len() == 1 {
        render(xs[0])
    } else {
        render_items(xs.drop_last()) + seq![','] + render(xs.last())
    }
}

/// One entry: the key as a string, escaped between double quotes, a colon,
/// the value.
pub open spec fn render_entry(e: (Seq<char>, Value)) -> Seq<char>
    decreases e, 0nat,
{
    seq!['"'] + escaped(e.0) + seq!['"', ':'] + render(e.1)
}

/// The texts of the entries, with a comma between neighbours.
pub open spec fn render_entries(es: Seq<(Seq<char>, Value)>) -> Seq<char>
    decreases es, 1nat,
{
    if es.len() == 0 {
        Seq::empty()
    } else if es.len() == 1 {
        render_entry(es[0])
    } else {
        render_entries(es.drop_last()) + seq![','] + render_entry(es.last())
    }
}

/// Appends the decimal digits of a number.
fn push_nat(out: &mut Vec<char>, n: u128)
    ensures
        final(out)@ == old(out)@ + nat_text(n as nat),
    decreases n,
{
    if n >= 10 {
        push_nat(out, n / 10);
    }
    let d: u8 = (n % 10) as u8;
    out.push((d + 48) as char);
}

/// The decimal text of an integer.
pub fn int_string(x: i128) -> (r: String)
    ensures
        r@ == int_text(x as int),
{
    let mut out: Vec<char> = Vec::new();
    if x < 0 {
        out.push('-');
        let m: u128 = (-(x + 1)) as u128 + 1;
        push_nat(&mut out, m);
    } else {
        push_nat(&mut out, x as u128);
    }
    string_of(&out)
}

impl Clone for Decimal {
    fn clone(&self) -> (r: Self)
        ensures
            r@ == self@,
    {
        Decimal {
            negative: self.negative,
            whole: self.whole.clone(),
            fraction: self.fraction.clone(),
        }
    }
}

impl Clone for JSON {
    fn clone(&self) -> (r: Self)
        ensures
            r@ == self@,
        decreases self,
    {
        match self {
            JSON::Int(x) => JSON::Int(*x),
            JSON::Float(d) => JSON::Float(d.clone()),
            JSON::Bool(b) => JSON::Bool(*b),
            JSON::Str(s) => JSON::Str(s.clone()),
            JSON::Array(xs) => {
                let mut items: Vec<JSON> = Vec::new();
                let mut k: usize = 0;
                while k < xs.len()
                    invariant
                        k <= xs.len(),
                        self is Array,
                        self->Array_0 == *xs,
                        values_of(items@) == values_of(xs@.take(k as int)),
                    decreases xs.len() - k,
                {
                    let item = xs[k].clone();
                    let ghost before = items@;
                    items.push(item);
                    proof {
                        assert(items@.drop_last() == before);
                        assert(items@.last()@ == xs@[k as int]@);
                        assert(xs@.take(k + 1).drop_last() == xs@.take(k as int));
                        assert(xs@.take(k + 1).last() == xs@[k as int]);
                    }
                    k = k + 1;
                }
                assert(xs@.take(k as int) == xs@);
                JSON::Array(items)
            },
            JSON::Dict(es) => {
                let mut entries: Vec<(String, JSON)> = Vec::new();
                let mut k: usize = 0;
                while k < es.len()
                    invariant
                        k <= es.len(),
                        self is Dict,
                        self->Dict_0 == *es,
                        entries_of(entries@) == entries_of(es@.take(k as int)),
                    decreases es.len() - k,
                {
                    let key = es[k].0.clone();
                    let value = es[k].1.clone();
                    let ghost before = entries@;
                    entries.push((key, value));
                    proof {
                        assert(entries@.drop_last() == before);
                        assert(entries@.last().0@ == es@[k as int].0@);
                        assert(entries@.last().1@ == es@[k as int].1@);
                        assert(es@.take(k + 1).drop_last() == es@.take(k as int));
                        assert(es@.take(k + 1).last() == es@[k as int]);
                    }
                    k = k + 1;
                }
                assert(es@.take(k as int) == es@);
                JSON::Dict(entries)
            },
            JSON::Null => JSON::Null,
        }
    }
}

impl Decimal {
    /// The number as text, with a digit on each side of the point.
    pub fn to_text(&self) -> (r: String)
        ensures
            r@ == decimal_text(self@),
    {
        proof {
            reveal_strlit("-");
            reveal_strlit("0");
            reveal_strlit(".");
        }
        let mut out = String::new();
        if self.negative {
            out.append("-");
        }
        if self.whole.as_str().unicode_len() == 0 {
            out.append("0");
        } else {
            out.append(self.whole.as_str());
        }
        out.append(".");
        out.append(self.fraction.as_str());
        out
    }
}

impl JSON {
    /// The canonical JSON text of the value.
    pub fn stringify(&self) -> (r: String)
        ensures
            r@ == render(self@),
        decreases self,
    {
        match self {
            JSON::Int(x) => int_string(*x),
            JSON::Float(d) => d.to_text(),
            JSON::Bool(b) => if *b {
                String::from_str("true")
            } else {
                String::from_str("false")
            },
            JSON::Str(s) => quote(s.as_str()),
            JSON::Array(xs) => {
                proof {
                    reveal_strlit("[");
                    reveal_strlit(",");
                    reveal_strlit("]");
                }
                let ghost items = self@->Array_0;
                proof {
                    lemma_values_of(xs@);
                }
                let mut out = String::from_str("[");
                let mut k: usize = 0;
                while k < xs.len()
                    invariant
                        k <= xs.len(),
                        self is Array,
                        self->Array_0 == *xs,
                        items.len() == xs.len(),
                        forall|j: int| 0 <= j < xs.len() ==> items[j] == xs[j]@,
                        out@ == seq!['['] + render_items(items.take(k as int)),
                        ","@ == seq![','],
                    decreases xs.len() - k,
                {
                    if k > 0 {
                        out.append(",");
                    }
                    let t = xs[k].stringify();
                    out.append(t.as_str());
                    proof {
                        assert(items.take(k + 1).drop_last() == items.take(k as int));
                        assert(items.take(k + 1).last() == items[k as int]);
                    }
                    k = k + 1;
                }
                assert(items.take(k as int) == items);
                out.append("]");
                out
            },
            JSON::Dict(es) => {
                proof {
                    reveal_strlit("{");
                    reveal_strlit(",");
                    reveal_strlit("}");
                    reveal_strlit(":");
                }
                let ghost entries = self@->Dict_0;
                proof {
                    lemma_entries_of(es@);
                }
                let mut out = String::from_str("{");
                let mut k: usize = 0;
                while k < es.len()
                    invariant
                        k <= es.len(),
                        self is Dict,
                        self->Dict_0 == *es,
                        entries.len() == es.len(),
                        forall|j: int|
                            0 <= j < es.len() ==> entries[j] == (es[j].0@, es[j].1@),
                        out@ == seq!['{'] + render_entries(entries.take(k as int)),
                        ","@ == seq![','],
                        ":"@ == seq![':'],
                    decreases es.len() - k,
                {
                    if k > 0 {
                        out.append(",");
                    }
                    let ghost before = out@;
                    let key = quote(es[k].0.as_str());
                    out.append(key.as_str());
                    out.append(":");
                    let t = es[k].1.stringify();
                    out.append(t.as_str());
                    proof {
                        assert(out@ =~= before + render_entry(entries[k as int]));
                        assert(entries.take(k + 1).drop_last() == entries.take(k as int));
                        assert(entries.take(k + 1).last() == entries[k as int]);
                    }
                    k = k + 1;
                }
                assert(entries.take(k as int) == entries);
                out.append("}");
                out
            },
            JSON::Null => String::from_str("null"),
        }
    }
}

} // verus!
