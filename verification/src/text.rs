//! Characters and character sequences: the classes the grammar is built from,
//! and the conversions between strings and character vectors.

use vstd::prelude::*;

verus! {

/// The Unicode `White_Space` property, as `char::is_whitespace` reports it.
pub uninterp spec fn unicode_white_space(c: char) -> bool;

/// The Unicode `Alphabetic` property, as `char::is_alphabetic` reports it.
pub uninterp spec fn unicode_alphabetic(c: char) -> bool;

/// Alphabetic or numeric in Unicode's sense, as `char::is_alphanumeric` reports it.
pub uninterp spec fn unicode_alphanumeric(c: char) -> bool;

/// Calls `char::is_whitespace`. The contract only names the answer: it is a fixed
/// table of the Unicode character database.
#[verifier::external_body]
fn std_is_whitespace(c: char) -> (r: bool)
    ensures
        r == unicode_white_space(c),
{
    c.is_whitespace()
}

/// Calls `char::is_alphabetic`. The contract only names the answer.
#[verifier::external_body]
fn std_is_alphabetic(c: char) -> (r: bool)
    ensures
        r == unicode_alphabetic(c),
{
    c.is_alphabetic()
}

/// Calls `char::is_alphanumeric`. The contract only names the answer.
#[verifier::external_body]
fn std_is_alphanumeric(c: char) -> (r: bool)
    ensures
        r == unicode_alphanumeric(c),
{
    c.is_alphanumeric()
}

/// Whether the character is one of the 128 of ASCII.
pub open spec fn is_ascii_char(c: char) -> bool {
    (c as u32) < 128
}

/// Whether the character is a decimal digit, `0` to `9`.
pub open spec fn is_digit(c: char) -> bool {
    '0' <= c <= '9'
}

/// Whether the character is a letter of ASCII, `a` to `z` or `A` to `Z`.
pub open spec fn is_ascii_letter(c: char) -> bool {
    ('a' <= c <= 'z') || ('A' <= c <= 'Z')
}

/// White space: within ASCII the space and the controls from tab to carriage
/// return; beyond ASCII whatever Unicode calls white space.
pub open spec fn is_space(c: char) -> bool {
    if is_ascii_char(c) {
        c == ' ' || ('\t' <= c <= '\r')
    } else {
        unicode_white_space(c)
    }
}

/// Whether the character is white space.
pub fn space(c: char) -> (r: bool)
    ensures
        r == is_space(c),
{
    if (c as u32) < 128 {
        c == ' ' || ('\t' <= c && c <= '\r')
    } else {
        std_is_whitespace(c)
    }
}

/// Whether the character is a decimal digit.
pub fn digit(c: char) -> (r: bool)
    ensures
        r == is_digit(c),
{
    '0' <= c && c <= '9'
}

/// What an unquoted key may start with: a letter, `_`, `#` or `@`. Beyond ASCII,
/// a letter is what Unicode calls alphabetic.
pub open spec fn is_key_head(c: char) -> bool {
    if is_ascii_char(c) {
        is_ascii_letter(c) || c == '_' || c == '#' || c == '@'
    } else {
        unicode_alphabetic(c)
    }
}

/// Whether an unquoted key may start with the character.
pub fn key_head(c: char) -> (r: bool)
    ensures
        r == is_key_head(c),
{
    if (c as u32) < 128 {
        ('a' <= c && c <= 'z') || ('A' <= c && c <= 'Z') || c == '_' || c == '#' || c == '@'
    } else {
        std_is_alphabetic(c)
    }
}

/// What an unquoted key may go on with: a letter, a digit, `_`, `#` or `@`.
/// Beyond ASCII, what Unicode calls alphabetic or numeric.
pub open spec fn is_key_tail(c: char) -> bool {
    if is_ascii_char(c) {
        is_ascii_letter(c) || is_digit(c) || c == '_' || c == '#' || c == '@'
    } else {
        unicode_alphanumeric(c) || unicode_alphabetic(c)
    }
}

/// Whether an unquoted key may go on with the character.
pub fn key_tail(c: char) -> (r: bool)
    ensures
        r == is_key_tail(c),
{
    if (c as u32) < 128 {
        ('a' <= c && c <= 'z') || ('A' <= c && c <= 'Z') || ('0' <= c && c <= '9') || c == '_'
            || c == '#' || c == '@'
    } else {
        std_is_alphanumeric(c) || std_is_alphabetic(c)
    }
}

/// The characters of a string, in order.
pub fn chars_of(s: &str) -> (v: Vec<char>)
    ensures
        v@ == s@,
{
    let mut v: Vec<char> = Vec::new();
    for c in it: s.chars()
        invariant
            v@ == it.seq().take(it.index()),
            it.seq() == s@,
    {
        v.push(c);
    }
    v
}

/// Calls `String::push`: the character is appended to the string.
#[verifier::external_body]
fn push_char(s: &mut String, c: char)
    ensures
        final(s)@ == old(s)@.push(c),
{
    s.push(c)
}

/// The string of the given characters, in order.
pub fn string_of(v: &Vec<char>) -> (s: String)
    ensures
        s@ == v@,
{
    let mut s = String::new();
    let mut k: usize = 0;
    while k < v.len()
        invariant
            k <= v.len(),
            s@ == v@.take(k as int),
        decreases v.len() - k,
    {
        push_char(&mut s, v[k]);
        proof {
            assert(v@.take(k as int).push(v@[k as int]) =~= v@.take(k + 1));
        }
        k = k + 1;
    }
    proof {
        assert(v@.take(k as int) =~= v@);
    }
    s
}

/// The lower-case hexadecimal digit for a number below sixteen.
pub open spec fn hex_char(d: int) -> char {
    if d < 10 {
        ('0' as int + d) as char
    } else {
        ('a' as int + d - 10) as char
    }
}

/// How one character stands inside a JSON string: the double quote and the
/// backslash get a backslash in front; backspace, tab, line feed, form feed and
/// carriage return get their letter; any other control below the space is
/// written as `\u00` and two lower-case hexadecimal digits; all else is itself.
pub open spec fn escaped_char(c: char) -> Seq<char> {
    if c == '"' {
        seq!['\\', '"']
    } else if c == '\\' {
        seq!['\\', '\\']
    } else if c == '\u{8}' {
        seq!['\\', 'b']
    } else if c == '\t' {
        seq!['\\', 't']
    } else if c == '\n' {
        seq!['\\', 'n']
    } else if c == '\u{c}' {
        seq!['\\', 'f']
    } else if c == '\r' {
        seq!['\\', 'r']
    } else if (c as u32) < 32 {
        seq!['\\', 'u', '0', '0', hex_char((c as u32) as int / 16), hex_char((c as u32) as int % 16)]
    } else {
        seq![c]
    }
}

/// A text with each character escaped for a JSON string.
pub open spec fn escaped(s: Seq<char>) -> Seq<char>
    decreases s.len(),
{
    if s.len() == 0 {
        Seq::empty()
    } else {
        escaped(s.drop_last()) + escaped_char(s.last())
    }
}

/// Calls `json::stringify` on a string: the text between double quotes, each
/// character escaped as `escaped_char` says.
#[verifier::external_body]
pub(crate) fn quote(s: &str) -> (r: String)
    ensures
        r@ == seq!['"'] + escaped(s@) + seq!['"'],
{
    json::stringify(s)
}

/// The sets of characters that the grammar takes runs of.
#[derive(Debug, Clone, Copy, PartialEq, Eq)]
pub enum CharClass {
    /// White space.
    Space,
    /// Anything but a line feed or a carriage return.
    LineText,
    /// What an unquoted key starts with: a letter, `_`, `#` or `@`.
    KeyHead,
    /// What an unquoted key goes on with: a letter, a digit, `_`, `#` or `@`.
    KeyTail,
    /// A decimal digit or the separator `_`.
    Numeral,
}

impl CharClass {
    /// Whether the character is of the class.
    pub open spec fn holds(self, c: char) -> bool {
        match self {
            CharClass::Space => is_space(c),
            CharClass::LineText => c != '\n' && c != '\r',
            CharClass::KeyHead => is_key_head(c),
            CharClass::KeyTail => is_key_tail(c),
            CharClass::Numeral => is_digit(c) || c == '_',
        }
    }

    /// Whether the character is of the class.
    pub fn has(self, c: char) -> (r: bool)
        ensures
            r == self.holds(c),
    {
        match self {
            CharClass::Space => space(c),
            CharClass::LineText => c != '\n' && c != '\r',
            CharClass::KeyHead => key_head(c),
            CharClass::KeyTail => key_tail(c),
            CharClass::Numeral => digit(c) || c == '_',
        }
    }
}

/// Whether the word `w` stands in `s` at position `i`.
pub open spec fn has_prefix(s: Seq<char>, i: int, w: Seq<char>) -> bool {
    0 <= i && i + w.len() <= s.len() && s.subrange(i, i + w.len()) == w
}

/// Where the word `w` ends, if it stands in `s` at position `i`.
pub open spec fn word_at(s: Seq<char>, i: int, w: Seq<char>) -> Option<int> {
    if has_prefix(s, i, w) {
        Some(i + w.len())
    } else {
        None
    }
}

/// The first of two answers that is one.
pub open spec fn either<T>(a: Option<T>, b: Option<T>) -> Option<T> {
    if a is Some {
        a
    } else {
        b
    }
}

/// The end of the longest run of characters of a class that starts at `i`.
pub open spec fn run_end(s: Seq<char>, i: int, class: CharClass) -> int
    decreases s.len() - i,
{
    if 0 <= i < s.len() && class.holds(s[i]) {
        run_end(s, i + 1, class)
    } else {
        i
    }
}

/// A run ends at or after its start, inside the text, on a character that is
/// not of the class, and holds only characters of the class.
pub proof fn lemma_run_end(s: Seq<char>, i: int, class: CharClass)
    ensures
        i <= run_end(s, i, class),
        0 <= i <= s.len() ==> run_end(s, i, class) <= s.len(),
        0 <= i ==> forall|k: int| i <= k < run_end(s, i, class) ==> class.holds(#[trigger] s[k]),
        0 <= run_end(s, i, class) < s.len() ==> !class.holds(s[run_end(s, i, class)]),
    decreases s.len() - i,
{
    if 0 <= i < s.len() && class.holds(s[i]) {
        lemma_run_end(s, i + 1, class);
    }
}

/// A position is the end of the run from `i` as soon as all between is of the
/// class and the position itself is not.
pub proof fn lemma_run_end_is(s: Seq<char>, i: int, j: int, class: CharClass)
    requires
        0 <= i <= j <= s.len(),
        forall|k: int| i <= k < j ==> class.holds(#[trigger] s[k]),
        j < s.len() ==> !class.holds(s[j]),
    ensures
        run_end(s, i, class) == j,
    decreases j - i,
{
    if i < j {
        lemma_run_end_is(s, i + 1, j, class);
    }
}

/// The end of the run of a class from `at`.
pub fn skip_run(text: &[char], at: usize, class: CharClass) -> (r: usize)
    ensures
        r == run_end(text@, at as int, class),
{
    if at >= text.len() {
        return at;
    }
    let mut j: usize = at;
    while j < text.len() && class.has(text[j])
        invariant
            at <= j <= text.len(),
            forall|k: int| at <= k < j ==> class.holds(#[trigger] text@[k]),
        decreases text.len() - j,
    {
        j = j + 1;
    }
    proof {
        lemma_run_end_is(text@, at as int, j as int, class);
    }
    j
}

/// Where the word `w` ends, if it stands in the text at `at`.
pub fn word_end(text: &[char], at: usize, w: &str) -> (r: Option<usize>)
    ensures
        match r {
            Some(e) => word_at(text@, at as int, w@) == Some(e as int),
            None => word_at(text@, at as int, w@) is None,
        },
{
    let n = w.unicode_len();
    if at > text.len() || n > text.len() - at {
        return None;
    }
    let mut k: usize = 0;
    while k < n
        invariant
            k <= n,
            n == w@.len(),
            at + n <= text.len(),
            forall|m: int| 0 <= m < k ==> text@[at + m] == w@[m],
        decreases n - k,
    {
        if text[at + k] != w.get_char(k) {
            proof {
                assert(text@.subrange(at as int, at + n)[k as int] != w@[k as int]);
            }
            return None;
        }
        k = k + 1;
    }
    proof {
        assert(text@.subrange(at as int, at + n) =~= w@);
    }
    Some(at + n)
}

} // verus!
