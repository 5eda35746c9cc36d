//! The dialect, as a mathematical reading of a character sequence.
//!
//! ```text
//! document := value
//! value    := "null" | "true" | "false" | integer | float | string
//!           | assoc | array | tuple | variant
//! integer  := ["-"] digit+
//! float    := ["-"] digit+ ("." digit+ [exponent] | exponent)
//!           | "Infinity" | "-Infinity" | "NaN"
//! exponent := ("e" | "E") ["+" | "-"] digit+
//! string   := '"' (raw | "\" one of '"\/bfnrt' | "\u" hex hex hex hex)* '"'
//! name     := letter (letter | digit | "_")* | string
//! assoc    := "{" [ name ":" value ("," name ":" value)* ] "}"
//! array    := "[" [ value ("," value)* ] "]"
//! tuple    := "(" value ("," value)+ ")"
//! variant  := "<" name [ ":" value ] ">"
//! ```
//!
//! Blanks (space, tab, line feed, carriage return) and comments (`/* .. */`,
//! and `//` to the end of the line) may stand before and behind every value,
//! name, bracket, comma and colon, and nowhere else. A raw character of a
//! string is any but the quote, the backslash and the control characters.
//!
//! Every rule is a spec function from the text and a position to what stands
//! there. Scanners of plain runs return the position at which the run ends;
//! rules that can fail return either what they read together with where it
//! ends, or the place and kind of the failure. A text is read from left to
//! right without going back: the first character of a value decides which
//! rule reads it, and the first fault ends the reading.

use vstd::prelude::*;
use crate::error::ErrorKind;
use crate::value::{insert_entry, SpecValue};

verus! {

/// Where and why a text is not in the dialect.
pub struct Fault {
    pub at: int,
    pub kind: ErrorKind,
}

/// The decimal digits.
pub open spec fn is_digit(c: char) -> bool {
    '0' <= c && c <= '9'
}

/// The letters with which an unquoted name can start.
pub open spec fn is_letter(c: char) -> bool {
    ('a' <= c && c <= 'z') || ('A' <= c && c <= 'Z')
}

/// The characters that may follow the first letter of an unquoted name.
pub open spec fn is_name_char(c: char) -> bool {
    is_letter(c) || is_digit(c) || c == '_'
}

/// The hexadecimal digits, in either case.
pub open spec fn is_hex_digit(c: char) -> bool {
    is_digit(c) || ('a' <= c && c <= 'f') || ('A' <= c && c <= 'F')
}

/// The number that a hexadecimal digit stands for.
pub open spec fn hex_value(c: char) -> int {
    if is_digit(c) {
        c as int - '0' as int
    } else if 'a' <= c && c <= 'f' {
        c as int - 'a' as int + 10
    } else {
        c as int - 'A' as int + 10
    }
}

/// The blanks: space, tab, line feed and carriage return.
pub open spec fn is_space(c: char) -> bool {
    c == ' ' || c == '\t' || c == '\n' || c == '\r'
}

/// The control characters of Unicode: U+0000 to U+001F and U+007F to U+009F.
pub open spec fn is_control(c: char) -> bool {
    (c as int) < 0x20 || (0x7f <= c as int && c as int <= 0x9f)
}

/// The character `c` stands at position `i` of `s`.
pub open spec fn at(s: Seq<char>, i: int, c: char) -> bool {
    0 <= i && i < s.len() && s[i] == c
}

/// The word `null` stands at position `i` of `s`.
pub open spec fn at_null(s: Seq<char>, i: int) -> bool {
    at(s, i, 'n') && at(s, i + 1, 'u') && at(s, i + 2, 'l') && at(s, i + 3, 'l')
}

/// The word `true` stands at position `i` of `s`.
pub open spec fn at_true(s: Seq<char>, i: int) -> bool {
    at(s, i, 't') && at(s, i + 1, 'r') && at(s, i + 2, 'u') && at(s, i + 3, 'e')
}

/// The word `false` stands at position `i` of `s`.
pub open spec fn at_false(s: Seq<char>, i: int) -> bool {
    at(s, i, 'f') && at(s, i + 1, 'a') && at(s, i + 2, 'l') && at(s, i + 3, 's') && at(
        s,
        i + 4,
        'e',
    )
}

/// The word `NaN` stands at position `i` of `s`.
pub open spec fn at_nan(s: Seq<char>, i: int) -> bool {
    at(s, i, 'N') && at(s, i + 1, 'a') && at(s, i + 2, 'N')
}

/// The word `Infinity` stands at position `i` of `s`.
pub open spec fn at_infinity(s: Seq<char>, i: int) -> bool {
    at(s, i, 'I') && at(s, i + 1, 'n') && at(s, i + 2, 'f') && at(s, i + 3, 'i') && at(
        s,
        i + 4,
        'n',
    ) && at(s, i + 5, 'i') && at(s, i + 6, 't') && at(s, i + 7, 'y')
}

/// The word `-Infinity` stands at position `i` of `s`.
pub open spec fn at_neg_infinity(s: Seq<char>, i: int) -> bool {
    at(s, i, '-') && at_infinity(s, i + 1)
}

/// The end of the longest run of digits that starts at `i`.
pub open spec fn digits_end(s: Seq<char>, i: int) -> int
    decreases s.len() - i,
{
    if 0 <= i && i < s.len() && is_digit(s[i]) {
        digits_end(s, i + 1)
    } else {
        i
    }
}

/// The end of the longest run of name characters that starts at `i`.
pub open spec fn name_end(s: Seq<char>, i: int) -> int
    decreases s.len() - i,
{
    if 0 <= i && i < s.len() && is_name_char(s[i]) {
        name_end(s, i + 1)
    } else {
        i
    }
}

/// The position of the first line feed at or after `i`, or the end of the text.
pub open spec fn line_end(s: Seq<char>, i: int) -> int
    decreases s.len() - i,
{
    if 0 <= i && i < s.len() && s[i] != '\n' {
        line_end(s, i + 1)
    } else {
        i
    }
}

/// The position just behind the first `*/` that starts at or after `i`.
pub open spec fn block_end(s: Seq<char>, i: int) -> Option<int>
    decreases s.len() - i,
{
    if i < 0 || i + 1 >= s.len() {
        None
    } else if s[i] == '*' && s[i + 1] == '/' {
        Some(i + 2)
    } else {
        block_end(s, i + 1)
    }
}

/// The first position at or after `i` that is neither blank nor inside a
/// comment. A `/*` that is never closed is no comment, and stops the skipping.
pub open spec fn skip(s: Seq<char>, i: int) -> int
    decreases s.len() - i,
{
    if i < 0 || i >= s.len() {
        i
    } else if is_space(s[i]) {
        skip(s, i + 1)
    } else if at(s, i, '/') && at(s, i + 1, '/') {
        proof {
            lemma_line_end_bounds(s, i + 2);
        }
        skip(s, line_end(s, i + 2))
    } else if at(s, i, '/') && at(s, i + 1, '*') {
        proof {
            lemma_block_end_bounds(s, i + 2);
        }
        match block_end(s, i + 2) {
            Some(j) => skip(s, j),
            None => i,
        }
    } else {
        i
    }
}

/// The end of the longest run of hexadecimal digits that starts at `i` and
/// stays below `limit`.
pub open spec fn hex_end(s: Seq<char>, i: int, limit: int) -> int
    decreases limit - i,
{
    if 0 <= i && i < s.len() && i < limit && is_hex_digit(s[i]) {
        hex_end(s, i + 1, limit)
    } else {
        i
    }
}

/// What a backslash followed by `c` stands for, if that is a fixed escape.
pub open spec fn escape_of(c: char) -> Option<char> {
    if c == '"' {
        Some('"')
    } else if c == '\\' {
        Some('\\')
    } else if c == '/' {
        Some('/')
    } else if c == 'b' {
        Some('\u{8}')
    } else if c == 'f' {
        Some('\u{c}')
    } else if c == 'n' {
        Some('\n')
    } else if c == 'r' {
        Some('\r')
    } else if c == 't' {
        Some('\t')
    } else {
        None
    }
}

/// The low byte of the number that the four hexadecimal digits from `i` on
/// denote: the value of the last two of them.
pub open spec fn low_byte(s: Seq<char>, i: int) -> int {
    hex_value(s[i + 2]) * 16 + hex_value(s[i + 3])
}

/// The rest of a quoted string, from a position `i` behind the opening quote:
/// the characters it denotes, appended to `acc`, and the position behind the
/// closing quote.
///
/// A raw character stands for itself. A fixed escape stands for one character.
/// A `\u` escape stands for the character whose code is the low byte of its
/// four digits, and is refused where that byte is above 0x7F, since such a
/// byte is no character by itself.
pub open spec fn string_body(s: Seq<char>, i: int, acc: Seq<char>) -> Result<
    (Seq<char>, int),
    Fault,
>
    decreases s.len() - i,
{
    if i < 0 || i >= s.len() {
        Err(Fault { at: i, kind: ErrorKind::UnterminatedString })
    } else if s[i] == '"' {
        Ok((acc, i + 1))
    } else if s[i] == '\\' {
        if i + 1 >= s.len() {
            Err(Fault { at: i + 1, kind: ErrorKind::UnterminatedString })
        } else if s[i + 1] == 'u' {
            let h = hex_end(s, i + 2, i + 6);
            if h < i + 6 {
                Err(Fault { at: h, kind: ErrorKind::ExpectedHexDigit })
            } else if low_byte(s, i + 2) >= 0x80 {
                Err(Fault { at: i, kind: ErrorKind::EscapeOutOfRange })
            } else {
                proof {
                    lemma_hex_end_bounds(s, i + 2, i + 6);
                }
                string_body(s, i + 6, acc.push(low_byte(s, i + 2) as u8 as char))
            }
        } else {
            match escape_of(s[i + 1]) {
                Some(c) => string_body(s, i + 2, acc.push(c)),
                None => Err(Fault { at: i + 1, kind: ErrorKind::InvalidEscape }),
            }
        }
    } else if is_control(s[i]) {
        Err(Fault { at: i, kind: ErrorKind::ControlCharacter })
    } else {
        string_body(s, i + 1, acc.push(s[i]))
    }
}

/// A field name or variant tag at `i`: a letter followed by name characters,
/// or a quoted string. The name it denotes and the position behind it.
pub open spec fn name_at(s: Seq<char>, i: int) -> Result<(Seq<char>, int), Fault> {
    if 0 <= i && i < s.len() && is_letter(s[i]) {
        Ok((s.subrange(i, name_end(s, i + 1)), name_end(s, i + 1)))
    } else if at(s, i, '"') {
        string_body(s, i + 1, Seq::empty())
    } else {
        Err(Fault { at: i, kind: ErrorKind::ExpectedName })
    }
}

/// The number that a sequence of decimal digits denotes.
pub open spec fn digits_value(ds: Seq<char>) -> nat
    decreases ds.len(),
{
    if ds.len() == 0 {
        0
    } else {
        (digits_value(ds.drop_last()) * 10 + (ds.last() as int - '0' as int)) as nat
    }
}

/// The end of an optional fraction at `i`: a point and at least one digit.
pub open spec fn fraction_end(s: Seq<char>, i: int) -> Result<int, Fault> {
    if at(s, i, '.') {
        if digits_end(s, i + 1) == i + 1 {
            Err(Fault { at: i + 1, kind: ErrorKind::ExpectedDigit })
        } else {
            Ok(digits_end(s, i + 1))
        }
    } else {
        Ok(i)
    }
}

/// The position at which the digits of an exponent start, whose mark stands at `i`.
pub open spec fn exponent_digits(s: Seq<char>, i: int) -> int {
    if at(s, i + 1, '+') || at(s, i + 1, '-') {
        i + 2
    } else {
        i + 1
    }
}

/// The end of an optional exponent at `i`: `e` or `E`, an optional sign and
/// at least one digit.
pub open spec fn exponent_end(s: Seq<char>, i: int) -> Result<int, Fault> {
    if at(s, i, 'e') || at(s, i, 'E') {
        let d = exponent_digits(s, i);
        if digits_end(s, d) == d {
            Err(Fault { at: d, kind: ErrorKind::ExpectedDigit })
        } else {
            Ok(digits_end(s, d))
        }
    } else {
        Ok(i)
    }
}

/// The integer that an optional minus sign and the digits from `from` to `to` denote.
pub open spec fn signed_value(s: Seq<char>, negative: bool, from: int, to: int) -> int {
    if negative {
        -(digits_value(s.subrange(from, to)) as int)
    } else {
        digits_value(s.subrange(from, to)) as int
    }
}

/// A number at `i`: an optional minus sign, digits, an optional fraction and
/// an optional exponent. With neither fraction nor exponent it is an integer,
/// refused where it does not fit 64 signed bits; otherwise it is a float,
/// which is kept as it is written. The value and the position behind it.
pub open spec fn number_at(s: Seq<char>, i: int) -> Result<(SpecValue, int), Fault> {
    let negative = at(s, i, '-');
    let first = if negative {
        i + 1
    } else {
        i
    };
    let whole = digits_end(s, first);
    if whole == first {
        Err(Fault { at: first, kind: ErrorKind::ExpectedDigit })
    } else {
        match fraction_end(s, whole) {
            Err(f) => Err(f),
            Ok(frac) => match exponent_end(s, frac) {
                Err(f) => Err(f),
                Ok(end) => if end == whole {
                    let n = signed_value(s, negative, first, whole);
                    if i64::MIN <= n && n <= i64::MAX {
                        Ok((SpecValue::Integer(n as i64), whole))
                    } else {
                        Err(Fault { at: i, kind: ErrorKind::IntegerOutOfRange })
                    }
                } else {
                    Ok((SpecValue::Float(s.subrange(i, end)), end))
                },
            },
        }
    }
}

/// The kind of the failure where a list that `close` ends goes on with
/// neither a comma nor `close`.
pub open spec fn list_fault(close: char) -> ErrorKind {
    if close == ']' {
        ErrorKind::ExpectedArrayNext
    } else {
        ErrorKind::ExpectedTupleNext
    }
}

/// A value at `i`, and the number of characters it takes.
pub open spec fn value_at(s: Seq<char>, i: int) -> Result<(SpecValue, nat), Fault>
    decreases s.len() - i, 1nat,
{
    if i < 0 || i >= s.len() {
        Err(Fault { at: i, kind: ErrorKind::ExpectedValue })
    } else if at_null(s, i) {
        Ok((SpecValue::Null, 4))
    } else if at_true(s, i) {
        Ok((SpecValue::Bool(true), 4))
    } else if at_false(s, i) {
        Ok((SpecValue::Bool(false), 5))
    } else if at_nan(s, i) {
        Ok((SpecValue::Float(s.subrange(i, i + 3)), 3))
    } else if at_infinity(s, i) {
        Ok((SpecValue::Float(s.subrange(i, i + 8)), 8))
    } else if at_neg_infinity(s, i) {
        Ok((SpecValue::Float(s.subrange(i, i + 9)), 9))
    } else if s[i] == '-' || is_digit(s[i]) {
        match number_at(s, i) {
            Ok((v, end)) => Ok((v, (end - i) as nat)),
            Err(f) => Err(f),
        }
    } else if s[i] == '"' {
        match string_body(s, i + 1, Seq::empty()) {
            Ok((text, end)) => Ok((SpecValue::String(text), (end - i) as nat)),
            Err(f) => Err(f),
        }
    } else if s[i] == '[' {
        array_at(s, i)
    } else if s[i] == '(' {
        tuple_at(s, i)
    } else if s[i] == '{' {
        assoc_at(s, i)
    } else if s[i] == '<' {
        variant_at(s, i)
    } else {
        Err(Fault { at: i, kind: ErrorKind::ExpectedValue })
    }
}

/// An array, whose `[` stands at `i`: no element, or elements between commas.
pub open spec fn array_at(s: Seq<char>, i: int) -> Result<(SpecValue, nat), Fault>
    decreases s.len() - i, 0nat,
{
    if i < 0 || i >= s.len() {
        Err(Fault { at: i, kind: ErrorKind::ExpectedValue })
    } else {
        let first = skip(s, i + 1);
        proof {
            lemma_skip_bounds(s, i + 1);
        }
        if at(s, first, ']') {
            Ok((SpecValue::Array(Seq::empty()), (first + 1 - i) as nat))
        } else {
            match elements_at(s, first, Seq::empty(), ']') {
                Ok((items, n)) => Ok((SpecValue::Array(items), (first + n - i) as nat)),
                Err(f) => Err(f),
            }
        }
    }
}

/// A tuple, whose `(` stands at `i`: two elements or more, between commas.
pub open spec fn tuple_at(s: Seq<char>, i: int) -> Result<(SpecValue, nat), Fault>
    decreases s.len() - i, 0nat,
{
    if i < 0 || i >= s.len() {
        Err(Fault { at: i, kind: ErrorKind::ExpectedValue })
    } else {
        let first = skip(s, i + 1);
        proof {
            lemma_skip_bounds(s, i + 1);
        }
        match elements_at(s, first, Seq::empty(), ')') {
            Ok((items, n)) => if items.len() >= 2 {
                Ok((SpecValue::Tuple(items), (first + n - i) as nat))
            } else {
                Err(Fault { at: first + n - 1, kind: ErrorKind::TupleTooShort })
            },
            Err(f) => Err(f),
        }
    }
}

/// An object, whose `{` stands at `i`: no field, or fields between commas.
pub open spec fn assoc_at(s: Seq<char>, i: int) -> Result<(SpecValue, nat), Fault>
    decreases s.len() - i, 0nat,
{
    if i < 0 || i >= s.len() {
        Err(Fault { at: i, kind: ErrorKind::ExpectedValue })
    } else {
        let first = skip(s, i + 1);
        proof {
            lemma_skip_bounds(s, i + 1);
        }
        if at(s, first, '}') {
            Ok((SpecValue::Assoc(Seq::empty()), (first + 1 - i) as nat))
        } else {
            match fields_at(s, first, Seq::empty()) {
                Ok((entries, n)) => Ok((SpecValue::Assoc(entries), (first + n - i) as nat)),
                Err(f) => Err(f),
            }
        }
    }
}

/// A variant, whose `<` stands at `i`: a tag, then either `>`, or a colon, one
/// value and `>`.
pub open spec fn variant_at(s: Seq<char>, i: int) -> Result<(SpecValue, nat), Fault>
    decreases s.len() - i, 0nat,
{
    if i < 0 || i >= s.len() {
        Err(Fault { at: i, kind: ErrorKind::ExpectedValue })
    } else {
        let tag = skip(s, i + 1);
        proof {
            lemma_skip_bounds(s, i + 1);
            lemma_name_at_bounds(s, tag);
        }
        match name_at(s, tag) {
            Err(f) => Err(f),
            Ok((name, after)) => {
                let next = skip(s, after);
                proof {
                    lemma_skip_bounds(s, after);
                }
                if at(s, next, '>') {
                    Ok((SpecValue::Variant(name, None), (next + 1 - i) as nat))
                } else if at(s, next, ':') {
                    let arg = skip(s, next + 1);
                    proof {
                        lemma_skip_bounds(s, next + 1);
                    }
                    match value_at(s, arg) {
                        Err(f) => Err(f),
                        Ok((v, n)) => {
                            let close = skip(s, arg + n);
                            if at(s, close, '>') {
                                Ok(
                                    (
                                        SpecValue::Variant(name, Some(Box::new(v))),
                                        (close + 1 - i) as nat,
                                    ),
                                )
                            } else {
                                Err(Fault { at: close, kind: ErrorKind::ExpectedVariantClose })
                            }
                        },
                    }
                } else {
                    Err(Fault { at: next, kind: ErrorKind::ExpectedVariantNext })
                }
            },
        }
    }
}

/// The elements of an array or tuple from `i` on, up to and with the bracket
/// `close`: a value, then either a comma and more elements, or `close`. The
/// elements, appended to `acc`, and the number of characters taken.
pub open spec fn elements_at(s: Seq<char>, i: int, acc: Seq<SpecValue>, close: char) -> Result<
    (Seq<SpecValue>, nat),
    Fault,
>
    decreases s.len() - i, 2nat,
{
    match value_at(s, i) {
        Err(f) => Err(f),
        Ok((v, n)) => {
            let next = skip(s, i + n);
            if at(s, next, ',') {
                let more = skip(s, next + 1);
                proof {
                    lemma_skip_bounds(s, i + n);
                    lemma_skip_bounds(s, next + 1);
                }
                match elements_at(s, more, acc.push(v), close) {
                    Ok((items, m)) => Ok((items, (more + m - i) as nat)),
                    Err(f) => Err(f),
                }
            } else if at(s, next, close) {
                Ok((acc.push(v), (next + 1 - i) as nat))
            } else {
                Err(Fault { at: next, kind: list_fault(close) })
            }
        },
    }
}

/// The fields of an object from `i` on, up to and with the closing brace: a
/// name, a colon and a value, then either a comma and more fields, or `}`.
/// Each field is entered into `acc` in turn, so that of two fields with one
/// name the later one stays. The entries and the number of characters taken.
pub open spec fn fields_at(s: Seq<char>, i: int, acc: Seq<(Seq<char>, SpecValue)>) -> Result<
    (Seq<(Seq<char>, SpecValue)>, nat),
    Fault,
>
    decreases s.len() - i, 2nat,
{
    match name_at(s, i) {
        Err(f) => Err(f),
        Ok((name, after)) => {
            let colon = skip(s, after);
            if !at(s, colon, ':') {
                Err(Fault { at: colon, kind: ErrorKind::ExpectedColon })
            } else {
                let start = skip(s, colon + 1);
                proof {
                    lemma_name_at_bounds(s, i);
                    lemma_skip_bounds(s, after);
                    lemma_skip_bounds(s, colon + 1);
                }
                match value_at(s, start) {
                    Err(f) => Err(f),
                    Ok((v, n)) => {
                        let next = skip(s, start + n);
                        if at(s, next, ',') {
                            let more = skip(s, next + 1);
                            proof {
                                lemma_skip_bounds(s, start + n);
                                lemma_skip_bounds(s, next + 1);
                            }
                            match fields_at(s, more, insert_entry(acc, name, v)) {
                                Ok((entries, m)) => Ok((entries, (more + m - i) as nat)),
                                Err(f) => Err(f),
                            }
                        } else if at(s, next, '}') {
                            Ok((insert_entry(acc, name, v), (next + 1 - i) as nat))
                        } else {
                            Err(Fault { at: next, kind: ErrorKind::ExpectedAssocNext })
                        }
                    },
                }
            }
        },
    }
}

/// A whole text: one value, with nothing but blanks and comments around it.
pub open spec fn document(s: Seq<char>) -> Result<SpecValue, Fault> {
    match value_at(s, skip(s, 0)) {
        Err(f) => Err(f),
        Ok((v, n)) => if skip(s, skip(s, 0) + n) == s.len() {
            Ok(v)
        } else {
            Err(Fault { at: skip(s, skip(s, 0) + n), kind: ErrorKind::ExpectedEnd })
        },
    }
}

/// Whether `t` is a float as the dialect writes it: read as a value, it is a
/// float that takes all of `t`.
pub open spec fn is_float_text(t: Seq<char>) -> bool {
    value_at(t, 0) == Ok::<(SpecValue, nat), Fault>((SpecValue::Float(t), t.len()))
}

/// A float that is read from a text is the part of the text that it takes.
pub(crate) proof fn lemma_float_is_its_text(s: Seq<char>, i: int)
    requires
        0 <= i,
    ensures
        value_at(s, i) matches Ok((SpecValue::Float(text), n)) ==> text == s.subrange(
            i,
            i + n,
        ),
{
    if 0 <= i < s.len() && (s[i] == '-' || is_digit(s[i])) {
        lemma_number_at_bounds(s, i);
    }
}

/// A number ends behind its start and within the text, and is an integer or
/// the float that is written there.
pub proof fn lemma_number_at_bounds(s: Seq<char>, i: int)
    requires
        0 <= i < s.len(),
    ensures
        number_at(s, i) matches Ok((v, end)) ==> i < end <= s.len() && (v is Integer
            || v == SpecValue::Float(s.subrange(i, end))),
{
    let first = if at(s, i, '-') {
        i + 1
    } else {
        i
    };
    lemma_digits_end_bounds(s, first);
    let whole = digits_end(s, first);
    if at(s, whole, '.') {
        lemma_digits_end_bounds(s, whole + 1);
    }
    match fraction_end(s, whole) {
        Ok(frac) => {
            if at(s, frac, 'e') || at(s, frac, 'E') {
                lemma_digits_end_bounds(s, exponent_digits(s, frac));
            }
        },
        Err(_) => {},
    }
}

/// The number of line feeds among the first `at` characters.
pub open spec fn newlines_before(s: Seq<char>, at: int) -> nat
    decreases at,
{
    if at <= 0 || at > s.len() {
        0
    } else if s[at - 1] == '\n' {
        newlines_before(s, at - 1) + 1
    } else {
        newlines_before(s, at - 1)
    }
}

/// The position at which the line that holds position `at` starts.
pub open spec fn line_start(s: Seq<char>, at: int) -> int
    decreases at,
{
    if at <= 0 || at > s.len() {
        0
    } else if s[at - 1] == '\n' {
        at
    } else {
        line_start(s, at - 1)
    }
}

/// The line of position `at`, counted from 1.
pub open spec fn line_of(s: Seq<char>, at: int) -> int {
    newlines_before(s, at) as int + 1
}

/// The place of position `at` in its line, counted from 1.
pub open spec fn column_of(s: Seq<char>, at: int) -> int {
    at - line_start(s, at) + 1
}

/// A string ends behind the position from which it is read, within the text.
pub proof fn lemma_string_body_bounds(s: Seq<char>, i: int, acc: Seq<char>)
    requires
        0 <= i,
    ensures
        string_body(s, i, acc) matches Ok((_, end)) ==> i < end <= s.len(),
    decreases s.len() - i,
{
    if i >= s.len() {
    } else if s[i] == '"' {
    } else if s[i] == '\\' {
        if i + 1 >= s.len() {
        } else if s[i + 1] == 'u' {
            lemma_hex_end_bounds(s, i + 2, i + 6);
            if hex_end(s, i + 2, i + 6) == i + 6 {
                lemma_string_body_bounds(s, i + 6, acc.push(low_byte(s, i + 2) as u8 as char));
            }
        } else {
            match escape_of(s[i + 1]) {
                Some(c) => {
                    lemma_string_body_bounds(s, i + 2, acc.push(c));
                },
                None => {},
            }
        }
    } else if is_control(s[i]) {
    } else {
        lemma_string_body_bounds(s, i + 1, acc.push(s[i]));
    }
}

/// A name ends behind its start, within the text.
pub proof fn lemma_name_at_bounds(s: Seq<char>, i: int)
    requires
        0 <= i,
    ensures
        name_at(s, i) matches Ok((_, end)) ==> i < end <= s.len(),
{
    if i < s.len() && is_letter(s[i]) {
        lemma_name_end_bounds(s, i + 1);
    } else if at(s, i, '"') {
        lemma_string_body_bounds(s, i + 1, Seq::empty());
    }
}

/// A run of hexadecimal digits ends within the text and the limit, and holds
/// hexadecimal digits only.
pub proof fn lemma_hex_end_bounds(s: Seq<char>, i: int, limit: int)
    requires
        0 <= i <= limit,
        i <= s.len(),
    ensures
        i <= hex_end(s, i, limit) <= limit,
        hex_end(s, i, limit) <= s.len(),
        forall|k: int| i <= k < hex_end(s, i, limit) ==> is_hex_digit(#[trigger] s[k]),
    decreases limit - i,
{
    if i < s.len() && i < limit && is_hex_digit(s[i]) {
        lemma_hex_end_bounds(s, i + 1, limit);
    }
}

/// A run of digits ends within the text, holds digits only, and no digit
/// follows it.
pub proof fn lemma_digits_end_bounds(s: Seq<char>, i: int)
    requires
        0 <= i <= s.len(),
    ensures
        i <= digits_end(s, i) <= s.len(),
        forall|k: int| i <= k < digits_end(s, i) ==> is_digit(#[trigger] s[k]),
        digits_end(s, i) < s.len() ==> !is_digit(s[digits_end(s, i)]),
    decreases s.len() - i,
{
    if i < s.len() && is_digit(s[i]) {
        lemma_digits_end_bounds(s, i + 1);
    }
}

/// A run of name characters ends within the text, holds name characters
/// only, and no name character follows it.
pub proof fn lemma_name_end_bounds(s: Seq<char>, i: int)
    requires
        0 <= i <= s.len(),
    ensures
        i <= name_end(s, i) <= s.len(),
        forall|k: int| i <= k < name_end(s, i) ==> is_name_char(#[trigger] s[k]),
        name_end(s, i) < s.len() ==> !is_name_char(s[name_end(s, i)]),
    decreases s.len() - i,
{
    if i < s.len() && is_name_char(s[i]) {
        lemma_name_end_bounds(s, i + 1);
    }
}

/// A line ends within the text.
pub proof fn lemma_line_end_bounds(s: Seq<char>, i: int)
    requires
        0 <= i <= s.len(),
    ensures
        i <= line_end(s, i) <= s.len(),
    decreases s.len() - i,
{
    if i < s.len() && s[i] != '\n' {
        lemma_line_end_bounds(s, i + 1);
    }
}

/// A comment's end lies behind its two closing characters, within the text.
pub proof fn lemma_block_end_bounds(s: Seq<char>, i: int)
    requires
        0 <= i,
    ensures
        block_end(s, i) matches Some(j) ==> i + 2 <= j <= s.len(),
    decreases s.len() - i,
{
    if i + 1 < s.len() && !(s[i] == '*' && s[i + 1] == '/') {
        lemma_block_end_bounds(s, i + 1);
    }
}

/// Skipping blanks and comments goes forward, and stays within the text.
pub proof fn lemma_skip_bounds(s: Seq<char>, i: int)
    requires
        0 <= i <= s.len(),
    ensures
        i <= skip(s, i) <= s.len(),
    decreases s.len() - i,
{
    if i >= s.len() {
    } else if is_space(s[i]) {
        lemma_skip_bounds(s, i + 1);
    } else if at(s, i, '/') && at(s, i + 1, '/') {
        lemma_line_end_bounds(s, i + 2);
        lemma_skip_bounds(s, line_end(s, i + 2));
    } else if at(s, i, '/') && at(s, i + 1, '*') {
        lemma_block_end_bounds(s, i + 2);
        match block_end(s, i + 2) {
            Some(j) => {
                lemma_skip_bounds(s, j);
            },
            None => {},
        }
    }
}

} // verus!
