//! The parser: a text in, a value or the place of the first fault out.

use vstd::prelude::*;
use crate::error::{ErrorKind, SyntaxError};
use crate::grammar::{
    array_at, assoc_at, at, at_false, at_infinity, at_nan, at_neg_infinity, at_null, at_true,
    block_end, column_of, digits_end, digits_value, document, elements_at, escape_of, fields_at,
    hex_end, hex_value, is_control, is_digit, is_hex_digit, is_letter, is_name_char, is_space,
    lemma_digits_end_bounds, lemma_hex_end_bounds, lemma_string_body_bounds, line_end, line_of,
    line_start, list_fault, name_at, name_end, newlines_before, number_at, signed_value, skip,
    string_body, tuple_at, value_at, variant_at, Fault,
};
use crate::laws::{
    lemma_number_alone, lemma_parsed_is_representable, lemma_value_at_representable,
    representable,
};
use crate::text::chars_of;
use crate::value::{lemma_views, views, Assoc, Float, SpecValue, Value};

verus! {

/// Where the parser gave up, as a position in the text's characters.
pub(crate) struct Stop {
    pub at: usize,
    pub kind: ErrorKind,
}

impl View for Stop {
    type V = Fault;

    closed spec fn view(&self) -> Fault {
        Fault { at: self.at as int, kind: self.kind }
    }
}

fn stop<T>(at: usize, kind: ErrorKind) -> (r: Result<T, Stop>)
    ensures
        r matches Err(e) && e@ == (Fault { at: at as int, kind }) && e.at == at,
{
    Err(Stop { at, kind })
}

fn check_digit(c: char) -> (r: bool)
    ensures
        r == is_digit(c),
{
    '0' <= c && c <= '9'
}

fn check_letter(c: char) -> (r: bool)
    ensures
        r == is_letter(c),
{
    ('a' <= c && c <= 'z') || ('A' <= c && c <= 'Z')
}

fn check_name_char(c: char) -> (r: bool)
    ensures
        r == is_name_char(c),
{
    check_letter(c) || check_digit(c) || c == '_'
}

fn check_hex_digit(c: char) -> (r: bool)
    ensures
        r == is_hex_digit(c),
{
    check_digit(c) || ('a' <= c && c <= 'f') || ('A' <= c && c <= 'F')
}

fn check_space(c: char) -> (r: bool)
    ensures
        r == is_space(c),
{
    c == ' ' || c == '\t' || c == '\n' || c == '\r'
}

fn check_control(c: char) -> (r: bool)
    ensures
        r == is_control(c),
{
    let code: u32 = c as u32;
    code < 0x20 || (0x7f <= code && code <= 0x9f)
}

fn hex_digit_value(c: char) -> (r: u8)
    requires
        is_hex_digit(c),
    ensures
        r as int == hex_value(c),
        r < 16,
{
    let code: u32 = c as u32;
    if check_digit(c) {
        (code - '0' as u32) as u8
    } else if 'a' <= c && c <= 'f' {
        (code - 'a' as u32 + 10) as u8
    } else {
        (code - 'A' as u32 + 10) as u8
    }
}

fn check_at(s: &Vec<char>, i: usize, c: char) -> (r: bool)
    ensures
        r == at(s@, i as int, c),
{
    i < s.len() && s[i] == c
}

fn scan_digits(s: &Vec<char>, i: usize) -> (end: usize)
    requires
        i <= s.len(),
    ensures
        end as int == digits_end(s@, i as int),
        i <= end <= s.len(),
{
    let mut j: usize = i;
    while j < s.len() && check_digit(s[j])
        invariant
            i <= j <= s.len(),
            digits_end(s@, i as int) == digits_end(s@, j as int),
        decreases s.len() - j,
    {
        j += 1;
    }
    j
}

fn scan_name(s: &Vec<char>, i: usize) -> (end: usize)
    requires
        i <= s.len(),
    ensures
        end as int == name_end(s@, i as int),
        i <= end <= s.len(),
{
    let mut j: usize = i;
    while j < s.len() && check_name_char(s[j])
        invariant
            i <= j <= s.len(),
            name_end(s@, i as int) == name_end(s@, j as int),
        decreases s.len() - j,
    {
        j += 1;
    }
    j
}

fn scan_line(s: &Vec<char>, i: usize) -> (end: usize)
    requires
        i <= s.len(),
    ensures
        end as int == line_end(s@, i as int),
        i <= end <= s.len(),
{
    let mut j: usize = i;
    while j < s.len() && s[j] != '\n'
        invariant
            i <= j <= s.len(),
            line_end(s@, i as int) == line_end(s@, j as int),
        decreases s.len() - j,
    {
        j += 1;
    }
    j
}

fn scan_block(s: &Vec<char>, i: usize) -> (end: Option<usize>)
    requires
        i <= s.len(),
    ensures
        match block_end(s@, i as int) {
            Some(j) => end == Some(j as usize) && i + 2 <= j <= s.len(),
            None => end is None,
        },
{
    let mut j: usize = i;
    while j < s.len() && j + 1 < s.len()
        invariant
            i <= j <= s.len(),
            block_end(s@, i as int) == block_end(s@, j as int),
        decreases s.len() - j,
    {
        if s[j] == '*' && s[j + 1] == '/' {
            return Some(j + 2);
        }
        j += 1;
    }
    None
}

/// Skips blanks and comments.
fn skip_blank(s: &Vec<char>, i: usize) -> (end: usize)
    requires
        i <= s.len(),
    ensures
        end as int == skip(s@, i as int),
        i <= end <= s.len(),
{
    let mut j: usize = i;
    loop
        invariant
            i <= j <= s.len(),
            skip(s@, i as int) == skip(s@, j as int),
        ensures
            i <= j <= s.len(),
            j as int == skip(s@, i as int),
        decreases s.len() - j,
    {
        if j >= s.len() {
            break ;
        }
        let c = s[j];
        if check_space(c) {
            j += 1;
        } else if c == '/' && check_at(s, j + 1, '/') {
            j = scan_line(s, j + 2);
        } else if c == '/' && check_at(s, j + 1, '*') {
            match scan_block(s, j + 2) {
                Some(k) => {
                    j = k;
                },
                None => {
                    break ;
                },
            }
        } else {
            break ;
        }
    }
    j
}

fn scan_hex(s: &Vec<char>, i: usize) -> (end: usize)
    requires
        i <= s.len(),
    ensures
        end as int == hex_end(s@, i as int, i + 4),
        i <= end <= s.len(),
        end <= i + 4,
{
    let mut j: usize = i;
    let mut n: usize = 0;
    while n < 4 && j < s.len() && check_hex_digit(s[j])
        invariant
            i <= j <= s.len(),
            j == i + n,
            n <= 4,
            hex_end(s@, i as int, i + 4) == hex_end(s@, j as int, i + 4),
        decreases 4 - n,
    {
        j += 1;
        n += 1;
    }
    j
}

fn escape(c: char) -> (r: Option<char>)
    ensures
        r == escape_of(c),
{
    if c == '"' {
        Some('"')
    } else if c == '\\' {
        Some('\\')
    } else if c == '/' {
        Some('/')
    } else if c == 'b' {
        Some('\u{8}')
    } else if c == 'f' {
        Some('\u{c}')
    } else if c == 'n' {
        Some('\n')
    } else if c == 'r' {
        Some('\r')
    } else if c == 't' {
        Some('\t')
    } else {
        None
    }
}

/// The characters of `s` from `from` up to `to`, as a string.
fn copy_range(s: &Vec<char>, from: usize, to: usize) -> (out: String)
    requires
        from <= to <= s.len(),
    ensures
        out@ == s@.subrange(from as int, to as int),
{
    let mut out = String::new();
    let mut j: usize = from;
    while j < to
        invariant
            from <= j <= to <= s.len(),
            out@ == s@.subrange(from as int, j as int),
        decreases to - j,
    {
        out.push(s[j]);
        j += 1;
        assert(s@.subrange(from as int, j as int) =~= s@.subrange(from as int, j as int - 1).push(
            s@[j as int - 1],
        ));
    }
    out
}

/// Reads the rest of a quoted string, from behind its opening quote.
fn parse_string(s: &Vec<char>, i: usize) -> (r: Result<(String, usize), Stop>)
    requires
        i <= s.len(),
    ensures
        match string_body(s@, i as int, Seq::empty()) {
            Ok((text, end)) => r matches Ok((t, e)) && t@ == text && e as int == end && i < e
                <= s.len(),
            Err(f) => r matches Err(e) && e@ == f && e.at <= s.len(),
        },
{
    let mut out = String::new();
    let mut j: usize = i;
    proof {
        lemma_string_body_bounds(s@, i as int, Seq::empty());
    }
    loop
        invariant
            i <= j <= s.len(),
            string_body(s@, i as int, Seq::empty()) == string_body(s@, j as int, out@),
            string_body(s@, i as int, Seq::empty()) matches Ok((_, end)) ==> i < end <= s.len(),
        decreases s.len() - j,
    {
        if j >= s.len() {
            return stop(j, ErrorKind::UnterminatedString);
        }
        let c = s[j];
        if c == '"' {
            return Ok((out, j + 1));
        } else if c == '\\' {
            if j + 1 >= s.len() {
                return stop(j + 1, ErrorKind::UnterminatedString);
            }
            let e = s[j + 1];
            if e == 'u' {
                let h = scan_hex(s, j + 2);
                if h - j < 6 {
                    return stop(h, ErrorKind::ExpectedHexDigit);
                }
                proof {
                    lemma_hex_end_bounds(s@, j as int + 2, j as int + 6);
                }
                let b: u8 = hex_digit_value(s[j + 4]) * 16 + hex_digit_value(s[j + 5]);
                if b >= 0x80 {
                    return stop(j, ErrorKind::EscapeOutOfRange);
                }
                out.push(b as char);
                j += 6;
            } else {
                match escape(e) {
                    Some(d) => {
                        out.push(d);
                        j += 2;
                    },
                    None => {
                        return stop(j + 1, ErrorKind::InvalidEscape);
                    },
                }
            }
        } else if check_control(c) {
            return stop(j, ErrorKind::ControlCharacter);
        } else {
            out.push(c);
            j += 1;
        }
    }
}

/// Reads a field name or variant tag.
fn parse_name(s: &Vec<char>, i: usize) -> (r: Result<(String, usize), Stop>)
    requires
        i <= s.len(),
    ensures
        match name_at(s@, i as int) {
            Ok((name, end)) => r matches Ok((t, e)) && t@ == name && e as int == end && i < e
                <= s.len(),
            Err(f) => r matches Err(e) && e@ == f && e.at <= s.len(),
        },
{
    if i < s.len() && check_letter(s[i]) {
        let end = scan_name(s, i + 1);
        Ok((copy_range(s, i, end), end))
    } else if check_at(s, i, '"') {
        parse_string(s, i + 1)
    } else {
        stop(i, ErrorKind::ExpectedName)
    }
}

/// The integer that a sign and the digits from `from` to `to` denote, if it
/// fits 64 signed bits.
fn read_integer(s: &Vec<char>, negative: bool, from: usize, to: usize) -> (r: Option<i64>)
    requires
        from <= to <= s.len(),
        forall|k: int| from <= k < to ==> is_digit(#[trigger] s@[k]),
    ensures
        match r {
            Some(n) => n as int == signed_value(s@, negative, from as int, to as int),
            None => !(i64::MIN <= signed_value(s@, negative, from as int, to as int) <= i64::MAX),
        },
{
    let limit: u64 = 0x8000_0000_0000_0000;
    let mut acc: u64 = 0;
    let mut over: bool = false;
    let mut j: usize = from;
    assert(s@.subrange(from as int, from as int).len() == 0);
    while j < to
        invariant
            from <= j <= to <= s.len(),
            limit == 0x8000_0000_0000_0000,
            forall|k: int| from <= k < to ==> is_digit(#[trigger] s@[k]),
            !over ==> acc as nat == digits_value(s@.subrange(from as int, j as int)) && acc
                <= limit,
            over ==> digits_value(s@.subrange(from as int, j as int)) > limit,
        decreases to - j,
    {
        let d: u64 = (s[j] as u32 - '0' as u32) as u64;
        proof {
            let longer = s@.subrange(from as int, j as int + 1);
            assert(longer.drop_last() =~= s@.subrange(from as int, j as int));
            assert(longer.last() == s@[j as int]);
        }
        if !over {
            let t: u128 = acc as u128 * 10 + d as u128;
            if t > limit as u128 {
                over = true;
            } else {
                acc = t as u64;
            }
        }
        j += 1;
    }
    if over {
        None
    } else if negative {
        if acc == limit {
            Some(i64::MIN)
        } else {
            Some(-(acc as i64))
        }
    } else if acc == limit {
        None
    } else {
        Some(acc as i64)
    }
}

/// Reads a number, whose sign or first digit stands at `i`.
fn parse_number(s: &Vec<char>, i: usize) -> (r: Result<(Value, usize), Stop>)
    requires
        i < s.len(),
    ensures
        match number_at(s@, i as int) {
            Ok((v, end)) => r matches Ok((x, e)) && x@ == v && e as int == end && i < e
                <= s.len(),
            Err(f) => r matches Err(e) && e@ == f && e.at <= s.len(),
        },
{
    let negative = s[i] == '-';
    let first: usize = if negative {
        i + 1
    } else {
        i
    };
    let whole = scan_digits(s, first);
    if whole == first {
        return stop(first, ErrorKind::ExpectedDigit);
    }
    let mut end: usize = whole;
    if check_at(s, end, '.') {
        let frac = scan_digits(s, end + 1);
        if frac == end + 1 {
            return stop(end + 1, ErrorKind::ExpectedDigit);
        }
        end = frac;
    }
    if check_at(s, end, 'e') || check_at(s, end, 'E') {
        let digits: usize = if check_at(s, end + 1, '+') || check_at(s, end + 1, '-') {
            end + 2
        } else {
            end + 1
        };
        let exp = scan_digits(s, digits);
        if exp == digits {
            return stop(digits, ErrorKind::ExpectedDigit);
        }
        end = exp;
    }
    if end == whole {
        proof {
            lemma_digits_end_bounds(s@, first as int);
        }
        match read_integer(s, negative, first, whole) {
            Some(n) => Ok((Value::Integer(n), whole)),
            None => stop(i, ErrorKind::IntegerOutOfRange),
        }
    } else {
        proof {
            lemma_number_alone(s@, i as int);
        }
        Ok((Value::Float(Float::from_string(copy_range(s, i, end))), end))
    }
}

fn check_null(s: &Vec<char>, i: usize) -> (r: bool)
    requires
        i <= s.len(),
    ensures
        r == at_null(s@, i as int),
{
    s.len() - i >= 4 && s[i] == 'n' && s[i + 1] == 'u' && s[i + 2] == 'l' && s[i + 3] == 'l'
}

fn check_true(s: &Vec<char>, i: usize) -> (r: bool)
    requires
        i <= s.len(),
    ensures
        r == at_true(s@, i as int),
{
    s.len() - i >= 4 && s[i] == 't' && s[i + 1] == 'r' && s[i + 2] == 'u' && s[i + 3] == 'e'
}

fn check_false(s: &Vec<char>, i: usize) -> (r: bool)
    requires
        i <= s.len(),
    ensures
        r == at_false(s@, i as int),
{
    s.len() - i >= 5 && s[i] == 'f' && s[i + 1] == 'a' && s[i + 2] == 'l' && s[i + 3] == 's' && s[i + 4] == 'e'
}

fn check_nan(s: &Vec<char>, i: usize) -> (r: bool)
    requires
        i <= s.len(),
    ensures
        r == at_nan(s@, i as int),
{
    s.len() - i >= 3 && s[i] == 'N' && s[i + 1] == 'a' && s[i + 2] == 'N'
}

fn check_infinity(s: &Vec<char>, i: usize) -> (r: bool)
    requires
        i <= s.len(),
    ensures
        r == at_infinity(s@, i as int),
{
    s.len() - i >= 8 && s[i] == 'I' && s[i + 1] == 'n' && s[i + 2] == 'f' && s[i + 3] == 'i' && s[i + 4] == 'n' && s[i + 5] == 'i' && s[i + 6] == 't' && s[i + 7] == 'y'
}

fn check_neg_infinity(s: &Vec<char>, i: usize) -> (r: bool)
    requires
        i <= s.len(),
    ensures
        r == at_neg_infinity(s@, i as int),
{
    s.len() - i >= 9 && s[i] == '-' && s[i + 1] == 'I' && s[i + 2] == 'n' && s[i + 3] == 'f' && s[i + 4] == 'i' && s[i + 5] == 'n' && s[i + 6] == 'i' && s[i + 7] == 't' && s[i + 8] == 'y'
}

/// A result with its count of characters raised by `by`.
spec fn advanced<T>(r: Result<(T, nat), Fault>, by: int) -> Result<(T, nat), Fault> {
    match r {
        Ok((x, n)) => Ok((x, (n + by) as nat)),
        Err(f) => Err(f),
    }
}

/// Reads the value that starts at `i`.
pub(crate) fn parse_value(s: &Vec<char>, i: usize) -> (r: Result<(Value, usize), Stop>)
    requires
        i <= s.len(),
    ensures
        match value_at(s@, i as int) {
            Ok((v, n)) => r matches Ok((x, e)) && x@ == v && e as int == i + n && i < e
                <= s.len(),
            Err(f) => r matches Err(e) && e@ == f && e.at <= s.len(),
        },
    decreases s.len() - i, 1nat,
{
    if i >= s.len() {
        return stop(i, ErrorKind::ExpectedValue);
    }
    proof {
        lemma_value_at_representable(s@, i as int);
    }
    let c = s[i];
    if check_null(s, i) {
        Ok((Value::Null, i + 4))
    } else if check_true(s, i) {
        Ok((Value::Bool(true), i + 4))
    } else if check_false(s, i) {
        Ok((Value::Bool(false), i + 5))
    } else if check_nan(s, i) {
        Ok((Value::Float(Float::from_string(copy_range(s, i, i + 3))), i + 3))
    } else if check_infinity(s, i) {
        Ok((Value::Float(Float::from_string(copy_range(s, i, i + 8))), i + 8))
    } else if check_neg_infinity(s, i) {
        Ok((Value::Float(Float::from_string(copy_range(s, i, i + 9))), i + 9))
    } else if c == '-' || check_digit(c) {
        parse_number(s, i)
    } else if c == '"' {
        match parse_string(s, i + 1) {
            Ok((text, end)) => Ok((Value::String(text), end)),
            Err(e) => Err(e),
        }
    } else if c == '[' {
        parse_array(s, i)
    } else if c == '(' {
        parse_tuple(s, i)
    } else if c == '{' {
        parse_assoc(s, i)
    } else if c == '<' {
        parse_variant(s, i)
    } else {
        stop(i, ErrorKind::ExpectedValue)
    }
}

/// Reads an array, whose `[` stands at `i`.
fn parse_array(s: &Vec<char>, i: usize) -> (r: Result<(Value, usize), Stop>)
    requires
        i < s.len(),
    ensures
        match array_at(s@, i as int) {
            Ok((v, n)) => r matches Ok((x, e)) && x@ == v && e as int == i + n && i < e
                <= s.len(),
            Err(f) => r matches Err(e) && e@ == f && e.at <= s.len(),
        },
    decreases s.len() - i, 0nat,
{
    let first = skip_blank(s, i + 1);
    if check_at(s, first, ']') {
        let items: Vec<Value> = Vec::new();
        proof {
            lemma_views(items@);
            assert(views(items@) =~= Seq::<SpecValue>::empty());
        }
        Ok((Value::Array(items), first + 1))
    } else {
        match parse_elements(s, first, ']') {
            Ok((items, end)) => Ok((Value::Array(items), end)),
            Err(e) => Err(e),
        }
    }
}

/// Reads a tuple, whose `(` stands at `i`.
fn parse_tuple(s: &Vec<char>, i: usize) -> (r: Result<(Value, usize), Stop>)
    requires
        i < s.len(),
    ensures
        match tuple_at(s@, i as int) {
            Ok((v, n)) => r matches Ok((x, e)) && x@ == v && e as int == i + n && i < e
                <= s.len(),
            Err(f) => r matches Err(e) && e@ == f && e.at <= s.len(),
        },
    decreases s.len() - i, 0nat,
{
    let first = skip_blank(s, i + 1);
    match parse_elements(s, first, ')') {
        Ok((items, end)) => {
            proof {
                lemma_views(items@);
            }
            if items.len() >= 2 {
                Ok((Value::Tuple(items), end))
            } else {
                stop(end - 1, ErrorKind::TupleTooShort)
            }
        },
        Err(e) => Err(e),
    }
}

/// Reads an object, whose `{` stands at `i`.
fn parse_assoc(s: &Vec<char>, i: usize) -> (r: Result<(Value, usize), Stop>)
    requires
        i < s.len(),
    ensures
        match assoc_at(s@, i as int) {
            Ok((v, n)) => r matches Ok((x, e)) && x@ == v && e as int == i + n && i < e
                <= s.len(),
            Err(f) => r matches Err(e) && e@ == f && e.at <= s.len(),
        },
    decreases s.len() - i, 0nat,
{
    let first = skip_blank(s, i + 1);
    if check_at(s, first, '}') {
        Ok((Value::Assoc(Assoc::new()), first + 1))
    } else {
        match parse_fields(s, first) {
            Ok((fields, end)) => Ok((Value::Assoc(fields), end)),
            Err(e) => Err(e),
        }
    }
}

/// Reads a variant, whose `<` stands at `i`.
fn parse_variant(s: &Vec<char>, i: usize) -> (r: Result<(Value, usize), Stop>)
    requires
        i < s.len(),
    ensures
        match variant_at(s@, i as int) {
            Ok((v, n)) => r matches Ok((x, e)) && x@ == v && e as int == i + n && i < e
                <= s.len(),
            Err(f) => r matches Err(e) && e@ == f && e.at <= s.len(),
        },
    decreases s.len() - i, 0nat,
{
    let tag = skip_blank(s, i + 1);
    match parse_name(s, tag) {
        Err(e) => Err(e),
        Ok((name, after)) => {
            let next = skip_blank(s, after);
            if check_at(s, next, '>') {
                Ok((Value::Variant((name, None)), next + 1))
            } else if check_at(s, next, ':') {
                let arg = skip_blank(s, next + 1);
                match parse_value(s, arg) {
                    Err(e) => Err(e),
                    Ok((v, end)) => {
                        let close = skip_blank(s, end);
                        if check_at(s, close, '>') {
                            Ok((Value::Variant((name, Some(Box::new(v)))), close + 1))
                        } else {
                            stop(close, ErrorKind::ExpectedVariantClose)
                        }
                    },
                }
            } else {
                stop(next, ErrorKind::ExpectedVariantNext)
            }
        },
    }
}

/// Reads the elements of an array or tuple, up to and with the bracket `close`.
fn parse_elements(s: &Vec<char>, i: usize, close: char) -> (r: Result<
    (Vec<Value>, usize),
    Stop,
>)
    requires
        i <= s.len(),
    ensures
        match elements_at(s@, i as int, Seq::empty(), close) {
            Ok((items, n)) => r matches Ok((v, e)) && views(v@) == items && e as int == i + n && i
                < e <= s.len(),
            Err(f) => r matches Err(e) && e@ == f && e.at <= s.len(),
        },
    decreases s.len() - i, 2nat,
{
    let mut items: Vec<Value> = Vec::new();
    let mut pos: usize = i;
    proof {
        lemma_views(items@);
        assert(views(items@) =~= Seq::<SpecValue>::empty());
    }
    loop
        invariant
            i <= pos <= s.len(),
            elements_at(s@, i as int, Seq::empty(), close) == advanced(
                elements_at(s@, pos as int, views(items@), close),
                pos - i,
            ),
        decreases s.len() - pos,
    {
        match parse_value(s, pos) {
            Err(e) => {
                return Err(e);
            },
            Ok((v, end)) => {
                let next = skip_blank(s, end);
                let ghost before = items@;
                if check_at(s, next, ',') {
                    let more = skip_blank(s, next + 1);
                    items.push(v);
                    proof {
                        assert(items@.drop_last() =~= before);
                        assert(views(items@) == views(before).push(v@));
                    }
                    pos = more;
                } else if check_at(s, next, close) {
                    items.push(v);
                    proof {
                        assert(items@.drop_last() =~= before);
                        assert(views(items@) == views(before).push(v@));
                    }
                    return Ok((items, next + 1));
                } else {
                    return Err(Stop { at: next, kind: list_kind(close) });
                }
            },
        }
    }
}

fn list_kind(close: char) -> (r: ErrorKind)
    ensures
        r == list_fault(close),
{
    if close == ']' {
        ErrorKind::ExpectedArrayNext
    } else {
        ErrorKind::ExpectedTupleNext
    }
}

/// Reads the fields of an object, up to and with its closing brace.
fn parse_fields(s: &Vec<char>, i: usize) -> (r: Result<(Assoc, usize), Stop>)
    requires
        i <= s.len(),
    ensures
        match fields_at(s@, i as int, Seq::empty()) {
            Ok((entries, n)) => r matches Ok((a, e)) && a@ == entries && e as int == i + n && i
                < e <= s.len(),
            Err(f) => r matches Err(e) && e@ == f && e.at <= s.len(),
        },
    decreases s.len() - i, 2nat,
{
    let mut fields = Assoc::new();
    let mut pos: usize = i;
    loop
        invariant
            i <= pos <= s.len(),
            fields_at(s@, i as int, Seq::empty()) == advanced(
                fields_at(s@, pos as int, fields@),
                pos - i,
            ),
        decreases s.len() - pos,
    {
        match parse_name(s, pos) {
            Err(e) => {
                return Err(e);
            },
            Ok((name, after)) => {
                let colon = skip_blank(s, after);
                if !check_at(s, colon, ':') {
                    return stop(colon, ErrorKind::ExpectedColon);
                }
                let start = skip_blank(s, colon + 1);
                match parse_value(s, start) {
                    Err(e) => {
                        return Err(e);
                    },
                    Ok((v, end)) => {
                        let next = skip_blank(s, end);
                        if check_at(s, next, ',') {
                            let more = skip_blank(s, next + 1);
                            fields.insert(name, v);
                            pos = more;
                        } else if check_at(s, next, '}') {
                            fields.insert(name, v);
                            return Ok((fields, next + 1));
                        } else {
                            return stop(next, ErrorKind::ExpectedAssocNext);
                        }
                    },
                }
            },
        }
    }
}

/// The error that stands for the fault `f` in the text `s`.
pub open spec fn located(s: Seq<char>, f: Fault, e: SyntaxError) -> bool {
    &&& e.kind == f.kind
    &&& e.offset as int == f.at
    &&& e.line as int == line_of(s, f.at)
    &&& e.column as int == column_of(s, f.at)
}

/// Finds the line and column of the place at which the parser stopped.
fn locate(s: &Vec<char>, stop: Stop) -> (e: SyntaxError)
    requires
        stop.at <= s.len(),
        s.len() < usize::MAX,
    ensures
        located(s@, stop@, e),
        e.offset <= s.len(),
        1 <= e.line,
        1 <= e.column,
{
    let mut line: usize = 1;
    let mut start: usize = 0;
    let mut k: usize = 0;
    while k < stop.at
        invariant
            k <= stop.at <= s.len(),
            s.len() < usize::MAX,
            line as int == newlines_before(s@, k as int) + 1,
            line <= k + 1,
            start as int == line_start(s@, k as int),
            start <= k,
        decreases stop.at - k,
    {
        if s[k] == '\n' {
            line += 1;
            start = k + 1;
        }
        k += 1;
    }
    SyntaxError { kind: stop.kind, offset: stop.at, line, column: stop.at - start + 1 }
}

/// Reads a whole text as one value.
///
/// The text is in the dialect exactly if `document` reads a value from its
/// characters, and then that value is returned; it can be written in the
/// dialect again. Otherwise the error tells the first place at which the text
/// leaves the dialect, and what was missing there.
pub fn parse(text: &str) -> (r: Result<Value, SyntaxError>)
    ensures
        match document(text@) {
            Ok(v) => r matches Ok(x) && x@ == v && representable(v),
            Err(f) => r matches Err(e) && located(text@, f, e) && e.offset <= text@.len() && 1
                <= e.line && 1 <= e.column,
        },
{
    proof {
        lemma_parsed_is_representable(text@);
    }
    let s = chars_of(text);
    let start = skip_blank(&s, 0);
    match parse_value(&s, start) {
        Err(stop) => Err(locate(&s, stop)),
        Ok((value, end)) => {
            let rest = skip_blank(&s, end);
            if rest == s.len() {
                Ok(value)
            } else {
                Err(locate(&s, Stop { at: rest, kind: ErrorKind::ExpectedEnd }))
            }
        },
    }
}

} // verus!
