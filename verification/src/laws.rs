//! What holds between the printer and the parser.

use vstd::prelude::*;
use crate::equality::{lemma_same_reflexive, names_distinct, same};
use crate::grammar::{
    array_at, assoc_at, at, at_false, at_infinity, at_nan, at_neg_infinity, at_null, at_true,
    digits_end, digits_value, document, elements_at, escape_of, exponent_digits, exponent_end,
    fields_at, fraction_end, hex_end, hex_value, is_control, is_digit, is_float_text,
    is_hex_digit, is_letter, is_name_char, is_space, lemma_digits_end_bounds,
    lemma_hex_end_bounds, lemma_name_at_bounds, lemma_name_end_bounds, lemma_number_at_bounds,
    lemma_skip_bounds, lemma_string_body_bounds, low_byte, name_at, name_end, number_at,
    signed_value, skip, string_body, tuple_at, value_at, variant_at, Fault,
};
use crate::printer::{
    decimal, digit_char, escaped, escaped_all, integer_text, is_plain_name, name_text, quoted,
    render, render_fields, render_items,
};
use crate::value::{
    distinct_names, insert_entry, key_index, lemma_key_absent, lemma_key_index, SpecValue,
};

verus! {

/// The text `t` stands in `s` from position `i` on.
pub open spec fn stands_at(s: Seq<char>, i: int, t: Seq<char>) -> bool {
    0 <= i && i + t.len() <= s.len() && s.subrange(i, i + t.len()) == t
}

/// The characters that end a value or a name in a printed text.
pub open spec fn is_delimiter(c: char) -> bool {
    c == ',' || c == ':' || c == ']' || c == ')' || c == '}' || c == '>'
}

/// At position `j` the text `s` ends, or a delimiter stands.
pub open spec fn stops_at(s: Seq<char>, j: int) -> bool {
    j == s.len() || (0 <= j < s.len() && is_delimiter(s[j]))
}

proof fn lemma_stands_char(s: Seq<char>, i: int, t: Seq<char>, k: int)
    requires
        stands_at(s, i, t),
        0 <= k < t.len(),
    ensures
        0 <= i + k < s.len(),
        s[i + k] == t[k],
{
    assert(s.subrange(i, i + t.len())[k] == s[i + k]);
}

proof fn lemma_stands_chars(s: Seq<char>, i: int, t: Seq<char>)
    requires
        stands_at(s, i, t),
    ensures
        forall|k: int| 0 <= k < t.len() ==> s[i + k] == #[trigger] t[k],
{
    assert forall|k: int| 0 <= k < t.len() implies s[i + k] == #[trigger] t[k] by {
        lemma_stands_char(s, i, t, k);
    }
}

proof fn lemma_stands_split(s: Seq<char>, i: int, a: Seq<char>, b: Seq<char>)
    requires
        stands_at(s, i, a + b),
    ensures
        stands_at(s, i, a),
        stands_at(s, i + a.len(), b),
{
    lemma_stands_chars(s, i, a + b);
    assert forall|k: int| 0 <= k < a.len() implies s[i + k] == a[k] by {
        assert((a + b)[k] == a[k]);
    }
    assert forall|k: int| 0 <= k < b.len() implies s[i + a.len() + k] == b[k] by {
        assert((a + b)[a.len() + k] == b[k]);
    }
    assert(s.subrange(i, i + a.len()) =~= a);
    assert(s.subrange(i + a.len(), i + a.len() + b.len()) =~= b);
}

/// A run of digits that something else follows is read as a whole.
proof fn lemma_digits_run(s: Seq<char>, i: int, n: int)
    requires
        0 <= i,
        0 <= n,
        i + n <= s.len(),
        forall|k: int| i <= k < i + n ==> is_digit(#[trigger] s[k]),
        i + n == s.len() || !is_digit(s[i + n]),
    ensures
        digits_end(s, i) == i + n,
    decreases n,
{
    if n > 0 {
        lemma_digits_run(s, i + 1, n - 1);
    }
}

/// A run of name characters that something else follows is read as a whole.
proof fn lemma_name_run(s: Seq<char>, i: int, n: int)
    requires
        0 <= i,
        0 <= n,
        i + n <= s.len(),
        forall|k: int| i <= k < i + n ==> is_name_char(#[trigger] s[k]),
        i + n == s.len() || !is_name_char(s[i + n]),
    ensures
        name_end(s, i) == i + n,
    decreases n,
{
    if n > 0 {
        lemma_name_run(s, i + 1, n - 1);
    }
}

/// The digit characters are digits, and stand for their number.
proof fn lemma_digit_char(d: int)
    requires
        0 <= d < 16,
    ensures
        is_hex_digit(digit_char(d)),
        hex_value(digit_char(d)) == d,
        d < 10 ==> is_digit(digit_char(d)) && digit_char(d) as int - '0' as int == d,
{
}

/// The decimal digits of a number are digits, and denote that number.
proof fn lemma_decimal(n: nat)
    ensures
        decimal(n).len() > 0,
        forall|k: int| 0 <= k < decimal(n).len() ==> is_digit(#[trigger] decimal(n)[k]),
        digits_value(decimal(n)) == n,
    decreases n,
{
    lemma_digit_char((n % 10) as int);
    if n < 10 {
        assert(decimal(n).drop_last() =~= Seq::<char>::empty());
        assert(digits_value(decimal(n).drop_last()) == 0);
    } else {
        lemma_decimal(n / 10);
        assert(decimal(n).drop_last() =~= decimal(n / 10));
    }
}

/// A printed integer is read back as that integer.
proof fn lemma_integer_reads_back(s: Seq<char>, i: int, n: i64)
    requires
        stands_at(s, i, integer_text(n as int)),
        stops_at(s, i + integer_text(n as int).len()),
    ensures
        value_at(s, i) == Ok::<(SpecValue, nat), Fault>(
            (SpecValue::Integer(n), integer_text(n as int).len()),
        ),
{
    let t = integer_text(n as int);
    let m: nat = if n < 0 {
        (-n) as nat
    } else {
        n as nat
    };
    let digits = decimal(m);
    lemma_decimal(m);
    lemma_stands_chars(s, i, t);
    let first = if n < 0 {
        i + 1
    } else {
        i
    };
    let whole = first + digits.len();
    if n < 0 {
        assert(t[0] == '-');
        assert forall|k: int| first <= k < whole implies is_digit(#[trigger] s[k]) by {
            assert(t[k - i] == digits[k - first]);
        }
        assert(t[1] == digits[0]);
    } else {
        assert forall|k: int| first <= k < whole implies is_digit(#[trigger] s[k]) by {
            assert(t[k - i] == digits[k - first]);
        }
        assert(t[0] == digits[0]);
    }
    assert(whole == i + t.len());
    lemma_digits_run(s, first, digits.len() as int);
    assert(s.subrange(first, whole) =~= digits) by {
        assert forall|k: int| 0 <= k < digits.len() implies s[first + k] == digits[k] by {
            assert(t[first + k - i] == digits[k]);
        }
    }
    assert(digits_end(s, first) == whole);
    assert(fraction_end(s, whole) == Ok::<int, Fault>(whole));
    assert(exponent_end(s, whole) == Ok::<int, Fault>(whole));
    assert(signed_value(s, n < 0, first, whole) == n as int);
    assert(number_at(s, i) == Ok::<(SpecValue, int), Fault>((SpecValue::Integer(n), whole)));
}

/// Within a text that stands in `s` and is followed by a delimiter or the
/// end, a run of digits ends where it ends in the text taken alone.
proof fn lemma_digits_end_within(s: Seq<char>, i: int, t: Seq<char>, k: int)
    requires
        stands_at(s, i, t),
        stops_at(s, i + t.len()),
        0 <= k <= t.len(),
    ensures
        digits_end(s, i + k) == i + digits_end(t, k),
    decreases t.len() - k,
{
    if k < t.len() {
        lemma_stands_char(s, i, t, k);
        if is_digit(t[k]) {
            lemma_digits_end_within(s, i, t, k + 1);
        }
    }
}

/// The same of an optional fraction, where the text taken alone has one or
/// goes on without.
proof fn lemma_fraction_within(s: Seq<char>, i: int, t: Seq<char>, k: int)
    requires
        stands_at(s, i, t),
        stops_at(s, i + t.len()),
        0 <= k <= t.len(),
    ensures
        fraction_end(t, k) matches Ok(end) ==> fraction_end(s, i + k) == Ok::<int, Fault>(
            i + end,
        ) && k <= end <= t.len(),
{
    if k < t.len() {
        lemma_stands_char(s, i, t, k);
    }
    if at(t, k, '.') {
        lemma_digits_end_bounds(t, k + 1);
        lemma_digits_end_within(s, i, t, k + 1);
    }
}

/// The same of an optional exponent.
proof fn lemma_exponent_within(s: Seq<char>, i: int, t: Seq<char>, k: int)
    requires
        stands_at(s, i, t),
        stops_at(s, i + t.len()),
        0 <= k <= t.len(),
    ensures
        exponent_end(t, k) matches Ok(end) ==> exponent_end(s, i + k) == Ok::<int, Fault>(
            i + end,
        ) && k <= end <= t.len(),
{
    if k < t.len() {
        lemma_stands_char(s, i, t, k);
    }
    if at(t, k, 'e') || at(t, k, 'E') {
        if k + 1 < t.len() {
            lemma_stands_char(s, i, t, k + 1);
        }
        let d = exponent_digits(t, k);
        if d <= t.len() {
            lemma_digits_end_bounds(t, d);
            lemma_digits_end_within(s, i, t, d);
        } else {
            assert(digits_end(t, d) == d);
        }
        assert(exponent_digits(s, i + k) == i + exponent_digits(t, k));
    }
}

/// A number with a fraction or an exponent that stands in a text before a
/// delimiter or the end is read there as it is read alone.
proof fn lemma_number_within(s: Seq<char>, i: int, t: Seq<char>)
    requires
        stands_at(s, i, t),
        stops_at(s, i + t.len()),
        t.len() > 0,
        number_at(t, 0) == Ok::<(SpecValue, int), Fault>((SpecValue::Float(t), t.len() as int)),
    ensures
        number_at(s, i) == Ok::<(SpecValue, int), Fault>((SpecValue::Float(t), i + t.len())),
        s[i] == t[0],
        t[0] == '-' ==> is_digit(s[i + 1]),
{
    lemma_stands_char(s, i, t, 0);
    let first: int = if at(t, 0, '-') {
        1
    } else {
        0
    };
    lemma_digits_end_bounds(t, first);
    lemma_digits_end_within(s, i, t, first);
    let whole = digits_end(t, first);
    lemma_stands_char(s, i, t, first);
    lemma_fraction_within(s, i, t, whole);
    let frac = fraction_end(t, whole)->Ok_0;
    lemma_exponent_within(s, i, t, frac);
    let end = exponent_end(t, frac)->Ok_0;
    assert(end == t.len());
    assert(s.subrange(i, i + end) == t);
}

/// A float that stands in a text before a delimiter or the end is read back
/// as it is written.
proof fn lemma_float_reads_back(s: Seq<char>, i: int, t: Seq<char>)
    requires
        is_float_text(t),
        stands_at(s, i, t),
        stops_at(s, i + t.len()),
    ensures
        value_at(s, i) == Ok::<(SpecValue, nat), Fault>((SpecValue::Float(t), t.len())),
{
    assert(t.len() > 0);
    lemma_stands_char(s, i, t, 0);
    if at_nan(t, 0) {
        lemma_stands_char(s, i, t, 1);
        lemma_stands_char(s, i, t, 2);
        assert(t.len() == 3);
    } else if at_infinity(t, 0) {
        lemma_stands_infinity(s, i, t, 0);
        assert(t.len() == 8);
    } else if at_neg_infinity(t, 0) {
        lemma_stands_infinity(s, i, t, 1);
        assert(t.len() == 9);
    } else {
        assert(t[0] == '-' || is_digit(t[0]));
        lemma_number_at_bounds(t, 0);
        assert(number_at(t, 0) == Ok::<(SpecValue, int), Fault>(
            (SpecValue::Float(t), t.len() as int),
        ));
        lemma_number_within(s, i, t);
    }
}

/// Where `Infinity` stands in a text that stands in `s`, it stands in `s`.
proof fn lemma_stands_infinity(s: Seq<char>, i: int, t: Seq<char>, k: int)
    requires
        stands_at(s, i, t),
        0 <= k,
        at_infinity(t, k),
    ensures
        at_infinity(s, i + k),
{
    lemma_stands_char(s, i, t, k);
    lemma_stands_char(s, i, t, k + 1);
    lemma_stands_char(s, i, t, k + 2);
    lemma_stands_char(s, i, t, k + 3);
    lemma_stands_char(s, i, t, k + 4);
    lemma_stands_char(s, i, t, k + 5);
    lemma_stands_char(s, i, t, k + 6);
    lemma_stands_char(s, i, t, k + 7);
}

/// Whether a character can be written in a string of the dialect: all can
/// but the control characters from U+0080 to U+009F, which may not stand raw
/// and which no escape denotes.
pub open spec fn is_writable(c: char) -> bool {
    !(0x80 <= c as int && c as int <= 0x9f)
}

/// Whether a string can be written in the dialect.
pub open spec fn writable(t: Seq<char>) -> bool {
    forall|k: int| 0 <= k < t.len() ==> is_writable(#[trigger] t[k])
}

/// The escaped form of a string starts with that of its first character.
proof fn lemma_escaped_all_front(t: Seq<char>)
    requires
        t.len() > 0,
    ensures
        escaped_all(t) == escaped(t[0]) + escaped_all(t.drop_first()),
    decreases t.len(),
{
    if t.len() == 1 {
        assert(t.drop_last() =~= Seq::<char>::empty());
        assert(t.drop_first() =~= Seq::<char>::empty());
        assert(escaped_all(t.drop_last()) =~= Seq::<char>::empty());
        assert(escaped_all(t) =~= escaped(t[0]) + escaped_all(t.drop_first()));
    } else {
        lemma_escaped_all_front(t.drop_last());
        assert(t.drop_first().drop_last() =~= t.drop_last().drop_first());
        assert(t.drop_first().last() == t.last());
        assert(t.drop_last()[0] == t[0]);
        assert(escaped_all(t) =~= escaped(t[0]) + escaped_all(t.drop_first()));
    }
}

/// Reading the escaped form of one character appends that character.
proof fn lemma_escaped_step(s: Seq<char>, j: int, c: char, acc: Seq<char>)
    requires
        stands_at(s, j, escaped(c)),
        is_writable(c),
    ensures
        string_body(s, j, acc) == string_body(s, j + escaped(c).len(), acc.push(c)),
{
    let e = escaped(c);
    lemma_stands_char(s, j, e, 0);
    if e.len() >= 2 {
        lemma_stands_char(s, j, e, 1);
    }
    if e.len() == 6 {
        lemma_stands_char(s, j, e, 2);
        lemma_stands_char(s, j, e, 3);
        lemma_stands_char(s, j, e, 4);
        lemma_stands_char(s, j, e, 5);
        let code = c as int;
        assert(0 <= code < 0x80);
        lemma_digit_char(0);
        lemma_digit_char(code / 16);
        lemma_digit_char(code % 16);
        reveal_with_fuel(hex_end, 5);
        assert(hex_end(s, j + 2, j + 6) == j + 6);
        assert(low_byte(s, j + 2) == code);
        assert(code as u8 as char == c);
    }
}

/// The escaped form of a string and a closing quote are read back as the string.
proof fn lemma_string_body_reads_back(s: Seq<char>, j: int, rest: Seq<char>, acc: Seq<char>)
    requires
        writable(rest),
        stands_at(s, j, escaped_all(rest) + seq!['"']),
    ensures
        string_body(s, j, acc) == Ok::<(Seq<char>, int), Fault>(
            (acc + rest, j + escaped_all(rest).len() + 1),
        ),
    decreases rest.len(),
{
    if rest.len() == 0 {
        lemma_stands_char(s, j, escaped_all(rest) + seq!['"'], 0);
        assert(acc + rest =~= acc);
    } else {
        let c = rest[0];
        let tail = rest.drop_first();
        lemma_escaped_all_front(rest);
        assert(escaped_all(rest) + seq!['"'] =~= escaped(c) + (escaped_all(tail) + seq!['"']));
        lemma_stands_split(s, j, escaped(c), escaped_all(tail) + seq!['"']);
        assert(is_writable(c));
        lemma_escaped_step(s, j, c, acc);
        assert(writable(tail)) by {
            assert forall|k: int| 0 <= k < tail.len() implies is_writable(#[trigger] tail[k]) by {
                assert(tail[k] == rest[k + 1]);
            }
        }
        lemma_string_body_reads_back(s, j + escaped(c).len(), tail, acc.push(c));
        assert(acc.push(c) + tail =~= acc + rest);
    }
}

/// A printed string is read back as that string.
proof fn lemma_string_reads_back(s: Seq<char>, i: int, text: Seq<char>)
    requires
        writable(text),
        stands_at(s, i, quoted(text)),
    ensures
        string_body(s, i + 1, Seq::empty()) == Ok::<(Seq<char>, int), Fault>(
            (text, i + quoted(text).len()),
        ),
        at(s, i, '"'),
{
    assert(quoted(text) =~= seq!['"'] + (escaped_all(text) + seq!['"']));
    lemma_stands_split(s, i, seq!['"'], escaped_all(text) + seq!['"']);
    lemma_stands_char(s, i, seq!['"'], 0);
    lemma_string_body_reads_back(s, i + 1, text, Seq::empty());
    assert(Seq::<char>::empty() + text =~= text);
}

/// A printed name is read back as that name, where a delimiter follows it.
proof fn lemma_name_reads_back(s: Seq<char>, i: int, name: Seq<char>)
    requires
        writable(name),
        stands_at(s, i, name_text(name)),
        stops_at(s, i + name_text(name).len()),
    ensures
        name_at(s, i) == Ok::<(Seq<char>, int), Fault>((name, i + name_text(name).len())),
{
    if is_plain_name(name) {
        lemma_stands_char(s, i, name, 0);
        assert forall|k: int| i + 1 <= k < i + name.len() implies is_name_char(
            #[trigger] s[k],
        ) by {
            lemma_stands_char(s, i, name, k - i);
        }
        lemma_name_run(s, i + 1, name.len() - 1);
    } else {
        lemma_string_reads_back(s, i, name);
    }
}

/// A name that can stand bare is read as the same name bare and between
/// quotes.
pub proof fn lemma_bare_and_quoted_names_agree(
    name: Seq<char>,
    bare: Seq<char>,
    i: int,
    with_quotes: Seq<char>,
    j: int,
)
    requires
        is_plain_name(name),
        stands_at(bare, i, name),
        stops_at(bare, i + name.len()),
        stands_at(with_quotes, j, quoted(name)),
    ensures
        name_at(bare, i) == Ok::<(Seq<char>, int), Fault>((name, i + name.len())),
        name_at(with_quotes, j) == Ok::<(Seq<char>, int), Fault>((name, j + quoted(name).len())),
{
    assert(writable(name)) by {
        assert forall|k: int| 0 <= k < name.len() implies is_writable(#[trigger] name[k]) by {
            if k > 0 {
                assert(is_name_char(name[k]));
            }
        }
    }
    lemma_name_reads_back(bare, i, name);
    lemma_string_reads_back(with_quotes, j, name);
}

/// The characters with which a printed value can start.
pub open spec fn is_value_start(c: char) -> bool {
    c == 'n' || c == 't' || c == 'f' || c == 'N' || c == 'I' || c == '-' || is_digit(c) || c
        == '"' || c == '[' || c == '(' || c == '{' || c == '<'
}

/// Neither blanks nor comments stand at `i`, where the text `s` has not ended.
pub open spec fn solid_at(s: Seq<char>, i: int) -> bool {
    0 <= i && (i < s.len() ==> !is_space(s[i]) && s[i] != '/')
}

proof fn lemma_skip_solid(s: Seq<char>, i: int)
    requires
        solid_at(s, i),
    ensures
        skip(s, i) == i,
{
}

/// Which values can be written in the dialect, so that the text denotes them.
///
/// A float is one as the dialect writes it. A tuple has two elements or more.
/// No two fields of an object have the same name. Strings, field names and
/// variant tags hold no control character from U+0080 to U+009F. The parts of
/// a value can be written too.
pub open spec fn representable(v: SpecValue) -> bool
    decreases v,
{
    match v {
        SpecValue::Null => true,
        SpecValue::Bool(_) => true,
        SpecValue::Integer(_) => true,
        SpecValue::Float(text) => is_float_text(text),
        SpecValue::String(text) => writable(text),
        SpecValue::Assoc(entries) => distinct_names(entries) && forall|k: int|
            0 <= k < entries.len() ==> writable((#[trigger] entries[k]).0) && representable(
                entries[k].1,
            ),
        SpecValue::Array(items) => forall|k: int|
            0 <= k < items.len() ==> representable(#[trigger] items[k]),
        SpecValue::Tuple(items) => items.len() >= 2 && forall|k: int|
            0 <= k < items.len() ==> representable(#[trigger] items[k]),
        SpecValue::Variant(name, arg) => writable(name) && match arg {
            None => true,
            Some(inner) => representable(*inner),
        },
    }
}

/// In a value that can be written, no object has two fields of one name.
pub proof fn lemma_representable_names_distinct(v: SpecValue)
    requires
        representable(v),
    ensures
        names_distinct(v),
    decreases v,
{
    match v {
        SpecValue::Assoc(x) => {
            assert forall|i: int| 0 <= i < x.len() implies names_distinct((#[trigger] x[i]).1) by {
                lemma_representable_names_distinct(x[i].1);
            }
            assert(names_distinct(v));
        },
        SpecValue::Array(x) => {
            assert forall|i: int| 0 <= i < x.len() implies names_distinct(#[trigger] x[i]) by {
                lemma_representable_names_distinct(x[i]);
            }
            assert(names_distinct(v));
        },
        SpecValue::Tuple(x) => {
            assert forall|i: int| 0 <= i < x.len() implies names_distinct(#[trigger] x[i]) by {
                lemma_representable_names_distinct(x[i]);
            }
            assert(names_distinct(v));
        },
        SpecValue::Variant(_, arg) => {
            match arg {
                Some(inner) => {
                    lemma_representable_names_distinct(*inner);
                },
                None => {},
            }
            assert(names_distinct(v));
        },
        _ => {
            assert(names_distinct(v));
        },
    }
}

/// A printed name starts with a letter or a quote.
proof fn lemma_name_text_starts(name: Seq<char>)
    ensures
        name_text(name).len() > 0,
        is_letter(name_text(name)[0]) || name_text(name)[0] == '"',
{
    if !is_plain_name(name) {
        assert(quoted(name) =~= seq!['"'] + (escaped_all(name) + seq!['"']));
    }
}

/// A printed value starts with a character that starts a value.
proof fn lemma_render_starts(v: SpecValue)
    requires
        representable(v),
    ensures
        render(v).len() > 0,
        is_value_start(render(v)[0]),
{
    match v {
        SpecValue::Integer(n) => {
            let m: nat = if n < 0 {
                (-n) as nat
            } else {
                n as nat
            };
            lemma_decimal(m);
            assert(is_digit(decimal(m)[0]));
        },
        SpecValue::String(text) => {
            assert(quoted(text) =~= seq!['"'] + (escaped_all(text) + seq!['"']));
        },
        SpecValue::Assoc(entries) => {
            assert(render(v) =~= seq!['{'] + (render_fields(entries) + seq!['}']));
        },
        SpecValue::Array(items) => {
            assert(render(v) =~= seq!['['] + (render_items(items) + seq![']']));
        },
        SpecValue::Tuple(items) => {
            assert(render(v) =~= seq!['('] + (render_items(items) + seq![')']));
        },
        SpecValue::Variant(name, arg) => {
            match arg {
                None => {
                    assert(render(v) =~= seq!['<'] + (name_text(name) + seq!['>']));
                },
                Some(inner) => {
                    assert(render(v) =~= seq!['<'] + (name_text(name) + seq![':'] + render(*inner)
                        + seq!['>']));
                },
            }
        },
        _ => {},
    }
}

/// The text of one field.
pub open spec fn render_field(entry: (Seq<char>, SpecValue)) -> Seq<char> {
    name_text(entry.0) + seq![':'] + render(entry.1)
}

/// The text of a list of two or more starts with that of its first element
/// and a comma.
proof fn lemma_render_items_front(items: Seq<SpecValue>)
    requires
        items.len() >= 2,
    ensures
        render_items(items) == render(items[0]) + seq![','] + render_items(items.drop_first()),
    decreases items.len(),
{
    let init = items.drop_last();
    let rest = items.drop_first();
    assert(render_items(items) == render_items(init) + seq![','] + render(items.last()));
    assert(rest.last() == items.last());
    assert(init[0] == items[0]);
    if items.len() == 2 {
        assert(render_items(init) == render(init[0]));
        assert(render_items(rest) == render(rest[0]));
    } else {
        lemma_render_items_front(init);
        assert(rest.drop_last() =~= init.drop_first());
        assert(render_items(rest) == render_items(rest.drop_last()) + seq![','] + render(
            rest.last(),
        ));
        assert(render_items(items) =~= render(items[0]) + seq![','] + render_items(rest));
    }
}

/// The text of two or more fields starts with that of the first field and a
/// comma.
proof fn lemma_render_fields_front(entries: Seq<(Seq<char>, SpecValue)>)
    requires
        entries.len() >= 2,
    ensures
        render_fields(entries) == render_field(entries[0]) + seq![','] + render_fields(
            entries.drop_first(),
        ),
    decreases entries.len(),
{
    let init = entries.drop_last();
    let rest = entries.drop_first();
    assert(render_fields(entries) =~= render_fields(init) + seq![','] + render_field(
        entries.last(),
    ));
    assert(rest.last() == entries.last());
    assert(init[0] == entries[0]);
    if entries.len() == 2 {
        assert(render_fields(init) =~= render_field(init[0]));
        assert(render_fields(rest) =~= render_field(rest[0]));
    } else {
        lemma_render_fields_front(init);
        assert(rest.drop_last() =~= init.drop_first());
        assert(render_fields(rest) =~= render_fields(rest.drop_last()) + seq![','] + render_field(
            rest.last(),
        ));
        assert(render_fields(entries) =~= render_field(entries[0]) + seq![','] + render_fields(
            rest,
        ));
    }
}

/// A printed value that stands in a text before a delimiter or the end is
/// read there as that value, and takes as many characters as its text has.
proof fn lemma_value_reads_back(s: Seq<char>, i: int, v: SpecValue)
    requires
        representable(v),
        stands_at(s, i, render(v)),
        stops_at(s, i + render(v).len()),
    ensures
        value_at(s, i) == Ok::<(SpecValue, nat), Fault>((v, render(v).len())),
    decreases v, 0nat,
{
    lemma_render_starts(v);
    lemma_stands_char(s, i, render(v), 0);
    match v {
        SpecValue::Null => {
            lemma_stands_char(s, i, render(v), 1);
            lemma_stands_char(s, i, render(v), 2);
            lemma_stands_char(s, i, render(v), 3);
        },
        SpecValue::Bool(b) => {
            lemma_stands_char(s, i, render(v), 1);
            lemma_stands_char(s, i, render(v), 2);
            lemma_stands_char(s, i, render(v), 3);
            if !b {
                lemma_stands_char(s, i, render(v), 4);
            }
        },
        SpecValue::Integer(n) => {
            lemma_integer_reads_back(s, i, n);
        },
        SpecValue::Float(text) => {
            lemma_float_reads_back(s, i, text);
        },
        SpecValue::String(text) => {
            lemma_string_reads_back(s, i, text);
        },
        SpecValue::Assoc(entries) => {
            lemma_assoc_reads_back(s, i, entries);
        },
        SpecValue::Array(items) => {
            lemma_array_reads_back(s, i, items);
        },
        SpecValue::Tuple(items) => {
            lemma_tuple_reads_back(s, i, items);
        },
        SpecValue::Variant(name, arg) => {
            lemma_variant_reads_back(s, i, name, arg);
        },
    }
}

/// The printed elements of a list and its closing bracket are read back as
/// those elements.
proof fn lemma_items_read_back(
    s: Seq<char>,
    i: int,
    items: Seq<SpecValue>,
    acc: Seq<SpecValue>,
    close: char,
)
    requires
        items.len() >= 1,
        forall|k: int| 0 <= k < items.len() ==> representable(#[trigger] items[k]),
        stands_at(s, i, render_items(items) + seq![close]),
        close == ']' || close == ')',
    ensures
        elements_at(s, i, acc, close) == Ok::<(Seq<SpecValue>, nat), Fault>(
            (acc + items, (render_items(items).len() + 1) as nat),
        ),
    decreases items, 0nat,
{
    let first = items[0];
    let n = render(first).len() as int;
    assert(representable(first));
    if items.len() == 1 {
        assert(render_items(items) == render(first));
        lemma_stands_split(s, i, render(first), seq![close]);
        lemma_stands_char(s, i + n, seq![close], 0);
        lemma_value_reads_back(s, i, first);
        lemma_skip_solid(s, i + n);
        assert(acc.push(first) =~= acc + items);
    } else {
        let rest = items.drop_first();
        lemma_render_items_front(items);
        assert(render_items(items) + seq![close] =~= render(first) + (seq![','] + (render_items(
            rest,
        ) + seq![close])));
        lemma_stands_split(s, i, render(first), seq![','] + (render_items(rest) + seq![close]));
        lemma_stands_split(s, i + n, seq![','], render_items(rest) + seq![close]);
        lemma_stands_char(s, i + n, seq![','], 0);
        lemma_value_reads_back(s, i, first);
        lemma_skip_solid(s, i + n);
        assert forall|k: int| 0 <= k < rest.len() implies representable(#[trigger] rest[k]) by {
            assert(rest[k] == items[k + 1]);
        }
        lemma_render_items_start(rest);
        lemma_stands_char(s, i + n + 1, render_items(rest) + seq![close], 0);
        lemma_skip_solid(s, i + n + 1);
        lemma_items_read_back(s, i + n + 1, rest, acc.push(first), close);
        assert(acc.push(first) + rest =~= acc + items);
    }
}

/// The text of a list that is not empty starts as a value starts.
proof fn lemma_render_items_start(items: Seq<SpecValue>)
    requires
        items.len() >= 1,
        forall|k: int| 0 <= k < items.len() ==> representable(#[trigger] items[k]),
    ensures
        render_items(items).len() > 0,
        is_value_start(render_items(items)[0]),
{
    lemma_render_starts(items[0]);
    if items.len() >= 2 {
        lemma_render_items_front(items);
    }
}

/// A printed array is read back as that array.
proof fn lemma_array_reads_back(s: Seq<char>, i: int, items: Seq<SpecValue>)
    requires
        forall|k: int| 0 <= k < items.len() ==> representable(#[trigger] items[k]),
        stands_at(s, i, render(SpecValue::Array(items))),
    ensures
        array_at(s, i) == Ok::<(SpecValue, nat), Fault>(
            (SpecValue::Array(items), render(SpecValue::Array(items)).len()),
        ),
    decreases items, 1nat,
{
    let whole = render(SpecValue::Array(items));
    assert(whole =~= seq!['['] + (render_items(items) + seq![']']));
    lemma_stands_split(s, i, seq!['['], render_items(items) + seq![']']);
    lemma_stands_char(s, i + 1, render_items(items) + seq![']'], 0);
    if items.len() == 0 {
        assert(items =~= Seq::<SpecValue>::empty());
    } else {
        lemma_render_items_start(items);
        lemma_items_read_back(s, i + 1, items, Seq::empty(), ']');
        assert(Seq::<SpecValue>::empty() + items =~= items);
    }
    lemma_skip_solid(s, i + 1);
}

/// A printed tuple is read back as that tuple.
proof fn lemma_tuple_reads_back(s: Seq<char>, i: int, items: Seq<SpecValue>)
    requires
        items.len() >= 2,
        forall|k: int| 0 <= k < items.len() ==> representable(#[trigger] items[k]),
        stands_at(s, i, render(SpecValue::Tuple(items))),
    ensures
        tuple_at(s, i) == Ok::<(SpecValue, nat), Fault>(
            (SpecValue::Tuple(items), render(SpecValue::Tuple(items)).len()),
        ),
    decreases items, 1nat,
{
    let whole = render(SpecValue::Tuple(items));
    assert(whole =~= seq!['('] + (render_items(items) + seq![')']));
    lemma_stands_split(s, i, seq!['('], render_items(items) + seq![')']);
    lemma_stands_char(s, i + 1, render_items(items) + seq![')'], 0);
    lemma_render_items_start(items);
    lemma_items_read_back(s, i + 1, items, Seq::empty(), ')');
    assert(Seq::<SpecValue>::empty() + items =~= items);
    lemma_skip_solid(s, i + 1);
}

/// The printed fields of an object and its closing brace are read back as
/// those fields, where none of them has the name of another or of a field
/// read before.
proof fn lemma_fields_read_back(
    s: Seq<char>,
    i: int,
    entries: Seq<(Seq<char>, SpecValue)>,
    acc: Seq<(Seq<char>, SpecValue)>,
)
    requires
        entries.len() >= 1,
        forall|k: int|
            0 <= k < entries.len() ==> writable((#[trigger] entries[k]).0) && representable(
                entries[k].1,
            ),
        distinct_names(acc + entries),
        stands_at(s, i, render_fields(entries) + seq!['}']),
    ensures
        fields_at(s, i, acc) == Ok::<(Seq<(Seq<char>, SpecValue)>, nat), Fault>(
            (acc + entries, (render_fields(entries).len() + 1) as nat),
        ),
    decreases entries, 0nat,
{
    let first = entries[0];
    let name = name_text(first.0);
    let n = name.len() as int;
    let m = render(first.1).len() as int;
    let rest = entries.drop_first();
    let tail = if entries.len() == 1 {
        seq!['}']
    } else {
        seq![','] + (render_fields(rest) + seq!['}'])
    };
    assert(writable(first.0) && representable(first.1));
    if entries.len() == 1 {
        assert(render_fields(entries) =~= render_field(first));
    } else {
        lemma_render_fields_front(entries);
    }
    assert(render_fields(entries) + seq!['}'] =~= name + (seq![':'] + (render(first.1) + tail)));
    lemma_stands_split(s, i, name, seq![':'] + (render(first.1) + tail));
    lemma_stands_split(s, i + n, seq![':'], render(first.1) + tail);
    lemma_stands_split(s, i + n + 1, render(first.1), tail);
    lemma_stands_char(s, i + n, seq![':'], 0);
    lemma_stands_char(s, i + n + 1 + m, tail, 0);
    lemma_name_reads_back(s, i, first.0);
    lemma_skip_solid(s, i + n);
    lemma_render_starts(first.1);
    lemma_stands_char(s, i + n + 1, render(first.1), 0);
    lemma_skip_solid(s, i + n + 1);
    lemma_value_reads_back(s, i + n + 1, first.1);
    lemma_skip_solid(s, i + n + 1 + m);
    assert forall|k: int| 0 <= k < acc.len() implies (#[trigger] acc[k]).0 != first.0 by {
        assert((acc + entries)[k] == acc[k]);
        assert((acc + entries)[acc.len() as int] == first);
    }
    lemma_key_absent(acc, first.0);
    assert(insert_entry(acc, first.0, first.1) == acc.push(first));
    if entries.len() == 1 {
        assert(acc.push(first) =~= acc + entries);
    } else {
        assert forall|k: int| 0 <= k < rest.len() implies writable((#[trigger] rest[k]).0)
            && representable(rest[k].1) by {
            assert(rest[k] == entries[k + 1]);
        }
        assert(acc.push(first) + rest =~= acc + entries);
        lemma_stands_split(s, i + n + 1 + m, seq![','], render_fields(rest) + seq!['}']);
        lemma_render_fields_start(rest);
        lemma_stands_char(s, i + n + m + 2, render_fields(rest) + seq!['}'], 0);
        lemma_skip_solid(s, i + n + m + 2);
        lemma_fields_read_back(s, i + n + m + 2, rest, acc.push(first));
    }
}

/// The text of fields starts with a letter or a quote.
proof fn lemma_render_fields_start(entries: Seq<(Seq<char>, SpecValue)>)
    requires
        entries.len() >= 1,
    ensures
        render_fields(entries).len() > 0,
        is_letter(render_fields(entries)[0]) || render_fields(entries)[0] == '"',
{
    lemma_name_text_starts(entries[0].0);
    if entries.len() >= 2 {
        lemma_render_fields_front(entries);
    } else {
        assert(render_fields(entries) =~= render_field(entries[0]));
    }
    assert(render_field(entries[0]) =~= name_text(entries[0].0) + (seq![':'] + render(
        entries[0].1,
    )));
}

/// A printed object is read back as that object.
proof fn lemma_assoc_reads_back(s: Seq<char>, i: int, entries: Seq<(Seq<char>, SpecValue)>)
    requires
        distinct_names(entries),
        forall|k: int|
            0 <= k < entries.len() ==> writable((#[trigger] entries[k]).0) && representable(
                entries[k].1,
            ),
        stands_at(s, i, render(SpecValue::Assoc(entries))),
    ensures
        assoc_at(s, i) == Ok::<(SpecValue, nat), Fault>(
            (SpecValue::Assoc(entries), render(SpecValue::Assoc(entries)).len()),
        ),
    decreases entries, 1nat,
{
    let whole = render(SpecValue::Assoc(entries));
    assert(whole =~= seq!['{'] + (render_fields(entries) + seq!['}']));
    lemma_stands_split(s, i, seq!['{'], render_fields(entries) + seq!['}']);
    lemma_stands_char(s, i + 1, render_fields(entries) + seq!['}'], 0);
    if entries.len() == 0 {
        assert(entries =~= Seq::<(Seq<char>, SpecValue)>::empty());
    } else {
        lemma_render_fields_start(entries);
        assert(Seq::<(Seq<char>, SpecValue)>::empty() + entries =~= entries);
        lemma_fields_read_back(s, i + 1, entries, Seq::empty());
    }
    lemma_skip_solid(s, i + 1);
}

/// A printed variant is read back as that variant.
proof fn lemma_variant_reads_back(
    s: Seq<char>,
    i: int,
    name: Seq<char>,
    arg: Option<Box<SpecValue>>,
)
    requires
        representable(SpecValue::Variant(name, arg)),
        stands_at(s, i, render(SpecValue::Variant(name, arg))),
    ensures
        variant_at(s, i) == Ok::<(SpecValue, nat), Fault>(
            (SpecValue::Variant(name, arg), render(SpecValue::Variant(name, arg)).len()),
        ),
    decreases arg, 0nat,
{
    let tag = name_text(name);
    let n = tag.len() as int;
    let tail = match arg {
        None => seq!['>'],
        Some(inner) => seq![':'] + (render(*inner) + seq!['>']),
    };
    assert(render(SpecValue::Variant(name, arg)) =~= seq!['<'] + (tag + tail));
    lemma_stands_split(s, i, seq!['<'], tag + tail);
    lemma_stands_split(s, i + 1, tag, tail);
    lemma_name_text_starts(name);
    lemma_stands_char(s, i + 1, tag, 0);
    lemma_skip_solid(s, i + 1);
    lemma_stands_char(s, i + 1 + n, tail, 0);
    lemma_name_reads_back(s, i + 1, name);
    lemma_skip_solid(s, i + 1 + n);
    match arg {
        None => {},
        Some(inner) => {
            let m = render(*inner).len() as int;
            lemma_stands_split(s, i + 1 + n, seq![':'], render(*inner) + seq!['>']);
            lemma_stands_split(s, i + 2 + n, render(*inner), seq!['>']);
            lemma_stands_char(s, i + 2 + n + m, seq!['>'], 0);
            lemma_render_starts(*inner);
            lemma_stands_char(s, i + 2 + n, render(*inner), 0);
            lemma_skip_solid(s, i + 2 + n);
            lemma_value_reads_back(s, i + 2 + n, *inner);
            lemma_skip_solid(s, i + 2 + n + m);
        },
    }
}

/// A value that can be written in the dialect is read back from its text.
///
/// For every such value, printing it and reading the text gives the value
/// again: the same parts in the same order, the fields of objects too. So
/// what is read is also the same value in the sense of `same`, which does not
/// look at the order of fields.
pub proof fn lemma_print_then_parse(v: SpecValue)
    requires
        representable(v),
    ensures
        document(render(v)) == Ok::<SpecValue, Fault>(v),
        document(render(v)) matches Ok(w) && same(w, v),
{
    lemma_same_reflexive(v);
    let s = render(v);
    assert(s.subrange(0, s.len() as int) =~= s);
    lemma_render_starts(v);
    lemma_skip_solid(s, 0);
    lemma_value_reads_back(s, 0, v);
    lemma_skip_solid(s, s.len() as int);
}

/// A string that takes one more writable character stays writable.
proof fn lemma_writable_push(t: Seq<char>, c: char)
    requires
        writable(t),
        is_writable(c),
    ensures
        writable(t.push(c)),
{
    assert forall|k: int| 0 <= k < t.push(c).len() implies is_writable(
        #[trigger] t.push(c)[k],
    ) by {
        if k < t.len() {
            assert(t.push(c)[k] == t[k]);
        }
    }
}

/// What is read between quotes can be written again.
proof fn lemma_string_body_writable(s: Seq<char>, i: int, acc: Seq<char>)
    requires
        0 <= i,
        writable(acc),
    ensures
        string_body(s, i, acc) matches Ok((text, _)) ==> writable(text),
    decreases s.len() - i,
{
    if i >= s.len() {
    } else if s[i] == '"' {
    } else if s[i] == '\\' {
        if i + 1 >= s.len() {
        } else if s[i + 1] == 'u' {
            lemma_hex_end_bounds(s, i + 2, i + 6);
            if hex_end(s, i + 2, i + 6) == i + 6 && low_byte(s, i + 2) < 0x80 {
                assert(is_hex_digit(s[i + 4]) && is_hex_digit(s[i + 5]));
                let c = low_byte(s, i + 2) as u8 as char;
                assert(c as int == low_byte(s, i + 2));
                lemma_writable_push(acc, c);
                lemma_string_body_writable(s, i + 6, acc.push(c));
            }
        } else {
            match escape_of(s[i + 1]) {
                Some(c) => {
                    lemma_writable_push(acc, c);
                    lemma_string_body_writable(s, i + 2, acc.push(c));
                },
                None => {},
            }
        }
    } else if is_control(s[i]) {
    } else {
        lemma_writable_push(acc, s[i]);
        lemma_string_body_writable(s, i + 1, acc.push(s[i]));
    }
}

/// A name that is read can be written again.
proof fn lemma_name_at_writable(s: Seq<char>, i: int)
    requires
        0 <= i,
    ensures
        name_at(s, i) matches Ok((name, _)) ==> writable(name),
{
    if i < s.len() && is_letter(s[i]) {
        lemma_name_end_bounds(s, i + 1);
        let end = name_end(s, i + 1);
        let name = s.subrange(i, end);
        assert forall|k: int| 0 <= k < name.len() implies is_writable(#[trigger] name[k]) by {
            assert(name[k] == s[i + k]);
            if k > 0 {
                assert(is_name_char(s[i + k]));
            }
        }
    } else if at(s, i, '"') {
        assert(writable(Seq::<char>::empty()));
        lemma_string_body_writable(s, i + 1, Seq::empty());
    }
}

/// A run of digits within a part of the text ends, in the part taken alone,
/// where it ends in the text, as long as it ends within the part.
proof fn lemma_digits_end_alone(s: Seq<char>, i: int, end: int, k: int)
    requires
        0 <= i <= end <= s.len(),
        0 <= k <= end - i,
        digits_end(s, i + k) <= end,
    ensures
        digits_end(s.subrange(i, end), k) == digits_end(s, i + k) - i,
    decreases end - i - k,
{
    let t = s.subrange(i, end);
    lemma_digits_end_bounds(s, i + k);
    if k < t.len() {
        assert(t[k] == s[i + k]);
        if is_digit(t[k]) {
            lemma_digits_end_alone(s, i, end, k + 1);
        }
    }
}

/// A number with a fraction or an exponent that is read from a text is a
/// float of the dialect when it is taken alone.
pub(crate) proof fn lemma_number_alone(s: Seq<char>, i: int)
    requires
        0 <= i < s.len(),
        s[i] == '-' || is_digit(s[i]),
    ensures
        number_at(s, i) matches Ok((SpecValue::Float(text), end)) ==> is_float_text(text),
{
    lemma_number_at_bounds(s, i);
    if number_at(s, i) is Ok && number_at(s, i)->Ok_0.0 is Float {
        let end = number_at(s, i)->Ok_0.1;
        let t = s.subrange(i, end);
        let first: int = if at(s, i, '-') {
            i + 1
        } else {
            i
        };
        lemma_digits_end_bounds(s, first);
        let whole = digits_end(s, first);
        assert(t[0] == s[i]);
        let frac = fraction_end(s, whole)->Ok_0;
        if at(s, whole, '.') {
            lemma_digits_end_bounds(s, whole + 1);
        }
        assert(whole <= frac <= s.len());
        if at(s, frac, 'e') || at(s, frac, 'E') {
            lemma_digits_end_bounds(s, exponent_digits(s, frac));
        }
        assert(frac <= end);
        assert(whole < end);
        lemma_digits_end_alone(s, i, end, first - i);
        assert(t[first - i] == s[first]);
        assert(t[whole - i] == s[whole]);
        if at(s, whole, '.') {
            lemma_digits_end_alone(s, i, end, whole + 1 - i);
        }
        assert(fraction_end(t, whole - i) == Ok::<int, Fault>(frac - i));
        if frac < end {
            assert(t[frac - i] == s[frac]);
        }
        if at(s, frac, 'e') || at(s, frac, 'E') {
            let d = exponent_digits(s, frac);
            assert(d < end);
            assert(t[frac + 1 - i] == s[frac + 1]);
            assert(exponent_digits(t, frac - i) == d - i);
            lemma_digits_end_alone(s, i, end, d - i);
        }
        assert(exponent_end(t, frac - i) == Ok::<int, Fault>(end - i));
        assert(t.subrange(0, t.len() as int) =~= t);
        assert(number_at(t, 0) == Ok::<(SpecValue, int), Fault>(
            (SpecValue::Float(t), t.len() as int),
        ));
        assert(is_digit(t[first - i]));
        assert(!at_neg_infinity(t, 0));
    }
}

/// Whether every field has a name that can be written and a value that can.
pub open spec fn fields_representable(entries: Seq<(Seq<char>, SpecValue)>) -> bool {
    forall|k: int|
        0 <= k < entries.len() ==> writable((#[trigger] entries[k]).0) && representable(
            entries[k].1,
        )
}

/// Entering a field keeps the names distinct and the fields representable.
proof fn lemma_insert_entry(entries: Seq<(Seq<char>, SpecValue)>, key: Seq<char>, v: SpecValue)
    requires
        distinct_names(entries),
        fields_representable(entries),
        writable(key),
        representable(v),
    ensures
        distinct_names(insert_entry(entries, key, v)),
        fields_representable(insert_entry(entries, key, v)),
{
    lemma_key_index(entries, key);
    let after = insert_entry(entries, key, v);
    match key_index(entries, key) {
        Some(j) => {
            assert forall|a: int, b: int| 0 <= a < b < after.len() implies (#[trigger] after[a]).0
                != (#[trigger] after[b]).0 by {
                assert(after[a].0 == entries[a].0);
                assert(after[b].0 == entries[b].0);
            }
            assert forall|k: int| 0 <= k < after.len() implies writable((#[trigger] after[k]).0)
                && representable(after[k].1) by {
                if k != j {
                    assert(after[k] == entries[k]);
                }
            }
        },
        None => {
            assert forall|a: int, b: int| 0 <= a < b < after.len() implies (#[trigger] after[a]).0
                != (#[trigger] after[b]).0 by {
                assert(after[a] == entries[a]);
                if b < entries.len() {
                    assert(after[b] == entries[b]);
                }
            }
            assert forall|k: int| 0 <= k < after.len() implies writable((#[trigger] after[k]).0)
                && representable(after[k].1) by {
                if k < entries.len() {
                    assert(after[k] == entries[k]);
                }
            }
        },
    }
}

/// Whether every element can be written.
pub open spec fn items_representable(items: Seq<SpecValue>) -> bool {
    forall|k: int| 0 <= k < items.len() ==> representable(#[trigger] items[k])
}

/// A value that is read from a text can be written in the dialect.
pub(crate) proof fn lemma_value_at_representable(s: Seq<char>, i: int)
    requires
        0 <= i,
    ensures
        value_at(s, i) matches Ok((v, n)) ==> representable(v) && i + n <= s.len(),
    decreases s.len() - i, 1nat,
{
    if i >= s.len() {
    } else if at_null(s, i) || at_true(s, i) || at_false(s, i) {
    } else if at_nan(s, i) {
        let t = s.subrange(i, i + 3);
        assert(t[0] == s[i] && t[1] == s[i + 1] && t[2] == s[i + 2]);
        assert(t.subrange(0, 3) =~= t);
        assert(at_nan(t, 0));
    } else if at_infinity(s, i) {
        let t = s.subrange(i, i + 8);
        assert(t[0] == s[i] && t[1] == s[i + 1] && t[2] == s[i + 2] && t[3] == s[i + 3] && t[4]
            == s[i + 4] && t[5] == s[i + 5] && t[6] == s[i + 6] && t[7] == s[i + 7]);
        assert(t.subrange(0, 8) =~= t);
        assert(at_infinity(t, 0));
    } else if at_neg_infinity(s, i) {
        let t = s.subrange(i, i + 9);
        assert(t[0] == s[i] && t[1] == s[i + 1] && t[2] == s[i + 2] && t[3] == s[i + 3] && t[4]
            == s[i + 4] && t[5] == s[i + 5] && t[6] == s[i + 6] && t[7] == s[i + 7] && t[8] == s[i
            + 8]);
        assert(t.subrange(0, 9) =~= t);
        assert(at_neg_infinity(t, 0));
    } else if s[i] == '-' || is_digit(s[i]) {
        lemma_number_at_bounds(s, i);
        lemma_number_alone(s, i);
    } else if s[i] == '"' {
        assert(writable(Seq::<char>::empty()));
        lemma_string_body_writable(s, i + 1, Seq::empty());
        lemma_string_body_bounds(s, i + 1, Seq::empty());
    } else if s[i] == '[' {
        lemma_skip_bounds(s, i + 1);
        let first = skip(s, i + 1);
        assert(items_representable(Seq::<SpecValue>::empty()));
        if !at(s, first, ']') {
            lemma_elements_at_representable(s, first, Seq::empty(), ']');
        }
    } else if s[i] == '(' {
        lemma_skip_bounds(s, i + 1);
        let first = skip(s, i + 1);
        assert(items_representable(Seq::<SpecValue>::empty()));
        lemma_elements_at_representable(s, first, Seq::empty(), ')');
    } else if s[i] == '{' {
        lemma_skip_bounds(s, i + 1);
        let first = skip(s, i + 1);
        assert(distinct_names(Seq::<(Seq<char>, SpecValue)>::empty()));
        assert(fields_representable(Seq::<(Seq<char>, SpecValue)>::empty()));
        if !at(s, first, '}') {
            lemma_fields_at_representable(s, first, Seq::empty());
        }
    } else if s[i] == '<' {
        lemma_variant_at_representable(s, i);
    }
}

/// The same of a variant.
proof fn lemma_variant_at_representable(s: Seq<char>, i: int)
    requires
        0 <= i < s.len(),
    ensures
        variant_at(s, i) matches Ok((v, n)) ==> representable(v) && i + n <= s.len(),
    decreases s.len() - i, 0nat,
{
    lemma_skip_bounds(s, i + 1);
    let tag = skip(s, i + 1);
    lemma_name_at_bounds(s, tag);
    lemma_name_at_writable(s, tag);
    match name_at(s, tag) {
        Err(_) => {},
        Ok((name, after)) => {
            lemma_skip_bounds(s, after);
            let next = skip(s, after);
            if at(s, next, ':') && !at(s, next, '>') {
                lemma_skip_bounds(s, next + 1);
                let arg = skip(s, next + 1);
                lemma_value_at_representable(s, arg);
                match value_at(s, arg) {
                    Err(_) => {},
                    Ok((v, n)) => {
                        lemma_skip_bounds(s, arg + n);
                    },
                }
            }
        },
    }
}

/// The same of the elements of a list.
proof fn lemma_elements_at_representable(
    s: Seq<char>,
    i: int,
    acc: Seq<SpecValue>,
    close: char,
)
    requires
        0 <= i <= s.len(),
        items_representable(acc),
    ensures
        elements_at(s, i, acc, close) matches Ok((items, n)) ==> items_representable(items) && i
            + n <= s.len(),
    decreases s.len() - i, 2nat,
{
    lemma_value_at_representable(s, i);
    match value_at(s, i) {
        Err(_) => {},
        Ok((v, n)) => {
            lemma_skip_bounds(s, i + n);
            let next = skip(s, i + n);
            assert(items_representable(acc.push(v))) by {
                assert forall|k: int| 0 <= k < acc.push(v).len() implies representable(
                    #[trigger] acc.push(v)[k],
                ) by {
                    if k < acc.len() {
                        assert(acc.push(v)[k] == acc[k]);
                    }
                }
            }
            if at(s, next, ',') {
                lemma_skip_bounds(s, next + 1);
                lemma_elements_at_representable(s, skip(s, next + 1), acc.push(v), close);
            }
        },
    }
}

/// The same of the fields of an object.
proof fn lemma_fields_at_representable(
    s: Seq<char>,
    i: int,
    acc: Seq<(Seq<char>, SpecValue)>,
)
    requires
        0 <= i <= s.len(),
        distinct_names(acc),
        fields_representable(acc),
    ensures
        fields_at(s, i, acc) matches Ok((entries, n)) ==> distinct_names(entries)
            && fields_representable(entries) && i + n <= s.len(),
    decreases s.len() - i, 2nat,
{
    lemma_name_at_bounds(s, i);
    lemma_name_at_writable(s, i);
    match name_at(s, i) {
        Err(_) => {},
        Ok((name, after)) => {
            lemma_skip_bounds(s, after);
            let colon = skip(s, after);
            if at(s, colon, ':') {
                lemma_skip_bounds(s, colon + 1);
                let start = skip(s, colon + 1);
                lemma_value_at_representable(s, start);
                match value_at(s, start) {
                    Err(_) => {},
                    Ok((v, n)) => {
                        lemma_skip_bounds(s, start + n);
                        let next = skip(s, start + n);
                        lemma_insert_entry(acc, name, v);
                        if at(s, next, ',') {
                            lemma_skip_bounds(s, next + 1);
                            lemma_fields_at_representable(
                                s,
                                skip(s, next + 1),
                                insert_entry(acc, name, v),
                            );
                        }
                    },
                }
            }
        },
    }
}

/// What the parser reads can be written in the dialect.
///
/// Every value that is read from a text holds only floats of the dialect,
/// tuples of two elements or more, objects without two fields of one name,
/// and strings and names that can be written between quotes. So it is read
/// back from its own text.
pub proof fn lemma_parsed_is_representable(s: Seq<char>)
    ensures
        document(s) matches Ok(v) ==> representable(v) && document(render(v)) == Ok::<
            SpecValue,
            Fault,
        >(v),
{
    lemma_skip_bounds(s, 0);
    lemma_value_at_representable(s, skip(s, 0));
    match document(s) {
        Ok(v) => {
            lemma_print_then_parse(v);
        },
        Err(_) => {},
    }
}

} // verus!
