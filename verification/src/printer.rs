//! The printer: a value in, its text out.

use vstd::prelude::*;
use vstd::string::StringExecFns;
use crate::grammar::{is_control, is_letter, is_name_char};
use crate::text::chars_of;
use crate::value::{
    entry_views, lemma_entry_views, lemma_field_decreases, lemma_views, views, Assoc, SpecValue,
    Value,
};

verus! {

/// The character of the decimal or hexadecimal digit `d`, in lower case.
pub open spec fn digit_char(d: int) -> char {
    if d < 10 {
        ('0' as u8 + d) as u8 as char
    } else {
        ('a' as u8 + d - 10) as u8 as char
    }
}

/// The decimal digits of `n`, without leading zeros.
pub open spec fn decimal(n: nat) -> Seq<char>
    decreases n,
{
    if n < 10 {
        seq![digit_char(n as int)]
    } else {
        decimal(n / 10).push(digit_char((n % 10) as int))
    }
}

/// An integer in decimal digits, with a minus sign where it is negative.
pub open spec fn integer_text(i: int) -> Seq<char> {
    if i < 0 {
        seq!['-'] + decimal((-i) as nat)
    } else {
        decimal(i as nat)
    }
}

/// How one character of a string is written between quotes: the quote and the
/// backslash behind a backslash, a control character by its letter where it
/// has one and else as `\u00` and its code in two hexadecimal digits, any
/// other character as itself.
pub open spec fn escaped(c: char) -> Seq<char> {
    if c == '"' {
        seq!['\\', '"']
    } else if c == '\\' {
        seq!['\\', '\\']
    } else if c == '\n' {
        seq!['\\', 'n']
    } else if c == '\r' {
        seq!['\\', 'r']
    } else if c == '\t' {
        seq!['\\', 't']
    } else if c == '\u{8}' {
        seq!['\\', 'b']
    } else if c == '\u{c}' {
        seq!['\\', 'f']
    } else if is_control(c) {
        seq!['\\', 'u', '0', '0', digit_char(c as int / 16), digit_char(c as int % 16)]
    } else {
        seq![c]
    }
}

/// The characters of `t`, each written as `escaped` says.
pub open spec fn escaped_all(t: Seq<char>) -> Seq<char>
    decreases t.len(),
{
    if t.len() == 0 {
        Seq::empty()
    } else {
        escaped_all(t.drop_last()) + escaped(t.last())
    }
}

/// A string between quotes.
pub open spec fn quoted(t: Seq<char>) -> Seq<char> {
    seq!['"'] + escaped_all(t) + seq!['"']
}

/// Whether a name can stand without quotes: a letter, then letters, digits
/// and underscores.
pub open spec fn is_plain_name(t: Seq<char>) -> bool {
    &&& t.len() > 0
    &&& is_letter(t[0])
    &&& forall|k: int| 0 < k < t.len() ==> is_name_char(#[trigger] t[k])
}

/// A field name or variant tag: bare where it can stand so, else between quotes.
pub open spec fn name_text(t: Seq<char>) -> Seq<char> {
    if is_plain_name(t) {
        t
    } else {
        quoted(t)
    }
}

/// The text of a value, without any blank.
pub open spec fn render(v: SpecValue) -> Seq<char>
    decreases v,
{
    match v {
        SpecValue::Null => seq!['n', 'u', 'l', 'l'],
        SpecValue::Bool(b) => if b {
            seq!['t', 'r', 'u', 'e']
        } else {
            seq!['f', 'a', 'l', 's', 'e']
        },
        SpecValue::Integer(i) => integer_text(i as int),
        SpecValue::Float(text) => text,
        SpecValue::String(text) => quoted(text),
        SpecValue::Assoc(entries) => seq!['{'] + render_fields(entries) + seq!['}'],
        SpecValue::Array(items) => seq!['['] + render_items(items) + seq![']'],
        SpecValue::Tuple(items) => seq!['('] + render_items(items) + seq![')'],
        SpecValue::Variant(name, arg) => match arg {
            None => seq!['<'] + name_text(name) + seq!['>'],
            Some(inner) => seq!['<'] + name_text(name) + seq![':'] + render(*inner) + seq!['>'],
        },
    }
}

/// The texts of `items`, with a comma between each two.
pub open spec fn render_items(items: Seq<SpecValue>) -> Seq<char>
    decreases items,
{
    if items.len() == 0 {
        Seq::empty()
    } else if items.len() == 1 {
        render(items[0])
    } else {
        render_items(items.drop_last()) + seq![','] + render(items.last())
    }
}

/// The fields of `entries`, with a comma between each two.
pub open spec fn render_fields(entries: Seq<(Seq<char>, SpecValue)>) -> Seq<char>
    decreases entries,
{
    if entries.len() == 0 {
        Seq::empty()
    } else if entries.len() == 1 {
        name_text(entries[0].0) + seq![':'] + render(entries[0].1)
    } else {
        render_fields(entries.drop_last()) + seq![','] + name_text(entries.last().0) + seq![':']
            + render(entries.last().1)
    }
}

fn push_digit(out: &mut String, d: u8)
    requires
        d < 16,
    ensures
        final(out)@ == old(out)@.push(digit_char(d as int)),
{
    if d < 10 {
        out.push((48u8 + d) as char);
    } else {
        out.push((97u8 + d - 10) as char);
    }
}

/// Appends the decimal digits of `n` to `out`.
pub(crate) fn push_decimal(out: &mut String, n: u64)
    ensures
        final(out)@ == old(out)@ + decimal(n as nat),
    decreases n,
{
    if n < 10 {
        push_digit(out, n as u8);
        assert(out@ =~= old(out)@ + decimal(n as nat));
    } else {
        push_decimal(out, n / 10);
        push_digit(out, (n % 10) as u8);
        assert(out@ =~= old(out)@ + decimal(n as nat));
    }
}

fn push_integer(out: &mut String, i: i64)
    ensures
        final(out)@ == old(out)@ + integer_text(i as int),
{
    if i < 0 {
        out.push('-');
        let m: u64 = (0 - i as i128) as u64;
        push_decimal(out, m);
        assert(out@ =~= old(out)@ + integer_text(i as int));
    } else {
        push_decimal(out, i as u64);
    }
}

fn push_escaped(out: &mut String, c: char)
    ensures
        final(out)@ == old(out)@ + escaped(c),
{
    let code: u32 = c as u32;
    if c == '"' {
        out.push('\\');
        out.push('"');
    } else if c == '\\' {
        out.push('\\');
        out.push('\\');
    } else if c == '\n' {
        out.push('\\');
        out.push('n');
    } else if c == '\r' {
        out.push('\\');
        out.push('r');
    } else if c == '\t' {
        out.push('\\');
        out.push('t');
    } else if c == '\u{8}' {
        out.push('\\');
        out.push('b');
    } else if c == '\u{c}' {
        out.push('\\');
        out.push('f');
    } else if code < 0x20 || (0x7f <= code && code <= 0x9f) {
        out.push('\\');
        out.push('u');
        out.push('0');
        out.push('0');
        push_digit(out, (code / 16) as u8);
        push_digit(out, (code % 16) as u8);
    } else {
        out.push(c);
    }
    assert(out@ =~= old(out)@ + escaped(c));
}

fn push_quoted(out: &mut String, text: &str)
    ensures
        final(out)@ == old(out)@ + quoted(text@),
{
    let chars = chars_of(text);
    out.push('"');
    let mut k: usize = 0;
    while k < chars.len()
        invariant
            k <= chars.len(),
            chars@ == text@,
            out@ == old(out)@ + seq!['"'] + escaped_all(chars@.take(k as int)),
        decreases chars.len() - k,
    {
        let ghost before = out@;
        push_escaped(out, chars[k]);
        proof {
            assert(chars@.take(k as int + 1).drop_last() =~= chars@.take(k as int));
            assert(out@ =~= old(out)@ + seq!['"'] + escaped_all(chars@.take(k as int + 1)));
        }
        k += 1;
    }
    out.push('"');
    proof {
        assert(chars@.take(k as int) =~= chars@);
        assert(out@ =~= old(out)@ + quoted(text@));
    }
}

fn check_plain_name(chars: &Vec<char>) -> (r: bool)
    ensures
        r == is_plain_name(chars@),
{
    if chars.len() == 0 {
        return false;
    }
    let first = chars[0];
    if !(('a' <= first && first <= 'z') || ('A' <= first && first <= 'Z')) {
        return false;
    }
    let mut k: usize = 1;
    while k < chars.len()
        invariant
            1 <= k <= chars.len(),
            is_letter(chars@[0]),
            forall|j: int| 0 < j < k ==> is_name_char(#[trigger] chars@[j]),
        decreases chars.len() - k,
    {
        let c = chars[k];
        let ok = ('a' <= c && c <= 'z') || ('A' <= c && c <= 'Z') || ('0' <= c && c <= '9') || c
            == '_';
        if !ok {
            return false;
        }
        k += 1;
    }
    true
}

fn push_name(out: &mut String, name: &str)
    ensures
        final(out)@ == old(out)@ + name_text(name@),
{
    let chars = chars_of(name);
    if check_plain_name(&chars) {
        out.append(name);
    } else {
        push_quoted(out, name);
    }
}

/// Appends the text of `v` to `out`.
pub fn write_value(out: &mut String, v: &Value)
    ensures
        final(out)@ == old(out)@ + render(v@),
    decreases v, 0nat,
{
    match v {
        Value::Null => {
            out.push('n');
            out.push('u');
            out.push('l');
            out.push('l');
            assert(out@ =~= old(out)@ + render(v@));
        },
        Value::Bool(b) => {
            if *b {
                out.push('t');
                out.push('r');
                out.push('u');
                out.push('e');
            } else {
                out.push('f');
                out.push('a');
                out.push('l');
                out.push('s');
                out.push('e');
            }
            assert(out@ =~= old(out)@ + render(v@));
        },
        Value::Integer(i) => {
            push_integer(out, *i);
        },
        Value::Float(f) => {
            out.append(f.as_str());
        },
        Value::String(text) => {
            push_quoted(out, text.as_str());
        },
        Value::Assoc(fields) => {
            out.push('{');
            write_fields(out, fields);
            out.push('}');
            assert(out@ =~= old(out)@ + render(v@));
        },
        Value::Array(items) => {
            out.push('[');
            write_items(out, items);
            out.push(']');
            assert(out@ =~= old(out)@ + render(v@));
        },
        Value::Tuple(items) => {
            out.push('(');
            write_items(out, items);
            out.push(')');
            assert(out@ =~= old(out)@ + render(v@));
        },
        Value::Variant(variant) => {
            out.push('<');
            push_name(out, variant.0.as_str());
            match &variant.1 {
                None => {},
                Some(inner) => {
                    out.push(':');
                    write_value(out, inner);
                },
            }
            out.push('>');
            assert(out@ =~= old(out)@ + render(v@));
        },
    }
}

/// Appends the texts of `items` to `out`, with a comma between each two.
fn write_items(out: &mut String, items: &Vec<Value>)
    ensures
        final(out)@ == old(out)@ + render_items(views(items@)),
    decreases items, 1nat,
{
    let mut k: usize = 0;
    proof {
        lemma_views(items@.take(0));
    }
    while k < items.len()
        invariant
            k <= items.len(),
            out@ == old(out)@ + render_items(views(items@.take(k as int))),
        decreases items.len() - k,
    {
        if k > 0 {
            out.push(',');
        }
        write_value(out, &items[k]);
        proof {
            let shorter = items@.take(k as int);
            let longer = items@.take(k as int + 1);
            assert(longer.drop_last() =~= shorter);
            lemma_views(shorter);
            lemma_views(longer);
            assert(views(longer) =~= views(shorter).push(items@[k as int]@));
            assert(views(longer).drop_last() =~= views(shorter));
            assert(out@ =~= old(out)@ + render_items(views(longer)));
        }
        k += 1;
    }
    proof {
        assert(items@.take(k as int) =~= items@);
    }
}

/// Appends the fields of `fields` to `out`, with a comma between each two.
fn write_fields(out: &mut String, fields: &Assoc)
    ensures
        final(out)@ == old(out)@ + render_fields(fields@),
    decreases fields, 1nat,
{
    let entries = fields.entries();
    let mut k: usize = 0;
    proof {
        lemma_entry_views(entries@.take(0));
    }
    while k < entries.len()
        invariant
            k <= entries.len(),
            entries@ == fields.stored(),
            entry_views(entries@) == fields@,
            out@ == old(out)@ + render_fields(entry_views(entries@.take(k as int))),
        decreases entries.len() - k,
    {
        if k > 0 {
            out.push(',');
        }
        push_name(out, entries[k].0.as_str());
        out.push(':');
        proof {
            lemma_field_decreases(*fields, k as int);
        }
        write_value(out, &entries[k].1);
        proof {
            let shorter = entries@.take(k as int);
            let longer = entries@.take(k as int + 1);
            assert(longer.drop_last() =~= shorter);
            lemma_entry_views(shorter);
            lemma_entry_views(longer);
            assert(entry_views(longer) =~= entry_views(shorter).push(
                (entries@[k as int].0@, entries@[k as int].1@),
            ));
            assert(entry_views(longer).drop_last() =~= entry_views(shorter));
            assert(out@ =~= old(out)@ + render_fields(entry_views(longer)));
        }
        k += 1;
    }
    proof {
        assert(entries@.take(k as int) =~= entries@);
    }
}

} // verus!
