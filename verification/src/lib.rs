//! A reader and a printer for Yojson, an extension of JSON.
//!
//! Beyond JSON the dialect has
//! - tuples, written like arrays but within parentheses: `(1.23, 4.56)`;
//! - variants without and with an argument: `<"Foo">`, `<"Bar": 123>`;
//! - field names and variant tags without quotes, where they match
//!   `[A-Za-z][A-Za-z_0-9]*`: `{ x: <Foo>, "#y": <Bar2> }`;
//! - comments: `/* multiline comment */` and `// end-of-line comment`;
//! - the numbers `Infinity`, `-Infinity` and `NaN`.
//!
//! `parser::parse` reads a text into a `value::Value`, and `to_string` prints
//! a value. What a text denotes is defined in `grammar`, what is printed for
//! a value in `printer`, and `laws` proves that the two fit: what is printed
//! is read back as the same value.

use vstd::prelude::*;

pub mod equality;
pub mod error;
pub mod grammar;
pub mod laws;
pub mod parser;
pub mod printer;
pub mod text;
pub mod value;

verus! {

/// Prints a value: the text that `printer::render` defines for it, without
/// any blank.
pub fn to_string(value: value::Value) -> (r: String)
    ensures
        r@ == printer::render(value@),
{
    let mut out = String::new();
    printer::write_value(&mut out, &value);
    out
}

} // verus!
