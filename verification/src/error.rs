//! How reading a text fails.

use vstd::prelude::*;
use vstd::string::StringExecFns;
use crate::printer::{decimal, push_decimal};

verus! {

/// What the parser was looking for, or what it found wrong, where it gave up.
#[derive(Clone, Copy, Debug, PartialEq, Eq, Structural)]
pub enum ErrorKind {
    /// A value had to start here.
    ExpectedValue,
    /// A field name or variant tag had to start here.
    ExpectedName,
    /// The `:` between a field name and its value is missing.
    ExpectedColon,
    /// A decimal digit had to follow a sign, a decimal point or an exponent mark.
    ExpectedDigit,
    /// One of the four hexadecimal digits of a `\u` escape is missing.
    ExpectedHexDigit,
    /// After an array element, neither `,` nor `]` follows.
    ExpectedArrayNext,
    /// After a tuple element, neither `,` nor `)` follows.
    ExpectedTupleNext,
    /// After a field, neither `,` nor `}` follows.
    ExpectedAssocNext,
    /// After a variant tag, neither `:` nor `>` follows.
    ExpectedVariantNext,
    /// After a variant's argument, `>` is missing.
    ExpectedVariantClose,
    /// Something other than blanks and comments follows the document's value.
    ExpectedEnd,
    /// A tuple closes after a single element.
    TupleTooShort,
    /// The input ends inside a quoted string.
    UnterminatedString,
    /// A control character stands unescaped inside a quoted string.
    ControlCharacter,
    /// A backslash is followed by something that is no escape.
    InvalidEscape,
    /// A `\u` escape whose low byte is no single-byte character.
    EscapeOutOfRange,
    /// An integer literal that does not fit 64 signed bits.
    IntegerOutOfRange,
}

/// A text that is not in the dialect: what is wrong, and where.
#[derive(Clone, Copy, Debug, PartialEq, Eq, Structural)]
pub struct SyntaxError {
    /// What was expected or refused.
    pub kind: ErrorKind,
    /// The number of characters before the fault.
    pub offset: usize,
    /// The line of the fault, counted from 1.
    pub line: usize,
    /// The place of the fault in its line, in characters, counted from 1.
    pub column: usize,
}

impl ErrorKind {
    /// The kind in words.
    pub open spec fn description(self) -> Seq<char> {
        match self {
            ErrorKind::ExpectedValue => "expected a value"@,
            ErrorKind::ExpectedName => "expected a name"@,
            ErrorKind::ExpectedColon => "expected ':'"@,
            ErrorKind::ExpectedDigit => "expected a digit"@,
            ErrorKind::ExpectedHexDigit => "expected a hexadecimal digit"@,
            ErrorKind::ExpectedArrayNext => "expected ',' or ']'"@,
            ErrorKind::ExpectedTupleNext => "expected ',' or ')'"@,
            ErrorKind::ExpectedAssocNext => "expected ',' or '}'"@,
            ErrorKind::ExpectedVariantNext => "expected ':' or '>'"@,
            ErrorKind::ExpectedVariantClose => "expected '>'"@,
            ErrorKind::ExpectedEnd => "expected the end of the text"@,
            ErrorKind::TupleTooShort => "a tuple needs two elements at least"@,
            ErrorKind::UnterminatedString => "the string is not closed"@,
            ErrorKind::ControlCharacter => "a control character stands in a string"@,
            ErrorKind::InvalidEscape => "no such escape"@,
            ErrorKind::EscapeOutOfRange => "the escape denotes no character"@,
            ErrorKind::IntegerOutOfRange => "the integer does not fit 64 bits"@,
        }
    }

    /// The kind in words.
    pub fn describe(self) -> (r: &'static str)
        ensures
            r@ == self.description(),
    {
        match self {
            ErrorKind::ExpectedValue => "expected a value",
            ErrorKind::ExpectedName => "expected a name",
            ErrorKind::ExpectedColon => "expected ':'",
            ErrorKind::ExpectedDigit => "expected a digit",
            ErrorKind::ExpectedHexDigit => "expected a hexadecimal digit",
            ErrorKind::ExpectedArrayNext => "expected ',' or ']'",
            ErrorKind::ExpectedTupleNext => "expected ',' or ')'",
            ErrorKind::ExpectedAssocNext => "expected ',' or '}'",
            ErrorKind::ExpectedVariantNext => "expected ':' or '>'",
            ErrorKind::ExpectedVariantClose => "expected '>'",
            ErrorKind::ExpectedEnd => "expected the end of the text",
            ErrorKind::TupleTooShort => "a tuple needs two elements at least",
            ErrorKind::UnterminatedString => "the string is not closed",
            ErrorKind::ControlCharacter => "a control character stands in a string",
            ErrorKind::InvalidEscape => "no such escape",
            ErrorKind::EscapeOutOfRange => "the escape denotes no character",
            ErrorKind::IntegerOutOfRange => "the integer does not fit 64 bits",
        }
    }
}

impl SyntaxError {
    /// The error in words: the line and the column in decimal digits, then
    /// what is wrong there.
    pub open spec fn message_text(self) -> Seq<char> {
        "line "@ + decimal(self.line as nat) + ", column "@ + decimal(self.column as nat) + ": "@
            + self.kind.description()
    }

    /// The error in words, for a reader.
    pub fn message(&self) -> (r: String)
        ensures
            r@ == self.message_text(),
    {
        let mut out = String::new();
        out.append("line ");
        push_decimal(&mut out, self.line as u64);
        out.append(", column ");
        push_decimal(&mut out, self.column as u64);
        out.append(": ");
        out.append(self.kind.describe());
        assert(out@ =~= self.message_text());
        out
    }
}

} // verus!
