//! Human-readable rendering of parse errors.

use vstd::prelude::*;

use crate::liquid_docs::{ParsingError, ParsingErrorV};
use crate::text::push_char;

verus! {

/// The decimal digit character of `d`.
pub open spec fn digit_char(d: int) -> char {
    if d == 0 {
        '0'
    } else if d == 1 {
        '1'
    } else if d == 2 {
        '2'
    } else if d == 3 {
        '3'
    } else if d == 4 {
        '4'
    } else if d == 5 {
        '5'
    } else if d == 6 {
        '6'
    } else if d == 7 {
        '7'
    } else if d == 8 {
        '8'
    } else {
        '9'
    }
}

/// The decimal digits of `n`, most significant first.
pub open spec fn dec_digits(n: int) -> Seq<char>
    decreases n,
{
    if n < 10 {
        seq![digit_char(n)]
    } else {
        dec_digits(n / 10).push(digit_char(n % 10))
    }
}

fn exec_digit(d: usize) -> (c: char)
    ensures
        c == digit_char(d as int),
{
    if d == 0 {
        '0'
    } else if d == 1 {
        '1'
    } else if d == 2 {
        '2'
    } else if d == 3 {
        '3'
    } else if d == 4 {
        '4'
    } else if d == 5 {
        '5'
    } else if d == 6 {
        '6'
    } else if d == 7 {
        '7'
    } else if d == 8 {
        '8'
    } else {
        '9'
    }
}

/// Renders `n` in decimal.
pub fn dec_str(n: usize) -> (r: String)
    ensures
        r@ == dec_digits(n as int),
    decreases n,
{
    if n < 10 {
        let mut sr = String::new();
        push_char(&mut sr, exec_digit(n));
        proof {
            assert(sr@ =~= seq![digit_char(n as int)]);
        }
        sr
    } else {
        let mut sr = dec_str(n / 10);
        push_char(&mut sr, exec_digit(n % 10));
        sr
    }
}

/// The diagnostic line each error renders to.
pub open spec fn message_of(e: ParsingErrorV) -> Seq<char> {
    match e {
        ParsingErrorV::MissingParameterName { line, column, message } => "Missing parameter on "@
            + dec_digits(line) + ":"@ + dec_digits(column) + " near this line:\n"@ + message,
        ParsingErrorV::MissingOptionalClosingBracket(l) =>
        "Missing closing bracket for parameter optionality near this line:\n"@ + l,
        ParsingErrorV::UnexpectedParameterEnd(l) => "Unexpected parameter end near this line:\n "@
            + l,
        ParsingErrorV::UnknownParameterType(t) => "Unknown parameter type: \""@ + t + "\""@,
        ParsingErrorV::NoDocContentFound => "No doc content found"@,
    }
}

impl ParsingError {
    /// The diagnostic line for this error, as [`message_of`] states it.
    pub fn to_message(&self) -> (r: String)
        ensures
            r@ == message_of(self@),
    {
        match self {
            ParsingError::MissingParameterName { line, column, message } => {
                let mut out = String::from_str("Missing parameter on ");
                out.append(dec_str(*line).as_str());
                out.append(":");
                out.append(dec_str(*column).as_str());
                out.append(" near this line:\n");
                out.append(message.as_str());
                out
            },
            ParsingError::MissingOptionalClosingBracket(l) => {
                let mut out = String::from_str(
                    "Missing closing bracket for parameter optionality near this line:\n",
                );
                out.append(l.as_str());
                out
            },
            ParsingError::UnexpectedParameterEnd(l) => {
                let mut out = String::from_str("Unexpected parameter end near this line:\n ");
                out.append(l.as_str());
                out
            },
            ParsingError::UnknownParameterType(t) => {
                let mut out = String::from_str("Unknown parameter type: \"");
                out.append(t.as_str());
                out.append("\"");
                out
            },
            ParsingError::NoDocContentFound => String::from_str("No doc content found"),
        }
    }
}

/// A flattened error record: a position and a rendered message.
#[derive(Debug, PartialEq)]
pub struct ParseError {
    pub line: usize,
    pub column: usize,
    pub message: String,
}

/// The message rendered into a [`ParseError`].
pub open spec fn flat_message_of(e: ParsingErrorV) -> Seq<char> {
    match e {
        ParsingErrorV::MissingParameterName { line, column, message } =>
        "Missing parameter at position "@ + dec_digits(column) + ": "@ + message,
        ParsingErrorV::MissingOptionalClosingBracket(c) =>
        "Missing closing bracket for parameter optionality: "@ + c,
        ParsingErrorV::UnexpectedParameterEnd(c) => "Unexpected parameter end: "@ + c,
        ParsingErrorV::UnknownParameterType(t) => "Unknown parameter type: "@ + t,
        ParsingErrorV::NoDocContentFound => "No documentation content found"@,
    }
}

impl ParseError {
    /// Flattens an error into a position and a rendered message; errors
    /// without a position report line and column 0.
    pub fn from(error: ParsingError) -> (r: ParseError)
        ensures
            r.message@ == flat_message_of(error@),
            match error@ {
                ParsingErrorV::MissingParameterName { line, column, .. } => r.line as int == line
                    && r.column as int == column,
                _ => r.line == 0 && r.column == 0,
            },
    {
        match error {
            ParsingError::MissingParameterName { line, column, message } => {
                let mut out = String::from_str("Missing parameter at position ");
                out.append(dec_str(column).as_str());
                out.append(": ");
                out.append(message.as_str());
                ParseError { line, column, message: out }
            },
            ParsingError::MissingOptionalClosingBracket(content) => {
                let mut out = String::from_str(
                    "Missing closing bracket for parameter optionality: ",
                );
                out.append(content.as_str());
                ParseError { line: 0, column: 0, message: out }
            },
            ParsingError::UnexpectedParameterEnd(content) => {
                let mut out = String::from_str("Unexpected parameter end: ");
                out.append(content.as_str());
                ParseError { line: 0, column: 0, message: out }
            },
            ParsingError::UnknownParameterType(param_type) => {
                let mut out = String::from_str("Unknown parameter type: ");
                out.append(param_type.as_str());
                ParseError { line: 0, column: 0, message: out }
            },
            ParsingError::NoDocContentFound => {
                ParseError {
                    line: 0,
                    column: 0,
                    message: String::from_str("No documentation content found"),
                }
            },
        }
    }
}

} // verus!
