//! The selector parser's error taxonomy. Every error is raised during the
//! one-time parse step; extraction itself never fails.

use vstd::prelude::*;

use crate::numeral::dec_digits;
use crate::numeral::dec_string;

verus! {

use vstd::string::StringExecFns;

/// The mathematical form of a parse error, used by contracts.
pub enum SpecParseError {
    /// The selector string was empty.
    EmptySelector,
    /// A token (or one side of a range token) is not a valid 1-based
    /// position; carries the offending text as written.
    IllegalListValue(Seq<char>),
    /// A range whose first 1-based bound is not strictly below its second;
    /// carries both bounds as the user wrote them.
    InvalidRange(nat, nat),
}

/// A selector could not be parsed. The payloads echo the user's input: the
/// offending token verbatim, or the 1-based range bounds as written.
#[derive(Debug, PartialEq, Eq)]
pub enum ParseError {
    EmptySelector,
    IllegalListValue(String),
    InvalidRange(usize, usize),
}

impl View for ParseError {
    type V = SpecParseError;

    open spec fn view(&self) -> SpecParseError {
        match self {
            ParseError::EmptySelector => SpecParseError::EmptySelector,
            ParseError::IllegalListValue(t) => SpecParseError::IllegalListValue(t@),
            ParseError::InvalidRange(n1, n2) => SpecParseError::InvalidRange(
                *n1 as nat,
                *n2 as nat,
            ),
        }
    }
}

/// The user-facing message of a parse error.
pub open spec fn spec_message(e: SpecParseError) -> Seq<char> {
    match e {
        SpecParseError::EmptySelector => "empty selector"@,
        SpecParseError::IllegalListValue(t) => "illegal list value: \""@ + t + "\""@,
        SpecParseError::InvalidRange(n1, n2) => "First number in range ("@ + dec_digits(n1)
            + ") must be lower than second number ("@ + dec_digits(n2) + ")"@,
    }
}

impl ParseError {
    /// Render the error as the message shown to the user.
    pub fn message(&self) -> (r: String)
        ensures
            r@ == spec_message(self@),
    {
        match self {
            ParseError::EmptySelector => String::from_str("empty selector"),
            ParseError::IllegalListValue(t) => {
                let mut s = String::from_str("illegal list value: \"");
                s.append(t.as_str());
                s.append("\"");
                proof {
                    assert(s@ =~= spec_message(self@));
                }
                s
            },
            ParseError::InvalidRange(n1, n2) => {
                let mut s = String::from_str("First number in range (");
                s.append(dec_string(*n1).as_str());
                s.append(") must be lower than second number (");
                s.append(dec_string(*n2).as_str());
                s.append(")");
                proof {
                    assert(s@ =~= spec_message(self@));
                }
                s
            },
        }
    }
}

} // verus!
