//! The errors that end a decode, each carrying the exact 0-based position,
//! in the original input, of the character whose absence or invalidity
//! caused the failure.

use vstd::prelude::*;
use vstd::string::StringExecFns;
use crate::chars::char_debug;
use crate::chars::char_debug_of;
use crate::chars::chars_to_string;
use crate::chars::dec_digits;
use crate::chars::push_dec_digits;

verus! {

/// Why a digit buffer could not be converted to a number.
#[derive(Debug, Clone, Copy, PartialEq, Eq)]
pub enum IntErrorKind {
    /// The buffer held no digits at all.
    Empty,
    /// A character in the buffer is no digit of the expected base.
    InvalidDigit,
    /// The digits denote a value beyond the target type.
    PosOverflow,
}

impl IntErrorKind {
    /// The message that the standard numeric conversion reports for this
    /// failure.
    pub open spec fn spec_message(self) -> Seq<char> {
        match self {
            IntErrorKind::Empty => "cannot parse integer from empty string"@,
            IntErrorKind::InvalidDigit => "invalid digit found in string"@,
            IntErrorKind::PosOverflow => "number too large to fit in target type"@,
        }
    }

    /// Human-readable description of the conversion failure.
    pub fn message(&self) -> (s: String)
        ensures
            s@ == self.spec_message(),
    {
        match self {
            IntErrorKind::Empty => String::from_str("cannot parse integer from empty string"),
            IntErrorKind::InvalidDigit => String::from_str("invalid digit found in string"),
            IntErrorKind::PosOverflow => String::from_str("number too large to fit in target type"),
        }
    }
}

/// A decode failure, tagged with the absolute position at which it arose.
#[derive(Debug, Clone, Copy, PartialEq, Eq)]
pub enum Error {
    /// Decoding required more characters than were available.
    IncompleteStr(usize),
    /// A character appeared where the escape grammar disallows it.
    InvalidChar { char: char, pos: usize },
    /// Captured digits could not be converted to a number.
    ParseIntError { source: IntErrorKind, pos: usize },
}

impl Error {
    /// The position carried by the error.
    pub open spec fn spec_pos(self) -> usize {
        match self {
            Error::IncompleteStr(pos) => pos,
            Error::InvalidChar { pos, .. } => pos,
            Error::ParseIntError { pos, .. } => pos,
        }
    }

    /// The message this error renders to, one template per kind.
    pub open spec fn spec_message(self) -> Seq<char> {
        match self {
            Error::IncompleteStr(pos) => "incomplete str, break at "@ + dec_digits(pos as nat),
            Error::InvalidChar { char: c, pos } => "invalid char, "@ + char_debug_of(c)
                + " break at "@ + dec_digits(pos as nat),
            Error::ParseIntError { pos, .. } => "parse int error, break at "@
                + dec_digits(pos as nat),
        }
    }

    /// Human-readable message for this error.
    pub fn message(&self) -> (s: String)
        ensures
            s@ == self.spec_message(),
    {
        let mut s = String::new();
        match self {
            Error::IncompleteStr(pos) => {
                s.append("incomplete str, break at ");
                let mut ds: Vec<char> = Vec::new();
                push_dec_digits(&mut ds, *pos);
                let d = chars_to_string(&ds);
                s.append(d.as_str());
                proof {
                    assert(s@ =~= self.spec_message());
                }
            },
            Error::InvalidChar { char: c, pos } => {
                s.append("invalid char, ");
                let quoted = char_debug(*c);
                s.append(quoted.as_str());
                s.append(" break at ");
                let mut ds: Vec<char> = Vec::new();
                push_dec_digits(&mut ds, *pos);
                let d = chars_to_string(&ds);
                s.append(d.as_str());
                proof {
                    assert(s@ =~= self.spec_message());
                }
            },
            Error::ParseIntError { pos, .. } => {
                s.append("parse int error, break at ");
                let mut ds: Vec<char> = Vec::new();
                push_dec_digits(&mut ds, *pos);
                let d = chars_to_string(&ds);
                s.append(d.as_str());
                proof {
                    assert(s@ =~= self.spec_message());
                }
            },
        }
        s
    }

    /// The numeric-conversion failure behind a `ParseIntError`, if any.
    pub fn source(&self) -> (r: Option<IntErrorKind>)
        ensures
            r == (match *self {
                Error::ParseIntError { source, .. } => Some(source),
                _ => None::<IntErrorKind>,
            }),
    {
        match self {
            Error::ParseIntError { source, .. } => Some(*source),
            _ => None,
        }
    }
}

/// The same error moved `off` characters to the right: translates a
/// position relative to one escape's sub-decode into a position relative
/// to the whole input.
pub open spec fn shift_pos(e: Error, off: int) -> Error {
    match e {
        Error::IncompleteStr(pos) => Error::IncompleteStr((pos + off) as usize),
        Error::InvalidChar { char: c, pos } => (Error::InvalidChar {
            char: c,
            pos: (pos + off) as usize,
        }),
        Error::ParseIntError { source, pos } => (Error::ParseIntError {
            source,
            pos: (pos + off) as usize,
        }),
    }
}

/// Executable counterpart of [`shift_pos`].
pub(crate) fn shift_err(e: Error, off: usize) -> (r: Error)
    requires
        e.spec_pos() + off <= usize::MAX,
    ensures
        r == shift_pos(e, off as int),
{
    match e {
        Error::IncompleteStr(pos) => Error::IncompleteStr(pos + off),
        Error::InvalidChar { char: c, pos } => Error::InvalidChar { char: c, pos: pos + off },
        Error::ParseIntError { source, pos } => Error::ParseIntError { source, pos: pos + off },
    }
}

} // verus!
