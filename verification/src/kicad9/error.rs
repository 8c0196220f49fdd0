//! Error type for KiCad 9 footprint reading.

use vstd::prelude::*;
use crate::text::{decimal, push_char, push_decimal};

verus! {

#[verifier::external_type_specification]
#[verifier::external_body]
pub struct ExIoError(std::io::Error);

/// Parse or I/O error.
#[derive(Debug)]
pub enum Error {
    Io(std::io::Error),
    Parse { message: String, offset: Option<usize> },
}

/// Writes an I/O error with its `Display` impl (`format!("{}", e)`). The text comes from the
/// operating system and its locale, so nothing is stated of it.
#[verifier::external_body]
fn io_error_text(e: &std::io::Error) -> String {
    format!("{}", e)
}

/// Prefix of the text of an I/O error.
pub open spec fn io_prefix() -> Seq<char> {
    seq!['I', '/', 'O', ' ', 'e', 'r', 'r', 'o', 'r', ':', ' ']
}

/// Text of a parse error, as the error's display form writes it.
pub open spec fn parse_error_text(message: Seq<char>, offset: Option<usize>) -> Seq<char> {
    match offset {
        Some(o) => "Parse error at offset "@ + decimal(o as nat) + ": "@ + message,
        None => "Parse error: "@ + message,
    }
}

impl Error {
    /// The error as text: `I/O error: ...`, `Parse error at offset N: ...` or `Parse error: ...`.
    pub fn display(&self) -> (r: String)
        ensures
            match self {
                Error::Parse { message, offset } => r@ == parse_error_text(message@, *offset),
                Error::Io(_) => r@.len() >= io_prefix().len() && r@.take(io_prefix().len() as int)
                    == io_prefix(),
            },
    {
        match self {
            Error::Io(e) => {
                let mut r = String::from_str("I/O error: ");
                let t = io_error_text(e);
                proof {
                    reveal_strlit("I/O error: ");
                }
                let ghost before = r@;
                r.append(t.as_str());
                assert(before =~= io_prefix());
                assert(r@.take(io_prefix().len() as int) =~= io_prefix());
                r
            },
            Error::Parse { message, offset } => {
                match offset {
                    Some(o) => {
                        let mut r = String::from_str("Parse error at offset ");
                        push_decimal(&mut r, *o as u64);
                        r.append(": ");
                        r.append(message.as_str());
                        r
                    },
                    None => {
                        let mut r = String::from_str("Parse error: ");
                        r.append(message.as_str());
                        r
                    },
                }
            },
        }
    }
}

impl From<std::io::Error> for Error {
    fn from(e: std::io::Error) -> (r: Self) {
        Error::Io(e)
    }
}

impl vstd::std_specs::convert::FromSpecImpl<std::io::Error> for Error {
    open spec fn obeys_from_spec() -> bool {
        true
    }

    open spec fn from_spec(e: std::io::Error) -> Self {
        Error::Io(e)
    }
}

} // verus!
