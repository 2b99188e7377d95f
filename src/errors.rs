//! Errors that the engine reports.
use vstd::prelude::*;
use crate::text::{decimal, push_decimal, push_str};

verus! {

/// The classes of failure that the engine reports.
#[derive(Debug, Clone, Copy, PartialEq, Eq, Structural)]
pub enum ErrorKind {
    UnknownError,
    UnknownTokenError,
    UnknownMacroError,
    EndOfFile,
    ParseError,
}

/// The name of an error kind.
pub open spec fn kind_name(k: ErrorKind) -> Seq<char> {
    match k {
        ErrorKind::UnknownError => "UnknownError"@,
        ErrorKind::UnknownTokenError => "UnknownTokenError"@,
        ErrorKind::UnknownMacroError => "UnknownMacroError"@,
        ErrorKind::EndOfFile => "EndOfFile"@,
        ErrorKind::ParseError => "ParseError"@,
    }
}

impl ErrorKind {
    pub fn name(&self) -> (r: &'static str)
        ensures
            r@ == kind_name(*self),
    {
        match self {
            ErrorKind::UnknownError => "UnknownError",
            ErrorKind::UnknownTokenError => "UnknownTokenError",
            ErrorKind::UnknownMacroError => "UnknownMacroError",
            ErrorKind::EndOfFile => "EndOfFile",
            ErrorKind::ParseError => "ParseError",
        }
    }
}

/// How an error reads: `file:line:column [Kind] message`, or
/// `[Kind] message` without a location.
pub open spec fn error_text(e: Error) -> Seq<char> {
    let tail = "["@ + kind_name(e.kind) + "] "@ + e.message@;
    match e.location {
        Some((f, row, col)) => f@ + ":"@ + decimal(row as nat) + ":"@ + decimal(col as nat) + " "@ + tail,
        None => tail,
    }
}

/// A failure, with an optional source location (file name, line, column).
#[derive(Debug)]
pub struct Error {
    pub location: Option<(String, usize, usize)>,
    pub kind: ErrorKind,
    pub message: String,
}

impl Error {
    pub fn new_with_location(
        location: Option<(String, usize, usize)>,
        kind: ErrorKind,
        message: String,
    ) -> (r: Self)
        ensures
            r.location == location,
            r.kind == kind,
            r.message == message,
    {
        Error { location, kind, message }
    }

    pub fn new(kind: ErrorKind, message: String) -> (r: Self)
        ensures
            r.location is None,
            r.kind == kind,
            r.message == message,
    {
        Error { location: None, kind, message }
    }

    /// The text of the error, for a report.
    pub fn to_string(&self) -> (r: String)
        ensures
            r@ == error_text(*self),
    {
        let mut s = String::new();
        match &self.location {
            Some((f, row, col)) => {
                push_str(&mut s, f.as_str());
                push_str(&mut s, ":");
                push_decimal(&mut s, *row as u64);
                push_str(&mut s, ":");
                push_decimal(&mut s, *col as u64);
                push_str(&mut s, " ");
            },
            None => {},
        }
        push_str(&mut s, "[");
        push_str(&mut s, self.kind.name());
        push_str(&mut s, "] ");
        push_str(&mut s, self.message.as_str());
        match &self.location {
            Some((f, row, col)) => {
                assert(s@ =~= error_text(*self));
            },
            None => {
                assert(s@ =~= error_text(*self));
            },
        }
        s
    }

    pub fn eof() -> (r: Error)
        ensures
            r.location is None,
            r.kind == ErrorKind::EndOfFile,
    {
        Error { location: None, kind: ErrorKind::EndOfFile, message: "End of file reached".to_string() }
    }
}

} // verus!
