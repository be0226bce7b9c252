//! The one error type of the library.

use vstd::prelude::*;
use vstd::string::StringSliceAdditionalSpecFns;
use crate::text::{append_str, decimal, usize_to_decimal};

verus! {

broadcast use vstd::string::group_string_axioms;

/// Structured error for every failure surface of the library.
#[derive(Debug, Clone, PartialEq, Eq)]
pub enum Error {
    /// Parse error with 1-based source position.
    Parse { line: usize, col: usize, msg: String },
    /// Wrong variant of a value encountered while coercing.
    Type { expected: &'static str, got: &'static str, path: String },
    /// Required object field not found during deserialization.
    MissingField { name: String, path: String },
    /// RFC 6901 pointer failure.
    Pointer { path: String, reason: String },
    /// RFC 6902 patch failure.
    Patch { path: String, reason: String },
    /// Free-form message for uncategorized errors.
    Custom(String),
}

impl Error {
    /// The text the error is shown as.
    pub open spec fn text(&self) -> Seq<char> {
        match self {
            Error::Parse { line, col, msg } => msg@ + " at "@ + decimal(*line as nat) + ":"@
                + decimal(*col as nat),
            Error::Type { expected, got, path } => if path@.len() == 0 {
                "expected "@ + expected@ + ", got "@ + got@
            } else {
                "expected "@ + expected@ + ", got "@ + got@ + " at "@ + path@
            },
            Error::MissingField { name, path } => if path@.len() == 0 {
                "missing field `"@ + name@ + "`"@
            } else {
                "missing field `"@ + name@ + "`"@ + " at "@ + path@
            },
            Error::Pointer { path, reason } => "pointer error at "@ + path@ + ": "@ + reason@,
            Error::Patch { path, reason } => "patch error at "@ + path@ + ": "@ + reason@,
            Error::Custom(msg) => msg@,
        }
    }

    pub fn parse(line: usize, col: usize, msg: &str) -> (e: Self)
        ensures
            e matches Error::Parse { line: l, col: c, msg: m } && l == line && c == col && m@
                == msg@,
    {
        Error::Parse { line, col, msg: msg.to_owned() }
    }

    pub fn ty(expected: &'static str, got: &'static str) -> (e: Self)
        ensures
            e matches Error::Type { expected: x, got: g, path } && x == expected && g == got
                && path@.len() == 0,
    {
        Error::Type { expected, got, path: String::new() }
    }

    pub fn ty_at(expected: &'static str, got: &'static str, path: &str) -> (e: Self)
        ensures
            e matches Error::Type { expected: x, got: g, path: p } && x == expected && g == got
                && p@ == path@,
    {
        Error::Type { expected, got, path: path.to_owned() }
    }

    pub fn missing_field(name: &str) -> (e: Self)
        ensures
            e matches Error::MissingField { name: n, path } && n@ == name@ && path@.len() == 0,
    {
        Error::MissingField { name: name.to_owned(), path: String::new() }
    }

    pub fn pointer(path: &str, reason: &str) -> (e: Self)
        ensures
            e matches Error::Pointer { path: p, reason: r } && p@ == path@ && r@ == reason@,
    {
        Error::Pointer { path: path.to_owned(), reason: reason.to_owned() }
    }

    pub fn patch(path: &str, reason: &str) -> (e: Self)
        ensures
            e matches Error::Patch { path: p, reason: r } && p@ == path@ && r@ == reason@,
    {
        Error::Patch { path: path.to_owned(), reason: reason.to_owned() }
    }

    pub fn custom(msg: &str) -> (e: Self)
        ensures
            e matches Error::Custom(m) && m@ == msg@,
    {
        Error::Custom(msg.to_owned())
    }

    /// The error as text: `"{msg} at {line}:{col}"` for a parse error,
    /// `"expected {expected}, got {got}"` for a type error, and so on.
    pub fn to_string(&self) -> (s: String)
        ensures
            s@ == self.text(),
    {
        match self {
            Error::Parse { line, col, msg } => {
                let mut s = msg.clone();
                append_str(&mut s, " at ");
                let l = usize_to_decimal(*line);
                append_str(&mut s, l.as_str());
                append_str(&mut s, ":");
                let c = usize_to_decimal(*col);
                append_str(&mut s, c.as_str());
                s
            },
            Error::Type { expected, got, path } => {
                let mut s = String::new();
                append_str(&mut s, "expected ");
                append_str(&mut s, expected);
                append_str(&mut s, ", got ");
                append_str(&mut s, got);
                if !path.as_str().is_empty() {
                    append_str(&mut s, " at ");
                    append_str(&mut s, path.as_str());
                }
                s
            },
            Error::MissingField { name, path } => {
                let mut s = String::new();
                append_str(&mut s, "missing field `");
                append_str(&mut s, name.as_str());
                append_str(&mut s, "`");
                if !path.as_str().is_empty() {
                    append_str(&mut s, " at ");
                    append_str(&mut s, path.as_str());
                }
                s
            },
            Error::Pointer { path, reason } => {
                let mut s = String::new();
                append_str(&mut s, "pointer error at ");
                append_str(&mut s, path.as_str());
                append_str(&mut s, ": ");
                append_str(&mut s, reason.as_str());
                s
            },
            Error::Patch { path, reason } => {
                let mut s = String::new();
                append_str(&mut s, "patch error at ");
                append_str(&mut s, path.as_str());
                append_str(&mut s, ": ");
                append_str(&mut s, reason.as_str());
                s
            },
            Error::Custom(msg) => msg.clone(),
        }
    }
}

/// The result of the library's fallible operations.
pub type Result<T> = std::result::Result<T, Error>;

} // verus!
