//! What can go wrong, as values the caller can inspect.

use vstd::prelude::*;
use crate::text::push_str;

verus! {

#[derive(Debug)]
pub enum Error {
    UnknownTweak(String),
    Unsupported { tweak: String, reason: String },
    BadValue { tweak: String, got: String, expected: String },
    /// The registry held something we did not expect (wrong type, or a value
    /// outside the range we know how to map). We refuse to guess: a tweak that
    /// cannot read the current state cannot promise a clean revert.
    UnexpectedState { loc: String, detail: String },
    /// Raised by a provider. The concrete OS error is flattened to a string so
    /// this crate stays free of platform dependencies.
    Registry(String),
    Shell(String),
    NeedsElevation(String),
    Journal(String),
    /// A file could not be read or written; the text is the system's own.
    Io(String),
    /// A document was not the JSON it should have been; the text is the
    /// parser's own.
    Json(String),
}

impl Error {
    pub fn registry(detail: String) -> (e: Self)
        ensures
            e matches Error::Registry(d) && d@ == detail@,
    {
        Error::Registry(detail)
    }

    pub fn shell(detail: String) -> (e: Self)
        ensures
            e matches Error::Shell(d) && d@ == detail@,
    {
        Error::Shell(detail)
    }

    /// The sentence shown to a person.
    pub open spec fn text(&self) -> Seq<char> {
        match self {
            Error::UnknownTweak(t) => "unknown tweak `"@ + t@ + "`"@,
            Error::Unsupported { tweak, reason } => "tweak `"@ + tweak@
                + "` is not available on this Windows build: "@ + reason@,
            Error::BadValue { tweak, got, expected } => "invalid value for `"@ + tweak@
                + "`: got "@ + got@ + ", expected "@ + expected@,
            Error::UnexpectedState { loc, detail } => "unexpected registry state at "@ + loc@
                + ": "@ + detail@,
            Error::Registry(d) => "registry: "@ + d@,
            Error::Shell(d) => "shell refresh: "@ + d@,
            Error::NeedsElevation(d) => "this change needs administrator rights ("@ + d@
                + ") and the broker is not available yet"@,
            Error::Journal(d) => "journal: "@ + d@,
            Error::Io(d) => d@,
            Error::Json(d) => d@,
        }
    }

    /// The sentence shown to a person, as a string.
    pub fn message(&self) -> (r: String)
        ensures
            r@ == self.text(),
    {
        let mut s = String::new();
        match self {
            Error::UnknownTweak(t) => {
                push_str(&mut s, "unknown tweak `");
                push_str(&mut s, t.as_str());
                push_str(&mut s, "`");
            },
            Error::Unsupported { tweak, reason } => {
                push_str(&mut s, "tweak `");
                push_str(&mut s, tweak.as_str());
                push_str(&mut s, "` is not available on this Windows build: ");
                push_str(&mut s, reason.as_str());
            },
            Error::BadValue { tweak, got, expected } => {
                push_str(&mut s, "invalid value for `");
                push_str(&mut s, tweak.as_str());
                push_str(&mut s, "`: got ");
                push_str(&mut s, got.as_str());
                push_str(&mut s, ", expected ");
                push_str(&mut s, expected.as_str());
            },
            Error::UnexpectedState { loc, detail } => {
                push_str(&mut s, "unexpected registry state at ");
                push_str(&mut s, loc.as_str());
                push_str(&mut s, ": ");
                push_str(&mut s, detail.as_str());
            },
            Error::Registry(d) => {
                push_str(&mut s, "registry: ");
                push_str(&mut s, d.as_str());
            },
            Error::Shell(d) => {
                push_str(&mut s, "shell refresh: ");
                push_str(&mut s, d.as_str());
            },
            Error::NeedsElevation(d) => {
                push_str(&mut s, "this change needs administrator rights (");
                push_str(&mut s, d.as_str());
                push_str(&mut s, ") and the broker is not available yet");
            },
            Error::Journal(d) => {
                push_str(&mut s, "journal: ");
                push_str(&mut s, d.as_str());
            },
            Error::Io(d) => {
                push_str(&mut s, d.as_str());
            },
            Error::Json(d) => {
                push_str(&mut s, d.as_str());
            },
        }
        proof {
            assert(s@ =~= self.text());
        }
        s
    }
}

} // verus!
