//! Errors, and how to say where one came from.

use vstd::prelude::*;
use vstd::string::StringExecFns;

verus! {

/// What went wrong, in broad terms.
#[derive(Debug, Clone, Copy, PartialEq, Eq, Structural)]
pub enum ErrorKind {
    /// A parameter was not what it has to be: a filter that is no filter.
    InvalidInput,
    /// Stored data was not what it has to be: a changes file that is corrupt.
    InvalidData,
}

/// An error of this library: its kind, and a message for the reader.
#[derive(Debug)]
pub struct Error {
    pub kind: ErrorKind,
    pub message: String,
}

impl Error {
    /// An error of the given kind that says `message`.
    pub fn new(kind: ErrorKind, message: &str) -> (error: Self)
        ensures
            error.kind == kind,
            error.message@ == message@,
    {
        Error { kind, message: String::from_str(message) }
    }

    /// The kind of the error.
    pub fn kind(&self) -> (kind: ErrorKind)
        ensures
            kind == self.kind,
    {
        self.kind
    }

    /// What the error says.
    pub fn to_string(&self) -> (text: String)
        ensures
            text@ == self.message@,
    {
        self.message.clone()
    }
}

/// What stands between a context and the message that it is put before.
pub open spec fn context_separator() -> Seq<char> {
    seq![':', ' ']
}

/// Adds to an error a word on what was being done when it came up.
pub trait Context: Sized {
    /// Whether `after` is `before` with `message` put before what an error
    /// in it says.
    spec fn annotated(before: Self, message: Seq<char>, after: Self) -> bool;

    /// Puts `message` before what the error says.
    fn context(self, message: &str) -> (annotated: Self)
        ensures
            Self::annotated(self, message@, annotated),
    ;
}

impl Context for Error {
    open spec fn annotated(before: Self, message: Seq<char>, after: Self) -> bool {
        &&& after.kind == before.kind
        &&& after.message@ == message + context_separator() + before.message@
    }

    fn context(self, message: &str) -> (annotated: Self) {
        let mut text = String::from_str(message);
        proof {
            reveal_strlit(": ");
        }
        assert(": "@ =~= context_separator());
        text.append(": ");
        text.append(self.message.as_str());
        Error { kind: self.kind, message: text }
    }
}

impl<T> Context for Result<T, Error> {
    open spec fn annotated(before: Self, message: Seq<char>, after: Self) -> bool {
        match before {
            Ok(value) => after == before,
            Err(error) => after matches Err(told) && Error::annotated(error, message, told),
        }
    }

    fn context(self, message: &str) -> (annotated: Self) {
        match self {
            Ok(value) => Ok(value),
            Err(error) => Err(error.context(message)),
        }
    }
}

} // verus!
