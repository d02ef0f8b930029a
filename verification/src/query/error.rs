//! The error of the dotted query format.

use vstd::prelude::*;
use crate::text::concat_str;

verus! {

/// An error of the dotted query format: a short message.
#[derive(Debug)]
pub struct Error {
    message: String,
}

/// The message of the error for a kind of value the format cannot write.
pub open spec fn unsupported_message(what: Seq<char>) -> Seq<char> {
    "query format cannot serialize "@ + what
}

impl Error {
    /// An error with the given message.
    pub fn custom(message: String) -> (r: Error)
        ensures
            r.message() == message@,
    {
        Error { message }
    }

    /// The message of the error.
    pub closed spec fn message(&self) -> Seq<char> {
        self.message@
    }

    /// The message of the error, as text.
    pub fn text(&self) -> (r: &str)
        ensures
            r@ == self.message(),
    {
        self.message.as_str()
    }

    /// Rejects a kind of value that the format cannot write (a sequence, a
    /// deeper nesting, bytes, ...): always `Err`, naming `what`.
    pub fn unsupported<T>(what: &str) -> (r: Result<T, Error>)
        ensures
            r matches Err(e) && e.message() == unsupported_message(what@),
    {
        let m = concat_str("query format cannot serialize ", what);
        Err(Error { message: m })
    }
}

} // verus!
