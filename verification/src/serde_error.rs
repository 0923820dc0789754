//! The error type of (de)serialization.
use vstd::prelude::*;

verus! {

/// A (de)serialization failure, holding its message.
#[derive(Clone, Debug, PartialEq, Eq)]
pub struct Error(String);

impl View for Error {
    type V = Seq<char>;

    closed spec fn view(&self) -> Seq<char> {
        self.0@
    }
}

impl Error {
    /// An error with the given message.
    pub fn msg(message: &str) -> (r: Error)
        ensures
            r@ == message@,
    {
        Error(message.to_string())
    }

    /// The error's message.
    pub fn message(&self) -> (r: &str)
        ensures
            r@ == self@,
    {
        self.0.as_str()
    }
}

} // verus!
