//! Error values that carry a message for the caller to report.

use vstd::prelude::*;

verus! {

/// An argument that a function could not accept.
#[derive(Debug)]
pub struct IllegalArgumentException(String);

impl View for IllegalArgumentException {
    type V = Seq<char>;

    /// The message, as the characters it was made from.
    closed spec fn view(&self) -> Seq<char> {
        self.0@
    }
}

impl IllegalArgumentException {
    /// An error that carries `msg`.
    pub fn new(msg: &str) -> (error: IllegalArgumentException)
        ensures
            error@ == msg@,
    {
        IllegalArgumentException(msg.to_string())
    }

    /// The message, borrowed.
    pub fn description(&self) -> (msg: &str)
        ensures
            msg@ == self@,
    {
        self.0.as_str()
    }

    /// The message, as a string of its own.
    pub fn to_string(&self) -> (msg: String)
        ensures
            msg@ == self@,
    {
        self.0.clone()
    }
}

/// An operation that was asked for in a state that does not allow it.
#[derive(Debug)]
pub struct IllegalStateException {
    details: String,
}

impl View for IllegalStateException {
    type V = Seq<char>;

    /// The message, as the characters it was made from.
    closed spec fn view(&self) -> Seq<char> {
        self.details@
    }
}

impl IllegalStateException {
    /// An error that carries `msg`.
    pub fn new(msg: &str) -> (error: IllegalStateException)
        ensures
            error@ == msg@,
    {
        IllegalStateException { details: msg.to_string() }
    }

    /// The message, borrowed.
    pub fn description(&self) -> (msg: &str)
        ensures
            msg@ == self@,
    {
        self.details.as_str()
    }

    /// The message, as a string of its own.
    pub fn to_string(&self) -> (msg: String)
        ensures
            msg@ == self@,
    {
        self.details.clone()
    }
}

} // verus!
