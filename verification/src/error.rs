//! The decoder's uniform failure type: one opaque kind carrying a message.

use vstd::prelude::*;

verus! {

/// A decode failure.  It carries a human-readable message and nothing else:
/// decode failures target debugging, not programmatic recovery.
#[derive(Debug)]
pub struct Error {
    msg: String,
}

impl View for Error {
    type V = Seq<char>;

    closed spec fn view(&self) -> Seq<char> {
        self.msg@
    }
}

impl Error {
    /// Builds an error from an explicit message.
    pub fn custom(msg: String) -> (r: Error)
        ensures
            r@ == msg@,
    {
        Error { msg }
    }

    /// The carried message.
    pub fn message(&self) -> (r: &String)
        ensures
            r@ == self@,
    {
        &self.msg
    }
}

} // verus!
