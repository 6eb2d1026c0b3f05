//! The library's error type.

use vstd::prelude::*;

verus! {

/// A user-facing failure, carried as a plain message.
#[derive(Debug)]
pub struct RuaError {
    pub msg: String,
}

impl RuaError {
    /// Builds an error from a message.
    pub fn new(msg: String) -> (e: RuaError)
        ensures
            e.msg@ == msg@,
    {
        RuaError { msg }
    }

    /// The message to show the user.
    pub fn message(&self) -> (m: &String)
        ensures
            m@ == self.msg@,
    {
        &self.msg
    }
}

} // verus!
