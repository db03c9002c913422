use vstd::prelude::*;

verus! {

/// Error raised by import, validation, export and analysis.
#[derive(Debug)]
pub struct OcelError {
    pub message: String,
}

impl OcelError {
    /// Builds an error carrying the given message.
    pub fn new(message: String) -> (e: OcelError)
        ensures
            e.message@ == message@,
    {
        OcelError { message }
    }
}

} // verus!
