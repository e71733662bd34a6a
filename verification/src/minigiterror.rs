//! The single error record used throughout the library: a human-readable
//! message describing the first failure of an operation.

use vstd::prelude::*;

verus! {

pub type MinigitResult<T> = Result<T, MinigitError>;

#[derive(Debug)]
pub struct MinigitError {
    pub message: String,
}

impl MinigitError {
    pub fn new(message: String) -> (r: MinigitError)
        ensures
            r.message@ == message@,
    {
        MinigitError { message }
    }
}

} // verus!
