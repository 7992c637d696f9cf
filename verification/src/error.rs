//! What is wrong with a piece of input.
use vstd::prelude::*;

verus! {

/// Input that cannot be used, and why.
#[derive(Debug)]
pub struct DataError {
    pub message: String,
}

/// Input that cannot be used for this reason.
pub fn invalid_data(message: String) -> (error: DataError)
    ensures
        error.message@ == message@,
{
    DataError { message }
}

} // verus!
