use vstd::prelude::*;

verus! {

/// Envelope for a successful command result.
pub struct SuccessResponse<T> {
    pub data: T,
    pub message: Option<String>,
}

impl<T> SuccessResponse<T> {
    pub fn new(data: T) -> (r: Self)
        ensures
            r.data == data,
            r.message is None,
    {
        Self { data, message: None }
    }
}

} // verus!
