//! The error of a request.

use vstd::prelude::*;

verus! {

/// Status of a refused request.
pub const STATUS_BAD_REQUEST: u16 = 400;

/// A request that is refused. Every other request is answered, whatever the size of the dataset.
#[derive(Debug, Clone, Copy, PartialEq, Eq, Structural)]
pub enum ApiError {
    /// The body is not a payload, or a timestamp in it does not parse.
    BadRequest,
}

impl ApiError {
    /// The HTTP status of the reply, whose body is empty.
    #[must_use]
    pub fn status(&self) -> (status: u16)
        ensures
            status == STATUS_BAD_REQUEST,
    {
        match self {
            ApiError::BadRequest => STATUS_BAD_REQUEST,
        }
    }
}

} // verus!
