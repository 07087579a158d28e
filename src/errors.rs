use vstd::prelude::*;

verus! {

/// The errors of the query handlers.
#[derive(Debug, PartialEq, Eq)]
pub enum AppError {
    /// The selector text does not parse.
    InvalidLogQL(String),
    /// The trace query text does not parse.
    InvalidTraceQL(String),
    /// A `start` or `end` bound does not parse.
    InvalidTimeFormat(String),
    /// Malformed request parameters, or a series request without label pairs.
    InvalidQueryString(String),
    /// The storage backend failed.
    DBError(String),
    /// A cached payload could not be encoded or decoded.
    SerdeError(String),
    /// The backend returned a value of a type this layer cannot represent.
    UnsupportedDataType(String),
    /// Any other storage failure.
    StorageError(String),
}

} // verus!
