use vstd::prelude::*;

verus! {

/// Why an operation on the cache or on its node store did not go through.
#[derive(Clone, Copy, Debug, PartialEq, Eq, Structural)]
pub enum CacheError {
    /// The key is not in the cache.
    NotFound,
    /// The handle does not name a live entry of the store.
    InvalidHandle,
}

impl CacheError {
    /// A short text for the error.
    pub fn message(&self) -> (text: &'static str)
        ensures
            text@ == (match *self {
                CacheError::NotFound => "Not found"@,
                CacheError::InvalidHandle => "Invalid handle"@,
            }),
    {
        match self {
            CacheError::NotFound => "Not found",
            CacheError::InvalidHandle => "Invalid handle",
        }
    }
}

} // verus!
