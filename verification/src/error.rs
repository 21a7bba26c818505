//! Errors reported by the library.
use vstd::prelude::*;

verus! {

/// The error kinds callers of the library act on.
#[derive(Debug)]
pub enum ContextraError {
    Validation(String),
    Unauthorized(String),
    Forbidden(String),
    RateLimited(String),
    NotFound(String),
    ProviderError(String),
}

} // verus!
