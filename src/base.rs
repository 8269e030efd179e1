//! Items shared by the whole crate.

use vstd::prelude::*;

/// Errors used throughout the crate.
pub mod error;

verus! {

/// Result type of the fallible operations of this crate.
pub type MLResult<T> = Result<T, error::Error>;

} // verus!
