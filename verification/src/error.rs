//! The two ways an operation can fail.

use vstd::prelude::*;

verus! {

/// Why an operation was refused.
#[derive(Debug)]
pub enum FsError {
    /// A segment that had to exist during traversal is missing; the payload
    /// is that segment.
    NotFound(String),
    /// A seek would have put the cursor before the start of the data.
    InvalidArgument,
}

} // verus!
