//! The executor-facing SFU service handle of a build that runs no media
//! server of its own.
use vstd::prelude::*;

verus! {

/// The SFU service handle of an executor that runs no SFU.
pub struct SfuService;

impl SfuService {
    /// Whether this executor offers an SFU: it does not.
    pub fn is_available() -> (r: bool)
        ensures
            !r,
    {
        false
    }
}

} // verus!
