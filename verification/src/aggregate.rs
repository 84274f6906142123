//! The intermediate aggregation step of the PVSS transcripts.
use vstd::prelude::*;

verus! {

/// The intermediate aggregation step; it does nothing.
pub fn aggregrate_intermediate() {
}

} // verus!
