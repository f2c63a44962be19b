//! Session identifiers: one per harness run, namespacing that run's
//! metadata and trial rows in the persistent store.

use vstd::prelude::*;

verus! {

/// An opaque session identifier: the wall-clock second the run started at,
/// raised past collisions until unused. Minting and collision probing
/// belong to the store; this type only carries the value.
#[derive(Debug, Clone, Copy, PartialEq, Eq, PartialOrd, Ord, Hash, Structural)]
pub struct BenchSessionId(pub u64);

impl BenchSessionId {
    /// The second the session started at, as whole seconds since the Unix
    /// epoch.
    pub fn start_time(&self) -> (r: u64)
        ensures
            r == self.0,
    {
        self.0
    }
}

} // verus!
